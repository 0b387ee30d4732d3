# galvanic

The first phases of a compiler for a small subset of Rust, verified with Verus.

- `src/lexer.rs`: tokens, packed spans (`pack_span`, `span_start`, `span_len`,
  `token_text`) and the lexer (`tokenize`, `try_tokenize`). The lexical grammar
  is stated as spec functions over the source's UTF-8 bytes (`lex`, `step`),
  and the lexer is proved to compute it.
- `src/ast.rs`: the syntax tree and its views.
- `src/parser.rs`: the grammar as spec functions over token positions
  (`parse_source`) and the recursive-descent parser (`parse`, and `try_parse`
  for streams outside the grammar) proved to
  compute it, with laws that tie the parser's output back to the source text.
- `app/main.rs`: the command line: reads a file and reports its token count.
