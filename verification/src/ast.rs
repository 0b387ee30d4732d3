//! Abstract syntax tree: items, functions, types, blocks, statements and
//! expressions, with the mathematical view of each tree node.
use vstd::prelude::*;

verus! {

/// A parsed source file: its top-level items in declaration order.
#[derive(Debug)]
pub struct SourceFile {
    /// Top-level items in declaration order.
    pub items: Vec<Item>,
}

/// A top-level item.
#[derive(Debug)]
pub enum Item {
    /// A function definition.
    Fn(Box<FnDef>),
}

/// A function definition: name, parameter list, optional return type and
/// body block.
#[derive(Debug)]
pub struct FnDef {
    /// Function name as a packed lexer span; `lexer::token_text(name, source)`
    /// recovers the text.
    pub name: u32,
    /// Function parameters.
    pub params: Vec<Param>,
    /// Return type. `None` means the unit type `()`.
    pub ret: Option<Ty>,
    /// Function body.
    pub body: Block,
}

/// A function parameter `name: Ty`.
#[derive(Debug)]
pub struct Param {
    /// Parameter name (packed lexer span).
    pub name: u32,
    /// Parameter type.
    pub ty: Ty,
}

/// A type. Only scalar primitives so far.
#[derive(Clone, Copy, Debug, PartialEq, Eq, Structural)]
pub enum Ty {
    /// `i32`: signed 32-bit integer.
    I32,
}

/// A block expression: statements and an optional tail expression.
#[derive(Debug)]
pub struct Block {
    /// Statements in execution order.
    pub stmts: Vec<Stmt>,
    /// Optional tail expression (no trailing semicolon).
    pub tail: Option<Box<Expr>>,
}

/// A statement.
#[derive(Debug)]
pub enum Stmt {
    /// An expression statement: expression followed by `;`.
    Expr(Box<Expr>),
}

/// An expression.
#[derive(Debug)]
pub enum Expr {
    /// An integer literal, as a packed lexer span.
    IntLit(u32),
    /// A boolean literal.
    BoolLit(bool),
    /// A `return` expression; the inner expression is `None` for a bare
    /// `return`.
    Return(Option<Box<Expr>>),
}

/// The view of a [`Block`].
pub struct BlockView {
    pub stmts: Seq<Stmt>,
    pub tail: Option<Box<Expr>>,
}

/// The view of a [`FnDef`].
pub struct FnDefView {
    pub name: u32,
    pub params: Seq<Param>,
    pub ret: Option<Ty>,
    pub body: BlockView,
}

/// The view of an [`Item`].
pub enum ItemView {
    Fn(FnDefView),
}

impl View for Block {
    type V = BlockView;

    open spec fn view(&self) -> BlockView {
        BlockView { stmts: self.stmts@, tail: self.tail }
    }
}

impl View for FnDef {
    type V = FnDefView;

    open spec fn view(&self) -> FnDefView {
        FnDefView { name: self.name, params: self.params@, ret: self.ret, body: self.body@ }
    }
}

impl View for Item {
    type V = ItemView;

    open spec fn view(&self) -> ItemView {
        match self {
            Item::Fn(f) => ItemView::Fn(f@),
        }
    }
}

impl View for SourceFile {
    type V = Seq<ItemView>;

    open spec fn view(&self) -> Seq<ItemView> {
        self.items@.map_values(|item: Item| item@)
    }
}

} // verus!
