use vstd::prelude::*;

verus! {

/// The AST node for expressions.
#[derive(Debug)]
pub enum Expr {
    Literal(String),
    Identifier(String),
    Assign(String, Box<Expr>),
    Eq(Box<Expr>, Box<Expr>),
    Ne(Box<Expr>, Box<Expr>),
    Lt(Box<Expr>, Box<Expr>),
    Le(Box<Expr>, Box<Expr>),
    Gt(Box<Expr>, Box<Expr>),
    Ge(Box<Expr>, Box<Expr>),
    Add(Box<Expr>, Box<Expr>),
    Sub(Box<Expr>, Box<Expr>),
    Mul(Box<Expr>, Box<Expr>),
    Div(Box<Expr>, Box<Expr>),
    IfElse(Box<Expr>, Vec<Expr>, Vec<Expr>),
    WhileLoop(Box<Expr>, Vec<Expr>),
    Call(String, Vec<Expr>),
    GlobalDataAddr(String),
}

/// A parsed function definition: its name, its parameters in order, the
/// name of its return variable and its statements.
#[derive(Debug)]
pub struct FunctionDef {
    pub name: String,
    pub params: Vec<String>,
    pub the_return: String,
    pub body: Vec<Expr>,
}

/// A token without a payload: a keyword, an operator or punctuation.
#[derive(Clone, Copy, PartialEq, Eq, Structural, Debug)]
pub enum Sym {
    LParen,
    RParen,
    LBrace,
    RBrace,
    Comma,
    Arrow,
    Newline,
    Assign,
    EqEq,
    NotEq,
    Less,
    LessEq,
    Greater,
    GreaterEq,
    Plus,
    Minus,
    Star,
    Slash,
    Amp,
}

/// The abstract shape of a token: what the parser consumes and what a
/// pretty-printer emits.
pub enum Tok {
    Sym(Sym),
    Ident(Seq<char>),
    Num(Seq<char>),
}

/// The word `fn`, which opens a definition.
pub open spec fn kw_fn() -> Seq<char> {
    seq!['f', 'n']
}

/// The word `if`, which opens an `if`/`else` where an expression starts.
pub open spec fn kw_if() -> Seq<char> {
    seq!['i', 'f']
}

/// The word `else`, between the branches of an `if`.
pub open spec fn kw_else() -> Seq<char> {
    seq!['e', 'l', 's', 'e']
}

/// The word `while`, which opens a loop where an expression starts.
pub open spec fn kw_while() -> Seq<char> {
    seq!['w', 'h', 'i', 'l', 'e']
}

/// The tokens that print an expression, binary operators written infix and
/// without parentheses.
pub open spec fn emit_expr(e: Expr) -> Seq<Tok>
    decreases e,
{
    match e {
        Expr::Literal(s) => seq![Tok::Num(s@)],
        Expr::Identifier(n) => seq![Tok::Ident(n@)],
        Expr::GlobalDataAddr(n) => seq![Tok::Sym(Sym::Amp), Tok::Ident(n@)],
        Expr::Assign(n, r) => seq![Tok::Ident(n@), Tok::Sym(Sym::Assign)] + emit_expr(*r),
        Expr::Eq(a, b) => emit_expr(*a) + seq![Tok::Sym(Sym::EqEq)] + emit_expr(*b),
        Expr::Ne(a, b) => emit_expr(*a) + seq![Tok::Sym(Sym::NotEq)] + emit_expr(*b),
        Expr::Lt(a, b) => emit_expr(*a) + seq![Tok::Sym(Sym::Less)] + emit_expr(*b),
        Expr::Le(a, b) => emit_expr(*a) + seq![Tok::Sym(Sym::LessEq)] + emit_expr(*b),
        Expr::Gt(a, b) => emit_expr(*a) + seq![Tok::Sym(Sym::Greater)] + emit_expr(*b),
        Expr::Ge(a, b) => emit_expr(*a) + seq![Tok::Sym(Sym::GreaterEq)] + emit_expr(*b),
        Expr::Add(a, b) => emit_expr(*a) + seq![Tok::Sym(Sym::Plus)] + emit_expr(*b),
        Expr::Sub(a, b) => emit_expr(*a) + seq![Tok::Sym(Sym::Minus)] + emit_expr(*b),
        Expr::Mul(a, b) => emit_expr(*a) + seq![Tok::Sym(Sym::Star)] + emit_expr(*b),
        Expr::Div(a, b) => emit_expr(*a) + seq![Tok::Sym(Sym::Slash)] + emit_expr(*b),
        Expr::IfElse(c, t, f) => seq![Tok::Ident(kw_if())] + emit_expr(*c) + seq![Tok::Sym(Sym::LBrace), Tok::Sym(Sym::Newline)]
            + emit_stmts(t@) + seq![Tok::Sym(Sym::RBrace), Tok::Ident(kw_else()), Tok::Sym(Sym::LBrace), Tok::Sym(Sym::Newline)]
            + emit_stmts(f@) + seq![Tok::Sym(Sym::RBrace)],
        Expr::WhileLoop(c, b) => seq![Tok::Ident(kw_while())] + emit_expr(*c) + seq![Tok::Sym(Sym::LBrace), Tok::Sym(Sym::Newline)]
            + emit_stmts(b@) + seq![Tok::Sym(Sym::RBrace)],
        Expr::Call(n, args) => seq![Tok::Ident(n@), Tok::Sym(Sym::LParen)] + emit_args(args@)
            + seq![Tok::Sym(Sym::RParen)],
    }
}

/// Statements, each followed by a newline.
pub open spec fn emit_stmts(s: Seq<Expr>) -> Seq<Tok>
    decreases s,
{
    if s.len() == 0 {
        Seq::empty()
    } else {
        emit_stmts(s.drop_last()) + emit_expr(s.last()) + seq![Tok::Sym(Sym::Newline)]
    }
}

/// Call arguments, separated by commas.
pub open spec fn emit_args(s: Seq<Expr>) -> Seq<Tok>
    decreases s,
{
    if s.len() == 0 {
        Seq::empty()
    } else if s.len() == 1 {
        emit_expr(s[0])
    } else {
        emit_args(s.drop_last()) + seq![Tok::Sym(Sym::Comma)] + emit_expr(s.last())
    }
}

/// Parameter names, separated by commas.
pub open spec fn emit_params(s: Seq<Seq<char>>) -> Seq<Tok>
    decreases s.len(),
{
    if s.len() == 0 {
        Seq::empty()
    } else if s.len() == 1 {
        seq![Tok::Ident(s[0])]
    } else {
        emit_params(s.drop_last()) + seq![Tok::Sym(Sym::Comma), Tok::Ident(s.last())]
    }
}

/// The names of a vector of strings.
pub open spec fn names_of(v: Seq<String>) -> Seq<Seq<char>> {
    v.map_values(|s: String| s@)
}

/// The tokens that print a function definition.
pub open spec fn emit_function(f: FunctionDef) -> Seq<Tok> {
    seq![Tok::Ident(kw_fn()), Tok::Ident(f.name@), Tok::Sym(Sym::LParen)]
        + emit_params(names_of(f.params@))
        + seq![Tok::Sym(Sym::RParen), Tok::Sym(Sym::Arrow), Tok::Sym(Sym::LParen),
            Tok::Ident(f.the_return@), Tok::Sym(Sym::RParen), Tok::Sym(Sym::LBrace),
            Tok::Sym(Sym::Newline)]
        + emit_stmts(f.body@)
        + seq![Tok::Sym(Sym::RBrace), Tok::Sym(Sym::Newline)]
}

} // verus!
