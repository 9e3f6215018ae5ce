use vstd::prelude::*;
use crate::ast::{Expr, FunctionDef, Sym, Tok, emit_expr, emit_stmts, emit_args, emit_params,
    emit_function, names_of, kw_fn, kw_if, kw_else, kw_while};
use crate::lower::operands;

verus! {

/// The precedence level of a binary operator symbol: 1 for comparisons, 2
/// for additive and 3 for multiplicative operators; 0 for any other symbol.
pub open spec fn level_of(s: Sym) -> u8 {
    match s {
        Sym::EqEq | Sym::NotEq | Sym::Less | Sym::LessEq | Sym::Greater | Sym::GreaterEq => 1,
        Sym::Plus | Sym::Minus => 2,
        Sym::Star | Sym::Slash => 3,
        _ => 0,
    }
}

/// The precedence level of a binary node; 0 for any other node.
pub open spec fn op_level(e: Expr) -> int {
    match e {
        Expr::Eq(..) | Expr::Ne(..) | Expr::Lt(..) | Expr::Le(..) | Expr::Gt(..) | Expr::Ge(..) => 1,
        Expr::Add(..) | Expr::Sub(..) => 2,
        Expr::Mul(..) | Expr::Div(..) => 3,
        _ => 0,
    }
}

/// The symbol that prints a binary node.
pub open spec fn op_sym(e: Expr) -> Sym {
    match e {
        Expr::Eq(..) => Sym::EqEq,
        Expr::Ne(..) => Sym::NotEq,
        Expr::Lt(..) => Sym::Less,
        Expr::Le(..) => Sym::LessEq,
        Expr::Gt(..) => Sym::Greater,
        Expr::Ge(..) => Sym::GreaterEq,
        Expr::Add(..) => Sym::Plus,
        Expr::Sub(..) => Sym::Minus,
        Expr::Mul(..) => Sym::Star,
        _ => Sym::Slash,
    }
}

/// The shape that the grammar gives an expression at precedence `level`:
/// 0 for a whole expression (`if`, `while`, assignment or comparison), 1 for
/// a comparison, 2 for a sum, 3 for a product, 4 for an atom. A binary
/// node's left operand is of a higher level and its right operand of the
/// same level, so operators nest to the right; `if`, `while` and
/// assignments are never operands.
pub open spec fn canon(e: Expr, level: int) -> bool
    decreases e, 4 - level,
{
    if level <= 0 {
        match e {
            Expr::IfElse(c, t, f) => canon(*c, 0) && canon_all(t@) && canon_all(f@),
            Expr::WhileLoop(c, b) => canon(*c, 0) && canon_all(b@),
            Expr::Assign(_, r) => canon(*r, 0),
            _ => canon(e, 1),
        }
    } else if level <= 3 {
        match e {
            Expr::Eq(a, b) | Expr::Ne(a, b) | Expr::Lt(a, b) | Expr::Le(a, b) | Expr::Gt(a, b)
            | Expr::Ge(a, b) | Expr::Add(a, b) | Expr::Sub(a, b) | Expr::Mul(a, b) | Expr::Div(
                a,
                b,
            ) => if op_level(e) == level {
                canon(*a, level + 1) && canon(*b, level)
            } else {
                canon(e, level + 1)
            },
            _ => canon(e, level + 1),
        }
    } else {
        match e {
            Expr::Literal(_) | Expr::Identifier(_) | Expr::GlobalDataAddr(_) => true,
            Expr::Call(_, args) => canon_all(args@),
            _ => false,
        }
    }
}

/// Every one of `s` has the shape of a whole expression.
pub open spec fn canon_all(s: Seq<Expr>) -> bool
    decreases s, 5int,
{
    if s.len() == 0 {
        true
    } else {
        canon_all(s.drop_last()) && canon(s.last(), 0)
    }
}

/// A definition whose statements have the shapes the grammar gives them.
pub open spec fn canonical(f: FunctionDef) -> bool {
    canon_all(f.body@)
}

/// Whether an expression can start with this token: a name, a number or
/// `&`. (`if` and `while` are names to the tokenizer.)
pub open spec fn starts_expr(t: Tok) -> bool {
    t is Ident || t is Num || t == Tok::Sym(Sym::Amp)
}

/// The token at `q`, if any, ends an expression of precedence `level`: it
/// is a symbol, but no `(`, `=` or `&`, and no binary operator of that
/// level or higher.
pub open spec fn stops(t: Seq<Tok>, q: int, level: int) -> bool {
    q >= t.len() || match t[q] {
        Tok::Sym(s) => !(s == Sym::LParen || s == Sym::Assign || s == Sym::Amp || (level_of(s)
            != 0 && level_of(s) as int >= level)),
        _ => false,
    }
}

/// `e`, of shape `level`, is printed by the tokens at `pos`, and the token
/// after them ends it.
pub open spec fn derives(t: Seq<Tok>, pos: int, e: Expr, level: int) -> bool {
    &&& canon(e, level)
    &&& 0 <= pos
    &&& pos + emit_expr(e).len() <= t.len()
    &&& t.subrange(pos, pos + emit_expr(e).len()) == emit_expr(e)
    &&& stops(t, pos + emit_expr(e).len(), level)
}

/// Statements `s` are printed at `pos`, and a closing brace follows.
pub open spec fn derives_stmts(t: Seq<Tok>, pos: int, s: Seq<Expr>) -> bool {
    &&& canon_all(s)
    &&& 0 <= pos
    &&& pos + emit_stmts(s).len() < t.len()
    &&& t.subrange(pos, pos + emit_stmts(s).len()) == emit_stmts(s)
    &&& t[pos + emit_stmts(s).len()] == Tok::Sym(Sym::RBrace)
}

/// Arguments `s` and the closing parenthesis are printed at `pos`.
pub open spec fn derives_args(t: Seq<Tok>, pos: int, s: Seq<Expr>) -> bool {
    &&& canon_all(s)
    &&& 0 <= pos
    &&& pos + emit_args(s).len() + 1 <= t.len()
    &&& t.subrange(pos, pos + emit_args(s).len() + 1) == emit_args(s) + seq![Tok::Sym(Sym::RParen)]
}

/// What the grammar's shapes say of how an expression prints.
pub proof fn lemma_shape(e: Expr, level: int)
    requires
        canon(e, level),
        0 <= level <= 4,
    ensures
        emit_expr(e).len() >= 1,
        level >= 1 ==> !(e is IfElse) && !(e is WhileLoop) && !(e is Assign) && (op_level(e) == 0
            || op_level(e) >= level),
        starts_expr(emit_expr(e)[0]),
        e is IfElse ==> emit_expr(e)[0] == Tok::Ident(kw_if()) && emit_expr(e).len() > 1
            && starts_expr(emit_expr(e)[1]),
        e is WhileLoop ==> emit_expr(e)[0] == Tok::Ident(kw_while()) && emit_expr(e).len() > 1
            && starts_expr(emit_expr(e)[1]),
        e is Assign ==> emit_expr(e)[0] is Ident && emit_expr(e)[1] == Tok::Sym(Sym::Assign),
        !(e is IfElse) && !(e is WhileLoop) && !(e is Assign) && emit_expr(e)[0] is Ident
            && emit_expr(e).len() > 1 ==> emit_expr(e)[1] is Sym && emit_expr(e)[1] != Tok::Sym(
            Sym::Assign,
        ) && emit_expr(e)[1] != Tok::Sym(Sym::Amp),
        e is Identifier ==> emit_expr(e).len() == 1,
        e is Call ==> emit_expr(e)[1] == Tok::Sym(Sym::LParen),
    decreases e, 4 - level,
{
    if level == 0 {
        match e {
            Expr::IfElse(c, _, _) => lemma_shape(*c, 0),
            Expr::WhileLoop(c, _) => lemma_shape(*c, 0),
            Expr::Assign(..) => {},
            _ => lemma_shape(e, 1),
        }
    } else if level <= 3 {
        match e {
            Expr::Eq(a, b) | Expr::Ne(a, b) | Expr::Lt(a, b) | Expr::Le(a, b) | Expr::Gt(a, b)
            | Expr::Ge(a, b) | Expr::Add(a, b) | Expr::Sub(a, b) | Expr::Mul(a, b) | Expr::Div(
                a,
                b,
            ) => {
                if op_level(e) == level {
                    lemma_shape(*a, level + 1);
                } else {
                    lemma_shape(e, level + 1);
                }
            },
            _ => lemma_shape(e, level + 1),
        }
    }
}

/// A shape of a higher level is one of a lower level too.
pub proof fn lemma_canon_down(e: Expr, level: int)
    requires
        canon(e, level + 1),
        0 <= level <= 3,
    ensures
        canon(e, level),
{
    lemma_shape(e, level + 1);
}

/// A piece of what the tokens at `pos` print is printed at its offset.
pub proof fn lemma_slice(t: Seq<Tok>, pos: int, whole: Seq<Tok>, off: int, a: Seq<Tok>)
    requires
        0 <= pos,
        pos + whole.len() <= t.len(),
        t.subrange(pos, pos + whole.len()) == whole,
        0 <= off,
        off + a.len() <= whole.len(),
        whole.subrange(off, off + a.len()) == a,
    ensures
        t.subrange(pos + off, pos + off + a.len()) == a,
{
    assert forall|k: int| 0 <= k < a.len() implies t[pos + off + k] == a[k] by {
        assert(t.subrange(pos, pos + whole.len())[off + k] == t[pos + off + k]);
        assert(whole.subrange(off, off + a.len())[k] == whole[off + k]);
    }
    assert(t.subrange(pos + off, pos + off + a.len()) =~= a);
}

/// The token at an offset of what the tokens at `pos` print.
pub proof fn lemma_at(t: Seq<Tok>, pos: int, whole: Seq<Tok>, k: int)
    requires
        0 <= pos,
        pos + whole.len() <= t.len(),
        t.subrange(pos, pos + whole.len()) == whole,
        0 <= k < whole.len(),
    ensures
        t[pos + k] == whole[k],
{
    assert(t.subrange(pos, pos + whole.len())[k] == t[pos + k]);
}

/// An `if` at `pos`: its condition, its two branches and the tokens between.
pub proof fn lemma_derives_if(t: Seq<Tok>, pos: int, e: Expr)
    requires
        derives(t, pos, e, 0),
        t[pos] == Tok::Ident(kw_if()),
        pos + 1 < t.len(),
        starts_expr(t[pos + 1]),
    ensures
        e is IfElse,
        ({
            let c = *e->IfElse_0;
            let q = pos + 1 + emit_expr(c).len();
            let q1 = q + 2 + emit_stmts(e->IfElse_1@).len();
            let q2 = q1 + 4 + emit_stmts(e->IfElse_2@).len();
            &&& derives(t, pos + 1, c, 0)
            &&& t[q] == Tok::Sym(Sym::LBrace) && t[q + 1] == Tok::Sym(Sym::Newline)
            &&& derives_stmts(t, q + 2, e->IfElse_1@)
            &&& t[q1 + 1] == Tok::Ident(kw_else()) && t[q1 + 2] == Tok::Sym(Sym::LBrace)
            &&& t[q1 + 3] == Tok::Sym(Sym::Newline)
            &&& derives_stmts(t, q1 + 4, e->IfElse_2@)
            &&& pos + emit_expr(e).len() == q2 + 1
        }),
{
    lemma_shape(e, 0);
    lemma_at(t, pos, emit_expr(e), 0);
    if emit_expr(e).len() > 1 {
        lemma_at(t, pos, emit_expr(e), 1);
    }
    assert(kw_if() != kw_while());
    let c = *e->IfElse_0;
    let ts = e->IfElse_1@;
    let fs = e->IfElse_2@;
    let w = emit_expr(e);
    let lc = emit_expr(c).len() as int;
    let lt = emit_stmts(ts).len() as int;
    let lf = emit_stmts(fs).len() as int;
    lemma_shape(c, 0);
    assert(w.subrange(1, 1 + (emit_expr(c)).len() as int) =~= emit_expr(c));
    lemma_slice(t, pos, w, 1, emit_expr(c));
    assert(w.subrange(3 + lc, 3 + lc + (emit_stmts(ts)).len()) =~= emit_stmts(ts));
    lemma_slice(t, pos, w, 3 + lc, emit_stmts(ts));
    assert(w.subrange(7 + lc + lt, 7 + lc + lt + (emit_stmts(fs)).len()) =~= emit_stmts(fs));
    lemma_slice(t, pos, w, 7 + lc + lt, emit_stmts(fs));
    lemma_at(t, pos, w, 1 + lc);
    lemma_at(t, pos, w, 2 + lc);
    lemma_at(t, pos, w, 3 + lc + lt);
    lemma_at(t, pos, w, 4 + lc + lt);
    lemma_at(t, pos, w, 5 + lc + lt);
    lemma_at(t, pos, w, 6 + lc + lt);
    lemma_at(t, pos, w, 7 + lc + lt + lf);
}

/// A `while` at `pos`: its condition, its body and the tokens between.
pub proof fn lemma_derives_while(t: Seq<Tok>, pos: int, e: Expr)
    requires
        derives(t, pos, e, 0),
        t[pos] == Tok::Ident(kw_while()),
        pos + 1 < t.len(),
        starts_expr(t[pos + 1]),
    ensures
        e is WhileLoop,
        ({
            let c = *e->WhileLoop_0;
            let q = pos + 1 + emit_expr(c).len();
            let q1 = q + 2 + emit_stmts(e->WhileLoop_1@).len();
            &&& derives(t, pos + 1, c, 0)
            &&& t[q] == Tok::Sym(Sym::LBrace) && t[q + 1] == Tok::Sym(Sym::Newline)
            &&& derives_stmts(t, q + 2, e->WhileLoop_1@)
            &&& pos + emit_expr(e).len() == q1 + 1
        }),
{
    lemma_shape(e, 0);
    lemma_at(t, pos, emit_expr(e), 0);
    if emit_expr(e).len() > 1 {
        lemma_at(t, pos, emit_expr(e), 1);
    }
    assert(kw_if() != kw_while());
    let c = *e->WhileLoop_0;
    let bs = e->WhileLoop_1@;
    let w = emit_expr(e);
    let lc = emit_expr(c).len() as int;
    let lb = emit_stmts(bs).len() as int;
    lemma_shape(c, 0);
    assert(w.subrange(1, 1 + (emit_expr(c)).len() as int) =~= emit_expr(c));
    lemma_slice(t, pos, w, 1, emit_expr(c));
    assert(w.subrange(3 + lc, 3 + lc + (emit_stmts(bs)).len()) =~= emit_stmts(bs));
    lemma_slice(t, pos, w, 3 + lc, emit_stmts(bs));
    lemma_at(t, pos, w, 1 + lc);
    lemma_at(t, pos, w, 2 + lc);
    lemma_at(t, pos, w, 3 + lc + lb);
}

/// An assignment at `pos`: its target and right-hand side.
pub proof fn lemma_derives_assign(t: Seq<Tok>, pos: int, e: Expr)
    requires
        derives(t, pos, e, 0),
        t[pos] is Ident,
        pos + 1 < t.len(),
        t[pos + 1] == Tok::Sym(Sym::Assign),
    ensures
        e is Assign,
        t[pos] == Tok::Ident(e->Assign_0@),
        derives(t, pos + 2, *e->Assign_1, 0),
        emit_expr(e).len() == 2 + emit_expr(*e->Assign_1).len(),
{
    lemma_shape(e, 0);
    let w = emit_expr(e);
    lemma_at(t, pos, w, 0);
    if !(e is Assign) {
        if w.len() > 1 {
            lemma_at(t, pos, w, 1);
        }
    } else {
        assert(w.subrange(2, 2 + (emit_expr(*e->Assign_1)).len() as int) =~= emit_expr(*e->Assign_1));
        lemma_slice(t, pos, w, 2, emit_expr(*e->Assign_1));
    }
}

/// Anything else at `pos` is a comparison or below.
pub proof fn lemma_derives_plain(t: Seq<Tok>, pos: int, e: Expr)
    requires
        derives(t, pos, e, 0),
        !(t[pos] == Tok::Ident(kw_if()) && pos + 1 < t.len() && starts_expr(t[pos + 1])),
        !(t[pos] == Tok::Ident(kw_while()) && pos + 1 < t.len() && starts_expr(t[pos + 1])),
        !(t[pos] is Ident && pos + 1 < t.len() && t[pos + 1] == Tok::Sym(Sym::Assign)),
    ensures
        derives(t, pos, e, 1),
{
    lemma_shape(e, 0);
    let w = emit_expr(e);
    lemma_at(t, pos, w, 0);
    if w.len() > 1 {
        lemma_at(t, pos, w, 1);
    }
}

/// A binary level at `pos`: either a node of that level, its left operand,
/// its operator and its right operand; or something of a higher level that
/// no operator of this level follows.
pub proof fn lemma_derives_level(t: Seq<Tok>, pos: int, e: Expr, level: int)
    requires
        derives(t, pos, e, level),
        1 <= level <= 3,
    ensures
        op_level(e) == level ==> ({
            let (a, b) = operands(e);
            let q = pos + emit_expr(a).len();
            &&& derives(t, pos, a, level + 1)
            &&& t[q] == Tok::Sym(op_sym(e)) && level_of(op_sym(e)) as int == level
            &&& derives(t, q + 1, b, level)
            &&& pos + emit_expr(e).len() == q + 1 + emit_expr(b).len()
        }),
        op_level(e) != level ==> derives(t, pos, e, level + 1) && !(pos + emit_expr(e).len()
            < t.len() && t[pos + emit_expr(e).len()] is Sym && level_of(
            t[pos + emit_expr(e).len()]->Sym_0,
        ) as int == level),
{
    lemma_shape(e, level);
    if op_level(e) == level {
        let (a, b) = operands(e);
        let w = emit_expr(e);
        assert(w == emit_expr(a) + seq![Tok::Sym(op_sym(e))] + emit_expr(b));
        lemma_shape(a, level + 1);
        assert(w.subrange(0, 0 + (emit_expr(a)).len() as int) =~= emit_expr(a));
        lemma_slice(t, pos, w, 0, emit_expr(a));
        assert(w.subrange(emit_expr(a).len() + 1int, emit_expr(a).len() + 1int + (emit_expr(b)).len()) =~= emit_expr(b));
        lemma_slice(t, pos, w, emit_expr(a).len() + 1int, emit_expr(b));
        lemma_at(t, pos, w, emit_expr(a).len() as int);
    }
}

/// An atom at `pos`, told apart by its first tokens.
pub proof fn lemma_derives_atom(t: Seq<Tok>, pos: int, e: Expr)
    requires
        derives(t, pos, e, 4),
    ensures
        t[pos] is Ident || t[pos] is Num || t[pos] == Tok::Sym(Sym::Amp),
        t[pos] is Ident && pos + 1 < t.len() && t[pos + 1] == Tok::Sym(Sym::LParen) ==> e is Call
            && derives_args(t, pos + 2, e->Call_1@) && pos + emit_expr(e).len() == pos + 3
            + emit_args(e->Call_1@).len(),
        t[pos] is Ident && !(pos + 1 < t.len() && t[pos + 1] == Tok::Sym(Sym::LParen))
            ==> e is Identifier && emit_expr(e).len() == 1,
        t[pos] is Num ==> e is Literal && emit_expr(e).len() == 1,
        t[pos] == Tok::Sym(Sym::Amp) ==> e is GlobalDataAddr && t[pos + 1] is Ident
            && emit_expr(e).len() == 2,
{
    lemma_shape(e, 4);
    let w = emit_expr(e);
    lemma_at(t, pos, w, 0);
    match e {
        Expr::Call(_, args) => {
            lemma_at(t, pos, w, 1);
            assert(w.subrange(2, 2 + (emit_args(args@) + seq![Tok::Sym(Sym::RParen)]).len() as int) =~= emit_args(args@) + seq![Tok::Sym(Sym::RParen)]);
            lemma_slice(t, pos, w, 2, emit_args(args@) + seq![Tok::Sym(Sym::RParen)]);
        },
        Expr::GlobalDataAddr(_) => {
            lemma_at(t, pos, w, 1);
        },
        _ => {},
    }
}

pub proof fn lemma_canon_all_index(s: Seq<Expr>, i: int)
    requires
        canon_all(s),
        0 <= i < s.len(),
    ensures
        canon(s[i], 0),
        canon_all(s.take(i + 1)),
    decreases s.len(),
{
    if i < s.len() - 1 {
        lemma_canon_all_index(s.drop_last(), i);
        assert(s.drop_last().take(i + 1) =~= s.take(i + 1));
    } else {
        assert(s.take(i + 1) =~= s);
    }
}

proof fn lemma_stmts_prefix(s: Seq<Expr>, i: int)
    requires
        0 <= i <= s.len(),
    ensures
        emit_stmts(s.take(i)).len() <= emit_stmts(s).len(),
        emit_stmts(s).subrange(0, emit_stmts(s.take(i)).len() as int) == emit_stmts(s.take(i)),
    decreases s.len() - i,
{
    if i == s.len() {
        assert(s.take(i) =~= s);
        assert(emit_stmts(s).subrange(0, emit_stmts(s).len() as int) =~= emit_stmts(s));
    } else {
        lemma_stmts_prefix(s, i + 1);
        assert(s.take(i + 1).drop_last() =~= s.take(i));
        let a = emit_stmts(s.take(i));
        let b = emit_stmts(s.take(i + 1));
        assert(b == a + emit_expr(s[i]) + seq![Tok::Sym(Sym::Newline)]);
        assert(emit_stmts(s).subrange(0, a.len() as int) =~= b.subrange(0, a.len() as int));
        assert(b.subrange(0, a.len() as int) =~= a);
    }
}

/// The `i`-th statement of statements printed at `pos`, and what follows it.
pub proof fn lemma_stmts_step(t: Seq<Tok>, pos: int, s: Seq<Expr>, i: int)
    requires
        derives_stmts(t, pos, s),
        0 <= i <= s.len(),
    ensures
        ({
            let p = pos + emit_stmts(s.take(i)).len();
            &&& i < s.len() ==> derives(t, p, s[i], 0)
                && p + emit_expr(s[i]).len() < t.len()
                && t[p + emit_expr(s[i]).len()] == Tok::Sym(Sym::Newline)
                && t[p] != Tok::Sym(Sym::RBrace)
                && emit_stmts(s.take(i + 1)).len() == emit_stmts(s.take(i)).len()
                + emit_expr(s[i]).len() + 1
            &&& i == s.len() ==> t[p] == Tok::Sym(Sym::RBrace) && p < t.len()
                && p == pos + emit_stmts(s).len()
        }),
{
    let w = emit_stmts(s);
    if i == s.len() {
        assert(s.take(i) =~= s);
    } else {
        lemma_stmts_prefix(s, i + 1);
        assert(s.take(i + 1).drop_last() =~= s.take(i));
        let a = emit_stmts(s.take(i));
        let b = emit_stmts(s.take(i + 1));
        let ei = emit_expr(s[i]);
        assert(b == a + ei + seq![Tok::Sym(Sym::Newline)]);
        lemma_canon_all_index(s, i);
        lemma_shape(s[i], 0);
        assert(w.subrange(a.len() as int, (a.len() + ei.len()) as int) =~= ei) by {
            assert forall|k: int| 0 <= k < ei.len() implies w[a.len() + k] == ei[k] by {
                assert(w.subrange(0, b.len() as int)[a.len() + k] == b[a.len() + k]);
            }
        }
        assert(w[(a.len() + ei.len()) as int] == Tok::Sym(Sym::Newline)) by {
            assert(w.subrange(0, b.len() as int)[(a.len() + ei.len()) as int] == b[(a.len() + ei.len()) as int]);
        }
        lemma_slice(t, pos, w, a.len() as int, ei);
        lemma_at(t, pos, w, (a.len() + ei.len()) as int);
        lemma_at(t, pos, w, a.len() as int);
        assert(w[a.len() as int] == ei[0]) by {
            assert(w.subrange(a.len() as int, (a.len() + ei.len()) as int)[0] == w[a.len() as int]);
        }
    }
}

proof fn lemma_args_prefix(s: Seq<Expr>, i: int)
    requires
        1 <= i <= s.len(),
    ensures
        emit_args(s.take(i)).len() <= emit_args(s).len(),
        emit_args(s).subrange(0, emit_args(s.take(i)).len() as int) == emit_args(s.take(i)),
    decreases s.len() - i,
{
    if i == s.len() {
        assert(s.take(i) =~= s);
        assert(emit_args(s).subrange(0, emit_args(s).len() as int) =~= emit_args(s));
    } else {
        lemma_args_prefix(s, i + 1);
        assert(s.take(i + 1).drop_last() =~= s.take(i));
        let a = emit_args(s.take(i));
        let b = emit_args(s.take(i + 1));
        assert(b == a + seq![Tok::Sym(Sym::Comma)] + emit_expr(s[i]));
        assert(emit_args(s).subrange(0, a.len() as int) =~= b.subrange(0, a.len() as int));
        assert(b.subrange(0, a.len() as int) =~= a);
    }
}

/// The `i`-th of arguments printed at `pos`, and what follows it.
pub proof fn lemma_args_step(t: Seq<Tok>, pos: int, s: Seq<Expr>, i: int)
    requires
        derives_args(t, pos, s),
        0 <= i < s.len(),
    ensures
        ({
            let p = if i == 0 {
                pos
            } else {
                pos + emit_args(s.take(i)).len() + 1
            };
            let q = p + emit_expr(s[i]).len();
            &&& derives(t, p, s[i], 0)
            &&& q == pos + emit_args(s.take(i + 1)).len()
            &&& q < t.len()
            &&& i + 1 < s.len() ==> t[q] == Tok::Sym(Sym::Comma)
            &&& i + 1 == s.len() ==> t[q] == Tok::Sym(Sym::RParen) && q + 1 == pos + emit_args(s).len() + 1
            &&& t[pos] != Tok::Sym(Sym::RParen)
        }),
{
    let w = emit_args(s) + seq![Tok::Sym(Sym::RParen)];
    let b = emit_args(s.take(i + 1));
    let ei = emit_expr(s[i]);
    let off: int = if i == 0 { 0 } else { emit_args(s.take(i)).len() + 1int };
    assert(s.take(i + 1).drop_last() =~= s.take(i));
    if i == 0 {
        assert(b == ei);
    } else {
        assert(b == emit_args(s.take(i)) + seq![Tok::Sym(Sym::Comma)] + ei);
    }
    lemma_args_prefix(s, i + 1);
    lemma_canon_all_index(s, i);
    lemma_shape(s[i], 0);
    assert forall|k: int| 0 <= k < b.len() implies w[k] == b[k] by {
        assert(emit_args(s).subrange(0, b.len() as int)[k] == b[k]);
    }
    assert(w.subrange(off, off + ei.len() as int) =~= ei);
    lemma_slice(t, pos, w, off, ei);
    lemma_at(t, pos, w, b.len() as int);
    lemma_at(t, pos, w, 0);
    if i == 0 {
        assert(w[0] == ei[0]);
    } else {
        lemma_args_prefix(s, 1);
        assert(s.take(1).drop_last() =~= Seq::<Expr>::empty());
        let e0 = emit_args(s.take(1));
        assert(e0 == emit_expr(s[0]));
        lemma_canon_all_index(s, 0);
        lemma_shape(s[0], 0);
        assert(w[0] == e0[0]) by {
            assert(emit_args(s).subrange(0, e0.len() as int)[0] == e0[0]);
        }
    }
    if i + 1 < s.len() {
        lemma_args_prefix(s, i + 2);
        assert(s.take(i + 2).drop_last() =~= s.take(i + 1));
        let c = emit_args(s.take(i + 2));
        assert(c == b + seq![Tok::Sym(Sym::Comma)] + emit_expr(s[i + 1]));
        assert(w[b.len() as int] == c[b.len() as int]) by {
            assert(emit_args(s).subrange(0, c.len() as int)[b.len() as int] == c[b.len() as int]);
        }
    } else {
        assert(s.take(i + 1) =~= s);
    }
}

/// Parameter names print as names at even positions and commas between.
pub proof fn lemma_params_shape(ps: Seq<Seq<char>>)
    ensures
        emit_params(ps).len() == if ps.len() == 0 {
            0
        } else {
            2 * ps.len() - 1
        },
        forall|j: int| 0 <= j < ps.len() ==> emit_params(ps)[2 * j] == Tok::Ident(#[trigger] ps[j]),
        forall|j: int| 0 <= j < ps.len() - 1 ==> #[trigger] emit_params(ps)[2 * j + 1] == Tok::Sym(Sym::Comma),
    decreases ps.len(),
{
    if ps.len() > 1 {
        lemma_params_shape(ps.drop_last());
        let e = emit_params(ps.drop_last());
        assert forall|j: int| 0 <= j < ps.len() implies emit_params(ps)[2 * j] == Tok::Ident(#[trigger] ps[j]) by {
            assert(emit_params(ps) == e + seq![Tok::Sym(Sym::Comma), Tok::Ident(ps.last())]);
            if j < ps.len() - 1 {
                assert(emit_params(ps)[2 * j] == e[2 * j]);
                assert(e[2 * j] == Tok::Ident(ps.drop_last()[j]));
            } else {
                assert(emit_params(ps)[2 * j] == seq![Tok::Sym(Sym::Comma), Tok::Ident(ps.last())][1]);
            }
        }
        assert forall|j: int| 0 <= j < ps.len() - 1 implies #[trigger] emit_params(ps)[2 * j + 1] == Tok::Sym(
            Sym::Comma,
        ) by {
            if j < ps.len() - 2 {
                assert(emit_params(ps)[2 * j + 1] == e[2 * j + 1]);
            }
        }
    }
}

/// The tokens of a definition, read at `k`.
pub proof fn lemma_fn_tokens(t: Seq<Tok>, k: int, f: FunctionDef)
    requires
        0 <= k <= t.len(),
        t.subrange(k, t.len() as int) == emit_function(f),
        canonical(f),
    ensures
        ({
            let ps = names_of(f.params@);
            let m = ps.len() as int;
            let pe = k + 3 + emit_params(ps).len();
            let es = emit_stmts(f.body@);
            &&& t[k] == Tok::Ident(kw_fn())
            &&& t[k + 1] == Tok::Ident(f.name@)
            &&& t[k + 2] == Tok::Sym(Sym::LParen)
            &&& emit_params(ps).len() == if m == 0 { 0 } else { 2 * m - 1 }
            &&& forall|j: int| 0 <= j < m ==> t[k + 3 + 2 * j] == Tok::Ident(#[trigger] ps[j])
            &&& forall|j: int| 0 <= j < m - 1 ==> #[trigger] t[k + 4 + 2 * j] == Tok::Sym(Sym::Comma)
            &&& t[pe] == Tok::Sym(Sym::RParen)
            &&& t[pe + 1] == Tok::Sym(Sym::Arrow)
            &&& t[pe + 2] == Tok::Sym(Sym::LParen)
            &&& t[pe + 3] == Tok::Ident(f.the_return@)
            &&& t[pe + 4] == Tok::Sym(Sym::RParen)
            &&& t[pe + 5] == Tok::Sym(Sym::LBrace)
            &&& t[pe + 6] == Tok::Sym(Sym::Newline)
            &&& derives_stmts(t, pe + 7, f.body@)
            &&& t[pe + 8 + es.len()] == Tok::Sym(Sym::Newline)
            &&& t.len() == pe + 9 + es.len()
        }),
{
    let ps = names_of(f.params@);
    let w = emit_function(f);
    let ep = emit_params(ps);
    let es = emit_stmts(f.body@);
    let pe = 3 + ep.len() as int;
    lemma_params_shape(ps);
    assert forall|j: int| 0 <= j < w.len() implies t[k + j] == w[j] by {
        assert(t.subrange(k, t.len() as int)[j] == t[k + j]);
    }
    assert forall|j: int| 0 <= j < ps.len() implies t[k + 3 + 2 * j] == Tok::Ident(#[trigger] ps[j]) by {
        assert(w[3 + 2 * j] == ep[2 * j]);
    }
    assert forall|j: int| 0 <= j < ps.len() - 1 implies #[trigger] t[k + 4 + 2 * j] == Tok::Sym(
        Sym::Comma,
    ) by {
        assert(w[3 + 2 * j + 1] == ep[2 * j + 1]);
    }
    assert(t.subrange(k + pe + 7, k + pe + 7 + es.len()) =~= es) by {
        assert forall|j: int| 0 <= j < es.len() implies t[k + pe + 7 + j] == es[j] by {
            assert(w[pe + 7 + j] == es[j]);
        }
    }
    assert(w[pe + 7 + es.len()] == Tok::Sym(Sym::RBrace));
    assert(t.subrange(k, t.len() as int).len() == w.len());
    assert(w[0] == Tok::Ident(kw_fn()));
    assert(w[1] == Tok::Ident(f.name@));
    assert(w[2] == Tok::Sym(Sym::LParen));
    assert(w[pe] == Tok::Sym(Sym::RParen));
    assert(w[pe + 1] == Tok::Sym(Sym::Arrow));
    assert(w[pe + 2] == Tok::Sym(Sym::LParen));
    assert(w[pe + 3] == Tok::Ident(f.the_return@));
    assert(w[pe + 4] == Tok::Sym(Sym::RParen));
    assert(w[pe + 5] == Tok::Sym(Sym::LBrace));
    assert(w[pe + 6] == Tok::Sym(Sym::Newline));
    assert(w[pe + 8 + es.len()] == Tok::Sym(Sym::Newline));
    assert(w.len() == pe + 9 + es.len());
}

} // verus!
