use vstd::prelude::*;
use vstd::arithmetic::div_mod::{lemma_add_mod_noop, lemma_mul_mod_noop_left};
use crate::ast::Expr;
use crate::ir::{BinOp, Cond, Inst, InstV, insts_of, emit};
use crate::vars::{Variables, distinct, table_of};

verus! {

/// 2 to the power of the word width.
pub open spec fn word_modulus() -> nat {
    0x1_0000_0000_0000_0000
}

/// The value of a digit, and 0 for any other character.
pub open spec fn digit_value(c: char) -> nat {
    if '0' <= c && c <= '9' {
        (c as nat - '0' as nat) as nat
    } else {
        0
    }
}

/// The number that a string of decimal digits writes.
pub open spec fn decimal_value(s: Seq<char>) -> nat
    decreases s.len(),
{
    if s.len() == 0 {
        0
    } else {
        decimal_value(s.drop_last()) * 10 + digit_value(s.last())
    }
}

/// The word that a literal stands for: its decimal value, truncated to the
/// word width.
pub open spec fn literal_word(s: Seq<char>) -> u64 {
    (decimal_value(s) % word_modulus()) as u64
}

/// Whether an expression is a binary operation.
pub open spec fn is_operator(e: Expr) -> bool {
    e is Add || e is Sub || e is Mul || e is Div || e is Eq || e is Ne || e is Lt || e is Le
        || e is Gt || e is Ge
}

/// The slot of a name in a variable table.
pub open spec fn slot(tab: Seq<Seq<char>>, n: Seq<char>) -> int {
    choose|i: int| 0 <= i < tab.len() && tab[i] == n
}

/// Every variable that an expression reads or assigns has a slot.
pub open spec fn names_known(e: Expr, tab: Seq<Seq<char>>) -> bool
    decreases e,
{
    match e {
        Expr::Literal(_) | Expr::GlobalDataAddr(_) => true,
        Expr::Identifier(n) => tab.contains(n@),
        Expr::Assign(n, r) => tab.contains(n@) && names_known(*r, tab),
        Expr::Eq(a, b) | Expr::Ne(a, b) | Expr::Lt(a, b) | Expr::Le(a, b) | Expr::Gt(a, b)
        | Expr::Ge(a, b) | Expr::Add(a, b) | Expr::Sub(a, b) | Expr::Mul(a, b) | Expr::Div(
            a,
            b,
        ) => names_known(*a, tab) && names_known(*b, tab),
        Expr::IfElse(c, t, f) => names_known(*c, tab) && names_known_all(t@, tab)
            && names_known_all(f@, tab),
        Expr::WhileLoop(c, b) => names_known(*c, tab) && names_known_all(b@, tab),
        Expr::Call(_, args) => names_known_all(args@, tab),
    }
}

pub open spec fn names_known_all(s: Seq<Expr>, tab: Seq<Seq<char>>) -> bool
    decreases s,
{
    if s.len() == 0 {
        true
    } else {
        names_known_all(s.drop_last(), tab) && names_known(s.last(), tab)
    }
}

/// The instructions that lower an expression when the next instruction
/// goes at position `at`, and the value that holds the expression's result.
pub open spec fn lower(e: Expr, tab: Seq<Seq<char>>, at: int) -> (Seq<InstV>, int)
    decreases e,
{
    match e {
        Expr::Literal(s) => (seq![InstV::Iconst(literal_word(s@))], at),
        Expr::Identifier(n) => (seq![InstV::UseVar(slot(tab, n@))], at),
        Expr::GlobalDataAddr(n) => (seq![InstV::GlobalAddr(n@)], at),
        Expr::Assign(n, r) => {
            let (o, v) = lower(*r, tab, at);
            (o.push(InstV::DefVar(slot(tab, n@), v)), v)
        },
        Expr::Add(a, b) => lower_binary(lower(*a, tab, at), lower(*b, tab, at + lower(*a, tab, at).0.len()), BinOp::Iadd, at),
        Expr::Sub(a, b) => lower_binary(lower(*a, tab, at), lower(*b, tab, at + lower(*a, tab, at).0.len()), BinOp::Isub, at),
        Expr::Mul(a, b) => lower_binary(lower(*a, tab, at), lower(*b, tab, at + lower(*a, tab, at).0.len()), BinOp::Imul, at),
        Expr::Div(a, b) => lower_binary(lower(*a, tab, at), lower(*b, tab, at + lower(*a, tab, at).0.len()), BinOp::Udiv, at),
        Expr::Eq(a, b) => lower_compare(lower(*a, tab, at), lower(*b, tab, at + lower(*a, tab, at).0.len()), Cond::Equal, at),
        Expr::Ne(a, b) => lower_compare(lower(*a, tab, at), lower(*b, tab, at + lower(*a, tab, at).0.len()), Cond::NotEqual, at),
        Expr::Lt(a, b) => lower_compare(lower(*a, tab, at), lower(*b, tab, at + lower(*a, tab, at).0.len()), Cond::SignedLessThan, at),
        Expr::Le(a, b) => lower_compare(lower(*a, tab, at), lower(*b, tab, at + lower(*a, tab, at).0.len()), Cond::SignedLessThanOrEqual, at),
        Expr::Gt(a, b) => lower_compare(lower(*a, tab, at), lower(*b, tab, at + lower(*a, tab, at).0.len()), Cond::SignedGreaterThan, at),
        Expr::Ge(a, b) => lower_compare(lower(*a, tab, at), lower(*b, tab, at + lower(*a, tab, at).0.len()), Cond::SignedGreaterThanOrEqual, at),
        Expr::IfElse(c, t, f) => {
            let (oc, vc) = lower(*c, tab, at);
            let p = at + oc.len();
            let head = seq![
                InstV::CreateBlock,
                InstV::CreateBlock,
                InstV::CreateBlock,
                InstV::AppendBlockParam(p + 2),
                InstV::Brz(vc, p + 1),
                InstV::Jump(p),
                InstV::SwitchToBlock(p),
                InstV::SealBlock(p),
                InstV::Iconst(0),
            ];
            let (ot, vt) = lower_stmts(t@, tab, p + 9, p + 8);
            let q = p + 9 + ot.len();
            let mid = seq![
                InstV::JumpArg(p + 2, vt),
                InstV::SwitchToBlock(p + 1),
                InstV::SealBlock(p + 1),
                InstV::Iconst(0),
            ];
            let (of, vf) = lower_stmts(f@, tab, q + 4, q + 3);
            let tail = seq![
                InstV::JumpArg(p + 2, vf),
                InstV::SwitchToBlock(p + 2),
                InstV::SealBlock(p + 2),
            ];
            (oc + head + ot + mid + of + tail, p + 3)
        },
        Expr::WhileLoop(c, b) => {
            let head = seq![
                InstV::CreateBlock,
                InstV::CreateBlock,
                InstV::CreateBlock,
                InstV::Jump(at),
                InstV::SwitchToBlock(at),
            ];
            let (oc, vc) = lower(*c, tab, at + 5);
            let p = at + 5 + oc.len();
            let mid = seq![
                InstV::Brz(vc, at + 2),
                InstV::Jump(at + 1),
                InstV::SwitchToBlock(at + 1),
                InstV::SealBlock(at + 1),
            ];
            let (ob, vb) = lower_stmts(b@, tab, p + 4, vc);
            let q = p + 4 + ob.len();
            let tail = seq![
                InstV::Jump(at),
                InstV::SealBlock(at),
                InstV::SwitchToBlock(at + 2),
                InstV::SealBlock(at + 2),
                InstV::Iconst(0),
            ];
            (head + oc + mid + ob + tail, q + 4)
        },
        Expr::Call(n, args) => {
            let (o, vs) = lower_args(args@, tab, at);
            (o.push(InstV::Call(n@, vs)), at + o.len())
        },
    }
}

/// Two operands lowered in turn, then the operation over their values.
pub open spec fn lower_binary(a: (Seq<InstV>, int), b: (Seq<InstV>, int), op: BinOp, at: int) -> (
    Seq<InstV>,
    int,
) {
    ((a.0 + b.0).push(InstV::Binary(op, a.1, b.1)), at + a.0.len() + b.0.len())
}

/// Two operands lowered in turn, then their comparison.
pub open spec fn lower_compare(a: (Seq<InstV>, int), b: (Seq<InstV>, int), c: Cond, at: int) -> (
    Seq<InstV>,
    int,
) {
    ((a.0 + b.0).push(InstV::Compare(c, a.1, b.1)), at + a.0.len() + b.0.len())
}

/// Statements lowered in order, and the value of the last; `init` if there
/// are none.
pub open spec fn lower_stmts(s: Seq<Expr>, tab: Seq<Seq<char>>, at: int, init: int) -> (
    Seq<InstV>,
    int,
)
    decreases s,
{
    if s.len() == 0 {
        (Seq::empty(), init)
    } else {
        let (o, _) = lower_stmts(s.drop_last(), tab, at, init);
        let (o2, v) = lower(s.last(), tab, at + o.len());
        (o + o2, v)
    }
}

/// Arguments lowered in order, and their values.
pub open spec fn lower_args(s: Seq<Expr>, tab: Seq<Seq<char>>, at: int) -> (Seq<InstV>, Seq<int>)
    decreases s,
{
    if s.len() == 0 {
        (Seq::empty(), Seq::empty())
    } else {
        let (o, vs) = lower_args(s.drop_last(), tab, at);
        let (o2, v) = lower(s.last(), tab, at + o.len());
        (o + o2, vs.push(v))
    }
}

} // verus!

verus! {

/// The word that a literal stands for.
pub fn literal_value(s: &String) -> (r: u64)
    ensures
        r == literal_word(s@),
{
    let text = s.as_str();
    let n = text.unicode_len();
    let mut v: u64 = 0;
    let mut i: usize = 0;
    while i < n
        invariant
            n == s@.len(),
            text@ == s@,
            i <= n,
            v as nat == decimal_value(s@.subrange(0, i as int)) % word_modulus(),
        decreases n - i,
    {
        let c = text.get_char(i);
        let d: u64 = if '0' <= c && c <= '9' {
            (c as u32 - '0' as u32) as u64
        } else {
            0
        };
        proof {
            let prev = s@.subrange(0, i as int);
            let next = s@.subrange(0, i + 1);
            assert(next.drop_last() =~= prev);
            assert(next.last() == c);
            assert(d as nat == digit_value(c));
            let m = word_modulus() as int;
            let dv = decimal_value(prev) as int;
            lemma_mul_mod_noop_left(dv, 10, m);
            lemma_add_mod_noop(dv * 10, d as int, m);
            lemma_add_mod_noop(v as int * 10, d as int, m);
            assert((d as int) % m == d as int);
            vstd::arithmetic::div_mod::lemma_mod_twice(v as int * 10, m);
        }
        v = v.wrapping_mul(10).wrapping_add(d);
        i = i + 1;
    }
    assert(s@.subrange(0, n as int) =~= s@);
    v
}

/// The slot of a name that has one.
fn slot_for(vars: &Variables, n: &String) -> (r: usize)
    requires
        distinct(vars@),
        vars@.contains(n@),
    ensures
        r as int == slot(vars@, n@),
{
    match vars.slot_of(n) {
        Some(i) => {
            let ghost j = slot(vars@, n@);
            assert(vars@[j] == n@);
            assert(i as int == j);
            i
        },
        None => {
            proof {
                assert(false);
            }
            0
        },
    }
}

/// Appends the instructions that lower `e` and returns the value that holds
/// its result.
pub fn translate_expr(ops: &mut Vec<Inst>, vars: &Variables, e: &Expr) -> (r: usize)
    requires
        distinct(vars@),
        names_known(*e, vars@),
    ensures
        insts_of(final(ops)@) == insts_of(old(ops)@) + lower(*e, vars@, old(ops)@.len() as int).0,
        r as int == lower(*e, vars@, old(ops)@.len() as int).1,
    decreases e, 1int,
{
    let ghost start = insts_of(ops@);
    let ghost at = ops@.len() as int;
    let ghost tab = vars@;
    match e {
        Expr::Literal(s) => {
            let r = emit(ops, Inst::Iconst(literal_value(s)));
            assert(insts_of(ops@) =~= start + lower(*e, tab, at).0);
            r
        },
        Expr::Identifier(n) => {
            let r = emit(ops, Inst::UseVar(slot_for(vars, n)));
            assert(insts_of(ops@) =~= start + lower(*e, tab, at).0);
            r
        },
        Expr::GlobalDataAddr(n) => {
            let r = emit(ops, Inst::GlobalAddr(n.clone()));
            assert(insts_of(ops@) =~= start + lower(*e, tab, at).0);
            r
        },
        Expr::Assign(n, rhs) => {
            let v = translate_expr(ops, vars, rhs);
            emit(ops, Inst::DefVar(slot_for(vars, n), v));
            assert(insts_of(ops@) =~= start + lower(*e, tab, at).0);
            v
        },
        Expr::Call(n, args) => {
            let values = translate_args(ops, vars, args);
            let r = emit(ops, Inst::Call(n.clone(), values));
            assert(insts_of(ops@) =~= start + lower(*e, tab, at).0);
            r
        },
        Expr::IfElse(..) => translate_if(ops, vars, e),
        Expr::WhileLoop(..) => translate_while(ops, vars, e),
        _ => translate_operator(ops, vars, e),
    }
}

/// Lowers a binary operation: both operands in turn, then the operation.
fn translate_operator(ops: &mut Vec<Inst>, vars: &Variables, e: &Expr) -> (r: usize)
    requires
        distinct(vars@),
        names_known(*e, vars@),
        is_operator(*e),
    ensures
        insts_of(final(ops)@) == insts_of(old(ops)@) + lower(*e, vars@, old(ops)@.len() as int).0,
        r as int == lower(*e, vars@, old(ops)@.len() as int).1,
    decreases e, 0int,
{
    let ghost start = insts_of(ops@);
    let ghost at = ops@.len() as int;
    let ghost tab = vars@;
    match e {
        Expr::Add(a, b) => {
            let x = translate_expr(ops, vars, a);
            let y = translate_expr(ops, vars, b);
            let r = emit(ops, Inst::Binary(BinOp::Iadd, x, y));
            assert(insts_of(ops@) =~= start + lower(*e, tab, at).0);
            r
        },
        Expr::Sub(a, b) => {
            let x = translate_expr(ops, vars, a);
            let y = translate_expr(ops, vars, b);
            let r = emit(ops, Inst::Binary(BinOp::Isub, x, y));
            assert(insts_of(ops@) =~= start + lower(*e, tab, at).0);
            r
        },
        Expr::Mul(a, b) => {
            let x = translate_expr(ops, vars, a);
            let y = translate_expr(ops, vars, b);
            let r = emit(ops, Inst::Binary(BinOp::Imul, x, y));
            assert(insts_of(ops@) =~= start + lower(*e, tab, at).0);
            r
        },
        Expr::Div(a, b) => {
            let x = translate_expr(ops, vars, a);
            let y = translate_expr(ops, vars, b);
            let r = emit(ops, Inst::Binary(BinOp::Udiv, x, y));
            assert(insts_of(ops@) =~= start + lower(*e, tab, at).0);
            r
        },
        Expr::Eq(a, b) => {
            let x = translate_expr(ops, vars, a);
            let y = translate_expr(ops, vars, b);
            let r = emit(ops, Inst::Compare(Cond::Equal, x, y));
            assert(insts_of(ops@) =~= start + lower(*e, tab, at).0);
            r
        },
        Expr::Ne(a, b) => {
            let x = translate_expr(ops, vars, a);
            let y = translate_expr(ops, vars, b);
            let r = emit(ops, Inst::Compare(Cond::NotEqual, x, y));
            assert(insts_of(ops@) =~= start + lower(*e, tab, at).0);
            r
        },
        Expr::Lt(a, b) => {
            let x = translate_expr(ops, vars, a);
            let y = translate_expr(ops, vars, b);
            let r = emit(ops, Inst::Compare(Cond::SignedLessThan, x, y));
            assert(insts_of(ops@) =~= start + lower(*e, tab, at).0);
            r
        },
        Expr::Le(a, b) => {
            let x = translate_expr(ops, vars, a);
            let y = translate_expr(ops, vars, b);
            let r = emit(ops, Inst::Compare(Cond::SignedLessThanOrEqual, x, y));
            assert(insts_of(ops@) =~= start + lower(*e, tab, at).0);
            r
        },
        Expr::Gt(a, b) => {
            let x = translate_expr(ops, vars, a);
            let y = translate_expr(ops, vars, b);
            let r = emit(ops, Inst::Compare(Cond::SignedGreaterThan, x, y));
            assert(insts_of(ops@) =~= start + lower(*e, tab, at).0);
            r
        },
        Expr::Ge(a, b) => {
            let x = translate_expr(ops, vars, a);
            let y = translate_expr(ops, vars, b);
            let r = emit(ops, Inst::Compare(Cond::SignedGreaterThanOrEqual, x, y));
            assert(insts_of(ops@) =~= start + lower(*e, tab, at).0);
            r
        },
        _ => {
            proof {
                assert(false);
            }
            0
        },
    }
}

/// Lowers an `if`/`else` to a diamond of blocks whose merge block takes the
/// value of the branch taken as its parameter.
fn translate_if(ops: &mut Vec<Inst>, vars: &Variables, e: &Expr) -> (r: usize)
    requires
        distinct(vars@),
        names_known(*e, vars@),
        e is IfElse,
    ensures
        insts_of(final(ops)@) == insts_of(old(ops)@) + lower(*e, vars@, old(ops)@.len() as int).0,
        r as int == lower(*e, vars@, old(ops)@.len() as int).1,
    decreases e, 0int,
{
    let ghost start = insts_of(ops@);
    let ghost at = ops@.len() as int;
    let ghost tab = vars@;
    match e {
        Expr::IfElse(c, t, f) => {
            let vc = translate_expr(ops, vars, c);
            let then_block = emit(ops, Inst::CreateBlock);
            let else_block = emit(ops, Inst::CreateBlock);
            let merge_block = emit(ops, Inst::CreateBlock);
            let phi = emit(ops, Inst::AppendBlockParam(merge_block));
            emit(ops, Inst::Brz(vc, else_block));
            emit(ops, Inst::Jump(then_block));
            emit(ops, Inst::SwitchToBlock(then_block));
            emit(ops, Inst::SealBlock(then_block));
            let zero = emit(ops, Inst::Iconst(0));
            let then_value = translate_stmts(ops, vars, t, zero);
            emit(ops, Inst::JumpArg(merge_block, then_value));
            emit(ops, Inst::SwitchToBlock(else_block));
            emit(ops, Inst::SealBlock(else_block));
            let zero = emit(ops, Inst::Iconst(0));
            let else_value = translate_stmts(ops, vars, f, zero);
            emit(ops, Inst::JumpArg(merge_block, else_value));
            emit(ops, Inst::SwitchToBlock(merge_block));
            emit(ops, Inst::SealBlock(merge_block));
            assert(insts_of(ops@) =~= start + lower(*e, tab, at).0);
            phi
        },
        _ => {
            proof {
                assert(false);
            }
            0
        },
    }
}

/// Lowers a `while` loop to a header, a body and an exit block; the header
/// is sealed once the back edge from the body is in place.
fn translate_while(ops: &mut Vec<Inst>, vars: &Variables, e: &Expr) -> (r: usize)
    requires
        distinct(vars@),
        names_known(*e, vars@),
        e is WhileLoop,
    ensures
        insts_of(final(ops)@) == insts_of(old(ops)@) + lower(*e, vars@, old(ops)@.len() as int).0,
        r as int == lower(*e, vars@, old(ops)@.len() as int).1,
    decreases e, 0int,
{
    let ghost start = insts_of(ops@);
    let ghost at = ops@.len() as int;
    let ghost tab = vars@;
    match e {
        Expr::WhileLoop(c, body) => {
            let header_block = emit(ops, Inst::CreateBlock);
            let body_block = emit(ops, Inst::CreateBlock);
            let exit_block = emit(ops, Inst::CreateBlock);
            emit(ops, Inst::Jump(header_block));
            emit(ops, Inst::SwitchToBlock(header_block));
            let vc = translate_expr(ops, vars, c);
            emit(ops, Inst::Brz(vc, exit_block));
            emit(ops, Inst::Jump(body_block));
            emit(ops, Inst::SwitchToBlock(body_block));
            emit(ops, Inst::SealBlock(body_block));
            translate_stmts(ops, vars, body, vc);
            emit(ops, Inst::Jump(header_block));
            emit(ops, Inst::SealBlock(header_block));
            emit(ops, Inst::SwitchToBlock(exit_block));
            emit(ops, Inst::SealBlock(exit_block));
            let r = emit(ops, Inst::Iconst(0));
            assert(insts_of(ops@) =~= start + lower(*e, tab, at).0);
            r
        },
        _ => {
            proof {
                assert(false);
            }
            0
        },
    }
}

/// Appends the instructions that lower each statement in turn and returns
/// the value of the last, or `init` if there is none.
pub fn translate_stmts(ops: &mut Vec<Inst>, vars: &Variables, s: &Vec<Expr>, init: usize) -> (r:
    usize)
    requires
        distinct(vars@),
        names_known_all(s@, vars@),
    ensures
        insts_of(final(ops)@) == insts_of(old(ops)@) + lower_stmts(
            s@,
            vars@,
            old(ops)@.len() as int,
            init as int,
        ).0,
        r as int == lower_stmts(s@, vars@, old(ops)@.len() as int, init as int).1,
    decreases s@,
{
    let ghost start = insts_of(ops@);
    let ghost at = ops@.len() as int;
    let mut last = init;
    let mut i: usize = 0;
    assert(insts_of(ops@) =~= start + lower_stmts(s@.subrange(0, 0), vars@, at, init as int).0);
    while i < s.len()
        invariant
            i <= s@.len(),
            distinct(vars@),
            names_known_all(s@, vars@),
            at == insts_of(old(ops)@).len(),
            start == insts_of(old(ops)@),
            insts_of(ops@) == start + lower_stmts(s@.subrange(0, i as int), vars@, at, init as int).0,
            last as int == lower_stmts(s@.subrange(0, i as int), vars@, at, init as int).1,
        decreases s@.len() - i,
    {
        proof {
            lemma_known_all_index(s@, vars@, i as int);
        }
        last = translate_expr(ops, vars, &s[i]);
        proof {
            assert(s@.subrange(0, i + 1).drop_last() =~= s@.subrange(0, i as int));
        }
        assert(insts_of(ops@) =~= start + lower_stmts(s@.subrange(0, i + 1), vars@, at, init as int).0);
        i = i + 1;
    }
    assert(s@.subrange(0, i as int) =~= s@);
    last
}

/// Appends the instructions that lower each argument in turn and returns
/// their values.
pub fn translate_args(ops: &mut Vec<Inst>, vars: &Variables, s: &Vec<Expr>) -> (r: Vec<usize>)
    requires
        distinct(vars@),
        names_known_all(s@, vars@),
    ensures
        insts_of(final(ops)@) == insts_of(old(ops)@) + lower_args(s@, vars@, old(ops)@.len() as int).0,
        r@.map_values(|a: usize| a as int) == lower_args(s@, vars@, old(ops)@.len() as int).1,
    decreases s@,
{
    let ghost start = insts_of(ops@);
    let ghost at = ops@.len() as int;
    let mut values: Vec<usize> = Vec::new();
    let mut i: usize = 0;
    assert(insts_of(ops@) =~= start + lower_args(s@.subrange(0, 0), vars@, at).0);
    assert(values@.map_values(|a: usize| a as int) =~= lower_args(s@.subrange(0, 0), vars@, at).1);
    while i < s.len()
        invariant
            i <= s@.len(),
            distinct(vars@),
            names_known_all(s@, vars@),
            at == insts_of(old(ops)@).len(),
            start == insts_of(old(ops)@),
            insts_of(ops@) == start + lower_args(s@.subrange(0, i as int), vars@, at).0,
            values@.map_values(|a: usize| a as int) == lower_args(s@.subrange(0, i as int), vars@, at).1,
        decreases s@.len() - i,
    {
        proof {
            lemma_known_all_index(s@, vars@, i as int);
        }
        let v = translate_expr(ops, vars, &s[i]);
        values.push(v);
        proof {
            assert(s@.subrange(0, i + 1).drop_last() =~= s@.subrange(0, i as int));
        }
        assert(insts_of(ops@) =~= start + lower_args(s@.subrange(0, i + 1), vars@, at).0);
        assert(values@.map_values(|a: usize| a as int) =~= lower_args(s@.subrange(0, i + 1), vars@, at).1);
        i = i + 1;
    }
    assert(s@.subrange(0, i as int) =~= s@);
    values
}

/// What holds of all statements holds of each.
proof fn lemma_known_all_index(s: Seq<Expr>, tab: Seq<Seq<char>>, i: int)
    requires
        names_known_all(s, tab),
        0 <= i < s.len(),
    ensures
        names_known(s[i], tab),
        names_known_all(s.subrange(0, i + 1), tab),
    decreases s.len(),
{
    if i < s.len() - 1 {
        lemma_known_all_index(s.drop_last(), tab, i);
        assert(s.drop_last().subrange(0, i + 1) =~= s.subrange(0, i + 1));
    } else {
        assert(s.subrange(0, i + 1) =~= s);
    }
}

} // verus!

verus! {

/// Finds a variable that `e` reads or assigns and that has no slot.
pub fn unknown_name(e: &Expr, vars: &Variables) -> (r: Option<String>)
    ensures
        r is None <==> names_known(*e, vars@),
        r matches Some(n) ==> !vars@.contains(n@),
    decreases e,
{
    match e {
        Expr::Literal(_) | Expr::GlobalDataAddr(_) => None,
        Expr::Identifier(n) => match vars.slot_of(n) {
            Some(_) => None,
            None => Some(n.clone()),
        },
        Expr::Assign(n, r) => match vars.slot_of(n) {
            Some(_) => unknown_name(r, vars),
            None => Some(n.clone()),
        },
        Expr::Eq(a, b) | Expr::Ne(a, b) | Expr::Lt(a, b) | Expr::Le(a, b) | Expr::Gt(a, b)
        | Expr::Ge(a, b) | Expr::Add(a, b) | Expr::Sub(a, b) | Expr::Mul(a, b) | Expr::Div(
            a,
            b,
        ) => match unknown_name(a, vars) {
            Some(n) => Some(n),
            None => unknown_name(b, vars),
        },
        Expr::IfElse(c, t, f) => match unknown_name(c, vars) {
            Some(n) => Some(n),
            None => match unknown_name_all(t, vars) {
                Some(n) => Some(n),
                None => unknown_name_all(f, vars),
            },
        },
        Expr::WhileLoop(c, b) => match unknown_name(c, vars) {
            Some(n) => Some(n),
            None => unknown_name_all(b, vars),
        },
        Expr::Call(_, args) => unknown_name_all(args, vars),
    }
}

/// Finds a variable that one of `s` reads or assigns and that has no slot.
pub fn unknown_name_all(s: &Vec<Expr>, vars: &Variables) -> (r: Option<String>)
    ensures
        r is None <==> names_known_all(s@, vars@),
        r matches Some(n) ==> !vars@.contains(n@),
    decreases s@,
{
    let mut i: usize = 0;
    while i < s.len()
        invariant
            i <= s@.len(),
            names_known_all(s@.subrange(0, i as int), vars@),
        decreases s@.len() - i,
    {
        assert(s@.subrange(0, i + 1).drop_last() =~= s@.subrange(0, i as int));
        match unknown_name(&s[i], vars) {
            Some(n) => {
                proof {
                    if names_known_all(s@, vars@) {
                        lemma_known_all_index(s@, vars@, i as int);
                    }
                }
                return Some(n);
            },
            None => {},
        }
        i = i + 1;
    }
    assert(s@.subrange(0, i as int) =~= s@);
    None
}

/// One `DeclareVar` per slot, in order.
pub open spec fn declares(n: int) -> Seq<InstV> {
    Seq::new(n as nat, |i: int| InstV::DeclareVar(i))
}

/// Binds each parameter's slot to the entry block's parameter at its index,
/// the first instruction going at position `at`.
pub open spec fn bind_params(tab: Seq<Seq<char>>, ps: Seq<Seq<char>>, at: int) -> Seq<InstV>
    decreases ps.len(),
{
    if ps.len() == 0 {
        Seq::empty()
    } else {
        let o = bind_params(tab, ps.drop_last(), at);
        o + seq![
            InstV::EntryParam(ps.len() - 1),
            InstV::DefVar(slot(tab, ps.last()), at + o.len()),
        ]
    }
}

/// The instructions of a whole function: the entry block, sealed at once
/// since nothing jumps to it; a slot for each variable; the parameters bound
/// to their slots; the return variable set to zero; the body; and a return
/// of the return variable.
pub open spec fn lower_function(
    tab: Seq<Seq<char>>,
    ps: Seq<Seq<char>>,
    ret: Seq<char>,
    body: Seq<Expr>,
) -> Seq<InstV> {
    let entry = seq![
        InstV::CreateBlock,
        InstV::AppendEntryParams(0),
        InstV::SwitchToBlock(0),
        InstV::SealBlock(0),
    ] + declares(tab.len() as int);
    let bind = bind_params(tab, ps, entry.len() as int);
    let zero = (entry.len() + bind.len()) as int;
    let init = seq![InstV::Iconst(0), InstV::DefVar(slot(tab, ret), zero)];
    let (ob, _) = lower_stmts(body, tab, zero + 2, zero);
    let exit = seq![InstV::UseVar(slot(tab, ret)), InstV::Return(zero + 2 + ob.len() as int)];
    entry + bind + init + ob + exit
}

/// Builds the instructions of a function from its parameters, return
/// variable and body, given its variable table; returns a variable without
/// a slot if the body uses one.
pub fn translate_function(
    vars: &Variables,
    params: &Vec<String>,
    the_return: &String,
    stmts: &Vec<Expr>,
) -> (r: Result<Vec<Inst>, String>)
    requires
        distinct(vars@),
        forall|i: int| 0 <= i < params@.len() ==> vars@.contains(#[trigger] params@[i]@),
        vars@.contains(the_return@),
    ensures
        r is Err <==> !names_known_all(stmts@, vars@),
        r matches Err(n) ==> !vars@.contains(n@),
        r matches Ok(v) ==> insts_of(v@) == lower_function(
            vars@,
            crate::ast::names_of(params@),
            the_return@,
            stmts@,
        ),
{
    if let Some(n) = unknown_name_all(stmts, vars) {
        return Err(n);
    }
    let ghost tab = vars@;
    let ghost ps = crate::ast::names_of(params@);
    let mut ops: Vec<Inst> = Vec::new();
    let entry = emit(&mut ops, Inst::CreateBlock);
    emit(&mut ops, Inst::AppendEntryParams(entry));
    emit(&mut ops, Inst::SwitchToBlock(entry));
    emit(&mut ops, Inst::SealBlock(entry));
    let mut k: usize = 0;
    let n = vars.len();
    assert(insts_of(ops@) =~= seq![
        InstV::CreateBlock,
        InstV::AppendEntryParams(0),
        InstV::SwitchToBlock(0),
        InstV::SealBlock(0),
    ] + declares(0));
    while k < n
        invariant
            k <= n,
            n == tab.len(),
            insts_of(ops@) == seq![
                InstV::CreateBlock,
                InstV::AppendEntryParams(0),
                InstV::SwitchToBlock(0),
                InstV::SealBlock(0),
            ] + declares(k as int),
        decreases n - k,
    {
        emit(&mut ops, Inst::DeclareVar(k));
        assert(declares(k + 1) =~= declares(k as int).push(InstV::DeclareVar(k as int)));
        k = k + 1;
    }
    let ghost entry_insts = insts_of(ops@);
    let mut i: usize = 0;
    assert(insts_of(ops@) =~= entry_insts + bind_params(tab, ps.subrange(0, 0), entry_insts.len() as int));
    while i < params.len()
        invariant
            i <= params@.len(),
            distinct(tab),
            tab == vars@,
            ps == crate::ast::names_of(params@),
            forall|j: int| 0 <= j < params@.len() ==> vars@.contains(#[trigger] params@[j]@),
            insts_of(ops@) == entry_insts + bind_params(tab, ps.subrange(0, i as int), entry_insts.len() as int),
        decreases params@.len() - i,
    {
        let v = emit(&mut ops, Inst::EntryParam(i));
        assert(ps.subrange(0, i + 1).drop_last() =~= ps.subrange(0, i as int));
        assert(params@[i as int]@ == ps[i as int]);
        emit(&mut ops, Inst::DefVar(slot_for(vars, &params[i]), v));
        assert(insts_of(ops@) =~= entry_insts + bind_params(tab, ps.subrange(0, i + 1), entry_insts.len() as int));
        i = i + 1;
    }
    assert(ps.subrange(0, i as int) =~= ps);
    let ret_slot = slot_for(vars, the_return);
    let zero = emit(&mut ops, Inst::Iconst(0));
    emit(&mut ops, Inst::DefVar(ret_slot, zero));
    translate_stmts(&mut ops, vars, stmts, zero);
    let rv = emit(&mut ops, Inst::UseVar(ret_slot));
    emit(&mut ops, Inst::Return(rv));
    assert(insts_of(ops@) =~= lower_function(tab, ps, the_return@, stmts@));
    Ok(ops)
}

} // verus!

verus! {

/// A `while` expression's value is a zero constant made after the loop: the
/// last instruction of its lowering.
pub proof fn lemma_while_value_is_zero(e: Expr, tab: Seq<Seq<char>>, at: int)
    requires
        e is WhileLoop,
    ensures
        lower(e, tab, at).1 == at + lower(e, tab, at).0.len() - 1,
        lower(e, tab, at).0.last() == InstV::Iconst(0),
{
}

/// The value that a branch of an `if`/`else` hands to the merge block: the
/// value of its last statement, lowered at `at`, or else `zero`.
pub open spec fn branch_value(s: Seq<Expr>, tab: Seq<Seq<char>>, at: int, zero: int) -> int {
    lower_stmts(s, tab, at, zero).1
}

/// An `if`/`else` expression's value is the parameter of its merge block,
/// and each branch jumps there handing over the value of its last
/// statement, or a zero constant if it has none.
pub proof fn lemma_if_value(e: Expr, tab: Seq<Seq<char>>, at: int)
    requires
        e is IfElse,
    ensures
        ({
            let (o, v) = lower(e, tab, at);
            let c = e->IfElse_0;
            let t = e->IfElse_1;
            let f = e->IfElse_2;
            let p = at + lower(*c, tab, at).0.len();
            let merge = p + 2;
            let then_zero = p + 8;
            let then_value = branch_value(t@, tab, p + 9, then_zero);
            let then_jump = p + 9 + lower_stmts(t@, tab, p + 9, then_zero).0.len();
            let else_zero = then_jump + 3;
            let else_value = branch_value(f@, tab, else_zero + 1, else_zero);
            let else_jump = else_zero + 1 + lower_stmts(f@, tab, else_zero + 1, else_zero).0.len();
            &&& o[merge - at] == InstV::CreateBlock
            &&& o[v - at] == InstV::AppendBlockParam(merge)
            &&& o[then_jump - at] == InstV::JumpArg(merge, then_value)
            &&& o[else_jump - at] == InstV::JumpArg(merge, else_value)
            &&& (t@.len() == 0 ==> then_value == then_zero && o[then_zero - at] == InstV::Iconst(0))
            &&& (f@.len() == 0 ==> else_value == else_zero && o[else_zero - at] == InstV::Iconst(0))
            &&& (t@.len() > 0 ==> then_value == lower(
                t@.last(),
                tab,
                p + 9 + lower_stmts(t@.drop_last(), tab, p + 9, then_zero).0.len(),
            ).1)
            &&& (f@.len() > 0 ==> else_value == lower(
                f@.last(),
                tab,
                else_zero + 1 + lower_stmts(f@.drop_last(), tab, else_zero + 1, else_zero).0.len(),
            ).1)
        }),
{
    let c = e->IfElse_0;
    let t = e->IfElse_1;
    let f = e->IfElse_2;
    let (oc, vc) = lower(*c, tab, at);
    let p = at + oc.len();
    let (ot, vt) = lower_stmts(t@, tab, p + 9, p + 8);
    let q = p + 9 + ot.len();
    let (of, vf) = lower_stmts(f@, tab, q + 4, q + 3);
    let o = lower(e, tab, at).0;
    assert(o[p + 2 - at] == InstV::CreateBlock);
    assert(o[p + 3 - at] == InstV::AppendBlockParam(p + 2));
    assert(o[p + 8 - at] == InstV::Iconst(0));
    assert(o[q - at] == InstV::JumpArg(p + 2, vt));
    assert(o[q + 3 - at] == InstV::Iconst(0));
    assert(o[q + 4 + of.len() - at] == InstV::JumpArg(p + 2, vf));
}

} // verus!

verus! {

/// The slots that some `DefVar` of `o` assigns.
pub open spec fn def_slots(o: Seq<InstV>) -> Set<int> {
    Set::new(|s: int| exists|i: int, v: int| 0 <= i < o.len() && o[i] == InstV::DefVar(s, v))
}

/// The slots of the names `ns`.
pub open spec fn slots_of(tab: Seq<Seq<char>>, ns: Seq<Seq<char>>) -> Set<int> {
    Set::new(|s: int| exists|j: int| 0 <= j < ns.len() && slot(tab, ns[j]) == s)
}

proof fn lemma_def_slots_add(a: Seq<InstV>, b: Seq<InstV>)
    ensures
        def_slots(a + b) == def_slots(a).union(def_slots(b)),
{
    assert forall|s: int| #[trigger] def_slots(a + b).contains(s) implies def_slots(a).union(
        def_slots(b),
    ).contains(s) by {
        let (i, v) = choose|i: int, v: int| 0 <= i < (a + b).len() && (a + b)[i] == InstV::DefVar(s, v);
        if i < a.len() {
            assert(a[i] == InstV::DefVar(s, v));
        } else {
            assert(b[i - a.len()] == InstV::DefVar(s, v));
        }
    }
    assert forall|s: int| #[trigger] def_slots(a).union(def_slots(b)).contains(s) implies def_slots(
        a + b,
    ).contains(s) by {
        if def_slots(a).contains(s) {
            let (i, v) = choose|i: int, v: int| 0 <= i < a.len() && a[i] == InstV::DefVar(s, v);
            assert((a + b)[i] == InstV::DefVar(s, v));
        } else {
            let (i, v) = choose|i: int, v: int| 0 <= i < b.len() && b[i] == InstV::DefVar(s, v);
            assert((a + b)[a.len() + i] == InstV::DefVar(s, v));
        }
    }
    assert(def_slots(a + b) =~= def_slots(a).union(def_slots(b)));
}

proof fn lemma_no_defs(o: Seq<InstV>)
    requires
        forall|i: int| 0 <= i < o.len() ==> !(#[trigger] o[i] is DefVar),
    ensures
        def_slots(o) == Set::<int>::empty(),
{
    assert(def_slots(o) =~= Set::<int>::empty());
}

proof fn lemma_slots_of_add(tab: Seq<Seq<char>>, a: Seq<Seq<char>>, b: Seq<Seq<char>>)
    ensures
        slots_of(tab, a + b) == slots_of(tab, a).union(slots_of(tab, b)),
{
    assert forall|s: int| #[trigger] slots_of(tab, a + b).contains(s) implies slots_of(tab, a).union(
        slots_of(tab, b),
    ).contains(s) by {
        let j = choose|j: int| 0 <= j < (a + b).len() && slot(tab, (a + b)[j]) == s;
        if j < a.len() {
            assert(slot(tab, a[j]) == s);
        } else {
            assert(slot(tab, b[j - a.len()]) == s);
        }
    }
    assert forall|s: int| #[trigger] slots_of(tab, a).union(slots_of(tab, b)).contains(s) implies slots_of(
        tab,
        a + b,
    ).contains(s) by {
        if slots_of(tab, a).contains(s) {
            let j = choose|j: int| 0 <= j < a.len() && slot(tab, a[j]) == s;
            assert((a + b)[j] == a[j]);
        } else {
            let j = choose|j: int| 0 <= j < b.len() && slot(tab, b[j]) == s;
            assert((a + b)[a.len() + j] == b[j]);
        }
    }
    assert(slots_of(tab, a + b) =~= slots_of(tab, a).union(slots_of(tab, b)));
}

/// Lowering assigns only the slots of names that the expression assigns.
pub proof fn lemma_defs_are_targets(e: Expr, tab: Seq<Seq<char>>, at: int)
    ensures
        def_slots(lower(e, tab, at).0).subset_of(slots_of(tab, crate::vars::targets(e))),
    decreases e,
{
    let o = lower(e, tab, at).0;
    match e {
        Expr::Literal(_) | Expr::Identifier(_) | Expr::GlobalDataAddr(_) => {
            lemma_no_defs(o);
        },
        Expr::Assign(n, r) => {
            let (or, v) = lower(*r, tab, at);
            lemma_defs_are_targets(*r, tab, at);
            lemma_def_slots_add(or, seq![InstV::DefVar(slot(tab, n@), v)]);
            assert(or.push(InstV::DefVar(slot(tab, n@), v)) =~= or + seq![InstV::DefVar(slot(tab, n@), v)]);
            let x = seq![InstV::DefVar(slot(tab, n@), v)];
            assert forall|k: int| #[trigger] def_slots(x).contains(k) implies k == slot(tab, n@) by {
                let (i, w) = choose|i: int, w: int| 0 <= i < x.len() && x[i] == InstV::DefVar(k, w);
                assert(i == 0);
            }
            lemma_slots_of_add(tab, seq![n@], crate::vars::targets(*r));
            assert(slots_of(tab, seq![n@]).contains(slot(tab, n@))) by {
                assert(seq![n@][0] == n@);
            }
        },
        Expr::IfElse(c, t, f) => {
            let (oc, vc) = lower(*c, tab, at);
            let p = at + oc.len();
            let (ot, vt) = lower_stmts(t@, tab, p + 9, p + 8);
            let q = p + 9 + ot.len();
            let (of, vf) = lower_stmts(f@, tab, q + 4, q + 3);
            let head = o.subrange(oc.len() as int, oc.len() + 9int);
            let mid = o.subrange(q - at, q - at + 4);
            let tail = o.subrange(q + 4 + of.len() - at, o.len() as int);
            lemma_no_defs(head);
            lemma_no_defs(mid);
            lemma_no_defs(tail);
            assert(o =~= oc + head + ot + mid + of + tail);
            lemma_def_slots_add(oc, head);
            lemma_def_slots_add(oc + head, ot);
            lemma_def_slots_add(oc + head + ot, mid);
            lemma_def_slots_add(oc + head + ot + mid, of);
            lemma_def_slots_add(oc + head + ot + mid + of, tail);
            lemma_defs_are_targets(*c, tab, at);
            lemma_defs_in_stmts(t@, tab, p + 9, p + 8);
            lemma_defs_in_stmts(f@, tab, q + 4, q + 3);
            lemma_slots_of_add(tab, crate::vars::targets(*c), crate::vars::targets_all(t@));
            lemma_slots_of_add(
                tab,
                crate::vars::targets(*c) + crate::vars::targets_all(t@),
                crate::vars::targets_all(f@),
            );
        },
        Expr::WhileLoop(c, b) => {
            let (oc, vc) = lower(*c, tab, at + 5);
            let p = at + 5 + oc.len();
            let (ob, vb) = lower_stmts(b@, tab, p + 4, vc);
            let head = o.subrange(0, 5);
            let mid = o.subrange(p - at, p - at + 4);
            let tail = o.subrange(p + 4 + ob.len() - at, o.len() as int);
            lemma_no_defs(head);
            lemma_no_defs(mid);
            lemma_no_defs(tail);
            assert(o =~= head + oc + mid + ob + tail);
            lemma_def_slots_add(head, oc);
            lemma_def_slots_add(head + oc, mid);
            lemma_def_slots_add(head + oc + mid, ob);
            lemma_def_slots_add(head + oc + mid + ob, tail);
            lemma_defs_are_targets(*c, tab, at + 5);
            lemma_defs_in_stmts(b@, tab, p + 4, vc);
            lemma_slots_of_add(tab, crate::vars::targets(*c), crate::vars::targets_all(b@));
        },
        Expr::Call(n, args) => {
            let (oa, vs) = lower_args(args@, tab, at);
            lemma_defs_in_args(args@, tab, at);
            lemma_no_defs(seq![InstV::Call(n@, vs)]);
            lemma_def_slots_add(oa, seq![InstV::Call(n@, vs)]);
            assert(oa.push(InstV::Call(n@, vs)) =~= oa + seq![InstV::Call(n@, vs)]);
        },
        _ => {
            let (a, b) = operands(e);
            let (oa, va) = lower(a, tab, at);
            let (ob, vb) = lower(b, tab, at + oa.len());
            lemma_operands(e, tab, at);
            lemma_defs_are_targets(a, tab, at);
            lemma_defs_are_targets(b, tab, at + oa.len());
            let last = o.subrange(o.len() - 1, o.len() as int);
            lemma_no_defs(last);
            assert(o =~= oa + ob + last);
            lemma_def_slots_add(oa, ob);
            lemma_def_slots_add(oa + ob, last);
            lemma_slots_of_add(tab, crate::vars::targets(a), crate::vars::targets(b));
        },
    }
}

/// The two operands of a binary operation.
pub open spec fn operands(e: Expr) -> (Expr, Expr) {
    match e {
        Expr::Eq(a, b) | Expr::Ne(a, b) | Expr::Lt(a, b) | Expr::Le(a, b) | Expr::Gt(a, b)
        | Expr::Ge(a, b) | Expr::Add(a, b) | Expr::Sub(a, b) | Expr::Mul(a, b) | Expr::Div(
            a,
            b,
        ) => (*a, *b),
        _ => (e, e),
    }
}

/// A binary operation lowers its operands in turn, then one instruction
/// that is no assignment.
pub(crate) proof fn lemma_operands(e: Expr, tab: Seq<Seq<char>>, at: int)
    requires
        is_operator(e),
    ensures
        ({
            let (a, b) = operands(e);
            let oa = lower(a, tab, at).0;
            let ob = lower(b, tab, at + oa.len()).0;
            let o = lower(e, tab, at).0;
            &&& o.len() == oa.len() + ob.len() + 1
            &&& o.subrange(0, (oa.len() + ob.len()) as int) == oa + ob
            &&& !(o.last() is DefVar)
            &&& crate::vars::targets(e) == crate::vars::targets(a) + crate::vars::targets(b)
            &&& decreases_to!(e => a)
            &&& decreases_to!(e => b)
        }),
{
    let (a, b) = operands(e);
    let oa = lower(a, tab, at).0;
    let ob = lower(b, tab, at + oa.len()).0;
    assert(lower(e, tab, at).0.subrange(0, (oa.len() + ob.len()) as int) =~= oa + ob);
}

proof fn lemma_defs_in_stmts(s: Seq<Expr>, tab: Seq<Seq<char>>, at: int, init: int)
    ensures
        def_slots(lower_stmts(s, tab, at, init).0).subset_of(
            slots_of(tab, crate::vars::targets_all(s)),
        ),
    decreases s,
{
    if s.len() == 0 {
        lemma_no_defs(lower_stmts(s, tab, at, init).0);
    } else {
        let (o, _) = lower_stmts(s.drop_last(), tab, at, init);
        lemma_defs_in_stmts(s.drop_last(), tab, at, init);
        lemma_defs_are_targets(s.last(), tab, at + o.len());
        lemma_def_slots_add(o, lower(s.last(), tab, at + o.len()).0);
        lemma_slots_of_add(tab, crate::vars::targets_all(s.drop_last()), crate::vars::targets(s.last()));
    }
}

proof fn lemma_defs_in_args(s: Seq<Expr>, tab: Seq<Seq<char>>, at: int)
    ensures
        def_slots(lower_args(s, tab, at).0).subset_of(slots_of(tab, crate::vars::targets_all(s))),
    decreases s,
{
    if s.len() == 0 {
        lemma_no_defs(lower_args(s, tab, at).0);
    } else {
        let (o, _) = lower_args(s.drop_last(), tab, at);
        lemma_defs_in_args(s.drop_last(), tab, at);
        lemma_defs_are_targets(s.last(), tab, at + o.len());
        lemma_def_slots_add(o, lower(s.last(), tab, at + o.len()).0);
        lemma_slots_of_add(tab, crate::vars::targets_all(s.drop_last()), crate::vars::targets(s.last()));
    }
}

} // verus!

verus! {

/// A function whose body never assigns its return variable returns zero:
/// the return variable is set to a zero constant before the body, no
/// instruction after that assigns its slot, and the function returns the
/// slot's value.
pub proof fn lemma_unassigned_return_is_zero(
    params: Seq<Seq<char>>,
    ret: Seq<char>,
    body: Seq<Expr>,
)
    requires
        !crate::vars::targets_all(body).contains(ret),
    ensures
        ({
            let tab = table_of(params, ret, body);
            let o = lower_function(tab, params, ret, body);
            let entry_len = 4 + tab.len() as int;
            let zero = entry_len + bind_params(tab, params, entry_len).len() as int;
            &&& o[zero] == InstV::Iconst(0)
            &&& o[zero + 1] == InstV::DefVar(slot(tab, ret), zero)
            &&& forall|i: int, v: int| zero + 1 < i < o.len() ==> o[i] != InstV::DefVar(slot(tab, ret), v)
            &&& o[o.len() - 2] == InstV::UseVar(slot(tab, ret))
            &&& o[o.len() - 1] == InstV::Return(o.len() - 2)
        }),
{
    let tab = table_of(params, ret, body);
    let ts = crate::vars::targets_all(body);
    let ns = params + seq![ret] + ts;
    crate::vars::lemma_add_names_props(Seq::empty(), ns);
    let o = lower_function(tab, params, ret, body);
    let entry_len = 4 + tab.len() as int;
    let zero = entry_len + bind_params(tab, params, entry_len).len() as int;
    let ob = lower_stmts(body, tab, zero + 2, zero).0;
    lemma_defs_in_stmts(body, tab, zero + 2, zero);
    assert(ns[params.len() as int] == ret);
    assert(tab.contains(ret));
    assert(!slots_of(tab, ts).contains(slot(tab, ret))) by {
        if slots_of(tab, ts).contains(slot(tab, ret)) {
            let j = choose|j: int| 0 <= j < ts.len() && slot(tab, ts[j]) == slot(tab, ret);
            assert(ns[params.len() + 1 + j] == ts[j]);
            assert(tab.contains(ts[j]));
            assert(ts.contains(ts[j]));
        }
    }
    assert forall|i: int, v: int| zero + 1 < i < o.len() implies o[i] != InstV::DefVar(
        slot(tab, ret),
        v,
    ) by {
        if i < zero + 2 + ob.len() {
            assert(o[i] == ob[i - zero - 2]);
            if o[i] == InstV::DefVar(slot(tab, ret), v) {
                assert(def_slots(ob).contains(slot(tab, ret)));
            }
        }
    }
}

} // verus!
