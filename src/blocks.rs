use vstd::prelude::*;
use crate::ast::Expr;
use crate::ir::InstV;
use crate::lower::{bind_params, declares, lower, lower_args, lower_function, lower_stmts, slot};

verus! {

/// How many times `o` seals block `b`.
pub open spec fn seals(o: Seq<InstV>, b: int) -> nat
    decreases o.len(),
{
    if o.len() == 0 {
        0
    } else {
        seals(o.drop_last(), b) + if o.last() == InstV::SealBlock(b) {
            1nat
        } else {
            0nat
        }
    }
}

/// The instructions `o`, placed at position `at`, seal each block that they
/// create exactly once, and no other block.
pub open spec fn seals_own_blocks(o: Seq<InstV>, at: int) -> bool {
    forall|b: int|
        #![trigger seals(o, b)]
        (at <= b < at + o.len() && o[b - at] == InstV::CreateBlock ==> seals(o, b) == 1) && (!(at
            <= b < at + o.len()) ==> seals(o, b) == 0)
}

proof fn lemma_seals_add(a: Seq<InstV>, c: Seq<InstV>, b: int)
    ensures
        seals(a + c, b) == seals(a, b) + seals(c, b),
    decreases c.len(),
{
    if c.len() == 0 {
        assert(a + c =~= a);
    } else {
        assert((a + c).drop_last() =~= a + c.drop_last());
        lemma_seals_add(a, c.drop_last(), b);
    }
}

/// Placing two runs side by side keeps each sealing its own blocks.
proof fn lemma_seals_own_add(a: Seq<InstV>, c: Seq<InstV>, at: int)
    requires
        seals_own_blocks(a, at),
        seals_own_blocks(c, at + a.len()),
    ensures
        seals_own_blocks(a + c, at),
{
    assert forall|b: int| #![trigger seals(a + c, b)]
        (at <= b < at + (a + c).len() && (a + c)[b - at] == InstV::CreateBlock ==> seals(a + c, b)
            == 1) && (!(at <= b < at + (a + c).len()) ==> seals(a + c, b) == 0) by {
        lemma_seals_add(a, c, b);
        assert(seals(a, b) == seals(a, b));
        assert(seals(c, b) == seals(c, b));
        if at + a.len() <= b < at + (a + c).len() {
            assert((a + c)[b - at] == c[b - (at + a.len())]);
        } else if at <= b < at + a.len() {
            assert((a + c)[b - at] == a[b - at]);
        }
    }
}

proof fn lemma_seals_empty(at: int)
    ensures
        seals_own_blocks(Seq::<InstV>::empty(), at),
{
    assert forall|b: int| #![trigger seals(Seq::<InstV>::empty(), b)]
        seals(Seq::<InstV>::empty(), b) == 0 by {}
}

/// The lowering of an expression seals each block that it creates exactly
/// once, and no other.
pub proof fn lemma_lower_seals_own_blocks(e: Expr, tab: Seq<Seq<char>>, at: int)
    ensures
        seals_own_blocks(lower(e, tab, at).0, at),
    decreases e, 1int,
{
    let o = lower(e, tab, at).0;
    match e {
        Expr::Assign(n, r) => {
            let (or, v) = lower(*r, tab, at);
            lemma_lower_seals_own_blocks(*r, tab, at);
            let last = seq![InstV::DefVar(crate::lower::slot(tab, n@), v)];
            lemma_no_seals(last, at + or.len());
            assert(o =~= or + last);
            lemma_seals_own_add(or, last, at);
        },
        Expr::IfElse(..) => lemma_if_seals_own_blocks(e, tab, at),
        Expr::WhileLoop(..) => lemma_while_seals_own_blocks(e, tab, at),
        Expr::Call(n, args) => {
            let (oa, vs) = lower_args(args@, tab, at);
            lemma_args_seal_own_blocks(args@, tab, at);
            let last = seq![InstV::Call(n@, vs)];
            lemma_no_seals(last, at + oa.len());
            assert(o =~= oa + last);
            lemma_seals_own_add(oa, last, at);
        },
        Expr::Literal(_) | Expr::Identifier(_) | Expr::GlobalDataAddr(_) => {
            lemma_no_seals(o, at);
        },
        _ => {
            let (a, b) = crate::lower::operands(e);
            let (oa, va) = lower(a, tab, at);
            let (ob, vb) = lower(b, tab, at + oa.len());
            crate::lower::lemma_operands(e, tab, at);
            lemma_lower_seals_own_blocks(a, tab, at);
            lemma_lower_seals_own_blocks(b, tab, at + oa.len());
            let last = o.subrange(o.len() - 1, o.len() as int);
            lemma_no_seals(last, at + oa.len() + ob.len());
            assert(o =~= oa + ob + last);
            lemma_seals_own_add(oa, ob, at);
            lemma_seals_own_add(oa + ob, last, at);
        },
    }
}

/// A run that never seals `b` seals it zero times.
proof fn lemma_seals_none(o: Seq<InstV>, b: int)
    requires
        forall|i: int| 0 <= i < o.len() ==> o[i] != InstV::SealBlock(b),
    ensures
        seals(o, b) == 0,
    decreases o.len(),
{
    if o.len() > 0 {
        lemma_seals_none(o.drop_last(), b);
    }
}

/// A run that seals `b` at `k` and nowhere else seals it once.
proof fn lemma_seals_once(o: Seq<InstV>, k: int, b: int)
    requires
        0 <= k < o.len(),
        o[k] == InstV::SealBlock(b),
        forall|i: int| 0 <= i < o.len() && i != k ==> o[i] != InstV::SealBlock(b),
    ensures
        seals(o, b) == 1,
    decreases o.len(),
{
    if k < o.len() - 1 {
        lemma_seals_once(o.drop_last(), k, b);
    } else {
        lemma_seals_none(o.drop_last(), b);
    }
}

/// Seals `b` once if `b == k`, else never.
proof fn lemma_seals_at(o: Seq<InstV>, k: int, b: int, s: int)
    requires
        0 <= k < o.len(),
        o[k] == InstV::SealBlock(s),
        forall|i: int| 0 <= i < o.len() && i != k ==> !(#[trigger] o[i] is SealBlock),
    ensures
        seals(o, b) == if b == s {
            1nat
        } else {
            0nat
        },
{
    if b == s {
        lemma_seals_once(o, k, b);
    } else {
        lemma_seals_none(o, b);
    }
}

/// The diamond of an `if`/`else`: three blocks, each sealed once.
#[verifier::rlimit(60)]
proof fn lemma_if_seals_own_blocks(e: Expr, tab: Seq<Seq<char>>, at: int)
    requires
        e is IfElse,
    ensures
        seals_own_blocks(lower(e, tab, at).0, at),
    decreases e, 0int,
{
    let o = lower(e, tab, at).0;
    let (c, t, f) = (e->IfElse_0, e->IfElse_1, e->IfElse_2);
    let (oc, vc) = lower(*c, tab, at);
    let p = at + oc.len();
    let (ot, vt) = lower_stmts(t@, tab, p + 9, p + 8);
    let q = p + 9 + ot.len();
    let (of, vf) = lower_stmts(f@, tab, q + 4, q + 3);
    let head = o.subrange(oc.len() as int, oc.len() + 9int);
    let mid = o.subrange(q - at, q - at + 4);
    let tail = o.subrange(q + 4 + of.len() - at, o.len() as int);
    assert(o =~= oc + head + ot + mid + of + tail);
    lemma_lower_seals_own_blocks(*c, tab, at);
    lemma_stmts_seal_own_blocks(t@, tab, p + 9, p + 8);
    lemma_stmts_seal_own_blocks(f@, tab, q + 4, q + 3);
    // the diamond: three blocks made in `head`, each sealed once,
    // in `head`, `mid` and `tail`
    assert(head[7] == InstV::SealBlock(p));
    assert(mid[2] == InstV::SealBlock(p + 1));
    assert(tail[2] == InstV::SealBlock(p + 2));
    assert forall|b: int| #![trigger seals(o, b)]
        (at <= b < at + o.len() && o[b - at] == InstV::CreateBlock ==> seals(o, b) == 1)
            && (!(at <= b < at + o.len()) ==> seals(o, b) == 0) by {
        lemma_seals_add(oc, head, b);
        lemma_seals_add(oc + head, ot, b);
        lemma_seals_add(oc + head + ot, mid, b);
        lemma_seals_add(oc + head + ot + mid, of, b);
        lemma_seals_add(oc + head + ot + mid + of, tail, b);
        lemma_seals_at(head, 7, b, p);
        lemma_seals_at(mid, 2, b, p + 1);
        lemma_seals_at(tail, 2, b, p + 2);
        if at <= b < p {
            assert(o[b - at] == oc[b - at]);
        } else if p + 9 <= b < q {
            assert(o[b - at] == ot[b - (p + 9)]);
        } else if q + 4 <= b < q + 4 + of.len() {
            assert(o[b - at] == of[b - (q + 4)]);
        }
    }
}

/// The triangle of a `while`: three blocks, each sealed once.
#[verifier::rlimit(60)]
proof fn lemma_while_seals_own_blocks(e: Expr, tab: Seq<Seq<char>>, at: int)
    requires
        e is WhileLoop,
    ensures
        seals_own_blocks(lower(e, tab, at).0, at),
    decreases e, 0int,
{
    let o = lower(e, tab, at).0;
    let (c, body) = (e->WhileLoop_0, e->WhileLoop_1);
    let (oc, vc) = lower(*c, tab, at + 5);
    let p = at + 5 + oc.len();
    let (ob, vb) = lower_stmts(body@, tab, p + 4, vc);
    let head = o.subrange(0, 5);
    let mid = o.subrange(p - at, p - at + 4);
    let tail = o.subrange(p + 4 + ob.len() - at, o.len() as int);
    assert(o =~= head + oc + mid + ob + tail);
    lemma_lower_seals_own_blocks(*c, tab, at + 5);
    lemma_stmts_seal_own_blocks(body@, tab, p + 4, vc);
    assert forall|b: int| #![trigger seals(o, b)]
        (at <= b < at + o.len() && o[b - at] == InstV::CreateBlock ==> seals(o, b) == 1)
            && (!(at <= b < at + o.len()) ==> seals(o, b) == 0) by {
        lemma_seals_add(head, oc, b);
        lemma_seals_add(head + oc, mid, b);
        lemma_seals_add(head + oc + mid, ob, b);
        lemma_seals_add(head + oc + mid + ob, tail, b);
        lemma_seals_none(head, b);
        lemma_seals_at(mid, 3, b, at + 1);
        lemma_seals_add(tail.subrange(0, 3), tail.subrange(3, 5), b);
        lemma_seals_at(tail.subrange(0, 3), 1, b, at);
        lemma_seals_at(tail.subrange(3, 5), 0, b, at + 2);
        assert(tail.subrange(0, 3) + tail.subrange(3, 5) =~= tail);
        if at + 5 <= b < p {
            assert(o[b - at] == oc[b - (at + 5)]);
        } else if p + 4 <= b < p + 4 + ob.len() {
            assert(o[b - at] == ob[b - (p + 4)]);
        }
    }
}

/// A single instruction that neither creates nor seals a block.
proof fn lemma_no_seals(o: Seq<InstV>, at: int)
    requires
        o.len() == 1,
        !(o[0] is CreateBlock),
        !(o[0] is SealBlock),
    ensures
        seals_own_blocks(o, at),
{
    assert(o.drop_last() =~= Seq::<InstV>::empty());
    assert forall|b: int| #![trigger seals(o, b)] seals(o, b) == 0 by {
        assert(seals(o.drop_last(), b) == 0);
    }
}

proof fn lemma_stmts_seal_own_blocks(s: Seq<Expr>, tab: Seq<Seq<char>>, at: int, init: int)
    ensures
        seals_own_blocks(lower_stmts(s, tab, at, init).0, at),
    decreases s,
{
    if s.len() == 0 {
        lemma_seals_empty(at);
    } else {
        let (o, _) = lower_stmts(s.drop_last(), tab, at, init);
        lemma_stmts_seal_own_blocks(s.drop_last(), tab, at, init);
        lemma_lower_seals_own_blocks(s.last(), tab, at + o.len());
        lemma_seals_own_add(o, lower(s.last(), tab, at + o.len()).0, at);
    }
}

proof fn lemma_args_seal_own_blocks(s: Seq<Expr>, tab: Seq<Seq<char>>, at: int)
    ensures
        seals_own_blocks(lower_args(s, tab, at).0, at),
    decreases s,
{
    if s.len() == 0 {
        lemma_seals_empty(at);
    } else {
        let (o, _) = lower_args(s.drop_last(), tab, at);
        lemma_args_seal_own_blocks(s.drop_last(), tab, at);
        lemma_lower_seals_own_blocks(s.last(), tab, at + o.len());
        lemma_seals_own_add(o, lower(s.last(), tab, at + o.len()).0, at);
    }
}

} // verus!

verus! {

/// Binding the parameters neither creates nor seals a block.
proof fn lemma_bind_plain(tab: Seq<Seq<char>>, ps: Seq<Seq<char>>, at: int)
    ensures
        forall|i: int| 0 <= i < bind_params(tab, ps, at).len() ==> !(#[trigger] bind_params(tab, ps, at)[i] is CreateBlock) && !(bind_params(tab, ps, at)[i] is SealBlock),
    decreases ps.len(),
{
    if ps.len() > 0 {
        lemma_bind_plain(tab, ps.drop_last(), at);
        let o = bind_params(tab, ps.drop_last(), at);
        assert forall|i: int| 0 <= i < bind_params(tab, ps, at).len() implies !(
        #[trigger] bind_params(tab, ps, at)[i] is CreateBlock) && !(bind_params(tab, ps, at)[i] is SealBlock) by {
            if i < o.len() {
                assert(bind_params(tab, ps, at)[i] == o[i]);
            }
        }
    }
}

/// The instructions of a function seal each block that they create exactly
/// once: the entry block at once, every other block once the lowering knows
/// all its predecessors.
pub proof fn lemma_function_seals_each_block_once(
    tab: Seq<Seq<char>>,
    ps: Seq<Seq<char>>,
    ret: Seq<char>,
    body: Seq<Expr>,
)
    ensures
        ({
            let o = lower_function(tab, ps, ret, body);
            forall|b: int| 0 <= b < o.len() && o[b] == InstV::CreateBlock ==> #[trigger] seals(o, b) == 1
        }),
{
    let o = lower_function(tab, ps, ret, body);
    let entry = seq![
        InstV::CreateBlock,
        InstV::AppendEntryParams(0),
        InstV::SwitchToBlock(0),
        InstV::SealBlock(0),
    ] + declares(tab.len() as int);
    let bind = bind_params(tab, ps, entry.len() as int);
    let zero = (entry.len() + bind.len()) as int;
    let init = seq![InstV::Iconst(0), InstV::DefVar(slot(tab, ret), zero)];
    let ob = lower_stmts(body, tab, zero + 2, zero).0;
    let exit = seq![InstV::UseVar(slot(tab, ret)), InstV::Return(zero + 2 + ob.len() as int)];
    let pre = entry + bind + init;
    assert(o =~= pre + ob + exit);
    lemma_bind_plain(tab, ps, entry.len() as int);
    lemma_stmts_seal_own_blocks(body, tab, zero + 2, zero);
    assert(entry[3] == InstV::SealBlock(0));
    assert forall|i: int| 0 <= i < pre.len() && i != 3 implies !(#[trigger] pre[i] is SealBlock) by {
        if entry.len() <= i < entry.len() + bind.len() {
            assert(pre[i] == bind[i - entry.len()]);
        }
    }
    assert forall|b: int| 0 <= b < o.len() && o[b] == InstV::CreateBlock implies #[trigger] seals(o, b) == 1 by {
        lemma_seals_add(pre, ob, b);
        lemma_seals_add(pre + ob, exit, b);
        lemma_seals_at(pre, 3, b, 0);
        lemma_seals_none(exit, b);
        if b < pre.len() {
            if entry.len() <= b < entry.len() + bind.len() {
                assert(o[b] == bind[b - entry.len()]);
            }
            assert(b == 0);
        } else if b < pre.len() + ob.len() {
            assert(o[b] == ob[b - pre.len()]);
        }
    }
}

} // verus!
