use vstd::prelude::*;
use crate::ast::Expr;
use crate::ir::InstV;
use crate::lower::{lower, lower_args, lower_stmts, lower_function, bind_params, declares, slot};

verus! {

/// Whether an instruction makes a value.
pub open spec fn makes_value(i: InstV) -> bool {
    i is Iconst || i is Binary || i is Compare || i is UseVar || i is Call || i is GlobalAddr
        || i is EntryParam || i is AppendBlockParam
}

/// The values an instruction uses.
pub open spec fn value_refs(i: InstV) -> Seq<int> {
    match i {
        InstV::Binary(_, a, b) | InstV::Compare(_, a, b) => seq![a, b],
        InstV::DefVar(_, x) | InstV::Brz(x, _) | InstV::JumpArg(_, x) | InstV::Return(x) => seq![x],
        InstV::Call(_, args) => args,
        _ => Seq::empty(),
    }
}

/// The blocks an instruction names.
pub open spec fn block_refs(i: InstV) -> Seq<int> {
    match i {
        InstV::AppendEntryParams(b) | InstV::AppendBlockParam(b) | InstV::Brz(_, b)
        | InstV::Jump(b) | InstV::JumpArg(b, _) | InstV::SwitchToBlock(b) | InstV::SealBlock(b) => seq![b],
        _ => Seq::empty(),
    }
}

/// The instruction at `k` of `w` uses only values made by earlier
/// instructions, and names only blocks that earlier instructions created.
pub open spec fn refs_ok(w: Seq<InstV>, k: int) -> bool {
    &&& forall|j: int| 0 <= j < value_refs(w[k]).len() ==> 0 <= #[trigger] value_refs(w[k])[j] < k
        && makes_value(w[value_refs(w[k])[j]])
    &&& forall|j: int| 0 <= j < block_refs(w[k]).len() ==> 0 <= #[trigger] block_refs(w[k])[j] < k
        && w[block_refs(w[k])[j]] == InstV::CreateBlock
}

/// `o` stands in `w` at position `at`.
pub open spec fn placed(w: Seq<InstV>, at: int, o: Seq<InstV>) -> bool {
    0 <= at && at + o.len() <= w.len() && w.subrange(at, at + o.len()) == o
}

proof fn lemma_place(w: Seq<InstV>, at: int, o: Seq<InstV>, off: int, piece: Seq<InstV>)
    requires
        placed(w, at, o),
        0 <= off,
        off + piece.len() <= o.len(),
        o.subrange(off, off + piece.len()) == piece,
    ensures
        placed(w, at + off, piece),
{
    assert forall|k: int| 0 <= k < piece.len() implies w[at + off + k] == piece[k] by {
        assert(w.subrange(at, at + o.len())[off + k] == w[at + off + k]);
        assert(o.subrange(off, off + piece.len())[k] == o[off + k]);
    }
    assert(w.subrange(at + off, at + off + piece.len()) =~= piece);
}

proof fn lemma_get(w: Seq<InstV>, at: int, o: Seq<InstV>, k: int)
    requires
        placed(w, at, o),
        0 <= k < o.len(),
    ensures
        w[at + k] == o[k],
{
    assert(w.subrange(at, at + o.len())[k] == w[at + k]);
}

/// The lowering of an expression uses only values and blocks made before
/// each use, and its result is a value made by then.
pub proof fn lemma_lower_refs(e: Expr, tab: Seq<Seq<char>>, at: int, w: Seq<InstV>)
    requires
        placed(w, at, lower(e, tab, at).0),
    ensures
        forall|k: int| at <= k < at + lower(e, tab, at).0.len() ==> #[trigger] refs_ok(w, k),
        0 <= lower(e, tab, at).1 < at + lower(e, tab, at).0.len(),
        makes_value(w[lower(e, tab, at).1]),
    decreases e, 1int,
{
    let o = lower(e, tab, at).0;
    match e {
        Expr::Literal(_) | Expr::Identifier(_) | Expr::GlobalDataAddr(_) => {
            lemma_get(w, at, o, 0);
        },
        Expr::Assign(_, rhs) => {
            let (or, v) = lower(*rhs, tab, at);
            assert(o.subrange(0, or.len() as int) =~= or);
            lemma_place(w, at, o, 0, or);
            lemma_lower_refs(*rhs, tab, at, w);
            lemma_get(w, at, o, or.len() as int);
        },
        Expr::Eq(a, b) | Expr::Ne(a, b) | Expr::Lt(a, b) | Expr::Le(a, b) | Expr::Gt(a, b)
        | Expr::Ge(a, b) | Expr::Add(a, b) | Expr::Sub(a, b) | Expr::Mul(a, b) | Expr::Div(
            a,
            b,
        ) => {
            let (oa, va) = lower(*a, tab, at);
            let (ob, vb) = lower(*b, tab, at + oa.len());
            assert(o.subrange(0, oa.len() as int) =~= oa);
            assert(o.subrange(oa.len() as int, (oa.len() + ob.len()) as int) =~= ob);
            lemma_place(w, at, o, 0, oa);
            lemma_place(w, at, o, oa.len() as int, ob);
            lemma_lower_refs(*a, tab, at, w);
            lemma_lower_refs(*b, tab, at + oa.len(), w);
            lemma_get(w, at, o, (oa.len() + ob.len()) as int);
            assert(value_refs(o[(oa.len() + ob.len()) as int]) == seq![va, vb]);
            assert forall|k: int| at <= k < at + o.len() implies #[trigger] refs_ok(w, k) by {
                if k == at + oa.len() + ob.len() {
                    assert(value_refs(w[k]) == seq![va, vb]);
                }
            }
        },
        Expr::IfElse(..) => lemma_if_refs(e, tab, at, w),
        Expr::WhileLoop(..) => lemma_while_refs(e, tab, at, w),
        Expr::Call(_, args) => {
            let (oa, vs) = lower_args(args@, tab, at);
            assert(o.subrange(0, oa.len() as int) =~= oa);
            lemma_place(w, at, o, 0, oa);
            lemma_args_refs(args@, tab, at, w);
            lemma_get(w, at, o, oa.len() as int);
            assert forall|k: int| at <= k < at + o.len() implies #[trigger] refs_ok(w, k) by {
                if k == at + oa.len() {
                    assert(value_refs(w[k]) == vs);
                }
            }
        },
    }
}

/// The statements' lowering uses only earlier values and blocks, given
/// that `init` is an earlier value; so is its result.
pub proof fn lemma_stmts_refs(s: Seq<Expr>, tab: Seq<Seq<char>>, at: int, init: int, w: Seq<InstV>)
    requires
        placed(w, at, lower_stmts(s, tab, at, init).0),
        0 <= init < at,
        makes_value(w[init]),
    ensures
        forall|k: int| at <= k < at + lower_stmts(s, tab, at, init).0.len() ==> #[trigger] refs_ok(w, k),
        0 <= lower_stmts(s, tab, at, init).1 < at + lower_stmts(s, tab, at, init).0.len(),
        makes_value(w[lower_stmts(s, tab, at, init).1]),
    decreases s, 0int,
{
    if s.len() > 0 {
        let o = lower_stmts(s, tab, at, init).0;
        let (o1, _) = lower_stmts(s.drop_last(), tab, at, init);
        let (o2, _) = lower(s.last(), tab, at + o1.len());
        assert(o.subrange(0, o1.len() as int) =~= o1);
        assert(o.subrange(o1.len() as int, o.len() as int) =~= o2);
        lemma_place(w, at, o, 0, o1);
        lemma_place(w, at, o, o1.len() as int, o2);
        lemma_stmts_refs(s.drop_last(), tab, at, init, w);
        lemma_lower_refs(s.last(), tab, at + o1.len(), w);
    }
}

/// The arguments' lowering uses only earlier values and blocks, and each
/// argument value is made before the call.
pub proof fn lemma_args_refs(s: Seq<Expr>, tab: Seq<Seq<char>>, at: int, w: Seq<InstV>)
    requires
        placed(w, at, lower_args(s, tab, at).0),
    ensures
        forall|k: int| at <= k < at + lower_args(s, tab, at).0.len() ==> #[trigger] refs_ok(w, k),
        forall|j: int| 0 <= j < lower_args(s, tab, at).1.len() ==> 0 <= #[trigger] lower_args(s, tab, at).1[j]
            < at + lower_args(s, tab, at).0.len() && makes_value(w[lower_args(s, tab, at).1[j]]),
    decreases s, 0int,
{
    if s.len() > 0 {
        let o = lower_args(s, tab, at).0;
        let (o1, vs1) = lower_args(s.drop_last(), tab, at);
        let (o2, v) = lower(s.last(), tab, at + o1.len());
        assert(o.subrange(0, o1.len() as int) =~= o1);
        assert(o.subrange(o1.len() as int, o.len() as int) =~= o2);
        lemma_place(w, at, o, 0, o1);
        lemma_place(w, at, o, o1.len() as int, o2);
        lemma_args_refs(s.drop_last(), tab, at, w);
        lemma_lower_refs(s.last(), tab, at + o1.len(), w);
        let vs = lower_args(s, tab, at).1;
        assert forall|j: int| 0 <= j < vs.len() implies 0 <= #[trigger] vs[j] < at + o.len()
            && makes_value(w[vs[j]]) by {
            if j < vs1.len() {
                assert(vs[j] == vs1[j]);
            }
        }
    }
}

proof fn lemma_if_refs(e: Expr, tab: Seq<Seq<char>>, at: int, w: Seq<InstV>)
    requires
        e is IfElse,
        placed(w, at, lower(e, tab, at).0),
    ensures
        forall|k: int| at <= k < at + lower(e, tab, at).0.len() ==> #[trigger] refs_ok(w, k),
        0 <= lower(e, tab, at).1 < at + lower(e, tab, at).0.len(),
        makes_value(w[lower(e, tab, at).1]),
    decreases e, 0int,
{
    let c = *e->IfElse_0;
    let ts = e->IfElse_1@;
    let fs = e->IfElse_2@;
    let o = lower(e, tab, at).0;
    let (oc, vc) = lower(c, tab, at);
    let p = at + oc.len();
    let (ot, vt) = lower_stmts(ts, tab, p + 9, p + 8);
    let q = p + 9 + ot.len();
    let (of, vf) = lower_stmts(fs, tab, q + 4, q + 3);
    let r = q + 4 + of.len();
    assert(o.subrange(0, oc.len() as int) =~= oc);
    assert(o.subrange(p + 9 - at, q - at) =~= ot);
    assert(o.subrange(q + 4 - at, r - at) =~= of);
    lemma_place(w, at, o, 0, oc);
    lemma_place(w, at, o, p + 9 - at, ot);
    lemma_place(w, at, o, q + 4 - at, of);
    lemma_get(w, at, o, p + 0 - at);
    lemma_get(w, at, o, p + 1 - at);
    lemma_get(w, at, o, p + 2 - at);
    lemma_get(w, at, o, p + 3 - at);
    lemma_get(w, at, o, p + 4 - at);
    lemma_get(w, at, o, p + 5 - at);
    lemma_get(w, at, o, p + 6 - at);
    lemma_get(w, at, o, p + 7 - at);
    lemma_get(w, at, o, p + 8 - at);
    lemma_get(w, at, o, q + 0 - at);
    lemma_get(w, at, o, q + 1 - at);
    lemma_get(w, at, o, q + 2 - at);
    lemma_get(w, at, o, q + 3 - at);
    lemma_get(w, at, o, r + 0 - at);
    lemma_get(w, at, o, r + 1 - at);
    lemma_get(w, at, o, r + 2 - at);
    lemma_lower_refs(c, tab, at, w);
    lemma_stmts_refs(ts, tab, p + 9, p + 8, w);
    lemma_stmts_refs(fs, tab, q + 4, q + 3, w);
}

proof fn lemma_while_refs(e: Expr, tab: Seq<Seq<char>>, at: int, w: Seq<InstV>)
    requires
        e is WhileLoop,
        placed(w, at, lower(e, tab, at).0),
    ensures
        forall|k: int| at <= k < at + lower(e, tab, at).0.len() ==> #[trigger] refs_ok(w, k),
        0 <= lower(e, tab, at).1 < at + lower(e, tab, at).0.len(),
        makes_value(w[lower(e, tab, at).1]),
    decreases e, 0int,
{
    let c = *e->WhileLoop_0;
    let bs = e->WhileLoop_1@;
    let o = lower(e, tab, at).0;
    let (oc, vc) = lower(c, tab, at + 5);
    let p = at + 5 + oc.len();
    let (ob, vb) = lower_stmts(bs, tab, p + 4, vc);
    let q = p + 4 + ob.len();
    assert(o.subrange(5, p - at) =~= oc);
    assert(o.subrange(p + 4 - at, q - at) =~= ob);
    lemma_place(w, at, o, 5, oc);
    lemma_place(w, at, o, p + 4 - at, ob);
    lemma_get(w, at, o, 0);
    lemma_get(w, at, o, 1);
    lemma_get(w, at, o, 2);
    lemma_get(w, at, o, 3);
    lemma_get(w, at, o, 4);
    lemma_get(w, at, o, p + 0 - at);
    lemma_get(w, at, o, p + 1 - at);
    lemma_get(w, at, o, p + 2 - at);
    lemma_get(w, at, o, p + 3 - at);
    lemma_get(w, at, o, q + 0 - at);
    lemma_get(w, at, o, q + 1 - at);
    lemma_get(w, at, o, q + 2 - at);
    lemma_get(w, at, o, q + 3 - at);
    lemma_get(w, at, o, q + 4 - at);
    lemma_lower_refs(c, tab, at + 5, w);
    lemma_stmts_refs(bs, tab, p + 4, vc, w);
}

proof fn lemma_bind_shape(tab: Seq<Seq<char>>, ps: Seq<Seq<char>>, at: int)
    ensures
        bind_params(tab, ps, at).len() == 2 * ps.len(),
        forall|j: int| 0 <= j < bind_params(tab, ps, at).len() ==> (j % 2 == 0 ==> #[trigger] bind_params(
            tab,
            ps,
            at,
        )[j] is EntryParam) && (j % 2 == 1 ==> bind_params(tab, ps, at)[j] is DefVar
            && bind_params(tab, ps, at)[j]->DefVar_1 == at + j - 1),
    decreases ps.len(),
{
    if ps.len() > 0 {
        lemma_bind_shape(tab, ps.drop_last(), at);
        let o = bind_params(tab, ps.drop_last(), at);
        let b = bind_params(tab, ps, at);
        assert forall|j: int| 0 <= j < b.len() implies (j % 2 == 0 ==> #[trigger] b[j] is EntryParam)
            && (j % 2 == 1 ==> b[j] is DefVar && b[j]->DefVar_1 == at + j - 1) by {
            if j < o.len() {
                assert(b[j] == o[j]);
            }
        }
    }
}

/// The instructions of a whole function use only values made, and name
/// only blocks created, by earlier instructions: replaying them in order
/// never meets an unknown value or block.
pub proof fn lemma_function_refs(tab: Seq<Seq<char>>, ps: Seq<Seq<char>>, ret: Seq<char>, body: Seq<Expr>)
    ensures
        forall|k: int| 0 <= k < lower_function(tab, ps, ret, body).len() ==> #[trigger] refs_ok(
            lower_function(tab, ps, ret, body),
            k,
        ),
{
    let w = lower_function(tab, ps, ret, body);
    let entry = seq![
        InstV::CreateBlock,
        InstV::AppendEntryParams(0),
        InstV::SwitchToBlock(0),
        InstV::SealBlock(0),
    ] + declares(tab.len() as int);
    let bind = bind_params(tab, ps, entry.len() as int);
    let zero = (entry.len() + bind.len()) as int;
    let init = seq![InstV::Iconst(0), InstV::DefVar(slot(tab, ret), zero)];
    let ob = lower_stmts(body, tab, zero + 2, zero).0;
    let exit = seq![InstV::UseVar(slot(tab, ret)), InstV::Return(zero + 2 + ob.len() as int)];
    assert(w =~= entry + bind + init + ob + exit);
    assert(w.subrange(zero + 2, zero + 2 + ob.len()) =~= ob);
    assert(w.subrange(0, w.len() as int) =~= w);
    lemma_place(w, 0, w, zero + 2, ob);
    lemma_bind_shape(tab, ps, entry.len() as int);
    assert(w[zero] == InstV::Iconst(0));
    lemma_stmts_refs(body, tab, zero + 2, zero, w);
    let r = lower_stmts(body, tab, zero + 2, zero).1;
    assert forall|k: int| 0 <= k < w.len() implies #[trigger] refs_ok(w, k) by {
        if k < entry.len() {
            if k >= 4 {
                assert(w[k] == declares(tab.len() as int)[k - 4]);
            }
        } else if k < zero {
            let j = k - entry.len();
            assert(w[k] == bind[j]);
            if j % 2 == 1 {
                assert(w[k - 1] == bind[j - 1]);
                assert(bind[j - 1] is EntryParam);
            }
        }
    }
}

} // verus!
