use vstd::prelude::*;
use crate::ast::Expr;

verus! {

/// A call in a function body: the callee's name and the number of
/// arguments.
#[derive(Clone)]
pub struct CallSite {
    pub name: String,
    pub arity: usize,
}

impl View for CallSite {
    type V = (Seq<char>, int);

    open spec fn view(&self) -> (Seq<char>, int) {
        (self.name@, self.arity as int)
    }
}

pub open spec fn sites_of(v: Seq<CallSite>) -> Seq<(Seq<char>, int)> {
    v.map_values(|c: CallSite| c@)
}

/// The calls in an expression, in the order in which they are lowered: a
/// call comes before the calls in its arguments.
pub open spec fn calls(e: Expr) -> Seq<(Seq<char>, int)>
    decreases e,
{
    match e {
        Expr::Literal(_) | Expr::Identifier(_) | Expr::GlobalDataAddr(_) => Seq::empty(),
        Expr::Assign(_, r) => calls(*r),
        Expr::Eq(a, b) | Expr::Ne(a, b) | Expr::Lt(a, b) | Expr::Le(a, b) | Expr::Gt(a, b)
        | Expr::Ge(a, b) | Expr::Add(a, b) | Expr::Sub(a, b) | Expr::Mul(a, b) | Expr::Div(
            a,
            b,
        ) => calls(*a) + calls(*b),
        Expr::IfElse(c, t, f) => calls(*c) + calls_all(t@) + calls_all(f@),
        Expr::WhileLoop(c, b) => calls(*c) + calls_all(b@),
        Expr::Call(n, args) => seq![(n@, args.len() as int)] + calls_all(args@),
    }
}

pub open spec fn calls_all(s: Seq<Expr>) -> Seq<(Seq<char>, int)>
    decreases s,
{
    if s.len() == 0 {
        Seq::empty()
    } else {
        calls_all(s.drop_last()) + calls(s.last())
    }
}

/// Appends the calls in `e`.
pub fn collect_calls(e: &Expr, out: &mut Vec<CallSite>)
    ensures
        sites_of(final(out)@) == sites_of(old(out)@) + calls(*e),
    decreases e,
{
    let ghost start = sites_of(out@);
    match e {
        Expr::Assign(_, r) => {
            collect_calls(r, out);
        },
        Expr::Eq(a, b) | Expr::Ne(a, b) | Expr::Lt(a, b) | Expr::Le(a, b) | Expr::Gt(a, b)
        | Expr::Ge(a, b) | Expr::Add(a, b) | Expr::Sub(a, b) | Expr::Mul(a, b) | Expr::Div(
            a,
            b,
        ) => {
            collect_calls(a, out);
            collect_calls(b, out);
            assert(sites_of(out@) =~= start + calls(*e));
        },
        Expr::IfElse(c, t, f) => {
            collect_calls(c, out);
            collect_calls_all(t, out);
            collect_calls_all(f, out);
            assert(sites_of(out@) =~= start + calls(*e));
        },
        Expr::WhileLoop(c, b) => {
            collect_calls(c, out);
            collect_calls_all(b, out);
            assert(sites_of(out@) =~= start + calls(*e));
        },
        Expr::Call(n, args) => {
            out.push(CallSite { name: n.clone(), arity: args.len() });
            collect_calls_all(args, out);
            assert(sites_of(out@) =~= start + calls(*e));
        },
        _ => {
            assert(sites_of(out@) =~= start + calls(*e));
        },
    }
}

/// Appends the calls in each of `s`, in order.
pub fn collect_calls_all(s: &Vec<Expr>, out: &mut Vec<CallSite>)
    ensures
        sites_of(final(out)@) == sites_of(old(out)@) + calls_all(s@),
    decreases s@,
{
    let ghost start = sites_of(out@);
    let mut i: usize = 0;
    assert(sites_of(out@) =~= start + calls_all(s@.subrange(0, 0)));
    while i < s.len()
        invariant
            i <= s@.len(),
            sites_of(out@) == start + calls_all(s@.subrange(0, i as int)),
        decreases s@.len() - i,
    {
        collect_calls(&s[i], out);
        assert(s@.subrange(0, i + 1).drop_last() =~= s@.subrange(0, i as int));
        assert(sites_of(out@) =~= start + calls_all(s@.subrange(0, i + 1)));
        i = i + 1;
    }
    assert(s@.subrange(0, i as int) =~= s@);
}

/// The arity under which `n` was declared last, if it was.
pub open spec fn arity_of(decls: Seq<(Seq<char>, int)>, n: Seq<char>) -> Option<int>
    decreases decls.len(),
{
    if decls.len() == 0 {
        None
    } else if decls.last().0 == n {
        Some(decls.last().1)
    } else {
        arity_of(decls.drop_last(), n)
    }
}

/// Declarations after each call site in turn declares its callee: a name
/// keeps the arity of its first declaration, and a call that disagrees with
/// it is an error naming the callee.
pub open spec fn settle(decls: Seq<(Seq<char>, int)>, sites: Seq<(Seq<char>, int)>) -> Result<
    Seq<(Seq<char>, int)>,
    Seq<char>,
>
    decreases sites.len(),
{
    if sites.len() == 0 {
        Ok(decls)
    } else {
        match settle(decls, sites.drop_last()) {
            Err(n) => Err(n),
            Ok(d) => {
                let (n, k) = sites.last();
                match arity_of(d, n) {
                    Some(a) => if a == k {
                        Ok(d)
                    } else {
                        Err(n)
                    },
                    None => Ok(d.push((n, k))),
                }
            },
        }
    }
}

/// Looks up the arity under which `n` was declared last.
pub fn find_arity(decls: &Vec<CallSite>, n: &String) -> (r: Option<usize>)
    ensures
        r matches Some(a) ==> arity_of(sites_of(decls@), n@) == Some(a as int),
        r is None ==> arity_of(sites_of(decls@), n@) is None,
{
    let mut i = decls.len();
    assert(sites_of(decls@).subrange(0, i as int) =~= sites_of(decls@));
    while i > 0
        invariant
            i <= decls@.len(),
            arity_of(sites_of(decls@), n@) == arity_of(sites_of(decls@).subrange(0, i as int), n@),
        decreases i,
    {
        let ghost pre = sites_of(decls@).subrange(0, i as int);
        assert(pre.drop_last() =~= sites_of(decls@).subrange(0, i - 1));
        if decls[i - 1].name == *n {
            return Some(decls[i - 1].arity);
        }
        i = i - 1;
    }
    None
}

/// Declares the callee of each call site in turn, as `settle` says; on a
/// disagreement returns the callee's name and leaves `decls` as it was.
pub fn settle_calls(decls: &mut Vec<CallSite>, sites: &Vec<CallSite>) -> (r: Result<(), String>)
    ensures
        r is Ok <==> settle(sites_of(old(decls)@), sites_of(sites@)) is Ok,
        r is Ok ==> settle(sites_of(old(decls)@), sites_of(sites@)) == Ok::<
            Seq<(Seq<char>, int)>,
            Seq<char>,
        >(sites_of(final(decls)@)),
        r matches Err(n) ==> settle(sites_of(old(decls)@), sites_of(sites@)) == Err::<
            Seq<(Seq<char>, int)>,
            Seq<char>,
        >(n@),
        r is Err ==> final(decls)@ == old(decls)@,
{
    let ghost start = sites_of(decls@);
    let ghost orig = decls@;
    let mut d: Vec<CallSite> = Vec::new();
    let mut k: usize = 0;
    while k < decls.len()
        invariant
            k <= decls@.len(),
            decls@ == orig,
            sites_of(d@) == sites_of(decls@).subrange(0, k as int),
        decreases decls@.len() - k,
    {
        let ghost before = d@;
        let c = CallSite { name: decls[k].name.clone(), arity: decls[k].arity };
        assert(c@ == decls@[k as int]@);
        d.push(c);
        assert(sites_of(d@) =~= sites_of(before).push(decls@[k as int]@));
        assert(sites_of(decls@).subrange(0, k + 1) =~= sites_of(decls@).subrange(0, k as int).push(
            decls@[k as int]@,
        ));
        k = k + 1;
    }
    assert(sites_of(d@) =~= start);
    let ghost ss = sites_of(sites@);
    let mut i: usize = 0;
    while i < sites.len()
        invariant
            i <= sites@.len(),
            ss == sites_of(sites@),
            decls@ == orig,
            start == sites_of(orig),
            settle(start, ss.subrange(0, i as int)) == Ok::<Seq<(Seq<char>, int)>, Seq<char>>(
                sites_of(d@),
            ),
        decreases sites@.len() - i,
    {
        assert(ss.subrange(0, i + 1).drop_last() =~= ss.subrange(0, i as int));
        let s = &sites[i];
        match find_arity(&d, &s.name) {
            Some(a) => {
                if a != s.arity {
                    proof {
                        lemma_settle_err_stays(start, ss, i as int + 1);
                    }
                    return Err(s.name.clone());
                }
            },
            None => {
                let ghost before = d@;
                d.push(CallSite { name: s.name.clone(), arity: s.arity });
                assert(sites_of(d@) =~= sites_of(before).push(ss[i as int]));
            },
        }
        i = i + 1;
    }
    assert(ss.subrange(0, i as int) =~= ss);
    *decls = d;
    Ok(())
}

/// Once settling a prefix of the sites fails, settling all of them fails
/// with the same name.
proof fn lemma_settle_err_stays(decls: Seq<(Seq<char>, int)>, sites: Seq<(Seq<char>, int)>, i: int)
    requires
        0 <= i <= sites.len(),
        settle(decls, sites.subrange(0, i)) is Err,
    ensures
        settle(decls, sites) == settle(decls, sites.subrange(0, i)),
    decreases sites.len() - i,
{
    if i == sites.len() {
        assert(sites.subrange(0, i) =~= sites);
    } else {
        assert(sites.subrange(0, i + 1).drop_last() =~= sites.subrange(0, i));
        lemma_settle_err_stays(decls, sites, i + 1);
    }
}

} // verus!
