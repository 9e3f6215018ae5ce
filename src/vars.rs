use vstd::prelude::*;
use crate::ast::{Expr, names_of};

verus! {

/// The names assigned anywhere in an expression, in the order of a
/// left-to-right walk that visits an assignment's target before its
/// right-hand side.
pub open spec fn targets(e: Expr) -> Seq<Seq<char>>
    decreases e,
{
    match e {
        Expr::Literal(_) | Expr::Identifier(_) | Expr::GlobalDataAddr(_) => Seq::empty(),
        Expr::Assign(n, r) => seq![n@] + targets(*r),
        Expr::Eq(a, b) | Expr::Ne(a, b) | Expr::Lt(a, b) | Expr::Le(a, b) | Expr::Gt(a, b)
        | Expr::Ge(a, b) | Expr::Add(a, b) | Expr::Sub(a, b) | Expr::Mul(a, b) | Expr::Div(
            a,
            b,
        ) => targets(*a) + targets(*b),
        Expr::IfElse(c, t, f) => targets(*c) + targets_all(t@) + targets_all(f@),
        Expr::WhileLoop(c, b) => targets(*c) + targets_all(b@),
        Expr::Call(_, args) => targets_all(args@),
    }
}

/// The names assigned in a sequence of expressions, in order.
pub open spec fn targets_all(s: Seq<Expr>) -> Seq<Seq<char>>
    decreases s,
{
    if s.len() == 0 {
        Seq::empty()
    } else {
        targets_all(s.drop_last()) + targets(s.last())
    }
}

/// A table with `n` registered: unchanged if `n` is there already, else `n`
/// takes the next slot.
pub open spec fn add_name(tab: Seq<Seq<char>>, n: Seq<char>) -> Seq<Seq<char>> {
    if tab.contains(n) {
        tab
    } else {
        tab.push(n)
    }
}

/// A table with each of `ns` registered in turn.
pub open spec fn add_names(tab: Seq<Seq<char>>, ns: Seq<Seq<char>>) -> Seq<Seq<char>>
    decreases ns.len(),
{
    if ns.len() == 0 {
        tab
    } else {
        add_name(add_names(tab, ns.drop_last()), ns.last())
    }
}

/// The variable table of a function: its parameters, its return variable,
/// then every assigned name, each name once, at its first occurrence.
pub open spec fn table_of(params: Seq<Seq<char>>, ret: Seq<char>, body: Seq<Expr>) -> Seq<
    Seq<char>,
> {
    add_names(Seq::empty(), params + seq![ret] + targets_all(body))
}

/// A table never holds a name twice.
pub open spec fn distinct(tab: Seq<Seq<char>>) -> bool {
    forall|i: int, j: int| 0 <= i < j < tab.len() ==> tab[i] != tab[j]
}

/// Registering names in two runs is registering them in one.
pub proof fn lemma_add_names_add(tab: Seq<Seq<char>>, a: Seq<Seq<char>>, b: Seq<Seq<char>>)
    ensures
        add_names(tab, a + b) == add_names(add_names(tab, a), b),
    decreases b.len(),
{
    if b.len() == 0 {
        assert(a + b =~= a);
    } else {
        assert((a + b).drop_last() =~= a + b.drop_last());
        lemma_add_names_add(tab, a, b.drop_last());
    }
}

/// Registering names keeps a table free of repeats, keeps what it held, and
/// holds each registered name.
pub proof fn lemma_add_names_props(tab: Seq<Seq<char>>, ns: Seq<Seq<char>>)
    requires
        distinct(tab),
    ensures
        distinct(add_names(tab, ns)),
        tab.len() <= add_names(tab, ns).len(),
        add_names(tab, ns).subrange(0, tab.len() as int) == tab,
        forall|i: int| 0 <= i < ns.len() ==> add_names(tab, ns).contains(#[trigger] ns[i]),
        forall|n: Seq<char>| add_names(tab, ns).contains(n) ==> tab.contains(n) || ns.contains(n),
    decreases ns.len(),
{
    if ns.len() > 0 {
        let d = add_names(tab, ns.drop_last());
        lemma_add_names_props(tab, ns.drop_last());
        let r = add_name(d, ns.last());
        if !d.contains(ns.last()) {
            assert(r.subrange(0, tab.len() as int) =~= d.subrange(0, tab.len() as int));
            assert forall|n: Seq<char>| r.contains(n) implies tab.contains(n) || ns.contains(n) by {
                if n != ns.last() {
                    let k = choose|k: int| 0 <= k < r.len() && r[k] == n;
                    assert(d[k] == n);
                    if !tab.contains(n) {
                        let m = choose|m: int| 0 <= m < ns.drop_last().len() && ns.drop_last()[m]
                            == n;
                        assert(ns[m] == n);
                    }
                } else {
                    assert(ns[ns.len() - 1] == n);
                }
            }
        } else {
            assert forall|n: Seq<char>| r.contains(n) implies tab.contains(n) || ns.contains(n) by {
                if !tab.contains(n) {
                    let m = choose|m: int| 0 <= m < ns.drop_last().len() && ns.drop_last()[m] == n;
                    assert(ns[m] == n);
                }
            }
        }
        assert forall|i: int| 0 <= i < ns.len() implies r.contains(#[trigger] ns[i]) by {
            if i < ns.len() - 1 {
                assert(ns.drop_last()[i] == ns[i]);
                assert(d.contains(ns[i]));
                let k = choose|k: int| 0 <= k < d.len() && d[k] == ns[i];
                assert(r[k] == ns[i]);
            } else if !d.contains(ns.last()) {
                assert(r[r.len() - 1] == ns[i]);
            }
        }
    }
}

/// A variable table: slot `i` belongs to the `i`-th name.
pub struct Variables {
    names: Vec<String>,
}

impl View for Variables {
    type V = Seq<Seq<char>>;

    closed spec fn view(&self) -> Seq<Seq<char>> {
        self.names@.map_values(|s: String| s@)
    }
}

impl Variables {
    pub fn new() -> (r: Variables)
        ensures
            r@ == Seq::<Seq<char>>::empty(),
    {
        let r = Variables { names: Vec::new() };
        assert(r@ =~= Seq::<Seq<char>>::empty());
        r
    }

    /// The number of slots.
    pub fn len(&self) -> (r: usize)
        ensures
            r == self@.len(),
    {
        self.names.len()
    }

    /// The slot of `name`, if it has one.
    pub fn slot_of(&self, name: &String) -> (r: Option<usize>)
        ensures
            r matches Some(i) ==> i < self@.len() && self@[i as int] == name@,
            r is None ==> !self@.contains(name@),
    {
        let mut i: usize = 0;
        while i < self.names.len()
            invariant
                i <= self.names@.len(),
                forall|k: int| 0 <= k < i ==> self@[k] != name@,
            decreases self.names@.len() - i,
        {
            if self.names[i] == *name {
                return Some(i);
            }
            i = i + 1;
        }
        None
    }

    /// Registers `name`, which keeps its slot if it has one and else takes the
    /// next; returns the slot.
    pub fn declare_variable(&mut self, name: &String) -> (r: usize)
        ensures
            final(self)@ == add_name(old(self)@, name@),
            r < final(self)@.len(),
            final(self)@[r as int] == name@,
    {
        match self.slot_of(name) {
            Some(i) => i,
            None => {
                let ghost before = self@;
                self.names.push(name.clone());
                assert(self@ =~= before.push(name@));
                self.names.len() - 1
            },
        }
    }

    /// Registers every name assigned in `e`.
    pub fn declare_in_expr(&mut self, e: &Expr)
        ensures
            final(self)@ == add_names(old(self)@, targets(*e)),
        decreases e,
    {
        let ghost start = self@;
        match e {
            Expr::Assign(n, r) => {
                self.declare_variable(n);
                self.declare_in_expr(r);
                proof {
                    assert(seq![n@].drop_last() =~= Seq::<Seq<char>>::empty());
                    assert(add_names(start, Seq::<Seq<char>>::empty()) == start);
                    assert(add_names(start, seq![n@]) == add_name(start, n@));
                    lemma_add_names_add(start, seq![n@], targets(**r));
                }
            },
            Expr::Eq(a, b) | Expr::Ne(a, b) | Expr::Lt(a, b) | Expr::Le(a, b) | Expr::Gt(a, b)
            | Expr::Ge(a, b) | Expr::Add(a, b) | Expr::Sub(a, b) | Expr::Mul(a, b) | Expr::Div(
                a,
                b,
            ) => {
                self.declare_in_expr(a);
                self.declare_in_expr(b);
                proof {
                    lemma_add_names_add(start, targets(**a), targets(**b));
                }
            },
            Expr::IfElse(c, t, f) => {
                self.declare_in_expr(c);
                self.declare_in_stmts(t);
                self.declare_in_stmts(f);
                proof {
                    lemma_add_names_add(start, targets(**c), targets_all(t@));
                    lemma_add_names_add(start, targets(**c) + targets_all(t@), targets_all(f@));
                }
            },
            Expr::WhileLoop(c, b) => {
                self.declare_in_expr(c);
                self.declare_in_stmts(b);
                proof {
                    lemma_add_names_add(start, targets(**c), targets_all(b@));
                }
            },
            Expr::Call(_, args) => {
                self.declare_in_stmts(args);
            },
            _ => {
                assert(targets(*e) =~= Seq::<Seq<char>>::empty());
                assert(add_names(start, targets(*e)) == start);
            },
        }
    }

    /// Registers every name assigned in `s`, in order.
    pub fn declare_in_stmts(&mut self, s: &Vec<Expr>)
        ensures
            final(self)@ == add_names(old(self)@, targets_all(s@)),
        decreases s@,
    {
        let ghost start = self@;
        let mut i: usize = 0;
        while i < s.len()
            invariant
                i <= s@.len(),
                self@ == add_names(start, targets_all(s@.subrange(0, i as int))),
            decreases s@.len() - i,
        {
            self.declare_in_expr(&s[i]);
            proof {
                assert(s@.subrange(0, i + 1).drop_last() =~= s@.subrange(0, i as int));
                lemma_add_names_add(start, targets_all(s@.subrange(0, i as int)), targets(s@[i as int]));
            }
            i = i + 1;
        }
        assert(s@.subrange(0, i as int) =~= s@);
    }
}

/// Builds the variable table of a function: one slot per parameter in
/// order, one for the return variable, then one for every name assigned
/// anywhere in the body, in order of first occurrence.
pub fn declare_variables(params: &Vec<String>, the_return: &String, stmts: &Vec<Expr>) -> (r:
    Variables)
    ensures
        r@ == table_of(names_of(params@), the_return@, stmts@),
        distinct(r@),
        forall|i: int| 0 <= i < params@.len() ==> r@.contains(#[trigger] params@[i]@),
        r@.contains(the_return@),
{
    let ghost ps = names_of(params@);
    let mut vars = Variables::new();
    let mut i: usize = 0;
    while i < params.len()
        invariant
            i <= params@.len(),
            ps == names_of(params@),
            vars@ == add_names(Seq::empty(), ps.subrange(0, i as int)),
        decreases params@.len() - i,
    {
        vars.declare_variable(&params[i]);
        assert(ps.subrange(0, i + 1).drop_last() =~= ps.subrange(0, i as int));
        i = i + 1;
    }
    assert(ps.subrange(0, i as int) =~= ps);
    vars.declare_variable(the_return);
    assert(seq![the_return@].drop_last() =~= Seq::<Seq<char>>::empty());
    proof {
        let before = add_names(Seq::empty(), ps);
        assert(add_names(before, seq![the_return@]) == add_name(
            add_names(before, Seq::empty()),
            the_return@,
        ));
        assert(add_names(before, Seq::empty()) == before);
        lemma_add_names_add(Seq::empty(), ps, seq![the_return@]);
    }
    vars.declare_in_stmts(stmts);
    proof {
        lemma_add_names_add(Seq::empty(), ps + seq![the_return@], targets_all(stmts@));
        let all = ps + seq![the_return@] + targets_all(stmts@);
        lemma_add_names_props(Seq::empty(), all);
        assert forall|i: int| 0 <= i < params@.len() implies vars@.contains(
            #[trigger] params@[i]@,
        ) by {
            assert(all[i] == ps[i]);
        }
        assert(all[ps.len() as int] == the_return@);
    }
    vars
}

} // verus!
