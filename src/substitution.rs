use vstd::prelude::*;

use crate::term::{lemma_views_of, views_of, Function, Normalizable, Term, TermView};

verus! {

broadcast use lemma_views_of;

/// Whether `s` occurs in `t`, at its root or anywhere below.
pub open spec fn occurs(s: TermView, t: TermView) -> bool
    decreases t,
{
    s == t || match t {
        TermView::Atomic(_) => false,
        TermView::Applied(_, args) => occurs_in_seq(s, args),
        TermView::Expandable(_, args) => occurs_in_seq(s, args),
    }
}

/// Whether `s` occurs in one of the terms of `args`.
pub open spec fn occurs_in_seq(s: TermView, args: Seq<TermView>) -> bool
    decreases args,
{
    args.len() > 0 && (occurs(s, args[0]) || occurs_in_seq(s, args.subrange(1, args.len() as int)))
}

/// Whether `s` occurs strictly below the root of `t`.
pub open spec fn occurs_below(s: TermView, t: TermView) -> bool {
    match t {
        TermView::Atomic(_) => false,
        TermView::Applied(_, args) => occurs_in_seq(s, args),
        TermView::Expandable(_, args) => occurs_in_seq(s, args),
    }
}

/// `t` with every occurrence of `from` replaced by `to`.
pub open spec fn subst(t: TermView, from: TermView, to: TermView) -> TermView
    decreases t,
{
    if t == from {
        to
    } else {
        match t {
            TermView::Atomic(_) => t,
            TermView::Applied(f, args) => TermView::Applied(f, subst_seq(args, from, to)),
            TermView::Expandable(f, args) => TermView::Expandable(f, subst_seq(args, from, to)),
        }
    }
}

/// `subst` applied to each term of `args`.
pub open spec fn subst_seq(args: Seq<TermView>, from: TermView, to: TermView) -> Seq<TermView>
    decreases args,
{
    if args.len() == 0 {
        args
    } else {
        seq![subst(args[0], from, to)] + subst_seq(args.subrange(1, args.len() as int), from, to)
    }
}

/// `subst_seq` works position by position.
pub broadcast proof fn lemma_subst_seq(args: Seq<TermView>, from: TermView, to: TermView)
    ensures
        #[trigger] subst_seq(args, from, to).len() == args.len(),
        forall|i: int|
            0 <= i < args.len() ==> #[trigger] subst_seq(args, from, to)[i] == subst(
                args[i],
                from,
                to,
            ),
    decreases args.len(),
{
    if args.len() > 0 {
        lemma_subst_seq(args.subrange(1, args.len() as int), from, to);
    }
}

/// `occurs_in_seq` holds exactly when the term occurs in one position.
pub broadcast proof fn lemma_occurs_in_seq(s: TermView, args: Seq<TermView>)
    ensures
        #[trigger] occurs_in_seq(s, args) == exists|i: int|
            0 <= i < args.len() && #[trigger] occurs(s, args[i]),
    decreases args.len(),
{
    if args.len() > 0 {
        let rest = args.subrange(1, args.len() as int);
        lemma_occurs_in_seq(s, rest);
        if occurs(s, args[0]) {
            assert(0 <= 0 < args.len() && occurs(s, args[0]));
        }
        if occurs_in_seq(s, rest) {
            let j = choose|j: int| 0 <= j < rest.len() && #[trigger] occurs(s, rest[j]);
            assert(occurs(s, args[j + 1]));
        }
        if exists|i: int| 0 <= i < args.len() && #[trigger] occurs(s, args[i]) {
            let i = choose|i: int| 0 <= i < args.len() && #[trigger] occurs(s, args[i]);
            if i > 0 {
                assert(rest[i - 1] == args[i]);
                assert(occurs(s, rest[i - 1]));
            }
        }
    }
}

fn substituted_arguments(args: &Vec<Term>, from: &Term, to: &Term) -> (r: Vec<Term>)
    requires
        occurs_in_seq(from@, views_of(args@)) ==> !occurs_below(from@, to@),
    ensures
        views_of(r@) == subst_seq(views_of(args@), from@, to@),
    decreases args,
{
    let ghost va = views_of(args@);
    proof {
        lemma_subst_seq(va, from@, to@);
    }
    let mut r: Vec<Term> = Vec::new();
    let mut i: usize = 0;
    while i < args.len()
        invariant
            i <= args.len(),
            va == views_of(args@),
            va.len() == args.len(),
            forall|j: int| 0 <= j < args.len() ==> #[trigger] va[j] == args@[j]@,
            occurs_in_seq(from@, va) ==> !occurs_below(from@, to@),
            r@.len() == i,
            forall|j: int| 0 <= j < i ==> #[trigger] r@[j]@ == subst(args@[j]@, from@, to@),
        decreases args.len() - i,
    {
        assert(decreases_to!(args => args@[i as int]));
        proof {
            lemma_occurs_in_seq(from@, va);
            if occurs(from@, va[i as int]) {
                assert(occurs_in_seq(from@, va));
            }
        }
        r.push(args[i].substituted(from, to));
        i += 1;
    }
    assert(views_of(r@) =~= subst_seq(va, from@, to@));
    r
}

fn arguments_contain(args: &Vec<Term>, s: &Term) -> (r: bool)
    ensures
        r == occurs_in_seq(s@, views_of(args@)),
    decreases args,
{
    let ghost va = views_of(args@);
    let mut i: usize = 0;
    while i < args.len()
        invariant
            i <= args.len(),
            va == views_of(args@),
            va.len() == args.len(),
            forall|j: int| 0 <= j < args.len() ==> #[trigger] va[j] == args@[j]@,
            forall|j: int| 0 <= j < i ==> !#[trigger] occurs(s@, va[j]),
        decreases args.len() - i,
    {
        assert(decreases_to!(args => args@[i as int]));
        if args[i].contains(s) {
            proof {
                lemma_occurs_in_seq(s@, va);
                assert(occurs(s@, va[i as int]));
            }
            return true;
        }
        i += 1;
    }
    proof {
        lemma_occurs_in_seq(s@, va);
    }
    false
}

impl Term {
    /// Whether `s` occurs in the term, at its root or anywhere below.
    pub fn contains(&self, s: &Term) -> (r: bool)
        ensures
            r == occurs(s@, self@),
        decreases self, 1int,
    {
        if self.same(s) {
            return true;
        }
        self.contains_below(s)
    }

    /// Whether `s` occurs strictly below the root of the term.
    pub fn contains_below(&self, s: &Term) -> (r: bool)
        ensures
            r == occurs_below(s@, self@),
        decreases self, 0int,
    {
        match self {
            Term::Literal(_) => false,
            Term::Function(f) => arguments_contain(&f.arguments, s),
            Term::Normalizable(n) => arguments_contain(&n.arguments, s),
        }
    }

    /// The term with every occurrence of `from` replaced by `to`.
    ///
    /// Where `from` occurs in the term, it does not occur below the root of
    /// `to`, so a copy of `to` put in place of `from` holds no further
    /// occurrence to replace.
    pub fn substituted(&self, from: &Term, to: &Term) -> (r: Term)
        requires
            occurs(from@, self@) ==> !occurs_below(from@, to@),
        ensures
            r@ == subst(self@, from@, to@),
        decreases self,
    {
        if self.same(from) {
            return to.copy();
        }
        match self {
            Term::Literal(a) => Term::Literal(*a),
            Term::Function(f) => Term::Function(
                Function {
                    symbol: f.symbol,
                    arguments: substituted_arguments(&f.arguments, from, to),
                },
            ),
            Term::Normalizable(n) => Term::Normalizable(
                Normalizable {
                    symbol: n.symbol,
                    arguments: substituted_arguments(&n.arguments, from, to),
                },
            ),
        }
    }

    /// Replaces every occurrence of `from` in the term by `to`.
    pub fn apply(&mut self, from: &Term, to: &Term)
        requires
            occurs(from@, old(self)@) ==> !occurs_below(from@, to@),
        ensures
            final(self)@ == subst(old(self)@, from@, to@),
    {
        *self = self.substituted(from, to);
    }
}

} // verus!
