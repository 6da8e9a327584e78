use vstd::prelude::*;

use crate::term::{lemma_views_of, views_of, Term, TermView};

verus! {

/// The terms a visitor was handed, in order, each with the answer it gave.
pub type VisitHistory = Seq<(TermView, bool)>;

/// A visitor for terms.
pub trait Visitor {
    /// The terms visited so far, in order, each with the answer given.
    spec fn history(&self) -> VisitHistory;

    /// Visits a term.
    ///
    /// Returns `false` if visiting should be stopped.
    fn visit(&mut self, term: &Term) -> (r: bool)
        ensures
            final(self).history() == old(self).history().push((term@, r)),
    ;
}

/// The subterms of `t` in pre-order: `t`, then those of each argument in turn.
pub open spec fn pre_order(t: TermView) -> Seq<TermView>
    decreases t,
{
    match t {
        TermView::Atomic(_) => seq![t],
        TermView::Applied(_, args) => seq![t] + pre_order_seq(args),
        TermView::Expandable(_, args) => seq![t] + pre_order_seq(args),
    }
}

/// The pre-orders of the terms of `s`, one after the other.
pub open spec fn pre_order_seq(s: Seq<TermView>) -> Seq<TermView>
    decreases s,
{
    if s.len() == 0 {
        Seq::empty()
    } else {
        pre_order_seq(s.subrange(0, s.len() - 1)) + pre_order(s[s.len() - 1])
    }
}

/// The visits `h` went through a prefix of `order` that is not empty, every
/// answer but the last was `true`, `r` is the last answer, and a last answer
/// of `true` comes only after all of `order`.
pub open spec fn visited_prefix(h: Seq<(TermView, bool)>, order: Seq<TermView>, r: bool) -> bool {
    &&& 1 <= h.len() <= order.len()
    &&& forall|i: int| #![trigger h[i]] 0 <= i < h.len() ==> h[i].0 == order[i]
    &&& forall|i: int| #![trigger h[i]] 0 <= i < h.len() - 1 ==> h[i].1
    &&& r == h[h.len() - 1].1
    &&& h[h.len() - 1].1 ==> h.len() == order.len()
}

/// The visits `h` went through all of `order`, each answered `true`.
pub open spec fn visited_all(h: Seq<(TermView, bool)>, order: Seq<TermView>) -> bool {
    &&& h.len() == order.len()
    &&& forall|i: int| #![trigger h[i]] 0 <= i < h.len() ==> h[i].0 == order[i] && h[i].1
}

fn visit_arguments<V: Visitor>(args: &Vec<Term>, visitor: &mut V) -> (r: bool)
    ensures
        final(visitor).history().len() >= old(visitor).history().len(),
        final(visitor).history().subrange(0, old(visitor).history().len() as int) == old(
            visitor,
        ).history(),
        r ==> visited_all(
            final(visitor).history().subrange(
                old(visitor).history().len() as int,
                final(visitor).history().len() as int,
            ),
            pre_order_seq(views_of(args@)),
        ),
        !r ==> visited_prefix(
            final(visitor).history().subrange(
                old(visitor).history().len() as int,
                final(visitor).history().len() as int,
            ),
            pre_order_seq(views_of(args@)),
            false,
        ),
    decreases args,
{
    let ghost va = views_of(args@);
    let ghost start = visitor.history().len();
    proof {
        lemma_views_of(args@);
        assert(va.subrange(0, 0) =~= Seq::<TermView>::empty());
        assert(visitor.history().subrange(start as int, start as int) =~= Seq::<
            (TermView, bool),
        >::empty());
        assert(visitor.history().subrange(0, start as int) =~= visitor.history());
    }
    let mut i: usize = 0;
    while i < args.len()
        invariant
            i <= args.len(),
            va == views_of(args@),
            va.len() == args.len(),
            forall|j: int| 0 <= j < args.len() ==> #[trigger] va[j] == args@[j]@,
            start == old(visitor).history().len(),
            visitor.history().len() >= start,
            visitor.history().subrange(0, start as int) == old(visitor).history(),
            visited_all(
                visitor.history().subrange(start as int, visitor.history().len() as int),
                pre_order_seq(va.subrange(0, i as int)),
            ),
        decreases args.len() - i,
    {
        assert(decreases_to!(args => args@[i as int]));
        let ghost before = visitor.history();
        let ok = args[i].visit(visitor);
        let ghost after = visitor.history();
        proof {
            let done = before.subrange(start as int, before.len() as int);
            let part = after.subrange(before.len() as int, after.len() as int);
            let whole = after.subrange(start as int, after.len() as int);
            let order = pre_order_seq(va.subrange(0, i as int));
            assert(va.subrange(0, i + 1).subrange(0, i as int) =~= va.subrange(0, i as int));
            assert(pre_order_seq(va.subrange(0, i + 1)) == order + pre_order(va[i as int]));
            assert(whole =~= done + part);
            assert(after.subrange(0, start as int) =~= before.subrange(0, start as int));
            assert(before.subrange(start as int, before.len() as int) =~= after.subrange(
                start as int,
                before.len() as int,
            ));
            if ok {
                lemma_prefix_true_is_all(part, pre_order(va[i as int]));
                lemma_concat_all(done, order, part, pre_order(va[i as int]));
            } else {
                lemma_concat_prefix(done, order, part, pre_order(va[i as int]), false);
                lemma_pre_order_seq_prefix(va, i as int);
                lemma_prefix_extend(
                    whole,
                    pre_order_seq(va.subrange(0, i + 1)),
                    pre_order_seq(va),
                );
            }
        }
        if !ok {
            return false;
        }
        i += 1;
    }
    proof {
        assert(va.subrange(0, i as int) =~= va);
    }
    true
}

proof fn lemma_prefix_true_is_all(h: Seq<(TermView, bool)>, order: Seq<TermView>)
    requires
        visited_prefix(h, order, true),
    ensures
        visited_all(h, order),
{
}

proof fn lemma_all_is_prefix_true(h: Seq<(TermView, bool)>, order: Seq<TermView>)
    requires
        visited_all(h, order),
        h.len() >= 1,
    ensures
        visited_prefix(h, order, true),
{
}

proof fn lemma_concat_all(
    d: Seq<(TermView, bool)>,
    o1: Seq<TermView>,
    p: Seq<(TermView, bool)>,
    o2: Seq<TermView>,
)
    requires
        visited_all(d, o1),
        visited_all(p, o2),
    ensures
        visited_all(d + p, o1 + o2),
{
    assert forall|i: int| #![trigger (d + p)[i]] 0 <= i < (d + p).len() implies (d + p)[i].0 == (
    o1 + o2)[i] && (d + p)[i].1 by {
        if i >= d.len() {
            assert(p[i - d.len()].0 == o2[i - d.len()] && p[i - d.len()].1);
        }
    }
}

proof fn lemma_concat_prefix(
    d: Seq<(TermView, bool)>,
    o1: Seq<TermView>,
    p: Seq<(TermView, bool)>,
    o2: Seq<TermView>,
    r: bool,
)
    requires
        visited_all(d, o1),
        visited_prefix(p, o2, r),
    ensures
        visited_prefix(d + p, o1 + o2, r),
{
    let h = d + p;
    assert forall|i: int| #![trigger h[i]] 0 <= i < h.len() implies h[i].0 == (o1 + o2)[i] by {
        if i >= d.len() {
            assert(p[i - d.len()].0 == o2[i - d.len()]);
        }
    }
    assert forall|i: int| #![trigger h[i]] 0 <= i < h.len() - 1 implies h[i].1 by {
        if i >= d.len() {
            assert(p[i - d.len()].1);
        }
    }
    assert(h[h.len() - 1] == p[p.len() - 1]);
}

proof fn lemma_prefix_extend(h: Seq<(TermView, bool)>, o1: Seq<TermView>, o2: Seq<TermView>)
    requires
        visited_prefix(h, o1, false),
        o1.len() <= o2.len(),
        forall|j: int| 0 <= j < o1.len() ==> #[trigger] o1[j] == o2[j],
    ensures
        visited_prefix(h, o2, false),
{
}

/// A prefix of the pre-order of the first `i + 1` terms is a prefix of the
/// pre-order of them all.
proof fn lemma_pre_order_seq_prefix(s: Seq<TermView>, i: int)
    requires
        0 <= i < s.len(),
    ensures
        pre_order_seq(s.subrange(0, i + 1)).len() <= pre_order_seq(s).len(),
        forall|j: int|
            0 <= j < pre_order_seq(s.subrange(0, i + 1)).len() ==> #[trigger] pre_order_seq(
                s.subrange(0, i + 1),
            )[j] == pre_order_seq(s)[j],
    decreases s.len(),
{
    if i + 1 < s.len() {
        let init = s.subrange(0, s.len() - 1);
        lemma_pre_order_seq_prefix(init, i);
        assert(init.subrange(0, i + 1) =~= s.subrange(0, i + 1));
    } else {
        assert(s.subrange(0, i + 1) =~= s);
    }
}

impl Term {
    /// Visits the term and then each argument, in order, before the next
    /// argument; stops at the first visit that returns `false`, and then
    /// returns `false`.
    pub fn visit<V: Visitor>(&self, visitor: &mut V) -> (r: bool)
        ensures
            final(visitor).history().len() > old(visitor).history().len(),
            final(visitor).history().subrange(0, old(visitor).history().len() as int) == old(
                visitor,
            ).history(),
            visited_prefix(
                final(visitor).history().subrange(
                    old(visitor).history().len() as int,
                    final(visitor).history().len() as int,
                ),
                pre_order(self@),
                r,
            ),
        decreases self,
    {
        let ghost start = visitor.history().len();
        if !visitor.visit(self) {
            proof {
                assert(visitor.history().subrange(0, start as int) =~= old(visitor).history());
            }
            return false;
        }
        let ghost mid = visitor.history();
        let r = match self {
            Term::Literal(_) => true,
            Term::Function(f) => visit_arguments(&f.arguments, visitor),
            Term::Normalizable(n) => visit_arguments(&n.arguments, visitor),
        };
        proof {
            let h = visitor.history();
            let whole = h.subrange(start as int, h.len() as int);
            let rest = h.subrange(mid.len() as int, h.len() as int);
            assert(h.subrange(0, mid.len() as int) == mid);
            assert(h[start as int] == h.subrange(0, mid.len() as int)[start as int]);
            assert(whole =~= seq![(self@, true)] + rest);
            assert(h.subrange(0, start as int) =~= mid.subrange(0, start as int));
            assert(mid.subrange(0, start as int) =~= old(visitor).history());
            let first = seq![(self@, true)];
            assert(visited_all(first, seq![self@]));
            match self {
                Term::Literal(_) => {
                    assert(rest.len() == 0);
                    assert(whole =~= first);
                    lemma_all_is_prefix_true(whole, pre_order(self@));
                },
                Term::Function(f) => {
                    let order = pre_order_seq(views_of(f.arguments@));
                    if r {
                        lemma_concat_all(first, seq![self@], rest, order);
                        lemma_all_is_prefix_true(whole, pre_order(self@));
                    } else {
                        lemma_concat_prefix(first, seq![self@], rest, order, false);
                    }
                },
                Term::Normalizable(n) => {
                    let order = pre_order_seq(views_of(n.arguments@));
                    if r {
                        lemma_concat_all(first, seq![self@], rest, order);
                        lemma_all_is_prefix_true(whole, pre_order(self@));
                    } else {
                        lemma_concat_prefix(first, seq![self@], rest, order, false);
                    }
                },
            }
        }
        r
    }
}

} // verus!
