use vstd::prelude::*;
use vstd::set_lib::*;

use crate::premise::{lookup_fact, PremiseView};
use crate::term::TermView;

verus! {

broadcast use {lemma_set_union_finite_iff, lemma_set_subset_finite};

/// `t` and every term below it.
pub open spec fn subterms(t: TermView) -> Set<TermView>
    decreases t,
{
    match t {
        TermView::Atomic(_) => set![t],
        TermView::Applied(_, args) => set![t] + subterms_seq(args),
        TermView::Expandable(_, args) => set![t] + subterms_seq(args),
    }
}

/// The subterms of the terms of `s`.
pub open spec fn subterms_seq(s: Seq<TermView>) -> Set<TermView>
    decreases s,
{
    if s.len() == 0 {
        Set::empty()
    } else {
        subterms(s[0]) + subterms_seq(s.subrange(1, s.len() as int))
    }
}

/// The subterms of the keys and classes of the table `eqs`.
pub open spec fn table_terms(eqs: Seq<(TermView, Seq<TermView>)>) -> Set<TermView>
    decreases eqs.len(),
{
    if eqs.len() == 0 {
        Set::empty()
    } else {
        subterms(eqs[0].0) + subterms_seq(eqs[0].1) + table_terms(
            eqs.subrange(1, eqs.len() as int),
        )
    }
}

/// The terms that a search starting from the terms of `s` can meet without
/// expanding an alias: their subterms and those of the premise's table.
pub open spec fn scope(s: Seq<TermView>, p: PremiseView) -> Set<TermView> {
    subterms_seq(s) + table_terms(p.equalities)
}

/// The ordered pairs of terms of `u`.
pub open spec fn pairs_in(u: Set<TermView>) -> Set<(TermView, TermView)> {
    Set::new(|q: (TermView, TermView)| u.contains(q.0) && u.contains(q.1))
}

/// How many pairs of the scope of `s` are not pending yet.
pub open spec fn open_pairs(s: Seq<TermView>, p: PremiseView, pending: Set<(TermView, TermView)>) -> nat {
    pairs_in(scope(s, p)).difference(pending).len()
}

/// A set closed under taking subterms.
pub open spec fn closed(u: Set<TermView>) -> bool {
    forall|x: TermView| #[trigger] u.contains(x) ==> subterms(x).subset_of(u)
}

pub proof fn lemma_subterms(t: TermView)
    ensures
        subterms(t).finite(),
        subterms(t).contains(t),
        closed(subterms(t)),
    decreases t,
{
    match t {
        TermView::Applied(_, args) => lemma_subterms_seq(args),
        TermView::Expandable(_, args) => lemma_subterms_seq(args),
        _ => {},
    }
    assert forall|x: TermView| #[trigger] subterms(t).contains(x) implies subterms(x).subset_of(
        subterms(t),
    ) by {
        if x == t {
        }
    }
}

pub proof fn lemma_subterms_seq(s: Seq<TermView>)
    ensures
        subterms_seq(s).finite(),
        closed(subterms_seq(s)),
        forall|i: int| 0 <= i < s.len() ==> subterms(#[trigger] s[i]).subset_of(subterms_seq(s)),
    decreases s,
{
    if s.len() > 0 {
        let rest = s.subrange(1, s.len() as int);
        lemma_subterms(s[0]);
        lemma_subterms_seq(rest);
        assert forall|i: int| 0 <= i < s.len() implies subterms(#[trigger] s[i]).subset_of(
            subterms_seq(s),
        ) by {
            if i > 0 {
                assert(rest[i - 1] == s[i]);
            }
        }
    }
}

pub proof fn lemma_table_terms(eqs: Seq<(TermView, Seq<TermView>)>)
    ensures
        table_terms(eqs).finite(),
        closed(table_terms(eqs)),
        forall|k: int| 0 <= k < eqs.len() ==> #[trigger] table_terms(eqs).contains(eqs[k].0),
        forall|k: int, i: int|
            0 <= k < eqs.len() && 0 <= i < eqs[k].1.len() ==> #[trigger] table_terms(
                eqs,
            ).contains(#[trigger] eqs[k].1[i]),
    decreases eqs.len(),
{
    if eqs.len() > 0 {
        let rest = eqs.subrange(1, eqs.len() as int);
        lemma_subterms(eqs[0].0);
        lemma_subterms_seq(eqs[0].1);
        lemma_table_terms(rest);
        assert forall|i: int| 0 <= i < eqs[0].1.len() implies subterms_seq(eqs[0].1).contains(
            eqs[0].1[i],
        ) by {
            lemma_subterms(eqs[0].1[i]);
        }
        assert forall|k: int| 0 <= k < eqs.len() implies #[trigger] table_terms(eqs).contains(
            eqs[k].0,
        ) by {
            if k > 0 {
                assert(rest[k - 1] == eqs[k]);
            }
        }
        assert forall|k: int, i: int|
            0 <= k < eqs.len() && 0 <= i < eqs[k].1.len() implies #[trigger] table_terms(
            eqs,
        ).contains(#[trigger] eqs[k].1[i]) by {
            if k > 0 {
                assert(rest[k - 1] == eqs[k]);
            }
        }
    }
}

/// The terms of a class found in the table belong to the table.
pub proof fn lemma_lookup_in_table(eqs: Seq<(TermView, Seq<TermView>)>, t: TermView)
    requires
        lookup_fact(eqs, t) is Some,
    ensures
        forall|i: int|
            0 <= i < lookup_fact(eqs, t)->0.len() ==> #[trigger] table_terms(eqs).contains(
                lookup_fact(eqs, t)->0[i],
            ),
    decreases eqs.len(),
{
    lemma_table_terms(eqs);
    if eqs[0].0 != t {
        let rest = eqs.subrange(1, eqs.len() as int);
        lemma_lookup_in_table(rest, t);
        lemma_table_terms(rest);
    } else {
        assert forall|i: int| 0 <= i < lookup_fact(eqs, t)->0.len() implies #[trigger] table_terms(
            eqs,
        ).contains(lookup_fact(eqs, t)->0[i]) by {
            assert(eqs[0].1[i] == lookup_fact(eqs, t)->0[i]);
        }
    }
}

proof fn lemma_pairs_finite(u: Set<TermView>)
    requires
        u.finite(),
    ensures
        pairs_in(u).finite(),
    decreases u.len(),
{
    if u.len() == 0 {
        u.lemma_len0_is_empty();
        assert(pairs_in(u) =~= Set::empty());
    } else {
        let x = u.choose();
        let r = u.remove(x);
        lemma_pairs_finite(r);
        u.lemma_map_finite(|y: TermView| (x, y));
        u.lemma_map_finite(|y: TermView| (y, x));
        let cover = pairs_in(r) + u.map(|y: TermView| (x, y)) + u.map(|y: TermView| (y, x));
        assert forall|q: (TermView, TermView)| #[trigger] pairs_in(u).contains(q) implies cover.contains(
            q,
        ) by {
            if q.0 == x {
                assert(u.map(|y: TermView| (x, y)).contains((x, q.1)));
            } else if q.1 == x {
                assert(u.map(|y: TermView| (y, x)).contains((q.0, x)));
            }
        }
        lemma_set_subset_finite(cover, pairs_in(u));
    }
}

/// Where the terms of `s2` lie in the scope of `s`, so does the scope of
/// `s2`, and no more of its pairs are open.
pub proof fn lemma_scope_within(
    s2: Seq<TermView>,
    s: Seq<TermView>,
    p: PremiseView,
    pending: Set<(TermView, TermView)>,
)
    requires
        forall|i: int| 0 <= i < s2.len() ==> #[trigger] scope(s, p).contains(s2[i]),
    ensures
        scope(s2, p).subset_of(scope(s, p)),
        open_pairs(s2, p, pending) <= open_pairs(s, p, pending),
{
    lemma_subterms_seq(s);
    lemma_subterms_seq(s2);
    lemma_table_terms(p.equalities);
    let u = scope(s, p);
    assert(closed(u));
    assert forall|x: TermView| #[trigger] scope(s2, p).contains(x) implies u.contains(x) by {
        if subterms_seq(s2).contains(x) {
            lemma_subterms_seq_member(s2, x);
            let i = choose|i: int| 0 <= i < s2.len() && #[trigger] subterms(s2[i]).contains(x);
            assert(u.contains(s2[i]));
        }
    }
    lemma_pairs_finite(u);
    let big = pairs_in(u).difference(pending);
    let small = pairs_in(scope(s2, p)).difference(pending);
    assert(small.subset_of(big));
    lemma_len_subset(small, big);
}

proof fn lemma_subterms_seq_member(s: Seq<TermView>, x: TermView)
    requires
        subterms_seq(s).contains(x),
    ensures
        exists|i: int| 0 <= i < s.len() && #[trigger] subterms(s[i]).contains(x),
    decreases s.len(),
{
    let rest = s.subrange(1, s.len() as int);
    if !subterms(s[0]).contains(x) {
        lemma_subterms_seq_member(rest, x);
        let i = choose|i: int| 0 <= i < rest.len() && #[trigger] subterms(rest[i]).contains(x);
        assert(subterms(s[i + 1]).contains(x));
    }
}

/// Making the pair of two terms of `s` pending closes one open pair.
pub proof fn lemma_open_pairs_insert(
    s: Seq<TermView>,
    p: PremiseView,
    pending: Set<(TermView, TermView)>,
    a: TermView,
    b: TermView,
)
    requires
        scope(s, p).contains(a),
        scope(s, p).contains(b),
        !pending.contains((a, b)),
    ensures
        open_pairs(s, p, pending.insert((a, b))) + 1 == open_pairs(s, p, pending),
{
    lemma_subterms_seq(s);
    lemma_table_terms(p.equalities);
    lemma_pairs_finite(scope(s, p));
    let all = pairs_in(scope(s, p));
    assert(all.difference(pending.insert((a, b))) =~= all.difference(pending).remove((a, b)));
}

/// The scope is finite and closed under taking subterms.
pub proof fn lemma_scope_closed(s: Seq<TermView>, p: PremiseView)
    ensures
        scope(s, p).finite(),
        closed(scope(s, p)),
{
    lemma_subterms_seq(s);
    lemma_table_terms(p.equalities);
}

/// The terms of `s` lie in its scope.
pub proof fn lemma_in_own_scope(s: Seq<TermView>, p: PremiseView)
    ensures
        forall|i: int| 0 <= i < s.len() ==> #[trigger] scope(s, p).contains(s[i]),
{
    lemma_subterms_seq(s);
    assert forall|i: int| 0 <= i < s.len() implies #[trigger] scope(s, p).contains(s[i]) by {
        lemma_subterms(s[i]);
    }
}

} // verus!
