use vstd::prelude::*;

use crate::in_progress::InProgress;
use crate::premise::{
    entries_view, find_class, holds, keys_ordered, expansion, lookup_fact, lookup_normalization, option_view, Premise, PremiseView,
};
use crate::scope::{
    lemma_in_own_scope, lemma_lookup_in_table, lemma_open_pairs_insert, lemma_scope_closed,
    lemma_scope_within, lemma_subterms, lemma_subterms_seq, lemma_table_terms, open_pairs, scope,
    subterms, table_terms,
};
use crate::term::{lemma_compare_views, lemma_views_of, views_of, Term, TermView};

verus! {

broadcast use lemma_views_of;

/// How many alias expansions the search may nest before it gives that
/// branch up as unproven.
///
/// An alias whose expansion holds the alias again leads the search to ever
/// larger terms; every other step draws its pairs from a finite scope.
pub const EXPANSION_DEPTH: u64 = 200;

/// The pairs of terms that a search is proving at a given moment.
pub type Pending = Set<(TermView, TermView)>;

/// What a search step returns: whether it proved its pair, and the pending
/// pairs after it.
pub type Outcome = (bool, Pending);

/// The expansion of `t` through the alias registered for its symbol, where
/// `t` is an expandable term and the premise defines its symbol.
pub open spec fn expand_view(t: TermView, p: PremiseView) -> Option<TermView> {
    match t {
        TermView::Expandable(s, args) => match lookup_normalization(p.normalizations, s) {
            Some(n) => expansion(n, args),
            None => None,
        },
        _ => None,
    }
}

/// Whether `a` and `b` are provably equal under `p`: the search from no
/// pending pair.
pub open spec fn provably_equal(a: TermView, b: TermView, p: PremiseView) -> bool {
    search(a, b, p, Set::empty(), Set::empty(), EXPANSION_DEPTH as nat).0
}

/// A pair of terms of a scope leaves no more pairs open than the scope.
pub proof fn lemma_pair_within(x: TermView, y: TermView, s: Seq<TermView>, p: PremiseView, anc: Pending)
    requires
        scope(s, p).contains(x),
        scope(s, p).contains(y),
    ensures
        open_pairs(seq![x, y], p, anc) <= open_pairs(s, p, anc),
{
    let q = seq![x, y];
    assert(q[0] == x && q[1] == y);
    lemma_scope_within(q, s, p, anc);
}

/// Terms of a scope, with one more of it, leave no more pairs open than the scope.
pub proof fn lemma_push_within(
    vals: Seq<TermView>,
    y: TermView,
    s: Seq<TermView>,
    p: PremiseView,
    anc: Pending,
)
    requires
        forall|i: int| 0 <= i < vals.len() ==> #[trigger] scope(s, p).contains(vals[i]),
        scope(s, p).contains(y),
    ensures
        open_pairs(vals.push(y), p, anc) <= open_pairs(s, p, anc),
{
    let q = vals.push(y);
    assert forall|i: int| 0 <= i < q.len() implies #[trigger] scope(s, p).contains(q[i]) by {
        if i < vals.len() {
            assert(q[i] == vals[i]);
        }
    }
    lemma_scope_within(q, s, p, anc);
}

/// Both terms of a pair lie in its scope.
pub proof fn lemma_own_pair(x: TermView, y: TermView, p: PremiseView)
    ensures
        scope(seq![x, y], p).contains(x),
        scope(seq![x, y], p).contains(y),
{
    let q = seq![x, y];
    lemma_in_own_scope(q, p);
    assert(q[0] == x && q[1] == y);
}

/// Every key and class member of the premise lies in every scope.
pub proof fn lemma_table_in_scope(s: Seq<TermView>, p: PremiseView)
    ensures
        forall|k: int|
            0 <= k < p.equalities.len() ==> #[trigger] scope(s, p).contains(p.equalities[k].0),
        forall|k: int, i: int|
            0 <= k < p.equalities.len() && 0 <= i < p.equalities[k].1.len() ==> #[trigger] scope(
                s,
                p,
            ).contains(#[trigger] p.equalities[k].1[i]),
{
    lemma_table_terms(p.equalities);
}

/// The arguments of two compound terms leave no more pairs open than the
/// two terms.
pub proof fn lemma_arguments_within(
    a: TermView,
    b: TermView,
    xs: Seq<TermView>,
    ys: Seq<TermView>,
    p: PremiseView,
    anc: Pending,
)
    requires
        a matches TermView::Applied(_, _) || a matches TermView::Expandable(_, _),
        b matches TermView::Applied(_, _) || b matches TermView::Expandable(_, _),
        xs == match a {
            TermView::Applied(_, args) => args,
            TermView::Expandable(_, args) => args,
            _ => xs,
        },
        ys == match b {
            TermView::Applied(_, args) => args,
            TermView::Expandable(_, args) => args,
            _ => ys,
        },
    ensures
        open_pairs(xs + ys, p, anc) <= open_pairs(seq![a, b], p, anc),
{
    let s = seq![a, b];
    let u = scope(s, p);
    lemma_own_pair(a, b, p);
    lemma_scope_closed(s, p);
    lemma_subterms_seq(xs);
    lemma_subterms_seq(ys);
    let q = xs + ys;
    assert forall|i: int| 0 <= i < q.len() implies #[trigger] u.contains(q[i]) by {
        if i < xs.len() {
            lemma_subterms(xs[i]);
            assert(subterms(a).contains(xs[i]));
        } else {
            lemma_subterms(ys[i - xs.len()]);
            assert(subterms(b).contains(ys[i - xs.len()]));
        }
    }
    lemma_scope_within(q, s, p, anc);
}

/// The search for a proof that `a` equals `b`, given the pairs `v` already
/// being proven. A pair is pending while it is tried; it is released when
/// proven and kept when not, so that no pair is tried twice along one
/// failing search. `anc` holds the pairs of the calls this one is nested
/// in, all of which are pending; `fuel` is how many more alias expansions
/// may nest.
pub open spec fn search(
    a: TermView,
    b: TermView,
    p: PremiseView,
    v: Pending,
    anc: Pending,
    fuel: nat,
) -> Outcome
    decreases fuel, open_pairs(seq![a, b], p, anc), 5nat, 0nat,
{
    if a == b {
        (true, v)
    } else if v.contains((a, b)) || anc.contains((a, b)) {
        (false, v)
    } else {
        proof {
            lemma_own_pair(a, b, p);
            lemma_open_pairs_insert(seq![a, b], p, anc, a, b);
        }
        let r = attempts(a, b, p, v.insert((a, b)), anc.insert((a, b)), fuel);
        if r.0 {
            (true, r.1.remove((a, b)))
        } else {
            (false, r.1)
        }
    }
}

/// The four ways to prove a pair, in order: unification, normalization, the
/// facts on either term, and the facts reached through a key of the premise.
pub open spec fn attempts(
    a: TermView,
    b: TermView,
    p: PremiseView,
    v: Pending,
    anc: Pending,
    fuel: nat,
) -> Outcome
    decreases fuel, open_pairs(seq![a, b], p, anc) + 1, 4nat, 0nat,
{
    let r1 = unify(a, b, p, v, anc, fuel);
    if r1.0 {
        r1
    } else {
        let r2 = normalize(a, b, p, r1.1, anc, fuel);
        if r2.0 {
            r2
        } else {
            let r3 = lookups(a, b, p, r2.1, anc, fuel);
            if r3.0 {
                r3
            } else {
                bridge(a, b, p, r3.1, anc, fuel, 0)
            }
        }
    }
}

/// Two applications, or two expandable terms, of one symbol and arity are
/// equal where their arguments are equal position by position.
pub open spec fn unify(
    a: TermView,
    b: TermView,
    p: PremiseView,
    v: Pending,
    anc: Pending,
    fuel: nat,
) -> Outcome
    decreases fuel, open_pairs(seq![a, b], p, anc) + 1, 2nat, 0nat,
{
    match (a, b) {
        (TermView::Applied(x, xs), TermView::Applied(y, ys)) => if x == y && xs.len()
            == ys.len() {
            proof {
                lemma_arguments_within(a, b, xs, ys, p, anc);
            }
            unify_args(xs, ys, 0, p, v, anc, fuel)
        } else {
            (false, v)
        },
        (TermView::Expandable(x, xs), TermView::Expandable(y, ys)) => if x == y && xs.len()
            == ys.len() {
            proof {
                lemma_arguments_within(a, b, xs, ys, p, anc);
            }
            unify_args(xs, ys, 0, p, v, anc, fuel)
        } else {
            (false, v)
        },
        _ => (false, v),
    }
}

/// The arguments from position `i` on are equal pair by pair; the first pair
/// that fails ends the attempt.
pub open spec fn unify_args(
    xs: Seq<TermView>,
    ys: Seq<TermView>,
    i: nat,
    p: PremiseView,
    v: Pending,
    anc: Pending,
    fuel: nat,
) -> Outcome
    decreases fuel, open_pairs(xs + ys, p, anc) + 1, 1nat, xs.len() - i,
{
    if i >= xs.len() || i >= ys.len() {
        (true, v)
    } else {
        proof {
            let q = xs + ys;
            lemma_in_own_scope(q, p);
            assert(q[i as int] == xs[i as int]);
            assert(q[xs.len() + i as int] == ys[i as int]);
            lemma_pair_within(xs[i as int], ys[i as int], q, p, anc);
        }
        let r = search(xs[i as int], ys[i as int], p, v, anc, fuel);
        if !r.0 {
            r
        } else {
            unify_args(xs, ys, i + 1, p, r.1, anc, fuel)
        }
    }
}

/// With an expansion left: expand `a` and compare the expansion with `b`;
/// failing that, expand `b` and compare `a` with it.
pub open spec fn normalize(
    a: TermView,
    b: TermView,
    p: PremiseView,
    v: Pending,
    anc: Pending,
    fuel: nat,
) -> Outcome
    decreases fuel, open_pairs(seq![a, b], p, anc) + 1, 1nat, 0nat,
{
    if fuel == 0 {
        (false, v)
    } else {
        let r1 = match expand_view(a, p) {
            Some(e) => search(e, b, p, v, anc, (fuel - 1) as nat),
            None => (false, v),
        };
        if r1.0 {
            r1
        } else {
            match expand_view(b, p) {
                Some(e) => search(a, e, p, r1.1, anc, (fuel - 1) as nat),
                None => (false, r1.1),
            }
        }
    }
}

/// Some term from position `i` on of `vals` equals `b`.
pub open spec fn try_left(
    vals: Seq<TermView>,
    i: nat,
    b: TermView,
    p: PremiseView,
    v: Pending,
    anc: Pending,
    fuel: nat,
) -> Outcome
    decreases fuel, open_pairs(vals.push(b), p, anc) + 1, 1nat, vals.len() - i,
{
    if i >= vals.len() {
        (false, v)
    } else {
        proof {
            let q = vals.push(b);
            lemma_in_own_scope(q, p);
            assert(q[i as int] == vals[i as int]);
            assert(q[vals.len() as int] == b);
            lemma_pair_within(vals[i as int], b, q, p, anc);
        }
        let r = search(vals[i as int], b, p, v, anc, fuel);
        if r.0 {
            r
        } else {
            try_left(vals, i + 1, b, p, r.1, anc, fuel)
        }
    }
}

/// `a` equals some term from position `i` on of `vals`.
pub open spec fn try_right(
    a: TermView,
    vals: Seq<TermView>,
    i: nat,
    p: PremiseView,
    v: Pending,
    anc: Pending,
    fuel: nat,
) -> Outcome
    decreases fuel, open_pairs(vals.push(a), p, anc) + 1, 1nat, vals.len() - i,
{
    if i >= vals.len() {
        (false, v)
    } else {
        proof {
            let q = vals.push(a);
            lemma_in_own_scope(q, p);
            assert(q[i as int] == vals[i as int]);
            assert(q[vals.len() as int] == a);
            lemma_pair_within(a, vals[i as int], q, p, anc);
        }
        let r = search(a, vals[i as int], p, v, anc, fuel);
        if r.0 {
            r
        } else {
            try_right(a, vals, i + 1, p, r.1, anc, fuel)
        }
    }
}

/// A term asserted equal to `a` equals `b`; failing that, `a` equals a term
/// asserted equal to `b`.
pub open spec fn lookups(
    a: TermView,
    b: TermView,
    p: PremiseView,
    v: Pending,
    anc: Pending,
    fuel: nat,
) -> Outcome
    decreases fuel, open_pairs(seq![a, b], p, anc) + 1, 2nat, 0nat,
{
    let r1 = match lookup_fact(p.equalities, a) {
        Some(vals) => {
            proof {
                lemma_found_class_within(a, b, vals, b, p, anc);
            }
            try_left(vals, 0, b, p, v, anc, fuel)
        },
        None => (false, v),
    };
    if r1.0 {
        r1
    } else {
        match lookup_fact(p.equalities, b) {
            Some(vals) => {
                proof {
                    lemma_found_class_within(a, b, vals, a, p, anc);
                }
                try_right(a, vals, 0, p, r1.1, anc, fuel)
            },
            None => (false, r1.1),
        }
    }
}

/// A class found for one term of a pair, with a term of the pair, leaves
/// no more pairs open than the pair.
pub proof fn lemma_found_class_within(
    a: TermView,
    b: TermView,
    vals: Seq<TermView>,
    y: TermView,
    p: PremiseView,
    anc: Pending,
)
    requires
        lookup_fact(p.equalities, a) == Some(vals) || lookup_fact(p.equalities, b) == Some(vals),
        y == a || y == b,
    ensures
        open_pairs(vals.push(y), p, anc) <= open_pairs(seq![a, b], p, anc),
{
    lemma_own_pair(a, b, p);
    let t = if lookup_fact(p.equalities, a) == Some(vals) {
        a
    } else {
        b
    };
    lemma_lookup_in_table(p.equalities, t);
    let u = scope(seq![a, b], p);
    assert forall|i: int| 0 <= i < vals.len() implies #[trigger] u.contains(vals[i]) by {
        assert(lookup_fact(p.equalities, t)->0[i] == vals[i]);
        assert(table_terms(p.equalities).contains(vals[i]));
    }
    lemma_push_within(vals, y, seq![a, b], p, anc);
}

/// For each key of the premise from position `k` on, in order: where `a`
/// unifies with the key, a term of its class equals `b`; where the key
/// unifies with `b`, `a` equals a term of its class; then the same two with
/// normalization in place of unification.
pub open spec fn bridge(
    a: TermView,
    b: TermView,
    p: PremiseView,
    v: Pending,
    anc: Pending,
    fuel: nat,
    k: nat,
) -> Outcome
    decreases fuel, open_pairs(seq![a, b], p, anc) + 1, 3nat, p.equalities.len() - k,
{
    if k >= p.equalities.len() {
        (false, v)
    } else {
        let key = p.equalities[k as int].0;
        let vals = p.equalities[k as int].1;
        proof {
            lemma_own_pair(a, b, p);
            lemma_table_in_scope(seq![a, b], p);
            lemma_pair_within(a, key, seq![a, b], p, anc);
            lemma_pair_within(key, b, seq![a, b], p, anc);
            let u = scope(seq![a, b], p);
            assert forall|i: int| 0 <= i < vals.len() implies #[trigger] u.contains(vals[i]) by {
                assert(u.contains(p.equalities[k as int].1[i]));
            }
            lemma_push_within(vals, a, seq![a, b], p, anc);
            lemma_push_within(vals, b, seq![a, b], p, anc);
        }
        let r1 = unify(a, key, p, v, anc, fuel);
        let r2 = if r1.0 {
            try_left(vals, 0, b, p, r1.1, anc, fuel)
        } else {
            r1
        };
        if r2.0 {
            r2
        } else {
            let r3 = unify(key, b, p, r2.1, anc, fuel);
            let r4 = if r3.0 {
                try_right(a, vals, 0, p, r3.1, anc, fuel)
            } else {
                r3
            };
            if r4.0 {
                r4
            } else {
                let r5 = normalize(a, key, p, r4.1, anc, fuel);
                let r6 = if r5.0 {
                    try_left(vals, 0, b, p, r5.1, anc, fuel)
                } else {
                    r5
                };
                if r6.0 {
                    r6
                } else {
                    let r7 = normalize(key, b, p, r6.1, anc, fuel);
                    let r8 = if r7.0 {
                        try_right(a, vals, 0, p, r7.1, anc, fuel)
                    } else {
                        r7
                    };
                    if r8.0 {
                        r8
                    } else {
                        bridge(a, b, p, r8.1, anc, fuel, k + 1)
                    }
                }
            }
        }
    }
}


/// Every term is provably equal to itself, under every premise.
pub proof fn lemma_reflexive(t: TermView, p: PremiseView)
    ensures
        provably_equal(t, t, p),
{
}

/// A premise that asserts no equality and defines no alias.
pub open spec fn is_empty_premise(p: PremiseView) -> bool {
    p.equalities.len() == 0 && p.normalizations.len() == 0
}

/// Under a premise with no facts and no aliases, two terms are provably equal
/// exactly when they are the same term: terms with different symbols, arities
/// or atoms are never equal there.
pub proof fn lemma_empty_premise_is_identity(a: TermView, b: TermView, p: PremiseView)
    requires
        is_empty_premise(p),
    ensures
        provably_equal(a, b, p) == (a == b),
{
    lemma_search_sound(a, b, p, Set::empty(), Set::empty(), EXPANSION_DEPTH as nat);
}

/// Under a premise with no facts and no aliases, equality does not depend on
/// the order of the two terms.
pub proof fn lemma_empty_premise_symmetric(a: TermView, b: TermView, p: PremiseView)
    requires
        is_empty_premise(p),
    ensures
        provably_equal(a, b, p) == provably_equal(b, a, p),
{
    lemma_empty_premise_is_identity(a, b, p);
    lemma_empty_premise_is_identity(b, a, p);
}

/// Every equality that a well-formed premise records is provable, in both
/// directions.
pub proof fn lemma_recorded_fact_provable(a: TermView, b: TermView, p: PremiseView)
    requires
        p.wf(),
        holds(p.equalities, a, b),
    ensures
        provably_equal(a, b, p),
        provably_equal(b, a, p),
{
    lemma_recorded_fact_searched(a, b, p, Set::empty(), Set::empty(), EXPANSION_DEPTH as nat);
    lemma_recorded_fact_searched(b, a, p, Set::empty(), Set::empty(), EXPANSION_DEPTH as nat);
}

/// A recorded equality whose pair is not pending is proven by the search,
/// with any fuel.
pub proof fn lemma_recorded_fact_searched(
    a: TermView,
    b: TermView,
    p: PremiseView,
    v: Pending,
    anc: Pending,
    fuel: nat,
)
    requires
        p.wf(),
        holds(p.equalities, a, b),
        !v.contains((a, b)),
        !anc.contains((a, b)),
    ensures
        search(a, b, p, v, anc, fuel).0,
{
    if a != b {
        let eqs = p.equalities;
        let j = choose|j: int| 0 <= j < eqs.len() && #[trigger] eqs[j].0 == a && eqs[j].1.contains(b);
        lemma_lookup_fact_found(eqs, j);
        let k = choose|k: int| 0 <= k < eqs[j].1.len() && eqs[j].1[k] == b;
        let v1 = v.insert((a, b));
        let anc1 = anc.insert((a, b));
        let r1 = unify(a, b, p, v1, anc1, fuel);
        let r2 = normalize(a, b, p, r1.1, anc1, fuel);
        lemma_try_left_finds(eqs[j].1, 0, k, b, p, r2.1, anc1, fuel);
    }
}

proof fn lemma_lookup_fact_found(eqs: Seq<(TermView, Seq<TermView>)>, j: int)
    requires
        keys_ordered(eqs),
        0 <= j < eqs.len(),
    ensures
        lookup_fact(eqs, eqs[j].0) == Some(eqs[j].1),
    decreases eqs.len(),
{
    if j > 0 {
        lemma_compare_views(eqs[0].0, eqs[j].0);
        let rest = eqs.subrange(1, eqs.len() as int);
        assert(rest[j - 1] == eqs[j]);
        lemma_lookup_fact_found(rest, j - 1);
    }
}

proof fn lemma_try_left_finds(
    vals: Seq<TermView>,
    i: nat,
    k: int,
    b: TermView,
    p: PremiseView,
    v: Pending,
    anc: Pending,
    fuel: nat,
)
    requires
        i <= k < vals.len(),
        vals[k] == b,
    ensures
        try_left(vals, i, b, p, v, anc, fuel).0,
    decreases k - i,
{
    if i < k {
        let r = search(vals[i as int], b, p, v, anc, fuel);
        if !r.0 {
            lemma_try_left_finds(vals, i + 1, k, b, p, r.1, anc, fuel);
        }
    } else {
        assert(vals[i as int] == b);
        assert(search(b, b, p, v, anc, fuel).0);
    }
}

/// An expandable term whose alias the premise defines is provably equal to
/// its expansion, in both directions, wherever an expansion is left and
/// the pair is not pending.
pub proof fn lemma_expansion_searched(
    t: TermView,
    e: TermView,
    p: PremiseView,
    v: Pending,
    anc: Pending,
    fuel: nat,
)
    requires
        expand_view(t, p) == Some(e),
        fuel >= 1,
        !v.contains((t, e)),
        !anc.contains((t, e)),
        !v.contains((e, t)),
        !anc.contains((e, t)),
    ensures
        search(t, e, p, v, anc, fuel).0,
        search(e, t, p, v, anc, fuel).0,
{
    if t != e {
        let r1 = unify(t, e, p, v.insert((t, e)), anc.insert((t, e)), fuel);
        assert(search(e, e, p, r1.1, anc.insert((t, e)), (fuel - 1) as nat).0);
        let r2 = unify(e, t, p, v.insert((e, t)), anc.insert((e, t)), fuel);
        let r3 = match expand_view(e, p) {
            Some(x) => search(x, t, p, r2.1, anc.insert((e, t)), (fuel - 1) as nat),
            None => (false, r2.1),
        };
        assert(search(e, e, p, r3.1, anc.insert((e, t)), (fuel - 1) as nat).0);
    }
}

/// Two different atoms, neither of which is a key of the premise's table,
/// are not proven equal, in either order, under a premise without aliases.
pub proof fn lemma_unrelated_not_equal(a: TermView, b: TermView, p: PremiseView)
    requires
        a != b,
        a matches TermView::Atomic(_),
        b matches TermView::Atomic(_),
        forall|k: int|
            0 <= k < p.equalities.len() ==> #[trigger] p.equalities[k].0 != a
                && p.equalities[k].0 != b,
        p.normalizations.len() == 0,
    ensures
        !provably_equal(a, b, p),
        !provably_equal(b, a, p),
{
    lemma_unrelated_search(a, b, p, Set::empty(), Set::empty(), EXPANSION_DEPTH as nat);
    lemma_unrelated_search(b, a, p, Set::empty(), Set::empty(), EXPANSION_DEPTH as nat);
}

proof fn lemma_no_key(eqs: Seq<(TermView, Seq<TermView>)>, t: TermView)
    requires
        forall|k: int| 0 <= k < eqs.len() ==> #[trigger] eqs[k].0 != t,
    ensures
        lookup_fact(eqs, t) is None,
    decreases eqs.len(),
{
    if eqs.len() > 0 {
        let rest = eqs.subrange(1, eqs.len() as int);
        assert forall|k: int| 0 <= k < rest.len() implies #[trigger] rest[k].0 != t by {
            assert(rest[k] == eqs[k + 1]);
        }
        lemma_no_key(rest, t);
    }
}

proof fn lemma_unrelated_search(
    a: TermView,
    b: TermView,
    p: PremiseView,
    v: Pending,
    anc: Pending,
    fuel: nat,
)
    requires
        a != b,
        a matches TermView::Atomic(_),
        b matches TermView::Atomic(_),
        forall|k: int|
            0 <= k < p.equalities.len() ==> #[trigger] p.equalities[k].0 != a
                && p.equalities[k].0 != b,
        p.normalizations.len() == 0,
    ensures
        !search(a, b, p, v, anc, fuel).0,
{
    if !v.contains((a, b)) && !anc.contains((a, b)) {
        let v1 = v.insert((a, b));
        let anc1 = anc.insert((a, b));
        lemma_no_key(p.equalities, a);
        lemma_no_key(p.equalities, b);
        assert(expand_view(a, p) is None);
        assert(expand_view(b, p) is None);
        lemma_unrelated_bridge(a, b, p, v1, anc1, fuel, 0);
    }
}

proof fn lemma_unrelated_bridge(
    a: TermView,
    b: TermView,
    p: PremiseView,
    v: Pending,
    anc: Pending,
    fuel: nat,
    k: nat,
)
    requires
        a matches TermView::Atomic(_),
        b matches TermView::Atomic(_),
        p.normalizations.len() == 0,
    ensures
        !bridge(a, b, p, v, anc, fuel, k).0,
    decreases p.equalities.len() - k,
{
    if k < p.equalities.len() {
        let key = p.equalities[k as int].0;
        assert(expand_view(key, p) is None);
        assert(expand_view(a, p) is None);
        assert(expand_view(b, p) is None);
        let r1 = unify(a, key, p, v, anc, fuel);
        assert(r1 == (false, v));
        let r3 = unify(key, b, p, v, anc, fuel);
        assert(r3 == (false, v));
        assert(normalize(a, key, p, v, anc, fuel) == (false, v));
        assert(normalize(key, b, p, v, anc, fuel) == (false, v));
        lemma_unrelated_bridge(a, b, p, v, anc, fuel, k + 1);
    }
}

proof fn lemma_search_sound(
    a: TermView,
    b: TermView,
    p: PremiseView,
    v: Pending,
    anc: Pending,
    fuel: nat,
)
    requires
        is_empty_premise(p),
    ensures
        search(a, b, p, v, anc, fuel).0 ==> a == b,
    decreases a, 3nat,
{
    if a != b && !v.contains((a, b)) && !anc.contains((a, b)) {
        lemma_unify_sound(a, b, p, v.insert((a, b)), anc.insert((a, b)), fuel);
        assert(expand_view(a, p) is None);
        assert(expand_view(b, p) is None);
    }
}

proof fn lemma_unify_sound(
    a: TermView,
    b: TermView,
    p: PremiseView,
    v: Pending,
    anc: Pending,
    fuel: nat,
)
    requires
        is_empty_premise(p),
    ensures
        unify(a, b, p, v, anc, fuel).0 ==> a == b,
    decreases a, 1nat,
{
    match (a, b) {
        (TermView::Applied(x, xs), TermView::Applied(y, ys)) => {
            if x == y && xs.len() == ys.len() {
                lemma_unify_args_sound(xs, ys, 0, p, v, anc, fuel);
                if unify(a, b, p, v, anc, fuel).0 {
                    assert(xs =~= ys);
                }
            }
        },
        (TermView::Expandable(x, xs), TermView::Expandable(y, ys)) => {
            if x == y && xs.len() == ys.len() {
                lemma_unify_args_sound(xs, ys, 0, p, v, anc, fuel);
                if unify(a, b, p, v, anc, fuel).0 {
                    assert(xs =~= ys);
                }
            }
        },
        _ => {},
    }
}

proof fn lemma_unify_args_sound(
    xs: Seq<TermView>,
    ys: Seq<TermView>,
    i: nat,
    p: PremiseView,
    v: Pending,
    anc: Pending,
    fuel: nat,
)
    requires
        is_empty_premise(p),
        xs.len() == ys.len(),
    ensures
        unify_args(xs, ys, i, p, v, anc, fuel).0 ==> forall|j: int|
            i <= j < xs.len() ==> xs[j] == ys[j],
    decreases xs, xs.len() - i,
{
    if i < xs.len() {
        let r = search(xs[i as int], ys[i as int], p, v, anc, fuel);
        assert(decreases_to!(xs => xs[i as int]));
        lemma_search_sound(xs[i as int], ys[i as int], p, v, anc, fuel);
        if r.0 {
            lemma_unify_args_sound(xs, ys, i + 1, p, r.1, anc, fuel);
        }
    }
}

/// What the search leaves pending never holds a recorded equality that was
/// not pending before: searched while not pending, such a pair is proven
/// and released.
pub proof fn lemma_keeps_search(
    x: TermView,
    y: TermView,
    p: PremiseView,
    v: Pending,
    anc: Pending,
    fuel: nat,
    fb: TermView,
    fd: TermView,
)
    requires
        p.wf(),
        holds(p.equalities, fb, fd),
        !v.contains((fb, fd)),
    ensures
        !search(x, y, p, v, anc, fuel).1.contains((fb, fd)),
    decreases fuel, open_pairs(seq![x, y], p, anc), 5nat, 0nat,
{
    if x != y && !v.contains((x, y)) && !anc.contains((x, y)) {
        lemma_own_pair(x, y, p);
        lemma_open_pairs_insert(seq![x, y], p, anc, x, y);
        if (x, y) == (fb, fd) {
            lemma_recorded_fact_searched(fb, fd, p, v, anc, fuel);
        } else {
            lemma_keeps_attempts(x, y, p, v.insert((x, y)), anc.insert((x, y)), fuel, fb, fd);
        }
    }
}

proof fn lemma_keeps_attempts(
    x: TermView,
    y: TermView,
    p: PremiseView,
    v: Pending,
    anc: Pending,
    fuel: nat,
    fb: TermView,
    fd: TermView,
)
    requires
        p.wf(),
        holds(p.equalities, fb, fd),
        !v.contains((fb, fd)),
    ensures
        !attempts(x, y, p, v, anc, fuel).1.contains((fb, fd)),
    decreases fuel, open_pairs(seq![x, y], p, anc) + 1, 4nat, 0nat,
{
    lemma_keeps_unify(x, y, p, v, anc, fuel, fb, fd);
    let r1 = unify(x, y, p, v, anc, fuel);
    lemma_keeps_normalize(x, y, p, r1.1, anc, fuel, fb, fd);
    let r2 = normalize(x, y, p, r1.1, anc, fuel);
    lemma_keeps_lookups(x, y, p, r2.1, anc, fuel, fb, fd);
    let r3 = lookups(x, y, p, r2.1, anc, fuel);
    lemma_keeps_bridge(x, y, p, r3.1, anc, fuel, 0, fb, fd);
}

proof fn lemma_keeps_unify(
    x: TermView,
    y: TermView,
    p: PremiseView,
    v: Pending,
    anc: Pending,
    fuel: nat,
    fb: TermView,
    fd: TermView,
)
    requires
        p.wf(),
        holds(p.equalities, fb, fd),
        !v.contains((fb, fd)),
    ensures
        !unify(x, y, p, v, anc, fuel).1.contains((fb, fd)),
    decreases fuel, open_pairs(seq![x, y], p, anc) + 1, 2nat, 0nat,
{
    match (x, y) {
        (TermView::Applied(s1, xs), TermView::Applied(s2, ys)) => {
            if s1 == s2 && xs.len() == ys.len() {
                lemma_arguments_within(x, y, xs, ys, p, anc);
                lemma_keeps_unify_args(xs, ys, 0, p, v, anc, fuel, fb, fd);
            }
        },
        (TermView::Expandable(s1, xs), TermView::Expandable(s2, ys)) => {
            if s1 == s2 && xs.len() == ys.len() {
                lemma_arguments_within(x, y, xs, ys, p, anc);
                lemma_keeps_unify_args(xs, ys, 0, p, v, anc, fuel, fb, fd);
            }
        },
        _ => {},
    }
}

proof fn lemma_keeps_unify_args(
    xs: Seq<TermView>,
    ys: Seq<TermView>,
    i: nat,
    p: PremiseView,
    v: Pending,
    anc: Pending,
    fuel: nat,
    fb: TermView,
    fd: TermView,
)
    requires
        p.wf(),
        holds(p.equalities, fb, fd),
        !v.contains((fb, fd)),
    ensures
        !unify_args(xs, ys, i, p, v, anc, fuel).1.contains((fb, fd)),
    decreases fuel, open_pairs(xs + ys, p, anc) + 1, 1nat, xs.len() - i,
{
    if i < xs.len() && i < ys.len() {
        let q = xs + ys;
        lemma_in_own_scope(q, p);
        assert(q[i as int] == xs[i as int]);
        assert(q[xs.len() + i as int] == ys[i as int]);
        lemma_pair_within(xs[i as int], ys[i as int], q, p, anc);
        lemma_keeps_search(xs[i as int], ys[i as int], p, v, anc, fuel, fb, fd);
        let r = search(xs[i as int], ys[i as int], p, v, anc, fuel);
        if r.0 {
            lemma_keeps_unify_args(xs, ys, i + 1, p, r.1, anc, fuel, fb, fd);
        }
    }
}

proof fn lemma_keeps_normalize(
    x: TermView,
    y: TermView,
    p: PremiseView,
    v: Pending,
    anc: Pending,
    fuel: nat,
    fb: TermView,
    fd: TermView,
)
    requires
        p.wf(),
        holds(p.equalities, fb, fd),
        !v.contains((fb, fd)),
    ensures
        !normalize(x, y, p, v, anc, fuel).1.contains((fb, fd)),
    decreases fuel, open_pairs(seq![x, y], p, anc) + 1, 1nat, 0nat,
{
    if fuel > 0 {
        let f = (fuel - 1) as nat;
        let r1 = match expand_view(x, p) {
            Some(e) => search(e, y, p, v, anc, f),
            None => (false, v),
        };
        if let Some(e) = expand_view(x, p) {
            lemma_keeps_search(e, y, p, v, anc, f, fb, fd);
        }
        if let Some(e) = expand_view(y, p) {
            lemma_keeps_search(x, e, p, r1.1, anc, f, fb, fd);
        }
    }
}

proof fn lemma_keeps_try_left(
    vals: Seq<TermView>,
    i: nat,
    y: TermView,
    p: PremiseView,
    v: Pending,
    anc: Pending,
    fuel: nat,
    fb: TermView,
    fd: TermView,
)
    requires
        p.wf(),
        holds(p.equalities, fb, fd),
        !v.contains((fb, fd)),
    ensures
        !try_left(vals, i, y, p, v, anc, fuel).1.contains((fb, fd)),
    decreases fuel, open_pairs(vals.push(y), p, anc) + 1, 1nat, vals.len() - i,
{
    if i < vals.len() {
        let q = vals.push(y);
        lemma_in_own_scope(q, p);
        assert(q[i as int] == vals[i as int]);
        assert(q[vals.len() as int] == y);
        lemma_pair_within(vals[i as int], y, q, p, anc);
        lemma_keeps_search(vals[i as int], y, p, v, anc, fuel, fb, fd);
        let r = search(vals[i as int], y, p, v, anc, fuel);
        if !r.0 {
            lemma_keeps_try_left(vals, i + 1, y, p, r.1, anc, fuel, fb, fd);
        }
    }
}

proof fn lemma_keeps_try_right(
    x: TermView,
    vals: Seq<TermView>,
    i: nat,
    p: PremiseView,
    v: Pending,
    anc: Pending,
    fuel: nat,
    fb: TermView,
    fd: TermView,
)
    requires
        p.wf(),
        holds(p.equalities, fb, fd),
        !v.contains((fb, fd)),
    ensures
        !try_right(x, vals, i, p, v, anc, fuel).1.contains((fb, fd)),
    decreases fuel, open_pairs(vals.push(x), p, anc) + 1, 1nat, vals.len() - i,
{
    if i < vals.len() {
        let q = vals.push(x);
        lemma_in_own_scope(q, p);
        assert(q[i as int] == vals[i as int]);
        assert(q[vals.len() as int] == x);
        lemma_pair_within(x, vals[i as int], q, p, anc);
        lemma_keeps_search(x, vals[i as int], p, v, anc, fuel, fb, fd);
        let r = search(x, vals[i as int], p, v, anc, fuel);
        if !r.0 {
            lemma_keeps_try_right(x, vals, i + 1, p, r.1, anc, fuel, fb, fd);
        }
    }
}

proof fn lemma_keeps_lookups(
    x: TermView,
    y: TermView,
    p: PremiseView,
    v: Pending,
    anc: Pending,
    fuel: nat,
    fb: TermView,
    fd: TermView,
)
    requires
        p.wf(),
        holds(p.equalities, fb, fd),
        !v.contains((fb, fd)),
    ensures
        !lookups(x, y, p, v, anc, fuel).1.contains((fb, fd)),
    decreases fuel, open_pairs(seq![x, y], p, anc) + 1, 2nat, 0nat,
{
    let r1 = match lookup_fact(p.equalities, x) {
        Some(vals) => try_left(vals, 0, y, p, v, anc, fuel),
        None => (false, v),
    };
    if let Some(vals) = lookup_fact(p.equalities, x) {
        lemma_found_class_within(x, y, vals, y, p, anc);
        lemma_keeps_try_left(vals, 0, y, p, v, anc, fuel, fb, fd);
    }
    if let Some(vals) = lookup_fact(p.equalities, y) {
        lemma_found_class_within(x, y, vals, x, p, anc);
        lemma_keeps_try_right(x, vals, 0, p, r1.1, anc, fuel, fb, fd);
    }
}

proof fn lemma_keeps_bridge(
    x: TermView,
    y: TermView,
    p: PremiseView,
    v: Pending,
    anc: Pending,
    fuel: nat,
    k: nat,
    fb: TermView,
    fd: TermView,
)
    requires
        p.wf(),
        holds(p.equalities, fb, fd),
        !v.contains((fb, fd)),
    ensures
        !bridge(x, y, p, v, anc, fuel, k).1.contains((fb, fd)),
    decreases fuel, open_pairs(seq![x, y], p, anc) + 1, 3nat, p.equalities.len() - k,
{
    if k < p.equalities.len() {
        let key = p.equalities[k as int].0;
        let vals = p.equalities[k as int].1;
        lemma_own_pair(x, y, p);
        lemma_table_in_scope(seq![x, y], p);
        lemma_pair_within(x, key, seq![x, y], p, anc);
        lemma_pair_within(key, y, seq![x, y], p, anc);
        let u = scope(seq![x, y], p);
        assert forall|i: int| 0 <= i < vals.len() implies #[trigger] u.contains(vals[i]) by {
            assert(u.contains(p.equalities[k as int].1[i]));
        }
        lemma_push_within(vals, x, seq![x, y], p, anc);
        lemma_push_within(vals, y, seq![x, y], p, anc);
        let r1 = unify(x, key, p, v, anc, fuel);
        lemma_keeps_unify(x, key, p, v, anc, fuel, fb, fd);
        let r2 = if r1.0 {
            try_left(vals, 0, y, p, r1.1, anc, fuel)
        } else {
            r1
        };
        if r1.0 {
            lemma_keeps_try_left(vals, 0, y, p, r1.1, anc, fuel, fb, fd);
        }
        let r3 = unify(key, y, p, r2.1, anc, fuel);
        lemma_keeps_unify(key, y, p, r2.1, anc, fuel, fb, fd);
        let r4 = if r3.0 {
            try_right(x, vals, 0, p, r3.1, anc, fuel)
        } else {
            r3
        };
        if r3.0 {
            lemma_keeps_try_right(x, vals, 0, p, r3.1, anc, fuel, fb, fd);
        }
        let r5 = normalize(x, key, p, r4.1, anc, fuel);
        lemma_keeps_normalize(x, key, p, r4.1, anc, fuel, fb, fd);
        let r6 = if r5.0 {
            try_left(vals, 0, y, p, r5.1, anc, fuel)
        } else {
            r5
        };
        if r5.0 {
            lemma_keeps_try_left(vals, 0, y, p, r5.1, anc, fuel, fb, fd);
        }
        let r7 = normalize(key, y, p, r6.1, anc, fuel);
        lemma_keeps_normalize(key, y, p, r6.1, anc, fuel, fb, fd);
        let r8 = if r7.0 {
            try_right(x, vals, 0, p, r7.1, anc, fuel)
        } else {
            r7
        };
        if r7.0 {
            lemma_keeps_try_right(x, vals, 0, p, r7.1, anc, fuel, fb, fd);
        }
        lemma_keeps_bridge(x, y, p, r8.1, anc, fuel, k + 1, fb, fd);
    }
}

/// Congruence: two applications of one symbol whose arguments are, position
/// by position, the same term or recorded as equal by a well-formed premise
/// are provably equal, in both directions.
pub proof fn lemma_congruence(s: u64, xs: Seq<TermView>, ys: Seq<TermView>, p: PremiseView)
    requires
        p.wf(),
        xs.len() == ys.len(),
        forall|i: int| 0 <= i < xs.len() ==> xs[i] == ys[i] || holds(p.equalities, xs[i], ys[i]),
    ensures
        provably_equal(TermView::Applied(s, xs), TermView::Applied(s, ys), p),
        provably_equal(TermView::Applied(s, ys), TermView::Applied(s, xs), p),
{
    assert forall|i: int| 0 <= i < ys.len() implies ys[i] == xs[i] || holds(
        p.equalities,
        ys[i],
        xs[i],
    ) by {
        if ys[i] != xs[i] {
            assert(holds(p.equalities, xs[i], ys[i]));
        }
    }
    lemma_congruence_searched(s, xs, ys, p);
    lemma_congruence_searched(s, ys, xs, p);
}

proof fn lemma_congruence_searched(s: u64, xs: Seq<TermView>, ys: Seq<TermView>, p: PremiseView)
    requires
        p.wf(),
        xs.len() == ys.len(),
        forall|i: int| 0 <= i < xs.len() ==> xs[i] == ys[i] || holds(p.equalities, xs[i], ys[i]),
    ensures
        provably_equal(TermView::Applied(s, xs), TermView::Applied(s, ys), p),
{
    let a = TermView::Applied(s, xs);
    let b = TermView::Applied(s, ys);
    if a != b {
        let v = Set::<(TermView, TermView)>::empty().insert((a, b));
        assert forall|k: int| 0 <= k < xs.len() implies #[trigger] xs[k] != a by {
            lemma_argument_differs(a, k);
        }
        lemma_congruent_arguments(xs, ys, 0, p, v, v, EXPANSION_DEPTH as nat);
    }
}

/// No application is one of its own arguments.
proof fn lemma_argument_differs(t: TermView, k: int)
    requires
        t matches TermView::Applied(_, xs) && 0 <= k < xs.len(),
    ensures
        t->Applied_1[k] != t,
    decreases t,
{
    if let TermView::Applied(_, xs) = t {
        if xs[k] == t {
            lemma_argument_differs(xs[k], k);
        }
    }
}

proof fn lemma_congruent_arguments(
    xs: Seq<TermView>,
    ys: Seq<TermView>,
    i: nat,
    p: PremiseView,
    v: Pending,
    anc: Pending,
    fuel: nat,
)
    requires
        p.wf(),
        xs.len() == ys.len(),
        forall|k: int| 0 <= k < xs.len() ==> xs[k] == ys[k] || holds(p.equalities, xs[k], ys[k]),
        forall|k: int|
            i <= k < xs.len() && xs[k] != ys[k] ==> !v.contains((xs[k], ys[k])) && !anc.contains(
                (xs[k], ys[k]),
            ),
    ensures
        unify_args(xs, ys, i, p, v, anc, fuel).0,
    decreases xs.len() - i,
{
    if i < xs.len() {
        let x = xs[i as int];
        let y = ys[i as int];
        if x != y {
            lemma_recorded_fact_searched(x, y, p, v, anc, fuel);
        }
        let r = search(x, y, p, v, anc, fuel);
        assert forall|k: int|
            i + 1 <= k < xs.len() && xs[k] != ys[k] implies !r.1.contains((xs[k], ys[k]))
            && !anc.contains((xs[k], ys[k])) by {
            lemma_keeps_search(x, y, p, v, anc, fuel, xs[k], ys[k]);
        }
        lemma_congruent_arguments(xs, ys, i + 1, p, r.1, anc, fuel);
    }
}

fn expand(t: &Term, premise: &Premise) -> (r: Option<Term>)
    ensures
        option_view(r) == expand_view(t@, premise@),
{
    match t {
        Term::Normalizable(n) => match premise.get_normalization(&n.symbol) {
            Some(definition) => definition.equivalence(n.arguments.as_slice()),
            None => None,
        },
        _ => None,
    }
}

fn dfs(
    a: &Term,
    b: &Term,
    premise: &Premise,
    visited: &mut InProgress,
    anc: Ghost<Pending>,
    fuel: u64,
) -> (r: bool)
    requires
        old(visited).wf(),
        anc@.subset_of(old(visited)@),
    ensures
        final(visited).wf(),
        old(visited)@.subset_of(final(visited)@),
        (r, final(visited)@) == search(a@, b@, premise@, old(visited)@, anc@, fuel as nat),
        a@ != b@ ==> (r == !final(visited)@.contains((a@, b@))),
    decreases fuel, open_pairs(seq![a@, b@], premise@, anc@), 5nat, 0nat,
{
    if a.same(b) {
        return true;
    }
    if !visited.insert(a, b) {
        return false;
    }
    proof {
        lemma_own_pair(a@, b@, premise@);
        lemma_open_pairs_insert(seq![a@, b@], premise@, anc@, a@, b@);
    }
    let r = try_all(a, b, premise, visited, Ghost(anc@.insert((a@, b@))), fuel);
    if r {
        visited.remove(a, b);
    }
    r
}

fn try_all(
    a: &Term,
    b: &Term,
    premise: &Premise,
    visited: &mut InProgress,
    anc: Ghost<Pending>,
    fuel: u64,
) -> (r: bool)
    requires
        old(visited).wf(),
        anc@.subset_of(old(visited)@),
    ensures
        final(visited).wf(),
        old(visited)@.subset_of(final(visited)@),
        (r, final(visited)@) == attempts(a@, b@, premise@, old(visited)@, anc@, fuel as nat),
    decreases fuel, open_pairs(seq![a@, b@], premise@, anc@) + 1, 4nat, 0nat,
{
    if by_unification(a, b, premise, visited, anc, fuel) {
        return true;
    }
    if by_normalization(a, b, premise, visited, anc, fuel) {
        return true;
    }
    if by_lookup(a, b, premise, visited, anc, fuel) {
        return true;
    }
    by_bridging(a, b, premise, visited, anc, fuel)
}

fn by_unification(
    a: &Term,
    b: &Term,
    premise: &Premise,
    visited: &mut InProgress,
    anc: Ghost<Pending>,
    fuel: u64,
) -> (r: bool)
    requires
        old(visited).wf(),
        anc@.subset_of(old(visited)@),
    ensures
        final(visited).wf(),
        old(visited)@.subset_of(final(visited)@),
        (r, final(visited)@) == unify(a@, b@, premise@, old(visited)@, anc@, fuel as nat),
    decreases fuel, open_pairs(seq![a@, b@], premise@, anc@) + 1, 2nat, 0nat,
{
    match (a, b) {
        (Term::Function(f), Term::Function(g)) => {
            proof {
                lemma_views_of(f.arguments@);
                lemma_views_of(g.arguments@);
            }
            if f.symbol == g.symbol && f.arguments.len() == g.arguments.len() {
                proof {
                    lemma_arguments_within(
                        a@,
                        b@,
                        views_of(f.arguments@),
                        views_of(g.arguments@),
                        premise@,
                        anc@,
                    );
                }
                unify_arguments(&f.arguments, &g.arguments, premise, visited, anc, fuel)
            } else {
                false
            }
        },
        (Term::Normalizable(f), Term::Normalizable(g)) => {
            proof {
                lemma_views_of(f.arguments@);
                lemma_views_of(g.arguments@);
            }
            if f.symbol == g.symbol && f.arguments.len() == g.arguments.len() {
                proof {
                    lemma_arguments_within(
                        a@,
                        b@,
                        views_of(f.arguments@),
                        views_of(g.arguments@),
                        premise@,
                        anc@,
                    );
                }
                unify_arguments(&f.arguments, &g.arguments, premise, visited, anc, fuel)
            } else {
                false
            }
        },
        _ => false,
    }
}

fn unify_arguments(
    xs: &Vec<Term>,
    ys: &Vec<Term>,
    premise: &Premise,
    visited: &mut InProgress,
    anc: Ghost<Pending>,
    fuel: u64,
) -> (r: bool)
    requires
        old(visited).wf(),
        anc@.subset_of(old(visited)@),
        xs.len() == ys.len(),
    ensures
        final(visited).wf(),
        old(visited)@.subset_of(final(visited)@),
        (r, final(visited)@) == unify_args(
            views_of(xs@),
            views_of(ys@),
            0,
            premise@,
            old(visited)@,
            anc@,
            fuel as nat,
        ),
    decreases fuel, open_pairs(views_of(xs@) + views_of(ys@), premise@, anc@) + 1, 1nat, 0nat,
{
    let ghost vx = views_of(xs@);
    let ghost vy = views_of(ys@);
    let ghost goal = unify_args(vx, vy, 0, premise@, visited@, anc@, fuel as nat);
    proof {
        lemma_views_of(xs@);
        lemma_views_of(ys@);
        lemma_in_own_scope(vx + vy, premise@);
    }
    let mut i: usize = 0;
    while i < xs.len()
        invariant
            i <= xs.len(),
            xs.len() == ys.len(),
            vx == views_of(xs@),
            vy == views_of(ys@),
            vx.len() == xs.len(),
            vy.len() == ys.len(),
            forall|j: int| 0 <= j < xs.len() ==> #[trigger] vx[j] == xs@[j]@,
            forall|j: int| 0 <= j < ys.len() ==> #[trigger] vy[j] == ys@[j]@,
            forall|j: int| 0 <= j < (vx + vy).len() ==> #[trigger] scope(vx + vy, premise@).contains((vx + vy)[j]),
            visited.wf(),
            anc@.subset_of(visited@),
            old(visited)@.subset_of(visited@),
            goal == unify_args(vx, vy, 0, premise@, old(visited)@, anc@, fuel as nat),
            goal == unify_args(vx, vy, i as nat, premise@, visited@, anc@, fuel as nat),
        decreases xs.len() - i,
    {
        proof {
            let q = vx + vy;
            assert(q[i as int] == vx[i as int]);
            assert(q[vx.len() + i as int] == vy[i as int]);
            lemma_pair_within(vx[i as int], vy[i as int], q, premise@, anc@);
        }
        if !dfs(&xs[i], &ys[i], premise, visited, anc, fuel) {
            return false;
        }
        i += 1;
    }
    true
}

fn by_normalization(
    a: &Term,
    b: &Term,
    premise: &Premise,
    visited: &mut InProgress,
    anc: Ghost<Pending>,
    fuel: u64,
) -> (r: bool)
    requires
        old(visited).wf(),
        anc@.subset_of(old(visited)@),
    ensures
        final(visited).wf(),
        old(visited)@.subset_of(final(visited)@),
        (r, final(visited)@) == normalize(a@, b@, premise@, old(visited)@, anc@, fuel as nat),
    decreases fuel, open_pairs(seq![a@, b@], premise@, anc@) + 1, 1nat, 0nat,
{
    if fuel == 0 {
        return false;
    }
    let left = match expand(a, premise) {
        Some(e) => dfs(&e, b, premise, visited, anc, fuel - 1),
        None => false,
    };
    if left {
        return true;
    }
    match expand(b, premise) {
        Some(e) => dfs(a, &e, premise, visited, anc, fuel - 1),
        None => false,
    }
}

fn any_equals_right(
    vals: &Vec<Term>,
    b: &Term,
    premise: &Premise,
    visited: &mut InProgress,
    anc: Ghost<Pending>,
    fuel: u64,
) -> (r: bool)
    requires
        old(visited).wf(),
        anc@.subset_of(old(visited)@),
    ensures
        final(visited).wf(),
        old(visited)@.subset_of(final(visited)@),
        (r, final(visited)@) == try_left(
            views_of(vals@),
            0,
            b@,
            premise@,
            old(visited)@,
            anc@,
            fuel as nat,
        ),
    decreases fuel, open_pairs(views_of(vals@).push(b@), premise@, anc@) + 1, 1nat, 0nat,
{
    let ghost vs = views_of(vals@);
    let ghost q = vs.push(b@);
    let ghost goal = try_left(vs, 0, b@, premise@, visited@, anc@, fuel as nat);
    proof {
        lemma_views_of(vals@);
        lemma_in_own_scope(q, premise@);
    }
    let mut i: usize = 0;
    while i < vals.len()
        invariant
            i <= vals.len(),
            vs == views_of(vals@),
            q == vs.push(b@),
            vs.len() == vals.len(),
            forall|j: int| 0 <= j < vals.len() ==> #[trigger] vs[j] == vals@[j]@,
            forall|j: int| 0 <= j < q.len() ==> #[trigger] scope(q, premise@).contains(q[j]),
            visited.wf(),
            anc@.subset_of(visited@),
            old(visited)@.subset_of(visited@),
            goal == try_left(vs, 0, b@, premise@, old(visited)@, anc@, fuel as nat),
            goal == try_left(vs, i as nat, b@, premise@, visited@, anc@, fuel as nat),
        decreases vals.len() - i,
    {
        proof {
            assert(q[i as int] == vs[i as int]);
            assert(q[vs.len() as int] == b@);
            lemma_pair_within(vs[i as int], b@, q, premise@, anc@);
        }
        if dfs(&vals[i], b, premise, visited, anc, fuel) {
            return true;
        }
        i += 1;
    }
    false
}

fn left_equals_any(
    a: &Term,
    vals: &Vec<Term>,
    premise: &Premise,
    visited: &mut InProgress,
    anc: Ghost<Pending>,
    fuel: u64,
) -> (r: bool)
    requires
        old(visited).wf(),
        anc@.subset_of(old(visited)@),
    ensures
        final(visited).wf(),
        old(visited)@.subset_of(final(visited)@),
        (r, final(visited)@) == try_right(
            a@,
            views_of(vals@),
            0,
            premise@,
            old(visited)@,
            anc@,
            fuel as nat,
        ),
    decreases fuel, open_pairs(views_of(vals@).push(a@), premise@, anc@) + 1, 1nat, 0nat,
{
    let ghost vs = views_of(vals@);
    let ghost q = vs.push(a@);
    let ghost goal = try_right(a@, vs, 0, premise@, visited@, anc@, fuel as nat);
    proof {
        lemma_views_of(vals@);
        lemma_in_own_scope(q, premise@);
    }
    let mut i: usize = 0;
    while i < vals.len()
        invariant
            i <= vals.len(),
            vs == views_of(vals@),
            q == vs.push(a@),
            vs.len() == vals.len(),
            forall|j: int| 0 <= j < vals.len() ==> #[trigger] vs[j] == vals@[j]@,
            forall|j: int| 0 <= j < q.len() ==> #[trigger] scope(q, premise@).contains(q[j]),
            visited.wf(),
            anc@.subset_of(visited@),
            old(visited)@.subset_of(visited@),
            goal == try_right(a@, vs, 0, premise@, old(visited)@, anc@, fuel as nat),
            goal == try_right(a@, vs, i as nat, premise@, visited@, anc@, fuel as nat),
        decreases vals.len() - i,
    {
        proof {
            assert(q[i as int] == vs[i as int]);
            assert(q[vs.len() as int] == a@);
            lemma_pair_within(a@, vs[i as int], q, premise@, anc@);
        }
        if dfs(a, &vals[i], premise, visited, anc, fuel) {
            return true;
        }
        i += 1;
    }
    false
}

fn by_lookup(
    a: &Term,
    b: &Term,
    premise: &Premise,
    visited: &mut InProgress,
    anc: Ghost<Pending>,
    fuel: u64,
) -> (r: bool)
    requires
        old(visited).wf(),
        anc@.subset_of(old(visited)@),
    ensures
        final(visited).wf(),
        old(visited)@.subset_of(final(visited)@),
        (r, final(visited)@) == lookups(a@, b@, premise@, old(visited)@, anc@, fuel as nat),
    decreases fuel, open_pairs(seq![a@, b@], premise@, anc@) + 1, 2nat, 0nat,
{
    let eqs = premise.equalities();
    let left = match find_class(eqs, a) {
        Some(i) => {
            proof {
                lemma_found_class_within(a@, b@, views_of(eqs@[i as int].1@), b@, premise@, anc@);
            }
            any_equals_right(&eqs[i].1, b, premise, visited, anc, fuel)
        },
        None => false,
    };
    if left {
        return true;
    }
    match find_class(eqs, b) {
        Some(i) => {
            proof {
                lemma_found_class_within(a@, b@, views_of(eqs@[i as int].1@), a@, premise@, anc@);
            }
            left_equals_any(a, &eqs[i].1, premise, visited, anc, fuel)
        },
        None => false,
    }
}

fn by_bridging(
    a: &Term,
    b: &Term,
    premise: &Premise,
    visited: &mut InProgress,
    anc: Ghost<Pending>,
    fuel: u64,
) -> (r: bool)
    requires
        old(visited).wf(),
        anc@.subset_of(old(visited)@),
    ensures
        final(visited).wf(),
        old(visited)@.subset_of(final(visited)@),
        (r, final(visited)@) == bridge(a@, b@, premise@, old(visited)@, anc@, fuel as nat, 0),
    decreases fuel, open_pairs(seq![a@, b@], premise@, anc@) + 1, 3nat, 0nat,
{
    let eqs = premise.equalities();
    let ghost goal = bridge(a@, b@, premise@, visited@, anc@, fuel as nat, 0);
    let ghost s = seq![a@, b@];
    proof {
        lemma_own_pair(a@, b@, premise@);
        lemma_table_in_scope(s, premise@);
    }
    let mut k: usize = 0;
    while k < eqs.len()
        invariant
            k <= eqs.len(),
            s == seq![a@, b@],
            entries_view(eqs@) == premise@.equalities,
            scope(s, premise@).contains(a@),
            scope(s, premise@).contains(b@),
            forall|j: int|
                0 <= j < premise@.equalities.len() ==> #[trigger] scope(s, premise@).contains(
                    premise@.equalities[j].0,
                ),
            forall|j: int, i: int|
                0 <= j < premise@.equalities.len() && 0 <= i < premise@.equalities[j].1.len()
                    ==> #[trigger] scope(s, premise@).contains(
                    #[trigger] premise@.equalities[j].1[i],
                ),
            visited.wf(),
            anc@.subset_of(visited@),
            old(visited)@.subset_of(visited@),
            goal == bridge(a@, b@, premise@, old(visited)@, anc@, fuel as nat, 0),
            goal == bridge(a@, b@, premise@, visited@, anc@, fuel as nat, k as nat),
        decreases eqs.len() - k,
    {
        let key = &eqs[k].0;
        let vals = &eqs[k].1;
        proof {
            let vs = views_of(vals@);
            assert(premise@.equalities[k as int] == (key@, vs));
            lemma_pair_within(a@, key@, s, premise@, anc@);
            lemma_pair_within(key@, b@, s, premise@, anc@);
            let u = scope(s, premise@);
            assert forall|i: int| 0 <= i < vs.len() implies #[trigger] u.contains(vs[i]) by {
                assert(u.contains(premise@.equalities[k as int].1[i]));
            }
            lemma_push_within(vs, a@, s, premise@, anc@);
            lemma_push_within(vs, b@, s, premise@, anc@);
        }
        if by_unification(a, key, premise, visited, anc, fuel) {
            if any_equals_right(vals, b, premise, visited, anc, fuel) {
                return true;
            }
        }
        if by_unification(key, b, premise, visited, anc, fuel) {
            if left_equals_any(a, vals, premise, visited, anc, fuel) {
                return true;
            }
        }
        if by_normalization(a, key, premise, visited, anc, fuel) {
            if any_equals_right(vals, b, premise, visited, anc, fuel) {
                return true;
            }
        }
        if by_normalization(key, b, premise, visited, anc, fuel) {
            if left_equals_any(a, vals, premise, visited, anc, fuel) {
                return true;
            }
        }
        k += 1;
    }
    false
}

/// Determines if two terms are equal under the premise.
///
/// Alias expansions nest at most `EXPANSION_DEPTH` deep: an expansion that
/// would go deeper counts as unproven, so the answer is always given.
pub fn equals(term1: &Term, term2: &Term, premise: &Premise) -> (r: bool)
    ensures
        r == provably_equal(term1@, term2@, premise@),
{
    let mut visited = InProgress::new();
    dfs(term1, term2, premise, &mut visited, Ghost(Set::empty()), EXPANSION_DEPTH)
}

} // verus!
