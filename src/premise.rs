use vstd::prelude::*;

use crate::substitution::{occurs, occurs_below, subst};
use crate::term::{
    compare_views, lemma_compare_transitive, lemma_compare_views, lemma_views_of, views_of, Term,
    TermView,
};

verus! {

broadcast use lemma_views_of;

/// An alias definition, similar to a `type` alias of a programming language:
/// the alias applied to `parameters` stands for `equivalence`.
#[derive(Clone, Debug, PartialEq, Eq)]
pub struct Normalization {
    /// The parameters of the normalization.
    pub parameters: Vec<u64>,
    /// The equivalence of the normalization.
    pub equivalence: Term,
}

/// The mathematical value of an alias definition.
pub struct NormalizationView {
    pub parameters: Seq<u64>,
    pub equivalence: TermView,
}

impl Normalization {
    pub open spec fn view(&self) -> NormalizationView {
        NormalizationView { parameters: self.parameters@, equivalence: self.equivalence@ }
    }
}

/// Substitutes `args[i]` for the atom `params[i]` in `t`, one parameter after
/// the other from position `i` on. Where a parameter's atom occurs both in
/// the term so far and below the root of its own argument, the replacement
/// would never end, and there is no expansion.
pub open spec fn instantiate(t: TermView, params: Seq<u64>, args: Seq<TermView>, i: nat) -> Option<
    TermView,
>
    decreases params.len() - i,
{
    if i >= params.len() || i >= args.len() {
        Some(t)
    } else {
        let from = TermView::Atomic(params[i as int]);
        if occurs_below(from, args[i as int]) {
            if occurs(from, t) {
                None
            } else {
                instantiate(t, params, args, i + 1)
            }
        } else {
            instantiate(subst(t, from, args[i as int]), params, args, i + 1)
        }
    }
}

/// The expansion of an alias definition applied to `args`: none where the
/// number of arguments differs from the number of parameters.
pub open spec fn expansion(n: NormalizationView, args: Seq<TermView>) -> Option<TermView> {
    if n.parameters.len() != args.len() {
        None
    } else {
        instantiate(n.equivalence, n.parameters, args, 0)
    }
}

pub open spec fn option_view(t: Option<Term>) -> Option<TermView> {
    match t {
        Some(t) => Some(t@),
        None => None,
    }
}

impl Normalization {
    /// The term that the alias applied to `arguments` stands for.
    pub fn equivalence(&self, arguments: &[Term]) -> (r: Option<Term>)
        ensures
            option_view(r) == expansion(self@, views_of(arguments@)),
    {
        if self.parameters.len() != arguments.len() {
            return None;
        }
        let ghost args = views_of(arguments@);
        let mut equivalence = self.equivalence.copy();
        let mut i: usize = 0;
        while i < self.parameters.len()
            invariant
                i <= self.parameters.len(),
                self.parameters.len() == arguments.len(),
                args == views_of(arguments@),
                instantiate(self.equivalence@, self.parameters@, args, 0) == instantiate(
                    equivalence@,
                    self.parameters@,
                    args,
                    i as nat,
                ),
            decreases self.parameters.len() - i,
        {
            let from = Term::Literal(self.parameters[i]);
            let to = &arguments[i];
            if to.contains_below(&from) {
                if equivalence.contains(&from) {
                    return None;
                }
            } else {
                equivalence.apply(&from, to);
            }
            i += 1;
        }
        Some(equivalence)
    }
}

/// Inserts `x` into the ordered sequence `s`, unless it is there already.
pub open spec fn add_member(s: Seq<TermView>, x: TermView) -> Seq<TermView>
    decreases s.len(),
{
    if s.len() == 0 {
        seq![x]
    } else {
        let c = compare_views(s[0], x);
        if c < 0 {
            seq![s[0]] + add_member(s.subrange(1, s.len() as int), x)
        } else if c == 0 {
            s
        } else {
            seq![x] + s
        }
    }
}

/// Adds `member` to the class of `key` in the table `eqs`, ordered by key; a
/// key not in the table comes in with `member` alone.
pub open spec fn add_fact(eqs: Seq<(TermView, Seq<TermView>)>, key: TermView, member: TermView) -> Seq<
    (TermView, Seq<TermView>),
>
    decreases eqs.len(),
{
    if eqs.len() == 0 {
        seq![(key, seq![member])]
    } else {
        let c = compare_views(eqs[0].0, key);
        if c < 0 {
            seq![eqs[0]] + add_fact(eqs.subrange(1, eqs.len() as int), key, member)
        } else if c == 0 {
            seq![(eqs[0].0, add_member(eqs[0].1, member))] + eqs.subrange(1, eqs.len() as int)
        } else {
            seq![(key, seq![member])] + eqs
        }
    }
}

/// The terms asserted equal to `t` in the table `eqs`, if it has `t` as a key.
pub open spec fn lookup_fact(eqs: Seq<(TermView, Seq<TermView>)>, t: TermView) -> Option<
    Seq<TermView>,
>
    decreases eqs.len(),
{
    if eqs.len() == 0 {
        None
    } else if eqs[0].0 == t {
        Some(eqs[0].1)
    } else {
        lookup_fact(eqs.subrange(1, eqs.len() as int), t)
    }
}

/// The alias definition registered for `symbol` in `norms`, if any.
pub open spec fn lookup_normalization(norms: Seq<(u64, NormalizationView)>, symbol: u64) -> Option<
    NormalizationView,
>
    decreases norms.len(),
{
    if norms.len() == 0 {
        None
    } else if norms[0].0 == symbol {
        Some(norms[0].1)
    } else {
        lookup_normalization(norms.subrange(1, norms.len() as int), symbol)
    }
}

proof fn lemma_add_member_split(s: Seq<TermView>, x: TermView, i: int)
    requires
        0 <= i <= s.len(),
        forall|j: int| 0 <= j < i ==> compare_views(#[trigger] s[j], x) < 0,
    ensures
        add_member(s, x) == s.subrange(0, i) + add_member(s.subrange(i, s.len() as int), x),
    decreases i,
{
    if i == 0 {
        assert(s.subrange(0, 0) + s.subrange(0, s.len() as int) =~= s);
        assert(s.subrange(0, s.len() as int) =~= s);
    } else {
        let rest = s.subrange(1, s.len() as int);
        lemma_add_member_split(rest, x, i - 1);
        assert(rest.subrange(i - 1, rest.len() as int) =~= s.subrange(i, s.len() as int));
        assert(s.subrange(0, i) =~= seq![s[0]] + rest.subrange(0, i - 1));
    }
}

proof fn lemma_add_fact_split(eqs: Seq<(TermView, Seq<TermView>)>, key: TermView, member: TermView, i: int)
    requires
        0 <= i <= eqs.len(),
        forall|j: int| 0 <= j < i ==> compare_views(#[trigger] eqs[j].0, key) < 0,
    ensures
        add_fact(eqs, key, member) == eqs.subrange(0, i) + add_fact(
            eqs.subrange(i, eqs.len() as int),
            key,
            member,
        ),
    decreases i,
{
    if i == 0 {
        assert(eqs.subrange(0, 0) + eqs.subrange(0, eqs.len() as int) =~= eqs);
        assert(eqs.subrange(0, eqs.len() as int) =~= eqs);
    } else {
        let rest = eqs.subrange(1, eqs.len() as int);
        lemma_add_fact_split(rest, key, member, i - 1);
        assert(rest.subrange(i - 1, rest.len() as int) =~= eqs.subrange(i, eqs.len() as int));
        assert(eqs.subrange(0, i) =~= seq![eqs[0]] + rest.subrange(0, i - 1));
    }
}

/// The terms of `s` are in strictly increasing order.
pub open spec fn ordered(s: Seq<TermView>) -> bool {
    forall|i: int, j: int|
        0 <= i < j < s.len() ==> compare_views(#[trigger] s[i], #[trigger] s[j]) < 0
}

/// The keys of the table `eqs` are in strictly increasing order.
pub open spec fn keys_ordered(eqs: Seq<(TermView, Seq<TermView>)>) -> bool {
    forall|i: int, j: int|
        0 <= i < j < eqs.len() ==> compare_views(#[trigger] eqs[i].0, #[trigger] eqs[j].0) < 0
}

/// Each class of the table `eqs` is in strictly increasing order.
pub open spec fn classes_ordered(eqs: Seq<(TermView, Seq<TermView>)>) -> bool {
    forall|i: int| 0 <= i < eqs.len() ==> ordered(#[trigger] eqs[i].1)
}

/// The table `eqs` records `b` as equal to `a`.
pub open spec fn holds(eqs: Seq<(TermView, Seq<TermView>)>, a: TermView, b: TermView) -> bool {
    exists|j: int| 0 <= j < eqs.len() && #[trigger] eqs[j].0 == a && eqs[j].1.contains(b)
}

/// Whatever the table `eqs` records of `a` and `b`, it records of `b` and `a`.
pub open spec fn symmetric(eqs: Seq<(TermView, Seq<TermView>)>) -> bool {
    forall|a: TermView, b: TermView| #[trigger] holds(eqs, a, b) ==> holds(eqs, b, a)
}

/// No symbol has two alias definitions.
pub open spec fn symbols_distinct(norms: Seq<(u64, NormalizationView)>) -> bool {
    forall|i: int, j: int| 0 <= i < j < norms.len() ==> #[trigger] norms[i].0 != #[trigger] norms[j].0
}

proof fn lemma_ordered_insert(s: Seq<TermView>, i: int, x: TermView)
    requires
        ordered(s),
        0 <= i <= s.len(),
        forall|j: int| 0 <= j < i ==> compare_views(#[trigger] s[j], x) < 0,
        i < s.len() ==> compare_views(x, s[i]) < 0,
    ensures
        ordered(s.insert(i, x)),
        forall|y: TermView| #[trigger] s.insert(i, x).contains(y) == (s.contains(y) || y == x),
{
    let n = s.insert(i, x);
    assert forall|p: int, q: int| 0 <= p < q < n.len() implies compare_views(
        #[trigger] n[p],
        #[trigger] n[q],
    ) < 0 by {
        if q > i && p == i {
            if q - 1 > i {
                lemma_compare_transitive(x, s[i], s[q - 1]);
            }
        }
    }
    assert forall|y: TermView| #[trigger] n.contains(y) == (s.contains(y) || y == x) by {
        if n.contains(y) {
            let j = choose|j: int| 0 <= j < n.len() && n[j] == y;
            if j < i {
                assert(s[j] == y);
            } else if j > i {
                assert(s[j - 1] == y);
            }
        }
        if s.contains(y) {
            let j = choose|j: int| 0 <= j < s.len() && s[j] == y;
            if j < i {
                assert(n[j] == y);
            } else {
                assert(n[j + 1] == y);
            }
        }
        if y == x {
            assert(n[i] == y);
        }
    }
}

proof fn lemma_update_class(
    eqs: Seq<(TermView, Seq<TermView>)>,
    i: int,
    class: Seq<TermView>,
    m: TermView,
)
    requires
        keys_ordered(eqs),
        classes_ordered(eqs),
        0 <= i < eqs.len(),
        ordered(class),
        forall|y: TermView| #[trigger] class.contains(y) == (eqs[i].1.contains(y) || y == m),
    ensures
        keys_ordered(eqs.update(i, (eqs[i].0, class))),
        classes_ordered(eqs.update(i, (eqs[i].0, class))),
        forall|a: TermView, b: TermView|
            #[trigger] holds(eqs.update(i, (eqs[i].0, class)), a, b) == (holds(eqs, a, b) || (a
                == eqs[i].0 && b == m)),
{
    let key = eqs[i].0;
    let n = eqs.update(i, (key, class));
    assert(keys_ordered(n));
    assert forall|a: TermView, b: TermView| #[trigger]
        holds(n, a, b) == (holds(eqs, a, b) || (a == key && b == m)) by {
        if holds(n, a, b) {
            let j = choose|j: int| 0 <= j < n.len() && #[trigger] n[j].0 == a && n[j].1.contains(b);
            if j != i {
                assert(eqs[j].0 == a && eqs[j].1.contains(b));
            } else if b != m {
                assert(eqs[i].0 == a && eqs[i].1.contains(b));
            }
        }
        if holds(eqs, a, b) {
            let j = choose|j: int|
                0 <= j < eqs.len() && #[trigger] eqs[j].0 == a && eqs[j].1.contains(b);
            assert(n[j].0 == a && n[j].1.contains(b));
        }
        if a == key && b == m {
            assert(n[i].0 == a && n[i].1.contains(b));
        }
    }
}

proof fn lemma_insert_class(
    eqs: Seq<(TermView, Seq<TermView>)>,
    i: int,
    key: TermView,
    m: TermView,
)
    requires
        keys_ordered(eqs),
        classes_ordered(eqs),
        0 <= i <= eqs.len(),
        forall|j: int| 0 <= j < i ==> compare_views(#[trigger] eqs[j].0, key) < 0,
        i < eqs.len() ==> compare_views(key, eqs[i].0) < 0,
    ensures
        keys_ordered(eqs.insert(i, (key, seq![m]))),
        classes_ordered(eqs.insert(i, (key, seq![m]))),
        forall|a: TermView, b: TermView|
            #[trigger] holds(eqs.insert(i, (key, seq![m])), a, b) == (holds(eqs, a, b) || (a
                == key && b == m)),
{
    let n = eqs.insert(i, (key, seq![m]));
    assert forall|p: int, q: int| 0 <= p < q < n.len() implies compare_views(
        #[trigger] n[p].0,
        #[trigger] n[q].0,
    ) < 0 by {
        if q > i && p == i {
            if q - 1 > i {
                lemma_compare_transitive(key, eqs[i].0, eqs[q - 1].0);
            }
        }
    }
    assert forall|j: int| 0 <= j < n.len() implies ordered(#[trigger] n[j].1) by {
        if j > i {
            assert(n[j].1 == eqs[j - 1].1);
        } else if j < i {
            assert(n[j].1 == eqs[j].1);
        }
    }
    assert forall|j: int| 0 <= j < eqs.len() implies #[trigger] eqs[j].0 != key by {
        lemma_compare_views(eqs[j].0, key);
        if j >= i {
            if j > i {
                lemma_compare_transitive(key, eqs[i].0, eqs[j].0);
            }
        }
    }
    assert forall|a: TermView, b: TermView| #[trigger]
        holds(n, a, b) == (holds(eqs, a, b) || (a == key && b == m)) by {
        if holds(n, a, b) {
            let j = choose|j: int| 0 <= j < n.len() && #[trigger] n[j].0 == a && n[j].1.contains(b);
            if j < i {
                assert(eqs[j].0 == a && eqs[j].1.contains(b));
            } else if j > i {
                assert(eqs[j - 1].0 == a && eqs[j - 1].1.contains(b));
            } else {
                assert(seq![m][0] == m);
            }
        }
        if holds(eqs, a, b) {
            let j = choose|j: int|
                0 <= j < eqs.len() && #[trigger] eqs[j].0 == a && eqs[j].1.contains(b);
            if j < i {
                assert(n[j].0 == a && n[j].1.contains(b));
            } else {
                assert(n[j + 1].0 == a && n[j + 1].1.contains(b));
            }
        }
        if a == key && b == m {
            assert(n[i].1[0] == m);
            assert(n[i].0 == a && n[i].1.contains(b));
        }
    }
}

/// Inserts `x` into the ordered vector `v`, unless it is there already.
fn insert_member(v: &mut Vec<Term>, x: &Term)
    requires
        ordered(views_of(old(v)@)),
    ensures
        views_of(final(v)@) == add_member(views_of(old(v)@), x@),
        ordered(views_of(final(v)@)),
        forall|y: TermView|
            #[trigger] views_of(final(v)@).contains(y) == (views_of(old(v)@).contains(y) || y
                == x@),
{
    let ghost s = views_of(v@);
    let mut i: usize = 0;
    while i < v.len() && v[i].compare(x) < 0
        invariant
            i <= v.len(),
            s == views_of(v@),
            s.len() == v.len(),
            forall|j: int| 0 <= j < v.len() ==> #[trigger] s[j] == v@[j]@,
            forall|j: int| 0 <= j < i ==> compare_views(#[trigger] s[j], x@) < 0,
        decreases v.len() - i,
    {
        i += 1;
    }
    proof {
        lemma_add_member_split(s, x@, i as int);
    }
    let ghost tail = s.subrange(i as int, s.len() as int);
    if i < v.len() && v[i].compare(x) == 0 {
        proof {
            lemma_compare_views(s[i as int], x@);
            assert(s.subrange(0, i as int) + tail =~= s);
            assert(s[i as int] == x@);
        }
        return;
    }
    v.insert(i, x.copy());
    proof {
        if i < s.len() {
            lemma_compare_views(s[i as int], x@);
        }
        assert(views_of(v@) =~= s.subrange(0, i as int) + add_member(tail, x@));
        assert(views_of(v@) =~= s.insert(i as int, x@));
        lemma_ordered_insert(s, i as int, x@);
    }
}


/// The table `eqs` with `a` and `b` each added to the class of the other.
pub open spec fn add_equality(eqs: Seq<(TermView, Seq<TermView>)>, a: TermView, b: TermView) -> Seq<
    (TermView, Seq<TermView>),
> {
    add_fact(add_fact(eqs, a, b), b, a)
}

/// The table `eqs` with the first `n` pairs of `pairs` asserted, in order.
pub open spec fn add_equalities(
    eqs: Seq<(TermView, Seq<TermView>)>,
    pairs: Seq<(TermView, TermView)>,
    n: nat,
) -> Seq<(TermView, Seq<TermView>)>
    decreases n,
{
    if n == 0 || n > pairs.len() {
        eqs
    } else {
        let p = pairs[n - 1];
        add_equality(add_equalities(eqs, pairs, (n - 1) as nat), p.0, p.1)
    }
}

pub open spec fn entries_view(s: Seq<(Term, Vec<Term>)>) -> Seq<(TermView, Seq<TermView>)> {
    Seq::new(s.len(), |i: int| (s[i].0@, views_of(s[i].1@)))
}

pub open spec fn definitions_view(s: Seq<(u64, Normalization)>) -> Seq<(u64, NormalizationView)> {
    Seq::new(s.len(), |i: int| (s[i].0, s[i].1@))
}

fn insert_fact(eqs: &mut Vec<(Term, Vec<Term>)>, key: &Term, member: &Term)
    requires
        keys_ordered(entries_view(old(eqs)@)),
        classes_ordered(entries_view(old(eqs)@)),
    ensures
        entries_view(final(eqs)@) == add_fact(entries_view(old(eqs)@), key@, member@),
        keys_ordered(entries_view(final(eqs)@)),
        classes_ordered(entries_view(final(eqs)@)),
        forall|a: TermView, b: TermView|
            #[trigger] holds(entries_view(final(eqs)@), a, b) == (holds(
                entries_view(old(eqs)@),
                a,
                b,
            ) || (a == key@ && b == member@)),
{
    let ghost s = entries_view(eqs@);
    let mut i: usize = 0;
    while i < eqs.len() && eqs[i].0.compare(key) < 0
        invariant
            i <= eqs.len(),
            s == entries_view(eqs@),
            forall|j: int| 0 <= j < i ==> compare_views(#[trigger] s[j].0, key@) < 0,
        decreases eqs.len() - i,
    {
        i += 1;
    }
    proof {
        lemma_add_fact_split(s, key@, member@, i as int);
    }
    let ghost tail = s.subrange(i as int, s.len() as int);
    if i < eqs.len() && eqs[i].0.compare(key) == 0 {
        proof {
            lemma_compare_views(s[i as int].0, key@);
        }
        let mut entry = eqs.remove(i);
        insert_member(&mut entry.1, member);
        eqs.insert(i, entry);
        proof {
            assert(entries_view(eqs@) =~= s.subrange(0, i as int) + add_fact(tail, key@, member@));
            assert(entries_view(eqs@) =~= s.update(
                i as int,
                (s[i as int].0, views_of(eqs@[i as int].1@)),
            ));
            lemma_update_class(s, i as int, views_of(eqs@[i as int].1@), member@);
        }
        return;
    }
    let mut members: Vec<Term> = Vec::new();
    members.push(member.copy());
    proof {
        lemma_views_of(members@);
        assert(views_of(members@) =~= seq![member@]);
    }
    eqs.insert(i, (key.copy(), members));
    proof {
        if i < s.len() {
            lemma_compare_views(s[i as int].0, key@);
        }
        assert(entries_view(eqs@) =~= s.subrange(0, i as int) + add_fact(tail, key@, member@));
        assert(entries_view(eqs@) =~= s.insert(i as int, (key@, seq![member@])));
        lemma_insert_class(s, i as int, key@, member@);
    }
}

/// The position of the class of `t` in the table `eqs`, if `t` is a key.
pub(crate) fn find_class(eqs: &Vec<(Term, Vec<Term>)>, t: &Term) -> (r: Option<usize>)
    ensures
        match r {
            Some(i) => i < eqs.len() && lookup_fact(entries_view(eqs@), t@) == Some(
                views_of(eqs@[i as int].1@),
            ),
            None => lookup_fact(entries_view(eqs@), t@) is None,
        },
{
    let ghost s = entries_view(eqs@);
    assert(s.subrange(0, s.len() as int) =~= s);
    let mut i: usize = 0;
    while i < eqs.len()
        invariant
            i <= eqs.len(),
            s == entries_view(eqs@),
            lookup_fact(s, t@) == lookup_fact(s.subrange(i as int, s.len() as int), t@),
        decreases eqs.len() - i,
    {
        let ghost rest = s.subrange(i as int, s.len() as int);
        if eqs[i].0.same(t) {
            return Some(i);
        }
        assert(rest.subrange(1, rest.len() as int) =~= s.subrange(i + 1, s.len() as int));
        i += 1;
    }
    None
}

/// A premise: equalities asserted between terms, and alias definitions.
///
/// The equalities form a table from a term to the ordered terms asserted
/// equal to it, ordered by key. Every assertion enters it in both directions.
#[derive(Clone, Debug, PartialEq, Eq)]
pub struct Premise {
    /// Each term with the terms that are equal to it.
    equalities: Vec<(Term, Vec<Term>)>,
    /// Each alias symbol with its definition.
    normalizables: Vec<(u64, Normalization)>,
}

/// The mathematical value of a premise.
pub struct PremiseView {
    pub equalities: Seq<(TermView, Seq<TermView>)>,
    pub normalizations: Seq<(u64, NormalizationView)>,
}

impl PremiseView {
    /// The table is ordered by key, each class is ordered, every equality
    /// stands in both directions, and no symbol has two alias definitions.
    pub open spec fn wf(self) -> bool {
        &&& keys_ordered(self.equalities)
        &&& classes_ordered(self.equalities)
        &&& symmetric(self.equalities)
        &&& symbols_distinct(self.normalizations)
    }
}

proof fn lemma_lookup_normalization_none(norms: Seq<(u64, NormalizationView)>, symbol: u64)
    requires
        lookup_normalization(norms, symbol) is None,
    ensures
        forall|j: int| 0 <= j < norms.len() ==> #[trigger] norms[j].0 != symbol,
    decreases norms.len(),
{
    if norms.len() > 0 {
        let rest = norms.subrange(1, norms.len() as int);
        lemma_lookup_normalization_none(rest, symbol);
        assert forall|j: int| 0 <= j < norms.len() implies #[trigger] norms[j].0 != symbol by {
            if j > 0 {
                assert(rest[j - 1] == norms[j]);
            }
        }
    }
}

/// The first definition registered for a symbol is the one its lookup gives,
/// and a later registration for the same symbol, which `insert_normalization`
/// refuses, leaves it so.
pub proof fn lemma_first_definition_stays(
    norms: Seq<(u64, NormalizationView)>,
    symbol: u64,
    first: NormalizationView,
)
    requires
        lookup_normalization(norms, symbol) is None,
    ensures
        lookup_normalization(norms.push((symbol, first)), symbol) == Some(first),
    decreases norms.len(),
{
    let pushed = norms.push((symbol, first));
    if norms.len() > 0 {
        let rest = norms.subrange(1, norms.len() as int);
        lemma_first_definition_stays(rest, symbol, first);
        assert(pushed.subrange(1, pushed.len() as int) =~= rest.push((symbol, first)));
    } else {
        assert(pushed[0] == (symbol, first));
    }
}

impl Premise {
    pub open spec fn wf(&self) -> bool {
        self@.wf()
    }

    pub closed spec fn view(&self) -> PremiseView {
        PremiseView {
            equalities: entries_view(self.equalities@),
            normalizations: definitions_view(self.normalizables@),
        }
    }

    /// Returns the equalities in the premise.
    pub fn equalities(&self) -> (r: &Vec<(Term, Vec<Term>)>)
        ensures
            entries_view(r@) == self@.equalities,
    {
        &self.equalities
    }

    /// Creates a new premise with pre-defined equalities.
    pub fn new_with_equalities(terms: Vec<(Term, Term)>) -> (r: Premise)
        ensures
            r@.equalities == add_equalities(
                Seq::empty(),
                terms@.map_values(|p: (Term, Term)| (p.0@, p.1@)),
                terms@.len(),
            ),
            r@.normalizations == Seq::<(u64, NormalizationView)>::empty(),
            r.wf(),
    {
        let ghost pairs = terms@.map_values(|p: (Term, Term)| (p.0@, p.1@));
        let mut premise = Premise::default();
        let mut i: usize = 0;
        while i < terms.len()
            invariant
                i <= terms.len(),
                pairs == terms@.map_values(|p: (Term, Term)| (p.0@, p.1@)),
                premise@.equalities == add_equalities(Seq::empty(), pairs, i as nat),
                premise@.normalizations == Seq::<(u64, NormalizationView)>::empty(),
                premise.wf(),
            decreases terms.len() - i,
        {
            premise.insert(terms[i].0.copy(), terms[i].1.copy());
            i += 1;
        }
        premise
    }

    /// Inserts a new equality into the premise, in both directions.
    pub fn insert(&mut self, term1: Term, term2: Term)
        requires
            old(self).wf(),
        ensures
            final(self).wf(),
            final(self)@.equalities == add_equality(old(self)@.equalities, term1@, term2@),
            final(self)@.normalizations == old(self)@.normalizations,
            forall|a: TermView, b: TermView|
                #[trigger] holds(final(self)@.equalities, a, b) == (holds(
                    old(self)@.equalities,
                    a,
                    b,
                ) || (a == term1@ && b == term2@) || (a == term2@ && b == term1@)),
    {
        insert_fact(&mut self.equalities, &term1, &term2);
        insert_fact(&mut self.equalities, &term2, &term1);
        proof {
            let before = old(self)@.equalities;
            let after = self@.equalities;
            assert forall|a: TermView, b: TermView| #[trigger] holds(after, a, b) implies holds(
                after,
                b,
                a,
            ) by {
                if holds(before, a, b) {
                    assert(holds(before, b, a));
                }
            }
        }
    }

    /// Returns the normalization of a symbol.
    pub fn get_normalization(&self, symbol: &u64) -> (r: Option<&Normalization>)
        ensures
            lookup_normalization(self@.normalizations, *symbol) == match r {
                Some(n) => Some(n@),
                None => None::<NormalizationView>,
            },
    {
        let ghost s = self@.normalizations;
        assert(s.subrange(0, s.len() as int) =~= s);
        let mut i: usize = 0;
        while i < self.normalizables.len()
            invariant
                i <= self.normalizables.len(),
                s == self@.normalizations,
                lookup_normalization(s, *symbol) == lookup_normalization(
                    s.subrange(i as int, s.len() as int),
                    *symbol,
                ),
            decreases self.normalizables.len() - i,
        {
            let ghost rest = s.subrange(i as int, s.len() as int);
            if self.normalizables[i].0 == *symbol {
                return Some(&self.normalizables[i].1);
            }
            assert(rest.subrange(1, rest.len() as int) =~= s.subrange(i + 1, s.len() as int));
            i += 1;
        }
        None
    }

    /// Inserts a new normalization into the premise.
    ///
    /// Returns `true` if the normalization is inserted, and `false`, with
    /// nothing inserted, if the symbol already has one.
    pub fn insert_normalization(
        &mut self,
        symbol: u64,
        parameters: Vec<u64>,
        equivalence: Term,
    ) -> (r: bool)
        requires
            old(self).wf(),
        ensures
            final(self).wf(),
            r == (lookup_normalization(old(self)@.normalizations, symbol) is None),
            r ==> final(self)@.normalizations == old(self)@.normalizations.push(
                (symbol, NormalizationView { parameters: parameters@, equivalence: equivalence@ }),
            ),
            !r ==> final(self)@ == old(self)@,
            final(self)@.equalities == old(self)@.equalities,
    {
        if self.get_normalization(&symbol).is_some() {
            return false;
        }
        proof {
            lemma_lookup_normalization_none(old(self)@.normalizations, symbol);
        }
        self.normalizables.push((symbol, Normalization { parameters, equivalence }));
        proof {
            assert(definitions_view(self.normalizables@) =~= old(self)@.normalizations.push(
                (symbol, NormalizationView { parameters: parameters@, equivalence: equivalence@ }),
            ));
        }
        true
    }
}

impl Default for Premise {
    fn default() -> (r: Premise)
        ensures
            r@.equalities == Seq::<(TermView, Seq<TermView>)>::empty(),
            r@.normalizations == Seq::<(u64, NormalizationView)>::empty(),
            r.wf(),
    {
        let r = Premise { equalities: Vec::new(), normalizables: Vec::new() };
        proof {
            assert(entries_view(r.equalities@) =~= Seq::empty());
            assert(definitions_view(r.normalizables@) =~= Seq::empty());
        }
        r
    }
}

} // verus!
