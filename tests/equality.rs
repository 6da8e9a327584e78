use term_equality::{equals, Function, Normalizable, Premise, Term, VisitHistory, Visitor};

fn atom(n: u64) -> Term {
    Term::Literal(n)
}

fn apply_fn(symbol: u64, arguments: Vec<Term>) -> Term {
    Term::Function(Function { symbol, arguments })
}

fn alias(symbol: u64, arguments: Vec<Term>) -> Term {
    Term::Normalizable(Normalizable { symbol, arguments })
}

#[test]
fn reflixivity() {
    let term = Term::Literal(0);
    let premise = Premise::default();

    assert!(equals(&term, &term, &premise));
}

#[test]
fn symmetry() {
    let term1 = Term::Literal(0);
    let term2 = Term::Literal(1);

    let not_equal = Term::Literal(2);
    let mut premise = Premise::default();

    premise.insert(term1.clone(), term2.clone());

    assert!(equals(&term1, &term2, &premise));
    assert!(equals(&term2, &term1, &premise));

    assert!(!equals(&term1, &not_equal, &premise));
    assert!(!equals(&term2, &not_equal, &premise));

    assert!(!equals(&not_equal, &term1, &premise));
    assert!(!equals(&not_equal, &term2, &premise));
}

#[test]
fn transitivity() {
    let term1 = Term::Literal(0);
    let term2 = Term::Literal(1);
    let term3 = Term::Literal(2);

    let not_equal = Term::Literal(3);

    let mut premise = Premise::default();

    premise.insert(term1.clone(), term2.clone());
    premise.insert(term2.clone(), term3.clone());

    assert!(equals(&term1, &term2, &premise));
    assert!(equals(&term2, &term3, &premise));
    assert!(equals(&term1, &term3, &premise));

    assert!(!equals(&term1, &not_equal, &premise));
    assert!(!equals(&term2, &not_equal, &premise));
    assert!(!equals(&term3, &not_equal, &premise));

    assert!(!equals(&not_equal, &term1, &premise));
    assert!(!equals(&not_equal, &term2, &premise));
    assert!(!equals(&not_equal, &term3, &premise));
}

#[test]
fn congruence() {
    let term1 = Term::Function(Function {
        symbol: 0,
        arguments: vec![Term::Literal(1), Term::Literal(2)],
    });
    let term2 = Term::Function(Function {
        symbol: 0,
        arguments: vec![Term::Literal(3), Term::Literal(4)],
    });
    let not_equal = Term::Function(Function {
        symbol: 0,
        arguments: vec![Term::Literal(5), Term::Literal(6)],
    });

    let mut premise = Premise::default();

    premise.insert(Term::Literal(1), Term::Literal(3));
    premise.insert(Term::Literal(2), Term::Literal(4));

    assert!(equals(&term1, &term2, &premise));
    assert!(equals(&term2, &term1, &premise));

    assert!(!equals(&term1, &not_equal, &premise));
    assert!(!equals(&term2, &not_equal, &premise));

    assert!(!equals(&not_equal, &term1, &premise));
    assert!(!equals(&not_equal, &term2, &premise));
}

#[test]
fn recursive_term() {
    let premise = Premise::new_with_equalities(vec![(
        Term::Literal(0),
        Term::Function(Function {
            symbol: 0,
            arguments: vec![Term::Literal(0)],
        }),
    )]);

    let lhs = Term::Function(Function {
        symbol: 0,
        arguments: vec![Term::Literal(0)],
    });
    let rhs = Term::Function(Function {
        symbol: 0,
        arguments: vec![Term::Function(Function {
            symbol: 0,
            arguments: vec![Term::Function(Function {
                symbol: 0,
                arguments: vec![Term::Function(Function {
                    symbol: 0,
                    arguments: vec![Term::Literal(0)],
                })],
            })],
        })],
    });

    assert!(equals(&lhs, &rhs, &premise));
    assert!(equals(&rhs, &lhs, &premise));
}

#[test]
fn reflexive_on_compound_terms() {
    let t = apply_fn(7, vec![atom(1), alias(3, vec![atom(2)]), apply_fn(8, vec![])]);
    let mut premise = Premise::default();
    assert!(equals(&t, &t, &premise));
    premise.insert(atom(1), atom(9));
    assert!(premise.insert_normalization(3, vec![5], atom(5)));
    assert!(equals(&t, &t, &premise));
}

#[test]
fn unrelated_terms_differ_in_both_orders() {
    let premise = Premise::default();
    let cases = [
        (apply_fn(1, vec![atom(0)]), apply_fn(2, vec![atom(0)])),
        (apply_fn(1, vec![atom(0)]), apply_fn(1, vec![atom(0), atom(0)])),
        (atom(4), atom(5)),
        (atom(4), apply_fn(4, vec![])),
        (apply_fn(4, vec![]), alias(4, vec![])),
    ];
    for (a, b) in cases.iter() {
        assert!(!equals(a, b, &premise));
        assert!(!equals(b, a, &premise));
    }
}

#[test]
fn facts_on_other_atoms_do_not_relate_terms() {
    let mut premise = Premise::default();
    premise.insert(atom(1), atom(2));
    let a = apply_fn(1, vec![atom(3)]);
    let b = apply_fn(1, vec![atom(4)]);
    assert!(!equals(&a, &b, &premise));
    assert!(!equals(&b, &a, &premise));
    assert!(!equals(&atom(1), &atom(3), &premise));
}

#[test]
fn second_alias_for_a_symbol_is_rejected() {
    let mut premise = Premise::default();
    assert!(premise.insert_normalization(10, vec![1], apply_fn(20, vec![atom(1)])));
    assert!(!premise.insert_normalization(10, vec![2, 3], atom(2)));

    let definition = premise.get_normalization(&10).unwrap();
    assert_eq!(definition.parameters, vec![1]);
    assert_eq!(definition.equivalence, apply_fn(20, vec![atom(1)]));
    assert!(premise.get_normalization(&11).is_none());
}

#[test]
fn alias_expansion_proves_equality() {
    let mut premise = Premise::default();
    // 10(x, y) stands for 20(y, x)
    assert!(premise.insert_normalization(10, vec![1, 2], apply_fn(20, vec![atom(2), atom(1)])));

    let lhs = alias(10, vec![atom(5), atom(6)]);
    let rhs = apply_fn(20, vec![atom(6), atom(5)]);
    assert!(equals(&lhs, &rhs, &premise));
    assert!(equals(&rhs, &lhs, &premise));

    let wrong = apply_fn(20, vec![atom(5), atom(6)]);
    assert!(!equals(&lhs, &wrong, &premise));
    assert!(!equals(&wrong, &lhs, &premise));
}

#[test]
fn expansion_substitutes_parameters_in_order() {
    let mut premise = Premise::default();
    assert!(premise.insert_normalization(10, vec![1, 2], apply_fn(20, vec![atom(1), atom(2)])));
    let definition = premise.get_normalization(&10).unwrap();

    // the first argument brings the second parameter's atom, which the second
    // substitution then replaces as well
    let expanded = definition.equivalence(&[atom(2), atom(7)]).unwrap();
    assert_eq!(expanded, apply_fn(20, vec![atom(7), atom(7)]));

    let expanded = definition.equivalence(&[apply_fn(3, vec![atom(9)]), atom(8)]).unwrap();
    assert_eq!(expanded, apply_fn(20, vec![apply_fn(3, vec![atom(9)]), atom(8)]));
}

#[test]
fn expansion_with_wrong_arity_is_absent() {
    let definition = term_equality::Normalization { parameters: vec![1, 2], equivalence: atom(1) };
    assert!(definition.equivalence(&[atom(3)]).is_none());
    assert!(definition.equivalence(&[atom(3), atom(4), atom(5)]).is_none());
    assert_eq!(definition.equivalence(&[atom(3), atom(4)]), Some(atom(3)));
}

#[test]
fn expansion_that_would_not_end_is_absent() {
    // the argument holds the parameter's own atom below its root
    let definition = term_equality::Normalization {
        parameters: vec![1],
        equivalence: apply_fn(4, vec![atom(1)]),
    };
    assert!(definition.equivalence(&[apply_fn(5, vec![atom(1)])]).is_none());
    // where the parameter does not occur, nothing is replaced
    let constant = term_equality::Normalization { parameters: vec![1], equivalence: atom(6) };
    assert_eq!(constant.equivalence(&[apply_fn(5, vec![atom(1)])]), Some(atom(6)));
}

#[test]
fn self_expanding_alias_terminates() {
    let mut premise = Premise::default();
    // 10(x) stands for 10(10(x)), which never reaches a fixed point
    assert!(premise.insert_normalization(10, vec![1], alias(10, vec![alias(10, vec![atom(1)])])));
    let lhs = alias(10, vec![atom(2)]);
    assert!(!equals(&lhs, &atom(3), &premise));
    assert!(equals(&lhs, &lhs, &premise));
}

#[test]
fn apply_replaces_every_occurrence() {
    let mut t = apply_fn(1, vec![atom(2), alias(3, vec![atom(2), atom(4)])]);
    t.apply(&atom(2), &apply_fn(9, vec![]));
    assert_eq!(
        t,
        apply_fn(1, vec![apply_fn(9, vec![]), alias(3, vec![apply_fn(9, vec![]), atom(4)])])
    );

    let mut whole = atom(2);
    whole.apply(&atom(2), &atom(5));
    assert_eq!(whole, atom(5));
}

#[test]
fn insert_records_both_directions_in_key_order() {
    let mut premise = Premise::default();
    premise.insert(apply_fn(1, vec![]), atom(7));
    premise.insert(atom(7), atom(3));

    let eqs = premise.equalities();
    assert_eq!(eqs.len(), 3);
    assert_eq!(eqs[0].0, atom(3));
    assert_eq!(eqs[0].1, vec![atom(7)]);
    assert_eq!(eqs[1].0, atom(7));
    assert_eq!(eqs[1].1, vec![atom(3), apply_fn(1, vec![])]);
    assert_eq!(eqs[2].0, apply_fn(1, vec![]));
    assert_eq!(eqs[2].1, vec![atom(7)]);
}

#[test]
fn repeated_fact_is_kept_once() {
    let mut premise = Premise::default();
    premise.insert(atom(1), atom(2));
    premise.insert(atom(2), atom(1));
    let eqs = premise.equalities();
    assert_eq!(eqs.len(), 2);
    assert_eq!(eqs[0].1, vec![atom(2)]);
    assert_eq!(eqs[1].1, vec![atom(1)]);
}

#[test]
fn new_with_equalities_matches_repeated_insert() {
    let pairs = vec![(atom(1), atom(2)), (atom(3), apply_fn(4, vec![atom(1)]))];
    let built = Premise::new_with_equalities(pairs.clone());
    let mut inserted = Premise::default();
    for (a, b) in pairs {
        inserted.insert(a, b);
    }
    assert_eq!(built.equalities(), inserted.equalities());
    assert_eq!(built.equalities().len(), 4);
}

#[test]
fn bridging_through_a_unified_key() {
    // f(x) = y is asserted; f(z) with z = x equals y through the key f(x)
    let mut premise = Premise::default();
    premise.insert(apply_fn(1, vec![atom(2)]), atom(3));
    premise.insert(atom(4), atom(2));
    let lhs = apply_fn(1, vec![atom(4)]);
    assert!(equals(&lhs, &atom(3), &premise));
    assert!(equals(&atom(3), &lhs, &premise));
}

struct Collector {
    seen: Vec<Term>,
    stop_after: usize,
}

impl Visitor for Collector {
    // a specification item: the verifier reads it, and no run calls it
    fn history(&self) -> VisitHistory {
        unreachable!()
    }

    fn visit(&mut self, term: &Term) -> bool {
        self.seen.push(term.clone());
        self.seen.len() < self.stop_after
    }
}

#[test]
fn visit_goes_in_pre_order_and_stops() {
    let t = apply_fn(1, vec![apply_fn(2, vec![atom(3)]), atom(4)]);
    let mut all = Collector { seen: Vec::new(), stop_after: usize::MAX };
    assert!(t.visit(&mut all));
    assert_eq!(
        all.seen,
        vec![t.clone(), apply_fn(2, vec![atom(3)]), atom(3), atom(4)]
    );

    let mut two = Collector { seen: Vec::new(), stop_after: 2 };
    assert!(!t.visit(&mut two));
    assert_eq!(two.seen, vec![t.clone(), apply_fn(2, vec![atom(3)])]);
}

#[test]
fn long_chain_of_facts_is_followed() {
    let mut premise = Premise::default();
    for i in 0..201u64 {
        premise.insert(atom(i), atom(i + 1));
    }
    assert!(equals(&atom(0), &atom(201), &premise));
    assert!(equals(&atom(201), &atom(0), &premise));
    assert!(!equals(&atom(0), &atom(500), &premise));
}

#[test]
fn deeply_nested_terms_are_compared() {
    let mut lhs = atom(1);
    let mut rhs = atom(2);
    for _ in 0..300 {
        lhs = apply_fn(7, vec![lhs]);
        rhs = apply_fn(7, vec![rhs]);
    }
    let mut premise = Premise::default();
    assert!(!equals(&lhs, &rhs, &premise));
    premise.insert(atom(1), atom(2));
    assert!(equals(&lhs, &rhs, &premise));
    assert!(equals(&rhs, &lhs, &premise));
}

#[test]
fn expandable_term_equals_its_expansion() {
    let mut premise = Premise::default();
    assert!(premise.insert_normalization(10, vec![1], apply_fn(20, vec![atom(1), atom(1)])));
    let t = alias(10, vec![atom(3)]);
    let expanded = premise.get_normalization(&10).unwrap().equivalence(&[atom(3)]).unwrap();
    assert!(equals(&t, &expanded, &premise));
    assert!(equals(&expanded, &t, &premise));
}

#[test]
fn apply_without_occurrence_leaves_term_unchanged() {
    // `to` holds `from` below its root; the term does not hold `from`
    let original = apply_fn(1, vec![atom(3), alias(4, vec![atom(5)])]);
    let mut t = original.clone();
    t.apply(&atom(2), &apply_fn(9, vec![atom(2)]));
    assert_eq!(t, original);
}

#[test]
fn congruence_under_a_larger_premise() {
    let mut premise = Premise::default();
    premise.insert(atom(1), atom(3));
    premise.insert(atom(2), atom(4));
    premise.insert(atom(1), atom(2));
    premise.insert(atom(3), apply_fn(0, vec![atom(1), atom(2)]));
    let lhs = apply_fn(0, vec![atom(1), atom(2), atom(7)]);
    let rhs = apply_fn(0, vec![atom(3), atom(4), atom(7)]);
    assert!(equals(&lhs, &rhs, &premise));
    assert!(equals(&rhs, &lhs, &premise));
}

#[test]
fn unrelated_atoms_differ_despite_other_facts() {
    let mut premise = Premise::default();
    premise.insert(atom(1), atom(2));
    premise.insert(apply_fn(5, vec![atom(6)]), atom(7));
    assert!(!equals(&atom(8), &atom(9), &premise));
    assert!(!equals(&atom(9), &atom(8), &premise));
}
