use tern::unification::{unify, walk, Substitution, Term};

#[test]
fn test_walk() {
    let substs = Substitution::new();
    assert_eq!(walk(&Term::Variable(1), &substs), &Term::Variable(1));
    assert_eq!(walk(&Term::Atom(42), &substs), &Term::Atom(42));

    let mut substs = Substitution::new();
    substs.insert(1, Term::Variable(2));
    substs.insert(3, Term::Atom(100));
    substs.insert(2, Term::Variable(3));
    assert_eq!(walk(&Term::Variable(1), &substs), &Term::Atom(100));
}

#[test]
fn test_unify() {
    // distinct atom identifiers stand in for the distinct atoms
    let mut substs = Substitution::new();
    assert!(unify(&Term::Atom(100), &Term::Atom(100), &mut substs));
    assert!(!unify(&Term::Atom(100), &Term::Atom(101), &mut substs));
    assert_eq!(substs.len(), 0);

    let mut substs = Substitution::new();
    assert!(unify(&Term::Atom(1), &Term::Atom(1), &mut substs));
    assert_eq!(substs.len(), 0);

    let mut substs = Substitution::new();
    assert!(unify(&Term::Variable(1), &Term::Atom(1), &mut substs));
    assert_eq!(substs.len(), 1);
    assert_eq!(*substs.get(&1).unwrap(), Term::Atom(1));
    assert!(unify(&Term::Variable(1), &Term::Atom(1), &mut substs));
    assert!(!unify(&Term::Variable(1), &Term::Atom(2), &mut substs));

    let mut substs = Substitution::new();
    assert!(unify(
        &Term::Tuple(vec![Term::Variable(1), Term::Atom(1)]),
        &Term::Tuple(vec![Term::Atom(2), Term::Variable(2)]),
        &mut substs
    ));
    assert_eq!(substs.len(), 2);
    assert_eq!(*substs.get(&1).unwrap(), Term::Atom(2));
    assert_eq!(*substs.get(&2).unwrap(), Term::Atom(1));

    let mut substs = Substitution::new();
    assert!(unify(&Term::Variable(1), &Term::Variable(2), &mut substs));
    assert_eq!(substs.len(), 1);
    assert_eq!(*substs.get(&1).unwrap(), Term::Variable(2));

    let mut substs = Substitution::new();
    assert!(unify(
        &Term::Tuple(vec![Term::Variable(1), Term::Variable(1)]),
        &Term::Tuple(vec![Term::Variable(2), Term::Variable(2)]),
        &mut substs
    ));
    assert_eq!(substs.len(), 1);
    assert_eq!(*substs.get(&1).unwrap(), Term::Variable(2));

    let mut substs = Substitution::new();
    assert!(unify(
        &Term::Tuple(vec![
            Term::Variable(1),
            Term::Variable(1),
            Term::Variable(1)
        ]),
        &Term::Tuple(vec![
            Term::Variable(2),
            Term::Variable(2),
            Term::Variable(2)
        ]),
        &mut substs
    ));
    assert_eq!(substs.len(), 1);
    assert_eq!(*substs.get(&1).unwrap(), Term::Variable(2));

    let mut substs = Substitution::new();
    assert!(unify(
        &Term::Tuple(vec![Term::Variable(1), Term::Variable(2), Term::Atom(42)]),
        &Term::Tuple(vec![
            Term::Variable(2),
            Term::Variable(1),
            Term::Variable(1)
        ]),
        &mut substs
    ));
    assert_eq!(substs.len(), 2);
    assert_eq!(*substs.get(&1).unwrap(), Term::Variable(2));
    assert_eq!(*substs.get(&2).unwrap(), Term::Atom(42));
}

#[test]
fn walk_is_idempotent_on_examples() {
    let mut substs = Substitution::new();
    substs.insert(1, Term::Variable(2));
    substs.insert(2, Term::Atom(7));
    substs.insert(5, Term::Tuple(vec![Term::Variable(1)]));
    let w1 = walk(&Term::Variable(1), &substs).clone();
    let w2 = walk(&w1, &substs).clone();
    assert_eq!(w1, w2);
    let w3 = walk(&Term::Variable(5), &substs).clone();
    let w4 = walk(&w3, &substs).clone();
    assert_eq!(w3, w4);
}

#[test]
fn unify_makes_terms_walk_equal() {
    // flat terms resolve to the same value after a successful unification
    let mut substs = Substitution::new();
    assert!(unify(&Term::Variable(1), &Term::Atom(9), &mut substs));
    assert_eq!(
        walk(&Term::Variable(1), &substs),
        walk(&Term::Atom(9), &substs)
    );

    let mut substs = Substitution::new();
    assert!(unify(&Term::Variable(3), &Term::Variable(4), &mut substs));
    assert_eq!(
        walk(&Term::Variable(3), &substs),
        walk(&Term::Variable(4), &substs)
    );
}

#[test]
fn no_variable_is_bound_to_itself() {
    // unifying a variable with itself, directly or through a chain, adds
    // no self-binding
    let mut substs = Substitution::new();
    assert!(unify(&Term::Variable(1), &Term::Variable(1), &mut substs));
    assert_eq!(substs.len(), 0);

    let mut substs = Substitution::new();
    substs.insert(1, Term::Variable(2));
    assert!(unify(&Term::Variable(2), &Term::Variable(1), &mut substs));
    assert_eq!(substs.len(), 1);
    assert!(substs.get(&2).is_none());
}

#[test]
fn bound_variables_unify_through_their_values() {
    // both variables resolve to the same atom: they unify with no new
    // binding
    let mut substs = Substitution::new();
    substs.insert(1, Term::Atom(5));
    substs.insert(2, Term::Atom(5));
    assert!(unify(&Term::Variable(1), &Term::Variable(2), &mut substs));
    assert_eq!(substs.len(), 2);

    // they resolve to distinct atoms: they clash
    let mut substs = Substitution::new();
    substs.insert(1, Term::Atom(5));
    substs.insert(2, Term::Atom(6));
    assert!(!unify(&Term::Variable(1), &Term::Variable(2), &mut substs));
    assert_eq!(substs.len(), 2);
}

#[test]
fn a_tuple_unifies_with_a_variable_bound_to_a_tuple() {
    // the variable resolves to an equal tuple
    let mut substs = Substitution::new();
    substs.insert(1, Term::Tuple(vec![Term::Atom(7)]));
    assert!(unify(
        &Term::Tuple(vec![Term::Atom(7)]),
        &Term::Variable(1),
        &mut substs
    ));
    assert_eq!(substs.len(), 1);

    // the variable resolves to a tuple holding an unbound variable,
    // which the pairwise descent then binds
    let mut substs = Substitution::new();
    substs.insert(1, Term::Tuple(vec![Term::Variable(2)]));
    assert!(unify(
        &Term::Tuple(vec![Term::Atom(9)]),
        &Term::Variable(1),
        &mut substs
    ));
    assert_eq!(substs.len(), 2);
    assert_eq!(*substs.get(&2).unwrap(), Term::Atom(9));

    // the variable resolves to a clashing tuple
    let mut substs = Substitution::new();
    substs.insert(1, Term::Tuple(vec![Term::Atom(7)]));
    assert!(!unify(
        &Term::Tuple(vec![Term::Atom(8)]),
        &Term::Variable(1),
        &mut substs
    ));
}

#[test]
fn failure_keeps_the_old_bindings() {
    let mut substs = Substitution::new();
    substs.insert(9, Term::Atom(1));
    // the first tuple element binds, the second clashes
    assert!(!unify(
        &Term::Tuple(vec![Term::Variable(1), Term::Atom(2)]),
        &Term::Tuple(vec![Term::Atom(3), Term::Atom(4)]),
        &mut substs
    ));
    assert_eq!(*substs.get(&9).unwrap(), Term::Atom(1));
    assert_eq!(*substs.get(&1).unwrap(), Term::Atom(3));
}

#[test]
fn tuple_arity_mismatch_fails() {
    let mut substs = Substitution::new();
    assert!(!unify(
        &Term::Tuple(vec![Term::Atom(1)]),
        &Term::Tuple(vec![Term::Atom(1), Term::Atom(2)]),
        &mut substs
    ));
    let mut substs = Substitution::new();
    assert!(!unify(
        &Term::Atom(1),
        &Term::Tuple(vec![Term::Atom(1)]),
        &mut substs
    ));
}
