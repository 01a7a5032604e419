use tern::logic::{Conj2, Disj2, Goal, Unify};
use tern::unification::{Substitution, Term};

// a goal that always succeeds without binding anything
fn succeed() -> Goal {
    Goal::Unify(Unify::new(Term::Atom(90), Term::Atom(90)))
}

// a goal that never succeeds
fn fail() -> Goal {
    Goal::Unify(Unify::new(Term::Atom(98), Term::Atom(99)))
}

#[test]
fn test_succeed() {
    let substs = Substitution::new();
    let success = succeed();
    let mut iter = success.solve(&substs);
    let first = iter.next().unwrap();
    assert!(first.is_empty());
    assert!(iter.next().is_none());
}

#[test]
fn test_fail() {
    let substs = Substitution::new();
    let failure = fail();
    let mut iter = failure.solve(&substs);
    assert!(iter.next().is_none());
}

#[test]
fn test_equalsexpr() {
    // atom identifiers: 10 stands for olive, 11 for oil
    let substs = Substitution::new();
    let equals = Unify {
        left: Term::Atom(10),
        right: Term::Atom(10),
    };
    let mut iter = equals.solve(&substs);
    assert!(iter.next().unwrap().is_empty());

    let equals = Unify {
        left: Term::Atom(10),
        right: Term::Atom(11),
    };
    let mut iter = equals.solve(&substs);
    assert!(iter.next().is_none());

    let equals = Unify {
        left: Term::Variable(1),
        right: Term::Atom(10),
    };
    let mut iter = equals.solve(&substs);
    let result = iter.next().unwrap();
    assert_eq!(result.len(), 1);
    assert_eq!(*result.get(&1).unwrap(), Term::Atom(10));
    assert!(iter.next().is_none());
}

#[test]
fn test_disj2() {
    // atom identifiers: 10 stands for olive, 11 for oil
    let substs = Substitution::new();
    let disj2 = Disj2::new(fail(), fail());
    let mut iter = disj2.solve(&substs);
    assert!(iter.next().is_none());

    let left = fail();
    let right = Goal::Unify(Unify::new(Term::Variable(1), Term::Atom(11)));
    let disj2 = Disj2::new(left, right);
    let mut iter = disj2.solve(&substs);
    let result = iter.next().unwrap();
    assert_eq!(result.len(), 1);
    assert_eq!(*result.get(&1).unwrap(), Term::Atom(11));
    assert!(iter.next().is_none());

    let left = Goal::Unify(Unify::new(Term::Variable(1), Term::Atom(10)));
    let right = fail();
    let disj2 = Disj2::new(left, right);
    let mut iter = disj2.solve(&substs);
    let result = iter.next().unwrap();
    assert_eq!(result.len(), 1);
    assert_eq!(*result.get(&1).unwrap(), Term::Atom(10));
    assert!(iter.next().is_none());

    let left = Goal::Unify(Unify::new(Term::Variable(1), Term::Atom(10)));
    let right = Goal::Unify(Unify::new(Term::Variable(1), Term::Atom(11)));
    let disj2 = Disj2::new(left, right);
    let mut iter = disj2.solve(&substs);
    let result = iter.next().unwrap();
    assert_eq!(result.len(), 1);
    assert_eq!(*result.get(&1).unwrap(), Term::Atom(10));
    let result = iter.next().unwrap();
    assert_eq!(result.len(), 1);
    assert_eq!(*result.get(&1).unwrap(), Term::Atom(11));
    assert!(iter.next().is_none());
}

#[test]
fn test_conj2() {
    // atom identifiers: 10 olive, 11 oil, 12 split, 13 pea, 14 red, 15 bean
    let substs = Substitution::new();
    let conj2 = Conj2::new(fail(), fail());
    let mut iter = conj2.solve(&substs);
    assert!(iter.next().is_none());

    let left = fail();
    let right = Goal::Unify(Unify::new(Term::Variable(1), Term::Atom(11)));
    let conj2 = Conj2::new(left, right);
    let mut iter = conj2.solve(&substs);
    assert!(iter.next().is_none());

    let left = Goal::Unify(Unify::new(Term::Variable(1), Term::Atom(10)));
    let right = fail();
    let conj2 = Conj2::new(left, right);
    let mut iter = conj2.solve(&substs);
    assert!(iter.next().is_none());

    let left = Goal::Unify(Unify::new(Term::Variable(1), Term::Atom(10)));
    let right = Goal::Unify(Unify::new(Term::Variable(1), Term::Atom(11)));
    let conj2 = Conj2::new(left, right);
    let mut iter = conj2.solve(&substs);
    assert!(iter.next().is_none());

    let left = Goal::Unify(Unify::new(Term::Variable(1), Term::Atom(10)));
    let right = Goal::Unify(Unify::new(Term::Variable(1), Term::Atom(10)));
    let conj2 = Conj2::new(left, right);
    let mut iter = conj2.solve(&substs);
    let result = iter.next().unwrap();
    assert_eq!(result.len(), 1);
    assert_eq!(*result.get(&1).unwrap(), Term::Atom(10));
    assert!(iter.next().is_none());

    let left = Goal::Unify(Unify::new(Term::Variable(1), Term::Atom(10)));
    let right = Goal::Unify(Unify::new(Term::Variable(2), Term::Atom(11)));
    let conj2 = Conj2::new(left, right);
    let mut iter = conj2.solve(&substs);
    let result = iter.next().unwrap();
    assert_eq!(result.len(), 2);
    assert_eq!(*result.get(&1).unwrap(), Term::Atom(10));
    assert_eq!(*result.get(&2).unwrap(), Term::Atom(11));
    assert!(iter.next().is_none());

    let left = Goal::Conj2(Conj2::new(
        Goal::Unify(Unify::new(Term::Variable(1), Term::Atom(12))),
        Goal::Unify(Unify::new(Term::Variable(2), Term::Atom(13))),
    ));
    let right = Goal::Conj2(Conj2::new(
        Goal::Unify(Unify::new(Term::Variable(1), Term::Atom(14))),
        Goal::Unify(Unify::new(Term::Variable(2), Term::Atom(15))),
    ));
    let disj2 = Disj2::new(left, right);
    let mut iter = disj2.solve(&substs);
    let result = iter.next().unwrap();
    assert_eq!(result.len(), 2);
    assert_eq!(*result.get(&1).unwrap(), Term::Atom(12));
    assert_eq!(*result.get(&2).unwrap(), Term::Atom(13));
    let result = iter.next().unwrap();
    assert_eq!(result.len(), 2);
    assert_eq!(*result.get(&1).unwrap(), Term::Atom(14));
    assert_eq!(*result.get(&2).unwrap(), Term::Atom(15));
    assert!(iter.next().is_none());
}

#[test]
fn disjunction_answers_are_the_union_of_the_branches() {
    // both branches bind the same variable; the disjunction yields both
    // bindings, each exactly once
    let substs = Substitution::new();
    let left = Goal::Unify(Unify::new(Term::Variable(7), Term::Atom(1)));
    let right = Goal::Unify(Unify::new(Term::Variable(7), Term::Atom(2)));
    let disj2 = Disj2::new(left, right);
    let mut iter = disj2.solve(&substs);
    let mut seen: Vec<Term> = Vec::new();
    while let Some(answer) = iter.next() {
        seen.push(answer.get(&7).unwrap().clone());
    }
    assert_eq!(seen.len(), 2);
    assert!(seen.contains(&Term::Atom(1)));
    assert!(seen.contains(&Term::Atom(2)));
}

#[test]
fn interleaving_is_fair_and_left_first() {
    // left yields 1 and 2; right yields 3; pulls alternate starting left
    let substs = Substitution::new();
    let left = Goal::Disj2(Disj2::new(
        Goal::Unify(Unify::new(Term::Variable(7), Term::Atom(1))),
        Goal::Unify(Unify::new(Term::Variable(7), Term::Atom(2))),
    ));
    let right = Goal::Unify(Unify::new(Term::Variable(7), Term::Atom(3)));
    let disj2 = Disj2::new(left, right);
    let mut iter = disj2.solve(&substs);
    assert_eq!(*iter.next().unwrap().get(&7).unwrap(), Term::Atom(1));
    assert_eq!(*iter.next().unwrap().get(&7).unwrap(), Term::Atom(3));
    assert_eq!(*iter.next().unwrap().get(&7).unwrap(), Term::Atom(2));
    assert!(iter.next().is_none());
}

#[test]
fn solving_twice_yields_the_same_answers() {
    let substs = Substitution::new();
    let g = Goal::Disj2(Disj2::new(
        Goal::Unify(Unify::new(Term::Variable(7), Term::Atom(1))),
        Goal::Unify(Unify::new(Term::Variable(7), Term::Atom(2))),
    ));
    let mut first = g.solve(&substs);
    let mut second = g.solve(&substs);
    loop {
        let a = first.next();
        let b = second.next();
        match (a, b) {
            (None, None) => break,
            (Some(x), Some(y)) => {
                assert_eq!(x.len(), y.len());
                assert_eq!(x.get(&7), y.get(&7));
            }
            _ => panic!("the two streams disagreed"),
        }
    }
}

#[test]
fn conjunction_pairs_left_answers_with_right_answers() {
    // left yields two bindings of 1; right yields two bindings of 2:
    // four answers in left-outer right-inner order
    let substs = Substitution::new();
    let left = Goal::Disj2(Disj2::new(
        Goal::Unify(Unify::new(Term::Variable(1), Term::Atom(1))),
        Goal::Unify(Unify::new(Term::Variable(1), Term::Atom(2))),
    ));
    let right = Goal::Disj2(Disj2::new(
        Goal::Unify(Unify::new(Term::Variable(2), Term::Atom(3))),
        Goal::Unify(Unify::new(Term::Variable(2), Term::Atom(4))),
    ));
    let conj2 = Conj2::new(left, right);
    let mut iter = conj2.solve(&substs);
    let mut pairs: Vec<(Term, Term)> = Vec::new();
    while let Some(answer) = iter.next() {
        pairs.push((
            answer.get(&1).unwrap().clone(),
            answer.get(&2).unwrap().clone(),
        ));
    }
    assert_eq!(pairs.len(), 4);
    assert_eq!(pairs[0], (Term::Atom(1), Term::Atom(3)));
    assert_eq!(pairs[1], (Term::Atom(1), Term::Atom(4)));
    assert_eq!(pairs[2], (Term::Atom(2), Term::Atom(3)));
    assert_eq!(pairs[3], (Term::Atom(2), Term::Atom(4)));
}
