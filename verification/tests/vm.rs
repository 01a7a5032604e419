use tern::logic::{Conj2, Disj2, Goal, Unify};
use tern::unification::{Substitution, Term};
use tern::vm::{CallableKind, Opcode, Value, VirtualMachine};

#[test]
fn values() {
    let mut vm = VirtualMachine::new();
    vm.stack.push(Value::Term(Term::Atom(1)));
    vm.stack.push(Value::Term(Term::Variable(1)));
    vm.stack.push(Value::Goal(Goal::Unify(Unify::new(
        Term::Variable(1),
        Term::Atom(1),
    ))));
    vm.stack.push(Value::Goal(Goal::Disj2(Disj2::new(
        Goal::Unify(Unify::new(Term::Variable(1), Term::Atom(1))),
        Goal::Unify(Unify::new(Term::Variable(1), Term::Atom(2))),
    ))));
    vm.stack.push(Value::Goal(Goal::Conj2(Conj2::new(
        Goal::Disj2(Disj2::new(
            Goal::Unify(Unify::new(Term::Variable(1), Term::Atom(1))),
            Goal::Unify(Unify::new(Term::Variable(1), Term::Atom(2))),
        )),
        Goal::Unify(Unify::new(Term::Variable(1), Term::Atom(2))),
    ))));
    let substs = Substitution::new();
    let stream = if let Some(Value::Goal(goal)) = vm.stack.last() {
        Some(goal.solve(&substs))
    } else {
        None
    };
    vm.stack.push(Value::Stream(stream.unwrap()));
    let table = tern::vm::Table::new();
    vm.stack.push(Value::Table(table));
    vm.stack.push(Value::Nil);
    vm.stack.push(Value::Callable {
        kind: CallableKind::Relation,
        parameters: Vec::new(),
        instructions: Vec::new(),
        ip: 0,
    });
    assert_eq!(vm.stack.len(), 9);
}

#[test]
fn vm_unify() {
    let mut vm = VirtualMachine::new();
    let mut instr = Vec::new();
    instr.push(Opcode::Atom(1));
    instr.push(Opcode::Atom(1));
    instr.push(Opcode::Unify);
    instr.push(Opcode::Solve);
    instr.push(Opcode::Next);
    assert!(vm.run(instr).is_ok());
    if let Some(Value::Table(substs)) = vm.stack.last() {
        assert!(substs.is_empty());
    } else {
        panic!("expected a table on top of the stack");
    }

    let mut vm = VirtualMachine::new();
    let mut instr = Vec::new();
    instr.push(Opcode::Atom(1));
    instr.push(Opcode::Atom(2));
    instr.push(Opcode::Unify);
    instr.push(Opcode::Solve);
    instr.push(Opcode::Next);
    assert!(vm.run(instr).is_ok());
    match vm.stack.last() {
        Some(Value::Nil) => {}
        _ => panic!("expected the none value on top of the stack"),
    }

    let mut vm = VirtualMachine::new();
    let mut instr = Vec::new();
    instr.push(Opcode::Variable(1));
    instr.push(Opcode::Atom(2));
    instr.push(Opcode::Unify);
    instr.push(Opcode::Solve);
    instr.push(Opcode::Next);
    assert!(vm.run(instr).is_ok());
    if let Some(Value::Table(substs)) = vm.stack.last() {
        assert_eq!(
            substs.get(&Term::Variable(1)).unwrap(),
            &Term::Atom(2)
        );
    } else {
        panic!("expected a table on top of the stack");
    }
}

#[test]
fn disj2() {
    // the first branch of the disjunction answers first: the branch
    // pushed first is the left operand
    let mut vm = VirtualMachine::new();
    let mut instr = Vec::new();
    instr.push(Opcode::Variable(1));
    instr.push(Opcode::Atom(1));
    instr.push(Opcode::Unify);
    instr.push(Opcode::Variable(1));
    instr.push(Opcode::Atom(2));
    instr.push(Opcode::Unify);
    instr.push(Opcode::Disj2);
    instr.push(Opcode::Solve);
    instr.push(Opcode::Next);
    assert!(vm.run(instr).is_ok());
    if let Some(Value::Table(substs)) = vm.stack.last() {
        assert_eq!(
            substs.get(&Term::Variable(1)).unwrap(),
            &Term::Atom(1)
        );
    } else {
        panic!("expected a table on top of the stack");
    }
}

#[test]
fn conj2() {
    let mut vm = VirtualMachine::new();
    let mut instr = Vec::new();
    instr.push(Opcode::Variable(1));
    instr.push(Opcode::Atom(1));
    instr.push(Opcode::Unify);
    instr.push(Opcode::Variable(2));
    instr.push(Opcode::Atom(2));
    instr.push(Opcode::Unify);
    instr.push(Opcode::Conj2);
    instr.push(Opcode::Solve);
    instr.push(Opcode::Next);
    assert!(vm.run(instr).is_ok());
    if let Some(Value::Table(substs)) = vm.stack.last() {
        assert_eq!(
            substs.get(&Term::Variable(1)).unwrap(),
            &Term::Atom(1)
        );
    } else {
        panic!("expected a table on top of the stack");
    }
}

#[test]
fn vm_table() {
    let mut vm = VirtualMachine::new();
    let mut instr = Vec::new();
    instr.push(Opcode::NewTable);
    assert!(vm.run(instr).is_ok());
    if let Some(Value::Table(table)) = vm.stack.last() {
        assert_eq!(table.len(), 0);
    } else {
        panic!("expected a table on top of the stack");
    }

    let mut vm = VirtualMachine::new();
    let mut instr = Vec::new();
    instr.push(Opcode::NewTable);
    instr.push(Opcode::Variable(1));
    instr.push(Opcode::Atom(2));
    instr.push(Opcode::SetTable);
    assert!(vm.run(instr).is_ok());
    assert_eq!(vm.stack.len(), 1);
    if let Some(Value::Table(table)) = vm.stack.last() {
        assert_eq!(table.len(), 1);
        assert_eq!(
            table.get(&Term::Variable(1)).unwrap(),
            &Term::Atom(2)
        );
    } else {
        panic!("expected a table on top of the stack");
    }

    let mut vm = VirtualMachine::new();
    let mut instr = Vec::new();
    instr.push(Opcode::NewTable);
    instr.push(Opcode::Variable(1));
    instr.push(Opcode::Atom(2));
    instr.push(Opcode::SetTable);
    instr.push(Opcode::Variable(2));
    instr.push(Opcode::GetTable);
    assert!(vm.run(instr).is_ok());
    assert_eq!(vm.stack.len(), 2);
    if let Some(Value::Nil) = vm.stack.last() {
        // a missing key answers with the none value
    } else {
        panic!("expected the none value on top of the stack");
    }

    let mut vm = VirtualMachine::new();
    let mut instr = Vec::new();
    instr.push(Opcode::NewTable);
    instr.push(Opcode::Variable(1));
    instr.push(Opcode::Atom(2));
    instr.push(Opcode::SetTable);
    instr.push(Opcode::Variable(1));
    instr.push(Opcode::GetTable);
    assert!(vm.run(instr).is_ok());
    assert_eq!(vm.stack.len(), 2);
    if let Some(Value::Term(Term::Atom(2))) = vm.stack.last() {
        // the stored value came back
    } else {
        panic!("expected the stored term on top of the stack");
    }
}

#[test]
fn env() {
    let mut vm = VirtualMachine::new();
    let mut instr = Vec::new();
    instr.push(Opcode::Variable(1));
    instr.push(Opcode::Atom(2));
    instr.push(Opcode::SetEnv);
    assert!(vm.run(instr).is_ok());
    assert_eq!(vm.stack.len(), 0);

    // terms
    let mut vm = VirtualMachine::new();
    let mut instr = Vec::new();
    instr.push(Opcode::Variable(1));
    instr.push(Opcode::Atom(2));
    instr.push(Opcode::SetEnv);
    instr.push(Opcode::Variable(1));
    instr.push(Opcode::GetEnv);
    assert!(vm.run(instr).is_ok());
    assert_eq!(vm.stack.len(), 1);
    if let Some(Value::Term(Term::Atom(2))) = vm.stack.last() {
        // the bound term came back
    } else {
        panic!("expected the bound term on top of the stack");
    }

    // goals
    let mut vm = VirtualMachine::new();
    let mut instr = Vec::new();
    instr.push(Opcode::Variable(1));
    instr.push(Opcode::Atom(2));
    instr.push(Opcode::Atom(2));
    instr.push(Opcode::Unify);
    instr.push(Opcode::SetEnv);
    instr.push(Opcode::Variable(1));
    instr.push(Opcode::GetEnv);
    assert!(vm.run(instr).is_ok());
    assert_eq!(vm.stack.len(), 1);
    if let Some(Value::Goal(_)) = vm.stack.last() {
        // the bound goal came back
    } else {
        panic!("expected the bound goal on top of the stack");
    }

    // streams cannot be retrieved
    let mut vm = VirtualMachine::new();
    let mut instr = Vec::new();
    instr.push(Opcode::Variable(1));
    instr.push(Opcode::Atom(2));
    instr.push(Opcode::Atom(2));
    instr.push(Opcode::Unify);
    instr.push(Opcode::NewTable);
    instr.push(Opcode::Solve);
    instr.push(Opcode::SetEnv);
    instr.push(Opcode::Variable(1));
    instr.push(Opcode::GetEnv);
    assert!(!vm.run(instr).is_ok());

    // tables
    let mut vm = VirtualMachine::new();
    let mut instr = Vec::new();
    instr.push(Opcode::Variable(1));
    instr.push(Opcode::NewTable);
    instr.push(Opcode::SetEnv);
    instr.push(Opcode::Variable(1));
    instr.push(Opcode::GetEnv);
    assert!(vm.run(instr).is_ok());
    assert_eq!(vm.stack.len(), 1);
    if let Some(Value::Table(_)) = vm.stack.last() {
        // the bound table came back
    } else {
        panic!("expected the bound table on top of the stack");
    }

    // an atom cannot name an environment entry
    let mut vm = VirtualMachine::new();
    let mut instr = Vec::new();
    instr.push(Opcode::Atom(1));
    instr.push(Opcode::Atom(2));
    instr.push(Opcode::SetEnv);
    assert!(!vm.run(instr).is_ok());
}

#[test]
fn vm_callable() {
    let mut vm = VirtualMachine::new();
    let mut instr = Vec::new();
    instr.push(Opcode::Callable {
        kind: CallableKind::Relation,
        parameters: Vec::new(),
        instructions: vec![
            Opcode::Atom(1),
            Opcode::Atom(1),
            Opcode::Unify,
            Opcode::Ret,
        ],
        ip: 0,
    });
    instr.push(Opcode::Call);
    instr.push(Opcode::Solve);
    instr.push(Opcode::Next);
    assert!(vm.run(instr).is_ok());
    assert_eq!(vm.stack.len(), 2);
    if let Some(Value::Table(substs)) = vm.stack.last() {
        assert!(substs.is_empty());
    } else {
        panic!("expected a table on top of the stack");
    }

    let mut vm = VirtualMachine::new();
    vm.stack.push(Value::Term(Term::Variable(1)));
    vm.stack.push(Value::Callable {
        kind: CallableKind::Relation,
        parameters: vec![1],
        instructions: vec![
            Opcode::Variable(1),
            Opcode::Atom(2),
            Opcode::Unify,
            Opcode::Ret,
        ],
        ip: 0,
    });
    let mut instr = Vec::new();
    instr.push(Opcode::Call);
    instr.push(Opcode::Solve);
    instr.push(Opcode::Next);
    assert!(vm.run(instr).is_ok());
    assert_eq!(vm.stack.len(), 2);
    if let Some(Value::Table(substs)) = vm.stack.last() {
        assert_eq!(
            substs.get(&Term::Variable(1)).unwrap(),
            &Term::Atom(2)
        );
    } else {
        panic!("expected a table on top of the stack");
    }
}

#[test]
fn run_errors_name_the_failing_instruction() {
    // popping an empty stack fails at instruction pointer zero
    let mut vm = VirtualMachine::new();
    let err = vm.run(vec![Opcode::Pop]).unwrap_err();
    assert_eq!(err.msg, "Stack underflow.");
    assert_eq!(err.ip, 0);

    // solving a term fails with a type error
    let mut vm = VirtualMachine::new();
    let err = vm
        .run(vec![Opcode::Atom(1), Opcode::Solve])
        .unwrap_err();
    assert_eq!(err.msg, "TypeError: Expected goal.");
    assert_eq!(err.ip, 1);

    // calling a term fails with a type error
    let mut vm = VirtualMachine::new();
    let err = vm
        .run(vec![Opcode::Atom(1), Opcode::Call])
        .unwrap_err();
    assert_eq!(err.msg, "TypeError: Expected callable.");
    assert_eq!(err.ip, 1);

    // looking up an unbound name fails
    let mut vm = VirtualMachine::new();
    let err = vm
        .run(vec![Opcode::Variable(1), Opcode::GetEnv])
        .unwrap_err();
    assert_eq!(err.msg, "Undefined variable.");
    assert_eq!(err.ip, 1);
}

#[test]
fn rendering_rehydrates_names_and_falls_back_to_ids() {
    let mut vm = VirtualMachine::new();
    let q = vm.intern(&"q".to_string());
    let olive = vm.intern(&"olive".to_string());
    assert_eq!(vm.render_term(&Term::Variable(q)), "q");
    assert_eq!(vm.render_term(&Term::Atom(olive)), "olive");
    // an identifier the interner does not know prints as its number
    assert_eq!(vm.render_term(&Term::Atom(705)), "705");
    assert_eq!(
        vm.render_term(&Term::Tuple(vec![
            Term::Variable(q),
            Term::Atom(olive),
            Term::Atom(10)
        ])),
        "[q, olive, 10]"
    );
    assert_eq!(vm.render_term(&Term::Tuple(vec![])), "[]");
}

#[test]
fn intern_allocates_fresh_ids() {
    let mut vm = VirtualMachine::new();
    let a = vm.intern(&"olive".to_string());
    let b = vm.intern(&"olive".to_string());
    assert_eq!(a, 1);
    assert_eq!(b, 2);
    assert_eq!(vm.lookup_interned(&1).unwrap(), "olive");
    assert_eq!(vm.lookup_interned(&2).unwrap(), "olive");
    assert!(vm.lookup_interned(&3).is_none());
}
