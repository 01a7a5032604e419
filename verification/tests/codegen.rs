use tern::codegen::{generate, Context};
use tern::parser::parse;
use tern::tokenizer::scan;
use tern::unification::Term;
use tern::vm::{CallableKind, Opcode, Value, VirtualMachine};

fn compile(input: &str, ctx: &mut Context, vm: &mut VirtualMachine, instr: &mut Vec<Opcode>) {
    let tokens = scan(input).expect("scanning failed");
    let ast = parse(tokens).expect("parse failed");
    generate(&ast, ctx, vm, instr).expect("code generation failed");
}

#[test]
fn conj() {
    let mut ctx = Context::new();
    let mut vm = VirtualMachine::new();
    let mut instr = Vec::new();
    compile(
        "conj {'olive == 'olive, 'oil == 'oil }",
        &mut ctx,
        &mut vm,
        &mut instr,
    );
    instr.push(Opcode::Solve);
    instr.push(Opcode::Next);
    assert!(vm.run(instr).is_ok());
    if let Some(Value::Table(substs)) = vm.stack.last() {
        assert!(substs.is_empty());
    } else {
        panic!("expected a table on top of the stack");
    }
}

#[test]
fn disj() {
    let mut ctx = Context::new();
    let mut vm = VirtualMachine::new();
    let mut instr = Vec::new();
    compile(
        "disj {'olive == 'olive| 'olive == 'oil }",
        &mut ctx,
        &mut vm,
        &mut instr,
    );
    instr.push(Opcode::Solve);
    instr.push(Opcode::Next);
    assert!(vm.run(instr).is_ok());
    if let Some(Value::Table(substs)) = vm.stack.last() {
        assert!(substs.is_empty());
    } else {
        panic!("expected a table on top of the stack");
    }
}

#[test]
fn codegen_unify() {
    let mut ctx = Context::new();
    let mut vm = VirtualMachine::new();
    let mut instr = Vec::new();
    compile("'olive == 'olive", &mut ctx, &mut vm, &mut instr);
    instr.push(Opcode::Solve);
    instr.push(Opcode::Next);
    assert!(vm.run(instr).is_ok());
    if let Some(Value::Table(substs)) = vm.stack.last() {
        assert!(substs.is_empty());
    } else {
        panic!("expected a table on top of the stack");
    }
}

#[test]
fn var() {
    let mut ctx = Context::new();
    let mut vm = VirtualMachine::new();
    let mut instr = Vec::new();
    compile("var (q) { q == 'olive }", &mut ctx, &mut vm, &mut instr);
    instr.push(Opcode::Solve);
    instr.push(Opcode::Next);
    assert!(vm.run(instr).is_ok());
    if let Some(Value::Table(substs)) = vm.stack.last() {
        assert_eq!(substs.len(), 1);
        assert_eq!(
            substs.get(&Term::Variable(1)).unwrap(),
            &Term::Atom(2)
        );
        assert_eq!(vm.lookup_interned(&1).unwrap(), "q");
        assert_eq!(vm.lookup_interned(&2).unwrap(), "olive");
    } else {
        panic!("expected a table on top of the stack");
    }
}

#[test]
fn fncall() {
    let mut ctx = Context::new();
    let mut vm = VirtualMachine::new();
    let mut instr = Vec::new();
    compile(
        "next(solve(var (q) { q == 'olive }))",
        &mut ctx,
        &mut vm,
        &mut instr,
    );
    assert!(vm.run(instr).is_ok());
    if let Some(Value::Table(substs)) = vm.stack.last() {
        assert_eq!(substs.len(), 1);
        assert_eq!(
            substs.get(&Term::Variable(1)).unwrap(),
            &Term::Atom(2)
        );
        assert_eq!(vm.lookup_interned(&1).unwrap(), "q");
        assert_eq!(vm.lookup_interned(&2).unwrap(), "olive");
    } else {
        panic!("expected a table on top of the stack");
    }
    let mut ctx = Context::new();
    let mut vm = VirtualMachine::new();
    let mut instr = Vec::new();
    compile(
        "next(solve('apple == 'orange))",
        &mut ctx,
        &mut vm,
        &mut instr,
    );
    assert!(vm.run(instr).is_ok());
    if let Some(Value::Nil) = vm.stack.last() {
        // no answer
    } else {
        panic!("expected the none value on top of the stack");
    }
}

#[test]
fn program() {
    let mut ctx = Context::new();
    let mut vm = VirtualMachine::new();
    let mut instr = Vec::new();
    compile(
        "next(solve(var (q) { q == 'olive }))\nnext(solve(var (q) { q == 'oil }))",
        &mut ctx,
        &mut vm,
        &mut instr,
    );
    assert!(vm.run(instr).is_ok());
    if let Some(Value::Table(substs)) = vm.stack.pop() {
        assert_eq!(substs.len(), 1);
        assert_eq!(
            substs.get(&Term::Variable(3)).unwrap(),
            &Term::Atom(4)
        );
        assert_eq!(vm.lookup_interned(&3).unwrap(), "q");
        assert_eq!(vm.lookup_interned(&4).unwrap(), "oil");
    } else {
        panic!("expected a table on top of the stack");
    }
    vm.stack.pop();
    if let Some(Value::Table(substs)) = vm.stack.pop() {
        assert_eq!(substs.len(), 1);
        assert_eq!(
            substs.get(&Term::Variable(1)).unwrap(),
            &Term::Atom(2)
        );
        assert_eq!(vm.lookup_interned(&1).unwrap(), "q");
        assert_eq!(vm.lookup_interned(&2).unwrap(), "olive");
    } else {
        panic!("expected a table under the stream");
    }
}

#[test]
fn codegen_table() {
    let mut ctx = Context::new();
    let mut vm = VirtualMachine::new();
    let mut instr = Vec::new();
    compile("{x: 'olive, y: 'oil}", &mut ctx, &mut vm, &mut instr);
    assert!(vm.run(instr).is_ok());
    if let Some(Value::Table(table)) = vm.stack.last() {
        assert_eq!(table.len(), 2);
        assert_eq!(table.get(&Term::Variable(1)).unwrap(), &Term::Atom(2));
        assert_eq!(table.get(&Term::Variable(3)).unwrap(), &Term::Atom(4));
        assert_eq!(vm.lookup_interned(&1).unwrap(), "x");
        assert_eq!(vm.lookup_interned(&2).unwrap(), "olive");
        assert_eq!(vm.lookup_interned(&3).unwrap(), "y");
        assert_eq!(vm.lookup_interned(&4).unwrap(), "oil");
    } else {
        panic!("expected a table on top of the stack");
    }
}

#[test]
fn letbindings() {
    let mut ctx = Context::new();
    let mut vm = VirtualMachine::new();
    let mut instr = Vec::new();
    compile(
        "let x = {x: 'olive, y: 'oil}\nlet y = 'banana == 'apple\nlet z = solve('banana == 'banana) x y",
        &mut ctx,
        &mut vm,
        &mut instr,
    );
    assert!(vm.run(instr).is_ok());
    if let Some(Value::Goal(_)) = vm.stack.pop() {
        // the goal bound to y
    } else {
        panic!("expected a goal on top of the stack");
    }
    if let Some(Value::Table(table)) = vm.stack.pop() {
        assert_eq!(table.len(), 2);
        assert_eq!(table.get(&Term::Variable(1)).unwrap(), &Term::Atom(2));
        assert_eq!(table.get(&Term::Variable(3)).unwrap(), &Term::Atom(4));
        assert_eq!(vm.lookup_interned(&1).unwrap(), "x");
        assert_eq!(vm.lookup_interned(&2).unwrap(), "olive");
        assert_eq!(vm.lookup_interned(&3).unwrap(), "y");
        assert_eq!(vm.lookup_interned(&4).unwrap(), "oil");
    } else {
        panic!("expected a table under the goal");
    }
}

#[test]
fn codegen_callable() {
    let mut ctx = Context::new();
    let mut vm = VirtualMachine::new();
    let mut instr = Vec::new();
    compile(
        "rel(x) {
                disj {
                    x == 'sarah |
                    x == 'milcah |
                    x == 'yiscah
                }
            }",
        &mut ctx,
        &mut vm,
        &mut instr,
    );
    assert!(vm.run(instr).is_ok());
    assert_eq!(vm.stack.len(), 1);
    if let Some(Value::Callable {
        kind,
        parameters,
        instructions: _,
        ip,
    }) = vm.stack.last()
    {
        assert!(*kind == CallableKind::Relation);
        assert!(parameters.len() == 1);
        assert!(*ip == 0);
    } else {
        panic!("expected a callable on top of the stack");
    }
}

#[test]
fn generation_is_deterministic() {
    // the same program compiled from the same fresh state twice yields
    // the same instruction buffer
    let source = "var (q) { disj { q == 'olive | q == 'oil } }";
    let mut first: Vec<Opcode> = Vec::new();
    {
        let mut ctx = Context::new();
        let mut vm = VirtualMachine::new();
        compile(source, &mut ctx, &mut vm, &mut first);
    }
    let mut second: Vec<Opcode> = Vec::new();
    {
        let mut ctx = Context::new();
        let mut vm = VirtualMachine::new();
        compile(source, &mut ctx, &mut vm, &mut second);
    }
    assert_eq!(first.len(), second.len());
    for i in 0..first.len() {
        match (&first[i], &second[i]) {
            (Opcode::Atom(a), Opcode::Atom(b)) => assert_eq!(a, b),
            (Opcode::Variable(a), Opcode::Variable(b)) => assert_eq!(a, b),
            (Opcode::Unify, Opcode::Unify) => {}
            (Opcode::Conj2, Opcode::Conj2) => {}
            (Opcode::Disj2, Opcode::Disj2) => {}
            _ => panic!("instruction buffers differ at position {}", i),
        }
    }
}

#[test]
fn undefined_builtin_is_a_syntax_error() {
    let tokens = scan("frobnicate('olive == 'olive)").unwrap();
    let ast = parse(tokens).unwrap();
    let mut ctx = Context::new();
    let mut vm = VirtualMachine::new();
    let mut instr = Vec::new();
    let e = generate(&ast, &mut ctx, &mut vm, &mut instr).unwrap_err();
    assert_eq!(e.msg, "Undefined function: frobnicate");
}
