//! End-to-end runs of small programs: source text through the scanner,
//! the parser, the code generator, and the virtual machine.

use tern::codegen::{generate, Context};
use tern::parser::parse;
use tern::tokenizer::scan;
use tern::unification::Term;
use tern::vm::{CallableKind, Opcode, Value, VirtualMachine};

fn eval(input: &str, vm: &mut VirtualMachine) {
    let tokens = scan(input).expect("scanning failed");
    let ast = parse(tokens).expect("parse failed");
    let mut ctx = Context::new();
    let mut instr = Vec::new();
    generate(&ast, &mut ctx, vm, &mut instr).expect("code generation failed");
    instr.push(Opcode::Solve);
    instr.push(Opcode::Next);
    vm.run(instr).expect("the machine failed");
}

#[test]
fn equal_atoms_answer_an_empty_table() {
    let mut vm = VirtualMachine::new();
    eval("'olive == 'olive", &mut vm);
    if let Some(Value::Table(t)) = vm.stack.last() {
        assert!(t.is_empty());
    } else {
        panic!("expected a table on top of the stack");
    }
}

#[test]
fn distinct_atoms_answer_none() {
    let mut vm = VirtualMachine::new();
    eval("'apple == 'orange", &mut vm);
    match vm.stack.last() {
        Some(Value::Nil) => {}
        _ => panic!("expected the none value on top of the stack"),
    }
}

#[test]
fn a_fresh_variable_is_bound_and_its_name_recovered() {
    let mut vm = VirtualMachine::new();
    eval("var (q) { q == 'olive }", &mut vm);
    if let Some(Value::Table(t)) = vm.stack.last() {
        assert_eq!(t.len(), 1);
        let bound = t.get(&Term::Variable(1)).unwrap();
        assert_eq!(bound, &Term::Atom(2));
        assert_eq!(vm.lookup_interned(&1).unwrap(), "q");
        assert_eq!(vm.lookup_interned(&2).unwrap(), "olive");
    } else {
        panic!("expected a table on top of the stack");
    }
}

#[test]
fn a_disjunction_answers_left_first_then_right() {
    let mut vm = VirtualMachine::new();
    let tokens = scan("var (q) { disj { q == 'olive | q == 'oil } }").unwrap();
    let ast = parse(tokens).unwrap();
    let mut ctx = Context::new();
    let mut instr = Vec::new();
    generate(&ast, &mut ctx, &mut vm, &mut instr).unwrap();
    instr.push(Opcode::Solve);
    instr.push(Opcode::Next);
    vm.run(instr.clone()).unwrap();
    if let Some(Value::Table(t1)) = vm.stack.pop() {
        assert_eq!(t1.get(&Term::Variable(1)).unwrap(), &Term::Atom(2));
        assert_eq!(vm.lookup_interned(&2).unwrap(), "olive");
    } else {
        panic!("expected the first answer's table");
    }
    // pull a second answer: set the first table aside and ask again
    let mut vm2 = VirtualMachine::new();
    let tokens2 = scan("var (q) { disj { q == 'olive | q == 'oil } }").unwrap();
    let ast2 = parse(tokens2).unwrap();
    let mut ctx2 = Context::new();
    let mut instr2 = Vec::new();
    generate(&ast2, &mut ctx2, &mut vm2, &mut instr2).unwrap();
    instr2.push(Opcode::Solve);
    instr2.push(Opcode::Next);
    instr2.push(Opcode::Pop);
    instr2.push(Opcode::Next);
    vm2.run(instr2).unwrap();
    if let Some(Value::Table(t2)) = vm2.stack.pop() {
        assert_eq!(t2.get(&Term::Variable(1)).unwrap(), &Term::Atom(3));
        assert_eq!(vm2.lookup_interned(&3).unwrap(), "oil");
    } else {
        panic!("expected the second answer's table");
    }
}

#[test]
fn a_relation_literal_evaluates_to_a_callable() {
    let mut vm = VirtualMachine::new();
    let tokens =
        scan("rel(x) { disj { x == 'sarah | x == 'milcah | x == 'yiscah } }").unwrap();
    let ast = parse(tokens).unwrap();
    let mut ctx = Context::new();
    let mut instr = Vec::new();
    generate(&ast, &mut ctx, &mut vm, &mut instr).unwrap();
    vm.run(instr).unwrap();
    assert_eq!(vm.stack.len(), 1);
    if let Some(Value::Callable {
        kind,
        parameters,
        instructions: _,
        ip,
    }) = vm.stack.last()
    {
        assert!(*kind == CallableKind::Relation);
        assert_eq!(parameters.len(), 1);
        assert_eq!(*ip, 0);
    } else {
        panic!("expected a callable on top of the stack");
    }
}

#[test]
fn let_bindings_store_tables_and_goals() {
    let mut vm = VirtualMachine::new();
    let tokens = scan(
        "let x = {x: 'olive, y: 'oil}\nlet y = 'banana == 'apple\nlet z = solve('banana == 'banana) x y",
    )
    .unwrap();
    let ast = parse(tokens).unwrap();
    let mut ctx = Context::new();
    let mut instr = Vec::new();
    generate(&ast, &mut ctx, &mut vm, &mut instr).unwrap();
    vm.run(instr).unwrap();
    if let Some(Value::Goal(_)) = vm.stack.pop() {
        // the goal bound to y
    } else {
        panic!("expected a goal on top of the stack");
    }
    if let Some(Value::Table(t)) = vm.stack.pop() {
        assert_eq!(t.len(), 2);
    } else {
        panic!("expected a table under the goal");
    }
}

#[test]
fn an_empty_program_runs_to_an_empty_stack() {
    let mut vm = VirtualMachine::new();
    let tokens = scan("").unwrap();
    let ast = parse(tokens).unwrap();
    let mut ctx = Context::new();
    let mut instr = Vec::new();
    generate(&ast, &mut ctx, &mut vm, &mut instr).unwrap();
    assert!(vm.run(instr).is_ok());
    assert_eq!(vm.stack.len(), 0);
}
