use brainfuck::interpreter::Vm;
use brainfuck::lexer::scan;
use brainfuck::parser::Parser;

fn vm_with_input(program: &str) -> Vm {
    let tokens = scan(program).unwrap();
    Vm::new(Parser::parse(&tokens).unwrap())
}

#[test]
fn math_statements() {
    let mut vm = vm_with_input("++");
    vm.run();
    assert_eq!(vm.memory.get(0).unwrap(), &2);

    let mut vm = vm_with_input("+-+");
    vm.run();
    assert_eq!(vm.memory.get(0).unwrap(), &1);
}

#[test]
fn ptr_statements() {
    let mut vm = vm_with_input("+>+>+");
    vm.run();
    assert_eq!(vm.memory.get(0).unwrap(), &1);
    assert_eq!(vm.memory.get(1).unwrap(), &1);
    assert_eq!(vm.memory.get(2).unwrap(), &1);
    assert_eq!(vm.index, 2);

    let mut vm = vm_with_input("+>+<+");
    vm.run();
    assert_eq!(vm.memory.get(0).unwrap(), &2);
    assert_eq!(vm.memory.get(1).unwrap(), &1);
    assert_eq!(vm.memory.get(2).unwrap(), &0);
    assert_eq!(vm.index, 0);
}

#[test]
fn loop_statements() {
    let mut vm = vm_with_input("+++++[-]");
    let done = vm.run();
    assert!(done);
    assert_eq!(vm.memory.get(0).unwrap(), &0);
}

#[test]
fn loop_runs_once_per_pass() {
    // Two passes of a body that moves a value: anything but true
    // re-checking of the guard leaves a different tape.
    let mut vm = vm_with_input("++[->+<]");
    let done = vm.run();
    assert!(done);
    assert_eq!(vm.memory[0], 0);
    assert_eq!(vm.memory[1], 2);
}

#[test]
fn loop_skipped_when_cell_is_zero() {
    let mut vm = vm_with_input("[+>+<]+");
    let done = vm.run();
    assert!(done);
    assert_eq!(vm.memory[0], 1);
    assert_eq!(vm.memory[1], 0);
}

#[test]
fn nested_loops_run_to_exhaustion() {
    let mut vm = vm_with_input("++[>+++[-]<-]");
    let done = vm.run();
    assert!(done);
    assert_eq!(vm.memory[0], 0);
    assert_eq!(vm.memory[1], 0);
}

#[test]
fn increment_wraps_at_maximum() {
    let program = "+".repeat(256);
    let mut vm = vm_with_input(&program);
    let done = vm.run();
    assert!(done);
    assert_eq!(vm.memory[0], 0);
}

#[test]
fn decrement_wraps_at_minimum() {
    let mut vm = vm_with_input("-");
    let done = vm.run();
    assert!(done);
    assert_eq!(vm.memory[0], 255);
}

#[test]
fn pointer_clamps_at_left_edge() {
    let mut vm = vm_with_input("<<+");
    let done = vm.run();
    assert!(done);
    assert_eq!(vm.index, 0);
    assert_eq!(vm.memory[0], 1);
}

#[test]
fn pointer_clamps_at_right_edge() {
    // A three-cell tape shows the clamp without thirty thousand moves;
    // the tape length is a configuration of the machine, not of the
    // semantics.
    let tokens = scan(">>>>+").unwrap();
    let ast = Parser::parse(&tokens).unwrap();
    let mut vm = Vm::with_tape_size(ast, 3);
    let done = vm.run();
    assert!(done);
    assert_eq!(vm.index, 2);
    assert_eq!(vm.memory, vec![0u8, 0, 1]);
}

#[test]
fn read_consumes_input_and_write_emits_output() {
    let mut vm = vm_with_input(",+.>,.");
    vm.input = vec![65, 9];
    let done = vm.run();
    assert!(done);
    assert_eq!(vm.output, vec![66, 9]);
    assert_eq!(vm.cursor, 2);
}

#[test]
fn read_stores_zero_when_input_is_exhausted() {
    let mut vm = vm_with_input(",.,.");
    vm.input = vec![7];
    let done = vm.run();
    assert!(done);
    assert_eq!(vm.output, vec![7, 0]);
}

#[test]
fn run_statements_reports_exhausted_fuel() {
    let tokens = scan("+[]").unwrap();
    let ast = Parser::parse(&tokens).unwrap();
    let mut vm = Vm::new(Vec::new());
    let done = vm.run_statements(&ast, 100);
    assert!(!done);
}

#[test]
fn run_statements_finishes_within_fuel() {
    let tokens = scan("+++++[-]").unwrap();
    let ast = Parser::parse(&tokens).unwrap();
    let mut vm = Vm::new(Vec::new());
    let done = vm.run_statements(&ast, 6);
    assert!(done);
    assert_eq!(vm.memory[0], 0);
}
