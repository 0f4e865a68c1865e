use turing_codegen::compiler::turing_compiler::TuringCompiler;
use turing_codegen::enums::movement::Movement;
use turing_codegen::machine::turing_machine::TuringMachine;
use turing_codegen::machine::turing_tape::TuringTape;

#[test]
fn test_chained_loop() {
    let mut compiler = TuringCompiler::default();
    let start_state = compiler.allocate_state();
    let done = compiler.halt(None);

    compiler.chained_loop(
        3,
        Some(start_state),
        Some(done),
        |compiler: &mut TuringCompiler, _, iter_start, iter_end| {
            let new_state = compiler.allocate_state();
            compiler.mark(iter_start, Some(new_state));
            compiler.unmark(Some(new_state), iter_end)
        },
    );

    let mut tm = TuringMachine::default().with_program(compiler.get_program());
    let _ = tm.program_step();
    assert!(tm.read());
    let _ = tm.program_step();
    assert!(!tm.read());
    let _ = tm.program_step();
    assert!(tm.read());
    let _ = tm.program_step();
    assert!(!tm.read());
    let _ = tm.program_step();
    assert!(tm.read());
    let _ = tm.program_step();
    assert!(!tm.read());
    let _ = tm.program_step();
    assert!(!tm.read());
}

#[test]
fn test_move_right_x() {
    let mut compiler = TuringCompiler::default();
    let move_state = compiler.allocate_state();
    let done = compiler.halt(None);

    compiler.move_right_x(53, Some(move_state), Some(done));

    let mut tm = TuringMachine::default().with_program(compiler.get_program());
    let _ = tm.run_program();
    assert_eq!(tm.head, 53);
}

#[test]
fn test_move_left_x() {
    let mut compiler = TuringCompiler::default();
    let move_state = compiler.allocate_state();
    let done = compiler.halt(None);

    compiler.move_left_x(5, Some(move_state), Some(done));

    let mut tm = TuringMachine::default().with_program(compiler.get_program());
    let _ = tm.run_program();
    assert_eq!(tm.head, 3);
}

#[test]
fn test_scan_single() {
    let mut compiler = TuringCompiler::default();
    let scan_state = compiler.allocate_state();
    let done = compiler.halt(None);

    compiler.scan_single(true, Movement::Right, Movement::Stay, Some(scan_state), Some(done));

    let mut tape = TuringTape::default();
    tape.set(2763);
    let mut tm = TuringMachine::default().with_program(compiler.get_program()).with_tape(tape);
    let _ = tm.run_program();
    assert_eq!(tm.head, 2763);
}

#[test]
fn test_branch_when() {
    let mut compiler = TuringCompiler::default();
    let branch_state = compiler.allocate_state();
    let done = compiler.halt(None);

    compiler.branch_when(
        false,
        Movement::Right,
        Movement::Left,
        Some(branch_state),
        Some(branch_state),
        Some(done),
    );

    let mut tape = TuringTape::default();
    tape.set(1);
    let mut tm = TuringMachine::default().with_program(compiler.get_program()).with_tape(tape);
    let _ = tm.program_step();
    assert_eq!(tm.head, 1);
    let _ = tm.program_step();
    assert_eq!(tm.head, 0);
}

#[test]
fn test_or() {
    let mut compiler = TuringCompiler::default();

    let start_state = compiler.allocate_state();
    let done = compiler.halt(None);

    compiler.chained_loop(
        4,
        Some(start_state),
        Some(done),
        |compiler: &mut TuringCompiler, _, iter_start, iter_end| {
            compiler.or(Movement::Right, Movement::Right, iter_start, iter_end)
        },
    );

    // Basically a truth table of the inputs, just unrolled on the tape
    let mut tape = TuringTape::default();
    tape.set(3);
    tape.set(7);
    tape.set(9);
    tape.set(10);
    let mut tm = TuringMachine::default().with_program(compiler.get_program()).with_tape(tape);
    let _ = tm.run_program();

    assert!(!tm.tape.read(0));
    assert!(!tm.tape.read(1));
    assert!(!tm.tape.read(2));
    assert!(tm.tape.read(3));
    assert!(!tm.tape.read(4));
    assert!(tm.tape.read(5));
    assert!(!tm.tape.read(6));
    assert!(tm.tape.read(7));
    assert!(tm.tape.read(8));
    assert!(tm.tape.read(9));
    assert!(tm.tape.read(10));
    assert!(tm.tape.read(11));
    assert_eq!(tm.head, 12);
}

#[test]
fn test_and() {
    let mut compiler = TuringCompiler::default();

    let start_state = compiler.allocate_state();
    let done = compiler.halt(None);

    compiler.chained_loop(
        4,
        Some(start_state),
        Some(done),
        |compiler: &mut TuringCompiler, _, iter_start, iter_end| {
            compiler.and(Movement::Right, Movement::Right, iter_start, iter_end)
        },
    );

    // Basically a truth table of the inputs, just unrolled on the tape
    let mut tape = TuringTape::default();
    tape.set(3);
    tape.set(7);
    tape.set(9);
    tape.set(10);
    let mut tm = TuringMachine::default().with_program(compiler.get_program()).with_tape(tape);
    let _ = tm.run_program();

    assert!(!tm.tape.read(0));
    assert!(!tm.tape.read(1));
    assert!(!tm.tape.read(2));
    assert!(tm.tape.read(3));
    assert!(!tm.tape.read(4));
    assert!(!tm.tape.read(5));
    assert!(!tm.tape.read(6));
    assert!(tm.tape.read(7));
    assert!(!tm.tape.read(8));
    assert!(tm.tape.read(9));
    assert!(tm.tape.read(10));
    assert!(tm.tape.read(11));
    assert_eq!(tm.head, 12);
}

#[test]
fn test_xor() {
    let mut compiler = TuringCompiler::default();

    let start_state = compiler.allocate_state();
    let done = compiler.halt(None);

    compiler.chained_loop(
        4,
        Some(start_state),
        Some(done),
        |compiler: &mut TuringCompiler, _, iter_start, iter_end| {
            compiler.xor(Movement::Right, Movement::Right, iter_start, iter_end)
        },
    );

    // Basically a truth table of the inputs, just unrolled on the tape
    let mut tape = TuringTape::default();
    tape.set(3);
    tape.set(7);
    tape.set(9);
    tape.set(10);
    let mut tm = TuringMachine::default().with_program(compiler.get_program()).with_tape(tape);
    let _ = tm.run_program();

    assert!(!tm.tape.read(0));
    assert!(!tm.tape.read(1));
    assert!(!tm.tape.read(2));
    assert!(tm.tape.read(3));
    assert!(!tm.tape.read(4));
    assert!(tm.tape.read(5));
    assert!(!tm.tape.read(6));
    assert!(tm.tape.read(7));
    assert!(tm.tape.read(8));
    assert!(tm.tape.read(9));
    assert!(tm.tape.read(10));
    assert!(!tm.tape.read(11));
    assert_eq!(tm.head, 12);
}

#[test]
fn test_add() {
    let mut compiler = TuringCompiler::default();

    let start_state = compiler.allocate_state();
    let done = compiler.halt(None);

    compiler.chained_loop(
        8,
        Some(start_state),
        Some(done),
        |compiler: &mut TuringCompiler, _, iter_start, iter_end| {
            compiler.add(Movement::Right, Movement::Right, iter_start, iter_end)
        },
    );

    // Basically a truth table of the inputs, just unrolled on the tape
    let mut tape = TuringTape::default();
    tape.set(5);
    tape.set(11);
    tape.set(15);
    tape.set(16);
    tape.set(22);
    tape.set(25);
    tape.set(27);
    tape.set(31);
    tape.set(32);
    tape.set(35);
    tape.set(36);
    tape.set(37);
    let mut tm = TuringMachine::default().with_program(compiler.get_program()).with_tape(tape);
    let _ = tm.run_program();

    assert!(!tm.tape.read(0));
    assert!(!tm.tape.read(1));
    assert!(!tm.tape.read(2));
    assert!(!tm.tape.read(3));
    assert!(!tm.tape.read(4));
    assert!(tm.tape.read(5));
    assert!(!tm.tape.read(6));
    assert!(!tm.tape.read(7));
    assert!(tm.tape.read(8));
    assert!(!tm.tape.read(9));
    assert!(!tm.tape.read(10));
    assert!(tm.tape.read(11));
    assert!(!tm.tape.read(12));
    assert!(tm.tape.read(13));
    assert!(!tm.tape.read(14));
    assert!(tm.tape.read(15));
    assert!(tm.tape.read(16));
    assert!(!tm.tape.read(17));
    assert!(!tm.tape.read(18));
    assert!(tm.tape.read(19));
    assert!(!tm.tape.read(20));
    assert!(!tm.tape.read(21));
    assert!(tm.tape.read(22));
    assert!(tm.tape.read(23));
    assert!(!tm.tape.read(24));
    assert!(tm.tape.read(25));
    assert!(!tm.tape.read(26));
    assert!(tm.tape.read(27));
    assert!(!tm.tape.read(28));
    assert!(tm.tape.read(29));
    assert!(!tm.tape.read(30));
    assert!(tm.tape.read(31));
    assert!(tm.tape.read(32));
    assert!(!tm.tape.read(33));
    assert!(tm.tape.read(34));
    assert!(tm.tape.read(35));
    assert!(tm.tape.read(36));
    assert!(tm.tape.read(37));
    assert!(tm.tape.read(38));
    assert!(tm.tape.read(39));
    assert_eq!(tm.head, 40);
}
