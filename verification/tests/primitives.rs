use turing_codegen::compiler::turing_compiler::TuringCompiler;
use turing_codegen::enums::movement::Movement;
use turing_codegen::machine::turing_machine::TuringMachine;
use turing_codegen::machine::turing_tape::TuringTape;

#[test]
fn test_move_left() {
    let mut compiler = TuringCompiler::default();

    let move_state = compiler.allocate_state();
    let done = compiler.halt(None);
    compiler.move_left(Some(move_state), Some(done));

    let mut tm = TuringMachine::default().with_program(compiler.get_program());
    let _ = tm.run_program();

    assert_eq!(tm.head, 7);
}

#[test]
fn test_move_right() {
    let mut compiler = TuringCompiler::default();

    let move_state = compiler.allocate_state();
    let done = compiler.halt(None);
    compiler.move_right(Some(move_state), Some(done));

    let mut tm = TuringMachine::default().with_program(compiler.get_program());
    let _ = tm.run_program();

    assert_eq!(tm.head, 1);
}

#[test]
fn test_branch() {
    let mut compiler = TuringCompiler::default();

    let check_if_one = compiler.allocate_state();
    let move_left = compiler.allocate_state();
    let done = compiler.halt(None);

    compiler.branch(
        Some(check_if_one),
        Some(move_left),
        Some(check_if_one),
        Movement::Left,
        Movement::Right,
    );

    compiler.move_left(Some(move_left), Some(done));

    let mut tape = TuringTape::default();
    tape.set(5);

    let mut tm = TuringMachine::default()
        .with_program(compiler.get_program())
        .with_tape(tape);
    let _ = tm.program_step();
    assert_eq!(tm.head, 1);
    let _ = tm.program_step();
    assert_eq!(tm.head, 2);
    let _ = tm.program_step();
    assert_eq!(tm.head, 3);
    let _ = tm.program_step();
    assert_eq!(tm.head, 4);
    let _ = tm.program_step();
    assert_eq!(tm.head, 5);
    let _ = tm.program_step();
    assert_eq!(tm.head, 4);
    let _ = tm.program_step();
    assert_eq!(tm.head, 3);
}

#[test]
fn test_mark() {
    let mut compiler = TuringCompiler::default();
    let mark_state = compiler.allocate_state();
    let done = compiler.halt(None);

    compiler.mark(Some(mark_state), Some(done));

    let mut tm = TuringMachine::default().with_program(compiler.get_program());
    let _ = tm.run_program();
    assert_eq!(tm.head, 0);
    assert!(tm.read());
}

#[test]
fn test_unmark() {
    let mut compiler = TuringCompiler::default();
    let mark_state = compiler.allocate_state();
    let unmark_state = compiler.allocate_state();
    let done = compiler.halt(None);

    compiler.mark(Some(mark_state), Some(unmark_state));
    compiler.unmark(Some(unmark_state), Some(done));

    let mut tm = TuringMachine::default().with_program(compiler.get_program());
    let _ = tm.run_program();
    assert_eq!(tm.head, 0);
    assert!(!tm.read());
}

#[test]
fn test_mark_and_move_right() {
    let mut compiler = TuringCompiler::default();

    let mark_state = compiler.allocate_state();
    let done = compiler.halt(None);

    compiler.mark_and_move_right(Some(mark_state), Some(done));

    let mut tm = TuringMachine::default().with_program(compiler.get_program());
    let _ = tm.run_program();
    assert!(tm.tape.read(0));
    assert!(!tm.tape.read(1));
    assert_eq!(tm.head, 1);
}

#[test]
fn test_mark_and_move_left() {
    let mut compiler = TuringCompiler::default();

    let mark_state = compiler.allocate_state();
    let done = compiler.halt(None);

    compiler.mark_and_move_left(Some(mark_state), Some(done));

    let mut tm = TuringMachine::default().with_program(compiler.get_program());
    let _ = tm.run_program();
    // After moving left, more space left is allocated which shifts the previously marked index right by 8
    assert!(!tm.tape.read(7));
    assert!(tm.tape.read(8));
    assert_eq!(tm.head, 7);
}

#[test]
fn test_unmark_and_move_right() {
    let mut compiler = TuringCompiler::default();

    let mark_state = compiler.allocate_state();
    let done = compiler.halt(None);

    compiler.unmark_and_move_right(Some(mark_state), Some(done));

    let mut tape = TuringTape::default();
    tape.set(0);
    let mut tm = TuringMachine::default().with_program(compiler.get_program()).with_tape(tape);
    assert!(tm.tape.read(0));
    let _ = tm.run_program();
    assert!(!tm.tape.read(0));
    assert!(!tm.tape.read(1));
    assert_eq!(tm.head, 1);
}

#[test]
fn test_unmark_and_move_left() {
    let mut compiler = TuringCompiler::default();

    let mark_state = compiler.allocate_state();
    let done = compiler.halt(None);

    compiler.unmark_and_move_left(Some(mark_state), Some(done));

    let mut tape = TuringTape::default();
    tape.set(0);
    let mut tm = TuringMachine::default().with_program(compiler.get_program()).with_tape(tape);
    assert!(tm.tape.read(0));
    let _ = tm.run_program();
    assert!(!tm.tape.read(7));
    assert!(!tm.tape.read(8));
    assert_eq!(tm.head, 7);
}
