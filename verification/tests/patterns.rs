use turing_codegen::compiler::structures::pattern::Pattern;
use turing_codegen::compiler::turing_compiler::TuringCompiler;
use turing_codegen::enums::movement::Movement;
use turing_codegen::machine::turing_machine::TuringMachine;
use turing_codegen::machine::turing_tape::TuringTape;

#[test]
fn test_write_pattern() {
    let pattern = Pattern::new(vec![true, true, false, false, false, true, false, true]);
    let mut tm = TuringMachine::default();

    // Writing left to right
    let mut compiler = TuringCompiler::default();

    let write_state = compiler.allocate_state();
    let done = compiler.halt(None);

    compiler.write_pattern(pattern.clone(), Movement::Right, Movement::Stay, Some(write_state), Some(done));

    tm.set_program(compiler.get_program());
    let _ = tm.run_program();
    assert_eq!(tm.head, 7);
    assert!(tm.tape.read(0));
    assert!(tm.tape.read(1));
    assert!(!tm.tape.read(2));
    assert!(!tm.tape.read(3));
    assert!(!tm.tape.read(4));
    assert!(tm.tape.read(5));
    assert!(!tm.tape.read(6));
    assert!(tm.tape.read(7));

    // Reset tm
    tm.reset_state_information();

    // Writing right to left
    let mut compiler = TuringCompiler::default();

    let write_state = compiler.allocate_state();
    let done = compiler.halt(None);

    compiler.write_pattern(pattern, Movement::Left, Movement::Stay, Some(write_state), Some(done));

    tm.set_program(compiler.get_program());
    let _ = tm.run_program();
    assert_eq!(tm.head, 1);
    assert!(tm.tape.read(1));
    assert!(tm.tape.read(2));
    assert!(!tm.tape.read(3));
    assert!(!tm.tape.read(4));
    assert!(!tm.tape.read(5));
    assert!(tm.tape.read(6));
    assert!(!tm.tape.read(7));
    assert!(tm.tape.read(8));
}

#[test]
fn test_scan_pattern() {
    let pattern = Pattern::new(vec![true, true, false, false, false, true, false, true]);
    let mut tape = TuringTape::default();
    tape.set(4);
    tape.set(5);
    tape.set(9);
    tape.set(11);
    let mut tm = TuringMachine::default();

    // Scan left to right
    let mut compiler = TuringCompiler::default();

    let scan_state = compiler.allocate_state();
    let done = compiler.halt(None);

    compiler.scan_pattern(pattern.clone(), Movement::Right, Movement::Stay, Some(scan_state), Some(done));
    tm.set_tape(tape.clone());
    tm.set_program(compiler.get_program());
    let _ = tm.run_program();
    assert_eq!(tm.head, 11);

    // Reset tm
    tm.reset_state_information();

    // Scan right to left
    let mut compiler = TuringCompiler::default();

    let scan_state = compiler.allocate_state();
    let done = compiler.halt(None);

    compiler.scan_pattern(pattern.clone(), Movement::Left, Movement::Stay, Some(scan_state), Some(done));
    tm.set_tape(tape);
    tm.set_program(compiler.get_program());
    tm.set_head(15);
    let _ = tm.run_program();
    assert_eq!(tm.head, 4);
}
