use turing_codegen::enums::movement::Movement;
use turing_codegen::machine::instruction::Instruction;
use turing_codegen::machine::state::State;
use turing_codegen::machine::turing_machine::TuringMachine;
use turing_codegen::machine::turing_program::TuringProgram;
use turing_codegen::machine::turing_tape::TuringTape;

#[test]
fn test_head_functionalities() {
    let mut tm = TuringMachine::default();

    assert_eq!(tm.head, 0);
    assert!(!tm.read());
    tm.set();
    assert!(tm.read());
    tm.unset();
    assert!(!tm.read());

    tm.move_right();
    assert_eq!(tm.head, 1);
    assert!(!tm.read());
    tm.set();
    assert!(tm.read());
    tm.move_left();
    assert_eq!(tm.head, 0);
    assert!(!tm.read());
    tm.set();

    tm.move_left();
    assert_eq!(tm.head, 7);
    assert!(!tm.read());
}

#[test]
fn test_run_program() {
    let instruction_0 = Instruction::new(State::new(0), false, false)
        .with_movement(Movement::Right)
        .with_next_state(State::new(0));

    let instruction_1 = Instruction::new(State::new(0), true, true)
        .with_movement(Movement::Stay)
        .with_next_state(State::new(usize::MAX));

    // A simple program which will search for the first 1 on the tape
    let mut program = TuringProgram::default();
    program.add_instruction(instruction_0);
    program.add_instruction(instruction_1);

    let mut tape = TuringTape::default();
    tape.set(13);

    let mut tm = TuringMachine::default().with_tape(tape);
    tm.set_program(program);
    let _ = tm.run_program();

    assert!(tm.read());
    assert_eq!(tm.head, 13);
}

#[test]
fn test_set_unset_read() {
    let mut tape = TuringTape::default();
    tape.set(7);
    tape.set(13);
    tape.set(19);

    for i in 0..=31 {
        if (i == 7) || (i == 13) || (i == 19) {
            assert!(tape.read(i));
        } else {
            assert!(!tape.read(i));
        }
    }

    tape.unset(3);
    assert!(!tape.read(3));
}
