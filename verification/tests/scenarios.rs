use turing_codegen::compiler::structures::pattern::Pattern;
use turing_codegen::compiler::turing_compiler::TuringCompiler;
use turing_codegen::enums::movement::Movement;
use turing_codegen::machine::instruction::Instruction;
use turing_codegen::machine::state::State;
use turing_codegen::machine::turing_machine::MachineError;
use turing_codegen::machine::turing_machine::TuringMachine;
use turing_codegen::machine::turing_tape::TuringTape;
use turing_codegen::programs::build_mark_start_do_stuff_find_start;
use turing_codegen::programs::build_move_right_till_one;
use turing_codegen::programs::build_set_bit_x_and_find_it_again;
use turing_codegen::programs::build_set_bit_x_one;
use turing_codegen::text::decimal_string;
use turing_codegen::machine::turing_program::TuringProgram;

#[test]
fn moving_right_then_left_returns_home() {
    let mut compiler = TuringCompiler::default();
    let start = compiler.allocate_state();
    let middle = compiler.allocate_state();
    let done = compiler.halt(None);

    compiler.move_right_x(9, Some(start), Some(middle));
    compiler.move_left_x(9, Some(middle), Some(done));

    let mut tape = TuringTape::default();
    tape.set(2);
    let mut tm = TuringMachine::default().with_program(compiler.get_program()).with_tape(tape);
    tm.set_head(2);
    let result = tm.run_program();
    assert_eq!(result, Ok(()));
    assert_eq!(tm.head, 2);
    assert!(tm.tape.read(2));
}

#[test]
fn single_iteration_loop_equals_direct_call() {
    let mut looped = TuringCompiler::default();
    let loop_start = looped.allocate_state();
    let loop_end = looped.allocate_state();
    looped.chained_loop(
        1,
        Some(loop_start),
        Some(loop_end),
        |compiler: &mut TuringCompiler, _, iter_start, iter_end| compiler.mark(iter_start, iter_end),
    );

    let mut direct = TuringCompiler::default();
    let direct_start = direct.allocate_state();
    let direct_end = direct.allocate_state();
    direct.mark(Some(direct_start), Some(direct_end));

    let looped_program = looped.get_program();
    let direct_program = direct.get_program();
    for read_bit in [false, true] {
        let from_loop = looped_program.get(loop_start, read_bit).copied();
        let from_direct = direct_program.get(direct_start, read_bit).copied();
        assert_eq!(from_loop, from_direct);
    }
}

#[test]
fn writing_then_scanning_lands_on_pattern_end() {
    let pattern = Pattern::new(vec![true, false, true, true]);
    let mut compiler = TuringCompiler::default();
    let write_start = compiler.allocate_state();
    let done = compiler.halt(None);
    compiler.write_pattern(
        pattern.clone(),
        Movement::Right,
        Movement::Stay,
        Some(write_start),
        Some(done),
    );
    let mut tm = TuringMachine::default().with_program(compiler.get_program());
    tm.set_head(3);
    let _ = tm.run_program();
    assert_eq!(tm.head, 6);

    let mut scanner = TuringCompiler::default();
    let scan_start = scanner.allocate_state();
    let scan_done = scanner.halt(None);
    scanner.scan_pattern(
        pattern,
        Movement::Right,
        Movement::Stay,
        Some(scan_start),
        Some(scan_done),
    );
    tm.set_program(scanner.get_program());
    tm.reset_state_but_persist_tape();
    tm.set_head(3);
    let _ = tm.run_program();
    assert_eq!(tm.head, 6);
}

#[test]
fn ripple_carry_sums_thirteen_and_five() {
    let mut compiler = TuringCompiler::default();
    let start = compiler.allocate_state();
    let done = compiler.halt(None);

    // Per digit: previous carry, operand-1 bit, operand-2 bit, result bit;
    // a staying final movement makes each carry cell the next digit's
    // previous carry, so the digits occupy four cells each.
    compiler.chained_loop(
        8,
        Some(start),
        Some(done),
        |compiler: &mut TuringCompiler, _, iter_start, iter_end| {
            compiler.add(Movement::Right, Movement::Stay, iter_start, iter_end)
        },
    );

    let mut tape = TuringTape::default();
    // 13 is 0b00001101: ones in digits 0, 2 and 3.
    for digit in [0usize, 2, 3] {
        tape.set(4 * digit + 1);
    }
    // 5 is 0b00000101: ones in digits 0 and 2.
    for digit in [0usize, 2] {
        tape.set(4 * digit + 2);
    }

    let mut tm = TuringMachine::default().with_program(compiler.get_program()).with_tape(tape);
    let result = tm.run_program();
    assert_eq!(result, Ok(()));

    // 18 is 0b00010010: ones in digits 1 and 4.
    for digit in 0..8usize {
        let expected = digit == 1 || digit == 4;
        assert_eq!(tm.tape.read(4 * digit + 3), expected);
    }
    // No carry out of the eighth digit.
    assert!(!tm.tape.read(32));
    assert_eq!(tm.head, 32);
}

#[test]
fn missing_entry_reports_dangling_state() {
    let mut program = TuringProgram::default();
    program.add_instruction(
        Instruction::new(State::new(0), false, true)
            .with_movement(Movement::Right)
            .with_next_state(State::new(7)),
    );

    let mut tm = TuringMachine::default().with_program(program);
    let result = tm.run_program();
    assert_eq!(
        result,
        Err(MachineError::DanglingState { state: State::new(7), read_bit: false })
    );
}

#[test]
fn self_looping_program_trips_failsafe() {
    let mut program = TuringProgram::default();
    program.add_instruction(Instruction::new(State::new(0), false, false));

    let mut tm = TuringMachine::default().with_program(program);
    tm.max_no_progress_steps = 100;
    let result = tm.run_program();
    assert_eq!(result, Err(MachineError::NonTermination));
    assert!(tm.no_progress_steps >= 100);
}

#[test]
fn demo_program_walks_to_first_one() {
    let program = build_move_right_till_one();
    let mut tape = TuringTape::default();
    tape.set(9);
    let mut tm = TuringMachine::default().with_program(program).with_tape(tape);
    let result = tm.run_program();
    assert_eq!(result, Ok(()));
    assert_eq!(tm.head, 9);
}

#[test]
fn demo_program_sets_distant_bit() {
    let program = build_set_bit_x_one(6);
    let mut tm = TuringMachine::default().with_program(program);
    let result = tm.run_program();
    assert_eq!(result, Ok(()));
    assert_eq!(tm.head, 0);
    assert!(tm.tape.read(6));
}

#[test]
fn demo_program_finds_its_own_mark() {
    let program = build_set_bit_x_and_find_it_again(6);
    let mut tm = TuringMachine::default().with_program(program);
    let result = tm.run_program();
    assert_eq!(result, Ok(()));
    assert_eq!(tm.head, 6);
    assert!(tm.tape.read(6));
}

#[test]
fn demo_program_returns_to_marker() {
    let program = build_mark_start_do_stuff_find_start();
    let mut tm = TuringMachine::default().with_program(program);
    let result = tm.run_program();
    assert_eq!(result, Ok(()));
    assert_eq!(tm.head, 0);
    // The marker is intact where it was written.
    let marker = [true, true, false, true, true, false, true, true, false, true, true];
    for (i, expected) in marker.iter().enumerate() {
        assert_eq!(tm.tape.read(i), *expected);
    }
}

#[test]
fn decimal_rendering_matches() {
    assert_eq!(decimal_string(0), "0");
    assert_eq!(decimal_string(9), "9");
    assert_eq!(decimal_string(907), "907");
    assert_eq!(decimal_string(100000), "100000");
}

#[test]
fn movement_codes_match() {
    assert_eq!(Movement::Stay.get_code_string(), "S");
    assert_eq!(Movement::Left.get_code_string(), "L");
    assert_eq!(Movement::Right.get_code_string(), "R");
}

#[test]
fn formal_string_renders_rule() {
    let instruction = Instruction::new(State::new(3), true, false)
        .with_movement(Movement::Right)
        .with_next_state(State::new(7));
    assert_eq!(
        instruction.get_formal_string(),
        "(q=3, \u{3c3}=1) => (q'=7, \u{3c3}'=0, D=R)"
    );
    assert_eq!(instruction.get_read_bit_number(), 1);
    assert_eq!(instruction.get_write_bit_number(), 0);
}

#[test]
fn tape_rendering_brackets_the_head() {
    let mut tape = TuringTape::default();
    tape.set(1);
    let rendered = tape.get_string(Some(1));
    assert_eq!(rendered, " 0 [1] 0  0  0  0  0  0 ");
    let unmarked = tape.get_string(None);
    assert_eq!(unmarked, " 0  1  0  0  0  0  0  0 ");
}

#[test]
fn scanning_left_finds_single_mark() {
    let mut compiler = TuringCompiler::default();
    let scan_state = compiler.allocate_state();
    let done = compiler.halt(None);
    compiler.scan_single(true, Movement::Left, Movement::Stay, Some(scan_state), Some(done));

    let mut tape = TuringTape::default();
    tape.set(3);
    let mut tm = TuringMachine::default().with_program(compiler.get_program()).with_tape(tape);
    tm.set_head(12);
    let result = tm.run_program();
    assert_eq!(result, Ok(()));
    assert_eq!(tm.head, 3);
}

#[test]
fn pattern_accessors_expose_bits() {
    let pattern = Pattern::new(vec![true, false, true]);
    assert_eq!(pattern.len(), 3);
    assert_eq!(pattern.get(), &[true, false, true]);
    assert!(pattern.get_at(0));
    assert!(!pattern.get_at(1));
    assert!(pattern.get_at(2));
    assert_eq!(State::new(11).get(), 11);
}
