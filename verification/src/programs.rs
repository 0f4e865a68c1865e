use vstd::prelude::*;

use crate::compiler::layers::base::block_entries;
use crate::compiler::layers::base::hop_seq;
use crate::compiler::layers::base::lemma_block_entries_preserved;
use crate::compiler::layers::base::lemma_insert_pair_untouched;
use crate::compiler::layers::base::lemma_move_chain_preserved;
use crate::compiler::layers::base::move_chain;
use crate::compiler::layers::base::single_state;
use crate::compiler::layers::base::touched_states;
use crate::compiler::layers::pattern::lemma_scan_chain_preserved;
use crate::compiler::layers::pattern::lemma_write_chain_preserved;
use crate::compiler::layers::pattern::scan_chain;
use crate::compiler::layers::pattern::write_chain;
use crate::compiler::structures::pattern::Pattern;
use crate::compiler::turing_compiler::TuringCompiler;
use crate::compiler::turing_compiler::same_entry;
use crate::enums::movement::Movement;
use crate::machine::instruction::Instruction;
use crate::machine::instruction::rule;
use crate::machine::state::State;
use crate::machine::turing_program::TuringProgram;

verus! {

/// A program that walks right until it stands on a one, then halts there.
pub fn build_move_right_till_one() -> (r: TuringProgram)
    ensures
        r@ == Map::<(State, bool), Instruction>::empty().insert(
            (State(1usize), false),
            rule(State(1usize), false, false, Movement::Stay, State(usize::MAX)),
        ).insert(
            (State(1usize), true),
            rule(State(1usize), true, true, Movement::Stay, State(usize::MAX)),
        ).insert(
            (State(0usize), false),
            rule(State(0usize), false, false, Movement::Right, State(0usize)),
        ).insert(
            (State(0usize), true),
            rule(State(0usize), true, true, Movement::Stay, State(1usize)),
        ),
{
    let mut compiler = TuringCompiler::default();

    let check_if_marked = compiler.allocate_state();
    let done = compiler.halt(None);

    compiler.branch(
        Some(check_if_marked),
        Some(done),
        Some(check_if_marked),
        Movement::Stay,
        Movement::Right,
    );

    compiler.get_program()
}

/// A program that walks `x` cells right, marks the cell there, walks back,
/// and halts where it started.
pub fn build_set_bit_x_one(x: usize) -> (r: TuringProgram)
    requires
        1 <= x,
        x <= (usize::MAX - 4) / 2,
    ensures
        move_chain(r@, hop_seq(State(0usize), State(1usize), 4, x as int), Movement::Right),
        block_entries(r@, State(1usize), true, true, Movement::Stay, State(2usize)),
        move_chain(
            r@,
            hop_seq(State(2usize), State(3usize), x as int + 3, x as int),
            Movement::Left,
        ),
        block_entries(r@, State(3usize), false, true, Movement::Stay, State(usize::MAX)),
        forall|b: bool| !r@.contains_key((State(usize::MAX), b)),
{
    let mut compiler = TuringCompiler::default();

    let move_right_x = compiler.allocate_state();
    let set_one = compiler.allocate_state();
    let move_left_x = compiler.allocate_state();
    let done = compiler.allocate_state();

    compiler.move_right_x(x, Some(move_right_x), Some(set_one));
    let ghost after_right = compiler.table();
    compiler.mark(Some(set_one), Some(move_left_x));
    proof {
        lemma_insert_pair_untouched(
            after_right,
            compiler.table(),
            set_one,
            false,
            true,
            rule(set_one, false, true, Movement::Stay, move_left_x),
            rule(set_one, true, true, Movement::Stay, move_left_x),
        );
        lemma_move_chain_preserved(
            after_right,
            compiler.table(),
            hop_seq(State(0usize), State(1usize), 4, x as int),
            Movement::Right,
            single_state(set_one),
        );
    }
    let ghost after_mark = compiler.table();
    compiler.move_left_x(x, Some(move_left_x), Some(done));
    proof {
        let left_touched = touched_states(State(2usize), x as int + 3, 2 * x as int + 2);
        lemma_move_chain_preserved(
            after_mark,
            compiler.table(),
            hop_seq(State(0usize), State(1usize), 4, x as int),
            Movement::Right,
            left_touched,
        );
        lemma_block_entries_preserved(
            after_mark,
            compiler.table(),
            set_one,
            true,
            true,
            Movement::Stay,
            move_left_x,
            left_touched,
        );
    }
    let ghost after_left = compiler.table();
    compiler.halt(Some(done));
    proof {
        lemma_insert_pair_untouched(
            after_left,
            compiler.table(),
            done,
            false,
            true,
            rule(done, false, false, Movement::Stay, State(usize::MAX)),
            rule(done, true, true, Movement::Stay, State(usize::MAX)),
        );
        lemma_move_chain_preserved(
            after_left,
            compiler.table(),
            hop_seq(State(0usize), State(1usize), 4, x as int),
            Movement::Right,
            single_state(done),
        );
        lemma_move_chain_preserved(
            after_left,
            compiler.table(),
            hop_seq(State(2usize), State(3usize), x as int + 3, x as int),
            Movement::Left,
            single_state(done),
        );
        lemma_block_entries_preserved(
            after_left,
            compiler.table(),
            set_one,
            true,
            true,
            Movement::Stay,
            move_left_x,
            single_state(done),
        );
        assert forall|b: bool| !compiler.table().contains_key(
            (State(usize::MAX), b),
        ) by {
            assert(same_entry(
                Map::<(State, bool), Instruction>::empty(),
                after_right,
                State(usize::MAX),
                b,
            ));
            assert(same_entry(
                after_right,
                after_mark,
                State(usize::MAX),
                b,
            ));
            assert(same_entry(
                after_mark,
                after_left,
                State(usize::MAX),
                b,
            ));
            assert(same_entry(
                after_left,
                compiler.table(),
                State(usize::MAX),
                b,
            ));
        }
    }

    compiler.get_program()
}

/// A program that walks `x` cells right, marks the cell, walks back, and
/// then scans rightwards for the mark it left, halting on it.
pub fn build_set_bit_x_and_find_it_again(x: usize) -> (r: TuringProgram)
    requires
        1 <= x,
        x <= (usize::MAX - 5) / 2,
    ensures
        move_chain(r@, hop_seq(State(0usize), State(1usize), 5, x as int), Movement::Right),
        block_entries(r@, State(1usize), true, true, Movement::Stay, State(2usize)),
        move_chain(
            r@,
            hop_seq(State(2usize), State(3usize), x as int + 4, x as int),
            Movement::Left,
        ),
        r@.contains_key((State(3usize), true)) && r@[(State(3usize), true)] == rule(
            State(3usize),
            true,
            true,
            Movement::Stay,
            State(4usize),
        ),
        r@.contains_key((State(3usize), false)) && r@[(State(3usize), false)] == rule(
            State(3usize),
            false,
            false,
            Movement::Right,
            State(3usize),
        ),
        block_entries(r@, State(4usize), false, true, Movement::Stay, State(usize::MAX)),
{
    let mut compiler = TuringCompiler::default();

    let move_right_x = compiler.allocate_state();
    let set_one = compiler.allocate_state();
    let move_left_x = compiler.allocate_state();
    let scan_start = compiler.allocate_state();
    let done = compiler.allocate_state();

    compiler.move_right_x(x, Some(move_right_x), Some(set_one));
    let ghost after_right = compiler.table();
    compiler.mark(Some(set_one), Some(move_left_x));
    proof {
        lemma_insert_pair_untouched(
            after_right,
            compiler.table(),
            set_one,
            false,
            true,
            rule(set_one, false, true, Movement::Stay, move_left_x),
            rule(set_one, true, true, Movement::Stay, move_left_x),
        );
        lemma_move_chain_preserved(
            after_right,
            compiler.table(),
            hop_seq(State(0usize), State(1usize), 5, x as int),
            Movement::Right,
            single_state(set_one),
        );
    }
    let ghost after_mark = compiler.table();
    compiler.move_left_x(x, Some(move_left_x), Some(scan_start));
    proof {
        let left_touched = touched_states(State(2usize), x as int + 4, 2 * x as int + 3);
        lemma_move_chain_preserved(
            after_mark,
            compiler.table(),
            hop_seq(State(0usize), State(1usize), 5, x as int),
            Movement::Right,
            left_touched,
        );
        lemma_block_entries_preserved(
            after_mark,
            compiler.table(),
            set_one,
            true,
            true,
            Movement::Stay,
            move_left_x,
            left_touched,
        );
    }
    let ghost after_left = compiler.table();
    compiler.scan_single(true, Movement::Right, Movement::Stay, Some(scan_start), Some(done));
    proof {
        lemma_insert_pair_untouched(
            after_left,
            compiler.table(),
            scan_start,
            false,
            true,
            rule(scan_start, false, false, Movement::Right, scan_start),
            rule(scan_start, true, true, Movement::Stay, done),
        );
        lemma_move_chain_preserved(
            after_left,
            compiler.table(),
            hop_seq(State(0usize), State(1usize), 5, x as int),
            Movement::Right,
            single_state(scan_start),
        );
        lemma_move_chain_preserved(
            after_left,
            compiler.table(),
            hop_seq(State(2usize), State(3usize), x as int + 4, x as int),
            Movement::Left,
            single_state(scan_start),
        );
        lemma_block_entries_preserved(
            after_left,
            compiler.table(),
            set_one,
            true,
            true,
            Movement::Stay,
            move_left_x,
            single_state(scan_start),
        );
    }
    let ghost after_scan = compiler.table();
    compiler.halt(Some(done));
    proof {
        lemma_insert_pair_untouched(
            after_scan,
            compiler.table(),
            done,
            false,
            true,
            rule(done, false, false, Movement::Stay, State(usize::MAX)),
            rule(done, true, true, Movement::Stay, State(usize::MAX)),
        );
        lemma_move_chain_preserved(
            after_scan,
            compiler.table(),
            hop_seq(State(0usize), State(1usize), 5, x as int),
            Movement::Right,
            single_state(done),
        );
        lemma_move_chain_preserved(
            after_scan,
            compiler.table(),
            hop_seq(State(2usize), State(3usize), x as int + 4, x as int),
            Movement::Left,
            single_state(done),
        );
        lemma_block_entries_preserved(
            after_scan,
            compiler.table(),
            set_one,
            true,
            true,
            Movement::Stay,
            move_left_x,
            single_state(done),
        );
        assert(same_entry(
            after_scan,
            compiler.table(),
            scan_start,
            false,
        ));
        assert(same_entry(
            after_scan,
            compiler.table(),
            scan_start,
            true,
        ));
    }

    compiler.get_program()
}


/// The long marker the demo program writes and later searches for.
pub open spec fn start_marker_bits() -> Seq<bool> {
    seq![true, true, false, true, true, false, true, true, false, true, true]
}

/// The short tag the demo program writes further right.
pub open spec fn marker_tag_bits() -> Seq<bool> {
    seq![true, true, false, true]
}

/// A program that writes the start marker, moves away, writes a short tag,
/// and then scans leftwards until it stands on the start marker again.
pub fn build_mark_start_do_stuff_find_start() -> (r: TuringProgram)
    ensures
        write_chain(
            r@,
            hop_seq(State(0usize), State(1usize), 5, 11),
            start_marker_bits(),
            Movement::Right,
            Movement::Right,
        ),
        move_chain(r@, hop_seq(State(1usize), State(2usize), 15, 4), Movement::Right),
        write_chain(
            r@,
            hop_seq(State(2usize), State(3usize), 18, 4),
            marker_tag_bits(),
            Movement::Right,
            Movement::Stay,
        ),
        scan_chain(
            r@,
            hop_seq(State(3usize), State(4usize), 21, 11),
            start_marker_bits(),
            Movement::Left,
            Movement::Stay,
        ),
        block_entries(r@, State(4usize), false, true, Movement::Stay, State(usize::MAX)),
{
    let mut marker: Vec<bool> = Vec::new();
    marker.push(true);
    marker.push(true);
    marker.push(false);
    marker.push(true);
    marker.push(true);
    marker.push(false);
    marker.push(true);
    marker.push(true);
    marker.push(false);
    marker.push(true);
    marker.push(true);
    let start_pattern = Pattern::new(marker);
    proof {
        assert(start_pattern@ =~= start_marker_bits());
    }
    let mut tag: Vec<bool> = Vec::new();
    tag.push(true);
    tag.push(true);
    tag.push(false);
    tag.push(true);
    let tag_pattern = Pattern::new(tag);
    proof {
        assert(tag_pattern@ =~= marker_tag_bits());
    }

    let mut compiler = TuringCompiler::default();

    let mark_start = compiler.allocate_state();
    let move_away = compiler.allocate_state();
    let mark_other_pattern = compiler.allocate_state();
    let find_start = compiler.allocate_state();
    let done = compiler.halt(None);

    let ghost after_halt = compiler.table();
    compiler.write_pattern(
        start_pattern,
        Movement::Right,
        Movement::Right,
        Some(mark_start),
        Some(move_away),
    );
    proof {
        lemma_block_entries_preserved(
            after_halt,
            compiler.table(),
            done,
            false,
            true,
            Movement::Stay,
            State(usize::MAX),
            touched_states(State(0usize), 5, 15),
        );
    }
    let ghost after_marker = compiler.table();
    compiler.move_right_x(4, Some(move_away), Some(mark_other_pattern));
    proof {
        let touched = touched_states(State(1usize), 15, 18);
        lemma_block_entries_preserved(
            after_marker,
            compiler.table(),
            done,
            false,
            true,
            Movement::Stay,
            State(usize::MAX),
            touched,
        );
        lemma_write_chain_preserved(
            after_marker,
            compiler.table(),
            hop_seq(State(0usize), State(1usize), 5, 11),
            start_marker_bits(),
            Movement::Right,
            Movement::Right,
            touched,
        );
    }
    let ghost after_away = compiler.table();
    compiler.write_pattern(
        tag_pattern,
        Movement::Right,
        Movement::Stay,
        Some(mark_other_pattern),
        Some(find_start),
    );
    proof {
        let touched = touched_states(State(2usize), 18, 21);
        lemma_block_entries_preserved(
            after_away,
            compiler.table(),
            done,
            false,
            true,
            Movement::Stay,
            State(usize::MAX),
            touched,
        );
        lemma_write_chain_preserved(
            after_away,
            compiler.table(),
            hop_seq(State(0usize), State(1usize), 5, 11),
            start_marker_bits(),
            Movement::Right,
            Movement::Right,
            touched,
        );
        lemma_move_chain_preserved(
            after_away,
            compiler.table(),
            hop_seq(State(1usize), State(2usize), 15, 4),
            Movement::Right,
            touched,
        );
    }
    let ghost after_tag = compiler.table();
    let mut marker_again: Vec<bool> = Vec::new();
    marker_again.push(true);
    marker_again.push(true);
    marker_again.push(false);
    marker_again.push(true);
    marker_again.push(true);
    marker_again.push(false);
    marker_again.push(true);
    marker_again.push(true);
    marker_again.push(false);
    marker_again.push(true);
    marker_again.push(true);
    let start_pattern_again = Pattern::new(marker_again);
    proof {
        assert(start_pattern_again@ =~= start_marker_bits());
    }
    compiler.scan_pattern(
        start_pattern_again,
        Movement::Left,
        Movement::Stay,
        Some(find_start),
        Some(done),
    );
    proof {
        let touched = touched_states(State(3usize), 21, 31);
        lemma_block_entries_preserved(
            after_tag,
            compiler.table(),
            done,
            false,
            true,
            Movement::Stay,
            State(usize::MAX),
            touched,
        );
        lemma_write_chain_preserved(
            after_tag,
            compiler.table(),
            hop_seq(State(0usize), State(1usize), 5, 11),
            start_marker_bits(),
            Movement::Right,
            Movement::Right,
            touched,
        );
        lemma_move_chain_preserved(
            after_tag,
            compiler.table(),
            hop_seq(State(1usize), State(2usize), 15, 4),
            Movement::Right,
            touched,
        );
        lemma_write_chain_preserved(
            after_tag,
            compiler.table(),
            hop_seq(State(2usize), State(3usize), 18, 4),
            marker_tag_bits(),
            Movement::Right,
            Movement::Stay,
            touched,
        );
    }

    compiler.get_program()
}

} // verus!
