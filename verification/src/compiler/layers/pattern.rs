use vstd::prelude::*;

use crate::compiler::layers::base::block_entries;
use crate::compiler::layers::base::hop_seq;
use crate::compiler::layers::base::lemma_untouched_extend;
use crate::compiler::layers::base::touched_states;
use crate::compiler::structures::pattern::Pattern;
use crate::compiler::turing_compiler::TuringCompiler;
use crate::compiler::turing_compiler::alloc_count;
use crate::compiler::turing_compiler::resolved;
use crate::compiler::turing_compiler::same_entry;
use crate::compiler::turing_compiler::untouched_outside;
use crate::enums::movement::Movement;
use crate::machine::instruction::Instruction;
use crate::machine::instruction::rule;
use crate::machine::state::State;

verus! {

/// The pattern bit handled at chain position `j`: traversing leftwards reads
/// the pattern back to front, so that it keeps its left-to-right order on
/// the tape.
pub open spec fn pattern_bit(pat: Seq<bool>, traversal: Movement, j: int) -> bool {
    if traversal == Movement::Left {
        pat[pat.len() - j - 1]
    } else {
        pat[j]
    }
}

/// Consecutive states of `qs` each write one pattern bit and move on: by
/// `write_movement` for every position but the last, which uses
/// `final_movement`.
pub open spec fn write_chain(
    table: Map<(State, bool), Instruction>,
    qs: Seq<State>,
    pat: Seq<bool>,
    write_movement: Movement,
    final_movement: Movement,
) -> bool {
    forall|j: int|
        0 <= j < qs.len() - 1 ==> block_entries(
            table,
            #[trigger] qs[j],
            pattern_bit(pat, write_movement, j),
            pattern_bit(pat, write_movement, j),
            if j < qs.len() - 2 {
                write_movement
            } else {
                final_movement
            },
            qs[j + 1],
        )
}

/// `s` carries the two rules of one matching step: on the expected bit move
/// on to `next` by `next_movement`, on the other bit move `else_movement`
/// and restart at `restart`; the bit read is written back either way.
pub open spec fn match_entries(
    table: Map<(State, bool), Instruction>,
    s: State,
    expected: bool,
    next_movement: Movement,
    else_movement: Movement,
    next: State,
    restart: State,
) -> bool {
    &&& table.contains_key((s, expected))
    &&& table[(s, expected)] == rule(s, expected, expected, next_movement, next)
    &&& table.contains_key((s, !expected))
    &&& table[(s, !expected)] == rule(s, !expected, !expected, else_movement, restart)
}

/// Consecutive states of `qs` each check one pattern bit: a match advances
/// `scan_movement` (the last position `final_movement`) to the next state, a
/// mismatch advances `scan_movement` one cell and restarts the whole scan at
/// `qs[0]`.
pub open spec fn scan_chain(
    table: Map<(State, bool), Instruction>,
    qs: Seq<State>,
    pat: Seq<bool>,
    scan_movement: Movement,
    final_movement: Movement,
) -> bool {
    forall|j: int|
        0 <= j < qs.len() - 1 ==> match_entries(
            table,
            #[trigger] qs[j],
            pattern_bit(pat, scan_movement, j),
            if j < qs.len() - 2 {
                scan_movement
            } else {
                final_movement
            },
            scan_movement,
            qs[j + 1],
            qs[0],
        )
}


/// A write chain none of whose key states were touched survives an update.
pub proof fn lemma_write_chain_preserved(
    before: Map<(State, bool), Instruction>,
    after: Map<(State, bool), Instruction>,
    qs: Seq<State>,
    pat: Seq<bool>,
    write_movement: Movement,
    final_movement: Movement,
    touched: Set<State>,
)
    requires
        write_chain(before, qs, pat, write_movement, final_movement),
        untouched_outside(before, after, touched),
        forall|j: int| 0 <= j < qs.len() - 1 ==> !touched.contains(#[trigger] qs[j]),
    ensures
        write_chain(after, qs, pat, write_movement, final_movement),
{
    assert forall|j: int| 0 <= j < qs.len() - 1 implies block_entries(
        after,
        #[trigger] qs[j],
        pattern_bit(pat, write_movement, j),
        pattern_bit(pat, write_movement, j),
        if j < qs.len() - 2 {
            write_movement
        } else {
            final_movement
        },
        qs[j + 1],
    ) by {
        assert(block_entries(
            before,
            qs[j],
            pattern_bit(pat, write_movement, j),
            pattern_bit(pat, write_movement, j),
            if j < qs.len() - 2 {
                write_movement
            } else {
                final_movement
            },
            qs[j + 1],
        ));
        assert(same_entry(before, after, qs[j], false));
        assert(same_entry(before, after, qs[j], true));
    }
}

/// A scan chain none of whose key states were touched survives an update.
pub proof fn lemma_scan_chain_preserved(
    before: Map<(State, bool), Instruction>,
    after: Map<(State, bool), Instruction>,
    qs: Seq<State>,
    pat: Seq<bool>,
    scan_movement: Movement,
    final_movement: Movement,
    touched: Set<State>,
)
    requires
        scan_chain(before, qs, pat, scan_movement, final_movement),
        untouched_outside(before, after, touched),
        forall|j: int| 0 <= j < qs.len() - 1 ==> !touched.contains(#[trigger] qs[j]),
    ensures
        scan_chain(after, qs, pat, scan_movement, final_movement),
{
    assert forall|j: int| 0 <= j < qs.len() - 1 implies match_entries(
        after,
        #[trigger] qs[j],
        pattern_bit(pat, scan_movement, j),
        if j < qs.len() - 2 {
            scan_movement
        } else {
            final_movement
        },
        scan_movement,
        qs[j + 1],
        qs[0],
    ) by {
        assert(match_entries(
            before,
            qs[j],
            pattern_bit(pat, scan_movement, j),
            if j < qs.len() - 2 {
                scan_movement
            } else {
                final_movement
            },
            scan_movement,
            qs[j + 1],
            qs[0],
        ));
        assert(same_entry(before, after, qs[j], pattern_bit(pat, scan_movement, j)));
        assert(same_entry(before, after, qs[j], !pattern_bit(pat, scan_movement, j)));
    }
}

impl TuringCompiler {
    /// Write the whole pattern, one cell per step, traversing by
    /// `write_movement` and leaving by `final_movement` after the last bit.
    pub fn write_pattern(
        &mut self,
        pattern: Pattern,
        write_movement: Movement,
        final_movement: Movement,
        current_state: Option<State>,
        next_state: Option<State>,
    ) -> (r: (State, State))
        requires
            pattern@.len() >= 1,
            old(self).counter() + pattern@.len() + 1 <= usize::MAX,
            current_state matches Some(s) ==> s.value() < old(self).counter(),
        ensures
            r.0 == resolved(current_state, old(self).counter()),
            r.1 == resolved(
                next_state,
                (old(self).counter() + alloc_count(current_state)) as usize,
            ),
            final(self).counter() == old(self).counter() + alloc_count(current_state)
                + alloc_count(next_state) + (pattern@.len() - 1),
            write_chain(
                final(self).table(),
                hop_seq(
                    r.0,
                    r.1,
                    old(self).counter() + alloc_count(current_state) + alloc_count(next_state),
                    pattern@.len() as int,
                ),
                pattern@,
                write_movement,
                final_movement,
            ),
            untouched_outside(
                old(self).table(),
                final(self).table(),
                touched_states(r.0, old(self).counter() as int, final(self).counter() as int),
            ),
    {
        let length = pattern.len();
        let start_state = self.resolve_or_allocate(current_state);
        let end_state = self.resolve_or_allocate(next_state);
        let mut from = start_state;
        let mut emitted: usize = 0;
        while emitted < length - 1
            invariant
                1 <= length,
                length == pattern@.len(),
                old(self).counter() + length + 1 <= usize::MAX,
                emitted <= length - 1,
                start_state == resolved(current_state, old(self).counter()),
                end_state == resolved(
                    next_state,
                    (old(self).counter() + alloc_count(current_state)) as usize,
                ),
                start_state.value() < old(self).counter() + alloc_count(current_state)
                    + alloc_count(next_state),
                self.counter() == old(self).counter() + alloc_count(current_state) + alloc_count(
                    next_state,
                ) + emitted,
                from == hop_seq(
                    start_state,
                    end_state,
                    old(self).counter() + alloc_count(current_state) + alloc_count(next_state),
                    length as int,
                )[emitted as int],
                forall|j: int|
                    0 <= j < emitted ==> #[trigger] block_entries(
                        self.table(),
                        hop_seq(
                            start_state,
                            end_state,
                            old(self).counter() + alloc_count(current_state) + alloc_count(
                                next_state,
                            ),
                            length as int,
                        )[j],
                        pattern_bit(pattern@, write_movement, j),
                        pattern_bit(pattern@, write_movement, j),
                        write_movement,
                        hop_seq(
                            start_state,
                            end_state,
                            old(self).counter() + alloc_count(current_state) + alloc_count(
                                next_state,
                            ),
                            length as int,
                        )[j + 1],
                    ),
                untouched_outside(
                    old(self).table(),
                    self.table(),
                    touched_states(
                        start_state,
                        old(self).counter() as int,
                        self.counter() as int,
                    ),
                ),
            decreases length - 1 - emitted,
        {
            let current_target_bit = match write_movement {
                Movement::Left => pattern.get_at(length - emitted - 1),
                _ => pattern.get_at(emitted),
            };
            let ghost table_before = self.table();
            let ghost counter_before = self.counter() as int;
            let (_, mid) = self.write_and_move(current_target_bit, write_movement, Some(from), None);
            proof {
                lemma_untouched_extend(
                    old(self).table(),
                    table_before,
                    self.table(),
                    touched_states(start_state, old(self).counter() as int, counter_before),
                    touched_states(start_state, old(self).counter() as int, self.counter() as int),
                    from,
                );
                let base = old(self).counter() + alloc_count(current_state) + alloc_count(
                    next_state,
                );
                let qs = hop_seq(start_state, end_state, base, length as int);
                assert(qs[emitted + 1] == mid);
                assert(block_entries(
                    self.table(),
                    qs[emitted as int],
                    pattern_bit(pattern@, write_movement, emitted as int),
                    pattern_bit(pattern@, write_movement, emitted as int),
                    write_movement,
                    qs[emitted + 1],
                ));
                assert forall|j: int| 0 <= j < emitted implies #[trigger] block_entries(
                    self.table(),
                    qs[j],
                    pattern_bit(pattern@, write_movement, j),
                    pattern_bit(pattern@, write_movement, j),
                    write_movement,
                    qs[j + 1],
                ) by {
                    assert(block_entries(
                        table_before,
                        qs[j],
                        pattern_bit(pattern@, write_movement, j),
                        pattern_bit(pattern@, write_movement, j),
                        write_movement,
                        qs[j + 1],
                    ));
                    assert(qs[j] != from);
                }
            }
            from = mid;
            emitted = emitted + 1;
        }
        let last_target_bit = match write_movement {
            Movement::Left => pattern.get_at(length - emitted - 1),
            _ => pattern.get_at(emitted),
        };
        let ghost table_before = self.table();
        let ghost counter_before = self.counter() as int;
        self.write_and_move(last_target_bit, final_movement, Some(from), Some(end_state));
        proof {
            lemma_untouched_extend(
                old(self).table(),
                table_before,
                self.table(),
                touched_states(start_state, old(self).counter() as int, counter_before),
                touched_states(start_state, old(self).counter() as int, self.counter() as int),
                from,
            );
            let base = old(self).counter() + alloc_count(current_state) + alloc_count(next_state);
            let qs = hop_seq(start_state, end_state, base, length as int);
            assert(block_entries(
                self.table(),
                qs[length - 1],
                pattern_bit(pattern@, write_movement, length - 1),
                pattern_bit(pattern@, write_movement, length - 1),
                final_movement,
                qs[length as int],
            ));
            assert forall|j: int| 0 <= j < qs.len() - 1 implies block_entries(
                self.table(),
                #[trigger] qs[j],
                pattern_bit(pattern@, write_movement, j),
                pattern_bit(pattern@, write_movement, j),
                if j < qs.len() - 2 {
                    write_movement
                } else {
                    final_movement
                },
                qs[j + 1],
            ) by {
                if j < length - 1 {
                    assert(block_entries(
                        table_before,
                        qs[j],
                        pattern_bit(pattern@, write_movement, j),
                        pattern_bit(pattern@, write_movement, j),
                        write_movement,
                        qs[j + 1],
                    ));
                    assert(qs[j] != from);
                }
            }
        }
        (start_state, end_state)
    }

    /// Scan for the whole pattern: each position checks its expected bit,
    /// advancing on a match and restarting the scan one cell further on a
    /// mismatch. A naive sliding search: partial progress is discarded, so
    /// self-overlapping patterns can be under-matched.
    pub fn scan_pattern(
        &mut self,
        pattern: Pattern,
        scan_movement: Movement,
        final_movement: Movement,
        current_state: Option<State>,
        next_state: Option<State>,
    ) -> (r: (State, State))
        requires
            pattern@.len() >= 1,
            old(self).counter() + pattern@.len() + 1 <= usize::MAX,
            current_state matches Some(s) ==> s.value() < old(self).counter(),
        ensures
            r.0 == resolved(current_state, old(self).counter()),
            r.1 == resolved(
                next_state,
                (old(self).counter() + alloc_count(current_state)) as usize,
            ),
            final(self).counter() == old(self).counter() + alloc_count(current_state)
                + alloc_count(next_state) + (pattern@.len() - 1),
            scan_chain(
                final(self).table(),
                hop_seq(
                    r.0,
                    r.1,
                    old(self).counter() + alloc_count(current_state) + alloc_count(next_state),
                    pattern@.len() as int,
                ),
                pattern@,
                scan_movement,
                final_movement,
            ),
            untouched_outside(
                old(self).table(),
                final(self).table(),
                touched_states(r.0, old(self).counter() as int, final(self).counter() as int),
            ),
    {
        let length = pattern.len();
        let start_state = self.resolve_or_allocate(current_state);
        let end_state = self.resolve_or_allocate(next_state);
        let mut from = start_state;
        let mut emitted: usize = 0;
        while emitted < length - 1
            invariant
                1 <= length,
                length == pattern@.len(),
                old(self).counter() + length + 1 <= usize::MAX,
                emitted <= length - 1,
                start_state == resolved(current_state, old(self).counter()),
                end_state == resolved(
                    next_state,
                    (old(self).counter() + alloc_count(current_state)) as usize,
                ),
                start_state.value() < old(self).counter() + alloc_count(current_state)
                    + alloc_count(next_state),
                self.counter() == old(self).counter() + alloc_count(current_state) + alloc_count(
                    next_state,
                ) + emitted,
                from == hop_seq(
                    start_state,
                    end_state,
                    old(self).counter() + alloc_count(current_state) + alloc_count(next_state),
                    length as int,
                )[emitted as int],
                forall|j: int|
                    0 <= j < emitted ==> #[trigger] match_entries(
                        self.table(),
                        hop_seq(
                            start_state,
                            end_state,
                            old(self).counter() + alloc_count(current_state) + alloc_count(
                                next_state,
                            ),
                            length as int,
                        )[j],
                        pattern_bit(pattern@, scan_movement, j),
                        scan_movement,
                        scan_movement,
                        hop_seq(
                            start_state,
                            end_state,
                            old(self).counter() + alloc_count(current_state) + alloc_count(
                                next_state,
                            ),
                            length as int,
                        )[j + 1],
                        start_state,
                    ),
                untouched_outside(
                    old(self).table(),
                    self.table(),
                    touched_states(
                        start_state,
                        old(self).counter() as int,
                        self.counter() as int,
                    ),
                ),
            decreases length - 1 - emitted,
        {
            let current_target_bit = match scan_movement {
                Movement::Left => pattern.get_at(length - emitted - 1),
                _ => pattern.get_at(emitted),
            };
            let ghost table_before = self.table();
            let ghost counter_before = self.counter() as int;
            let (_, mid, _) = self.branch_when(
                current_target_bit,
                scan_movement,
                scan_movement,
                Some(from),
                None,
                Some(start_state),
            );
            proof {
                lemma_untouched_extend(
                    old(self).table(),
                    table_before,
                    self.table(),
                    touched_states(start_state, old(self).counter() as int, counter_before),
                    touched_states(start_state, old(self).counter() as int, self.counter() as int),
                    from,
                );
                let base = old(self).counter() + alloc_count(current_state) + alloc_count(
                    next_state,
                );
                let qs = hop_seq(start_state, end_state, base, length as int);
                assert(qs[emitted + 1] == mid);
                assert(match_entries(
                    self.table(),
                    qs[emitted as int],
                    pattern_bit(pattern@, scan_movement, emitted as int),
                    scan_movement,
                    scan_movement,
                    qs[emitted + 1],
                    start_state,
                ));
                assert forall|j: int| 0 <= j < emitted implies #[trigger] match_entries(
                    self.table(),
                    qs[j],
                    pattern_bit(pattern@, scan_movement, j),
                    scan_movement,
                    scan_movement,
                    qs[j + 1],
                    start_state,
                ) by {
                    assert(match_entries(
                        table_before,
                        qs[j],
                        pattern_bit(pattern@, scan_movement, j),
                        scan_movement,
                        scan_movement,
                        qs[j + 1],
                        start_state,
                    ));
                    assert(qs[j] != from);
                }
            }
            from = mid;
            emitted = emitted + 1;
        }
        let last_target_bit = match scan_movement {
            Movement::Left => pattern.get_at(length - emitted - 1),
            _ => pattern.get_at(emitted),
        };
        let ghost table_before = self.table();
        let ghost counter_before = self.counter() as int;
        self.branch_when(
            last_target_bit,
            final_movement,
            scan_movement,
            Some(from),
            Some(end_state),
            Some(start_state),
        );
        proof {
            lemma_untouched_extend(
                old(self).table(),
                table_before,
                self.table(),
                touched_states(start_state, old(self).counter() as int, counter_before),
                touched_states(start_state, old(self).counter() as int, self.counter() as int),
                from,
            );
            let base = old(self).counter() + alloc_count(current_state) + alloc_count(next_state);
            let qs = hop_seq(start_state, end_state, base, length as int);
            assert(match_entries(
                self.table(),
                qs[length - 1],
                pattern_bit(pattern@, scan_movement, length - 1),
                final_movement,
                scan_movement,
                qs[length as int],
                start_state,
            ));
            assert forall|j: int| 0 <= j < qs.len() - 1 implies match_entries(
                self.table(),
                #[trigger] qs[j],
                pattern_bit(pattern@, scan_movement, j),
                if j < qs.len() - 2 {
                    scan_movement
                } else {
                    final_movement
                },
                scan_movement,
                qs[j + 1],
                qs[0],
            ) by {
                if j < length - 1 {
                    assert(match_entries(
                        table_before,
                        qs[j],
                        pattern_bit(pattern@, scan_movement, j),
                        scan_movement,
                        scan_movement,
                        qs[j + 1],
                        start_state,
                    ));
                    assert(qs[j] != from);
                }
            }
        }
        (start_state, end_state)
    }
}

} // verus!
