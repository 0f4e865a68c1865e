use vstd::prelude::*;

use crate::compiler::turing_compiler::TuringCompiler;
use crate::compiler::turing_compiler::alloc_count;
use crate::compiler::turing_compiler::resolved;
use crate::compiler::turing_compiler::same_entry;
use crate::compiler::turing_compiler::untouched_outside;
use crate::enums::movement::Movement;
use crate::machine::instruction::Instruction;
use crate::machine::instruction::rule;
use crate::machine::state::State;

verus! {

/// The states one chained iteration may allocate: enough for every emitting
/// operation of the library, the ripple-carry digit's fourteen included.
pub const CHAIN_STEP_ALLOWANCE: usize = 16;

/// `s` carries the two rules of one unconditional block in `table`: for
/// either bit read, write the block's bit, move the block's way, continue in
/// `next`.
pub open spec fn block_entries(
    table: Map<(State, bool), Instruction>,
    s: State,
    write_on_zero: bool,
    write_on_one: bool,
    movement: Movement,
    next: State,
) -> bool {
    &&& table.contains_key((s, false))
    &&& table[(s, false)] == rule(s, false, write_on_zero, movement, next)
    &&& table.contains_key((s, true))
    &&& table[(s, true)] == rule(s, true, write_on_one, movement, next)
}

/// The boundary states of an `x`-step chain: the caller's start, `x - 1`
/// consecutively numbered intermediates from `base` on, and the caller's end.
pub open spec fn hop_seq(start: State, end: State, base: int, x: int) -> Seq<State> {
    Seq::new(
        (x + 1) as nat,
        |j: int|
            if j == 0 {
                start
            } else if j == x {
                end
            } else {
                State((base + j - 1) as usize)
            },
    )
}

/// Consecutive states of `qs` are wired as unconditional moves in `table`.
pub open spec fn move_chain(
    table: Map<(State, bool), Instruction>,
    qs: Seq<State>,
    movement: Movement,
) -> bool {
    forall|j: int|
        0 <= j < qs.len() - 1 ==> block_entries(
            table,
            #[trigger] qs[j],
            false,
            true,
            movement,
            qs[j + 1],
        )
}

/// The states an emitting call may have touched: its anchor plus everything
/// allocated while it ran.
pub open spec fn touched_states(anchor: State, lo: int, hi: int) -> Set<State> {
    Set::new(|s: State| s == anchor || lo <= s.value() < hi)
}

/// Extending a frame: if `t1` left everything outside `touched1` as it was
/// in `t0`, and `t2` changed `t1` at most at `changed`, then everything
/// outside the larger `touched2` is still as in `t0`.
pub(crate) proof fn lemma_untouched_extend(
    t0: Map<(State, bool), Instruction>,
    t1: Map<(State, bool), Instruction>,
    t2: Map<(State, bool), Instruction>,
    touched1: Set<State>,
    touched2: Set<State>,
    changed: State,
)
    requires
        untouched_outside(t0, t1, touched1),
        touched1.subset_of(touched2),
        touched2.contains(changed),
        forall|s: State, b: bool| s != changed ==> #[trigger] same_entry(t1, t2, s, b),
    ensures
        untouched_outside(t0, t2, touched2),
{
    assert forall|s: State, b: bool| !touched2.contains(s) implies #[trigger] same_entry(
        t0,
        t2,
        s,
        b,
    ) by {
        assert(!touched1.contains(s));
        assert(same_entry(t0, t1, s, b));
        assert(same_entry(t1, t2, s, b));
    }
}

/// The set holding one state.
pub open spec fn single_state(s: State) -> Set<State> {
    Set::new(|x: State| x == s)
}

/// Inserting a state's two rules leaves every other state's entries alone.
pub proof fn lemma_insert_pair_untouched(
    t1: Map<(State, bool), Instruction>,
    t2: Map<(State, bool), Instruction>,
    s: State,
    b1: bool,
    b2: bool,
    i1: Instruction,
    i2: Instruction,
)
    requires
        t2 == t1.insert((s, b1), i1).insert((s, b2), i2),
    ensures
        untouched_outside(t1, t2, single_state(s)),
{
    assert forall|x: State, b: bool| !single_state(s).contains(x) implies #[trigger] same_entry(
        t1,
        t2,
        x,
        b,
    ) by {}
}

/// A move chain none of whose key states were touched survives an update.
pub proof fn lemma_move_chain_preserved(
    before: Map<(State, bool), Instruction>,
    after: Map<(State, bool), Instruction>,
    qs: Seq<State>,
    movement: Movement,
    touched: Set<State>,
)
    requires
        move_chain(before, qs, movement),
        untouched_outside(before, after, touched),
        forall|j: int| 0 <= j < qs.len() - 1 ==> !touched.contains(#[trigger] qs[j]),
    ensures
        move_chain(after, qs, movement),
{
    assert forall|j: int| 0 <= j < qs.len() - 1 implies block_entries(
        after,
        #[trigger] qs[j],
        false,
        true,
        movement,
        qs[j + 1],
    ) by {
        assert(block_entries(before, qs[j], false, true, movement, qs[j + 1]));
        assert(same_entry(before, after, qs[j], false));
        assert(same_entry(before, after, qs[j], true));
    }
}

/// A single block whose state was not touched survives an update.
pub proof fn lemma_block_entries_preserved(
    before: Map<(State, bool), Instruction>,
    after: Map<(State, bool), Instruction>,
    s: State,
    write_on_zero: bool,
    write_on_one: bool,
    movement: Movement,
    next: State,
    touched: Set<State>,
)
    requires
        block_entries(before, s, write_on_zero, write_on_one, movement, next),
        untouched_outside(before, after, touched),
        !touched.contains(s),
    ensures
        block_entries(after, s, write_on_zero, write_on_one, movement, next),
{
    assert(same_entry(before, after, s, false));
    assert(same_entry(before, after, s, true));
}

/// The table a bit-serial logic gate adds to `before`: branch on operand A
/// advancing past it, branch on operand B from the state reached, converge
/// on one of two result states per the truth table `out00..out11`, write the
/// result bit, and move `final_movement`. The four helper states are
/// numbered consecutively from `base`.
pub open spec fn gate_table(
    before: Map<(State, bool), Instruction>,
    start: State,
    end: State,
    base: int,
    out00: bool,
    out01: bool,
    out10: bool,
    out11: bool,
    movement: Movement,
    final_movement: Movement,
) -> Map<(State, bool), Instruction> {
    let read_0 = State(base as usize);
    let read_1 = State((base + 1) as usize);
    let result_0 = State((base + 2) as usize);
    let result_1 = State((base + 3) as usize);
    before.insert((start, false), rule(start, false, false, movement, read_0)).insert(
        (start, true),
        rule(start, true, true, movement, read_1),
    ).insert(
        (read_0, false),
        rule(read_0, false, false, movement, if out00 { result_1 } else { result_0 }),
    ).insert(
        (read_0, true),
        rule(read_0, true, true, movement, if out01 { result_1 } else { result_0 }),
    ).insert(
        (read_1, false),
        rule(read_1, false, false, movement, if out10 { result_1 } else { result_0 }),
    ).insert(
        (read_1, true),
        rule(read_1, true, true, movement, if out11 { result_1 } else { result_0 }),
    ).insert((result_0, false), rule(result_0, false, false, final_movement, end)).insert(
        (result_0, true),
        rule(result_0, true, false, final_movement, end),
    ).insert((result_1, false), rule(result_1, false, true, final_movement, end)).insert(
        (result_1, true),
        rule(result_1, true, true, final_movement, end),
    )
}

/// The table one ripple-carry digit adds to `before`: twelve helper states,
/// numbered consecutively from `base`, encode previous carry, operand bits,
/// result bit and next carry; the digit reads three cells, writes two, and
/// leaves by `final_movement`. The tape layout per digit is previous carry,
/// operand-1 bit, operand-2 bit, result bit, next carry.
pub open spec fn adder_table(
    before: Map<(State, bool), Instruction>,
    start: State,
    end: State,
    base: int,
    movement: Movement,
    final_movement: Movement,
) -> Map<(State, bool), Instruction> {
    let pc0 = State(base as usize);
    let pc1 = State((base + 1) as usize);
    let pc0_n0 = State((base + 2) as usize);
    let pc0_n1 = State((base + 3) as usize);
    let pc1_n0 = State((base + 4) as usize);
    let pc1_n1 = State((base + 5) as usize);
    let r0_c0 = State((base + 6) as usize);
    let r0_c1 = State((base + 7) as usize);
    let r1_c0 = State((base + 8) as usize);
    let r1_c1 = State((base + 9) as usize);
    let c0 = State((base + 10) as usize);
    let c1 = State((base + 11) as usize);
    before.insert((start, false), rule(start, false, false, movement, pc0)).insert(
        (start, true),
        rule(start, true, true, movement, pc1),
    ).insert((pc0, false), rule(pc0, false, false, movement, pc0_n0)).insert(
        (pc0, true),
        rule(pc0, true, true, movement, pc0_n1),
    ).insert((pc1, false), rule(pc1, false, false, movement, pc1_n0)).insert(
        (pc1, true),
        rule(pc1, true, true, movement, pc1_n1),
    ).insert((pc0_n0, false), rule(pc0_n0, false, false, movement, r0_c0)).insert(
        (pc0_n0, true),
        rule(pc0_n0, true, true, movement, r1_c0),
    ).insert((pc0_n1, false), rule(pc0_n1, false, false, movement, r1_c0)).insert(
        (pc0_n1, true),
        rule(pc0_n1, true, true, movement, r0_c1),
    ).insert((pc1_n0, false), rule(pc1_n0, false, false, movement, r1_c0)).insert(
        (pc1_n0, true),
        rule(pc1_n0, true, true, movement, r0_c1),
    ).insert((pc1_n1, false), rule(pc1_n1, false, false, movement, r0_c1)).insert(
        (pc1_n1, true),
        rule(pc1_n1, true, true, movement, r1_c1),
    ).insert((r0_c0, false), rule(r0_c0, false, false, movement, c0)).insert(
        (r0_c0, true),
        rule(r0_c0, true, false, movement, c0),
    ).insert((r0_c1, false), rule(r0_c1, false, false, movement, c1)).insert(
        (r0_c1, true),
        rule(r0_c1, true, false, movement, c1),
    ).insert((r1_c0, false), rule(r1_c0, false, true, movement, c0)).insert(
        (r1_c0, true),
        rule(r1_c0, true, true, movement, c0),
    ).insert((r1_c1, false), rule(r1_c1, false, true, movement, c1)).insert(
        (r1_c1, true),
        rule(r1_c1, true, true, movement, c1),
    ).insert((c0, false), rule(c0, false, false, final_movement, end)).insert(
        (c0, true),
        rule(c0, true, false, final_movement, end),
    ).insert((c1, false), rule(c1, false, true, final_movement, end)).insert(
        (c1, true),
        rule(c1, true, true, final_movement, end),
    )
}



impl TuringCompiler {
    /// Repeat a build step `n` times, threading each iteration's returned
    /// end state into the next iteration's start. Iteration 0 is anchored to
    /// the caller's start, the last to the caller's end, and a single
    /// iteration behaves exactly as one direct call of the step bound to the
    /// caller's boundaries. For more iterations the contract is an induction
    /// principle: any property of (iterations run, compiler, first returned
    /// start, last returned end) that iteration 0 establishes and that every
    /// later threaded call of the step preserves holds of the final compiler
    /// and the returned pair.
    #[verifier::rlimit(100)]
    pub fn chained_loop<F: Fn(&mut TuringCompiler, usize, Option<State>, Option<State>) -> (
        State,
        State,
    )>(
        &mut self,
        n: usize,
        start_state: Option<State>,
        end_state: Option<State>,
        build_iteration: F,
    ) -> (r: (State, State))
        requires
            n >= 1,
            old(self).counter() + n * CHAIN_STEP_ALLOWANCE <= usize::MAX,
            forall|c: &mut TuringCompiler, i: usize, a: Option<State>, b: Option<State>|
                i < n && (*c).counter() + CHAIN_STEP_ALLOWANCE <= usize::MAX
                    ==> call_requires(build_iteration, (c, i, a, b)),
            forall|c: &mut TuringCompiler, i: usize, a: Option<State>, b: Option<State>, rr: (
                State,
                State,
            )|
                call_ensures(build_iteration, (c, i, a, b), rr) ==> ((a is Some ==> rr.0 == a->0)
                    && (b is Some ==> rr.1 == b->0) && (*final(c)).counter() <= (*c).counter()
                    + CHAIN_STEP_ALLOWANCE),
        ensures
            start_state is Some ==> r.0 == start_state->0,
            end_state is Some ==> r.1 == end_state->0,
            n == 1 ==> exists|c: &mut TuringCompiler|
                *c == *old(self) && *final(c) == *final(self) && call_ensures(
                    build_iteration,
                    (c, 0usize, start_state, end_state),
                    r,
                ),
            n >= 2 ==> forall|inv: spec_fn(int, TuringCompiler, State, State) -> bool|
                ({
                    &&& (forall|c: &mut TuringCompiler, rr: (State, State)|
                        *c == *old(self) && call_ensures(
                            build_iteration,
                            (c, 0usize, start_state, Option::<State>::None),
                            rr,
                        ) ==> inv(1, *final(c), rr.0, rr.1))
                    &&& (forall|
                        j: usize,
                        c: &mut TuringCompiler,
                        first: State,
                        prev: State,
                        rr: (State, State),
                    |
                        1 <= j < n - 1 && #[trigger] inv(j as int, *c, first, prev) && #[trigger] call_ensures(
                            build_iteration,
                            (c, j, Some(prev), Option::<State>::None),
                            rr,
                        ) ==> inv(j as int + 1, *final(c), first, rr.1))
                    &&& (forall|
                        c: &mut TuringCompiler,
                        first: State,
                        prev: State,
                        rr: (State, State),
                    |
                        #[trigger] inv((n - 1) as int, *c, first, prev) && #[trigger] call_ensures(
                            build_iteration,
                            (c, (n - 1) as usize, Some(prev), end_state),
                            rr,
                        ) ==> inv(n as int, *final(c), first, rr.1))
                }) ==> #[trigger] inv(n as int, *final(self), r.0, r.1),
    {
        if n == 1 {
            let r = build_iteration(self, 0, start_state, end_state);
            return r;
        }
        let mut prev_iter_end: Option<State> = None;
        let mut loop_start: Option<State> = None;
        let mut i: usize = 0;
        while i < n
            invariant
                2 <= n,
                i <= n,
                old(self).counter() + n * CHAIN_STEP_ALLOWANCE <= usize::MAX,
                self.counter() <= old(self).counter() + i * CHAIN_STEP_ALLOWANCE,
                forall|c: &mut TuringCompiler, j: usize, a: Option<State>, b: Option<State>|
                    j < n && (*c).counter() + CHAIN_STEP_ALLOWANCE <= usize::MAX
                        ==> call_requires(build_iteration, (c, j, a, b)),
                forall|c: &mut TuringCompiler, j: usize, a: Option<State>, b: Option<State>, rr: (
                    State,
                    State,
                )|
                    call_ensures(build_iteration, (c, j, a, b), rr) ==> ((a is Some ==> rr.0
                        == a->0) && (b is Some ==> rr.1 == b->0) && (*final(c)).counter() <= (
                    *c).counter() + CHAIN_STEP_ALLOWANCE),
                i == 0 ==> *self == *old(self),
                i >= 1 ==> loop_start is Some,
                i >= 1 && start_state is Some ==> loop_start == start_state,
                i >= 1 ==> prev_iter_end is Some,
                i == n && end_state is Some ==> prev_iter_end == end_state,
                i >= 1 ==> forall|inv: spec_fn(int, TuringCompiler, State, State) -> bool|
                    ({
                        &&& (forall|c: &mut TuringCompiler, rr: (State, State)|
                            *c == *old(self) && call_ensures(
                                build_iteration,
                                (c, 0usize, start_state, Option::<State>::None),
                                rr,
                            ) ==> inv(1, *final(c), rr.0, rr.1))
                        &&& (forall|
                            j: usize,
                            c: &mut TuringCompiler,
                            first: State,
                            prev: State,
                            rr: (State, State),
                        |
                            1 <= j < n - 1 && #[trigger] inv(j as int, *c, first, prev) && #[trigger] call_ensures(
                                build_iteration,
                                (c, j, Some(prev), Option::<State>::None),
                                rr,
                            ) ==> inv(j as int + 1, *final(c), first, rr.1))
                        &&& (forall|
                            c: &mut TuringCompiler,
                            first: State,
                            prev: State,
                            rr: (State, State),
                        |
                            #[trigger] inv((n - 1) as int, *c, first, prev) && #[trigger] call_ensures(
                                build_iteration,
                                (c, (n - 1) as usize, Some(prev), end_state),
                                rr,
                            ) ==> inv(n as int, *final(c), first, rr.1))
                    }) ==> #[trigger] inv(i as int, *self, loop_start->0, prev_iter_end->0),
            decreases n - i,
        {
            let this_start = if i == 0 {
                start_state
            } else {
                prev_iter_end
            };
            let this_end = if i == n - 1 {
                end_state
            } else {
                None
            };
            let ghost before = *self;
            let ghost previous = prev_iter_end;
            let (iter_start, iter_end) = build_iteration(self, i, this_start, this_end);
            if i == 0 {
                loop_start = Some(iter_start);
            }
            prev_iter_end = Some(iter_end);
            i = i + 1;
            proof {
                assert forall|inv: spec_fn(int, TuringCompiler, State, State) -> bool|
                    ({
                        &&& (forall|c: &mut TuringCompiler, rr: (State, State)|
                            *c == *old(self) && #[trigger] call_ensures(
                                build_iteration,
                                (c, 0usize, start_state, Option::<State>::None),
                                rr,
                            ) ==> inv(1, *final(c), rr.0, rr.1))
                        &&& (forall|
                            j: usize,
                            c: &mut TuringCompiler,
                            first: State,
                            prev: State,
                            rr: (State, State),
                        |
                            1 <= j < n - 1 && #[trigger] inv(j as int, *c, first, prev)
                                && #[trigger] call_ensures(
                                build_iteration,
                                (c, j, Some(prev), Option::<State>::None),
                                rr,
                            ) ==> inv(j as int + 1, *final(c), first, rr.1))
                        &&& (forall|
                            c: &mut TuringCompiler,
                            first: State,
                            prev: State,
                            rr: (State, State),
                        |
                            #[trigger] inv((n - 1) as int, *c, first, prev) && #[trigger] call_ensures(
                                build_iteration,
                                (c, (n - 1) as usize, Some(prev), end_state),
                                rr,
                            ) ==> inv(n as int, *final(c), first, rr.1))
                    }) implies #[trigger] inv(
                    i as int,
                    *self,
                    loop_start->0,
                    prev_iter_end->0,
                ) by {
                    if i == 1 {
                    } else {
                        assert(inv((i - 1) as int, before, loop_start->0, previous->0));
                    }
                }
            }
        }
        (loop_start.unwrap(), prev_iter_end.unwrap())
    }

    /// One unconditional step the given way: a move for left or right, an
    /// idle block for stay.
    pub fn move_in_direction(
        &mut self,
        movement: Movement,
        current_state: Option<State>,
        next_state: Option<State>,
    ) -> (r: (State, State))
        requires
            old(self).counter() + alloc_count(current_state) + alloc_count(next_state)
                <= usize::MAX,
        ensures
            r.0 == resolved(current_state, old(self).counter()),
            r.1 == resolved(
                next_state,
                (old(self).counter() + alloc_count(current_state)) as usize,
            ),
            final(self).counter() == old(self).counter() + alloc_count(current_state)
                + alloc_count(next_state),
            final(self).table() == old(self).table().insert(
                (r.0, false),
                rule(r.0, false, false, movement, r.1),
            ).insert((r.0, true), rule(r.0, true, true, movement, r.1)),
    {
        match movement {
            Movement::Right => self.move_right(current_state, next_state),
            Movement::Left => self.move_left(current_state, next_state),
            Movement::Stay => self.idle(current_state, next_state),
        }
    }

    /// The self-loop scanner: while the bit read differs from `target_bit`,
    /// move `scan_movement` and stay in the same state; on a match move
    /// `final_movement` and continue in the end state.
    pub fn scan_single(
        &mut self,
        target_bit: bool,
        scan_movement: Movement,
        final_movement: Movement,
        current_state: Option<State>,
        next_state: Option<State>,
    ) -> (r: (State, State))
        requires
            old(self).counter() + alloc_count(current_state) + alloc_count(next_state)
                <= usize::MAX,
        ensures
            r.0 == resolved(current_state, old(self).counter()),
            r.1 == resolved(
                next_state,
                (old(self).counter() + alloc_count(current_state)) as usize,
            ),
            final(self).counter() == old(self).counter() + alloc_count(current_state)
                + alloc_count(next_state),
            target_bit ==> final(self).table() == old(self).table().insert(
                (r.0, false),
                rule(r.0, false, false, scan_movement, r.0),
            ).insert((r.0, true), rule(r.0, true, true, final_movement, r.1)),
            !target_bit ==> final(self).table() == old(self).table().insert(
                (r.0, false),
                rule(r.0, false, false, final_movement, r.1),
            ).insert((r.0, true), rule(r.0, true, true, scan_movement, r.0)),
    {
        let start_state = self.resolve_or_allocate(current_state);
        let end_state = self.resolve_or_allocate(next_state);
        if target_bit {
            self.branch(
                Some(start_state),
                Some(end_state),
                Some(start_state),
                final_movement,
                scan_movement,
            );
        } else {
            self.branch(
                Some(start_state),
                Some(start_state),
                Some(end_state),
                scan_movement,
                final_movement,
            );
        }
        (start_state, end_state)
    }

    /// Two-way dispatch on one bit with independent movement per outcome: on
    /// reading `target_bit` continue in the next state moving
    /// `next_movement`, otherwise in the else state moving `else_movement`.
    pub fn branch_when(
        &mut self,
        target_bit: bool,
        next_movement: Movement,
        else_movement: Movement,
        current_state: Option<State>,
        next_state: Option<State>,
        else_state: Option<State>,
    ) -> (r: (State, State, State))
        requires
            old(self).counter() + alloc_count(current_state) + alloc_count(next_state)
                + alloc_count(else_state) <= usize::MAX,
        ensures
            r.0 == resolved(current_state, old(self).counter()),
            r.1 == resolved(
                next_state,
                (old(self).counter() + alloc_count(current_state)) as usize,
            ),
            r.2 == resolved(
                else_state,
                (old(self).counter() + alloc_count(current_state) + alloc_count(
                    next_state,
                )) as usize,
            ),
            final(self).counter() == old(self).counter() + alloc_count(current_state)
                + alloc_count(next_state) + alloc_count(else_state),
            final(self).table() == old(self).table().insert(
                (r.0, !target_bit),
                rule(r.0, !target_bit, !target_bit, else_movement, r.2),
            ).insert((r.0, target_bit), rule(r.0, target_bit, target_bit, next_movement, r.1)),
    {
        let start_state = self.resolve_or_allocate(current_state);
        let next_resolved = self.resolve_or_allocate(next_state);
        let else_resolved = self.resolve_or_allocate(else_state);
        if target_bit {
            self.branch(
                Some(start_state),
                Some(next_resolved),
                Some(else_resolved),
                next_movement,
                else_movement,
            );
        } else {
            self.branch(
                Some(start_state),
                Some(else_resolved),
                Some(next_resolved),
                else_movement,
                next_movement,
            );
            proof {
                assert(final(self).table() =~= old(self).table().insert(
                    (start_state, true),
                    rule(start_state, true, true, else_movement, else_resolved),
                ).insert((start_state, false), rule(start_state, false, false, next_movement, next_resolved)));
            }
        }
        (start_state, next_resolved, else_resolved)
    }

    /// Write `target_bit` under the head, then move the given way.
    pub fn write_and_move(
        &mut self,
        target_bit: bool,
        movement: Movement,
        current_state: Option<State>,
        next_state: Option<State>,
    ) -> (r: (State, State))
        requires
            old(self).counter() + alloc_count(current_state) + alloc_count(next_state)
                <= usize::MAX,
        ensures
            r.0 == resolved(current_state, old(self).counter()),
            r.1 == resolved(
                next_state,
                (old(self).counter() + alloc_count(current_state)) as usize,
            ),
            final(self).counter() == old(self).counter() + alloc_count(current_state)
                + alloc_count(next_state),
            final(self).table() == old(self).table().insert(
                (r.0, false),
                rule(r.0, false, target_bit, movement, r.1),
            ).insert((r.0, true), rule(r.0, true, target_bit, movement, r.1)),
    {
        if target_bit {
            match movement {
                Movement::Right => self.mark_and_move_right(current_state, next_state),
                Movement::Left => self.mark_and_move_left(current_state, next_state),
                Movement::Stay => self.mark(current_state, next_state),
            }
        } else {
            match movement {
                Movement::Right => self.unmark_and_move_right(current_state, next_state),
                Movement::Left => self.unmark_and_move_left(current_state, next_state),
                Movement::Stay => self.unmark(current_state, next_state),
            }
        }
    }

    /// The shared body of the two bounded movers: a chain of `x` single
    /// moves the same way, one state per step.
    fn move_x(
        &mut self,
        x: usize,
        current_state: Option<State>,
        next_state: Option<State>,
        movement: Movement,
    ) -> (r: (State, State))
        requires
            1 <= x,
            old(self).counter() + x + 1 <= usize::MAX,
            current_state matches Some(s) ==> s.value() < old(self).counter(),
        ensures
            r.0 == resolved(current_state, old(self).counter()),
            r.1 == resolved(
                next_state,
                (old(self).counter() + alloc_count(current_state)) as usize,
            ),
            final(self).counter() == old(self).counter() + alloc_count(current_state)
                + alloc_count(next_state) + (x - 1),
            move_chain(
                final(self).table(),
                hop_seq(
                    r.0,
                    r.1,
                    old(self).counter() + alloc_count(current_state) + alloc_count(next_state),
                    x as int,
                ),
                movement,
            ),
            untouched_outside(
                old(self).table(),
                final(self).table(),
                touched_states(r.0, old(self).counter() as int, final(self).counter() as int),
            ),
    {
        let start_state = self.resolve_or_allocate(current_state);
        let end_state = self.resolve_or_allocate(next_state);
        let mut from = start_state;
        let mut emitted: usize = 0;
        while emitted < x - 1
            invariant
                1 <= x,
                old(self).counter() + x + 1 <= usize::MAX,
                emitted <= x - 1,
                start_state == resolved(current_state, old(self).counter()),
                end_state == resolved(
                    next_state,
                    (old(self).counter() + alloc_count(current_state)) as usize,
                ),
                start_state.value() < old(self).counter() + alloc_count(current_state)
                    + alloc_count(next_state),
                self.counter() == old(self).counter() + alloc_count(current_state) + alloc_count(
                    next_state,
                ) + emitted,
                from == hop_seq(
                    start_state,
                    end_state,
                    old(self).counter() + alloc_count(current_state) + alloc_count(next_state),
                    x as int,
                )[emitted as int],
                forall|j: int|
                    0 <= j < emitted ==> #[trigger] block_entries(
                        self.table(),
                        hop_seq(
                            start_state,
                            end_state,
                            old(self).counter() + alloc_count(current_state) + alloc_count(
                                next_state,
                            ),
                            x as int,
                        )[j],
                        false,
                        true,
                        movement,
                        hop_seq(
                            start_state,
                            end_state,
                            old(self).counter() + alloc_count(current_state) + alloc_count(
                                next_state,
                            ),
                            x as int,
                        )[j + 1],
                    ),
                untouched_outside(
                    old(self).table(),
                    self.table(),
                    touched_states(
                        start_state,
                        old(self).counter() as int,
                        self.counter() as int,
                    ),
                ),
            decreases x - 1 - emitted,
        {
            let ghost table_before = self.table();
            let ghost counter_before = self.counter() as int;
            let (_, mid) = self.emit_block(Some(from), None, false, true, movement);
            proof {
                lemma_untouched_extend(
                    old(self).table(),
                    table_before,
                    self.table(),
                    touched_states(start_state, old(self).counter() as int, counter_before),
                    touched_states(start_state, old(self).counter() as int, self.counter() as int),
                    from,
                );
                let base = old(self).counter() + alloc_count(current_state) + alloc_count(
                    next_state,
                );
                let qs = hop_seq(start_state, end_state, base, x as int);
                assert(qs[emitted + 1] == mid);
                assert(block_entries(self.table(), qs[emitted as int], false, true, movement, qs[emitted + 1]));
                assert forall|j: int| 0 <= j < emitted implies #[trigger] block_entries(
                    self.table(),
                    qs[j],
                    false,
                    true,
                    movement,
                    qs[j + 1],
                ) by {
                    assert(block_entries(table_before, qs[j], false, true, movement, qs[j + 1]));
                    assert(qs[j] != from);
                }
            }
            from = mid;
            emitted = emitted + 1;
        }
        let ghost table_before = self.table();
        let ghost counter_before = self.counter() as int;
        self.emit_block(Some(from), Some(end_state), false, true, movement);
        proof {
            lemma_untouched_extend(
                old(self).table(),
                table_before,
                self.table(),
                touched_states(start_state, old(self).counter() as int, counter_before),
                touched_states(start_state, old(self).counter() as int, self.counter() as int),
                from,
            );
            let base = old(self).counter() + alloc_count(current_state) + alloc_count(next_state);
            let qs = hop_seq(start_state, end_state, base, x as int);
            assert(block_entries(self.table(), qs[x - 1], false, true, movement, qs[x as int]));
            assert forall|j: int| 0 <= j < qs.len() - 1 implies #[trigger] block_entries(
                self.table(),
                qs[j],
                false,
                true,
                movement,
                qs[j + 1],
            ) by {
                if j < x - 1 {
                    assert(block_entries(table_before, qs[j], false, true, movement, qs[j + 1]));
                    assert(qs[j] != from);
                }
            }
        }
        (start_state, end_state)
    }

    /// The shared wiring of the three gates, with the next state per (A, B)
    /// combination taken from the truth table `out00..out11`.
    fn logic_gate(
        &mut self,
        out00: bool,
        out01: bool,
        out10: bool,
        out11: bool,
        movement: Movement,
        final_movement: Movement,
        current_state: Option<State>,
        next_state: Option<State>,
    ) -> (r: (State, State))
        requires
            old(self).counter() + 6 <= usize::MAX,
        ensures
            r.0 == resolved(current_state, old(self).counter()),
            r.1 == resolved(
                next_state,
                (old(self).counter() + alloc_count(current_state)) as usize,
            ),
            final(self).counter() == old(self).counter() + alloc_count(current_state)
                + alloc_count(next_state) + 4,
            final(self).table() == gate_table(
                old(self).table(),
                r.0,
                r.1,
                old(self).counter() + alloc_count(current_state) + alloc_count(next_state),
                out00,
                out01,
                out10,
                out11,
                movement,
                final_movement,
            ),
    {
        let start_state = self.resolve_or_allocate(current_state);
        let end_state = self.resolve_or_allocate(next_state);

        let read_0 = self.allocate_state();
        let read_1 = self.allocate_state();
        let result_0 = self.allocate_state();
        let result_1 = self.allocate_state();

        self.branch(Some(start_state), Some(read_1), Some(read_0), movement, movement);
        self.branch(
            Some(read_0),
            Some(if out01 { result_1 } else { result_0 }),
            Some(if out00 { result_1 } else { result_0 }),
            movement,
            movement,
        );
        self.branch(
            Some(read_1),
            Some(if out11 { result_1 } else { result_0 }),
            Some(if out10 { result_1 } else { result_0 }),
            movement,
            movement,
        );
        self.write_and_move(false, final_movement, Some(result_0), Some(end_state));
        self.write_and_move(true, final_movement, Some(result_1), Some(end_state));

        (start_state, end_state)
    }

    /// Bit-serial disjunction: reads two operand cells, writes their OR.
    pub fn or(
        &mut self,
        movement: Movement,
        final_movement: Movement,
        current_state: Option<State>,
        next_state: Option<State>,
    ) -> (r: (State, State))
        requires
            old(self).counter() + 6 <= usize::MAX,
        ensures
            r.0 == resolved(current_state, old(self).counter()),
            r.1 == resolved(
                next_state,
                (old(self).counter() + alloc_count(current_state)) as usize,
            ),
            final(self).counter() == old(self).counter() + alloc_count(current_state)
                + alloc_count(next_state) + 4,
            final(self).table() == gate_table(
                old(self).table(),
                r.0,
                r.1,
                old(self).counter() + alloc_count(current_state) + alloc_count(next_state),
                false,
                true,
                true,
                true,
                movement,
                final_movement,
            ),
    {
        self.logic_gate(false, true, true, true, movement, final_movement, current_state, next_state)
    }

    /// Bit-serial conjunction: reads two operand cells, writes their AND.
    pub fn and(
        &mut self,
        movement: Movement,
        final_movement: Movement,
        current_state: Option<State>,
        next_state: Option<State>,
    ) -> (r: (State, State))
        requires
            old(self).counter() + 6 <= usize::MAX,
        ensures
            r.0 == resolved(current_state, old(self).counter()),
            r.1 == resolved(
                next_state,
                (old(self).counter() + alloc_count(current_state)) as usize,
            ),
            final(self).counter() == old(self).counter() + alloc_count(current_state)
                + alloc_count(next_state) + 4,
            final(self).table() == gate_table(
                old(self).table(),
                r.0,
                r.1,
                old(self).counter() + alloc_count(current_state) + alloc_count(next_state),
                false,
                false,
                false,
                true,
                movement,
                final_movement,
            ),
    {
        self.logic_gate(false, false, false, true, movement, final_movement, current_state, next_state)
    }

    /// Bit-serial exclusive or: reads two operand cells, writes their XOR.
    pub fn xor(
        &mut self,
        movement: Movement,
        final_movement: Movement,
        current_state: Option<State>,
        next_state: Option<State>,
    ) -> (r: (State, State))
        requires
            old(self).counter() + 6 <= usize::MAX,
        ensures
            r.0 == resolved(current_state, old(self).counter()),
            r.1 == resolved(
                next_state,
                (old(self).counter() + alloc_count(current_state)) as usize,
            ),
            final(self).counter() == old(self).counter() + alloc_count(current_state)
                + alloc_count(next_state) + 4,
            final(self).table() == gate_table(
                old(self).table(),
                r.0,
                r.1,
                old(self).counter() + alloc_count(current_state) + alloc_count(next_state),
                false,
                true,
                true,
                false,
                movement,
                final_movement,
            ),
    {
        self.logic_gate(false, true, true, false, movement, final_movement, current_state, next_state)
    }

    /// One digit of ripple-carry addition. The tape layout interleaves
    /// previous carry, operand-1 bit, operand-2 bit, result bit and next
    /// carry; with a staying final movement the next carry cell doubles as
    /// the next digit's previous carry, so digits chain with no extra state.
    pub fn add(
        &mut self,
        movement: Movement,
        final_movement: Movement,
        current_state: Option<State>,
        next_state: Option<State>,
    ) -> (r: (State, State))
        requires
            old(self).counter() + 14 <= usize::MAX,
        ensures
            r.0 == resolved(current_state, old(self).counter()),
            r.1 == resolved(
                next_state,
                (old(self).counter() + alloc_count(current_state)) as usize,
            ),
            final(self).counter() == old(self).counter() + alloc_count(current_state)
                + alloc_count(next_state) + 12,
            final(self).table() == adder_table(
                old(self).table(),
                r.0,
                r.1,
                old(self).counter() + alloc_count(current_state) + alloc_count(next_state),
                movement,
                final_movement,
            ),
    {
        let start_state = self.resolve_or_allocate(current_state);
        let end_state = self.resolve_or_allocate(next_state);

        let pc0 = self.allocate_state();
        let pc1 = self.allocate_state();
        let pc0_n0 = self.allocate_state();
        let pc0_n1 = self.allocate_state();
        let pc1_n0 = self.allocate_state();
        let pc1_n1 = self.allocate_state();
        let r0_c0 = self.allocate_state();
        let r0_c1 = self.allocate_state();
        let r1_c0 = self.allocate_state();
        let r1_c1 = self.allocate_state();
        let c0 = self.allocate_state();
        let c1 = self.allocate_state();

        self.branch(Some(start_state), Some(pc1), Some(pc0), movement, movement);
        self.branch(Some(pc0), Some(pc0_n1), Some(pc0_n0), movement, movement);
        self.branch(Some(pc1), Some(pc1_n1), Some(pc1_n0), movement, movement);
        self.branch(Some(pc0_n0), Some(r1_c0), Some(r0_c0), movement, movement);
        self.branch(Some(pc0_n1), Some(r0_c1), Some(r1_c0), movement, movement);
        self.branch(Some(pc1_n0), Some(r0_c1), Some(r1_c0), movement, movement);
        self.branch(Some(pc1_n1), Some(r1_c1), Some(r0_c1), movement, movement);
        self.write_and_move(false, movement, Some(r0_c0), Some(c0));
        self.write_and_move(false, movement, Some(r0_c1), Some(c1));
        self.write_and_move(true, movement, Some(r1_c0), Some(c0));
        self.write_and_move(true, movement, Some(r1_c1), Some(c1));
        self.write_and_move(false, final_movement, Some(c0), Some(end_state));
        self.write_and_move(true, final_movement, Some(c1), Some(end_state));

        (start_state, end_state)
    }

    /// The given state moves the head `x` cells right, then continues in the
    /// next state.
    pub fn move_right_x(
        &mut self,
        x: usize,
        current_state: Option<State>,
        next_state: Option<State>,
    ) -> (r: (State, State))
        requires
            1 <= x,
            old(self).counter() + x + 1 <= usize::MAX,
            current_state matches Some(s) ==> s.value() < old(self).counter(),
        ensures
            r.0 == resolved(current_state, old(self).counter()),
            r.1 == resolved(
                next_state,
                (old(self).counter() + alloc_count(current_state)) as usize,
            ),
            final(self).counter() == old(self).counter() + alloc_count(current_state)
                + alloc_count(next_state) + (x - 1),
            move_chain(
                final(self).table(),
                hop_seq(
                    r.0,
                    r.1,
                    old(self).counter() + alloc_count(current_state) + alloc_count(next_state),
                    x as int,
                ),
                Movement::Right,
            ),
            untouched_outside(
                old(self).table(),
                final(self).table(),
                touched_states(r.0, old(self).counter() as int, final(self).counter() as int),
            ),
    {
        self.move_x(x, current_state, next_state, Movement::Right)
    }

    /// The given state moves the head `x` cells left, then continues in the
    /// next state.
    pub fn move_left_x(
        &mut self,
        x: usize,
        current_state: Option<State>,
        next_state: Option<State>,
    ) -> (r: (State, State))
        requires
            1 <= x,
            old(self).counter() + x + 1 <= usize::MAX,
            current_state matches Some(s) ==> s.value() < old(self).counter(),
        ensures
            r.0 == resolved(current_state, old(self).counter()),
            r.1 == resolved(
                next_state,
                (old(self).counter() + alloc_count(current_state)) as usize,
            ),
            final(self).counter() == old(self).counter() + alloc_count(current_state)
                + alloc_count(next_state) + (x - 1),
            move_chain(
                final(self).table(),
                hop_seq(
                    r.0,
                    r.1,
                    old(self).counter() + alloc_count(current_state) + alloc_count(next_state),
                    x as int,
                ),
                Movement::Left,
            ),
            untouched_outside(
                old(self).table(),
                final(self).table(),
                touched_states(r.0, old(self).counter() as int, final(self).counter() as int),
            ),
    {
        self.move_x(x, current_state, next_state, Movement::Left)
    }
}

} // verus!
