use vstd::prelude::*;

use crate::compiler::layers::base::adder_table;
use crate::compiler::layers::base::block_entries;
use crate::compiler::layers::base::gate_table;
use crate::compiler::layers::base::hop_seq;
use crate::compiler::layers::base::move_chain;
use crate::compiler::layers::pattern::match_entries;
use crate::compiler::layers::pattern::pattern_bit;
use crate::compiler::layers::pattern::scan_chain;
use crate::compiler::layers::pattern::write_chain;
use crate::enums::movement::Movement;
use crate::machine::instruction::Instruction;
use crate::machine::instruction::rule;
use crate::machine::state::State;
use crate::machine::turing_machine::Config;
use crate::machine::turing_machine::apply_instruction;
use crate::machine::turing_machine::StepResult;
use crate::machine::turing_machine::lemma_steps_to_trans;
use crate::machine::turing_machine::MachineError;
use crate::machine::turing_machine::RunOutcome;
use crate::machine::turing_machine::reaches;
use crate::machine::turing_machine::run_outcome;
use crate::machine::turing_machine::spec_step;
use crate::machine::turing_machine::steps_to;
use crate::machine::turing_tape::grown;

verus! {

/// `f` holds the same cells as `t`, possibly followed by zero padding.
pub open spec fn padded_of(t: Seq<bool>, f: Seq<bool>) -> bool {
    f.len() >= t.len() && forall|i: int| 0 <= i < f.len() ==> #[trigger] f[i] == (i < t.len() && t[i])
}

pub proof fn lemma_padded_refl(t: Seq<bool>)
    ensures
        padded_of(t, t),
{
}

pub proof fn lemma_grown_padded(t: Seq<bool>, i: int)
    ensures
        padded_of(t, grown(t, i)),
{
}

pub proof fn lemma_padded_trans(a: Seq<bool>, b: Seq<bool>, c: Seq<bool>)
    requires
        padded_of(a, b),
        padded_of(b, c),
    ensures
        padded_of(a, c),
{
}

/// Writing back the bit that is already there changes nothing.
proof fn lemma_update_same(t: Seq<bool>, i: int)
    requires
        0 <= i < t.len(),
    ensures
        t.update(i, t[i]) == t,
{
    assert(t.update(i, t[i]) =~= t);
}

/// Running a rightward move chain: from its first state the machine walks
/// one cell right per step, leaves every existing cell as it was, and ends
/// in the chain's last state with the head moved by the chain's length.
pub proof fn lemma_move_chain_runs_right(
    p: Map<(State, bool), Instruction>,
    qs: Seq<State>,
    t: Seq<bool>,
    h: nat,
)
    requires
        move_chain(p, qs, Movement::Right),
        qs.len() >= 1,
    ensures
        exists|f: Seq<bool>|
            #[trigger] padded_of(t, f) && (qs.len() >= 2 ==> f.len() > h + qs.len() - 1)
                && steps_to(
                p,
                Config { tape: t, head: h, state: qs[0] },
                Config { tape: f, head: (h + qs.len() - 1) as nat, state: qs.last() },
                (qs.len() - 1) as nat,
            ),
    decreases qs.len(),
{
    if qs.len() == 1 {
        lemma_padded_refl(t);
        assert(steps_to(p, Config { tape: t, head: h, state: qs[0] }, Config { tape: t, head: h, state: qs.last() }, 0));
    } else {
        let c0 = Config { tape: t, head: h, state: qs[0] };
        let covered = grown(t, h as int);
        let bit = covered[h as int];
        assert(block_entries(p, qs[0], false, true, Movement::Right, qs[1]));
        let instruction = p[(qs[0], bit)];
        if bit {
            assert(instruction == rule(qs[0], bit, bit, Movement::Right, qs[1]));
        } else {
            assert(instruction == rule(qs[0], bit, bit, Movement::Right, qs[1]));
        }
        lemma_update_same(covered, h as int);
        let t1 = grown(covered, h as int + 1);
        let c1 = Config { tape: t1, head: (h + 1) as nat, state: qs[1] };
        assert(spec_step(p, c0) == StepResult::Next(c1));
        let rest = qs.subrange(1, qs.len() as int);
        assert forall|j: int| 0 <= j < rest.len() - 1 implies #[trigger] block_entries(
            p,
            rest[j],
            false,
            true,
            Movement::Right,
            rest[j + 1],
        ) by {
            assert(block_entries(p, qs[j + 1], false, true, Movement::Right, qs[j + 2]));
        }
        lemma_move_chain_runs_right(p, rest, t1, (h + 1) as nat);
        let f = choose|f: Seq<bool>|
            #[trigger] padded_of(t1, f) && (rest.len() >= 2 ==> f.len() > (h + 1) + rest.len() - 1)
                && steps_to(
                p,
                Config { tape: t1, head: (h + 1) as nat, state: rest[0] },
                Config { tape: f, head: ((h + 1) + rest.len() - 1) as nat, state: rest.last() },
                (rest.len() - 1) as nat,
            );
        lemma_grown_padded(t, h as int);
        lemma_grown_padded(covered, h as int + 1);
        lemma_padded_trans(t, covered, t1);
        lemma_padded_trans(t, t1, f);
        assert(t1.len() > h + 1);
        assert(steps_to(
            p,
            c0,
            Config { tape: f, head: (h + qs.len() - 1) as nat, state: qs.last() },
            (qs.len() - 1) as nat,
        ));
    }
}

/// Running a leftward move chain that starts on an existing cell and never
/// reaches the low edge: the tape is untouched and the head moves left by
/// the chain's length.
pub proof fn lemma_move_chain_runs_left(
    p: Map<(State, bool), Instruction>,
    qs: Seq<State>,
    t: Seq<bool>,
    h: nat,
)
    requires
        move_chain(p, qs, Movement::Left),
        qs.len() >= 1,
        h >= qs.len() - 1,
        h < t.len(),
    ensures
        steps_to(
            p,
            Config { tape: t, head: h, state: qs[0] },
            Config { tape: t, head: (h - (qs.len() - 1)) as nat, state: qs.last() },
            (qs.len() - 1) as nat,
        ),
    decreases qs.len(),
{
    if qs.len() == 1 {
    } else {
        let c0 = Config { tape: t, head: h, state: qs[0] };
        assert(block_entries(p, qs[0], false, true, Movement::Left, qs[1]));
        let bit = t[h as int];
        if bit {
            assert(p[(qs[0], bit)] == rule(qs[0], bit, bit, Movement::Left, qs[1]));
        } else {
            assert(p[(qs[0], bit)] == rule(qs[0], bit, bit, Movement::Left, qs[1]));
        }
        assert(grown(t, h as int) == t);
        lemma_update_same(t, h as int);
        let c1 = Config { tape: t, head: (h - 1) as nat, state: qs[1] };
        assert(spec_step(p, c0) == StepResult::Next(c1));
        let rest = qs.subrange(1, qs.len() as int);
        assert forall|j: int| 0 <= j < rest.len() - 1 implies #[trigger] block_entries(
            p,
            rest[j],
            false,
            true,
            Movement::Left,
            rest[j + 1],
        ) by {
            assert(block_entries(p, qs[j + 1], false, true, Movement::Left, qs[j + 2]));
        }
        lemma_move_chain_runs_left(p, rest, t, (h - 1) as nat);
        assert(steps_to(
            p,
            c0,
            Config { tape: t, head: (h - (qs.len() - 1)) as nat, state: qs.last() },
            (qs.len() - 1) as nat,
        ));
    }
}

/// Law: a chain of `n` single right moves followed by a chain of `n` single
/// left moves returns the head to the cell it started on, leaving every cell
/// it started with unchanged.
pub proof fn lemma_move_right_then_left_returns(
    p: Map<(State, bool), Instruction>,
    right_qs: Seq<State>,
    left_qs: Seq<State>,
    t: Seq<bool>,
    h: nat,
    n: nat,
)
    requires
        move_chain(p, right_qs, Movement::Right),
        move_chain(p, left_qs, Movement::Left),
        n >= 1,
        right_qs.len() == n + 1,
        left_qs.len() == n + 1,
        right_qs.last() == left_qs[0],
    ensures
        exists|f: Seq<bool>|
            #[trigger] padded_of(t, f) && steps_to(
                p,
                Config { tape: t, head: h, state: right_qs[0] },
                Config { tape: f, head: h, state: left_qs.last() },
                2 * n,
            ),
{
    lemma_move_chain_runs_right(p, right_qs, t, h);
    let f = choose|f: Seq<bool>|
        #[trigger] padded_of(t, f) && (right_qs.len() >= 2 ==> f.len() > h + right_qs.len() - 1)
            && steps_to(
            p,
            Config { tape: t, head: h, state: right_qs[0] },
            Config { tape: f, head: (h + right_qs.len() - 1) as nat, state: right_qs.last() },
            (right_qs.len() - 1) as nat,
        );
    lemma_move_chain_runs_left(p, left_qs, f, (h + n) as nat);
    lemma_steps_to_trans(
        p,
        Config { tape: t, head: h, state: right_qs[0] },
        Config { tape: f, head: (h + n) as nat, state: left_qs[0] },
        Config { tape: f, head: h, state: left_qs.last() },
        n,
        n,
    );
}


/// Law: a rightward single-bit scan started on an existing cell, with the
/// first matching cell at `m`, stops with the head exactly on `m` and the
/// tape untouched. The scanning state loops on itself below `m` and hands
/// over to `e` on the match, staying put.
pub proof fn lemma_scan_single_right_finds(
    p: Map<(State, bool), Instruction>,
    s: State,
    e: State,
    target: bool,
    t: Seq<bool>,
    h: nat,
    m: nat,
)
    requires
        p.contains_key((s, target)),
        p[(s, target)] == rule(s, target, target, Movement::Stay, e),
        p.contains_key((s, !target)),
        p[(s, !target)] == rule(s, !target, !target, Movement::Right, s),
        h <= m < t.len(),
        t[m as int] == target,
        forall|j: int| h <= j < m ==> t[j] != target,
    ensures
        steps_to(
            p,
            Config { tape: t, head: h, state: s },
            Config { tape: t, head: m, state: e },
            (m - h + 1) as nat,
        ),
    decreases m - h,
{
    let c0 = Config { tape: t, head: h, state: s };
    assert(grown(t, h as int) == t);
    lemma_update_same(t, h as int);
    if h == m {
        let c1 = Config { tape: t, head: m, state: e };
        assert(spec_step(p, c0) == StepResult::Next(c1));
        assert(steps_to(p, c1, c1, 0));
    } else {
        assert(t[h as int] == !target);
        assert(grown(t.update(h as int, t[h as int]), h as int + 1) == t);
        let c1 = Config { tape: t, head: (h + 1) as nat, state: s };
        assert(spec_step(p, c0) == StepResult::Next(c1));
        lemma_scan_single_right_finds(p, s, e, target, t, (h + 1) as nat, m);
    }
}

/// `t` with the pattern written over the cells from `h` on.
pub open spec fn written_pattern(t: Seq<bool>, h: int, pat: Seq<bool>) -> Seq<bool> {
    Seq::new(
        t.len(),
        |i: int|
            if h <= i < h + pat.len() {
                pat[i - h]
            } else {
                t[i]
            },
    )
}

/// Running the tail of a rightward write chain from position `k`: every
/// remaining pattern bit is written one cell per step, and the head stops on
/// the pattern's last cell.
proof fn lemma_write_chain_writes_from(
    p: Map<(State, bool), Instruction>,
    qs: Seq<State>,
    pat: Seq<bool>,
    t: Seq<bool>,
    h: nat,
    k: nat,
)
    requires
        write_chain(p, qs, pat, Movement::Right, Movement::Stay),
        qs.len() == pat.len() + 1,
        pat.len() >= 1,
        h + pat.len() <= t.len(),
        k < pat.len(),
        forall|j: int| 0 <= j < k ==> t[h as int + j] == pat[j],
    ensures
        steps_to(
            p,
            Config { tape: t, head: (h + k) as nat, state: qs[k as int] },
            Config {
                tape: written_pattern(t, h as int, pat),
                head: (h + pat.len() - 1) as nat,
                state: qs.last(),
            },
            (pat.len() - k) as nat,
        ),
    decreases pat.len() - k,
{
    let c0 = Config { tape: t, head: (h + k) as nat, state: qs[k as int] };
    assert(block_entries(
        p,
        qs[k as int],
        pattern_bit(pat, Movement::Right, k as int),
        pattern_bit(pat, Movement::Right, k as int),
        if k < pat.len() - 1 {
            Movement::Right
        } else {
            Movement::Stay
        },
        qs[k as int + 1],
    ));
    assert(grown(t, (h + k) as int) == t);
    let bit = t[(h + k) as int];
    let written = t.update((h + k) as int, pat[k as int]);
    if bit {
        assert(p[(qs[k as int], bit)] == rule(
            qs[k as int],
            bit,
            pat[k as int],
            if k < pat.len() - 1 {
                Movement::Right
            } else {
                Movement::Stay
            },
            qs[k as int + 1],
        ));
    } else {
        assert(p[(qs[k as int], bit)] == rule(
            qs[k as int],
            bit,
            pat[k as int],
            if k < pat.len() - 1 {
                Movement::Right
            } else {
                Movement::Stay
            },
            qs[k as int + 1],
        ));
    }
    if k == pat.len() - 1 {
        let c1 = Config { tape: written, head: (h + k) as nat, state: qs[k as int + 1] };
        assert(spec_step(p, c0) == StepResult::Next(c1));
        assert(written =~= written_pattern(t, h as int, pat));
        assert(steps_to(p, c1, c1, 0));
    } else {
        assert(grown(written, (h + k) as int + 1) == written);
        let c1 = Config { tape: written, head: (h + k + 1) as nat, state: qs[k as int + 1] };
        assert(spec_step(p, c0) == StepResult::Next(c1));
        lemma_write_chain_writes_from(p, qs, pat, written, h, (k + 1) as nat);
        assert(written_pattern(written, h as int, pat) =~= written_pattern(t, h as int, pat));
    }
}

/// Running the tail of a rightward scan chain over a tape that carries the
/// pattern at `h`: every position matches, so the head walks straight to the
/// pattern's last cell and control reaches the chain's end state.
proof fn lemma_scan_chain_matches_from(
    p: Map<(State, bool), Instruction>,
    qs: Seq<State>,
    pat: Seq<bool>,
    t: Seq<bool>,
    h: nat,
    k: nat,
)
    requires
        scan_chain(p, qs, pat, Movement::Right, Movement::Stay),
        qs.len() == pat.len() + 1,
        pat.len() >= 1,
        h + pat.len() <= t.len(),
        k < pat.len(),
        forall|j: int| 0 <= j < pat.len() ==> t[h as int + j] == pat[j],
    ensures
        steps_to(
            p,
            Config { tape: t, head: (h + k) as nat, state: qs[k as int] },
            Config { tape: t, head: (h + pat.len() - 1) as nat, state: qs.last() },
            (pat.len() - k) as nat,
        ),
    decreases pat.len() - k,
{
    let c0 = Config { tape: t, head: (h + k) as nat, state: qs[k as int] };
    let expected = pattern_bit(pat, Movement::Right, k as int);
    assert(match_entries(
        p,
        qs[k as int],
        expected,
        if k < pat.len() - 1 {
            Movement::Right
        } else {
            Movement::Stay
        },
        Movement::Right,
        qs[k as int + 1],
        qs[0],
    ));
    assert(grown(t, (h + k) as int) == t);
    assert(t[(h + k) as int] == expected);
    lemma_update_same(t, (h + k) as int);
    if k == pat.len() - 1 {
        let c1 = Config { tape: t, head: (h + k) as nat, state: qs[k as int + 1] };
        assert(spec_step(p, c0) == StepResult::Next(c1));
        assert(steps_to(p, c1, c1, 0));
    } else {
        assert(grown(t.update((h + k) as int, expected), (h + k) as int + 1) == t);
        let c1 = Config { tape: t, head: (h + k + 1) as nat, state: qs[k as int + 1] };
        assert(spec_step(p, c0) == StepResult::Next(c1));
        lemma_scan_chain_matches_from(p, qs, pat, t, h, (k + 1) as nat);
    }
}

/// Law: writing a pattern rightwards and then scanning for the same pattern
/// rightwards from the pattern's own start leaves the head exactly on the
/// pattern's last cell, both times.
pub proof fn lemma_write_then_scan_pattern(
    p: Map<(State, bool), Instruction>,
    write_qs: Seq<State>,
    scan_qs: Seq<State>,
    pat: Seq<bool>,
    t: Seq<bool>,
    h: nat,
)
    requires
        write_chain(p, write_qs, pat, Movement::Right, Movement::Stay),
        scan_chain(p, scan_qs, pat, Movement::Right, Movement::Stay),
        write_qs.len() == pat.len() + 1,
        scan_qs.len() == pat.len() + 1,
        pat.len() >= 1,
        h + pat.len() <= t.len(),
    ensures
        ({
            let written = written_pattern(t, h as int, pat);
            &&& steps_to(
                p,
                Config { tape: t, head: h, state: write_qs[0] },
                Config { tape: written, head: (h + pat.len() - 1) as nat, state: write_qs.last() },
                pat.len(),
            )
            &&& steps_to(
                p,
                Config { tape: written, head: h, state: scan_qs[0] },
                Config { tape: written, head: (h + pat.len() - 1) as nat, state: scan_qs.last() },
                pat.len(),
            )
        }),
{
    lemma_write_chain_writes_from(p, write_qs, pat, t, h, 0);
    let written = written_pattern(t, h as int, pat);
    assert forall|j: int| 0 <= j < pat.len() implies written[h as int + j] == pat[j] by {}
    lemma_scan_chain_matches_from(p, scan_qs, pat, written, h, 0);
}


/// The truth-table entry a gate selects for operand bits `a` and `b`.
pub open spec fn gate_out(
    out00: bool,
    out01: bool,
    out10: bool,
    out11: bool,
    a: bool,
    b: bool,
) -> bool {
    if a {
        if b {
            out11
        } else {
            out10
        }
    } else {
        if b {
            out01
        } else {
            out00
        }
    }
}

/// Law: a rightward bit-serial gate reads the two operand bits under and
/// right of the head, leaves them unmodified, writes the truth-table result
/// into the third cell, and stops with the head advanced one cell past it.
/// Holds for all four combinations of the two input bits.
pub proof fn lemma_gate_computes(
    before: Map<(State, bool), Instruction>,
    p: Map<(State, bool), Instruction>,
    start: State,
    end: State,
    base: int,
    out00: bool,
    out01: bool,
    out10: bool,
    out11: bool,
    t: Seq<bool>,
    h: nat,
)
    requires
        p == gate_table(
            before,
            start,
            end,
            base,
            out00,
            out01,
            out10,
            out11,
            Movement::Right,
            Movement::Right,
        ),
        0 <= base,
        base + 3 <= usize::MAX,
        start.value() < base,
        h + 3 < t.len(),
    ensures
        steps_to(
            p,
            Config { tape: t, head: h, state: start },
            Config {
                tape: t.update(h + 3 - 1, gate_out(out00, out01, out10, out11, t[h as int], t[h as int + 1])),
                head: (h + 3) as nat,
                state: end,
            },
            3,
        ),
{
    let a = t[h as int];
    let b = t[h as int + 1];
    let read_0 = State(base as usize);
    let read_1 = State((base + 1) as usize);
    let result_0 = State((base + 2) as usize);
    let result_1 = State((base + 3) as usize);
    let read_a = if a { read_1 } else { read_0 };
    let f = gate_out(out00, out01, out10, out11, a, b);
    let result_f = if f { result_1 } else { result_0 };

    let c0 = Config { tape: t, head: h, state: start };
    assert(grown(t, h as int) == t);
    lemma_update_same(t, h as int);
    assert(grown(t, h as int + 1) == t);
    let c1 = Config { tape: t, head: (h + 1) as nat, state: read_a };
    assert(p.contains_key((start, a)) && p[(start, a)] == rule(start, a, a, Movement::Right, read_a));
    assert(spec_step(p, c0) == StepResult::Next(c1));

    lemma_update_same(t, h as int + 1);
    assert(grown(t, h as int + 2) == t);
    let c2 = Config { tape: t, head: (h + 2) as nat, state: result_f };
    assert(p.contains_key((read_a, b)) && p[(read_a, b)] == rule(read_a, b, b, Movement::Right, result_f));
    assert(spec_step(p, c1) == StepResult::Next(c2));

    let prior = t[h as int + 2];
    let written = t.update(h as int + 2, f);
    assert(p.contains_key((result_f, prior)) && p[(result_f, prior)] == rule(
        result_f,
        prior,
        f,
        Movement::Right,
        end,
    ));
    assert(grown(written, h as int + 3) == written);
    let c3 = Config { tape: written, head: (h + 3) as nat, state: end };
    assert(spec_step(p, c2) == StepResult::Next(c3));
    assert(steps_to(p, c3, c3, 0));
    assert(steps_to(p, c2, c3, 1));
    assert(steps_to(p, c1, c3, 2));
    assert(steps_to(p, c0, c3, 3));
}


/// Law: the leftward counterpart of `lemma_gate_computes`: operands under
/// and left of the head, the result two cells left, the head moved one cell
/// past it. Holds for all four combinations of the two input bits.
pub proof fn lemma_gate_computes_left(
    before: Map<(State, bool), Instruction>,
    p: Map<(State, bool), Instruction>,
    start: State,
    end: State,
    base: int,
    out00: bool,
    out01: bool,
    out10: bool,
    out11: bool,
    t: Seq<bool>,
    h: nat,
)
    requires
        p == gate_table(
            before,
            start,
            end,
            base,
            out00,
            out01,
            out10,
            out11,
            Movement::Left,
            Movement::Left,
        ),
        0 <= base,
        base + 3 <= usize::MAX,
        start.value() < base,
        3 <= h < t.len(),
    ensures
        steps_to(
            p,
            Config { tape: t, head: h, state: start },
            Config {
                tape: t.update(h as int - 2, gate_out(out00, out01, out10, out11, t[h as int], t[h as int - 1])),
                head: (h - 3) as nat,
                state: end,
            },
            3,
        ),
{
    let a = t[h as int];
    let b = t[h as int - 1];
    let read_0 = State(base as usize);
    let read_1 = State((base + 1) as usize);
    let result_0 = State((base + 2) as usize);
    let result_1 = State((base + 3) as usize);
    let read_a = if a { read_1 } else { read_0 };
    let f = gate_out(out00, out01, out10, out11, a, b);
    let result_f = if f { result_1 } else { result_0 };

    let c0 = Config { tape: t, head: h, state: start };
    assert(grown(t, h as int) == t);
    lemma_update_same(t, h as int);
    let c1 = Config { tape: t, head: (h - 1) as nat, state: read_a };
    assert(p.contains_key((start, a)) && p[(start, a)] == rule(start, a, a, Movement::Left, read_a));
    assert(spec_step(p, c0) == StepResult::Next(c1));

    lemma_update_same(t, h as int - 1);
    let c2 = Config { tape: t, head: (h - 2) as nat, state: result_f };
    assert(p.contains_key((read_a, b)) && p[(read_a, b)] == rule(read_a, b, b, Movement::Left, result_f));
    assert(spec_step(p, c1) == StepResult::Next(c2));

    let prior = t[h as int - 2];
    let written = t.update(h as int - 2, f);
    assert(p.contains_key((result_f, prior)) && p[(result_f, prior)] == rule(
        result_f,
        prior,
        f,
        Movement::Left,
        end,
    ));
    let c3 = Config { tape: written, head: (h - 3) as nat, state: end };
    assert(spec_step(p, c2) == StepResult::Next(c3));
    assert(steps_to(p, c3, c3, 0));
    assert(steps_to(p, c2, c3, 1));
    assert(steps_to(p, c1, c3, 2));
    assert(steps_to(p, c0, c3, 3));
}

/// The sum bit of one binary digit with carry.
pub open spec fn sum_bit(carry: bool, a: bool, b: bool) -> bool {
    (carry ^ a) ^ b
}

/// The outgoing carry of one binary digit.
pub open spec fn carry_bit(carry: bool, a: bool, b: bool) -> bool {
    (carry && a) || (carry && b) || (a && b)
}


/// The twenty-six rules one ripple-carry digit contributes, looked up rather
/// than constructed: exactly what `adder_table` inserts for a digit anchored
/// at `start`, ending in `end`, with helpers numbered from `base`.
pub open spec fn adder_entries(
    p: Map<(State, bool), Instruction>,
    start: State,
    end: State,
    base: int,
) -> bool {
    let pc0 = State(base as usize);
    let pc1 = State((base + 1) as usize);
    let pc0_n0 = State((base + 2) as usize);
    let pc0_n1 = State((base + 3) as usize);
    let pc1_n0 = State((base + 4) as usize);
    let pc1_n1 = State((base + 5) as usize);
    let r0_c0 = State((base + 6) as usize);
    let r0_c1 = State((base + 7) as usize);
    let r1_c0 = State((base + 8) as usize);
    let r1_c1 = State((base + 9) as usize);
    let c0 = State((base + 10) as usize);
    let c1 = State((base + 11) as usize);
    &&& p.contains_key((start, false)) && p[(start, false)] == rule(start, false, false, Movement::Right, pc0)
    &&& p.contains_key((start, true)) && p[(start, true)] == rule(start, true, true, Movement::Right, pc1)
    &&& p.contains_key((pc0, false)) && p[(pc0, false)] == rule(pc0, false, false, Movement::Right, pc0_n0)
    &&& p.contains_key((pc0, true)) && p[(pc0, true)] == rule(pc0, true, true, Movement::Right, pc0_n1)
    &&& p.contains_key((pc1, false)) && p[(pc1, false)] == rule(pc1, false, false, Movement::Right, pc1_n0)
    &&& p.contains_key((pc1, true)) && p[(pc1, true)] == rule(pc1, true, true, Movement::Right, pc1_n1)
    &&& p.contains_key((pc0_n0, false)) && p[(pc0_n0, false)] == rule(pc0_n0, false, false, Movement::Right, r0_c0)
    &&& p.contains_key((pc0_n0, true)) && p[(pc0_n0, true)] == rule(pc0_n0, true, true, Movement::Right, r1_c0)
    &&& p.contains_key((pc0_n1, false)) && p[(pc0_n1, false)] == rule(pc0_n1, false, false, Movement::Right, r1_c0)
    &&& p.contains_key((pc0_n1, true)) && p[(pc0_n1, true)] == rule(pc0_n1, true, true, Movement::Right, r0_c1)
    &&& p.contains_key((pc1_n0, false)) && p[(pc1_n0, false)] == rule(pc1_n0, false, false, Movement::Right, r1_c0)
    &&& p.contains_key((pc1_n0, true)) && p[(pc1_n0, true)] == rule(pc1_n0, true, true, Movement::Right, r0_c1)
    &&& p.contains_key((pc1_n1, false)) && p[(pc1_n1, false)] == rule(pc1_n1, false, false, Movement::Right, r0_c1)
    &&& p.contains_key((pc1_n1, true)) && p[(pc1_n1, true)] == rule(pc1_n1, true, true, Movement::Right, r1_c1)
    &&& p.contains_key((r0_c0, false)) && p[(r0_c0, false)] == rule(r0_c0, false, false, Movement::Right, c0)
    &&& p.contains_key((r0_c0, true)) && p[(r0_c0, true)] == rule(r0_c0, true, false, Movement::Right, c0)
    &&& p.contains_key((r0_c1, false)) && p[(r0_c1, false)] == rule(r0_c1, false, false, Movement::Right, c1)
    &&& p.contains_key((r0_c1, true)) && p[(r0_c1, true)] == rule(r0_c1, true, false, Movement::Right, c1)
    &&& p.contains_key((r1_c0, false)) && p[(r1_c0, false)] == rule(r1_c0, false, true, Movement::Right, c0)
    &&& p.contains_key((r1_c0, true)) && p[(r1_c0, true)] == rule(r1_c0, true, true, Movement::Right, c0)
    &&& p.contains_key((r1_c1, false)) && p[(r1_c1, false)] == rule(r1_c1, false, true, Movement::Right, c1)
    &&& p.contains_key((r1_c1, true)) && p[(r1_c1, true)] == rule(r1_c1, true, true, Movement::Right, c1)
    &&& p.contains_key((c0, false)) && p[(c0, false)] == rule(c0, false, false, Movement::Stay, end)
    &&& p.contains_key((c0, true)) && p[(c0, true)] == rule(c0, true, false, Movement::Stay, end)
    &&& p.contains_key((c1, false)) && p[(c1, false)] == rule(c1, false, true, Movement::Stay, end)
    &&& p.contains_key((c1, true)) && p[(c1, true)] == rule(c1, true, true, Movement::Stay, end)
}

/// The table `adder_table` builds carries its digit's entries, as long as
/// the digit's key states are pairwise distinct.
pub proof fn lemma_adder_table_gives_entries(
    before: Map<(State, bool), Instruction>,
    p: Map<(State, bool), Instruction>,
    start: State,
    end: State,
    base: int,
)
    requires
        p == adder_table(before, start, end, base, Movement::Right, Movement::Stay),
        0 <= base,
        base + 11 <= usize::MAX,
        start.value() < base,
    ensures
        adder_entries(p, start, end, base),
{
}

/// Law: one rightward ripple-carry digit reads previous carry and the two
/// operand bits from three consecutive cells, leaves them unmodified, writes
/// the sum bit and the outgoing carry into the next two cells, and stops on
/// the carry cell, ready to serve as the next digit's previous carry. Holds
/// for all eight combinations of the three input bits.
pub proof fn lemma_adder_digit_computes(
    p: Map<(State, bool), Instruction>,
    start: State,
    end: State,
    base: int,
    t: Seq<bool>,
    h: nat,
)
    requires
        adder_entries(p, start, end, base),
        h + 4 < t.len(),
    ensures
        ({
            let carry = t[h as int];
            let a = t[h as int + 1];
            let b = t[h as int + 2];
            steps_to(
                p,
                Config { tape: t, head: h, state: start },
                Config {
                    tape: t.update(h as int + 3, sum_bit(carry, a, b)).update(
                        h as int + 4,
                        carry_bit(carry, a, b),
                    ),
                    head: (h + 4) as nat,
                    state: end,
                },
                5,
            )
        }),
{
    let carry = t[h as int];
    let a = t[h as int + 1];
    let b = t[h as int + 2];
    let pc0 = State(base as usize);
    let pc1 = State((base + 1) as usize);
    let pc0_n0 = State((base + 2) as usize);
    let pc0_n1 = State((base + 3) as usize);
    let pc1_n0 = State((base + 4) as usize);
    let pc1_n1 = State((base + 5) as usize);
    let r0_c0 = State((base + 6) as usize);
    let r0_c1 = State((base + 7) as usize);
    let r1_c0 = State((base + 8) as usize);
    let r1_c1 = State((base + 9) as usize);
    let c0_state = State((base + 10) as usize);
    let c1_state = State((base + 11) as usize);

    let pc_state = if carry { pc1 } else { pc0 };
    let pcn_state = if carry {
        if a { pc1_n1 } else { pc1_n0 }
    } else {
        if a { pc0_n1 } else { pc0_n0 }
    };
    let s = sum_bit(carry, a, b);
    let k = carry_bit(carry, a, b);
    let r_state = if s {
        if k { r1_c1 } else { r1_c0 }
    } else {
        if k { r0_c1 } else { r0_c0 }
    };
    let k_state = if k { c1_state } else { c0_state };

    let step0 = Config { tape: t, head: h, state: start };
    assert(grown(t, h as int) == t);
    lemma_update_same(t, h as int);
    assert(grown(t, h as int + 1) == t);
    let step1 = Config { tape: t, head: (h + 1) as nat, state: pc_state };
    assert(p.contains_key((start, carry)) && p[(start, carry)] == rule(
        start,
        carry,
        carry,
        Movement::Right,
        pc_state,
    ));
    assert(spec_step(p, step0) == StepResult::Next(step1));

    lemma_update_same(t, h as int + 1);
    assert(grown(t, h as int + 2) == t);
    let step2 = Config { tape: t, head: (h + 2) as nat, state: pcn_state };
    assert(p.contains_key((pc_state, a)) && p[(pc_state, a)] == rule(
        pc_state,
        a,
        a,
        Movement::Right,
        pcn_state,
    ));
    assert(spec_step(p, step1) == StepResult::Next(step2));

    lemma_update_same(t, h as int + 2);
    assert(grown(t, h as int + 3) == t);
    let step3 = Config { tape: t, head: (h + 3) as nat, state: r_state };
    assert(p.contains_key((pcn_state, b)) && p[(pcn_state, b)] == rule(
        pcn_state,
        b,
        b,
        Movement::Right,
        r_state,
    ));
    assert(spec_step(p, step2) == StepResult::Next(step3));

    let prior_sum = t[h as int + 3];
    let with_sum = t.update(h as int + 3, s);
    assert(p.contains_key((r_state, prior_sum)) && p[(r_state, prior_sum)] == rule(
        r_state,
        prior_sum,
        s,
        Movement::Right,
        k_state,
    ));
    assert(grown(with_sum, h as int + 4) == with_sum);
    let step4 = Config { tape: with_sum, head: (h + 4) as nat, state: k_state };
    assert(spec_step(p, step3) == StepResult::Next(step4));

    let prior_carry = with_sum[h as int + 4];
    let with_carry = with_sum.update(h as int + 4, k);
    assert(p.contains_key((k_state, prior_carry)) && p[(k_state, prior_carry)] == rule(
        k_state,
        prior_carry,
        k,
        Movement::Stay,
        end,
    ));
    let step5 = Config { tape: with_carry, head: (h + 4) as nat, state: end };
    assert(spec_step(p, step4) == StepResult::Next(step5));
    assert(steps_to(p, step5, step5, 0));
    assert(steps_to(p, step4, step5, 1));
    assert(steps_to(p, step3, step5, 2));
    assert(steps_to(p, step2, step5, 3));
    assert(steps_to(p, step1, step5, 4));
    assert(steps_to(p, step0, step5, 5));
}


/// The tape after `n` chained ripple-carry digits, four cells per digit:
/// each digit reads carry, operand and operand, writes its sum bit into the
/// fourth cell and its outgoing carry into the next digit's carry cell.
pub open spec fn rippled(t: Seq<bool>, h: int, n: nat) -> Seq<bool>
    decreases n,
{
    if n == 0 {
        t
    } else {
        let carry = t[h];
        let a = t[h + 1];
        let b = t[h + 2];
        rippled(
            t.update(h + 3, sum_bit(carry, a, b)).update(h + 4, carry_bit(carry, a, b)),
            h + 4,
            (n - 1) as nat,
        )
    }
}

/// Rippling writes nothing below `h + 3` and keeps the tape's length.
proof fn lemma_rippled_preserves_low(t: Seq<bool>, h: int, n: nat)
    requires
        0 <= h,
        h + 4 * n < t.len(),
    ensures
        rippled(t, h, n).len() == t.len(),
        forall|j: int| 0 <= j < h + 3 ==> rippled(t, h, n)[j] == t[j],
    decreases n,
{
    if n == 0 {
    } else {
        let carry = t[h];
        let a = t[h + 1];
        let b = t[h + 2];
        let t1 = t.update(h + 3, sum_bit(carry, a, b)).update(h + 4, carry_bit(carry, a, b));
        lemma_rippled_preserves_low(t1, h + 4, (n - 1) as nat);
        assert forall|j: int| 0 <= j < h + 3 implies rippled(t, h, n)[j] == t[j] by {
            assert(rippled(t1, h + 4, (n - 1) as nat)[j] == t1[j]);
        }
    }
}

/// Law: `n` ripple-carry digits wired end to start walk the head across
/// `4 * n` cells in `5 * n` steps and leave exactly the rippled tape behind.
pub proof fn lemma_adder_chain_computes(
    p: Map<(State, bool), Instruction>,
    ds: Seq<State>,
    bases: Seq<int>,
    t: Seq<bool>,
    h: nat,
    n: nat,
)
    requires
        n >= 1,
        ds.len() == n + 1,
        bases.len() == n,
        forall|i: int| 0 <= i < n ==> adder_entries(p, #[trigger] ds[i], ds[i + 1], bases[i]),
        h + 4 * n < t.len(),
    ensures
        steps_to(
            p,
            Config { tape: t, head: h, state: ds[0] },
            Config { tape: rippled(t, h as int, n), head: (h + 4 * n) as nat, state: ds[n as int] },
            5 * n,
        ),
    decreases n,
{
    let carry = t[h as int];
    let a = t[h as int + 1];
    let b = t[h as int + 2];
    let t1 = t.update(h as int + 3, sum_bit(carry, a, b)).update(
        h as int + 4,
        carry_bit(carry, a, b),
    );
    lemma_adder_digit_computes(p, ds[0], ds[1], bases[0], t, h);
    if n == 1 {
    } else {
        let rest_ds = ds.subrange(1, ds.len() as int);
        let rest_bases = bases.subrange(1, bases.len() as int);
        assert forall|i: int| 0 <= i < n - 1 implies adder_entries(
            p,
            #[trigger] rest_ds[i],
            rest_ds[i + 1],
            rest_bases[i],
        ) by {
            assert(adder_entries(p, ds[i + 1], ds[i + 2], bases[i + 1]));
        }
        lemma_adder_chain_computes(p, rest_ds, rest_bases, t1, (h + 4) as nat, (n - 1) as nat);
        lemma_steps_to_trans(
            p,
            Config { tape: t, head: h, state: ds[0] },
            Config { tape: t1, head: (h + 4) as nat, state: ds[1] },
            Config {
                tape: rippled(t1, h as int + 4, (n - 1) as nat),
                head: (h + 4 * n) as nat,
                state: ds[n as int],
            },
            5,
            5 * (n - 1) as nat,
        );
    }
}

/// Two raised to `n`.
pub open spec fn pow2(n: nat) -> nat
    decreases n,
{
    if n == 0 {
        1
    } else {
        2 * pow2((n - 1) as nat)
    }
}

/// The number held by `n` bits placed every four cells from `h + offset` on,
/// least significant digit first.
pub open spec fn operand_value(t: Seq<bool>, h: int, offset: int, n: nat) -> nat
    decreases n,
{
    if n == 0 {
        0
    } else {
        (if t[h + offset] {
            1nat
        } else {
            0nat
        }) + 2 * operand_value(t, h + 4, offset, (n - 1) as nat)
    }
}

/// The value of a strided operand depends only on the cells it reads.
proof fn lemma_operand_value_agree(
    t1: Seq<bool>,
    t2: Seq<bool>,
    h: int,
    offset: int,
    n: nat,
)
    requires
        forall|i: int| 0 <= i < n ==> #[trigger] t1[h + 4 * i + offset] == t2[h + 4 * i + offset],
    ensures
        operand_value(t1, h, offset, n) == operand_value(t2, h, offset, n),
    decreases n,
{
    if n == 0 {
    } else {
        assert(t1[h + offset] == t2[h + offset]) by {
            assert(t1[h + 4 * 0 + offset] == t2[h + 4 * 0 + offset]);
        }
        assert forall|i: int| 0 <= i < n - 1 implies #[trigger] t1[(h + 4) + 4 * i + offset] == t2[(
        h + 4) + 4 * i + offset] by {
            assert(t1[h + 4 * (i + 1) + offset] == t2[h + 4 * (i + 1) + offset]);
        }
        lemma_operand_value_agree(t1, t2, h + 4, offset, (n - 1) as nat);
    }
}

/// Law: the rippled tape holds the binary sum. Reading the result bits and
/// the final carry off `rippled` gives exactly the sum of the two operands
/// and the incoming carry.
pub proof fn lemma_rippled_is_sum(t: Seq<bool>, h: int, n: nat)
    requires
        0 <= h,
        h + 4 * n < t.len(),
    ensures
        operand_value(rippled(t, h, n), h, 3, n) + pow2(n) * (if rippled(t, h, n)[h + 4 * n] {
            1nat
        } else {
            0nat
        }) == operand_value(t, h, 1, n) + operand_value(t, h, 2, n) + (if t[h] {
            1nat
        } else {
            0nat
        }),
    decreases n,
{
    if n == 0 {
    } else {
        let carry = t[h];
        let a = t[h + 1];
        let b = t[h + 2];
        let sum = sum_bit(carry, a, b);
        let t1 = t.update(h + 3, sum).update(h + 4, carry_bit(carry, a, b));
        let rippled_rest = rippled(t1, h + 4, (n - 1) as nat);
        lemma_rippled_preserves_low(t1, h + 4, (n - 1) as nat);
        assert(rippled(t, h, n) == rippled_rest);
        assert(rippled_rest[h + 3] == t1[h + 3]);
        lemma_rippled_is_sum(t1, h + 4, (n - 1) as nat);
        assert forall|i: int| 0 <= i < n - 1 implies #[trigger] t1[(h + 4) + 4 * i + 1] == t[(h + 4)
            + 4 * i + 1] by {}
        assert forall|i: int| 0 <= i < n - 1 implies #[trigger] t1[(h + 4) + 4 * i + 2] == t[(h + 4)
            + 4 * i + 2] by {}
        lemma_operand_value_agree(t1, t, h + 4, 1, (n - 1) as nat);
        lemma_operand_value_agree(t1, t, h + 4, 2, (n - 1) as nat);
        assert((if sum {
            1nat
        } else {
            0nat
        }) + 2 * (if carry_bit(carry, a, b) {
            1nat
        } else {
            0nat
        }) == (if a {
            1nat
        } else {
            0nat
        }) + (if b {
            1nat
        } else {
            0nat
        }) + (if carry {
            1nat
        } else {
            0nat
        }));
    }
}


/// Law: chaining the ripple-carry digit across `n` bit positions adds the
/// two `n`-bit operands. After `5 * n` steps the head rests on the final
/// carry cell, and the result bits plus that carry equal the sum of the two
/// operands and the incoming carry.
pub proof fn lemma_adder_chain_sums(
    p: Map<(State, bool), Instruction>,
    ds: Seq<State>,
    bases: Seq<int>,
    t: Seq<bool>,
    h: nat,
    n: nat,
)
    requires
        n >= 1,
        ds.len() == n + 1,
        bases.len() == n,
        forall|i: int| 0 <= i < n ==> adder_entries(p, #[trigger] ds[i], ds[i + 1], bases[i]),
        h + 4 * n < t.len(),
    ensures
        steps_to(
            p,
            Config { tape: t, head: h, state: ds[0] },
            Config { tape: rippled(t, h as int, n), head: (h + 4 * n) as nat, state: ds[n as int] },
            5 * n,
        ),
        operand_value(rippled(t, h as int, n), h as int, 3, n) + pow2(n) * (if rippled(
            t,
            h as int,
            n,
        )[h as int + 4 * n] {
            1nat
        } else {
            0nat
        }) == operand_value(t, h as int, 1, n) + operand_value(t, h as int, 2, n) + (if t[h as int] {
            1nat
        } else {
            0nat
        }),
{
    lemma_adder_chain_computes(p, ds, bases, t, h, n);
    lemma_rippled_is_sum(t, h as int, n);
}

/// Law: a leftward single-bit scan started on an existing cell, with the
/// first matching cell at `m` on its way down, stops with the head exactly
/// on `m` and the tape untouched.
pub proof fn lemma_scan_single_left_finds(
    p: Map<(State, bool), Instruction>,
    s: State,
    e: State,
    target: bool,
    t: Seq<bool>,
    h: nat,
    m: nat,
)
    requires
        p.contains_key((s, target)),
        p[(s, target)] == rule(s, target, target, Movement::Stay, e),
        p.contains_key((s, !target)),
        p[(s, !target)] == rule(s, !target, !target, Movement::Left, s),
        m <= h < t.len(),
        t[m as int] == target,
        forall|j: int| m < j <= h ==> t[j] != target,
    ensures
        steps_to(
            p,
            Config { tape: t, head: h, state: s },
            Config { tape: t, head: m, state: e },
            (h - m + 1) as nat,
        ),
    decreases h - m,
{
    let c0 = Config { tape: t, head: h, state: s };
    assert(grown(t, h as int) == t);
    lemma_update_same(t, h as int);
    if h == m {
        let c1 = Config { tape: t, head: m, state: e };
        assert(spec_step(p, c0) == StepResult::Next(c1));
        assert(steps_to(p, c1, c1, 0));
    } else {
        assert(t[h as int] == !target);
        let c1 = Config { tape: t, head: (h - 1) as nat, state: s };
        assert(spec_step(p, c0) == StepResult::Next(c1));
        lemma_scan_single_left_finds(p, s, e, target, t, (h - 1) as nat, m);
    }
}


/// Running the tail of a leftward write chain from position `k`: the
/// pattern is laid down back to front while the head walks left, so it ends
/// up in left-to-right order over the cells ending at the starting head.
proof fn lemma_write_chain_writes_left_from(
    p: Map<(State, bool), Instruction>,
    qs: Seq<State>,
    pat: Seq<bool>,
    t: Seq<bool>,
    h: nat,
    k: nat,
)
    requires
        write_chain(p, qs, pat, Movement::Left, Movement::Stay),
        qs.len() == pat.len() + 1,
        pat.len() >= 1,
        pat.len() - 1 <= h < t.len(),
        k < pat.len(),
        forall|j: int| 0 <= j < k ==> #[trigger] t[h - j] == pat[pat.len() - 1 - j],
    ensures
        steps_to(
            p,
            Config { tape: t, head: (h - k) as nat, state: qs[k as int] },
            Config {
                tape: written_pattern(t, h - (pat.len() - 1), pat),
                head: (h - (pat.len() - 1)) as nat,
                state: qs.last(),
            },
            (pat.len() - k) as nat,
        ),
    decreases pat.len() - k,
{
    let c0 = Config { tape: t, head: (h - k) as nat, state: qs[k as int] };
    assert(block_entries(
        p,
        qs[k as int],
        pattern_bit(pat, Movement::Left, k as int),
        pattern_bit(pat, Movement::Left, k as int),
        if k < pat.len() - 1 {
            Movement::Left
        } else {
            Movement::Stay
        },
        qs[k as int + 1],
    ));
    assert(grown(t, h - k) == t);
    let bit = t[h - k];
    let target = pat[pat.len() - 1 - k];
    let written = t.update(h - k, target);
    if bit {
        assert(p[(qs[k as int], bit)] == rule(
            qs[k as int],
            bit,
            target,
            if k < pat.len() - 1 {
                Movement::Left
            } else {
                Movement::Stay
            },
            qs[k as int + 1],
        ));
    } else {
        assert(p[(qs[k as int], bit)] == rule(
            qs[k as int],
            bit,
            target,
            if k < pat.len() - 1 {
                Movement::Left
            } else {
                Movement::Stay
            },
            qs[k as int + 1],
        ));
    }
    if k == pat.len() - 1 {
        let c1 = Config { tape: written, head: (h - k) as nat, state: qs[k as int + 1] };
        assert(spec_step(p, c0) == StepResult::Next(c1));
        assert forall|i: int|
            0 <= i < written.len() implies written[i] == written_pattern(
            t,
            h - (pat.len() - 1),
            pat,
        )[i] by {
            if h - (pat.len() - 1) <= i <= h && i != h - k {
                assert(t[h - (h - i)] == pat[pat.len() - 1 - (h - i)]);
            }
        }
        assert(written =~= written_pattern(t, h - (pat.len() - 1), pat));
        assert(steps_to(p, c1, c1, 0));
    } else {
        let c1 = Config { tape: written, head: (h - k - 1) as nat, state: qs[k as int + 1] };
        assert(spec_step(p, c0) == StepResult::Next(c1));
        lemma_write_chain_writes_left_from(p, qs, pat, written, h, (k + 1) as nat);
        assert(written_pattern(written, h - (pat.len() - 1), pat) =~= written_pattern(
            t,
            h - (pat.len() - 1),
            pat,
        ));
    }
}

/// Running the tail of a leftward scan chain over a tape that carries the
/// pattern ending at `h`: every position matches, so the head walks left to
/// the pattern's first cell and control reaches the chain's end state.
proof fn lemma_scan_chain_matches_left_from(
    p: Map<(State, bool), Instruction>,
    qs: Seq<State>,
    pat: Seq<bool>,
    t: Seq<bool>,
    h: nat,
    k: nat,
)
    requires
        scan_chain(p, qs, pat, Movement::Left, Movement::Stay),
        qs.len() == pat.len() + 1,
        pat.len() >= 1,
        pat.len() - 1 <= h < t.len(),
        k < pat.len(),
        forall|j: int| 0 <= j < pat.len() ==> #[trigger] t[h - j] == pat[pat.len() - 1 - j],
    ensures
        steps_to(
            p,
            Config { tape: t, head: (h - k) as nat, state: qs[k as int] },
            Config { tape: t, head: (h - (pat.len() - 1)) as nat, state: qs.last() },
            (pat.len() - k) as nat,
        ),
    decreases pat.len() - k,
{
    let c0 = Config { tape: t, head: (h - k) as nat, state: qs[k as int] };
    let expected = pattern_bit(pat, Movement::Left, k as int);
    assert(match_entries(
        p,
        qs[k as int],
        expected,
        if k < pat.len() - 1 {
            Movement::Left
        } else {
            Movement::Stay
        },
        Movement::Left,
        qs[k as int + 1],
        qs[0],
    ));
    assert(grown(t, h - k) == t);
    assert(t[h - k] == expected);
    lemma_update_same(t, h - k);
    if k == pat.len() - 1 {
        let c1 = Config { tape: t, head: (h - k) as nat, state: qs[k as int + 1] };
        assert(spec_step(p, c0) == StepResult::Next(c1));
        assert(steps_to(p, c1, c1, 0));
    } else {
        let c1 = Config { tape: t, head: (h - k - 1) as nat, state: qs[k as int + 1] };
        assert(spec_step(p, c0) == StepResult::Next(c1));
        lemma_scan_chain_matches_left_from(p, qs, pat, t, h, (k + 1) as nat);
    }
}

/// Law: writing a pattern leftwards and then scanning for the same pattern
/// leftwards from the pattern's own start leaves the head exactly on the
/// pattern's last cell in traversal order, both times.
pub proof fn lemma_write_then_scan_pattern_left(
    p: Map<(State, bool), Instruction>,
    write_qs: Seq<State>,
    scan_qs: Seq<State>,
    pat: Seq<bool>,
    t: Seq<bool>,
    h: nat,
)
    requires
        write_chain(p, write_qs, pat, Movement::Left, Movement::Stay),
        scan_chain(p, scan_qs, pat, Movement::Left, Movement::Stay),
        write_qs.len() == pat.len() + 1,
        scan_qs.len() == pat.len() + 1,
        pat.len() >= 1,
        pat.len() - 1 <= h < t.len(),
    ensures
        ({
            let written = written_pattern(t, h - (pat.len() - 1), pat);
            &&& steps_to(
                p,
                Config { tape: t, head: h, state: write_qs[0] },
                Config { tape: written, head: (h - (pat.len() - 1)) as nat, state: write_qs.last() },
                pat.len(),
            )
            &&& steps_to(
                p,
                Config { tape: written, head: h, state: scan_qs[0] },
                Config { tape: written, head: (h - (pat.len() - 1)) as nat, state: scan_qs.last() },
                pat.len(),
            )
        }),
{
    lemma_write_chain_writes_left_from(p, write_qs, pat, t, h, 0);
    let written = written_pattern(t, h - (pat.len() - 1), pat);
    assert forall|j: int| 0 <= j < pat.len() implies #[trigger] written[h - j] == pat[pat.len() - 1
        - j] by {}
    lemma_scan_chain_matches_left_from(p, scan_qs, pat, written, h, 0);
}

/// Law: the disjunction gate writes the OR of the two operand bits.
pub proof fn lemma_or_gate_truth(
    before: Map<(State, bool), Instruction>,
    p: Map<(State, bool), Instruction>,
    start: State,
    end: State,
    base: int,
    t: Seq<bool>,
    h: nat,
)
    requires
        p == gate_table(
            before,
            start,
            end,
            base,
            false,
            true,
            true,
            true,
            Movement::Right,
            Movement::Right,
        ),
        0 <= base,
        base + 3 <= usize::MAX,
        start.value() < base,
        h + 3 < t.len(),
    ensures
        steps_to(
            p,
            Config { tape: t, head: h, state: start },
            Config {
                tape: t.update(h as int + 2, t[h as int] || t[h as int + 1]),
                head: (h + 3) as nat,
                state: end,
            },
            3,
        ),
{
    lemma_gate_computes(before, p, start, end, base, false, true, true, true, t, h);
}

/// Law: the conjunction gate writes the AND of the two operand bits.
pub proof fn lemma_and_gate_truth(
    before: Map<(State, bool), Instruction>,
    p: Map<(State, bool), Instruction>,
    start: State,
    end: State,
    base: int,
    t: Seq<bool>,
    h: nat,
)
    requires
        p == gate_table(
            before,
            start,
            end,
            base,
            false,
            false,
            false,
            true,
            Movement::Right,
            Movement::Right,
        ),
        0 <= base,
        base + 3 <= usize::MAX,
        start.value() < base,
        h + 3 < t.len(),
    ensures
        steps_to(
            p,
            Config { tape: t, head: h, state: start },
            Config {
                tape: t.update(h as int + 2, t[h as int] && t[h as int + 1]),
                head: (h + 3) as nat,
                state: end,
            },
            3,
        ),
{
    lemma_gate_computes(before, p, start, end, base, false, false, false, true, t, h);
}

/// Law: the exclusive-or gate writes the XOR of the two operand bits.
pub proof fn lemma_xor_gate_truth(
    before: Map<(State, bool), Instruction>,
    p: Map<(State, bool), Instruction>,
    start: State,
    end: State,
    base: int,
    t: Seq<bool>,
    h: nat,
)
    requires
        p == gate_table(
            before,
            start,
            end,
            base,
            false,
            true,
            true,
            false,
            Movement::Right,
            Movement::Right,
        ),
        0 <= base,
        base + 3 <= usize::MAX,
        start.value() < base,
        h + 3 < t.len(),
    ensures
        steps_to(
            p,
            Config { tape: t, head: h, state: start },
            Config {
                tape: t.update(h as int + 2, t[h as int] != t[h as int + 1]),
                head: (h + 3) as nat,
                state: end,
            },
            3,
        ),
{
    lemma_gate_computes(before, p, start, end, base, false, true, true, false, t, h);
}


/// Law, end to end: a program wired as `build_set_bit_x_one` wires it --
/// `x` rights from state 0, a mark, `x` lefts, a halt block -- runs from any
/// start to a clean halt on the halt sentinel, back on its starting cell,
/// with exactly the cell `x` to the right of it set and every other
/// starting cell as it was.
pub proof fn lemma_set_bit_program_runs(
    p: Map<(State, bool), Instruction>,
    x: nat,
    t: Seq<bool>,
    h: nat,
)
    requires
        x >= 1,
        x + 3 <= usize::MAX,
        move_chain(p, hop_seq(State(0usize), State(1usize), 4, x as int), Movement::Right),
        block_entries(p, State(1usize), true, true, Movement::Stay, State(2usize)),
        move_chain(p, hop_seq(State(2usize), State(3usize), x as int + 3, x as int), Movement::Left),
        block_entries(p, State(3usize), false, true, Movement::Stay, State(usize::MAX)),
        forall|b: bool| !p.contains_key((State(usize::MAX), b)),
    ensures
        exists|f: Seq<bool>|
            {
                &&& #[trigger] steps_to(
                    p,
                    Config { tape: t, head: h, state: State(0usize) },
                    Config { tape: f, head: h, state: State(usize::MAX) },
                    2 * x + 2,
                )
                &&& spec_step(p, Config { tape: f, head: h, state: State(usize::MAX) })
                    is CleanHalt
                &&& f.len() >= t.len()
                &&& f.len() > h + x
                &&& f[h as int + x as int] == true
                &&& forall|i: int|
                    0 <= i < f.len() && i != h as int + x as int ==> #[trigger] f[i] == (i < t.len() && t[i])
            },
{
    let right_qs = hop_seq(State(0usize), State(1usize), 4, x as int);
    let left_qs = hop_seq(State(2usize), State(3usize), x as int + 3, x as int);
    lemma_move_chain_runs_right(p, right_qs, t, h);
    let f1 = choose|f1: Seq<bool>|
        #[trigger] padded_of(t, f1) && (right_qs.len() >= 2 ==> f1.len() > h + right_qs.len() - 1)
            && steps_to(
            p,
            Config { tape: t, head: h, state: right_qs[0] },
            Config { tape: f1, head: (h + right_qs.len() - 1) as nat, state: right_qs.last() },
            (right_qs.len() - 1) as nat,
        );
    let c1 = Config { tape: f1, head: (h + x) as nat, state: State(1usize) };
    let f2 = f1.update(h as int + x as int, true);
    let c2 = Config { tape: f2, head: (h + x) as nat, state: State(2usize) };
    assert(grown(f1, h as int + x as int) == f1);
    let mark_bit = f1[h as int + x as int];
    if mark_bit {
        assert(p[(State(1usize), mark_bit)] == rule(
            State(1usize),
            mark_bit,
            true,
            Movement::Stay,
            State(2usize),
        ));
    } else {
        assert(p[(State(1usize), mark_bit)] == rule(
            State(1usize),
            mark_bit,
            true,
            Movement::Stay,
            State(2usize),
        ));
    }
    assert(spec_step(p, c1) == StepResult::Next(c2));
    lemma_move_chain_runs_left(p, left_qs, f2, (h + x) as nat);
    let c3 = Config { tape: f2, head: h, state: State(3usize) };
    let c4 = Config { tape: f2, head: h, state: State(usize::MAX) };
    assert(grown(f2, h as int) == f2);
    lemma_update_same(f2, h as int);
    let halt_bit = f2[h as int];
    if halt_bit {
        assert(p[(State(3usize), halt_bit)] == rule(
            State(3usize),
            halt_bit,
            halt_bit,
            Movement::Stay,
            State(usize::MAX),
        ));
    } else {
        assert(p[(State(3usize), halt_bit)] == rule(
            State(3usize),
            halt_bit,
            halt_bit,
            Movement::Stay,
            State(usize::MAX),
        ));
    }
    assert(spec_step(p, c3) == StepResult::Next(c4));
    assert(State(usize::MAX).is_halt());
    assert(spec_step(p, c4) is CleanHalt);
    assert(steps_to(p, c2, c2, 0));
    assert(steps_to(p, c1, c2, 1));
    assert(steps_to(p, c4, c4, 0));
    assert(steps_to(p, c3, c4, 1));
    let c0 = Config { tape: t, head: h, state: State(0usize) };
    lemma_steps_to_trans(p, c0, c1, c2, x, 1);
    lemma_steps_to_trans(p, c0, c2, c3, x + 1, x);
    lemma_steps_to_trans(p, c0, c3, c4, 2 * x + 1, 1);
    assert(f2[h as int + x as int] == true);
    assert forall|i: int| 0 <= i < f2.len() && i != h as int + x as int implies #[trigger] f2[i] == (i < t.len()
        && t[i]) by {
        assert(f1[i] == (i < t.len() && t[i]));
    }
    assert(steps_to(
        p,
        c0,
        Config { tape: f2, head: h, state: State(usize::MAX) },
        2 * x + 2,
    ));
}


/// Law: a step trace that ends in a configuration with no matching rule
/// pins the whole run. If the trace is short enough that neither the
/// no-progress bound, nor the head limit, nor the fuel budget can get in
/// the way, then `run_outcome` — and with it `run_program`'s contract —
/// returns `Ok` on the halt sentinel and the exact dangling fault
/// otherwise, resting in the traced final configuration.
pub proof fn lemma_run_outcome_terminal(
    p: Map<(State, bool), Instruction>,
    c0: Config,
    cf: Config,
    n: nat,
    counter: nat,
    bound: nat,
    fuel: nat,
)
    requires
        steps_to(p, c0, cf, n),
        !(spec_step(p, cf) is Next),
        counter + n < bound,
        c0.head + n < usize::MAX,
        n + 7 < usize::MAX,
        n < fuel,
    ensures
        ({
            let outcome = run_outcome(p, c0, counter, bound, fuel);
            &&& outcome.config == Config { tape: grown(cf.tape, cf.head as int), ..cf }
            &&& outcome.no_progress_steps <= counter + n
            &&& spec_step(p, cf) is CleanHalt ==> outcome.result == Ok::<(), MachineError>(())
            &&& spec_step(p, cf) is Dangling ==> outcome.result == Err::<(), MachineError>(
                MachineError::DanglingState {
                    state: cf.state,
                    read_bit: grown(cf.tape, cf.head as int)[cf.head as int],
                },
            )
        }),
    decreases n,
{
    if n == 0 {
        assert(cf == c0);
    } else {
        let c1 = spec_step(p, c0)->Next_0;
        let covered = grown(c0.tape, c0.head as int);
        let bit = covered[c0.head as int];
        let applied = p[(c0.state, bit)];
        assert(c1 == apply_instruction(
            Config { tape: covered, head: c0.head, state: c0.state },
            applied,
        ));
        match applied.movement {
            Movement::Stay => {
                assert(c1.head == c0.head);
            },
            Movement::Right => {
                assert(c1.head == c0.head + 1);
            },
            Movement::Left => {
                assert(c1.head <= 7 || c1.head < c0.head);
            },
        }
        let next_counter: nat = if c1.state == c0.state {
            counter + 1
        } else {
            0
        };
        lemma_run_outcome_terminal(p, c1, cf, (n - 1) as nat, next_counter, bound, (fuel - 1) as nat);
        assert(run_outcome(p, c0, counter, bound, fuel) == run_outcome(
            p,
            c1,
            next_counter,
            bound,
            (fuel - 1) as nat,
        ));
    }
}


/// Law, through the interpreter's contract: running the set-bit program on
/// a fresh enough machine returns `Ok`, resting on the starting cell in the
/// halt sentinel, with exactly the cell `x` to the right set and every
/// other starting cell as it was. The side conditions only keep the
/// no-progress bound, the head limit and the fuel budget out of the way of
/// the `2 * x + 2` steps the run takes.
pub proof fn lemma_set_bit_program_outcome(
    p: Map<(State, bool), Instruction>,
    x: nat,
    t: Seq<bool>,
    h: nat,
    counter: nat,
    bound: nat,
    fuel: nat,
)
    requires
        x >= 1,
        x + 3 <= usize::MAX,
        move_chain(p, hop_seq(State(0usize), State(1usize), 4, x as int), Movement::Right),
        block_entries(p, State(1usize), true, true, Movement::Stay, State(2usize)),
        move_chain(p, hop_seq(State(2usize), State(3usize), x as int + 3, x as int), Movement::Left),
        block_entries(p, State(3usize), false, true, Movement::Stay, State(usize::MAX)),
        forall|b: bool| !p.contains_key((State(usize::MAX), b)),
        counter + (2 * x + 2) < bound,
        h + (2 * x + 2) < usize::MAX,
        2 * x + 2 + 7 < usize::MAX,
        2 * x + 2 < fuel,
    ensures
        ({
            let outcome = run_outcome(
                p,
                Config { tape: t, head: h, state: State(0usize) },
                counter,
                bound,
                fuel,
            );
            &&& outcome.result == Ok::<(), MachineError>(())
            &&& outcome.config.head == h
            &&& outcome.config.state == State(usize::MAX)
            &&& outcome.config.tape[h as int + x as int] == true
            &&& forall|i: int|
                0 <= i < t.len() && i != h as int + x as int ==> #[trigger] outcome.config.tape[i]
                    == (t[i] && true)
        }),
{
    lemma_set_bit_program_runs(p, x, t, h);
    let f = choose|f: Seq<bool>|
        {
            &&& #[trigger] steps_to(
                p,
                Config { tape: t, head: h, state: State(0usize) },
                Config { tape: f, head: h, state: State(usize::MAX) },
                2 * x + 2,
            )
            &&& spec_step(p, Config { tape: f, head: h, state: State(usize::MAX) }) is CleanHalt
            &&& f.len() >= t.len()
            &&& f.len() > h + x
            &&& f[h as int + x as int] == true
            &&& forall|i: int|
                0 <= i < f.len() && i != h as int + x as int ==> #[trigger] f[i] == (i < t.len()
                    && t[i])
        };
    let cf = Config { tape: f, head: h, state: State(usize::MAX) };
    lemma_run_outcome_terminal(
        p,
        Config { tape: t, head: h, state: State(0usize) },
        cf,
        2 * x + 2,
        counter,
        bound,
        fuel,
    );
    let outcome = run_outcome(p, Config { tape: t, head: h, state: State(0usize) }, counter, bound, fuel);
    assert(outcome.config.tape == grown(f, h as int));
    assert(outcome.config.tape[h as int + x as int] == true);
    assert forall|i: int|
        0 <= i < t.len() && i != h as int + x as int implies #[trigger] outcome.config.tape[i] == (
    t[i] && true) by {
        assert(f[i] == (i < t.len() && t[i]));
        assert(grown(f, h as int)[i] == f[i]);
    }
}


/// Law: under a program whose every rule keeps its own state, writes the
/// bit back and stays put, a run started on a covered rule always ends in
/// the non-termination failsafe -- whatever the counter, bound and fuel:
/// the counter climbs to its bound, and a bound out of reach only leaves
/// the fuel budget, which reports the same fault.
pub proof fn lemma_self_loop_trips_failsafe(
    p: Map<(State, bool), Instruction>,
    c: Config,
    counter: nat,
    bound: nat,
    fuel: nat,
)
    requires
        forall|key: (State, bool)| #[trigger] p.contains_key(key) ==> p[key]
            == rule(key.0, key.1, key.1, Movement::Stay, key.0),
        p.contains_key((c.state, grown(c.tape, c.head as int)[c.head as int])),
    ensures
        run_outcome(p, c, counter, bound, fuel).result == Err::<(), MachineError>(
            MachineError::NonTermination,
        ),
    decreases fuel,
{
    if fuel == 0 {
    } else if counter >= bound {
    } else {
        let covered = grown(c.tape, c.head as int);
        let bit = covered[c.head as int];
        lemma_update_same(covered, c.head as int);
        let next = spec_step(p, c)->Next_0;
        assert(next == Config { tape: covered, head: c.head, state: c.state });
        assert(grown(next.tape, next.head as int) == next.tape);
        lemma_self_loop_trips_failsafe(p, next, counter + 1, bound, (fuel - 1) as nat);
    }
}

/// Law: under a program whose every rule returns to its own state without
/// moving or changing the tape, a machine that starts on a covered rule can
/// never halt cleanly nor dangle: every reachable configuration steps again.
/// The interpreter's no-progress failsafe is therefore the only way such a
/// run ends.
pub proof fn lemma_self_loop_spins(
    p: Map<(State, bool), Instruction>,
    c0: Config,
    cf: Config,
    n: nat,
)
    requires
        forall|key: (State, bool)| #[trigger] p.contains_key(key) ==> p[key]
            == rule(key.0, key.1, key.1, Movement::Stay, key.0),
        p.contains_key((c0.state, grown(c0.tape, c0.head as int)[c0.head as int])),
        steps_to(p, c0, cf, n),
    ensures
        cf.state == c0.state,
        spec_step(p, cf) is Next,
    decreases n,
{
    let covered = grown(c0.tape, c0.head as int);
    let bit = covered[c0.head as int];
    lemma_update_same(covered, c0.head as int);
    if n == 0 {
    } else {
        let c1 = spec_step(p, c0)->Next_0;
        assert(c1 == Config { tape: covered, head: c0.head, state: c0.state });
        assert(grown(c1.tape, c1.head as int) == c1.tape);
        lemma_self_loop_spins(p, c1, cf, (n - 1) as nat);
    }
}


/// Padding a configuration the way one read pads it does not change what
/// the next step is.
pub proof fn lemma_spec_step_padded(p: Map<(State, bool), Instruction>, c: Config)
    ensures
        spec_step(p, Config { tape: grown(c.tape, c.head as int), ..c }) == spec_step(p, c),
{
    assert(grown(grown(c.tape, c.head as int), c.head as int) == grown(c.tape, c.head as int));
}

/// Law: from a covered start, a run under a program whose every rule keeps
/// its own state can reach no configuration that halts cleanly or dangles;
/// by `run_program`'s contract the only report such a run can ever make is
/// the non-termination failsafe.
pub proof fn lemma_self_loop_only_failsafe(
    p: Map<(State, bool), Instruction>,
    c0: Config,
    cf: Config,
)
    requires
        forall|key: (State, bool)| #[trigger] p.contains_key(key) ==> p[key]
            == rule(key.0, key.1, key.1, Movement::Stay, key.0),
        p.contains_key((c0.state, grown(c0.tape, c0.head as int)[c0.head as int])),
        reaches(p, c0, cf),
    ensures
        !(spec_step(p, cf) is CleanHalt),
        !(spec_step(p, cf) is Dangling),
{
    let (n, c) = choose|n: nat, c: Config|
        #[trigger] steps_to(p, c0, c, n) && (cf == c || cf == Config {
            tape: grown(c.tape, c.head as int),
            ..c
        });
    lemma_self_loop_spins(p, c0, c, n);
    lemma_spec_step_padded(p, c);
}

} // verus!
