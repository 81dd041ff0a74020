//! The closed form of a pure loop does what the loop does.

use crate::effects::{
    analysis, cell_delta, delta_sum, deltas_upto, effects_of, is_pure, lemma_delta_sum_empty,
    lemma_deltas_step, offset_after, replicated, Analysis, Effects,
};
use crate::machine::{
    increment, is_repetitions, lemma_from_fuel, lemma_from_wf, lemma_instr_fuel, lemma_instr_wf,
    lemma_run_from_unfold, lemma_run_while_unfold, lemma_while_fuel, march, repetitions, run,
    run_from, run_instr, run_while, zeroes, Run, State,
};
use crate::optimizer::{clears_cell, optimize_one, optimize_upto, optimized, replacement};
use crate::program::Instr;
use crate::tape::{cell_at, offset_of, TAPE_SIZE};
use vstd::arithmetic::div_mod::lemma_fundamental_div_mod;
use vstd::prelude::*;

verus! {

/// Where the pointer stands after the first `k` instructions of `body`,
/// counted from where it stood at the start, as an exact signed number.
pub open spec fn drift(body: Seq<Instr>, k: int) -> int
    decreases k,
{
    if k <= 0 {
        0
    } else {
        match body[k - 1] {
            Instr::Shift(word) => drift(body, k - 1) + offset_of(word),
            _ => drift(body, k - 1),
        }
    }
}

/// Inside `body` the pointer never strays further from where it started than a
/// signed offset can tell.
pub open spec fn within_reach(body: Seq<Instr>) -> bool {
    forall|k: int|
        0 <= k <= body.len() ==> isize::MIN as int <= #[trigger] drift(body, k) <= isize::MAX as int
}

/// Wherever `body` changes a cell, and at its end, the running offset names
/// the cell on which the pointer stands: it differs from the exact position by
/// a multiple of the tape size.
pub open spec fn names_cells(body: Seq<Instr>) -> bool {
    forall|k: int|
        0 <= k <= body.len() && (k == body.len() || body[k] is Add) ==> (offset_of(
            #[trigger] offset_after(body, k),
        ) - drift(body, k)) % (TAPE_SIZE as int) == 0
}

/// What the passes of a loop entered at cell `p` add to the cell that the loop
/// tests is, modulo 256, what the loop adds at its own offset: the other
/// offsets that fall on that cell, if any, cancel out.
pub open spec fn tests_own_delta(effects: Effects, p: int) -> bool {
    cell_delta(effects.deltas, p, p) % 256 == increment(effects) as int
}

/// The machine after `k` passes of a loop that stays in place.
pub open spec fn after_passes(effects: Effects, st: State, k: int) -> State {
    State { tape: replicated(st.tape, st.pointer, effects.deltas, k), ..st }
}

/// The machine after the first `k` instructions of one pass.
spec fn partway(body: Seq<Instr>, st: State, k: int) -> State {
    State {
        tape: replicated(st.tape, st.pointer, deltas_upto(body, k), 1),
        pointer: (st.pointer + drift(body, k)) % (TAPE_SIZE as int),
        ..st
    }
}

/// Offsets that differ by a multiple of the tape size lead to the same cell.
proof fn lemma_same_cell(p: int, x: int, y: int)
    requires
        (x - y) % (TAPE_SIZE as int) == 0,
    ensures
        (p + x) % (TAPE_SIZE as int) == (p + y) % (TAPE_SIZE as int),
{
    lemma_fundamental_div_mod(x - y, TAPE_SIZE as int);
}

/// A body that stays within reach names its cells.
pub proof fn lemma_within_reach(body: Seq<Instr>)
    requires
        within_reach(body),
    ensures
        names_cells(body),
{
    assert forall|k: int|
        0 <= k <= body.len() && (k == body.len() || body[k] is Add) implies (offset_of(
        #[trigger] offset_after(body, k),
    ) - drift(body, k)) % (TAPE_SIZE as int) == 0 by {
        lemma_offset_exact(body, k);
    }
}

/// Within reach, the running offset tells where the pointer is.
proof fn lemma_offset_exact(body: Seq<Instr>, k: int)
    requires
        within_reach(body),
        0 <= k <= body.len(),
    ensures
        offset_of(offset_after(body, k)) == drift(body, k),
    decreases k,
{
    if k > 0 {
        lemma_offset_exact(body, k - 1);
        assert(isize::MIN as int <= drift(body, k) <= isize::MAX as int);
        assert(isize::MIN as int <= drift(body, k - 1) <= isize::MAX as int);
    }
}

/// A changed entry changes the sum of the cell that its offset falls on by the
/// difference.
proof fn lemma_delta_sum_change(
    deltas: Map<usize, u8>,
    p: int,
    c: int,
    bound: nat,
    o: usize,
    delta: u8,
)
    requires
        bound <= usize::MAX + 1,
    ensures
        delta_sum(deltas.insert(o, delta), p, c, bound) == delta_sum(deltas, p, c, bound) + if o
            < bound && cell_at(p, o) == c {
            delta as int - if deltas.contains_key(o) {
                deltas[o] as int
            } else {
                0
            }
        } else {
            0
        },
    decreases bound,
{
    if bound > 0 {
        lemma_delta_sum_change(deltas, p, c, (bound - 1) as nat, o, delta);
    }
}

/// The sums of the cells are not negative.
proof fn lemma_delta_sum_sign(deltas: Map<usize, u8>, p: int, c: int, bound: nat)
    ensures
        delta_sum(deltas, p, c, bound) >= 0,
    decreases bound,
{
    if bound > 0 {
        lemma_delta_sum_sign(deltas, p, c, (bound - 1) as nat);
    }
}

/// A single entry at offset 0 falls on the cell of the entry and on no other.
proof fn lemma_single_cell_delta(delta: u8, p: int, c: int)
    requires
        0 <= p < TAPE_SIZE,
    ensures
        cell_delta(map![0usize => delta], p, c) == if c == p {
            delta as int
        } else {
            0
        },
{
    let bound = (usize::MAX as nat + 1) as nat;
    lemma_delta_sum_empty(p, c, bound);
    lemma_delta_sum_change(Map::<usize, u8>::empty(), p, c, bound, 0, delta);
    assert(map![0usize => delta] =~= Map::<usize, u8>::empty().insert(0, delta));
}

/// Adding `a` to a cell and adding `a` to the delta that falls on it come to
/// the same.
proof fn lemma_cell_grows(t: u8, sum: int, a: u8, earlier: u8, present: bool)
    ensures
        ({
            let fresh = if present {
                a.wrapping_add(earlier)
            } else {
                a
            };
            let grown = sum + fresh - if present {
                earlier as int
            } else {
                0
            };
            ((t + grown) % 256) as u8 == (((t + sum) % 256) as u8).wrapping_add(a)
        }),
{
}

/// One more `Add` at offset `o` shows on the tape as an `Add` to the cell that
/// `o` falls on.
proof fn lemma_replicated_grows(tape: Seq<u8>, p: int, before: Map<usize, u8>, o: usize, a: u8)
    requires
        0 <= cell_at(p, o) < tape.len(),
    ensures
        ({
            let fresh = if before.contains_key(o) {
                a.wrapping_add(before[o])
            } else {
                a
            };
            let base = replicated(tape, p, before, 1);
            replicated(tape, p, before.insert(o, fresh), 1) == base.update(
                cell_at(p, o),
                base[cell_at(p, o)].wrapping_add(a),
            )
        }),
{
    let fresh = if before.contains_key(o) {
        a.wrapping_add(before[o])
    } else {
        a
    };
    let after = before.insert(o, fresh);
    let target = cell_at(p, o);
    let left = replicated(tape, p, after, 1);
    let base = replicated(tape, p, before, 1);
    let right = base.update(target, base[target].wrapping_add(a));
    let bound = (usize::MAX as nat + 1) as nat;
    assert forall|c: int| 0 <= c < tape.len() implies left[c] == right[c] by {
        lemma_delta_sum_change(before, p, c, bound, o, fresh);
        let sum = cell_delta(before, p, c);
        let grown = cell_delta(after, p, c);
        assert(1 * sum == sum);
        assert(1 * grown == grown);
        if c == target {
            lemma_cell_grows(tape[c], sum, a, before[o], before.contains_key(o));
        }
    }
    assert(left =~= right);
}

/// An `Add` inside a pass changes the cell under the pointer as the grown
/// deltas say.
proof fn lemma_partway_add(body: Seq<Instr>, st: State, k: int)
    requires
        st.wf(),
        names_cells(body),
        0 <= k < body.len(),
        body[k] is Add,
    ensures
        partway(body, st, k + 1) == partway(body, st, k).add(body[k]->Add_0),
{
    lemma_deltas_step(body, k);
    let o = offset_after(body, k);
    lemma_same_cell(st.pointer, offset_of(o), drift(body, k));
    lemma_replicated_grows(st.tape, st.pointer, deltas_upto(body, k), o, body[k]->Add_0);
}

/// A `Shift` inside a pass moves the pointer by its offset.
proof fn lemma_partway_shift(body: Seq<Instr>, st: State, k: int)
    requires
        st.wf(),
        0 <= k < body.len(),
        body[k] is Shift,
    ensures
        partway(body, st, k + 1) == partway(body, st, k).shift(body[k]->Shift_0),
{
    lemma_deltas_step(body, k);
}

/// From any point of a pass on, a pure body runs to the end of the pass.
proof fn lemma_rest_of_pass(body: Seq<Instr>, st: State, k: int, fuel: nat)
    requires
        st.wf(),
        is_pure(body),
        names_cells(body),
        0 <= k <= body.len(),
    ensures
        run_from(body, k, partway(body, st, k), fuel) == (Run {
            state: partway(body, st, body.len() as int),
            fuel,
            done: true,
        }),
    decreases body.len() - k,
{
    if k < body.len() {
        assert(body[k] is Add || body[k] is Shift);
        let here = partway(body, st, k);
        if body[k] is Add {
            lemma_partway_add(body, st, k);
        } else {
            lemma_partway_shift(body, st, k);
        }
        lemma_run_from_unfold(body, k, here, fuel);
        assert(run_instr(body[k], here, fuel) == Run {
            state: partway(body, st, k + 1),
            fuel,
            done: true,
        });
        lemma_rest_of_pass(body, st, k + 1, fuel);
    }
}

/// One pass through a pure body that names its cells does what its effects
/// say.
pub proof fn lemma_pass(body: Seq<Instr>, st: State, fuel: nat)
    requires
        st.wf(),
        is_pure(body),
        names_cells(body),
    ensures
        run_from(body, 0, st, fuel) == (Run { state: st.pass(effects_of(body)), fuel, done: true }),
        st.pass(effects_of(body)).wf(),
{
    lemma_rest_of_pass(body, st, 0, fuel);
    let start = partway(body, st, 0);
    assert(deltas_upto(body, 0) =~= Map::<usize, u8>::empty());
    assert forall|c: int| 0 <= c < st.tape.len() implies start.tape[c] == st.tape[c] by {
        lemma_delta_sum_empty(st.pointer, c, (usize::MAX as nat + 1) as nat);
    }
    assert(start.tape =~= st.tape);
    assert(start == st);
    let len = body.len() as int;
    lemma_same_cell(st.pointer, offset_of(offset_after(body, len)), drift(body, len));
}

/// A loop with a pure body that names its cells runs as its effects march.
pub proof fn lemma_loop_marches(body: Seq<Instr>, st: State, fuel: nat)
    requires
        st.wf(),
        is_pure(body),
        names_cells(body),
    ensures
        run_while(body, st, fuel) == march(effects_of(body), st, fuel),
    decreases fuel,
{
    if st.cell() != 0 && fuel > 0 {
        lemma_pass(body, st, (fuel - 1) as nat);
        lemma_loop_marches(body, st.pass(effects_of(body)), (fuel - 1) as nat);
    }
}

/// A marching loop that ends with some fuel ends in the same way with more,
/// and keeps what it got more.
proof fn lemma_march_more(effects: Effects, st: State, fuel: nat, more: nat)
    requires
        march(effects, st, fuel).done,
        more >= fuel,
    ensures
        march(effects, st, more) == (Run {
            state: march(effects, st, fuel).state,
            fuel: (march(effects, st, fuel).fuel + (more - fuel)) as nat,
            done: true,
        }),
    decreases fuel,
{
    if st.cell() != 0 && fuel > 0 {
        lemma_march_more(effects, st.pass(effects), (fuel - 1) as nat, (more - 1) as nat);
    }
}

/// One more pass in place.
proof fn lemma_next_pass(effects: Effects, st: State, k: int)
    requires
        st.wf(),
        effects.shift == 0,
        0 <= k,
    ensures
        after_passes(effects, st, k).pass(effects) == after_passes(effects, st, k + 1),
        after_passes(effects, st, k).wf(),
{
    let p = st.pointer;
    let left = after_passes(effects, st, k).pass(effects).tape;
    let right = after_passes(effects, st, k + 1).tape;
    assert forall|c: int| 0 <= c < st.tape.len() implies left[c] == right[c] by {
        let s = cell_delta(effects.deltas, p, c);
        let x = k * s;
        assert((k + 1) * s == x + s) by (nonlinear_arith)
            requires
                x == k * s,
        ;
        assert(1 * s == s);
    }
    assert(left =~= right);
}

/// After `k` passes in place the tested cell is zero exactly when `k` passes
/// of the loop's own delta make it zero.
proof fn lemma_tested_cell(effects: Effects, st: State, k: int)
    requires
        st.wf(),
        0 <= k,
        tests_own_delta(effects, st.pointer),
    ensures
        after_passes(effects, st, k).cell() == 0 <==> zeroes(increment(effects), st.cell(), k),
{
    let p = st.pointer;
    let d = cell_delta(effects.deltas, p, p);
    let incr = increment(effects) as int;
    lemma_delta_sum_sign(effects.deltas, p, p, (usize::MAX as nat + 1) as nat);
    lemma_fundamental_div_mod(d, 256);
    let w = d / 256;
    assert(d == 256 * w + incr);
    let x = k * incr;
    let y = k * w;
    assert(k * d == x + 256 * y) by (nonlinear_arith)
        requires
            d == 256 * w + incr,
            x == k * incr,
            y == k * w,
    ;
}

/// A loop in place that ends has made the least number of passes that zeroes
/// its tested cell, and no pass after that.
proof fn lemma_passes_made(effects: Effects, st: State, k: int, fuel: nat) -> (reps: int)
    requires
        st.wf(),
        effects.shift == 0,
        tests_own_delta(effects, st.pointer),
        0 <= k,
        forall|fewer: int| 0 <= fewer < k ==> !zeroes(increment(effects), st.cell(), fewer),
        march(effects, after_passes(effects, st, k), fuel).done,
    ensures
        k <= reps,
        zeroes(increment(effects), st.cell(), reps),
        forall|fewer: int| 0 <= fewer < reps ==> !zeroes(increment(effects), st.cell(), fewer),
        march(effects, after_passes(effects, st, k), fuel) == (Run {
            state: after_passes(effects, st, reps),
            fuel: (fuel - (reps - k)) as nat,
            done: true,
        }),
        reps - k <= fuel,
    decreases fuel,
{
    lemma_tested_cell(effects, st, k);
    lemma_next_pass(effects, st, k);
    if after_passes(effects, st, k).cell() == 0 {
        k
    } else {
        lemma_passes_made(effects, st, k + 1, (fuel - 1) as nat)
    }
}

/// The least number of passes that zeroes a cell is below 256.
proof fn lemma_least_is_byte(incr: u8, cell: u8, reps: int)
    requires
        0 <= reps,
        zeroes(incr, cell, reps),
        forall|fewer: int| 0 <= fewer < reps ==> !zeroes(incr, cell, fewer),
    ensures
        is_repetitions(incr, cell, reps),
        repetitions(incr, cell) == Some(reps),
{
    if reps >= 256 {
        let fewer = reps - 256;
        let x = reps * incr;
        assert(fewer * incr == x - 256 * incr) by (nonlinear_arith)
            requires
                fewer == reps - 256,
                x == reps * incr,
        ;
        assert(zeroes(incr, cell, fewer));
    }
    assert(is_repetitions(incr, cell, reps));
    let chosen = choose|r: int| is_repetitions(incr, cell, r);
    assert(is_repetitions(incr, cell, chosen));
    assert(chosen == reps);
}

/// Once a cell has been cleared by a loop that touches nothing else, the tape
/// is the tape with that cell set to zero.
proof fn lemma_cleared(effects: Effects, st: State, reps: int)
    requires
        st.wf(),
        clears_cell(effects),
        after_passes(effects, st, reps).cell() == 0,
    ensures
        after_passes(effects, st, reps) == st.with_cell(0),
{
    let p = st.pointer;
    let left = after_passes(effects, st, reps).tape;
    let right = st.with_cell(0).tape;
    assert forall|c: int| 0 <= c < st.tape.len() implies left[c] == right[c] by {
        lemma_single_cell_delta(1, p, c);
        lemma_single_cell_delta(255, p, c);
        if c != p {
            assert(reps * 0 == 0);
        }
    }
    assert(left =~= right);
}

/// A loop that only changes its tested cell by one per pass tests its own
/// delta.
pub proof fn lemma_clearing_tests_own_delta(effects: Effects, p: int)
    requires
        clears_cell(effects),
        0 <= p < TAPE_SIZE,
    ensures
        tests_own_delta(effects, p),
{
    lemma_single_cell_delta(1, p, p);
    lemma_single_cell_delta(255, p, p);
}

/// A fast run agrees with a naive run: where the naive run comes to its end,
/// so does the fast run, in the same state, with at least `spare` more fuel.
pub open spec fn agrees(naive: Run, fast: Run, spare: int) -> bool {
    naive.done ==> fast.done && fast.state == naive.state && fast.fuel >= naive.fuel + spare
}

/// The analysis tells the truth about the loop with this body when the loop is
/// entered in this state: the loop is not entered at all, or the body names
/// its cells and, if the loop stays in place, tests its own delta.
pub open spec fn faithful_at(body: Seq<Instr>, st: State) -> bool {
    st.cell() == 0 || (names_cells(body) && (effects_of(body).shift == 0 ==> tests_own_delta(
        effects_of(body),
        st.pointer,
    )))
}

/// The replacement of one loop, run with as much fuel as the loop or more.
proof fn lemma_replaced(body: Seq<Instr>, st: State, fuel: nat, more: nat)
    requires
        st.wf(),
        analysis(body) is Pure,
        faithful_at(body, st),
        more >= fuel,
    ensures
        agrees(
            run_while(body, st, fuel),
            run_instr(replacement(effects_of(body)), st, more),
            more - fuel,
        ),
{
    let effects = effects_of(body);
    let naive = run_while(body, st, fuel);
    lemma_while_fuel(body, st, fuel);
    assert(after_passes(effects, st, 0).tape =~= st.tape) by {
        assert forall|c: int| 0 <= c < st.tape.len() implies after_passes(effects, st, 0).tape[c]
            == st.tape[c] by {
            assert(0 * cell_delta(effects.deltas, st.pointer, c) == 0);
        }
    }
    assert(after_passes(effects, st, 0) == st);
    if st.cell() == 0 {
        assert(zeroes(increment(effects), st.cell(), 0));
        lemma_least_is_byte(increment(effects), st.cell(), 0);
        assert(st.with_cell(0).tape =~= st.tape);
    } else if naive.done {
        lemma_loop_marches(body, st, fuel);
        if effects.shift == 0 {
            let reps = lemma_passes_made(effects, st, 0, fuel);
            lemma_least_is_byte(increment(effects), st.cell(), reps);
            if clears_cell(effects) {
                lemma_tested_cell(effects, st, reps);
                lemma_cleared(effects, st, reps);
            }
        } else {
            lemma_march_more(effects, st, fuel, more);
        }
    }
}

/// Soundness of the optimizer's replacement for one loop.
///
/// Take a loop whose body the analysis calls pure, entered in a state of which
/// the analysis tells the truth. If the loop comes to its end, so does what the
/// optimizer puts in its place, and it leaves the same tape, pointer, input
/// and output, with no less fuel.
pub proof fn lemma_replacement_sound(body: Seq<Instr>, st: State, fuel: nat)
    requires
        st.wf(),
        analysis(body) is Pure,
        faithful_at(body, st),
        run_instr(Instr::Loop(body), st, fuel).done,
    ensures
        run_instr(replacement(effects_of(body)), st, fuel).done,
        run_instr(replacement(effects_of(body)), st, fuel).state == run_instr(
            Instr::Loop(body),
            st,
            fuel,
        ).state,
        run_instr(replacement(effects_of(body)), st, fuel).fuel >= run_instr(
            Instr::Loop(body),
            st,
            fuel,
        ).fuel,
{
    lemma_replaced(body, st, fuel, fuel);
}

/// With fuel for the passes that are left, a loop in place makes them and
/// comes to its end.
proof fn lemma_passes_left(effects: Effects, st: State, k: int, reps: int, fuel: nat)
    requires
        st.wf(),
        effects.shift == 0,
        tests_own_delta(effects, st.pointer),
        0 <= k <= reps,
        zeroes(increment(effects), st.cell(), reps),
        forall|fewer: int| 0 <= fewer < reps ==> !zeroes(increment(effects), st.cell(), fewer),
        fuel >= reps - k,
    ensures
        march(effects, after_passes(effects, st, k), fuel) == (Run {
            state: after_passes(effects, st, reps),
            fuel: (fuel - (reps - k)) as nat,
            done: true,
        }),
    decreases reps - k,
{
    lemma_tested_cell(effects, st, k);
    lemma_next_pass(effects, st, k);
    if k < reps {
        lemma_passes_left(effects, st, k + 1, reps, (fuel - 1) as nat);
    }
}

/// A loop that changes its tested cell by one per pass leaves after fewer than
/// 256 passes.
proof fn lemma_clearing_ends(incr: u8, cell: u8)
    requires
        incr == 1 || incr == 255,
    ensures
        repetitions(incr, cell) is Some,
{
    let reps: int = if incr == 1 {
        (256 - cell) % 256
    } else {
        cell as int
    };
    assert(reps * 1 == reps);
    assert(reps * 255 == 256 * reps - reps);
    assert(zeroes(incr, cell, reps));
    assert forall|fewer: int| 0 <= fewer < reps implies !zeroes(incr, cell, fewer) by {
        assert(fewer * 1 == fewer);
        assert(fewer * 255 == 256 * fewer - fewer);
    }
    lemma_least_is_byte(incr, cell, reps);
}

/// The converse of soundness for one loop: where the optimizer's replacement
/// comes to its end, so does the loop, given 255 more passes, and it leaves the
/// same tape, pointer, input and output.
pub proof fn lemma_replacement_complete(body: Seq<Instr>, st: State, fuel: nat)
    requires
        st.wf(),
        analysis(body) is Pure,
        faithful_at(body, st),
        run_instr(replacement(effects_of(body)), st, fuel).done,
    ensures
        run_instr(Instr::Loop(body), st, fuel + 255).done,
        run_instr(Instr::Loop(body), st, fuel + 255).state == run_instr(
            replacement(effects_of(body)),
            st,
            fuel,
        ).state,
{
    let effects = effects_of(body);
    let more = fuel + 255;
    if st.cell() != 0 {
        lemma_loop_marches(body, st, more);
        if effects.shift == 0 {
            let incr = increment(effects);
            if clears_cell(effects) {
                lemma_clearing_tests_own_delta(effects, st.pointer);
                lemma_clearing_ends(incr, st.cell());
            }
            let reps = repetitions(incr, st.cell())->0;
            assert(is_repetitions(incr, st.cell(), reps));
            assert(after_passes(effects, st, 0).tape =~= st.tape) by {
                assert forall|c: int| 0 <= c < st.tape.len() implies after_passes(
                    effects,
                    st,
                    0,
                ).tape[c] == st.tape[c] by {
                    assert(0 * cell_delta(effects.deltas, st.pointer, c) == 0);
                }
            }
            assert(after_passes(effects, st, 0) == st);
            lemma_passes_left(effects, st, 0, reps, more);
            if clears_cell(effects) {
                lemma_tested_cell(effects, st, reps);
                lemma_cleared(effects, st, reps);
            }
        } else {
            lemma_march_more(effects, st, fuel, more);
        }
    } else {
        lemma_replaced(body, st, fuel, fuel);
    }
}

/// The analysis tells the truth about the loop with this body wherever the
/// loop is entered.
pub open spec fn faithful_body(body: Seq<Instr>) -> bool {
    names_cells(body) && (effects_of(body).shift == 0 ==> forall|p: int|
        0 <= p < TAPE_SIZE ==> #[trigger] tests_own_delta(effects_of(body), p))
}

/// The analysis tells the truth about every loop that the optimizer replaces
/// in this instruction.
pub open spec fn faithful_instr(op: Instr) -> bool
    decreases op, 0int,
{
    match op {
        Instr::Loop(body) => match analysis(body) {
            Analysis::Pure(_) => faithful_body(body),
            Analysis::Impure => faithful_from(body, 0),
            Analysis::Endless => true,
        },
        _ => true,
    }
}

/// The analysis tells the truth about every loop that the optimizer replaces
/// in the instructions of `ops` from index `i` on.
pub open spec fn faithful_from(ops: Seq<Instr>, i: int) -> bool
    decreases ops, ops.len() - i,
{
    if i < 0 || i >= ops.len() {
        true
    } else {
        faithful_instr(ops[i]) && faithful_from(ops, i + 1)
    }
}

/// The analysis tells the truth about every loop that the optimizer replaces
/// in this program.
pub open spec fn faithful(ops: Seq<Instr>) -> bool {
    faithful_from(ops, 0)
}

/// Where the optimizer got through the first `k` instructions, it got through
/// each of them, and the others are as they were.
proof fn lemma_optimized_each(ops: Seq<Instr>, k: int)
    requires
        0 <= k <= ops.len(),
        optimize_upto(ops, k).1,
    ensures
        optimize_upto(ops, k).0.len() == ops.len(),
        forall|i: int|
            0 <= i < k ==> (#[trigger] optimize_one(ops[i])).1 && optimize_upto(ops, k).0[i]
                == optimize_one(ops[i]).0,
        forall|i: int| k <= i < ops.len() ==> optimize_upto(ops, k).0[i] == ops[i],
    decreases k,
{
    if k > 0 {
        lemma_optimized_each(ops, k - 1);
    }
}

/// An optimized instruction agrees with the instruction.
proof fn lemma_instr_optimized(op: Instr, st: State, fuel: nat, more: nat)
    requires
        st.wf(),
        faithful_instr(op),
        optimize_one(op).1,
        more >= fuel,
    ensures
        agrees(run_instr(op, st, fuel), run_instr(optimize_one(op).0, st, more), more - fuel),
    decreases fuel, op, 0int,
{
    match op {
        Instr::Loop(body) => match analysis(body) {
            Analysis::Pure(_) => {
                assert(faithful_at(body, st));
                lemma_replaced(body, st, fuel, more);
            },
            Analysis::Impure => {
                lemma_while_optimized(body, st, fuel, more);
            },
            Analysis::Endless => {},
        },
        Instr::Replicated(effects) => {
            if effects.shift != 0 && run_instr(op, st, fuel).done {
                lemma_march_more(effects, st, fuel, more);
            }
        },
        _ => {},
    }
}

/// An optimized sequence agrees with the sequence.
proof fn lemma_from_optimized(ops: Seq<Instr>, i: int, st: State, fuel: nat, more: nat)
    requires
        st.wf(),
        0 <= i <= ops.len(),
        faithful_from(ops, i),
        optimized(ops).1,
        more >= fuel,
    ensures
        agrees(run_from(ops, i, st, fuel), run_from(optimized(ops).0, i, st, more), more - fuel),
    decreases fuel, ops, ops.len() - i,
{
    let fast_ops = optimized(ops).0;
    lemma_optimized_each(ops, ops.len() as int);
    if i < ops.len() {
        let naive = run_instr(ops[i], st, fuel);
        let fast = run_instr(fast_ops[i], st, more);
        lemma_instr_optimized(ops[i], st, fuel, more);
        lemma_run_from_unfold(ops, i, st, fuel);
        lemma_run_from_unfold(fast_ops, i, st, more);
        lemma_instr_fuel(ops[i], st, fuel);
        lemma_instr_wf(ops[i], st, fuel);
        if naive.done {
            lemma_from_optimized(ops, i + 1, naive.state, naive.fuel, fast.fuel);
        }
    }
}

/// A loop with an optimized body agrees with the loop.
proof fn lemma_while_optimized(body: Seq<Instr>, st: State, fuel: nat, more: nat)
    requires
        st.wf(),
        faithful_from(body, 0),
        optimized(body).1,
        more >= fuel,
    ensures
        agrees(run_while(body, st, fuel), run_while(optimized(body).0, st, more), more - fuel),
    decreases fuel, body, body.len() + 1,
{
    let fast_body = optimized(body).0;
    if st.cell() != 0 && fuel > 0 {
        let naive = run_from(body, 0, st, (fuel - 1) as nat);
        let fast = run_from(fast_body, 0, st, (more - 1) as nat);
        lemma_from_optimized(body, 0, st, (fuel - 1) as nat, (more - 1) as nat);
        lemma_run_while_unfold(body, st, fuel);
        lemma_run_while_unfold(fast_body, st, more);
        lemma_from_fuel(body, 0, st, (fuel - 1) as nat);
        lemma_from_wf(body, 0, st, (fuel - 1) as nat);
        if naive.done {
            lemma_while_optimized(body, naive.state, naive.fuel, fast.fuel);
        }
    }
}

/// Soundness of the optimizer.
///
/// Take a program through which the optimizer gets, and in which the analysis
/// tells the truth about every loop that the optimizer replaces. If the
/// program comes to its end, so does the optimized program, and it leaves the
/// same tape, pointer, input and output, with no less fuel.
pub proof fn lemma_optimizer_sound(ops: Seq<Instr>, st: State, fuel: nat)
    requires
        st.wf(),
        faithful(ops),
        optimized(ops).1,
        run(ops, st, fuel).done,
    ensures
        run(optimized(ops).0, st, fuel).done,
        run(optimized(ops).0, st, fuel).state == run(ops, st, fuel).state,
        run(optimized(ops).0, st, fuel).fuel >= run(ops, st, fuel).fuel,
{
    lemma_from_optimized(ops, 0, st, fuel, fuel);
}

/// The loop `[-]` clears its cell in as many passes as the cell holds, which is
/// what `Zero` does in one step.
pub proof fn lemma_clear_down(st: State, fuel: nat)
    requires
        st.wf(),
        fuel >= st.cell(),
    ensures
        run_instr(Instr::Loop(seq![Instr::Add(255)]), st, fuel) == (Run {
            state: st.with_cell(0),
            fuel: (fuel - st.cell()) as nat,
            done: true,
        }),
        run_instr(Instr::Zero, st, fuel).state == st.with_cell(0),
    decreases st.cell(),
{
    let body = seq![Instr::Add(255)];
    if st.cell() == 0 {
        assert(st.with_cell(0).tape =~= st.tape);
    } else {
        let next = st.add(255);
        lemma_run_from_unfold(body, 0, st, (fuel - 1) as nat);
        assert(body[0] == Instr::Add(255));
        assert(run_instr(body[0], st, (fuel - 1) as nat) == Run {
            state: next,
            fuel: (fuel - 1) as nat,
            done: true,
        });
        assert(run_from(body, 1, next, (fuel - 1) as nat) == Run {
            state: next,
            fuel: (fuel - 1) as nat,
            done: true,
        });
        assert(run_from(body, 0, st, (fuel - 1) as nat) == Run {
            state: next,
            fuel: (fuel - 1) as nat,
            done: true,
        });
        lemma_clear_down(next, (fuel - 1) as nat);
        assert(next.with_cell(0).tape =~= st.with_cell(0).tape);
    }
}

/// The loop `[+]` clears its cell in as many passes as the cell lacks to 256,
/// which is what `Zero` does in one step.
pub proof fn lemma_clear_up(st: State, fuel: nat)
    requires
        st.wf(),
        fuel >= (256 - st.cell()) % 256,
    ensures
        run_instr(Instr::Loop(seq![Instr::Add(1)]), st, fuel) == (Run {
            state: st.with_cell(0),
            fuel: (fuel - (256 - st.cell()) % 256) as nat,
            done: true,
        }),
        run_instr(Instr::Zero, st, fuel).state == st.with_cell(0),
    decreases (256 - st.cell()) % 256,
{
    let body = seq![Instr::Add(1)];
    if st.cell() == 0 {
        assert(st.with_cell(0).tape =~= st.tape);
    } else {
        let next = st.add(1);
        lemma_run_from_unfold(body, 0, st, (fuel - 1) as nat);
        assert(body[0] == Instr::Add(1));
        assert(run_instr(body[0], st, (fuel - 1) as nat) == Run {
            state: next,
            fuel: (fuel - 1) as nat,
            done: true,
        });
        assert(run_from(body, 1, next, (fuel - 1) as nat) == Run {
            state: next,
            fuel: (fuel - 1) as nat,
            done: true,
        });
        assert(run_from(body, 0, st, (fuel - 1) as nat) == Run {
            state: next,
            fuel: (fuel - 1) as nat,
            done: true,
        });
        lemma_clear_up(next, (fuel - 1) as nat);
        assert(next.with_cell(0).tape =~= st.with_cell(0).tape);
    }
}

} // verus!
