//! Static effects of a loop body: which bodies are pure, and what one pass
//! through a pure body does.

use crate::program::{instrs_of, Instr, Operation};
use crate::tape::{advance, cell_at, TAPE_SIZE};
use std::collections::HashMap;
use vstd::prelude::*;
use vstd::std_specs::iter::IteratorSpec;

verus! {

/// Net effect of one pass through a pure loop body: how far the pointer moves,
/// and by how much the cell at each touched relative offset changes.
pub struct Effects {
    pub shift: usize,
    pub deltas: Map<usize, u8>,
}

/// The statically known effect of one pass through a pure loop body.
#[derive(Debug, PartialEq, Eq)]
pub struct PureLoop {
    adds: HashMap<usize, u8>,
    shift: usize,
}

impl View for PureLoop {
    type V = Effects;

    closed spec fn view(&self) -> Effects {
        Effects { shift: self.shift, deltas: self.adds@ }
    }
}

/// Why a program cannot be optimized.
#[derive(Debug, Clone, Copy, PartialEq, Eq)]
pub enum OptimizeError {
    /// A loop neither moves the pointer nor changes the cell that it tests.
    InfiniteLoop,
}

/// What the analysis says of a loop body.
pub enum Analysis {
    /// Nothing but cell deltas and pointer moves, with these net effects.
    Pure(Effects),
    /// The body holds input, output, or another loop.
    Impure,
    /// A pure body that leaves both the pointer and the tested cell where they
    /// were: once entered, the loop never ends.
    Endless,
}

/// A body is pure when it holds nothing but cell deltas and pointer moves.
pub open spec fn is_pure(body: Seq<Instr>) -> bool {
    forall|i: int| 0 <= i < body.len() ==> (#[trigger] body[i] is Add || body[i] is Shift)
}

/// Relative offset of the pointer after the first `k` instructions of `body`.
pub open spec fn offset_after(body: Seq<Instr>, k: int) -> usize
    decreases k,
{
    if k <= 0 {
        0
    } else {
        match body[k - 1] {
            Instr::Shift(s) => offset_after(body, k - 1).wrapping_add(s),
            _ => offset_after(body, k - 1),
        }
    }
}

/// One of the first `k` instructions of `body` changes the cell at offset `o`.
pub open spec fn touches(body: Seq<Instr>, k: int, o: usize) -> bool {
    exists|i: int| 0 <= i < k && #[trigger] body[i] is Add && offset_after(body, i) == o
}

/// Wrapping sum of what the first `k` instructions of `body` add at offset `o`.
pub open spec fn delta_at(body: Seq<Instr>, k: int, o: usize) -> u8
    decreases k,
{
    if k <= 0 {
        0
    } else {
        match body[k - 1] {
            Instr::Add(a) => if offset_after(body, k - 1) == o {
                a.wrapping_add(delta_at(body, k - 1, o))
            } else {
                delta_at(body, k - 1, o)
            },
            _ => delta_at(body, k - 1, o),
        }
    }
}

/// The net deltas of the first `k` instructions of `body`, for the offsets
/// that they touch.
pub open spec fn deltas_upto(body: Seq<Instr>, k: int) -> Map<usize, u8> {
    Map::new(|o: usize| touches(body, k, o), |o: usize| delta_at(body, k, o))
}

/// The net effect of one pass through `body`.
pub open spec fn effects_of(body: Seq<Instr>) -> Effects {
    Effects {
        shift: offset_after(body, body.len() as int),
        deltas: deltas_upto(body, body.len() as int),
    }
}

/// A loop with these effects cannot end once it is entered: the pointer stays,
/// and the cell under it is not changed.
pub open spec fn is_endless(effects: Effects) -> bool {
    effects.shift == 0 && (!effects.deltas.contains_key(0) || effects.deltas[0] == 0)
}

/// The verdict on a loop body.
pub open spec fn analysis(body: Seq<Instr>) -> Analysis {
    if !is_pure(body) {
        Analysis::Impure
    } else if is_endless(effects_of(body)) {
        Analysis::Endless
    } else {
        Analysis::Pure(effects_of(body))
    }
}

/// An offset that is not touched has no delta.
proof fn lemma_untouched(body: Seq<Instr>, k: int, o: usize)
    requires
        0 <= k <= body.len(),
        !touches(body, k, o),
    ensures
        delta_at(body, k, o) == 0,
    decreases k,
{
    if k > 0 {
        assert(!touches(body, k - 1, o)) by {
            if touches(body, k - 1, o) {
                let i = choose|i: int|
                    0 <= i < k - 1 && #[trigger] body[i] is Add && offset_after(body, i) == o;
                assert(0 <= i < k && body[i] is Add && offset_after(body, i) == o);
            }
        }
        lemma_untouched(body, k - 1, o);
        if body[k - 1] is Add && offset_after(body, k - 1) == o {
            assert(touches(body, k, o));
        }
    }
}

/// How the net deltas grow by one instruction.
pub proof fn lemma_deltas_step(body: Seq<Instr>, k: int)
    requires
        0 <= k < body.len(),
    ensures
        deltas_upto(body, k + 1) == match body[k] {
            Instr::Add(a) => {
                let o = offset_after(body, k);
                let m = deltas_upto(body, k);
                m.insert(
                    o,
                    if m.contains_key(o) {
                        a.wrapping_add(m[o])
                    } else {
                        a
                    },
                )
            },
            _ => deltas_upto(body, k),
        },
{
    let m = deltas_upto(body, k);
    let next = deltas_upto(body, k + 1);
    assert forall|o: usize| touches(body, k + 1, o) <==> (touches(body, k, o) || (body[k] is Add
        && offset_after(body, k) == o)) by {
        if touches(body, k + 1, o) {
            let i = choose|i: int|
                0 <= i < k + 1 && #[trigger] body[i] is Add && offset_after(body, i) == o;
            if i < k {
                assert(touches(body, k, o));
            }
        }
        if touches(body, k, o) {
            let i = choose|i: int|
                0 <= i < k && #[trigger] body[i] is Add && offset_after(body, i) == o;
            assert(0 <= i < k + 1 && body[i] is Add && offset_after(body, i) == o);
        }
        if body[k] is Add && offset_after(body, k) == o {
            assert(touches(body, k + 1, o));
        }
    }
    match body[k] {
        Instr::Add(a) => {
            let o = offset_after(body, k);
            if !m.contains_key(o) {
                lemma_untouched(body, k, o);
            }
            let grown = m.insert(
                o,
                if m.contains_key(o) {
                    a.wrapping_add(m[o])
                } else {
                    a
                },
            );
            assert(next =~= grown);
        },
        _ => {
            assert(next =~= m);
        },
    }
}

/// Sum of the deltas of the offsets below `bound` that fall on cell `c` when
/// the loop is entered with the pointer at cell `p`.
pub open spec fn delta_sum(deltas: Map<usize, u8>, p: int, c: int, bound: nat) -> int
    decreases bound,
{
    if bound == 0 {
        0
    } else {
        let o = (bound - 1) as usize;
        delta_sum(deltas, p, c, (bound - 1) as nat) + if deltas.contains_key(o) && cell_at(p, o)
            == c {
            deltas[o] as int
        } else {
            0
        }
    }
}

/// What one pass adds to cell `c` when the loop is entered at cell `p`: the sum
/// over all the offsets that fall on `c`.
pub open spec fn cell_delta(deltas: Map<usize, u8>, p: int, c: int) -> int {
    delta_sum(deltas, p, c, (usize::MAX as nat + 1) as nat)
}

/// The tape after `reps` passes of `deltas`, entered with the pointer at `p`.
pub open spec fn replicated(tape: Seq<u8>, p: int, deltas: Map<usize, u8>, reps: int) -> Seq<u8> {
    Seq::new(tape.len(), |c: int| ((tape[c] + reps * cell_delta(deltas, p, c)) % 256) as u8)
}

/// A new offset adds its delta to the sum of the cell that it falls on.
pub proof fn lemma_delta_sum_insert(
    deltas: Map<usize, u8>,
    p: int,
    c: int,
    bound: nat,
    o: usize,
    delta: u8,
)
    requires
        !deltas.contains_key(o),
        bound <= usize::MAX + 1,
    ensures
        delta_sum(deltas.insert(o, delta), p, c, bound) == delta_sum(deltas, p, c, bound) + if o
            < bound && cell_at(p, o) == c {
            delta as int
        } else {
            0
        },
    decreases bound,
{
    if bound > 0 {
        lemma_delta_sum_insert(deltas, p, c, (bound - 1) as nat, o, delta);
    }
}

/// No offsets, no deltas.
pub proof fn lemma_delta_sum_empty(p: int, c: int, bound: nat)
    ensures
        delta_sum(Map::<usize, u8>::empty(), p, c, bound) == 0,
    decreases bound,
{
    if bound > 0 {
        lemma_delta_sum_empty(p, c, (bound - 1) as nat);
    }
}

/// The entries that a walk has passed, as a map.
spec fn passed(entries: Seq<(usize, u8)>, n: int) -> Map<usize, u8>
    decreases n,
{
    if n <= 0 {
        Map::empty()
    } else {
        passed(entries, n - 1).insert(entries[n - 1].0, entries[n - 1].1)
    }
}

/// A walk over the entries of `deltas` passes entries of `deltas` only, and
/// has passed a key exactly when one of the entries behind it holds that key.
proof fn lemma_passed(entries: Seq<(usize, u8)>, deltas: Map<usize, u8>, n: int)
    requires
        0 <= n <= entries.len(),
        forall|j: int|
            0 <= j < entries.len() ==> deltas.contains_key((#[trigger] entries[j]).0)
                && deltas[entries[j].0] == entries[j].1,
    ensures
        forall|k: usize| #[trigger]
            passed(entries, n).contains_key(k) ==> deltas.contains_key(k) && passed(entries, n)[k]
                == deltas[k],
        forall|k: usize| #[trigger]
            passed(entries, n).contains_key(k) <==> exists|j: int|
                0 <= j < n && (#[trigger] entries[j]).0 == k,
    decreases n,
{
    if n > 0 {
        lemma_passed(entries, deltas, n - 1);
        let before = passed(entries, n - 1);
        let now = passed(entries, n);
        assert forall|k: usize| #[trigger]
            now.contains_key(k) <==> exists|j: int|
                0 <= j < n && (#[trigger] entries[j]).0 == k by {
            if now.contains_key(k) {
                if k == entries[n - 1].0 {
                } else {
                    assert(before.contains_key(k));
                    let j = choose|j: int| 0 <= j < n - 1 && (#[trigger] entries[j]).0 == k;
                    assert(0 <= j < n && entries[j].0 == k);
                }
            }
            if exists|j: int| 0 <= j < n && (#[trigger] entries[j]).0 == k {
                let j = choose|j: int| 0 <= j < n && (#[trigger] entries[j]).0 == k;
                if j < n - 1 {
                    assert(before.contains_key(k));
                }
            }
        }
    }
}

/// The delta at cell `c` scales with the repetitions when one more offset is
/// taken in.
proof fn lemma_replicated_step(
    tape: Seq<u8>,
    p: int,
    before: Map<usize, u8>,
    o: usize,
    delta: u8,
    reps: u8,
)
    requires
        !before.contains_key(o),
        0 <= cell_at(p, o) < tape.len(),
    ensures
        replicated(tape, p, before.insert(o, delta), reps as int) == replicated(
            tape,
            p,
            before,
            reps as int,
        ).update(
            cell_at(p, o),
            replicated(tape, p, before, reps as int)[cell_at(p, o)].wrapping_add(
                delta.wrapping_mul(reps),
            ),
        ),
{
    let after = before.insert(o, delta);
    let left = replicated(tape, p, after, reps as int);
    let base = replicated(tape, p, before, reps as int);
    let target = cell_at(p, o);
    let right = base.update(target, base[target].wrapping_add(delta.wrapping_mul(reps)));
    let bound = (usize::MAX as nat + 1) as nat;
    assert forall|c: int| 0 <= c < tape.len() implies left[c] == right[c] by {
        lemma_delta_sum_insert(before, p, c, bound, o, delta);
        if c == target {
            let sum = cell_delta(before, p, c);
            assert(cell_delta(after, p, c) == sum + delta);
            let r = reps as int;
            let d = delta as int;
            let t = tape[c] as int;
            assert(r * (sum + d) == r * sum + r * d) by (nonlinear_arith);
            assert(d * r == r * d) by (nonlinear_arith);
            assert(0 <= r * d <= 255 * 255) by (nonlinear_arith)
                requires
                    0 <= r <= 255,
                    0 <= d <= 255,
            ;
            let x = r * sum;
            let y = r * d;
            assert(delta.wrapping_mul(reps) == (y % 256) as u8);
            assert(((t + x) % 256 + y % 256) % 256 == (t + x + y) % 256);
        }
    }
    assert(left =~= right);
}

impl PureLoop {
    /// How far one pass moves the pointer.
    pub fn shift(&self) -> (shift: usize)
        ensures
            shift == self@.shift,
    {
        self.shift
    }

    /// What one pass adds to the cell at a relative offset, if it touches it.
    pub fn delta(&self, offset: usize) -> (delta: Option<u8>)
        ensures
            match delta {
                Some(d) => self@.deltas.contains_key(offset) && self@.deltas[offset] == d,
                None => !self@.deltas.contains_key(offset),
            },
    {
        match self.adds.get(&offset) {
            Some(d) => Some(*d),
            None => None,
        }
    }

    /// Number of relative offsets that one pass touches.
    pub fn len(&self) -> (len: usize)
        ensures
            len == self@.deltas.len(),
            self@.deltas.dom().finite(),
    {
        self.adds.len()
    }

    /// Adds to `tape` what `reps` passes add, for a loop entered at `pointer`.
    pub fn apply(&self, tape: &mut [u8], pointer: usize, reps: u8)
        requires
            old(tape).len() == TAPE_SIZE,
            pointer < TAPE_SIZE,
        ensures
            final(tape)@ == replicated(old(tape)@, pointer as int, self@.deltas, reps as int),
    {
        let ghost start = tape@;
        let ghost deltas = self.adds@;
        proof {
            assert forall|c: int| 0 <= c < start.len() implies #[trigger] start[c] == replicated(
                start,
                pointer as int,
                Map::<usize, u8>::empty(),
                reps as int,
            )[c] by {
                lemma_delta_sum_empty(pointer as int, c, (usize::MAX as nat + 1) as nat);
            }
            assert(start =~= replicated(
                start,
                pointer as int,
                Map::<usize, u8>::empty(),
                reps as int,
            ));
        }
        let ghost entries = self.adds.iter().remaining().unref();
        for entry in it: self.adds.iter()
            invariant
                deltas == self.adds@,
                start.len() == TAPE_SIZE,
                pointer < TAPE_SIZE,
                it.seq() == self.adds.iter().remaining(),
                entries == it.seq().unref(),
                it.seq().no_duplicates(),
                tape@ == replicated(
                    start,
                    pointer as int,
                    passed(entries, it.index()),
                    reps as int,
                ),
        {
            let (offset, add) = entry;
            let ghost n = it.index();
            proof {
                lemma_passed(entries, deltas, n);
                assert(entries[n] == (*offset, *add));
                if passed(entries, n).contains_key(*offset) {
                    let j = choose|j: int| 0 <= j < n && (#[trigger] entries[j]).0 == *offset;
                    assert(entries[j] == entries[n]);
                    assert(it.seq()[j] == it.seq()[n]);
                }
                lemma_replicated_step(
                    start,
                    pointer as int,
                    passed(entries, n),
                    *offset,
                    *add,
                    reps,
                );
            }
            let p = advance(pointer, *offset);
            let v = tape[p].wrapping_add(add.wrapping_mul(reps));
            tape[p] = v;
        }
        proof {
            let n = entries.len() as int;
            lemma_passed(entries, deltas, n);
            assert forall|k: usize| deltas.contains_key(k) implies passed(
                entries,
                n,
            ).contains_key(k) by {
                let walk = self.adds.iter().remaining();
                assert(walk.contains((&k, &deltas[k])));
                let j = choose|j: int| 0 <= j < walk.len() && walk[j] == (&k, &deltas[k]);
                assert(entries[j].0 == k);
            }
            assert(passed(entries, n) =~= deltas);
        }
    }
}

/// Works out what one pass through a loop body does.
///
/// Returns the net effects of a pure body, `None` for a body that is not pure,
/// and an error for a pure body whose loop can never end.
pub fn pure_loop_effects(program: &Vec<Operation>) -> (res: Result<
    Option<PureLoop>,
    OptimizeError,
>)
    ensures
        match res {
            Ok(Some(pure_loop)) => analysis(instrs_of(program@)) == Analysis::Pure(pure_loop@)
                && !is_endless(pure_loop@),
            Ok(None) => analysis(instrs_of(program@)) is Impure,
            Err(_) => analysis(instrs_of(program@)) is Endless,
        },
{
    let ghost body = instrs_of(program@);
    let mut adds: HashMap<usize, u8> = HashMap::new();
    let mut shift: usize = 0;
    let mut pointer: usize = 0;
    let mut i: usize = 0;
    proof {
        assert(adds@ =~= deltas_upto(body, 0));
    }
    while i < program.len()
        invariant
            body == instrs_of(program@),
            i <= program.len(),
            forall|j: int| 0 <= j < i ==> (#[trigger] body[j] is Add || body[j] is Shift),
            pointer == offset_after(body, i as int),
            shift == pointer,
            adds@ == deltas_upto(body, i as int),
        decreases program.len() - i,
    {
        proof {
            lemma_deltas_step(body, i as int);
        }
        match &program[i] {
            Operation::Add(a) => {
                let earlier = match adds.get(&pointer) {
                    Some(b) => Some(*b),
                    None => None,
                };
                match earlier {
                    Some(b) => {
                        adds.insert(pointer, a.wrapping_add(b));
                    },
                    None => {
                        adds.insert(pointer, *a);
                    },
                }
            },
            Operation::Shift(s) => {
                pointer = pointer.wrapping_add(*s);
                shift = shift.wrapping_add(*s);
            },
            // An inner loop may work on cells that this analysis cannot name.
            Operation::PureLoop(_) => {
                return Ok(None);
            },
            Operation::Zero => {
                return Ok(None);
            },
            Operation::Loop(_) => {
                return Ok(None);
            },
            // Input and output must happen pass by pass.
            Operation::Read => {
                return Ok(None);
            },
            Operation::Write => {
                return Ok(None);
            },
        }
        i += 1;
    }
    if shift == 0 {
        let incr = adds.get(&0);
        let stuck = match incr {
            None => true,
            Some(d) => *d == 0,
        };
        if stuck {
            return Err(OptimizeError::InfiniteLoop);
        }
    }
    Ok(Some(PureLoop { adds, shift }))
}

} // verus!
