//! Replacing pure loops by their closed form.

use crate::effects::{analysis, pure_loop_effects, Analysis, Effects, OptimizeError};
use crate::program::{instr_of, instrs_of, lemma_instr_of_loop, Instr, Operation};
use vstd::prelude::*;

verus! {

/// The effects of the loops `[-]` and `[+]`: the tested cell changes by one per
/// pass and nothing else happens.
pub open spec fn clears_cell(effects: Effects) -> bool {
    effects.shift == 0 && (effects.deltas == map![0usize => 1u8] || effects.deltas
        == map![0usize => 255u8])
}

/// What stands in for a loop whose body has these effects.
pub open spec fn replacement(effects: Effects) -> Instr {
    if clears_cell(effects) {
        Instr::Zero
    } else {
        Instr::Replicated(effects)
    }
}

/// One instruction as the optimizer leaves it, and whether it got through it
/// without meeting a loop that can never end.
pub open spec fn optimize_one(op: Instr) -> (Instr, bool)
    decreases op, 0int,
{
    match op {
        Instr::Loop(body) => match analysis(body) {
            Analysis::Pure(effects) => (replacement(effects), true),
            Analysis::Endless => (op, false),
            Analysis::Impure => {
                let (inner, ok) = optimize_upto(body, body.len() as int);
                (Instr::Loop(inner), ok)
            },
        },
        _ => (op, true),
    }
}

/// A sequence as the optimizer leaves it once it has dealt with the first `k`
/// instructions, and whether it got that far. It stops at the first loop that
/// can never end and leaves the rest as it is.
pub open spec fn optimize_upto(ops: Seq<Instr>, k: int) -> (Seq<Instr>, bool)
    decreases ops, k,
{
    if k <= 0 || k > ops.len() {
        (ops, true)
    } else {
        let (so_far, ok) = optimize_upto(ops, k - 1);
        if ok {
            let (op, done) = optimize_one(ops[k - 1]);
            (so_far.update(k - 1, op), done)
        } else {
            (so_far, false)
        }
    }
}

/// A whole sequence as the optimizer leaves it, and whether it got through.
pub open spec fn optimized(ops: Seq<Instr>) -> (Seq<Instr>, bool) {
    optimize_upto(ops, ops.len() as int)
}

/// Once the optimizer has stopped, the sequence stays as it is.
proof fn lemma_stopped(ops: Seq<Instr>, i: int, k: int)
    requires
        0 <= i <= k <= ops.len(),
        !optimize_upto(ops, i).1,
    ensures
        optimize_upto(ops, k) == optimize_upto(ops, i),
    decreases k - i,
{
    if i < k {
        lemma_stopped(ops, i, k - 1);
    }
}

/// A finite map holds the single entry `0 => d` exactly when it has one key,
/// the key is 0, and `d` stands at it.
proof fn lemma_single_delta(deltas: Map<usize, u8>, d: u8)
    requires
        deltas.dom().finite(),
    ensures
        (deltas.len() == 1 && deltas.contains_key(0) && deltas[0] == d) <==> deltas
            == map![0usize => d],
{
    let single = map![0usize => d];
    assert(single.dom() =~= set![0usize]);
    if deltas.len() == 1 && deltas.contains_key(0) && deltas[0] == d {
        let rest = deltas.dom().remove(0);
        assert(rest.len() == 0);
        assert(rest =~= Set::<usize>::empty());
        assert forall|k: usize| deltas.contains_key(k) implies k == 0 by {
            if k != 0 {
                assert(rest.contains(k));
            }
        }
        assert(deltas =~= single);
    }
}

/// The model follows the replacement of one operation.
proof fn lemma_instrs_update(ops: Seq<Operation>, i: int, op: Operation)
    requires
        0 <= i < ops.len(),
    ensures
        instrs_of(ops.update(i, op)) == instrs_of(ops).update(i, instr_of(op)),
{
    assert(instrs_of(ops.update(i, op)) =~= instrs_of(ops).update(i, instr_of(op)));
}

/// Replaces every loop with a pure body by its closed form, in place, and
/// descends into the other loops.
///
/// Fails at the first loop that can never end; what comes before it is then
/// already optimized, what comes after it is untouched.
pub fn optimize(program: &mut Vec<Operation>) -> (res: Result<(), OptimizeError>)
    ensures
        instrs_of(final(program)@) == optimized(instrs_of(old(program)@)).0,
        res is Ok <==> optimized(instrs_of(old(program)@)).1,
    decreases *old(program),
{
    let ghost start = instrs_of(program@);
    let mut i: usize = 0;
    while i < program.len()
        invariant
            i <= program.len(),
            program.len() == old(program).len(),
            start == instrs_of(old(program)@),
            forall|j: int| i <= j < program.len() ==> program@[j] == old(program)@[j],
            optimize_upto(start, i as int) == (instrs_of(program@), true),
        decreases program.len() - i,
    {
        let ghost before = program@;
        proof {
            assert(start[i as int] == instr_of(before[i as int]));
            assert(instrs_of(before).update(i as int, start[i as int]) =~= instrs_of(before));
        }
        if let Operation::Loop(l) = &mut program[i] {
            let ghost body = *l;
            proof {
                assert(before[i as int] == Operation::Loop(body));
                lemma_instr_of_loop(body);
                assert(start[i as int] == Instr::Loop(instrs_of(body@)));
            }
            match pure_loop_effects(l) {
                Ok(Some(pl)) => {
                    let single = match pl.delta(0) {
                        Some(d) => d == 1 || d == 255,
                        None => false,
                    };
                    let count = pl.len();
                    proof {
                        lemma_single_delta(pl@.deltas, 1);
                        lemma_single_delta(pl@.deltas, 255);
                        assert(optimize_one(start[i as int]) == (replacement(pl@), true));
                    }
                    if pl.shift() == 0 && count == 1 && single {
                        proof {
                            lemma_instrs_update(before, i as int, Operation::Zero);
                            assert(replacement(pl@) == instr_of(Operation::Zero));
                        }
                        program[i] = Operation::Zero;
                    } else {
                        proof {
                            lemma_instrs_update(before, i as int, Operation::PureLoop(pl));
                            assert(replacement(pl@) == instr_of(Operation::PureLoop(pl)));
                        }
                        program[i] = Operation::PureLoop(pl);
                    }
                },
                Ok(None) => {
                    proof {
                        assert(decreases_to!(*old(program) => old(program)@[i as int]));
                        assert(decreases_to!(*old(program) => body));
                    }
                    let inner = optimize(l);
                    proof {
                        lemma_instr_of_loop(*l);
                        lemma_instrs_update(before, i as int, Operation::Loop(*l));
                        assert(optimize_one(start[i as int]) == (
                            Instr::Loop(instrs_of(l@)),
                            inner is Ok,
                        ));
                    }
                    match inner {
                        Ok(()) => {},
                        Err(e) => {
                            proof {
                                assert(program@ =~= before.update(i as int, Operation::Loop(*l)));
                                assert(optimize_upto(start, i + 1) == (
                                    instrs_of(program@),
                                    false,
                                ));
                                lemma_stopped(start, i + 1, start.len() as int);
                            }
                            return Err(e);
                        },
                    }
                },
                Err(e) => {
                    proof {
                        assert(program@ =~= before);
                        assert(optimize_one(start[i as int]) == (start[i as int], false));
                        assert(optimize_upto(start, i + 1) == (instrs_of(program@), false));
                        lemma_stopped(start, i + 1, start.len() as int);
                    }
                    return Err(e);
                },
            }
        } else {
            proof {
                assert(program@ =~= before);
                assert(!(start[i as int] is Loop));
                assert(optimize_one(start[i as int]) == (start[i as int], true));
            }
        }
        proof {
            assert(optimize_upto(start, i + 1).1);
            assert(optimize_upto(start, i + 1).0 == instrs_of(program@));
        }
        proof {
            assert(forall|j: int| i < j < program.len() ==> program@[j] == before[j]);
        }
        i += 1;
    }
    Ok(())
}

} // verus!
