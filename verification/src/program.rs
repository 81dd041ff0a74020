//! Program representation: the executable tree and its mathematical model.

use crate::effects::{Effects, PureLoop};
use vstd::prelude::*;

verus! {

/// The mathematical model of one operation.
pub enum Instr {
    /// Add the delta to the current cell, modulo 256.
    Add(u8),
    /// Move the pointer by the signed offset that the word encodes in two's
    /// complement, modulo the tape size.
    Shift(usize),
    /// Repeat the body while the current cell is nonzero.
    Loop(Seq<Instr>),
    /// A loop whose body was found pure: the pointer's net move and the net
    /// delta per relative offset of one pass.
    Replicated(Effects),
    /// Set the current cell to zero.
    Zero,
    /// Store one input byte in the current cell.
    Read,
    /// Emit the current cell.
    Write,
}

/// One operation of a program. A program is a sequence of operations, and so
/// is the body of a loop.
#[derive(Debug, PartialEq, Eq)]
pub enum Operation {
    /// Add the delta to the current cell, modulo 256.
    Add(u8),
    /// Move the pointer by a signed offset, given in two's complement, modulo
    /// the tape size.
    Shift(usize),
    /// Repeat the body while the current cell is nonzero.
    Loop(Vec<Operation>),
    /// A loop with a pure body, reduced to the effects of one pass.
    PureLoop(PureLoop),
    /// Set the current cell to zero.
    Zero,
    /// Store one input byte in the current cell.
    Read,
    /// Emit the current cell.
    Write,
}

/// The model of a single operation.
pub open spec fn instr_of(op: Operation) -> Instr
    decreases op,
{
    match op {
        Operation::Add(a) => Instr::Add(a),
        Operation::Shift(s) => Instr::Shift(s),
        Operation::Loop(body) => Instr::Loop(
            Seq::new(
                body@.len(),
                |i: int|
                    if 0 <= i < body@.len() {
                        instr_of(body@[i])
                    } else {
                        Instr::Zero
                    },
            ),
        ),
        Operation::PureLoop(pure_loop) => Instr::Replicated(pure_loop@),
        Operation::Zero => Instr::Zero,
        Operation::Read => Instr::Read,
        Operation::Write => Instr::Write,
    }
}

/// The model of a sequence of operations, element by element.
pub open spec fn instrs_of(ops: Seq<Operation>) -> Seq<Instr> {
    Seq::new(ops.len(), |i: int| instr_of(ops[i]))
}

/// The model of a loop is the loop of its body's model.
pub proof fn lemma_instr_of_loop(body: Vec<Operation>)
    ensures
        instr_of(Operation::Loop(body)) == Instr::Loop(instrs_of(body@)),
{
    let model = instr_of(Operation::Loop(body));
    assert(model is Loop);
    assert(model->Loop_0 =~= instrs_of(body@));
}

/// The model follows a push.
pub proof fn lemma_instrs_push(ops: Seq<Operation>, op: Operation)
    ensures
        instrs_of(ops.push(op)) == instrs_of(ops).push(instr_of(op)),
{
    assert(instrs_of(ops.push(op)) =~= instrs_of(ops).push(instr_of(op)));
}

} // verus!
