//! The tape machine: what a program does, and the interpreter that does it.

use crate::effects::{replicated, Effects};
use crate::program::{instr_of, instrs_of, lemma_instr_of_loop, Instr, Operation};
use crate::tape::{advance, cell_at, TAPE_SIZE};
use vstd::prelude::*;

verus! {

/// The machine at one moment.
pub struct State {
    /// The cells.
    pub tape: Seq<u8>,
    /// Index of the current cell.
    pub pointer: int,
    /// The input bytes that have not been read yet.
    pub input: Seq<u8>,
    /// The bytes written so far.
    pub output: Seq<u8>,
}

/// How a run ended.
pub struct Run {
    /// The machine where the run ended.
    pub state: State,
    /// The loop passes that were still allowed when it ended.
    pub fuel: nat,
    /// Whether the program came to its end. If not, a loop was abandoned: it
    /// had no pass left, or it can never end.
    pub done: bool,
}

impl State {
    /// The tape has its size and the pointer stands on it.
    pub open spec fn wf(self) -> bool {
        self.tape.len() == TAPE_SIZE && 0 <= self.pointer < TAPE_SIZE
    }

    /// The value of the current cell.
    pub open spec fn cell(self) -> u8 {
        self.tape[self.pointer]
    }

    /// The same machine with another value in the current cell.
    pub open spec fn with_cell(self, value: u8) -> State {
        State { tape: self.tape.update(self.pointer, value), ..self }
    }

    /// `Add`: the current cell grows by `delta`, modulo 256.
    pub open spec fn add(self, delta: u8) -> State {
        self.with_cell(self.cell().wrapping_add(delta))
    }

    /// `Shift`: the pointer moves by the signed offset, modulo the tape size.
    pub open spec fn shift(self, word: usize) -> State {
        State { pointer: cell_at(self.pointer, word), ..self }
    }

    /// `Read`: the next input byte goes to the current cell. At the end of the
    /// input the cell keeps its value.
    pub open spec fn read(self) -> State {
        if self.input.len() > 0 {
            State { input: self.input.drop_first(), ..self.with_cell(self.input[0]) }
        } else {
            self
        }
    }

    /// `Write`: the current cell is appended to the output.
    pub open spec fn write(self) -> State {
        State { output: self.output.push(self.cell()), ..self }
    }

    /// One pass of a pure loop body with these effects.
    pub open spec fn pass(self, effects: Effects) -> State {
        State {
            tape: replicated(self.tape, self.pointer, effects.deltas, 1),
            pointer: cell_at(self.pointer, effects.shift),
            ..self
        }
    }
}

/// After `reps` passes that each add `incr`, a cell that held `cell` is zero.
pub open spec fn zeroes(incr: u8, cell: u8, reps: int) -> bool {
    (cell + reps * incr) % 256 == 0
}

/// `reps` is the number of passes after which a loop that adds `incr` to its
/// tested cell on each pass leaves: the smallest count that makes the cell zero.
pub open spec fn is_repetitions(incr: u8, cell: u8, reps: int) -> bool {
    &&& 0 <= reps < 256
    &&& zeroes(incr, cell, reps)
    &&& forall|fewer: int| 0 <= fewer < reps ==> !zeroes(incr, cell, fewer)
}

/// The number of passes that such a loop makes, if it ever leaves.
pub open spec fn repetitions(incr: u8, cell: u8) -> Option<int> {
    if exists|reps: int| is_repetitions(incr, cell, reps) {
        Some(choose|reps: int| is_repetitions(incr, cell, reps))
    } else {
        None
    }
}

/// What a stationary loop adds to its tested cell on each pass.
pub open spec fn increment(effects: Effects) -> u8 {
    if effects.deltas.contains_key(0) {
        effects.deltas[0]
    } else {
        0
    }
}

/// A loop that moves the pointer on each pass: pass by pass while the current
/// cell is nonzero, each pass at the cost of one unit of fuel.
pub open spec fn march(effects: Effects, st: State, fuel: nat) -> Run
    decreases fuel,
{
    if st.cell() == 0 {
        Run { state: st, fuel, done: true }
    } else if fuel == 0 {
        Run { state: st, fuel, done: false }
    } else {
        march(effects, st.pass(effects), (fuel - 1) as nat)
    }
}

/// The closed form of a pure loop. A loop that stays in place makes all its
/// passes in one step and needs no fuel; one that can never end is abandoned.
pub open spec fn run_replicated(effects: Effects, st: State, fuel: nat) -> Run {
    if effects.shift == 0 {
        match repetitions(increment(effects), st.cell()) {
            Some(reps) => Run {
                state: State {
                    tape: replicated(st.tape, st.pointer, effects.deltas, reps),
                    ..st
                },
                fuel,
                done: true,
            },
            None => Run { state: st, fuel, done: false },
        }
    } else {
        march(effects, st, fuel)
    }
}

/// What one instruction does.
pub open spec fn run_instr(op: Instr, st: State, fuel: nat) -> Run
    decreases fuel, op, 0int,
{
    match op {
        Instr::Add(delta) => Run { state: st.add(delta), fuel, done: true },
        Instr::Shift(word) => Run { state: st.shift(word), fuel, done: true },
        Instr::Loop(body) => run_while(body, st, fuel),
        Instr::Replicated(effects) => run_replicated(effects, st, fuel),
        Instr::Zero => Run { state: st.with_cell(0), fuel, done: true },
        Instr::Read => Run { state: st.read(), fuel, done: true },
        Instr::Write => Run { state: st.write(), fuel, done: true },
    }
}

/// What the instructions of `ops` from index `i` on do, one after the other,
/// up to the first that does not come to its end.
pub open spec fn run_from(ops: Seq<Instr>, i: int, st: State, fuel: nat) -> Run
    decreases fuel, ops, ops.len() - i,
{
    if i < 0 || i >= ops.len() {
        Run { state: st, fuel, done: true }
    } else {
        let first = run_instr(ops[i], st, fuel);
        if first.done && first.fuel <= fuel {
            run_from(ops, i + 1, first.state, first.fuel)
        } else {
            first
        }
    }
}

/// What a loop does: its body again and again while the current cell is
/// nonzero, tested before every pass, each pass at the cost of one unit of
/// fuel.
pub open spec fn run_while(body: Seq<Instr>, st: State, fuel: nat) -> Run
    decreases fuel, body, body.len() + 1,
{
    if st.cell() == 0 {
        Run { state: st, fuel, done: true }
    } else if fuel == 0 {
        Run { state: st, fuel, done: false }
    } else {
        let pass = run_from(body, 0, st, (fuel - 1) as nat);
        if pass.done && pass.fuel < fuel {
            run_while(body, pass.state, pass.fuel)
        } else {
            pass
        }
    }
}

/// What a whole program does.
pub open spec fn run(ops: Seq<Instr>, st: State, fuel: nat) -> Run {
    run_from(ops, 0, st, fuel)
}

/// The machine before the first instruction: every cell zero, the pointer on
/// the first cell, nothing read and nothing written.
pub open spec fn initial(input: Seq<u8>) -> State {
    State {
        tape: Seq::new(TAPE_SIZE as nat, |c: int| 0u8),
        pointer: 0,
        input,
        output: Seq::empty(),
    }
}

/// A marching loop gives no fuel back.
pub proof fn lemma_march_fuel(effects: Effects, st: State, fuel: nat)
    ensures
        march(effects, st, fuel).fuel <= fuel,
    decreases fuel,
{
    if st.cell() != 0 && fuel > 0 {
        lemma_march_fuel(effects, st.pass(effects), (fuel - 1) as nat);
    }
}

/// An instruction gives no fuel back.
pub proof fn lemma_instr_fuel(op: Instr, st: State, fuel: nat)
    ensures
        run_instr(op, st, fuel).fuel <= fuel,
    decreases fuel, op, 0int,
{
    match op {
        Instr::Loop(body) => {
            lemma_while_fuel(body, st, fuel);
        },
        Instr::Replicated(effects) => {
            lemma_march_fuel(effects, st, fuel);
        },
        _ => {},
    }
}

/// A sequence gives no fuel back.
pub proof fn lemma_from_fuel(ops: Seq<Instr>, i: int, st: State, fuel: nat)
    ensures
        run_from(ops, i, st, fuel).fuel <= fuel,
    decreases fuel, ops, ops.len() - i,
{
    if 0 <= i < ops.len() {
        lemma_instr_fuel(ops[i], st, fuel);
        let first = run_instr(ops[i], st, fuel);
        if first.done {
            lemma_from_fuel(ops, i + 1, first.state, first.fuel);
        }
    }
}

/// A loop gives no fuel back.
pub proof fn lemma_while_fuel(body: Seq<Instr>, st: State, fuel: nat)
    ensures
        run_while(body, st, fuel).fuel <= fuel,
    decreases fuel, body, body.len() + 1,
{
    if st.cell() != 0 && fuel > 0 {
        lemma_from_fuel(body, 0, st, (fuel - 1) as nat);
        let pass = run_from(body, 0, st, (fuel - 1) as nat);
        if pass.done {
            lemma_while_fuel(body, pass.state, pass.fuel);
        }
    }
}

/// A marching loop leaves the tape its size and the pointer on it.
pub proof fn lemma_march_wf(effects: Effects, st: State, fuel: nat)
    requires
        st.wf(),
    ensures
        march(effects, st, fuel).state.wf(),
    decreases fuel,
{
    if st.cell() != 0 && fuel > 0 {
        lemma_march_wf(effects, st.pass(effects), (fuel - 1) as nat);
    }
}

/// An instruction leaves the tape its size and the pointer on it.
pub proof fn lemma_instr_wf(op: Instr, st: State, fuel: nat)
    requires
        st.wf(),
    ensures
        run_instr(op, st, fuel).state.wf(),
    decreases fuel, op, 0int,
{
    match op {
        Instr::Loop(body) => {
            lemma_while_wf(body, st, fuel);
        },
        Instr::Replicated(effects) => {
            lemma_march_wf(effects, st, fuel);
        },
        _ => {},
    }
}

/// A sequence leaves the tape its size and the pointer on it.
pub proof fn lemma_from_wf(ops: Seq<Instr>, i: int, st: State, fuel: nat)
    requires
        st.wf(),
    ensures
        run_from(ops, i, st, fuel).state.wf(),
    decreases fuel, ops, ops.len() - i,
{
    if 0 <= i < ops.len() {
        lemma_instr_wf(ops[i], st, fuel);
        lemma_instr_fuel(ops[i], st, fuel);
        let first = run_instr(ops[i], st, fuel);
        if first.done {
            lemma_from_wf(ops, i + 1, first.state, first.fuel);
        }
    }
}

/// A loop leaves the tape its size and the pointer on it.
pub proof fn lemma_while_wf(body: Seq<Instr>, st: State, fuel: nat)
    requires
        st.wf(),
    ensures
        run_while(body, st, fuel).state.wf(),
    decreases fuel, body, body.len() + 1,
{
    if st.cell() != 0 && fuel > 0 {
        lemma_from_wf(body, 0, st, (fuel - 1) as nat);
        lemma_from_fuel(body, 0, st, (fuel - 1) as nat);
        let pass = run_from(body, 0, st, (fuel - 1) as nat);
        if pass.done {
            lemma_while_wf(body, pass.state, pass.fuel);
        }
    }
}

/// A sequence does its first instruction and then the rest.
pub proof fn lemma_run_from_unfold(ops: Seq<Instr>, i: int, st: State, fuel: nat)
    requires
        0 <= i < ops.len(),
    ensures
        run_from(ops, i, st, fuel) == if run_instr(ops[i], st, fuel).done {
            run_from(
                ops,
                i + 1,
                run_instr(ops[i], st, fuel).state,
                run_instr(ops[i], st, fuel).fuel,
            )
        } else {
            run_instr(ops[i], st, fuel)
        },
{
    lemma_instr_fuel(ops[i], st, fuel);
}

/// A loop that is entered makes one pass and then goes on as a loop.
pub proof fn lemma_run_while_unfold(body: Seq<Instr>, st: State, fuel: nat)
    requires
        st.cell() != 0,
        fuel > 0,
    ensures
        run_while(body, st, fuel) == if run_from(body, 0, st, (fuel - 1) as nat).done {
            run_while(
                body,
                run_from(body, 0, st, (fuel - 1) as nat).state,
                run_from(body, 0, st, (fuel - 1) as nat).fuel,
            )
        } else {
            run_from(body, 0, st, (fuel - 1) as nat)
        },
{
    lemma_from_fuel(body, 0, st, (fuel - 1) as nat);
}

/// The two ends of the machine that carry bytes: what it reads and what it
/// writes.
pub struct Console {
    /// All the input.
    pub input: Vec<u8>,
    /// Number of input bytes read so far.
    pub position: usize,
    /// The bytes written so far.
    pub output: Vec<u8>,
}

impl Console {
    /// The input bytes that have not been read yet.
    pub open spec fn unread(&self) -> Seq<u8> {
        if self.position <= self.input.len() {
            self.input@.skip(self.position as int)
        } else {
            Seq::empty()
        }
    }

    /// A console with this input, nothing read and nothing written.
    pub fn new(input: Vec<u8>) -> (console: Console)
        ensures
            console.input == input,
            console.position == 0,
            console.unread() == input@,
            console.output@ == Seq::<u8>::empty(),
    {
        let console = Console { input, position: 0, output: Vec::new() };
        proof {
            assert(console.unread() =~= input@);
        }
        console
    }

    /// Takes the next input byte, if there is one.
    pub fn read(&mut self) -> (byte: Option<u8>)
        ensures
            final(self).input == old(self).input,
            final(self).output == old(self).output,
            match byte {
                Some(b) => old(self).unread().len() > 0 && b == old(self).unread()[0]
                    && final(self).unread() == old(self).unread().drop_first(),
                None => old(self).unread().len() == 0 && final(self).unread() == old(
                    self,
                ).unread(),
            },
    {
        if self.position < self.input.len() {
            let b = self.input[self.position];
            proof {
                assert(self.input@.skip(self.position + 1) =~= self.input@.skip(
                    self.position as int,
                ).drop_first());
            }
            self.position += 1;
            Some(b)
        } else {
            None
        }
    }

    /// Appends a byte to the output.
    pub fn write(&mut self, byte: u8)
        ensures
            final(self).input == old(self).input,
            final(self).position == old(self).position,
            final(self).unread() == old(self).unread(),
            final(self).output@ == old(self).output@.push(byte),
    {
        self.output.push(byte);
    }
}

/// The machine that the interpreter's variables hold.
pub open spec fn state_of(tape: Seq<u8>, pointer: usize, console: Console) -> State {
    State { tape, pointer: pointer as int, input: console.unread(), output: console.output@ }
}

/// The number of passes after which a loop that adds `incr` to its tested cell
/// on each pass leaves, if it ever does.
pub fn count_repetitions(incr: u8, cell: u8) -> (reps: Option<u8>)
    ensures
        match reps {
            Some(r) => repetitions(incr, cell) == Some(r as int),
            None => repetitions(incr, cell) is None,
        },
{
    let expected = 0u8.wrapping_sub(cell);
    let mut reps: u8 = 0;
    loop
        invariant
            expected == 0u8.wrapping_sub(cell),
            forall|fewer: int| 0 <= fewer < reps ==> !zeroes(incr, cell, fewer),
        decreases 255 - reps,
    {
        proof {
            let product = reps as int * incr as int;
            assert(0 <= product) by (nonlinear_arith)
                requires
                    product == reps as int * incr as int,
                    0 <= reps,
                    0 <= incr,
            ;
            assert(reps.wrapping_mul(incr) == (product % 256) as u8);
            assert((reps.wrapping_mul(incr) == expected) <==> zeroes(incr, cell, reps as int));
        }
        if reps.wrapping_mul(incr) == expected {
            proof {
                assert(is_repetitions(incr, cell, reps as int));
                let chosen = choose|r: int| is_repetitions(incr, cell, r);
                assert(is_repetitions(incr, cell, chosen));
                assert(chosen == reps);
            }
            return Some(reps);
        }
        if reps == u8::MAX {
            proof {
                assert forall|r: int| !is_repetitions(incr, cell, r) by {}
            }
            return None;
        }
        reps += 1;
    }
}

/// Runs a program on a machine, or a loop body while the current cell is
/// nonzero (`actually_loop`).
///
/// Every pass of a loop takes one unit of `fuel`, except for the passes of a
/// pure loop that stays in place, which are made in one step. Returns whether
/// the program came to its end; if not, a loop was abandoned and the machine
/// is left as it was then.
pub fn run_loop(
    program: &Vec<Operation>,
    tape: &mut [u8],
    pointer: &mut usize,
    actually_loop: bool,
    console: &mut Console,
    fuel: &mut u64,
) -> (done: bool)
    requires
        old(tape).len() == TAPE_SIZE,
        *old(pointer) < TAPE_SIZE,
    ensures
        ({
            let before = state_of(old(tape)@, *old(pointer), *old(console));
            let run = if actually_loop {
                run_while(instrs_of(program@), before, *old(fuel) as nat)
            } else {
                run(instrs_of(program@), before, *old(fuel) as nat)
            };
            &&& done == run.done
            &&& state_of(final(tape)@, *final(pointer), *final(console)) == run.state
            &&& *final(fuel) == run.fuel
        }),
        final(tape).len() == TAPE_SIZE,
        *final(pointer) < TAPE_SIZE,
        final(console).input == old(console).input,
    decreases program,
{
    let ghost ops = instrs_of(program@);
    let ghost goal = if actually_loop {
        run_while(ops, state_of(tape@, *pointer, *console), *fuel as nat)
    } else {
        run(ops, state_of(tape@, *pointer, *console), *fuel as nat)
    };
    loop
        invariant
            ops == instrs_of(program@),
            tape.len() == TAPE_SIZE,
            *pointer < TAPE_SIZE,
            console.input == old(console).input,
            goal == if actually_loop {
                run_while(
                    ops,
                    state_of(old(tape)@, *old(pointer), *old(console)),
                    *old(fuel) as nat,
                )
            } else {
                run(ops, state_of(old(tape)@, *old(pointer), *old(console)), *old(fuel) as nat)
            },
            goal == if actually_loop {
                run_while(ops, state_of(tape@, *pointer, *console), *fuel as nat)
            } else {
                run(ops, state_of(tape@, *pointer, *console), *fuel as nat)
            },
        decreases *fuel,
    {
        let ghost budget = *fuel;
        if actually_loop {
            if tape[*pointer] == 0 {
                return true;
            }
            if *fuel == 0 {
                return false;
            }
            proof {
                lemma_run_while_unfold(ops, state_of(tape@, *pointer, *console), *fuel as nat);
            }
            *fuel -= 1;
        }
        let ghost pass = run(ops, state_of(tape@, *pointer, *console), *fuel as nat);
        let mut i: usize = 0;
        while i < program.len()
            invariant
                ops == instrs_of(program@),
                i <= program.len(),
                tape.len() == TAPE_SIZE,
                *pointer < TAPE_SIZE,
                console.input == old(console).input,
                actually_loop ==> *fuel < budget,
                goal == if actually_loop {
                    run_while(
                        ops,
                        state_of(old(tape)@, *old(pointer), *old(console)),
                        *old(fuel) as nat,
                    )
                } else {
                    run(
                        ops,
                        state_of(old(tape)@, *old(pointer), *old(console)),
                        *old(fuel) as nat,
                    )
                },
                goal == if actually_loop && pass.done {
                    run_while(ops, pass.state, pass.fuel)
                } else {
                    pass
                },
                pass == run_from(ops, i as int, state_of(tape@, *pointer, *console), *fuel as nat),
            decreases program.len() - i,
        {
            let ghost st = state_of(tape@, *pointer, *console);
            let ghost entry = *fuel;
            proof {
                lemma_run_from_unfold(ops, i as int, st, *fuel as nat);
                lemma_instr_fuel(ops[i as int], st, *fuel as nat);
                assert(ops[i as int] == instr_of(program@[i as int]));
            }
            match &program[i] {
                Operation::Add(a) => {
                    let value = tape[*pointer].wrapping_add(*a);
                    tape[*pointer] = value;
                },
                Operation::Shift(s) => {
                    *pointer = advance(*pointer, *s);
                },
                Operation::Loop(the_loop) => {
                    proof {
                        lemma_instr_of_loop(*the_loop);
                    }
                    if !run_loop(the_loop, tape, pointer, true, console, fuel) {
                        return false;
                    }
                },
                Operation::PureLoop(pl) => {
                    if pl.shift() == 0 {
                        let incr = match pl.delta(0) {
                            Some(d) => d,
                            None => 0,
                        };
                        match count_repetitions(incr, tape[*pointer]) {
                            Some(reps) => {
                                pl.apply(tape, *pointer, reps);
                            },
                            None => {
                                return false;
                            },
                        }
                    } else {
                        let ghost whole = run_instr(Instr::Replicated(pl@), st, entry as nat);
                        while tape[*pointer] != 0
                            invariant
                                tape.len() == TAPE_SIZE,
                                *pointer < TAPE_SIZE,
                                console.input == old(console).input,
                                ops == instrs_of(program@),
                                pl@.shift != 0,
                                *fuel <= entry,
                                goal == if actually_loop {
                                    run_while(
                                        ops,
                                        state_of(old(tape)@, *old(pointer), *old(console)),
                                        *old(fuel) as nat,
                                    )
                                } else {
                                    run(
                                        ops,
                                        state_of(old(tape)@, *old(pointer), *old(console)),
                                        *old(fuel) as nat,
                                    )
                                },
                                !whole.done ==> goal == whole,
                                whole == march(
                                    pl@,
                                    state_of(tape@, *pointer, *console),
                                    *fuel as nat,
                                ),
                            decreases *fuel,
                        {
                            let ghost here = state_of(tape@, *pointer, *console);
                            proof {
                                assert(here.cell() != 0);
                            }
                            if *fuel == 0 {
                                proof {
                                    assert(whole == Run { state: here, fuel: 0, done: false });
                                }
                                return false;
                            }
                            *fuel -= 1;
                            pl.apply(tape, *pointer, 1);
                            *pointer = advance(*pointer, pl.shift());
                        }
                    }
                },
                Operation::Zero => {
                    tape[*pointer] = 0;
                },
                Operation::Read => {
                    if let Some(byte) = console.read() {
                        tape[*pointer] = byte;
                    }
                },
                Operation::Write => {
                    console.write(tape[*pointer]);
                },
            }
            i += 1;
        }
        if !actually_loop {
            return true;
        }
    }
}

/// What a run of a whole program left behind.
pub struct Report {
    /// The bytes that the program wrote.
    pub output: Vec<u8>,
    /// Whether the program came to its end.
    pub completed: bool,
}

/// Runs a program from a fresh machine on the given input, with `fuel` loop
/// passes allowed.
pub fn run_program(program: &Vec<Operation>, input: Vec<u8>, fuel: u64) -> (report: Report)
    ensures
        report.completed == run(instrs_of(program@), initial(input@), fuel as nat).done,
        report.output@ == run(instrs_of(program@), initial(input@), fuel as nat).state.output,
{
    let mut tape: Vec<u8> = vec![0u8; TAPE_SIZE];
    let mut pointer: usize = 0;
    let mut console = Console::new(input);
    let mut fuel = fuel;
    proof {
        assert(tape@ =~= initial(input@).tape);
    }
    let completed = run_loop(
        program,
        tape.as_mut_slice(),
        &mut pointer,
        false,
        &mut console,
        &mut fuel,
    );
    Report { output: console.output, completed }
}

} // verus!
