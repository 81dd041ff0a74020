//! Bracket balance: every pair of brackets of a well-nested text is one loop
//! of its program.

use crate::parser::{
    add_instr, add_run, body_len, bracket, count, depth, instructions_from, is_add,
    is_instruction, is_shift, lemma_add_run_bound, lemma_body_len, lemma_body_len_deeper,
    lemma_closes_unopened, lemma_count_concat, lemma_shift_run_bound, net_add, net_shift, parsed,
    shift_instr, shift_run, well_nested,
};
use crate::program::Instr;
use vstd::prelude::*;

verus! {

/// Number of loops in an instruction, itself and the loops inside it counted.
pub open spec fn loops_in(op: Instr) -> nat
    decreases op, 0int,
{
    match op {
        Instr::Loop(body) => 1 + loops_from(body, 0),
        _ => 0,
    }
}

/// Number of loops in the instructions of `ops` from index `i` on.
pub open spec fn loops_from(ops: Seq<Instr>, i: int) -> nat
    decreases ops, ops.len() - i,
{
    if i < 0 || i >= ops.len() {
        0
    } else {
        loops_in(ops[i]) + loops_from(ops, i + 1)
    }
}

/// Number of loops in a program, at every depth.
pub open spec fn loops(ops: Seq<Instr>) -> nat {
    loops_from(ops, 0)
}

/// Behind a first instruction, the loops are counted as without it.
proof fn lemma_loops_behind(op: Instr, rest: Seq<Instr>, i: int)
    requires
        0 <= i <= rest.len(),
    ensures
        loops_from(seq![op] + rest, i + 1) == loops_from(rest, i),
    decreases rest.len() - i,
{
    let all = seq![op] + rest;
    if i < rest.len() {
        lemma_loops_behind(op, rest, i + 1);
        assert(all[i + 1] == rest[i]);
    }
}

/// The loops of a sequence are those of its first instruction and those of
/// the rest.
proof fn lemma_loops_cons(op: Instr, rest: Seq<Instr>)
    ensures
        loops(seq![op] + rest) == loops_in(op) + loops(rest),
{
    lemma_loops_behind(op, rest, 0);
    assert((seq![op] + rest)[0] == op);
}

/// Between `i` and the end of the run that it stands in, no bracket occurs:
/// the body goes on behind the run.
proof fn lemma_run_in_body(src: Seq<char>, i: int, end: int)
    requires
        0 <= i <= end <= src.len(),
        forall|k: int| i <= k < end ==> #[trigger] bracket(src[k]) == 0,
    ensures
        body_len(src, i, 0) == (end - i) + body_len(src, end, 0),
        count(src.subrange(i, end), '[') == 0,
    decreases end - i,
{
    if i < end {
        assert(bracket(src[i]) == 0);
        lemma_run_in_body(src, i + 1, end);
        assert(src.subrange(i, end).drop_first() =~= src.subrange(i + 1, end));
        assert(src.subrange(i, end)[0] == src[i]);
    } else {
        assert(src.subrange(i, end) =~= Seq::<char>::empty());
    }
}

/// The characters of a run of `+`/`-` are no brackets.
proof fn lemma_add_run_plain(src: Seq<char>, i: int)
    requires
        0 <= i <= src.len(),
    ensures
        forall|k: int| i <= k < i + add_run(src, i) ==> #[trigger] bracket(src[k]) == 0,
    decreases src.len() - i,
{
    if i < src.len() && !(is_instruction(src[i]) && !is_add(src[i])) {
        lemma_add_run_plain(src, i + 1);
    }
}

/// The characters of a run of `<`/`>` are no brackets.
proof fn lemma_shift_run_plain(src: Seq<char>, i: int)
    requires
        0 <= i <= src.len(),
    ensures
        forall|k: int| i <= k < i + shift_run(src, i) ==> #[trigger] bracket(src[k]) == 0,
    decreases src.len() - i,
{
    if i < src.len() && !(is_instruction(src[i]) && !is_shift(src[i])) {
        lemma_shift_run_plain(src, i + 1);
    }
}

/// The `[` of a stretch are its first character, if it is one, and those of
/// the two parts behind it.
proof fn lemma_count_parts(src: Seq<char>, i: int, mid: int, end: int)
    requires
        0 <= i <= mid <= end <= src.len(),
    ensures
        count(src.subrange(i, end), '[') == count(src.subrange(i, mid), '[') + count(
            src.subrange(mid, end),
            '[',
        ),
{
    assert(src.subrange(i, end) =~= src.subrange(i, mid) + src.subrange(mid, end));
    lemma_count_concat(src.subrange(i, mid), src.subrange(mid, end), '[');
}

/// The `[` of a stretch of one character.
proof fn lemma_count_one(src: Seq<char>, i: int)
    requires
        0 <= i < src.len(),
    ensures
        count(src.subrange(i, i + 1), '[') == if src[i] == '[' {
            1int
        } else {
            0int
        },
{
    let one = src.subrange(i, i + 1);
    assert(one[0] == src[i]);
    assert(one.drop_first() =~= Seq::<char>::empty());
    assert(count(one.drop_first(), '[') == 0);
}

/// The instructions of a body hold one loop for every `[` of the body.
pub proof fn lemma_loops_of_body(src: Seq<char>, i: int)
    requires
        0 <= i <= src.len(),
    ensures
        loops(instructions_from(src, i)) == count(
            src.subrange(i, i + body_len(src, i, 0)),
            '[',
        ),
    decreases src.len() - i,
{
    let end = i + body_len(src, i, 0);
    lemma_body_len(src, i, 0);
    if i >= src.len() || src[i] == ']' {
        assert(src.subrange(i, end) =~= Seq::<char>::empty());
    } else {
        let c = src[i];
        lemma_count_one(src, i);
        lemma_count_parts(src, i, i + 1, end);
        if c == '[' {
            let close = i + 1 + body_len(src, i + 1, 0);
            lemma_body_len(src, i + 1, 0);
            lemma_body_len_deeper(src, i + 1, 0);
            lemma_loops_of_body(src, i + 1);
            let inner = instructions_from(src, i + 1);
            let rest = instructions_from(src, close + 1);
            lemma_loops_cons(Instr::Loop(inner), rest);
            if close < src.len() {
                lemma_loops_of_body(src, close + 1);
                lemma_count_parts(src, i + 1, close, end);
                lemma_count_parts(src, close, close + 1, end);
                lemma_count_one(src, close);
            } else {
                assert(rest =~= Seq::<Instr>::empty());
            }
        } else if c == ',' || c == '.' {
            lemma_loops_of_body(src, i + 1);
            let op = if c == ',' {
                Instr::Read
            } else {
                Instr::Write
            };
            lemma_loops_cons(op, instructions_from(src, i + 1));
        } else if is_add(c) {
            let stop = i + 1 + add_run(src, i + 1);
            lemma_add_run_bound(src, i + 1);
            lemma_add_run_plain(src, i + 1);
            lemma_run_in_body(src, i + 1, stop);
            lemma_loops_of_body(src, stop);
            lemma_count_parts(src, i + 1, stop, end);
            let n = net_add(src, i, stop);
            if n != 0 {
                lemma_loops_cons(Instr::Add(n), instructions_from(src, stop));
            } else {
                assert(add_instr(n) + instructions_from(src, stop) =~= instructions_from(
                    src,
                    stop,
                ));
            }
        } else if is_shift(c) {
            let stop = i + 1 + shift_run(src, i + 1);
            lemma_shift_run_bound(src, i + 1);
            lemma_shift_run_plain(src, i + 1);
            lemma_run_in_body(src, i + 1, stop);
            lemma_loops_of_body(src, stop);
            lemma_count_parts(src, i + 1, stop, end);
            let n = net_shift(src, i, stop);
            if n != 0 {
                lemma_loops_cons(Instr::Shift(n), instructions_from(src, stop));
            } else {
                assert(shift_instr(n) + instructions_from(src, stop) =~= instructions_from(
                    src,
                    stop,
                ));
            }
        } else {
            lemma_loops_of_body(src, i + 1);
        }
    }
}

/// The program of a well-nested text has as many loops as the text has `[`,
/// and as it has `]`.
pub proof fn lemma_loops_match_brackets(src: Seq<char>)
    requires
        well_nested(src),
    ensures
        loops(parsed(src)) == count(src, '['),
        loops(parsed(src)) == count(src, ']'),
{
    lemma_closes_unopened(src);
    lemma_body_len(src, 0, 0);
    lemma_loops_of_body(src, 0);
    assert(body_len(src, 0, 0) == src.len());
    assert(src.subrange(0, 0int + body_len(src, 0, 0)) =~= src);
}

} // verus!
