//! Run-length folding: what a run of like instructions parses to.

use crate::parser::{
    add_instr, add_run, body_len, count, instructions_from, is_add, is_instruction, is_shift,
    lemma_add_run_bound, lemma_body_len, lemma_resume_add_zero, lemma_resume_shift_zero,
    lemma_shift_run_bound, net_add, net_shift, parsed, shift_instr, shift_run,
};
use crate::program::Instr;
use vstd::arithmetic::div_mod::{lemma_fundamental_div_mod, lemma_fundamental_div_mod_converse};
use vstd::prelude::*;

verus! {

/// Number of values that a pointer offset can take.
pub open spec fn offsets() -> int {
    usize::MAX as int + 1
}

/// The net count of a run of `+`/`-` as the parser folds it: the number of
/// `+` less the number of `-`, modulo 256.
pub open spec fn folded_add(run: Seq<char>) -> u8 {
    ((count(run, '+') - count(run, '-')) % 256) as u8
}

/// The net count of a run of `<`/`>` as the parser folds it: the number of
/// `>` less the number of `<`, modulo the number of offsets.
pub open spec fn folded_shift(run: Seq<char>) -> usize {
    ((count(run, '>') - count(run, '<')) % offsets()) as usize
}

/// In a text without instructions of another kind, a run of `+`/`-` reaches to
/// the end.
proof fn lemma_add_run_whole(src: Seq<char>, i: int)
    requires
        0 <= i <= src.len(),
        forall|k: int| 0 <= k < src.len() ==> is_add(#[trigger] src[k]) || !is_instruction(src[k]),
    ensures
        i + add_run(src, i) == src.len(),
    decreases src.len() - i,
{
    if i < src.len() {
        lemma_add_run_whole(src, i + 1);
    }
}

/// In a text without instructions of another kind, a run of `<`/`>` reaches to
/// the end.
proof fn lemma_shift_run_whole(src: Seq<char>, i: int)
    requires
        0 <= i <= src.len(),
        forall|k: int|
            0 <= k < src.len() ==> is_shift(#[trigger] src[k]) || !is_instruction(src[k]),
    ensures
        i + shift_run(src, i) == src.len(),
    decreases src.len() - i,
{
    if i < src.len() {
        lemma_shift_run_whole(src, i + 1);
    }
}

/// The wrapping sum of a stretch is its net count modulo 256.
proof fn lemma_net_add_counts(src: Seq<char>, i: int)
    requires
        0 <= i <= src.len(),
    ensures
        net_add(src, i, src.len() as int) == folded_add(src.skip(i)),
    decreases src.len() - i,
{
    let rest = src.skip(i);
    if i < src.len() {
        lemma_net_add_counts(src, i + 1);
        assert(rest.drop_first() =~= src.skip(i + 1));
        assert(rest[0] == src[i]);
    }
}

/// One more or one less, modulo `m`.
proof fn lemma_mod_neighbours(n: int, m: int)
    requires
        m > 1,
    ensures
        (n + 1) % m == if n % m + 1 == m {
            0
        } else {
            n % m + 1
        },
        (n - 1) % m == if n % m == 0 {
            m - 1
        } else {
            n % m - 1
        },
        0 <= n % m < m,
{
    lemma_fundamental_div_mod(n, m);
    let q = n / m;
    let r = n % m;
    assert(0 <= r < m) by (nonlinear_arith)
        requires
            r == n % m,
            m > 1,
    ;
    assert((q + 1) * m == q * m + m) by (nonlinear_arith);
    assert((q - 1) * m == q * m - m) by (nonlinear_arith);
    assert(m * q == q * m) by (nonlinear_arith);
    if r + 1 == m {
        lemma_fundamental_div_mod_converse(n + 1, m, q + 1, 0);
    } else {
        lemma_fundamental_div_mod_converse(n + 1, m, q, r + 1);
    }
    if r == 0 {
        lemma_fundamental_div_mod_converse(n - 1, m, q - 1, m - 1);
    } else {
        lemma_fundamental_div_mod_converse(n - 1, m, q, r - 1);
    }
}

/// The wrapping sum of a stretch is its net count modulo the number of offsets.
proof fn lemma_net_shift_counts(src: Seq<char>, i: int)
    requires
        0 <= i <= src.len(),
    ensures
        net_shift(src, i, src.len() as int) == folded_shift(src.skip(i)),
    decreases src.len() - i,
{
    let rest = src.skip(i);
    if i < src.len() {
        lemma_net_shift_counts(src, i + 1);
        assert(rest.drop_first() =~= src.skip(i + 1));
        assert(rest[0] == src[i]);
        let after = count(src.skip(i + 1), '>') - count(src.skip(i + 1), '<');
        lemma_mod_neighbours(after, offsets());
    } else {
        lemma_mod_neighbours(0, offsets());
    }
}

/// A text of `+`, `-` and comments is one `Add` of its net count modulo 256,
/// and no instruction at all when that is zero.
pub proof fn lemma_run_of_adds(src: Seq<char>)
    requires
        forall|k: int| 0 <= k < src.len() ==> is_add(#[trigger] src[k]) || !is_instruction(src[k]),
    ensures
        parsed(src) == add_instr(folded_add(src)),
{
    lemma_resume_add_zero(src, 0);
    lemma_add_run_whole(src, 0);
    lemma_net_add_counts(src, 0);
    assert(src.skip(0) =~= src);
    let n = net_add(src, 0, src.len() as int);
    assert(0u8.wrapping_add(n) == n);
    assert(add_instr(n) + instructions_from(src, src.len() as int) =~= add_instr(n));
}

/// A text of `<`, `>` and comments is one `Shift` of its net count modulo the
/// number of offsets, and no instruction at all when that is zero.
pub proof fn lemma_run_of_shifts(src: Seq<char>)
    requires
        forall|k: int|
            0 <= k < src.len() ==> is_shift(#[trigger] src[k]) || !is_instruction(src[k]),
    ensures
        parsed(src) == shift_instr(folded_shift(src)),
{
    lemma_resume_shift_zero(src, 0);
    lemma_shift_run_whole(src, 0);
    lemma_net_shift_counts(src, 0);
    assert(src.skip(0) =~= src);
    let n = net_shift(src, 0, src.len() as int);
    assert(0usize.wrapping_add(n) == n);
    assert(shift_instr(n) + instructions_from(src, src.len() as int) =~= shift_instr(n));
}

/// The instruction is no `Add` or `Shift` of zero and, if it is a loop, holds
/// none at any depth.
pub open spec fn is_folded(op: Instr) -> bool
    decreases op, 0int,
{
    match op {
        Instr::Add(delta) => delta != 0,
        Instr::Shift(word) => word != 0,
        Instr::Loop(body) => all_folded(body, 0),
        _ => true,
    }
}

/// The instructions of `ops` from index `i` on are folded.
pub open spec fn all_folded(ops: Seq<Instr>, i: int) -> bool
    decreases ops, ops.len() - i,
{
    if i < 0 || i >= ops.len() {
        true
    } else {
        is_folded(ops[i]) && all_folded(ops, i + 1)
    }
}

/// Behind a first instruction, the rest is folded as without it.
proof fn lemma_folded_behind(op: Instr, rest: Seq<Instr>, i: int)
    requires
        0 <= i <= rest.len(),
    ensures
        all_folded(seq![op] + rest, i + 1) == all_folded(rest, i),
    decreases rest.len() - i,
{
    let all = seq![op] + rest;
    if i < rest.len() {
        lemma_folded_behind(op, rest, i + 1);
        assert(all[i + 1] == rest[i]);
    }
}

/// A sequence is folded when its first instruction and the rest are.
proof fn lemma_folded_cons(op: Instr, rest: Seq<Instr>)
    ensures
        all_folded(seq![op] + rest, 0) == (is_folded(op) && all_folded(rest, 0)),
{
    lemma_folded_behind(op, rest, 0);
    assert((seq![op] + rest)[0] == op);
}

/// The parser emits no `Add` and no `Shift` of zero, at any depth.
pub proof fn lemma_parsed_is_folded(src: Seq<char>, i: int)
    requires
        0 <= i <= src.len(),
    ensures
        all_folded(instructions_from(src, i), 0),
    decreases src.len() - i,
{
    if i < src.len() && src[i] != ']' {
        let c = src[i];
        if c == '[' {
            let close = i + 1 + body_len(src, i + 1, 0);
            lemma_body_len(src, i + 1, 0);
            lemma_parsed_is_folded(src, i + 1);
            if close < src.len() {
                lemma_parsed_is_folded(src, close + 1);
            }
            lemma_folded_cons(
                Instr::Loop(instructions_from(src, i + 1)),
                instructions_from(src, close + 1),
            );
        } else if c == ',' || c == '.' {
            lemma_parsed_is_folded(src, i + 1);
            let op = if c == ',' {
                Instr::Read
            } else {
                Instr::Write
            };
            lemma_folded_cons(op, instructions_from(src, i + 1));
        } else if is_add(c) {
            let end = i + 1 + add_run(src, i + 1);
            lemma_add_run_bound(src, i + 1);
            lemma_parsed_is_folded(src, end);
            let n = net_add(src, i, end);
            if n != 0 {
                lemma_folded_cons(Instr::Add(n), instructions_from(src, end));
            } else {
                assert(add_instr(n) + instructions_from(src, end) =~= instructions_from(src, end));
            }
        } else if is_shift(c) {
            let end = i + 1 + shift_run(src, i + 1);
            lemma_shift_run_bound(src, i + 1);
            lemma_parsed_is_folded(src, end);
            let n = net_shift(src, i, end);
            if n != 0 {
                lemma_folded_cons(Instr::Shift(n), instructions_from(src, end));
            } else {
                assert(shift_instr(n) + instructions_from(src, end) =~= instructions_from(
                    src,
                    end,
                ));
            }
        } else {
            lemma_parsed_is_folded(src, i + 1);
        }
    }
}

} // verus!
