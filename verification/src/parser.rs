//! From source text to a program: comment filtering, run-length folding and
//! loop nesting.

use crate::program::{instrs_of, lemma_instr_of_loop, lemma_instrs_push, Instr, Operation};
use vstd::prelude::*;

verus! {

/// Why a source text is not a program.
#[derive(Debug, Clone, Copy, PartialEq, Eq)]
pub enum ParseError {
    /// A loop was opened and the text ended before it was closed.
    UnmatchedOpen,
    /// A `]` stands where no loop is open.
    UnmatchedClose,
}

/// The two symbols that change a cell.
pub open spec fn is_add(c: char) -> bool {
    c == '+' || c == '-'
}

/// The two symbols that move the pointer.
pub open spec fn is_shift(c: char) -> bool {
    c == '<' || c == '>'
}

/// The eight instruction symbols; every other character is a comment.
pub open spec fn is_instruction(c: char) -> bool {
    is_add(c) || is_shift(c) || c == '[' || c == ']' || c == ',' || c == '.'
}

/// Number of occurrences of `c` in `s`.
pub open spec fn count(s: Seq<char>, c: char) -> int
    decreases s.len(),
{
    if s.len() == 0 {
        0
    } else {
        (if s[0] == c { 1int } else { 0int }) + count(s.drop_first(), c)
    }
}

/// Loops opened minus loops closed in `s`.
pub open spec fn depth(s: Seq<char>) -> int {
    count(s, '[') - count(s, ']')
}

/// Some `]` in `s` has no `[` before it left to close.
pub open spec fn closes_unopened(s: Seq<char>) -> bool {
    exists|k: int| 0 <= k <= s.len() && #[trigger] depth(s.take(k)) < 0
}

/// Every `]` closes an earlier `[`, and every `[` is closed.
pub open spec fn well_nested(s: Seq<char>) -> bool {
    !closes_unopened(s) && depth(s) == 0
}

/// What one character contributes to a pending cell delta.
pub open spec fn add_value(c: char) -> u8 {
    if c == '+' {
        1u8
    } else if c == '-' {
        u8::MAX
    } else {
        0u8
    }
}

/// What one character contributes to a pending pointer move.
pub open spec fn shift_value(c: char) -> usize {
    if c == '>' {
        1usize
    } else if c == '<' {
        usize::MAX
    } else {
        0usize
    }
}

/// Wrapping sum of the cell deltas of `src[i..j]`.
pub open spec fn net_add(src: Seq<char>, i: int, j: int) -> u8
    decreases j - i,
{
    if j <= i {
        0u8
    } else {
        add_value(src[i]).wrapping_add(net_add(src, i + 1, j))
    }
}

/// Wrapping sum of the pointer moves of `src[i..j]`.
pub open spec fn net_shift(src: Seq<char>, i: int, j: int) -> usize
    decreases j - i,
{
    if j <= i {
        0usize
    } else {
        shift_value(src[i]).wrapping_add(net_shift(src, i + 1, j))
    }
}

/// Length of the run of `+`/`-` around position `i`: the characters from `i` up
/// to the next instruction of another kind. Comments do not end a run.
pub open spec fn add_run(src: Seq<char>, i: int) -> nat
    decreases src.len() - i,
{
    if i < 0 || i >= src.len() || (is_instruction(src[i]) && !is_add(src[i])) {
        0
    } else {
        1 + add_run(src, i + 1)
    }
}

/// Length of the run of `<`/`>` around position `i`.
pub open spec fn shift_run(src: Seq<char>, i: int) -> nat
    decreases src.len() - i,
{
    if i < 0 || i >= src.len() || (is_instruction(src[i]) && !is_shift(src[i])) {
        0
    } else {
        1 + shift_run(src, i + 1)
    }
}

/// How the nesting changes across one character.
pub open spec fn bracket(c: char) -> int {
    if c == '[' {
        1
    } else if c == ']' {
        -1
    } else {
        0
    }
}

/// Number of characters from `i` on that stand before the `]` closing the body
/// which is `open` loops deep at `i`; all that are left if that `]` is missing.
pub open spec fn body_len(src: Seq<char>, i: int, open: nat) -> nat
    decreases src.len() - i,
{
    if i < 0 || i >= src.len() || (src[i] == ']' && open == 0) {
        0
    } else {
        1 + body_len(src, i + 1, (open + bracket(src[i])) as nat)
    }
}

/// A folded cell delta: nothing when the run cancels out.
pub open spec fn add_instr(n: u8) -> Seq<Instr> {
    if n == 0 {
        Seq::empty()
    } else {
        seq![Instr::Add(n)]
    }
}

/// A folded pointer move: nothing when the run cancels out.
pub open spec fn shift_instr(n: usize) -> Seq<Instr> {
    if n == 0 {
        Seq::empty()
    } else {
        seq![Instr::Shift(n)]
    }
}

/// The instructions that `src` holds from position `i` up to the end of the
/// body in which `i` stands.
///
/// A run of `+`/`-` becomes one `Add` of its net count, a run of `<`/`>` one
/// `Shift`, each left out when the net is zero. A `[` becomes a `Loop` of what
/// follows it up to its `]`.
pub open spec fn instructions_from(src: Seq<char>, i: int) -> Seq<Instr>
    decreases
        (if i < src.len() {
            src.len() - i
        } else {
            0
        }),
{
    if i < 0 || i >= src.len() {
        Seq::empty()
    } else {
        let c = src[i];
        if c == ']' {
            Seq::empty()
        } else if c == '[' {
            let close = i + 1 + body_len(src, i + 1, 0);
            seq![Instr::Loop(instructions_from(src, i + 1))] + instructions_from(src, close + 1)
        } else if c == ',' {
            seq![Instr::Read] + instructions_from(src, i + 1)
        } else if c == '.' {
            seq![Instr::Write] + instructions_from(src, i + 1)
        } else if is_add(c) {
            let end = i + 1 + add_run(src, i + 1);
            add_instr(net_add(src, i, end)) + instructions_from(src, end)
        } else if is_shift(c) {
            let end = i + 1 + shift_run(src, i + 1);
            shift_instr(net_shift(src, i, end)) + instructions_from(src, end)
        } else {
            instructions_from(src, i + 1)
        }
    }
}

/// The program that a whole source text denotes.
pub open spec fn parsed(src: Seq<char>) -> Seq<Instr> {
    instructions_from(src, 0)
}

/// The instructions from `i` on when a cell delta of `acc` is already pending.
pub open spec fn resume_add(src: Seq<char>, i: int, acc: u8) -> Seq<Instr> {
    let end = i + add_run(src, i);
    add_instr(acc.wrapping_add(net_add(src, i, end))) + instructions_from(src, end)
}

/// The instructions from `i` on when a pointer move of `acc` is already pending.
pub open spec fn resume_shift(src: Seq<char>, i: int, acc: usize) -> Seq<Instr> {
    let end = i + shift_run(src, i);
    shift_instr(acc.wrapping_add(net_shift(src, i, end))) + instructions_from(src, end)
}

/// A run of `+`/`-` ends inside the text.
pub proof fn lemma_add_run_bound(src: Seq<char>, i: int)
    requires
        0 <= i <= src.len(),
    ensures
        i + add_run(src, i) <= src.len(),
    decreases src.len() - i,
{
    if i < src.len() && !(is_instruction(src[i]) && !is_add(src[i])) {
        lemma_add_run_bound(src, i + 1);
    }
}

/// A run of `<`/`>` ends inside the text.
pub proof fn lemma_shift_run_bound(src: Seq<char>, i: int)
    requires
        0 <= i <= src.len(),
    ensures
        i + shift_run(src, i) <= src.len(),
    decreases src.len() - i,
{
    if i < src.len() && !(is_instruction(src[i]) && !is_shift(src[i])) {
        lemma_shift_run_bound(src, i + 1);
    }
}

/// A character inside a run of `+`/`-` passes its value to the pending delta.
pub proof fn lemma_resume_add_step(src: Seq<char>, i: int, acc: u8)
    requires
        0 <= i < src.len(),
        !is_instruction(src[i]) || is_add(src[i]),
    ensures
        resume_add(src, i, acc) == resume_add(src, i + 1, acc.wrapping_add(add_value(src[i]))),
{
    lemma_add_run_bound(src, i + 1);
    let end = i + add_run(src, i);
    assert(end == i + 1 + add_run(src, i + 1));
    assert(net_add(src, i, end) == add_value(src[i]).wrapping_add(net_add(src, i + 1, end)));
}

/// A character inside a run of `<`/`>` passes its value to the pending move.
pub proof fn lemma_resume_shift_step(src: Seq<char>, i: int, acc: usize)
    requires
        0 <= i < src.len(),
        !is_instruction(src[i]) || is_shift(src[i]),
    ensures
        resume_shift(src, i, acc) == resume_shift(
            src,
            i + 1,
            acc.wrapping_add(shift_value(src[i])),
        ),
{
    lemma_shift_run_bound(src, i + 1);
    let end = i + shift_run(src, i);
    assert(end == i + 1 + shift_run(src, i + 1));
    assert(net_shift(src, i, end) == shift_value(src[i]).wrapping_add(
        net_shift(src, i + 1, end),
    ));
}

/// Where the run ends, the pending delta is emitted.
pub proof fn lemma_resume_add_end(src: Seq<char>, i: int, acc: u8)
    requires
        0 <= i <= src.len(),
        i < src.len() ==> is_instruction(src[i]) && !is_add(src[i]),
    ensures
        resume_add(src, i, acc) == add_instr(acc) + instructions_from(src, i),
{
}

/// Where the run ends, the pending move is emitted.
pub proof fn lemma_resume_shift_end(src: Seq<char>, i: int, acc: usize)
    requires
        0 <= i <= src.len(),
        i < src.len() ==> is_instruction(src[i]) && !is_shift(src[i]),
    ensures
        resume_shift(src, i, acc) == shift_instr(acc) + instructions_from(src, i),
{
}

/// With nothing pending, resuming is parsing.
pub proof fn lemma_resume_add_zero(src: Seq<char>, i: int)
    requires
        0 <= i <= src.len(),
    ensures
        resume_add(src, i, 0) == instructions_from(src, i),
    decreases src.len() - i,
{
    if i < src.len() && !is_instruction(src[i]) {
        lemma_resume_add_step(src, i, 0);
        lemma_resume_add_zero(src, i + 1);
    } else if i < src.len() && is_add(src[i]) {
        let end = i + 1 + add_run(src, i + 1);
        assert(i + add_run(src, i) == end);
        assert(0u8.wrapping_add(net_add(src, i, end)) == net_add(src, i, end));
    } else {
        assert(add_instr(0) + instructions_from(src, i) =~= instructions_from(src, i));
    }
}

/// With nothing pending, resuming is parsing.
pub proof fn lemma_resume_shift_zero(src: Seq<char>, i: int)
    requires
        0 <= i <= src.len(),
    ensures
        resume_shift(src, i, 0) == instructions_from(src, i),
    decreases src.len() - i,
{
    if i < src.len() && !is_instruction(src[i]) {
        lemma_resume_shift_step(src, i, 0);
        lemma_resume_shift_zero(src, i + 1);
    } else if i < src.len() && is_shift(src[i]) {
        let end = i + 1 + shift_run(src, i + 1);
        assert(i + shift_run(src, i) == end);
        assert(0usize.wrapping_add(net_shift(src, i, end)) == net_shift(src, i, end));
    } else {
        assert(shift_instr(0) + instructions_from(src, i) =~= instructions_from(src, i));
    }
}

/// One more character counts if it is the one that is counted.
pub proof fn lemma_count_push(s: Seq<char>, x: char, c: char)
    ensures
        count(s.push(x), c) == count(s, c) + if x == c { 1int } else { 0int },
    decreases s.len(),
{
    let t = s.push(x);
    if s.len() == 0 {
        assert(t.drop_first() =~= Seq::<char>::empty());
        assert(t[0] == x);
        assert(count(t.drop_first(), c) == 0);
    } else {
        assert(t.drop_first() =~= s.drop_first().push(x));
        assert(t[0] == s[0]);
        lemma_count_push(s.drop_first(), x, c);
    }
}

/// The count of a text in two parts is the sum of the counts of the parts.
pub proof fn lemma_count_concat(a: Seq<char>, b: Seq<char>, c: char)
    ensures
        count(a + b, c) == count(a, c) + count(b, c),
    decreases a.len(),
{
    if a.len() == 0 {
        assert(a + b =~= b);
    } else {
        assert((a + b).drop_first() =~= a.drop_first() + b);
        assert((a + b)[0] == a[0]);
        lemma_count_concat(a.drop_first(), b, c);
    }
}

/// The depth of a prefix grows with the prefix by what the next character adds.
proof fn lemma_depth_step(src: Seq<char>, i: int)
    requires
        0 <= i < src.len(),
    ensures
        depth(src.take(i + 1)) == depth(src.take(i)) + bracket(src[i]),
{
    assert(src.take(i + 1) =~= src.take(i).push(src[i]));
    lemma_count_push(src.take(i), src[i], '[');
    lemma_count_push(src.take(i), src[i], ']');
}

/// The depth of a stretch is what its first character adds plus the depth of the rest.
proof fn lemma_depth_front(src: Seq<char>, i: int, k: int)
    requires
        0 <= i < k <= src.len(),
    ensures
        depth(src.subrange(i, k)) == bracket(src[i]) + depth(src.subrange(i + 1, k)),
{
    assert(src.subrange(i, k).drop_first() =~= src.subrange(i + 1, k));
    assert(src.subrange(i, k)[0] == src[i]);
}

/// What `body_len` finds: no prefix of the stretch closes more than is open,
/// and the stretch ends at the end of the text or before the closing `]`.
pub proof fn lemma_body_len(src: Seq<char>, i: int, open: nat)
    requires
        0 <= i <= src.len(),
    ensures
        i + body_len(src, i, open) <= src.len(),
        forall|k: int|
            i <= k <= i + body_len(src, i, open) ==> open + #[trigger] depth(src.subrange(i, k))
                >= 0,
        i + body_len(src, i, open) < src.len() ==> src[i + body_len(src, i, open) as int] == ']'
            && open + depth(src.subrange(i, i + body_len(src, i, open))) == 0,
    decreases src.len() - i,
{
    assert(src.subrange(i, i) =~= Seq::<char>::empty());
    let n = body_len(src, i, open);
    if i >= src.len() || (src[i] == ']' && open == 0) {
        assert(n == 0);
    } else {
        let next = (open + bracket(src[i])) as nat;
        lemma_body_len(src, i + 1, next);
        assert(n == 1 + body_len(src, i + 1, next));
        assert forall|k: int| i <= k <= i + n implies open + #[trigger] depth(
            src.subrange(i, k),
        ) >= 0 by {
            if k > i {
                lemma_depth_front(src, i, k);
                assert(next + depth(src.subrange(i + 1, k)) >= 0);
            }
        }
        if i + n < src.len() {
            lemma_depth_front(src, i, i + n);
        }
    }
}

/// A body that is one loop deeper ends where the body after the next closing
/// `]` ends.
pub proof fn lemma_body_len_deeper(src: Seq<char>, i: int, open: nat)
    requires
        0 <= i <= src.len(),
    ensures
        body_len(src, i, open + 1) == if i + body_len(src, i, open) < src.len() {
            body_len(src, i, open) + 1 + body_len(src, i + body_len(src, i, open) + 1, 0)
        } else {
            body_len(src, i, open)
        },
    decreases src.len() - i,
{
    lemma_body_len(src, i, open);
    if i >= src.len() {
    } else if src[i] == ']' && open == 0 {
    } else {
        lemma_body_len_deeper(src, i + 1, (open + bracket(src[i])) as nat);
    }
}

/// A text closes a loop that is not open exactly when its outermost body ends
/// before the text does; a text that does not, never closes more than it opened.
pub proof fn lemma_closes_unopened(s: Seq<char>)
    ensures
        closes_unopened(s) <==> body_len(s, 0, 0) < s.len(),
        !closes_unopened(s) ==> depth(s) >= 0,
{
    lemma_body_len(s, 0, 0);
    let n = body_len(s, 0, 0) as int;
    if n < s.len() {
        assert(s.take(n) =~= s.subrange(0, n));
        lemma_depth_step(s, n);
        assert(depth(s.take(n + 1)) < 0);
    } else {
        assert forall|k: int| 0 <= k <= s.len() implies !(#[trigger] depth(s.take(k)) < 0) by {
            assert(s.take(k) =~= s.subrange(0, k));
        }
        assert(s.subrange(0, s.len() as int) =~= s);
    }
}

/// The wrapping sums of a stretch do not depend on what stands before it.
proof fn lemma_net_suffix(src: Seq<char>, from: int, i: int, j: int)
    requires
        0 <= from <= src.len(),
        0 <= i,
        from + j <= src.len(),
    ensures
        net_add(src.skip(from), i, j) == net_add(src, from + i, from + j),
        net_shift(src.skip(from), i, j) == net_shift(src, from + i, from + j),
    decreases j - i,
{
    if i < j {
        lemma_net_suffix(src, from, i + 1, j);
    }
}

/// The extent of a body and of a run do not depend on what stands before them.
proof fn lemma_len_suffix(src: Seq<char>, from: int, i: int, open: nat)
    requires
        0 <= from <= src.len(),
        0 <= i,
    ensures
        body_len(src.skip(from), i, open) == body_len(src, from + i, open),
        add_run(src.skip(from), i) == add_run(src, from + i),
        shift_run(src.skip(from), i) == shift_run(src, from + i),
    decreases src.len() - from - i,
{
    let sub = src.skip(from);
    if i < sub.len() {
        assert(sub[i] == src[from + i]);
        lemma_len_suffix(src, from, i + 1, (open + bracket(sub[i])) as nat);
    }
}

/// The instructions of a body do not depend on what stands before it.
pub proof fn lemma_suffix(src: Seq<char>, from: int, i: int)
    requires
        0 <= from <= src.len(),
        0 <= i,
    ensures
        instructions_from(src.skip(from), i) == instructions_from(src, from + i),
    decreases src.len() - from - i,
{
    let sub = src.skip(from);
    if i < sub.len() {
        assert(sub[i] == src[from + i]);
        lemma_len_suffix(src, from, i + 1, 0);
        lemma_suffix(src, from, i + 1);
        let c = sub[i];
        if c == '[' {
            let close = i + 1 + body_len(sub, i + 1, 0);
            if close < sub.len() {
                lemma_suffix(src, from, close + 1);
            }
            assert(instructions_from(sub, close + 1) == instructions_from(src, from + close + 1));
        } else if is_add(c) {
            let end = i + 1 + add_run(sub, i + 1);
            lemma_add_run_bound(sub, i + 1);
            if end < sub.len() {
                lemma_suffix(src, from, end);
            }
            lemma_net_suffix(src, from, i, end);
            assert(instructions_from(sub, end) == instructions_from(src, from + end));
        } else if is_shift(c) {
            let end = i + 1 + shift_run(sub, i + 1);
            lemma_shift_run_bound(sub, i + 1);
            if end < sub.len() {
                lemma_suffix(src, from, end);
            }
            lemma_net_suffix(src, from, i, end);
            assert(instructions_from(sub, end) == instructions_from(src, from + end));
        }
    }
}

/// What holds while a body is being read: `done` are the instructions emitted
/// so far, `add` and `shift` the pending run, `i` the next position.
#[verifier::opaque]
spec fn reading(src: Seq<char>, done: Seq<Instr>, i: int, add: u8, shift: usize) -> bool {
    &&& 0 <= i <= src.len()
    &&& (add == 0 || shift == 0)
    &&& (shift == 0 ==> done + resume_add(src, i, add) == instructions_from(src, 0))
    &&& (add == 0 ==> done + resume_shift(src, i, shift) == instructions_from(src, 0))
    &&& body_len(src, 0, 0) == i + body_len(src, i, 0)
    &&& depth(src.take(i)) == 0
}

/// Before the first character nothing is emitted and nothing pending.
proof fn lemma_reading_start(src: Seq<char>)
    ensures
        reading(src, Seq::empty(), 0, 0, 0),
{
    reveal(reading);
    lemma_resume_add_zero(src, 0);
    lemma_resume_shift_zero(src, 0);
    assert(Seq::<Instr>::empty() + instructions_from(src, 0) =~= instructions_from(src, 0));
    assert(src.take(0) =~= Seq::<char>::empty());
}

/// Another kind of instruction turns a pending delta into an `Add`.
proof fn lemma_flush_add(src: Seq<char>, done: Seq<Instr>, i: int, add: u8, shift: usize)
    requires
        reading(src, done, i, add, shift),
        add != 0,
        i < src.len(),
        is_instruction(src[i]) && !is_add(src[i]),
    ensures
        reading(src, done.push(Instr::Add(add)), i, 0, shift),
{
    reveal(reading);
    lemma_resume_add_end(src, i, add);
    lemma_resume_add_zero(src, i);
    lemma_resume_shift_zero(src, i);
    assert(done + (add_instr(add) + instructions_from(src, i)) =~= done.push(Instr::Add(add))
        + instructions_from(src, i));
}

/// Another kind of instruction turns a pending move into a `Shift`.
proof fn lemma_flush_shift(src: Seq<char>, done: Seq<Instr>, i: int, add: u8, shift: usize)
    requires
        reading(src, done, i, add, shift),
        shift != 0,
        i < src.len(),
        is_instruction(src[i]) && !is_shift(src[i]),
    ensures
        reading(src, done.push(Instr::Shift(shift)), i, add, 0),
{
    reveal(reading);
    lemma_resume_shift_end(src, i, shift);
    lemma_resume_add_zero(src, i);
    lemma_resume_shift_zero(src, i);
    assert(done + (shift_instr(shift) + instructions_from(src, i)) =~= done.push(
        Instr::Shift(shift),
    ) + instructions_from(src, i));
}

/// A `+` or `-` goes into the pending delta.
proof fn lemma_take_add(src: Seq<char>, done: Seq<Instr>, i: int, add: u8)
    requires
        reading(src, done, i, add, 0),
        i < src.len(),
        is_add(src[i]),
    ensures
        reading(src, done, i + 1, add.wrapping_add(add_value(src[i])), 0),
{
    reveal(reading);
    lemma_resume_add_step(src, i, add);
    lemma_resume_add_zero(src, i + 1);
    lemma_resume_shift_zero(src, i + 1);
    lemma_depth_step(src, i);
}

/// A `<` or `>` goes into the pending move.
proof fn lemma_take_shift(src: Seq<char>, done: Seq<Instr>, i: int, shift: usize)
    requires
        reading(src, done, i, 0, shift),
        i < src.len(),
        is_shift(src[i]),
    ensures
        reading(src, done, i + 1, 0, shift.wrapping_add(shift_value(src[i]))),
{
    reveal(reading);
    lemma_resume_shift_step(src, i, shift);
    lemma_resume_add_zero(src, i + 1);
    lemma_resume_shift_zero(src, i + 1);
    lemma_depth_step(src, i);
}

/// A comment changes nothing.
proof fn lemma_skip_comment(src: Seq<char>, done: Seq<Instr>, i: int, add: u8, shift: usize)
    requires
        reading(src, done, i, add, shift),
        i < src.len(),
        !is_instruction(src[i]),
    ensures
        reading(src, done, i + 1, add, shift),
{
    reveal(reading);
    lemma_resume_add_step(src, i, add);
    lemma_resume_shift_step(src, i, shift);
    lemma_depth_step(src, i);
}

/// A `,` or `.` is emitted at once.
proof fn lemma_take_io(src: Seq<char>, done: Seq<Instr>, i: int)
    requires
        reading(src, done, i, 0, 0),
        i < src.len(),
        src[i] == ',' || src[i] == '.',
    ensures
        reading(
            src,
            done.push(
                if src[i] == ',' {
                    Instr::Read
                } else {
                    Instr::Write
                },
            ),
            i + 1,
            0,
            0,
        ),
{
    reveal(reading);
    let op = if src[i] == ',' {
        Instr::Read
    } else {
        Instr::Write
    };
    lemma_resume_add_zero(src, i);
    lemma_resume_add_zero(src, i + 1);
    lemma_resume_shift_zero(src, i + 1);
    lemma_depth_step(src, i);
    assert(done + (seq![op] + instructions_from(src, i + 1)) =~= done.push(op)
        + instructions_from(src, i + 1));
}

/// A closed loop is emitted with its body, and reading goes on behind its `]`.
proof fn lemma_take_loop(src: Seq<char>, done: Seq<Instr>, i: int)
    requires
        reading(src, done, i, 0, 0),
        i < src.len(),
        src[i] == '[',
        i + 1 + body_len(src.skip(i + 1), 0, 0) < src.len(),
    ensures
        reading(
            src,
            done.push(Instr::Loop(instructions_from(src.skip(i + 1), 0))),
            i + 1 + body_len(src.skip(i + 1), 0, 0) + 1,
            0,
            0,
        ),
{
    reveal(reading);
    lemma_len_suffix(src, i + 1, 0, 0);
    lemma_suffix(src, i + 1, 0);
    lemma_body_len(src, i + 1, 0);
    lemma_body_len_deeper(src, i + 1, 0);
    let close = i + 1 + body_len(src, i + 1, 0);
    let body = instructions_from(src, i + 1);
    lemma_resume_add_zero(src, i);
    lemma_resume_add_zero(src, close + 1);
    lemma_resume_shift_zero(src, close + 1);
    assert(done + (seq![Instr::Loop(body)] + instructions_from(src, close + 1)) =~= done.push(
        Instr::Loop(body),
    ) + instructions_from(src, close + 1));
    let inner = src.subrange(i + 1, close);
    assert(src.take(close + 1) =~= src.take(i + 1) + inner.push(src[close]));
    lemma_count_concat(src.take(i + 1), inner.push(src[close]), '[');
    lemma_count_concat(src.take(i + 1), inner.push(src[close]), ']');
    lemma_count_push(inner, src[close], '[');
    lemma_count_push(inner, src[close], ']');
    lemma_depth_step(src, i);
}

/// A loop that is not closed leaves the whole text unclosed.
proof fn lemma_loop_unclosed(src: Seq<char>, done: Seq<Instr>, i: int)
    requires
        reading(src, done, i, 0, 0),
        i < src.len(),
        src[i] == '[',
        i + 1 + body_len(src.skip(i + 1), 0, 0) == src.len(),
    ensures
        body_len(src, 0, 0) == src.len(),
        depth(src) > 0,
{
    reveal(reading);
    lemma_len_suffix(src, i + 1, 0, 0);
    lemma_body_len(src, i + 1, 0);
    lemma_body_len_deeper(src, i + 1, 0);
    let rest = src.subrange(i + 1, src.len() as int);
    assert(src =~= src.take(i + 1) + rest);
    lemma_count_concat(src.take(i + 1), rest, '[');
    lemma_count_concat(src.take(i + 1), rest, ']');
    lemma_depth_step(src, i);
    assert(depth(rest) >= 0);
}

/// At the end of the body, what is emitted and what is pending make up its
/// instructions.
proof fn lemma_reading_stop(src: Seq<char>, done: Seq<Instr>, i: int, add: u8, shift: usize)
    requires
        reading(src, done, i, add, shift),
        i < src.len() ==> src[i] == ']',
    ensures
        body_len(src, 0, 0) == i,
        i == src.len() ==> depth(src) == 0,
        shift == 0 ==> done + add_instr(add) == instructions_from(src, 0),
        add == 0 ==> done + shift_instr(shift) == instructions_from(src, 0),
{
    reveal(reading);
    lemma_resume_add_end(src, i, add);
    lemma_resume_shift_end(src, i, shift);
    assert(src.take(src.len() as int) =~= src);
    assert(done + (add_instr(add) + instructions_from(src, i)) =~= done + add_instr(add));
    assert(done + (shift_instr(shift) + instructions_from(src, i)) =~= done + shift_instr(
        shift,
    ));
}

/// Parses a loop body, or a whole program when `actual_loop` is false.
///
/// Reads `source` up to the first `]` that closes no loop opened in it and
/// returns the instructions before it together with its index, which is the
/// length of `source` when there is no such `]`. Fails when the text ends
/// first and either a body was asked for (`actual_loop`) or a loop opened
/// inside `source` is still open; in every other case it succeeds.
pub fn parse_loop(source: &[char], actual_loop: bool) -> (res: Result<
    (Vec<Operation>, usize),
    ParseError,
>)
    ensures
        res is Ok <==> body_len(source@, 0, 0) < source@.len() || (!actual_loop && depth(source@)
            == 0),
        match res {
            Ok((program, end)) => {
                &&& instrs_of(program@) == instructions_from(source@, 0)
                &&& end == body_len(source@, 0, 0)
                &&& (end < source@.len() || (!actual_loop && depth(source@) == 0))
            },
            Err(e) => {
                &&& e == ParseError::UnmatchedOpen
                &&& body_len(source@, 0, 0) == source@.len()
                &&& (actual_loop || depth(source@) > 0)
            },
        },
    decreases source@.len(),
{
    let ghost src = source@;
    let mut program: Vec<Operation> = Vec::new();
    let mut add: u8 = 0;
    let mut shift: usize = 0;
    let mut i: usize = 0;
    proof {
        lemma_reading_start(src);
        assert(instrs_of(program@) =~= Seq::<Instr>::empty());
    }
    while i < source.len()
        invariant
            src == source@,
            i <= src.len(),
            reading(src, instrs_of(program@), i as int, add, shift),
        ensures
            i <= src.len(),
            reading(src, instrs_of(program@), i as int, add, shift),
            i < src.len() ==> src[i as int] == ']',
        decreases src.len() - i,
    {
        let symbol = source[i];
        if symbol == '<' || symbol == '>' || symbol == '[' || symbol == ']' || symbol == ','
            || symbol == '.' {
            if add != 0 {
                proof {
                    lemma_flush_add(src, instrs_of(program@), i as int, add, shift);
                    lemma_instrs_push(program@, Operation::Add(add));
                }
                program.push(Operation::Add(add));
                add = 0;
            }
        }
        if symbol == '+' || symbol == '-' || symbol == '[' || symbol == ']' || symbol == ','
            || symbol == '.' {
            if shift != 0 {
                proof {
                    lemma_flush_shift(src, instrs_of(program@), i as int, add, shift);
                    lemma_instrs_push(program@, Operation::Shift(shift));
                }
                program.push(Operation::Shift(shift));
                shift = 0;
            }
        }
        if symbol == '+' {
            proof {
                lemma_take_add(src, instrs_of(program@), i as int, add);
            }
            add = add.wrapping_add(1);
        } else if symbol == '-' {
            proof {
                lemma_take_add(src, instrs_of(program@), i as int, add);
            }
            add = add.wrapping_add(u8::MAX);
        } else if symbol == '<' {
            proof {
                lemma_take_shift(src, instrs_of(program@), i as int, shift);
            }
            shift = shift.wrapping_add(usize::MAX);
        } else if symbol == '>' {
            proof {
                lemma_take_shift(src, instrs_of(program@), i as int, shift);
            }
            shift = shift.wrapping_add(1);
        } else if symbol == '[' {
            let rest = &source[i + 1..source.len()];
            proof {
                assert(rest@ =~= src.skip(i + 1));
            }
            match parse_loop(rest, true) {
                Ok((the_loop, new_i)) => {
                    proof {
                        lemma_take_loop(src, instrs_of(program@), i as int);
                        lemma_instrs_push(program@, Operation::Loop(the_loop));
                        lemma_instr_of_loop(the_loop);
                    }
                    i += 1 + new_i;
                    program.push(Operation::Loop(the_loop));
                },
                Err(e) => {
                    proof {
                        lemma_loop_unclosed(src, instrs_of(program@), i as int);
                    }
                    return Err(e);
                },
            }
        } else if symbol == ']' {
            break ;
        } else if symbol == ',' {
            proof {
                lemma_take_io(src, instrs_of(program@), i as int);
                lemma_instrs_push(program@, Operation::Read);
            }
            program.push(Operation::Read);
        } else if symbol == '.' {
            proof {
                lemma_take_io(src, instrs_of(program@), i as int);
                lemma_instrs_push(program@, Operation::Write);
            }
            program.push(Operation::Write);
        } else {
            proof {
                lemma_skip_comment(src, instrs_of(program@), i as int, add, shift);
            }
        }
        i += 1;
    }
    proof {
        lemma_reading_stop(src, instrs_of(program@), i as int, add, shift);
        reveal(reading);
    }
    if actual_loop && i == source.len() {
        return Err(ParseError::UnmatchedOpen);
    }
    if add != 0 {
        proof {
            lemma_instrs_push(program@, Operation::Add(add));
        }
        program.push(Operation::Add(add));
    }
    if shift != 0 {
        proof {
            lemma_instrs_push(program@, Operation::Shift(shift));
        }
        program.push(Operation::Shift(shift));
    }
    proof {
        assert(instrs_of(program@) =~= instructions_from(src, 0));
    }
    Ok((program, i))
}

/// Parses a whole source text.
///
/// Succeeds exactly on the well-nested texts, and then returns the program that
/// the text denotes. A `]` with no loop to close is reported before a loop that
/// is never closed.
pub fn parse(source: &str) -> (res: Result<Vec<Operation>, ParseError>)
    ensures
        res is Ok <==> well_nested(source@),
        match res {
            Ok(program) => well_nested(source@) && instrs_of(program@) == parsed(source@),
            Err(ParseError::UnmatchedClose) => closes_unopened(source@),
            Err(ParseError::UnmatchedOpen) => !closes_unopened(source@) && depth(source@) > 0,
        },
{
    let mut chars: Vec<char> = Vec::new();
    for c in it: source.chars()
        invariant
            chars@ == it.seq().take(it.index()),
    {
        proof {
            assert(it.seq().take(it.index() + 1) =~= it.seq().take(it.index()).push(c));
        }
        chars.push(c);
    }
    proof {
        assert(chars@ =~= source@);
        lemma_closes_unopened(source@);
    }
    match parse_loop(chars.as_slice(), false) {
        Ok((program, end)) => {
            if end < chars.len() {
                Err(ParseError::UnmatchedClose)
            } else {
                Ok(program)
            }
        },
        Err(e) => Err(e),
    }
}

} // verus!
