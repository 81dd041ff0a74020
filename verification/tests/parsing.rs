use bf_compiler::{parse, parse_loop, Operation, ParseError};

fn chars(text: &str) -> Vec<char> {
    text.chars().collect()
}

#[test]
fn test_parse() {
    assert_eq!(parse("+"), Ok(vec![Operation::Add(1)]));
    assert_eq!(parse("+++"), Ok(vec![Operation::Add(3)]));
    assert_eq!(parse("-"), Ok(vec![Operation::Add(255)]));
    assert_eq!(parse("---"), Ok(vec![Operation::Add(253)]));
    assert_eq!(parse("<"), Ok(vec![Operation::Shift(usize::MAX)]));
    assert_eq!(parse("<<<"), Ok(vec![Operation::Shift(usize::MAX - 2)]));
    assert_eq!(parse(">"), Ok(vec![Operation::Shift(1)]));
    assert_eq!(parse(">>>"), Ok(vec![Operation::Shift(3)]));
    assert_eq!(
        parse("[+]"),
        Ok(vec![Operation::Loop(vec![Operation::Add(1)])])
    );
}

#[test]
fn test_unmatched_start_of_loop() {
    assert_eq!(parse("["), Err(ParseError::UnmatchedOpen));
}

#[test]
fn test_unmatched_end_of_loop() {
    assert_eq!(parse("]"), Err(ParseError::UnmatchedClose));
}

#[test]
fn empty_text_is_the_empty_program() {
    assert_eq!(parse(""), Ok(vec![]));
    assert_eq!(parse("no instruction here"), Ok(vec![]));
}

#[test]
fn a_run_that_cancels_out_leaves_nothing() {
    assert_eq!(parse("+-"), Ok(vec![]));
    assert_eq!(parse("<>"), Ok(vec![]));
    assert_eq!(parse("++--+-"), Ok(vec![]));
    assert_eq!(parse(&"+".repeat(256)), Ok(vec![]));
}

#[test]
fn a_run_wraps_at_256() {
    assert_eq!(parse(&"+".repeat(257)), Ok(vec![Operation::Add(1)]));
    assert_eq!(parse(&"-".repeat(300)), Ok(vec![Operation::Add(212)]));
    assert_eq!(parse("+++-"), Ok(vec![Operation::Add(2)]));
    assert_eq!(parse(">>><"), Ok(vec![Operation::Shift(2)]));
}

#[test]
fn comments_do_not_end_a_run() {
    assert_eq!(parse("+ one\n+ two"), Ok(vec![Operation::Add(2)]));
    assert_eq!(parse("> é >"), Ok(vec![Operation::Shift(2)]));
}

#[test]
fn another_kind_of_instruction_ends_a_run() {
    assert_eq!(
        parse("+>+"),
        Ok(vec![
            Operation::Add(1),
            Operation::Shift(1),
            Operation::Add(1)
        ])
    );
    assert_eq!(
        parse("<+->"),
        Ok(vec![Operation::Shift(usize::MAX), Operation::Shift(1)])
    );
    assert_eq!(
        parse("+<>+"),
        Ok(vec![Operation::Add(1), Operation::Add(1)])
    );
    assert_eq!(
        parse("+.+,+"),
        Ok(vec![
            Operation::Add(1),
            Operation::Write,
            Operation::Add(1),
            Operation::Read,
            Operation::Add(1)
        ])
    );
}

#[test]
fn loops_nest() {
    assert_eq!(
        parse("+[>[-]<-]."),
        Ok(vec![
            Operation::Add(1),
            Operation::Loop(vec![
                Operation::Shift(1),
                Operation::Loop(vec![Operation::Add(255)]),
                Operation::Shift(usize::MAX),
                Operation::Add(255),
            ]),
            Operation::Write,
        ])
    );
    assert_eq!(
        parse("[][]"),
        Ok(vec![Operation::Loop(vec![]), Operation::Loop(vec![])])
    );
}

#[test]
fn unmatched_brackets_are_told_apart() {
    assert_eq!(parse("[[]"), Err(ParseError::UnmatchedOpen));
    assert_eq!(parse("+[-"), Err(ParseError::UnmatchedOpen));
    assert_eq!(parse("[]]"), Err(ParseError::UnmatchedClose));
    assert_eq!(parse("]["), Err(ParseError::UnmatchedClose));
    assert_eq!(parse("[]][["), Err(ParseError::UnmatchedClose));
}

#[test]
fn parse_loop_stops_at_the_closing_bracket() {
    assert_eq!(
        parse_loop(&chars("+]>"), true),
        Ok((vec![Operation::Add(1)], 1))
    );
    assert_eq!(
        parse_loop(&chars("+[-]]>"), true),
        Ok((
            vec![
                Operation::Add(1),
                Operation::Loop(vec![Operation::Add(255)])
            ],
            4
        ))
    );
    assert_eq!(
        parse_loop(&chars("+]>"), false),
        Ok((vec![Operation::Add(1)], 1))
    );
}

#[test]
fn parse_loop_runs_to_the_end_of_a_program() {
    assert_eq!(
        parse_loop(&chars("+>"), false),
        Ok((vec![Operation::Add(1), Operation::Shift(1)], 2))
    );
    assert_eq!(parse_loop(&chars(""), false), Ok((vec![], 0)));
}

#[test]
fn parse_loop_wants_a_body_closed() {
    assert_eq!(
        parse_loop(&chars("+>"), true),
        Err(ParseError::UnmatchedOpen)
    );
    assert_eq!(parse_loop(&chars(""), true), Err(ParseError::UnmatchedOpen));
    assert_eq!(
        parse_loop(&chars("[+"), false),
        Err(ParseError::UnmatchedOpen)
    );
}

fn count_loops(ops: &[Operation]) -> usize {
    ops.iter()
        .map(|op| match op {
            Operation::Loop(body) => 1 + count_loops(body),
            _ => 0,
        })
        .sum()
}

fn holds_a_zero(ops: &[Operation]) -> bool {
    ops.iter().any(|op| match op {
        Operation::Add(delta) => *delta == 0,
        Operation::Shift(word) => *word == 0,
        Operation::Loop(body) => holds_a_zero(body),
        _ => false,
    })
}

#[test]
fn every_pair_of_brackets_is_one_loop() {
    for text in ["", "[]", "[[]]", "[][]", "+[>[-]<[[.],]]-[+]", "a[b[c]d[e]f]g"] {
        let program = parse(text).unwrap();
        assert_eq!(count_loops(&program), text.matches('[').count());
        assert_eq!(count_loops(&program), text.matches(']').count());
    }
}

#[test]
fn no_add_and_no_shift_of_zero_is_emitted() {
    for text in ["+-", "+-[<>+-]", "><+[-+.<>]", "++--[[>><<]+-]"] {
        assert!(!holds_a_zero(&parse(text).unwrap()));
    }
    assert_eq!(
        parse("+-[<>]"),
        Ok(vec![Operation::Loop(vec![])])
    );
}
