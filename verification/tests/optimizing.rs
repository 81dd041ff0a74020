use bf_compiler::{optimize, parse, pure_loop_effects, Operation, OptimizeError};

fn program(text: &str) -> Vec<Operation> {
    parse(text).unwrap()
}

#[test]
fn clearing_loops_become_zero() {
    let mut down = program("[-]");
    assert_eq!(optimize(&mut down), Ok(()));
    assert_eq!(down, vec![Operation::Zero]);
    let mut up = program("[+]");
    assert_eq!(optimize(&mut up), Ok(()));
    assert_eq!(up, vec![Operation::Zero]);
}

#[test]
fn a_loop_by_two_is_not_a_clearing_loop() {
    let mut by_two = program("[--]");
    assert_eq!(optimize(&mut by_two), Ok(()));
    match &by_two[..] {
        [Operation::PureLoop(pure_loop)] => {
            assert_eq!(pure_loop.shift(), 0);
            assert_eq!(pure_loop.len(), 1);
            assert_eq!(pure_loop.delta(0), Some(254));
        }
        other => panic!("{:?}", other),
    }
}

#[test]
fn effects_of_a_multiply_loop() {
    let body = program("->>+<<");
    let effects = pure_loop_effects(&body).unwrap().unwrap();
    assert_eq!(effects.shift(), 0);
    assert_eq!(effects.len(), 2);
    assert_eq!(effects.delta(0), Some(255));
    assert_eq!(effects.delta(2), Some(1));
    assert_eq!(effects.delta(1), None);
}

#[test]
fn effects_add_up_per_offset() {
    let body = program("+>++<+++>----");
    let effects = pure_loop_effects(&body).unwrap().unwrap();
    assert_eq!(effects.shift(), 1);
    assert_eq!(effects.len(), 2);
    assert_eq!(effects.delta(0), Some(4));
    assert_eq!(effects.delta(1), Some(254));
}

#[test]
fn effects_left_of_the_entry_cell() {
    let body = program("-<+>");
    let effects = pure_loop_effects(&body).unwrap().unwrap();
    assert_eq!(effects.shift(), 0);
    assert_eq!(effects.delta(usize::MAX), Some(1));
    assert_eq!(effects.delta(0), Some(255));
}

#[test]
fn a_marching_loop_needs_no_delta() {
    let body = program(">");
    let effects = pure_loop_effects(&body).unwrap().unwrap();
    assert_eq!(effects.shift(), 1);
    assert_eq!(effects.len(), 0);
    assert_eq!(effects.delta(0), None);
}

#[test]
fn input_output_and_loops_make_a_body_impure() {
    assert_eq!(pure_loop_effects(&program("+.")), Ok(None));
    assert_eq!(pure_loop_effects(&program(",-")), Ok(None));
    assert_eq!(pure_loop_effects(&program("+[-]")), Ok(None));
    assert_eq!(pure_loop_effects(&vec![Operation::Zero]), Ok(None));
    let mut inner = program("[->+<]");
    optimize(&mut inner).unwrap();
    assert_eq!(pure_loop_effects(&inner), Ok(None));
}

#[test]
fn a_loop_that_cannot_end_is_an_error() {
    assert_eq!(
        pure_loop_effects(&program("")),
        Err(OptimizeError::InfiniteLoop)
    );
    assert_eq!(
        pure_loop_effects(&program(">+<")),
        Err(OptimizeError::InfiniteLoop)
    );
    assert_eq!(
        pure_loop_effects(&vec![Operation::Add(1), Operation::Add(255)]),
        Err(OptimizeError::InfiniteLoop)
    );
    let mut endless = program("+[]");
    assert_eq!(optimize(&mut endless), Err(OptimizeError::InfiniteLoop));
}

#[test]
fn the_optimizer_descends_into_impure_loops() {
    let mut nested = program("[.[-]>[>]]");
    assert_eq!(optimize(&mut nested), Ok(()));
    match &nested[..] {
        [Operation::Loop(body)] => match &body[..] {
            [Operation::Write, Operation::Zero, Operation::Shift(1), Operation::PureLoop(march)] => {
                assert_eq!(march.shift(), 1);
                assert_eq!(march.len(), 0);
            }
            other => panic!("{:?}", other),
        },
        other => panic!("{:?}", other),
    }
}

#[test]
fn the_optimizer_stops_at_the_first_endless_loop() {
    let mut stopped = program("[-].[.[]][-]");
    assert_eq!(optimize(&mut stopped), Err(OptimizeError::InfiniteLoop));
    assert_eq!(
        stopped,
        vec![
            Operation::Zero,
            Operation::Write,
            Operation::Loop(vec![Operation::Write, Operation::Loop(vec![])]),
            Operation::Loop(vec![Operation::Add(255)]),
        ]
    );
}

#[test]
fn what_is_no_loop_stays() {
    let mut plain = program("+>,.<-");
    let before = program("+>,.<-");
    assert_eq!(optimize(&mut plain), Ok(()));
    assert_eq!(plain, before);
}
