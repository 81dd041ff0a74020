use bf_compiler::{
    advance, count_repetitions, optimize, parse, run_loop, run_program, Console, Operation,
    TAPE_SIZE,
};

const HELLO: &str = "++++++++[>++++[>++>+++>+++>+<<<<-]>+>+>->>+[<]<-]>>.>---.+++++++..+++.>>.<-.<.+++.------.--------.>>+.>++.";

fn program(text: &str) -> Vec<Operation> {
    parse(text).unwrap()
}

fn optimized(text: &str) -> Vec<Operation> {
    let mut ops = program(text);
    optimize(&mut ops).unwrap();
    ops
}

struct Machine {
    tape: Vec<u8>,
    pointer: usize,
    console: Console,
    fuel: u64,
    done: bool,
}

fn run_on(ops: &Vec<Operation>, cells: &[(usize, u8)], pointer: usize, fuel: u64) -> Machine {
    let mut tape = vec![0u8; TAPE_SIZE];
    for (at, value) in cells {
        tape[*at] = *value;
    }
    let mut pointer = pointer;
    let mut console = Console::new(Vec::new());
    let mut fuel = fuel;
    let done = run_loop(ops, &mut tape, &mut pointer, false, &mut console, &mut fuel);
    Machine {
        tape,
        pointer,
        console,
        fuel,
        done,
    }
}

#[test]
fn hello_world_naive() {
    let report = run_program(&program(HELLO), Vec::new(), 1_000_000);
    assert!(report.completed);
    assert_eq!(report.output, b"Hello World!\n".to_vec());
}

#[test]
fn hello_world_optimized() {
    let report = run_program(&optimized(HELLO), Vec::new(), 1_000_000);
    assert!(report.completed);
    assert_eq!(report.output, b"Hello World!\n".to_vec());
}

#[test]
fn multiply_loop_naive_and_optimized() {
    for ops in [program("[->>+<<]"), optimized("[->>+<<]")] {
        let end = run_on(&ops, &[(0, 5), (2, 7)], 0, 100);
        assert!(end.done);
        assert_eq!(end.tape[0], 0);
        assert_eq!(end.tape[2], 12);
        assert_eq!(end.pointer, 0);
        assert!(end.tape[3..].iter().all(|cell| *cell == 0));
        assert_eq!(end.tape[1], 0);
    }
}

#[test]
fn multiply_loop_costs_fuel_only_when_naive() {
    let naive = run_on(&program("[->>+<<]"), &[(0, 5)], 0, 100);
    assert_eq!(naive.fuel, 95);
    let fast = run_on(&optimized("[->>+<<]"), &[(0, 5)], 0, 100);
    assert_eq!(fast.fuel, 100);
}

#[test]
fn zero_loop_clears_every_value() {
    for text in ["[-]", "[+]"] {
        assert_eq!(optimized(text), vec![Operation::Zero]);
        for value in 0..=255u8 {
            let fast = run_on(&optimized(text), &[(7, value)], 7, 0);
            assert!(fast.done);
            assert_eq!(fast.tape[7], 0);
            assert_eq!(fast.pointer, 7);
            let naive = run_on(&program(text), &[(7, value)], 7, 256);
            assert!(naive.done);
            assert_eq!(naive.tape, fast.tape);
            assert_eq!(naive.pointer, fast.pointer);
        }
    }
}

#[test]
fn zero_loop_takes_as_many_passes_as_the_cell_holds() {
    let down = run_on(&program("[-]"), &[(0, 9)], 0, 20);
    assert_eq!(down.fuel, 11);
    let up = run_on(&program("[+]"), &[(0, 250)], 0, 20);
    assert_eq!(up.fuel, 14);
}

#[test]
fn cells_wrap_around() {
    let up = run_on(&program("+"), &[(0, 255)], 0, 0);
    assert_eq!(up.tape[0], 0);
    let down = run_on(&program("-"), &[(0, 0)], 0, 0);
    assert_eq!(down.tape[0], 255);
}

#[test]
fn the_pointer_wraps_around() {
    let left = run_on(&program("<"), &[], 0, 0);
    assert_eq!(left.pointer, TAPE_SIZE - 1);
    let right = run_on(&program(">"), &[], TAPE_SIZE - 1, 0);
    assert_eq!(right.pointer, 0);
    let far = run_on(&program("<<<"), &[], 1, 0);
    assert_eq!(far.pointer, TAPE_SIZE - 2);
}

#[test]
fn advance_moves_both_ways() {
    assert_eq!(advance(0, usize::MAX), TAPE_SIZE - 1);
    assert_eq!(advance(5, usize::MAX - 1), 3);
    assert_eq!(advance(TAPE_SIZE - 1, 1), 0);
    assert_eq!(advance(10, TAPE_SIZE), 10);
    assert_eq!(advance(10, 3 * TAPE_SIZE + 4), 14);
    assert_eq!(advance(10, 0), 10);
}

#[test]
fn repetitions_of_a_stationary_loop() {
    assert_eq!(count_repetitions(255, 5), Some(5));
    assert_eq!(count_repetitions(1, 5), Some(251));
    assert_eq!(count_repetitions(254, 6), Some(3));
    assert_eq!(count_repetitions(2, 0), Some(0));
    assert_eq!(count_repetitions(0, 0), Some(0));
    assert_eq!(count_repetitions(3, 1), Some(85));
    assert_eq!(count_repetitions(254, 5), None);
    assert_eq!(count_repetitions(0, 1), None);
}

#[test]
fn a_stationary_loop_scales_its_deltas() {
    let ops = optimized("[--->++<<+>]");
    let end = run_on(&ops, &[(10, 9), (11, 1), (9, 250)], 10, 0);
    assert!(end.done);
    assert_eq!(end.tape[10], 0);
    assert_eq!(end.tape[11], 7);
    assert_eq!(end.tape[9], 253);
    assert_eq!(end.pointer, 10);
}

#[test]
fn a_stationary_loop_reaches_across_the_ends_of_the_tape() {
    for ops in [program("[-<+>>+<]"), optimized("[-<+>>+<]")] {
        let end = run_on(&ops, &[(0, 3)], 0, 10);
        assert!(end.done);
        assert_eq!(end.tape[0], 0);
        assert_eq!(end.tape[TAPE_SIZE - 1], 3);
        assert_eq!(end.tape[1], 3);
    }
}

#[test]
fn a_stationary_loop_that_cannot_end_is_abandoned() {
    let ops = optimized("[--]");
    let end = run_on(&ops, &[(0, 5)], 0, 1000);
    assert!(!end.done);
    assert_eq!(end.tape[0], 5);
    assert_eq!(end.fuel, 1000);
    let even = run_on(&ops, &[(0, 6)], 0, 0);
    assert!(even.done);
    assert_eq!(even.tape[0], 0);
}

#[test]
fn a_marching_loop_runs_pass_by_pass() {
    for ops in [program("[->]"), optimized("[->]")] {
        let end = run_on(&ops, &[(0, 1), (1, 1), (2, 1), (4, 1)], 0, 10);
        assert!(end.done);
        assert_eq!(end.pointer, 3);
        assert_eq!(end.fuel, 7);
        assert_eq!(&end.tape[..5], &[0, 0, 0, 0, 1]);
    }
}

#[test]
fn a_marching_loop_stops_when_the_fuel_is_gone() {
    for ops in [program("[>]"), optimized("[>]")] {
        let end = run_on(&ops, &[(0, 1), (1, 1), (2, 1), (3, 1)], 0, 2);
        assert!(!end.done);
        assert_eq!(end.pointer, 2);
        assert_eq!(end.fuel, 0);
    }
}

#[test]
fn a_loop_is_tested_before_its_first_pass() {
    let end = run_on(&program("[+.]"), &[], 0, 0);
    assert!(end.done);
    assert_eq!(end.tape[0], 0);
    assert!(end.console.output.is_empty());
}

#[test]
fn a_run_without_fuel_stops_at_the_first_loop_entered() {
    let report = run_program(&program("+.[.]"), Vec::new(), 0);
    assert!(!report.completed);
    assert_eq!(report.output, vec![1]);
    let bounded = run_program(&program("+[.]"), Vec::new(), 3);
    assert!(!bounded.completed);
    assert_eq!(bounded.output, vec![1, 1, 1]);
}

#[test]
fn input_is_read_byte_by_byte() {
    let report = run_program(&program(",.,.,."), vec![b'a', b'b', b'c'], 0);
    assert!(report.completed);
    assert_eq!(report.output, b"abc".to_vec());
}

#[test]
fn at_the_end_of_the_input_the_cell_keeps_its_value() {
    let report = run_program(&program("+++,.,."), vec![9], 0);
    assert!(report.completed);
    assert_eq!(report.output, vec![9, 9]);
    let empty = run_program(&program("+++,."), Vec::new(), 0);
    assert_eq!(empty.output, vec![3]);
}

#[test]
fn echo_until_a_zero_byte() {
    let report = run_program(&program(",[.,]"), vec![b'h', b'i', 0, b'x'], 10);
    assert!(report.completed);
    assert_eq!(report.output, b"hi".to_vec());
}

#[test]
fn the_console_keeps_count() {
    let mut console = Console::new(vec![1, 2]);
    assert_eq!(console.read(), Some(1));
    assert_eq!(console.position, 1);
    assert_eq!(console.read(), Some(2));
    assert_eq!(console.read(), None);
    assert_eq!(console.position, 2);
    console.write(8);
    console.write(9);
    assert_eq!(console.output, vec![8, 9]);
    assert_eq!(console.input, vec![1, 2]);
}

#[test]
fn run_loop_as_a_loop_body() {
    let body = program("->+<");
    let mut tape = vec![0u8; TAPE_SIZE];
    tape[0] = 4;
    let mut pointer = 0;
    let mut console = Console::new(Vec::new());
    let mut fuel = 10;
    assert!(run_loop(&body, &mut tape, &mut pointer, true, &mut console, &mut fuel));
    assert_eq!(&tape[..2], &[0, 4]);
    assert_eq!(fuel, 6);
    let mut short = 2;
    tape[0] = 4;
    assert!(!run_loop(&body, &mut tape, &mut pointer, true, &mut console, &mut short));
    assert_eq!(&tape[..2], &[2, 6]);
    assert_eq!(short, 0);
}

#[test]
fn naive_and_optimized_runs_agree() {
    let texts = [
        "++[->+++<]>.",
        "+++++[>++++[>+<-]<-]>>.",
        ",[->+>++<<]>.>.",
        "++>+++>+<<[>]<[<]>[-]>.",
        ",>,<[->>+<<]>[->>+<<]>>.",
        "+++[->[-]+++<]>.",
        ",[>+>+<<-]>>[<<+>>-]<<.>.",
    ];
    for text in texts {
        for input in [vec![], vec![3, 4], vec![200, 100], vec![255]] {
            let naive = run_program(&program(text), input.clone(), 100_000);
            let fast = run_program(&optimized(text), input.clone(), 100_000);
            assert!(naive.completed);
            assert!(fast.completed);
            assert_eq!(naive.output, fast.output);
        }
    }
}

#[test]
fn naive_and_optimized_tapes_agree() {
    let text = "[->+>++<<]>[->>+++<<]>>[<]";
    for ops in [program(text), optimized(text)] {
        let end = run_on(&ops, &[(0, 7)], 0, 1000);
        assert!(end.done);
        assert_eq!(&end.tape[..4], &[0, 0, 14, 21]);
        assert_eq!(end.pointer, 1);
    }
}

#[test]
fn an_offset_that_falls_on_the_tested_cell_misleads_the_closed_form() {
    let body = vec![
        Operation::Add(255),
        Operation::Shift(TAPE_SIZE),
        Operation::Add(255),
        Operation::Shift(0usize.wrapping_sub(TAPE_SIZE)),
    ];
    let naive = run_on(&vec![Operation::Loop(body)], &[(0, 4)], 0, 10);
    assert!(naive.done);
    assert_eq!(naive.tape[0], 0);
    assert_eq!(naive.fuel, 8);
    let mut ops = vec![Operation::Loop(vec![
        Operation::Add(255),
        Operation::Shift(TAPE_SIZE),
        Operation::Add(255),
        Operation::Shift(0usize.wrapping_sub(TAPE_SIZE)),
    ])];
    optimize(&mut ops).unwrap();
    let fast = run_on(&ops, &[(0, 4)], 0, 10);
    assert!(fast.done);
    assert_eq!(fast.tape[0], 252);
}
