//! An optimizing interpreter for an eight-instruction tape language.
//!
//! Source text is parsed into a tree of operations, with runs of like
//! instructions folded into one (`parser`). The optimizer replaces every loop
//! whose body is pure, that is made of cell deltas and pointer moves only, by
//! the net effects of one pass (`effects`, `optimizer`). The machine runs
//! either form on a circular tape of bytes (`tape`, `machine`).
//!
//! Programs are specified through a mathematical model (`program`). The
//! modules `folding`, `nesting` and `soundness` hold what is proved of the
//! parser and of the optimizer beyond the contracts of their functions.

pub mod effects;
pub mod folding;
pub mod machine;
pub mod nesting;
pub mod optimizer;
pub mod parser;
pub mod program;
pub mod soundness;
pub mod tape;

pub use effects::{pure_loop_effects, Effects, OptimizeError, PureLoop};
pub use machine::{count_repetitions, run_loop, run_program, Console, Report, Run, State};
pub use optimizer::optimize;
pub use parser::{parse, parse_loop, ParseError};
pub use program::{Instr, Operation};
pub use tape::{advance, TAPE_SIZE};
