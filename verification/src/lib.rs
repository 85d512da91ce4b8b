//! An interpreter for a small tape language: eight one-character commands
//! that move a pointer over a tape of cells, change the current cell, print
//! it, and loop while it is nonzero.
//!
//! A source text goes through three stages. [`tokenize`] turns every
//! character into a [`Token`]; [`parse`] resolves the brackets into a tree
//! of [`Instruction`]s; the tree is then evaluated on a [`Tape`].
//!
//! There are two evaluators, and they agree. [`run`] walks the tree to its
//! end, collects the output, and counts loop iterations against a budget
//! so that it always returns. [`Machine`] runs the same tree one step at a
//! time for as long as its caller goes on, and hands out each character as
//! it is printed. [`interpret`] is the three stages in one call.
//!
//! The modules, from the ground up:
//! - [`tape`]: the tape and its cells;
//! - [`scanner`]: tokens;
//! - [`brackets`]: bracket depth of token sequences;
//! - [`program`]: the instruction tree;
//! - [`parser`]: from tokens to the tree, and back;
//! - [`eval`]: what a tree does to a tape, and `run`;
//! - [`unroll`]: a loop as its body written out;
//! - [`machine`]: the step machine;
//! - [`simulation`]: the step machine does what `eval` says;
//! - [`interpreter`]: the pipeline.

pub mod brackets;
pub mod eval;
pub mod interpreter;
pub mod machine;
pub mod parser;
pub mod program;
pub mod scanner;
pub mod simulation;
pub mod tape;
pub mod unroll;

pub use eval::{run, Outcome, RunError, State};
pub use interpreter::{interpret, InterpretError};
pub use machine::{Machine, MachineView, Step};
pub use parser::{parse, ParseError};
pub use program::{Instruction, Node};
pub use scanner::{tokenize, Token};
pub use tape::{Tape, TapeView, DEFAULT_TAPE_LENGTH};
