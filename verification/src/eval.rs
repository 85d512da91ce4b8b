//! The evaluator: what a program does to a tape, and the function that does it.

use vstd::prelude::*;
use crate::program::{lemma_loop_view, Instruction, Node};
use crate::tape::{Tape, TapeView};

verus! {

/// Why a run stopped before the end of its program.
#[derive(Clone, Copy, Debug, PartialEq, Eq)]
pub enum RunError {
    /// The pointer was to leave the tape.
    TapeBounds,
    /// The cell to print holds no character code.
    InvalidOutputValue,
    /// A loop was to start an iteration with no budget left.
    IterationLimit,
}

/// What a run has reached: the tape, the characters printed so far, and how
/// many loop iterations it may still start.
pub struct State {
    pub tape: TapeView,
    pub output: Seq<char>,
    pub budget: nat,
}

/// How a run ended, and the state it ended in. After an error that is the
/// state in which the failing instruction was met.
pub struct Outcome {
    pub state: State,
    pub result: Result<(), RunError>,
}

impl State {
    /// The outcome of stopping here without error.
    pub open spec fn done(self) -> Outcome {
        Outcome { state: self, result: Ok(()) }
    }

    /// The outcome of stopping here with `error`.
    pub open spec fn failed(self, error: RunError) -> Outcome {
        Outcome { state: self, result: Err(error) }
    }

    /// This state with another tape.
    pub open spec fn with_tape(self, tape: TapeView) -> State {
        State { tape, ..self }
    }

    /// This state after one more character of output.
    pub open spec fn printed(self, ch: char) -> State {
        State { output: self.output.push(ch), ..self }
    }

    /// This state with one loop iteration less to start.
    pub open spec fn spent(self) -> State {
        State { budget: (self.budget - 1) as nat, ..self }
    }

    /// This state with `extra` more loop iterations to start.
    pub open spec fn granted(self, extra: nat) -> State {
        State { budget: self.budget + extra, ..self }
    }
}

impl Outcome {
    /// This outcome with `extra` more loop iterations left.
    pub open spec fn granted(self, extra: nat) -> Outcome {
        Outcome { state: self.state.granted(extra), ..self }
    }
}

/// `value` is the code of a character: a Unicode scalar value.
pub open spec fn is_char_code(value: u32) -> bool {
    value <= 0xD7FF || 0xE000 <= value <= 0x10FFFF
}

/// What a command, a node other than a loop, does in `state`. A loop is
/// no command; [`eval_loop`] says what it does.
pub open spec fn eval_command(node: Node, state: State) -> Outcome {
    match node {
        Node::IncPtr => if state.tape.can_move_right() {
            state.with_tape(state.tape.move_right()).done()
        } else {
            state.failed(RunError::TapeBounds)
        },
        Node::DecPtr => if state.tape.can_move_left() {
            state.with_tape(state.tape.move_left()).done()
        } else {
            state.failed(RunError::TapeBounds)
        },
        Node::IncVal => state.with_tape(state.tape.increment()).done(),
        Node::DecVal => state.with_tape(state.tape.decrement()).done(),
        Node::Zero => state.with_tape(state.tape.write(0)).done(),
        Node::Get => if is_char_code(state.tape.current()) {
            state.printed(state.tape.current() as char).done()
        } else {
            state.failed(RunError::InvalidOutputValue)
        },
        Node::Loop(_) => state.done(),
    }
}

/// What a block does in `state`: its nodes one after the other, up to the
/// first that fails.
pub open spec fn eval_block(block: Seq<Node>, state: State) -> Outcome
    decreases block, state.budget, 0nat,
{
    if block.len() == 0 {
        state.done()
    } else {
        let first = match block[0] {
            Node::Loop(body) => eval_loop(body, state),
            node => eval_command(node, state),
        };
        if first.result is Ok {
            eval_block(block.drop_first(), first.state)
        } else {
            first
        }
    }
}

/// What a loop over `body` does in `state`: nothing where the current cell
/// is zero; else one iteration, which costs one unit of budget, and then the
/// loop again.
///
/// An iteration never leaves more budget than it found (see
/// [`lemma_budget_never_grows`]), so the test on the budget after it always
/// holds: it is there to make the recursion well-founded on its face.
pub open spec fn eval_loop(body: Seq<Node>, state: State) -> Outcome
    decreases body, state.budget, 1nat,
{
    if state.tape.current() == 0 {
        state.done()
    } else if state.budget == 0 {
        state.failed(RunError::IterationLimit)
    } else {
        let once = eval_block(body, state.spent());
        if once.result is Ok && once.state.budget < state.budget {
            eval_loop(body, once.state)
        } else {
            once
        }
    }
}

/// A run keeps the tape in shape and the output it found: the number of
/// cells never changes, the pointer stays on a cell, and what was printed
/// before stays at the start of the output.
pub proof fn lemma_run_keeps_shape(block: Seq<Node>, state: State)
    requires
        state.tape.valid(),
    ensures
        eval_block(block, state).state.tape.valid(),
        eval_block(block, state).state.tape.cells.len() == state.tape.cells.len(),
        state.output.is_prefix_of(eval_block(block, state).state.output),
    decreases block, state.budget, 0nat,
{
    if block.len() > 0 {
        match block[0] {
            Node::Loop(body) => lemma_loop_keeps_shape(body, state),
            _ => {},
        }
        let first = match block[0] {
            Node::Loop(body) => eval_loop(body, state),
            node => eval_command(node, state),
        };
        if first.result is Ok {
            lemma_run_keeps_shape(block.drop_first(), first.state);
        }
    }
}

/// A loop keeps the tape in shape and the output it found.
pub proof fn lemma_loop_keeps_shape(body: Seq<Node>, state: State)
    requires
        state.tape.valid(),
    ensures
        eval_loop(body, state).state.tape.valid(),
        eval_loop(body, state).state.tape.cells.len() == state.tape.cells.len(),
        state.output.is_prefix_of(eval_loop(body, state).state.output),
    decreases body, state.budget, 1nat,
{
    if state.tape.current() != 0 && state.budget > 0 {
        lemma_run_keeps_shape(body, state.spent());
        let once = eval_block(body, state.spent());
        if once.result is Ok && once.state.budget < state.budget {
            lemma_loop_keeps_shape(body, once.state);
        }
    }
}

/// A block never leaves more budget than it found.
pub proof fn lemma_budget_never_grows(block: Seq<Node>, state: State)
    ensures
        eval_block(block, state).state.budget <= state.budget,
    decreases block, state.budget, 0nat,
{
    if block.len() > 0 {
        match block[0] {
            Node::Loop(body) => lemma_loop_budget_never_grows(body, state),
            _ => {},
        }
        let first = match block[0] {
            Node::Loop(body) => eval_loop(body, state),
            node => eval_command(node, state),
        };
        if first.result is Ok {
            lemma_budget_never_grows(block.drop_first(), first.state);
        }
    }
}

/// A loop never leaves more budget than it found.
pub proof fn lemma_loop_budget_never_grows(body: Seq<Node>, state: State)
    ensures
        eval_loop(body, state).state.budget <= state.budget,
    decreases body, state.budget, 1nat,
{
    if state.tape.current() != 0 && state.budget > 0 {
        lemma_budget_never_grows(body, state.spent());
        let once = eval_block(body, state.spent());
        if once.result is Ok {
            lemma_loop_budget_never_grows(body, once.state);
        }
    }
}

/// What a loop does, step by step: nothing where the current cell is zero;
/// else, with budget left, one iteration and then the loop again.
pub proof fn lemma_loop_unfold(body: Seq<Node>, state: State)
    ensures
        eval_loop(body, state) == if state.tape.current() == 0 {
            state.done()
        } else if state.budget == 0 {
            state.failed(RunError::IterationLimit)
        } else {
            let once = eval_block(body, state.spent());
            if once.result is Ok {
                eval_loop(body, once.state)
            } else {
                once
            }
        },
{
    if state.tape.current() != 0 && state.budget > 0 {
        lemma_budget_never_grows(body, state.spent());
    }
}

/// A run that did not stop for want of budget goes the same way with more
/// budget, and leaves that much more.
pub proof fn lemma_more_budget(block: Seq<Node>, state: State, extra: nat)
    requires
        eval_block(block, state).result != Err::<(), RunError>(RunError::IterationLimit),
    ensures
        eval_block(block, state.granted(extra)) == eval_block(block, state).granted(extra),
    decreases block, state.budget, 0nat,
{
    if block.len() > 0 {
        match block[0] {
            Node::Loop(body) => lemma_loop_more_budget(body, state, extra),
            _ => {},
        }
        let first = match block[0] {
            Node::Loop(body) => eval_loop(body, state),
            node => eval_command(node, state),
        };
        if first.result is Ok {
            lemma_more_budget(block.drop_first(), first.state, extra);
        }
    }
}

/// A loop that did not stop for want of budget goes the same way with more
/// budget, and leaves that much more.
pub proof fn lemma_loop_more_budget(body: Seq<Node>, state: State, extra: nat)
    requires
        eval_loop(body, state).result != Err::<(), RunError>(RunError::IterationLimit),
    ensures
        eval_loop(body, state.granted(extra)) == eval_loop(body, state).granted(extra),
    decreases body, state.budget, 1nat,
{
    if state.tape.current() != 0 {
        lemma_loop_unfold(body, state);
        lemma_loop_unfold(body, state.granted(extra));
        let once = eval_block(body, state.spent());
        assert(state.granted(extra).spent() == state.spent().granted(extra));
        lemma_budget_never_grows(body, state.spent());
        lemma_more_budget(body, state.spent(), extra);
        if once.result is Ok {
            lemma_loop_more_budget(body, once.state, extra);
        }
    }
}

/// Two blocks one after the other do what the first does and then, if it
/// did not fail, what the second does.
pub proof fn lemma_eval_concat(first: Seq<Node>, second: Seq<Node>, state: State)
    ensures
        eval_block(first + second, state) == {
            let middle = eval_block(first, state);
            if middle.result is Ok {
                eval_block(second, middle.state)
            } else {
                middle
            }
        },
    decreases first.len(),
{
    if first.len() == 0 {
        assert(first + second =~= second);
    } else {
        let whole = first + second;
        assert(whole[0] == first[0]);
        assert(whole.drop_first() =~= first.drop_first() + second);
        let head = match first[0] {
            Node::Loop(body) => eval_loop(body, state),
            node => eval_command(node, state),
        };
        if head.result is Ok {
            lemma_eval_concat(first.drop_first(), second, head.state);
        }
    }
}

/// `core::char::from_u32` returns the character with code `i` where `i` is a
/// Unicode scalar value (at most 0xD7FF, or from 0xE000 to 0x10FFFF), and
/// `None` for every other number.
pub assume_specification[ core::char::from_u32 ](i: u32) -> (c: Option<char>)
    ensures
        c == if is_char_code(i) {
            Some(i as char)
        } else {
            None::<char>
        },
;

/// Runs `program` on `tape`, appending what it prints to `output`.
///
/// Each loop iteration takes one unit from `budget`; the run stops with
/// `IterationLimit` where an iteration is due and none is left. It stops
/// with `TapeBounds` where the pointer would leave the tape, and with
/// `InvalidOutputValue` where the cell to print is not a character code.
/// After an error the tape, the output and the budget are as the failing
/// instruction found them.
#[verifier::loop_isolation(false)]
pub fn run(
    program: &Vec<Instruction>,
    tape: &mut Tape,
    output: &mut Vec<char>,
    budget: &mut u64,
) -> (result: Result<(), RunError>)
    ensures
        ({
            let outcome = eval_block(
                program.deep_view(),
                (State { tape: old(tape)@, output: old(output)@, budget: *old(budget) as nat }),
            );
            &&& result == outcome.result
            &&& final(tape)@ == outcome.state.tape
            &&& final(output)@ == outcome.state.output
            &&& *final(budget) == outcome.state.budget
        }),
        *final(budget) <= *old(budget),
    decreases program, *old(budget),
{
    let ghost block = program.deep_view();
    let ghost start = State { tape: tape@, output: output@, budget: *budget as nat };
    let mut i: usize = 0;
    assert(block.skip(0) =~= block);
    while i < program.len()
        invariant
            i <= program.len(),
            *budget <= start.budget,
            eval_block(block, start) == eval_block(
                block.skip(i as int),
                (State { tape: tape@, output: output@, budget: *budget as nat }),
            ),
        decreases program.len() - i,
    {
        let ghost here = State { tape: tape@, output: output@, budget: *budget as nat };
        proof {
            assert(block.skip(i as int)[0] == program[i as int].deep_view());
            assert(block.skip(i as int).drop_first() =~= block.skip(i + 1));
        }
        match &program[i] {
            Instruction::IncPtr => {
                let length = tape.len();
                if tape.pointer() < length - 1 {
                    tape.inc_ptr();
                } else {
                    return Err(RunError::TapeBounds);
                }
            },
            Instruction::DecPtr => {
                if tape.pointer() > 0 {
                    tape.dec_ptr();
                } else {
                    return Err(RunError::TapeBounds);
                }
            },
            Instruction::IncVal => tape.inc_val(),
            Instruction::DecVal => tape.dec_val(),
            Instruction::Zero => tape.set(0),
            Instruction::Get => {
                match std::char::from_u32(tape.get()) {
                    Some(converted) => output.push(converted),
                    None => {
                        return Err(RunError::InvalidOutputValue);
                    },
                }
            },
            Instruction::Loop(loop_instructions) => {
                let ghost body = loop_instructions.deep_view();
                proof {
                    lemma_loop_view(*loop_instructions);
                }
                while tape.get() != 0
                    invariant
                        *budget <= start.budget,
                        eval_loop(body, here) == eval_loop(
                            body,
                            (State { tape: tape@, output: output@, budget: *budget as nat }),
                        ),
                    decreases *budget,
                {
                    if *budget == 0 {
                        return Err(RunError::IterationLimit);
                    }
                    *budget -= 1;
                    match run(loop_instructions, tape, output, budget) {
                        Ok(()) => {},
                        Err(error) => {
                            return Err(error);
                        },
                    }
                }
            },
        }
        i += 1;
    }
    Ok(())
}

} // verus!
