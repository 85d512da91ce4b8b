//! The evaluator as a machine that is driven one step at a time, so that a
//! caller can print each character as it comes and run a program for as
//! long as it likes.

use vstd::prelude::*;
use crate::eval::{eval_command, RunError, State};
use crate::program::{lemma_loop_view, nesting, Instruction, Node};
use crate::tape::{Tape, TapeView};

verus! {

/// What one step of the machine did.
#[derive(Clone, Copy, Debug, PartialEq, Eq)]
pub enum Step {
    /// It went on without printing.
    Continue,
    /// It printed this character.
    Output(char),
    /// The program has ended; the machine stays as it is.
    Halt,
    /// The next instruction fails; the machine stays as it is.
    Fault(RunError),
}

/// A block that is being run and the index of its next instruction.
pub struct FrameView {
    pub block: Seq<Node>,
    pub next: nat,
}

/// What a machine holds: the blocks that are being run, the program first
/// and the innermost loop body last, and the tape.
pub struct MachineView {
    pub frames: Seq<FrameView>,
    pub tape: TapeView,
}

impl MachineView {
    /// The machine that is about to run `program` on `tape`.
    pub open spec fn start(program: Seq<Node>, tape: TapeView) -> MachineView {
        MachineView { frames: seq![FrameView { block: program, next: 0 }], tape }
    }

    /// This machine with the innermost frame at index `next`.
    pub open spec fn moved_to(self, next: nat) -> MachineView {
        MachineView {
            frames: self.frames.update(
                self.frames.len() - 1,
                FrameView { next, ..self.frames.last() },
            ),
            ..self
        }
    }

    /// This machine inside a loop over `body`, at the point where the loop
    /// tests the current cell: the end of the body.
    pub open spec fn entered(self, body: Seq<Node>) -> MachineView {
        MachineView { frames: self.frames.push(FrameView { block: body, next: body.len() }), ..self }
    }

    /// This machine without its innermost frame.
    pub open spec fn left(self) -> MachineView {
        MachineView { frames: self.frames.drop_last(), ..self }
    }

    /// One step: the machine after it, and what it did.
    ///
    /// A command is run as [`eval_command`] says. A loop instruction is
    /// passed and its body entered at the end. At the end of a loop body the
    /// current cell is tested: the body starts again where it is not zero,
    /// and is left where it is. At the end of the program the machine halts.
    pub open spec fn step(self) -> (MachineView, Step) {
        if self.frames.len() == 0 {
            (self, Step::Halt)
        } else {
            let top = self.frames.last();
            if top.next < top.block.len() {
                match top.block[top.next as int] {
                    Node::Loop(body) => (self.moved_to(top.next + 1).entered(body), Step::Continue),
                    node => {
                        let outcome = eval_command(
                            node,
                            State { tape: self.tape, output: Seq::empty(), budget: 0 },
                        );
                        match outcome.result {
                            Ok(()) => (
                                MachineView { tape: outcome.state.tape, ..self.moved_to(top.next + 1) },
                                if node is Get {
                                    Step::Output(self.tape.current() as char)
                                } else {
                                    Step::Continue
                                },
                            ),
                            Err(error) => (self, Step::Fault(error)),
                        }
                    },
                }
            } else if self.frames.len() == 1 {
                (self, Step::Halt)
            } else if self.tape.current() != 0 {
                (self.moved_to(0), Step::Continue)
            } else {
                (self.left(), Step::Continue)
            }
        }
    }
}

impl MachineView {
    /// Frame `i` is in its place: it is not beyond the end of its block,
    /// and unless it is the first it is the body of the loop that the frame
    /// before it has just passed.
    pub open spec fn fits(self, i: int) -> bool {
        let inner = self.frames[i];
        let outer = self.frames[i - 1];
        &&& inner.next <= inner.block.len()
        &&& i > 0 ==> 0 < outer.next <= outer.block.len() && outer.block[outer.next - 1]
            == Node::Loop(inner.block)
    }

    /// This machine is somewhere in a run of `program`: its first frame is
    /// the program, and every frame is in its place.
    pub open spec fn runs(self, program: Seq<Node>) -> bool {
        &&& self.frames.len() > 0
        &&& self.frames[0].block == program
        &&& forall|i: int| 0 <= i < self.frames.len() ==> #[trigger] self.fits(i)
    }
}

/// A machine that starts on a program is in a run of it.
pub proof fn lemma_start_runs(program: Seq<Node>, tape: TapeView)
    ensures
        MachineView::start(program, tape).runs(program),
{
}

/// A machine in a run of a program is still in one after a step.
pub proof fn lemma_step_keeps_running(machine: MachineView, program: Seq<Node>)
    requires
        machine.runs(program),
    ensures
        machine.step().0.runs(program),
{
    let after = machine.step().0;
    let depth = machine.frames.len() as int;
    let top = machine.frames.last();
    assert(machine.fits(depth - 1));
    assert(machine.fits(0));
    if after.frames != machine.frames {
        assert forall|i: int| 0 <= i < after.frames.len() implies #[trigger] after.fits(i) by {
            if i < depth {
                assert(machine.fits(i));
            }
            if top.next < top.block.len() {
                let passed = machine.moved_to(top.next + 1);
                assert(passed.frames[depth - 1].block == top.block);
                if i < depth - 1 {
                    assert(after.frames[i] == machine.frames[i]);
                }
                if 0 < i < depth {
                    assert(after.frames[i - 1] == machine.frames[i - 1]);
                }
            } else if machine.tape.current() != 0 {
                if i < depth - 1 {
                    assert(after.frames[i] == machine.frames[i]);
                }
            } else {
                assert(after.frames[i] == machine.frames[i]);
            }
        }
    }
}

/// A block that holds a loop nests at least one deeper than the loop's body.
pub proof fn lemma_nesting_of_loop(block: Seq<Node>, at: int, body: Seq<Node>)
    requires
        0 <= at < block.len(),
        block[at] == Node::Loop(body),
    ensures
        nesting(block) >= 1 + nesting(body),
    decreases block.len(),
{
    if at < block.len() - 1 {
        lemma_nesting_of_loop(block.drop_last(), at, body);
    }
}

/// The frames of a run are never more than one more than the loop nesting
/// depth of the program: the machine goes as deep as the loops nest, however
/// often they iterate.
pub proof fn lemma_frames_bounded(machine: MachineView, program: Seq<Node>)
    requires
        machine.runs(program),
    ensures
        machine.frames.len() <= nesting(program) + 1,
{
    lemma_frames_nest(machine, program, machine.frames.len() - 1);
}

/// The block of frame `i` of a run nests at least as deep as there are frames after it.
proof fn lemma_frames_nest(machine: MachineView, program: Seq<Node>, i: int)
    requires
        machine.runs(program),
        0 <= i < machine.frames.len(),
    ensures
        nesting(machine.frames[machine.frames.len() - 1 - i].block) >= i,
    decreases i,
{
    if i > 0 {
        lemma_frames_nest(machine, program, i - 1);
        let inner = machine.frames[machine.frames.len() - i];
        let outer = machine.frames[machine.frames.len() - i - 1];
        assert(machine.fits(machine.frames.len() - i));
        lemma_nesting_of_loop(outer.block, outer.next - 1, inner.block);
    }
}

/// A block of the program that is being run and the index of its next instruction.
#[derive(Clone, Copy)]
struct Frame<'a> {
    block: &'a Vec<Instruction>,
    next: usize,
}

impl<'a> View for Frame<'a> {
    type V = FrameView;

    closed spec fn view(&self) -> FrameView {
        FrameView { block: self.block.deep_view(), next: self.next as nat }
    }
}

/// A program in the course of its run: where in the tree the run stands, and the tape.
pub struct Machine<'a> {
    frames: Vec<Frame<'a>>,
    tape: Tape,
}

impl<'a> View for Machine<'a> {
    type V = MachineView;

    closed spec fn view(&self) -> MachineView {
        MachineView {
            frames: Seq::new(self.frames@.len(), |i: int| self.frames@[i]@),
            tape: self.tape@,
        }
    }
}

impl<'a> Machine<'a> {
    /// The machine that is about to run `program` on `tape`.
    pub fn new(program: &'a Vec<Instruction>, tape: Tape) -> (machine: Machine<'a>)
        ensures
            machine@ == MachineView::start(program.deep_view(), tape@),
    {
        let mut frames: Vec<Frame<'a>> = Vec::new();
        frames.push(Frame { block: program, next: 0 });
        let machine = Machine { frames, tape };
        assert(machine@.frames =~= MachineView::start(program.deep_view(), tape@).frames);
        machine
    }

    /// The tape as the run has left it so far.
    pub fn tape(&self) -> (tape: &Tape)
        ensures
            tape@ == self@.tape,
    {
        &self.tape
    }

    /// Runs one step and says what it did. There is no budget here: the
    /// only faults are `TapeBounds` and `InvalidOutputValue`.
    pub fn step(&mut self) -> (event: Step)
        ensures
            (final(self)@, event) == old(self)@.step(),
            event != Step::Fault(RunError::IterationLimit),
    {
        let depth = self.frames.len();
        if depth == 0 {
            assert(self@.frames.len() == 0);
            return Step::Halt;
        }
        let top = depth - 1;
        let frame = self.frames[top];
        let block: &'a Vec<Instruction> = frame.block;
        assert(self@.frames.last() == frame@);
        if frame.next < block.len() {
            assert(block.deep_view()[frame.next as int] == block[frame.next as int].deep_view());
            let event = match &block[frame.next] {
                Instruction::IncPtr => {
                    let length = self.tape.len();
                    if self.tape.pointer() < length - 1 {
                        self.tape.inc_ptr();
                        Step::Continue
                    } else {
                        return Step::Fault(RunError::TapeBounds);
                    }
                },
                Instruction::DecPtr => {
                    if self.tape.pointer() > 0 {
                        self.tape.dec_ptr();
                        Step::Continue
                    } else {
                        return Step::Fault(RunError::TapeBounds);
                    }
                },
                Instruction::IncVal => {
                    self.tape.inc_val();
                    Step::Continue
                },
                Instruction::DecVal => {
                    self.tape.dec_val();
                    Step::Continue
                },
                Instruction::Zero => {
                    self.tape.set(0);
                    Step::Continue
                },
                Instruction::Get => {
                    match std::char::from_u32(self.tape.get()) {
                        Some(converted) => Step::Output(converted),
                        None => {
                            return Step::Fault(RunError::InvalidOutputValue);
                        },
                    }
                },
                Instruction::Loop(loop_instructions) => {
                    proof {
                        lemma_loop_view(*loop_instructions);
                    }
                    self.frames.set(top, Frame { block, next: frame.next + 1 });
                    self.frames.push(
                        Frame { block: loop_instructions, next: loop_instructions.len() },
                    );
                    assert(self@.frames =~= old(self)@.step().0.frames);
                    return Step::Continue;
                },
            };
            self.frames.set(top, Frame { block, next: frame.next + 1 });
            assert(self@.frames =~= old(self)@.step().0.frames);
            event
        } else if depth == 1 {
            Step::Halt
        } else if self.tape.get() != 0 {
            self.frames.set(top, Frame { block, next: 0 });
            assert(self@.frames =~= old(self)@.step().0.frames);
            Step::Continue
        } else {
            self.frames.pop();
            assert(self@.frames =~= old(self)@.step().0.frames);
            Step::Continue
        }
    }
}

} // verus!
