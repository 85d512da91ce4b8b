//! The machine, step by step, does what the evaluation of the tree says.

use vstd::prelude::*;
use crate::eval::{
    eval_block, eval_command, eval_loop, lemma_budget_never_grows, lemma_loop_budget_never_grows,
    lemma_loop_unfold, RunError, State,
};
use crate::machine::{FrameView, MachineView, Step};
use crate::program::Node;

verus! {

/// The character that a step printed, if any.
pub open spec fn printed_by(event: Step) -> Seq<char> {
    match event {
        Step::Output(ch) => seq![ch],
        _ => Seq::empty(),
    }
}

/// The machine after `count` steps from `machine`, and what those steps printed.
pub open spec fn run_steps(machine: MachineView, count: nat) -> (MachineView, Seq<char>)
    decreases count,
{
    if count == 0 {
        (machine, Seq::empty())
    } else {
        let (next, event) = machine.step();
        let (last, printed) = run_steps(next, (count - 1) as nat);
        (last, printed_by(event) + printed)
    }
}

/// The number of steps that the machine takes over a block from `state`, up
/// to its end or to the instruction that fails.
pub open spec fn block_steps(block: Seq<Node>, state: State) -> nat
    decreases block, state.budget, 0nat,
{
    if block.len() == 0 {
        0
    } else {
        match block[0] {
            Node::Loop(body) => {
                let looped = eval_loop(body, state);
                1 + loop_steps(body, state) + if looped.result is Ok {
                    block_steps(block.drop_first(), looped.state)
                } else {
                    0
                }
            },
            node => {
                let first = eval_command(node, state);
                if first.result is Ok {
                    1 + block_steps(block.drop_first(), first.state)
                } else {
                    0
                }
            },
        }
    }
}

/// The number of steps that the machine takes over a loop from the test of
/// the current cell in `state`, up to leaving the loop or to the
/// instruction that fails.
pub open spec fn loop_steps(body: Seq<Node>, state: State) -> nat
    decreases body, state.budget, 1nat,
{
    if state.tape.current() == 0 {
        1
    } else if state.budget == 0 {
        0
    } else {
        let once = eval_block(body, state.spent());
        1 + block_steps(body, state.spent()) + if once.result is Ok && once.state.budget
            < state.budget {
            loop_steps(body, once.state)
        } else {
            0
        }
    }
}

/// Steps add up: `first + second` steps are `first` steps and then `second` more.
pub proof fn lemma_run_steps_add(machine: MachineView, first: nat, second: nat)
    ensures
        run_steps(machine, first + second) == {
            let (middle, before) = run_steps(machine, first);
            let (last, after) = run_steps(middle, second);
            (last, before + after)
        },
    decreases first,
{
    let (middle, before) = run_steps(machine, first);
    let (last, after) = run_steps(middle, second);
    if first == 0 {
        assert(before + after =~= after);
    } else {
        let (next, event) = machine.step();
        lemma_run_steps_add(next, (first - 1) as nat, second);
        let (_, rest) = run_steps(next, (first - 1) as nat);
        assert((first + second - 1) as nat == (first - 1) as nat + second);
        assert((printed_by(event) + rest) + after =~= printed_by(event) + (rest + after));
    }
}

/// From index `at` of a block that lies on top of the frames `under`, the
/// machine reaches what the evaluation of the rest of the block reaches:
/// the same tape and the same output, at the end of the block where the
/// evaluation succeeds, and before the instruction that fails where it fails.
proof fn lemma_block_simulation(under: Seq<FrameView>, block: Seq<Node>, at: nat, state: State)
    requires
        at <= block.len(),
        eval_block(block.skip(at as int), state).result != Err::<(), RunError>(
            RunError::IterationLimit,
        ),
    ensures
        ({
            let outcome = eval_block(block.skip(at as int), state);
            let from = MachineView {
                frames: under.push(FrameView { block, next: at }),
                tape: state.tape,
            };
            let (to, printed) = run_steps(from, block_steps(block.skip(at as int), state));
            &&& to.tape == outcome.state.tape
            &&& state.output + printed == outcome.state.output
            &&& match outcome.result {
                Ok(()) => to.frames == under.push(FrameView { block, next: block.len() }),
                Err(error) => to.step() == (to, Step::Fault(error)),
            }
        }),
    decreases block, state.budget, block.len() - at,
{
    let rest = block.skip(at as int);
    let from = MachineView { frames: under.push(FrameView { block, next: at }), tape: state.tape };
    if at == block.len() {
        assert(state.output + Seq::<char>::empty() =~= state.output);
    } else {
        assert(rest[0] == block[at as int]);
        assert(rest.drop_first() =~= block.skip((at + 1) as int));
        let onward = MachineView {
            frames: under.push(FrameView { block, next: at + 1 }),
            tape: state.tape,
        };
        assert(from.moved_to(at + 1).frames =~= onward.frames);
        match block[at as int] {
            Node::Loop(body) => {
                let looped = eval_loop(body, state);
                let inside = MachineView {
                    frames: onward.frames.push(FrameView { block: body, next: body.len() }),
                    tape: state.tape,
                };
                assert(from.step() == (inside, Step::Continue));
                lemma_loop_budget_never_grows(body, state);
                lemma_loop_simulation(onward.frames, body, state);
                let loop_count = loop_steps(body, state);
                let (after_loop, in_loop) = run_steps(inside, loop_count);
                lemma_run_steps_add(from, 1, loop_count);
                assert(run_steps(from, 1) == (inside, Seq::<char>::empty())) by {
                    assert(run_steps(inside, 0) == (inside, Seq::<char>::empty()));
                    assert(Seq::<char>::empty() + Seq::<char>::empty() =~= Seq::<char>::empty());
                }
                assert(Seq::<char>::empty() + in_loop =~= in_loop);
                assert(run_steps(from, 1 + loop_count) == (after_loop, in_loop));
                if looped.result is Ok {
                    lemma_block_simulation(under, block, at + 1, looped.state);
                    let tail_count = block_steps(block.skip((at + 1) as int), looped.state);
                    let (_, in_tail) = run_steps(after_loop, tail_count);
                    lemma_run_steps_add(from, 1 + loop_count, tail_count);
                    assert((state.output + in_loop) + in_tail =~= state.output + (in_loop
                        + in_tail));
                }
            },
            node => {
                let first = eval_command(node, state);
                if first.result is Ok {
                    let (next, event) = from.step();
                    assert(next == MachineView { tape: first.state.tape, ..onward });
                    lemma_block_simulation(under, block, at + 1, first.state);
                    let tail_count = block_steps(block.skip((at + 1) as int), first.state);
                    let (_, in_tail) = run_steps(next, tail_count);
                    assert(state.output + printed_by(event) =~= first.state.output);
                    assert((state.output + printed_by(event)) + in_tail =~= state.output + (
                    printed_by(event) + in_tail));
                } else {
                    assert(state.output + Seq::<char>::empty() =~= state.output);
                }
            },
        }
    }
}

/// From the test of the current cell at the end of a loop body that lies
/// on top of the frames `under`, the machine reaches what the evaluation of
/// the loop reaches: the same tape and the same output, outside the loop
/// where the evaluation succeeds, and before the instruction that fails
/// where it fails.
proof fn lemma_loop_simulation(under: Seq<FrameView>, body: Seq<Node>, state: State)
    requires
        under.len() > 0,
        eval_loop(body, state).result != Err::<(), RunError>(RunError::IterationLimit),
    ensures
        ({
            let outcome = eval_loop(body, state);
            let from = MachineView {
                frames: under.push(FrameView { block: body, next: body.len() }),
                tape: state.tape,
            };
            let (to, printed) = run_steps(from, loop_steps(body, state));
            &&& to.tape == outcome.state.tape
            &&& state.output + printed == outcome.state.output
            &&& match outcome.result {
                Ok(()) => to.frames == under,
                Err(error) => to.step() == (to, Step::Fault(error)),
            }
        }),
    decreases body, state.budget, 0nat,
{
    let from = MachineView {
        frames: under.push(FrameView { block: body, next: body.len() }),
        tape: state.tape,
    };
    lemma_loop_unfold(body, state);
    if state.tape.current() == 0 {
        let outside = MachineView { frames: under, tape: state.tape };
        assert(from.left().frames =~= under);
        assert(from.step() == (outside, Step::Continue));
        assert(run_steps(outside, 0) == (outside, Seq::<char>::empty()));
        assert(Seq::<char>::empty() + Seq::<char>::empty() =~= Seq::<char>::empty());
        assert(state.output + Seq::<char>::empty() =~= state.output);
    } else {
        let again = MachineView {
            frames: under.push(FrameView { block: body, next: 0 }),
            tape: state.tape,
        };
        assert(from.moved_to(0).frames =~= again.frames);
        assert(from.step() == (again, Step::Continue));
        assert(run_steps(from, 1) == (again, Seq::<char>::empty())) by {
            assert(run_steps(again, 0) == (again, Seq::<char>::empty()));
            assert(Seq::<char>::empty() + Seq::<char>::empty() =~= Seq::<char>::empty());
        }
        let once = eval_block(body, state.spent());
        assert(body.skip(0) =~= body);
        lemma_budget_never_grows(body, state.spent());
        lemma_block_simulation(under, body, 0, state.spent());
        let body_count = block_steps(body, state.spent());
        let (after_body, in_body) = run_steps(again, body_count);
        lemma_run_steps_add(from, 1, body_count);
        assert(Seq::<char>::empty() + in_body =~= in_body);
        assert(run_steps(from, 1 + body_count) == (after_body, in_body));
        if once.result is Ok {
            lemma_loop_simulation(under, body, once.state);
            let more_count = loop_steps(body, once.state);
            let (_, in_more) = run_steps(after_body, more_count);
            lemma_run_steps_add(from, 1 + body_count, more_count);
            assert((state.output + in_body) + in_more =~= state.output + (in_body + in_more));
        }
    }
}

/// The machine does what the evaluation of the program says. Where the
/// evaluation of `program` from `state` ends, with enough budget for all
/// its loop iterations, the machine started on the same tape has, after
/// `block_steps(program, state)` steps, the tape of the outcome and has
/// printed its output; from then on it halts where the evaluation
/// succeeded, and reports the error where it failed.
pub proof fn lemma_machine_follows_eval(program: Seq<Node>, state: State)
    requires
        eval_block(program, state).result != Err::<(), RunError>(RunError::IterationLimit),
    ensures
        ({
            let outcome = eval_block(program, state);
            let (end, printed) = run_steps(
                MachineView::start(program, state.tape),
                block_steps(program, state),
            );
            &&& end.tape == outcome.state.tape
            &&& state.output + printed == outcome.state.output
            &&& end.step() == (
                end,
                match outcome.result {
                    Ok(()) => Step::Halt,
                    Err(error) => Step::Fault(error),
                },
            )
        }),
{
    assert(program.skip(0) =~= program);
    assert(MachineView::start(program, state.tape).frames =~= Seq::<FrameView>::empty().push(
        FrameView { block: program, next: 0 },
    ));
    lemma_block_simulation(Seq::<FrameView>::empty(), program, 0, state);
}

} // verus!
