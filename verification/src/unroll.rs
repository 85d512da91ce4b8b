//! A loop and its body written out as often as the loop runs it.

use vstd::prelude::*;
use crate::eval::{
    eval_block, eval_loop, lemma_budget_never_grows, lemma_eval_concat, lemma_loop_unfold,
    lemma_more_budget, State,
};
use crate::program::Node;

verus! {

/// `body`, written out `times` times in a row.
pub open spec fn unrolled(body: Seq<Node>, times: nat) -> Seq<Node>
    decreases times,
{
    if times == 0 {
        Seq::empty()
    } else {
        body + unrolled(body, (times - 1) as nat)
    }
}

/// The number of iterations that a loop over `body` completes from `state`.
pub open spec fn iterations(body: Seq<Node>, state: State) -> nat
    decreases state.budget,
{
    if state.tape.current() == 0 || state.budget == 0 {
        0
    } else {
        let once = eval_block(body, state.spent());
        if once.result is Ok && once.state.budget < state.budget {
            1 + iterations(body, once.state)
        } else {
            0
        }
    }
}

/// A loop that ends does what its body does when written out once for each
/// iteration: it leaves the same tape and the same output, with the current
/// cell at zero, and the written-out body leaves the budget that the loop
/// spent on its iterations. After any smaller number of copies of the body
/// the current cell is not zero.
pub proof fn lemma_loop_is_unrolling(body: Seq<Node>, state: State)
    requires
        eval_loop(body, state).result is Ok,
    ensures
        ({
            let times = iterations(body, state);
            let looped = eval_loop(body, state);
            let straight = eval_block(unrolled(body, times), state);
            &&& straight.result is Ok
            &&& straight.state.tape == looped.state.tape
            &&& straight.state.output == looped.state.output
            &&& straight.state.budget == looped.state.budget + times
            &&& looped.state.tape.current() == 0
            &&& forall|fewer: nat|
                fewer < times ==> {
                    let partial = #[trigger] eval_block(unrolled(body, fewer), state);
                    partial.result is Ok && partial.state.tape.current() != 0
                }
        }),
    decreases state.budget,
{
    lemma_loop_unfold(body, state);
    if state.tape.current() != 0 {
        let once = eval_block(body, state.spent());
        lemma_budget_never_grows(body, state.spent());
        lemma_loop_is_unrolling(body, once.state);
        let rest = iterations(body, once.state);
        let times = iterations(body, state);
        assert(times == rest + 1);
        assert(state.spent().granted(1) == state);
        lemma_more_budget(body, state.spent(), 1);
        assert(eval_block(body, state) == once.granted(1));
        assert(unrolled(body, 0) =~= Seq::<Node>::empty());
        assert forall|fewer: nat| fewer <= times implies {
            let ahead = if fewer == 0 {
                state.done()
            } else {
                eval_block(unrolled(body, (fewer - 1) as nat), once.state).granted(1)
            };
            #[trigger] eval_block(unrolled(body, fewer), state) == ahead
        } by {
            if fewer > 0 {
                let shorter = unrolled(body, (fewer - 1) as nat);
                lemma_eval_concat(body, shorter, state);
                lemma_more_budget(shorter, once.state, 1);
            }
        }
    }
}

} // verus!
