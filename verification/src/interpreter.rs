//! The whole pipeline: scan, parse, run.

use vstd::prelude::*;
use crate::brackets::{depth_after, lemma_significant_step, significant};
use crate::eval::{eval_block, run, RunError, State};
use crate::parser::{block_tokens, bracket_error, lemma_tree_of, parse, tree_of, ParseError};
use crate::program::Node;
use crate::scanner::{scan, token_of, tokenize, Token};
use crate::tape::Tape;

verus! {

/// Why a source text was not run to its end.
#[derive(Clone, Copy, Debug, PartialEq, Eq)]
pub enum InterpretError {
    /// The brackets of the source do not match; nothing was run.
    Parse(ParseError),
    /// The program stopped with an error.
    Run(RunError),
}

/// Scans and parses `contents` and runs the program on `tape`, appending
/// what it prints to `output` and taking one unit from `budget` for each
/// loop iteration.
///
/// A source whose brackets do not match is refused before anything runs:
/// the tape, the output and the budget are then left as they were.
pub fn interpret(
    contents: &String,
    tape: &mut Tape,
    output: &mut Vec<char>,
    budget: &mut u64,
) -> (result: Result<(), InterpretError>)
    ensures
        match bracket_error(scan(contents@)) {
            Some(error) => {
                &&& result == Err::<(), InterpretError>(InterpretError::Parse(error))
                &&& final(tape)@ == old(tape)@
                &&& final(output)@ == old(output)@
                &&& *final(budget) == *old(budget)
            },
            None => {
                let outcome = eval_block(
                    tree_of(scan(contents@)),
                    (State { tape: old(tape)@, output: old(output)@, budget: *old(budget) as nat }),
                );
                &&& result == match outcome.result {
                    Ok(()) => Ok::<(), InterpretError>(()),
                    Err(error) => Err::<(), InterpretError>(InterpretError::Run(error)),
                }
                &&& final(tape)@ == outcome.state.tape
                &&& final(output)@ == outcome.state.output
                &&& *final(budget) == outcome.state.budget
            },
        },
{
    let tokens = tokenize(contents);
    match parse(&tokens) {
        Ok(program) => match run(&program, tape, output, budget) {
            Ok(()) => Ok(()),
            Err(error) => Err(InterpretError::Run(error)),
        },
        Err(error) => Err(InterpretError::Parse(error)),
    }
}

/// A source without any command character is the empty program: its
/// brackets match, its tree has no instruction, and running it changes
/// neither the tape nor the output.
pub proof fn lemma_ignored_source_does_nothing(source: Seq<char>, state: State)
    requires
        forall|i: int| 0 <= i < source.len() ==> token_of(#[trigger] source[i]) == Token::Ignore,
    ensures
        bracket_error(scan(source)) is None,
        tree_of(scan(source)) == Seq::<Node>::empty(),
        eval_block(tree_of(scan(source)), state) == state.done(),
{
    let tokens = scan(source);
    assert forall|n: int| 0 <= n <= tokens.len() implies #[trigger] depth_after(tokens, n) == 0
        && significant(tokens.take(n)).len() == 0 by {
        lemma_all_ignored(tokens, n);
    }
    assert(tokens.take(tokens.len() as int) =~= tokens);
    assert(significant(tokens) =~= block_tokens(Seq::<Node>::empty()));
    lemma_tree_of(tokens, Seq::<Node>::empty());
}

/// Tokens that are all ignored open no loop and leave no significant token.
proof fn lemma_all_ignored(tokens: Seq<Token>, n: int)
    requires
        0 <= n <= tokens.len(),
        forall|i: int| 0 <= i < tokens.len() ==> #[trigger] tokens[i] == Token::Ignore,
    ensures
        depth_after(tokens, n) == 0,
        significant(tokens.take(n)).len() == 0,
    decreases n,
{
    if n > 0 {
        lemma_all_ignored(tokens, n - 1);
        lemma_significant_step(tokens, n - 1);
    } else {
        assert(tokens.take(0) =~= Seq::<Token>::empty());
        tokens.take(0).lemma_filter_len(crate::brackets::is_significant());
    }
}

} // verus!
