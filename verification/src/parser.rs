//! The structural parser: from tokens to a program tree.

use vstd::prelude::*;
use vstd::slice::{slice_subrange, slice_to_vec};
use crate::brackets::{
    balanced, depth_after, has_unmatched_end, has_unmatched_start, is_significant,
    lemma_depth_of_prefix, lemma_depth_subrange, lemma_loop_profile, lemma_peak_bounds,
    lemma_peak_is, lemma_significant_balance, lemma_significant_step, peak_depth, significant,
};
use crate::program::{lemma_loop_view, nesting, Instruction, Node};
use crate::scanner::Token;

verus! {

/// Why a token sequence is not a program.
#[derive(Clone, Copy, Debug, PartialEq, Eq)]
pub enum ParseError {
    /// A loop end stands where no loop is open.
    UnmatchedLoopEnd,
    /// A loop is still open where the tokens end.
    UnmatchedLoopStart,
}

/// The token that a node other than a loop is written as.
pub open spec fn command_token(node: Node) -> Token {
    match node {
        Node::IncPtr => Token::IncPtr,
        Node::DecPtr => Token::DecPtr,
        Node::IncVal => Token::IncVal,
        Node::DecVal => Token::DecVal,
        Node::Zero => Token::Zero,
        Node::Get => Token::Get,
        Node::Loop(_) => Token::LoopStart,
    }
}

/// The tokens that a block is written as: each command as its token, each
/// loop as its body between a loop start and a loop end.
pub open spec fn block_tokens(block: Seq<Node>) -> Seq<Token>
    decreases block,
{
    if block.len() == 0 {
        Seq::empty()
    } else {
        let front = block_tokens(block.drop_last());
        match block.last() {
            Node::Loop(body) => (front.push(Token::LoopStart) + block_tokens(body)).push(
                Token::LoopEnd,
            ),
            node => front.push(command_token(node)),
        }
    }
}

/// What one more node adds to the tokens of a block.
pub proof fn lemma_block_tokens_push(block: Seq<Node>, node: Node)
    ensures
        block_tokens(block.push(node)) == match node {
            Node::Loop(body) => (block_tokens(block).push(Token::LoopStart) + block_tokens(
                body,
            )).push(Token::LoopEnd),
            _ => block_tokens(block).push(command_token(node)),
        },
{
    assert(block.push(node).drop_last() =~= block);
}

/// The tokens of a block are balanced, and their bracket nesting depth is
/// the loop nesting depth of the block.
pub proof fn lemma_block_depths(block: Seq<Node>)
    ensures
        balanced(block_tokens(block)),
        forall|n: int|
            0 <= n <= block_tokens(block).len() ==> #[trigger] depth_after(block_tokens(block), n)
                >= 0,
        depth_after(block_tokens(block), block_tokens(block).len() as int) == 0,
        peak_depth(block_tokens(block)) == nesting(block),
    decreases block,
{
    let whole = block_tokens(block);
    if block.len() == 0 {
        assert(depth_after(whole, 0) == 0);
        lemma_peak_is(whole, 0);
    } else {
        let front = block_tokens(block.drop_last());
        lemma_block_depths(block.drop_last());
        lemma_peak_bounds(front, front.len() as int);
        let high = choose|m: int|
            0 <= m <= front.len() && #[trigger] depth_after(front, m) == peak_depth(front);
        match block.last() {
            Node::Loop(body) => {
                let inner = block_tokens(body);
                lemma_block_depths(body);
                lemma_peak_bounds(inner, inner.len() as int);
                lemma_loop_profile(front, inner);
                let deep = choose|m: int|
                    0 <= m <= inner.len() && #[trigger] depth_after(inner, m) == peak_depth(inner);
                let peak = if 1 + peak_depth(inner) > peak_depth(front) {
                    1 + peak_depth(inner)
                } else {
                    peak_depth(front)
                };
                assert forall|n: int| 0 <= n <= whole.len() implies 0 <= #[trigger] depth_after(
                    whole,
                    n,
                ) <= peak by {
                    if n <= front.len() {
                        assert(depth_after(whole, n) == depth_after(front, n));
                    } else if n < whole.len() {
                        let k = n - front.len() - 1;
                        assert(depth_after(whole, front.len() + 1 + k) == 1 + depth_after(inner, k));
                    }
                }
                assert(depth_after(whole, high) == depth_after(front, high));
                assert(depth_after(whole, front.len() + 1 + deep) == 1 + depth_after(inner, deep));
                lemma_peak_is(whole, peak);
            },
            node => {
                assert(whole == front.push(command_token(node)));
                assert forall|n: int| 0 <= n <= whole.len() implies 0 <= #[trigger] depth_after(
                    whole,
                    n,
                ) <= peak_depth(front) by {
                    if n <= front.len() {
                        lemma_depth_of_prefix(whole, front, n);
                    } else {
                        lemma_depth_of_prefix(whole, front, n - 1);
                    }
                }
                lemma_depth_of_prefix(whole, front, high);
                lemma_peak_is(whole, peak_depth(front));
                lemma_depth_of_prefix(whole, front, front.len() as int);
            },
        }
    }
}

/// Two blocks that are written as the same tokens are the same block.
pub proof fn lemma_block_tokens_injective(a: Seq<Node>, b: Seq<Node>)
    requires
        block_tokens(a) == block_tokens(b),
    ensures
        a == b,
    decreases block_tokens(a).len(),
{
    let whole = block_tokens(a);
    if a.len() == 0 || b.len() == 0 {
        assert(a.len() == 0 ==> whole.len() == 0);
        assert(b.len() == 0 ==> whole.len() == 0);
        assert(a.len() > 0 ==> whole.len() > 0);
        assert(b.len() > 0 ==> whole.len() > 0);
        assert(a =~= b);
    } else {
        let front_a = block_tokens(a.drop_last());
        let front_b = block_tokens(b.drop_last());
        match (a.last(), b.last()) {
            (Node::Loop(body_a), Node::Loop(body_b)) => {
                let inner_a = block_tokens(body_a);
                let inner_b = block_tokens(body_b);
                lemma_block_depths(a.drop_last());
                lemma_block_depths(b.drop_last());
                lemma_block_depths(body_a);
                lemma_block_depths(body_b);
                lemma_loop_profile(front_a, inner_a);
                lemma_loop_profile(front_b, inner_b);
                if front_a.len() < front_b.len() {
                    let k = front_b.len() - front_a.len() - 1;
                    assert(depth_after(whole, front_a.len() + 1 + k) == 1 + depth_after(inner_a, k));
                    assert(depth_after(whole, front_b.len() as int) == depth_after(
                        front_b,
                        front_b.len() as int,
                    ));
                    assert(false);
                }
                if front_b.len() < front_a.len() {
                    let k = front_a.len() - front_b.len() - 1;
                    assert(depth_after(whole, front_b.len() + 1 + k) == 1 + depth_after(inner_b, k));
                    assert(depth_after(whole, front_a.len() as int) == depth_after(
                        front_a,
                        front_a.len() as int,
                    ));
                    assert(false);
                }
                let split = front_a.len() as int;
                assert(front_a =~= whole.subrange(0, split));
                assert(front_b =~= whole.subrange(0, split));
                assert(inner_a =~= whole.subrange(split + 1, whole.len() - 1));
                assert(inner_b =~= whole.subrange(split + 1, whole.len() - 1));
                lemma_block_tokens_injective(a.drop_last(), b.drop_last());
                lemma_block_tokens_injective(body_a, body_b);
            },
            (Node::Loop(_), _) => {
                assert(whole.last() == Token::LoopEnd);
                assert(whole.last() == command_token(b.last()));
                assert(false);
            },
            (_, Node::Loop(_)) => {
                assert(whole.last() == Token::LoopEnd);
                assert(whole.last() == command_token(a.last()));
                assert(false);
            },
            (_, _) => {
                assert(whole.last() == command_token(a.last()));
                assert(whole.last() == command_token(b.last()));
                assert(front_a =~= whole.drop_last());
                assert(front_b =~= whole.drop_last());
                lemma_block_tokens_injective(a.drop_last(), b.drop_last());
            },
        }
        assert(a =~= a.drop_last().push(a.last()));
        assert(b =~= b.drop_last().push(b.last()));
    }
}

/// The program tree of a token sequence: the block that is written as its
/// significant tokens. There is at most one (see
/// [`lemma_block_tokens_injective`]), and [`parse`] finds it for every
/// balanced sequence.
pub open spec fn tree_of(tokens: Seq<Token>) -> Seq<Node> {
    choose|block: Seq<Node>| block_tokens(block) == significant(tokens)
}

/// A block that is written as the significant tokens of `tokens` is their tree.
pub proof fn lemma_tree_of(tokens: Seq<Token>, block: Seq<Node>)
    requires
        block_tokens(block) == significant(tokens),
    ensures
        tree_of(tokens) == block,
{
    lemma_block_tokens_injective(tree_of(tokens), block);
}

/// Only balanced tokens have a tree, and its loops nest as deeply as their brackets.
pub proof fn lemma_tree_nesting(tokens: Seq<Token>, block: Seq<Node>)
    requires
        block_tokens(block) == significant(tokens),
    ensures
        balanced(tokens),
        nesting(block) == peak_depth(tokens),
{
    lemma_block_depths(block);
    lemma_significant_balance(tokens);
}

/// What is wrong with the brackets of a token sequence, if anything: a loop
/// end that closes nothing counts before a loop that is left open.
pub open spec fn bracket_error(tokens: Seq<Token>) -> Option<ParseError> {
    if has_unmatched_end(tokens) {
        Some(ParseError::UnmatchedLoopEnd)
    } else if has_unmatched_start(tokens) {
        Some(ParseError::UnmatchedLoopStart)
    } else {
        None
    }
}

/// Where a loop that was opened at depth zero is closed, the tokens between
/// are balanced, and the significant tokens up to the loop end are those
/// before the loop, a loop start, those of the span between, and a loop end.
proof fn lemma_close_loop(tokens: Seq<Token>, start: int, end: int)
    requires
        0 <= start < end < tokens.len(),
        tokens[start] == Token::LoopStart,
        tokens[end] == Token::LoopEnd,
        depth_after(tokens, start) == 0,
        depth_after(tokens, end) == 1,
        forall|n: int| start < n <= end ==> #[trigger] depth_after(tokens, n) >= 1,
    ensures
        balanced(tokens.subrange(start + 1, end)),
        significant(tokens.take(end + 1)) == (significant(tokens.take(start)).push(
            Token::LoopStart,
        ) + significant(tokens.subrange(start + 1, end))).push(Token::LoopEnd),
{
    let inner = tokens.subrange(start + 1, end);
    assert(depth_after(tokens, start + 1) == 1);
    assert forall|n: int| 0 <= n <= inner.len() implies #[trigger] depth_after(inner, n) >= 0 by {
        lemma_depth_subrange(tokens, start + 1, end, n);
        assert(depth_after(tokens, start + 1 + n) >= 1);
    }
    lemma_depth_subrange(tokens, start + 1, end, end - start - 1);
    assert(depth_after(inner, inner.len() as int) == 0);

    let before = tokens.take(start);
    assert(tokens.take(end + 1) =~= (before.push(Token::LoopStart) + inner).push(Token::LoopEnd));
    (before.push(Token::LoopStart) + inner).lemma_filter_push(Token::LoopEnd, is_significant());
    Seq::filter_distributes_over_add(before.push(Token::LoopStart), inner, is_significant());
    before.lemma_filter_push(Token::LoopStart, is_significant());
}

/// Builds the program tree of a token sequence.
///
/// Commands become instructions in their order, ignored tokens are left
/// out, and the tokens between a loop start and the loop end that closes it
/// become the body of one loop instruction. The tokens of the tree are thus
/// the significant tokens of the input. Tokens that are not balanced are
/// refused: with `UnmatchedLoopEnd` where a loop end closes nothing, else
/// with `UnmatchedLoopStart`.
pub fn parse(tokens: &Vec<Token>) -> (result: Result<Vec<Instruction>, ParseError>)
    ensures
        match result {
            Ok(program) => {
                &&& bracket_error(tokens@) is None
                &&& block_tokens(program.deep_view()) == significant(tokens@)
                &&& program.deep_view() == tree_of(tokens@)
                &&& nesting(program.deep_view()) == peak_depth(tokens@)
            },
            Err(error) => bracket_error(tokens@) == Some(error),
        },
    decreases tokens.len(),
{
    let mut program: Vec<Instruction> = Vec::new();
    let mut loop_stack: usize = 0;
    let mut loop_start: usize = 0;
    let mut i: usize = 0;
    while i < tokens.len()
        invariant
            i <= tokens.len(),
            loop_stack <= i,
            loop_stack as int == depth_after(tokens@, i as int),
            forall|n: int| 0 <= n <= i ==> #[trigger] depth_after(tokens@, n) >= 0,
            loop_stack == 0 ==> block_tokens(program.deep_view()) == significant(
                tokens@.take(i as int),
            ),
            loop_stack > 0 ==> {
                &&& loop_start < i
                &&& tokens@[loop_start as int] == Token::LoopStart
                &&& depth_after(tokens@, loop_start as int) == 0
                &&& forall|n: int| loop_start < n <= i ==> #[trigger] depth_after(tokens@, n) >= 1
                &&& block_tokens(program.deep_view()) == significant(
                    tokens@.take(loop_start as int),
                )
            },
        decreases tokens.len() - i,
    {
        let token = tokens[i];
        let ghost before = program.deep_view();
        if loop_stack == 0 {
            match token {
                Token::IncPtr => program.push(Instruction::IncPtr),
                Token::DecPtr => program.push(Instruction::DecPtr),
                Token::IncVal => program.push(Instruction::IncVal),
                Token::DecVal => program.push(Instruction::DecVal),
                Token::Zero => program.push(Instruction::Zero),
                Token::Get => program.push(Instruction::Get),
                Token::LoopStart => {
                    loop_stack = 1;
                    loop_start = i;
                },
                Token::LoopEnd => {
                    assert(depth_after(tokens@, i + 1) < 0);
                    return Err(ParseError::UnmatchedLoopEnd);
                },
                Token::Ignore => {},
            }
            proof {
                lemma_significant_step(tokens@, i as int);
                if token != Token::LoopStart && token != Token::Ignore {
                    let node = program@.last().deep_view();
                    assert(program.deep_view() =~= before.push(node));
                    lemma_block_tokens_push(before, node);
                }
            }
        } else {
            match token {
                Token::LoopStart => {
                    loop_stack += 1;
                },
                Token::LoopEnd => {
                    loop_stack -= 1;
                    if loop_stack == 0 {
                        let loop_tokens = slice_to_vec(
                            slice_subrange(tokens.as_slice(), loop_start + 1, i),
                        );
                        proof {
                            lemma_close_loop(tokens@, loop_start as int, i as int);
                        }
                        match parse(&loop_tokens) {
                            Ok(loop_instructions) => {
                                proof {
                                    lemma_loop_view(loop_instructions);
                                    lemma_block_tokens_push(
                                        before,
                                        Node::Loop(loop_instructions.deep_view()),
                                    );
                                }
                                program.push(Instruction::Loop(loop_instructions));
                                assert(program.deep_view() =~= before.push(
                                    Node::Loop(loop_instructions.deep_view()),
                                ));
                            },
                            Err(error) => {
                                // The tokens inside a closed loop are balanced:
                                // this arm is never taken.
                                return Err(error);
                            },
                        }
                    }
                },
                _ => {},
            }
        }
        i += 1;
    }
    if loop_stack > 0 {
        Err(ParseError::UnmatchedLoopStart)
    } else {
        proof {
            assert(tokens@.take(i as int) =~= tokens@);
            lemma_tree_of(tokens@, program.deep_view());
            lemma_tree_nesting(tokens@, program.deep_view());
        }
        Ok(program)
    }
}

} // verus!
