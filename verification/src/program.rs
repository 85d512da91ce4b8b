//! The instruction tree.

use vstd::prelude::*;

verus! {

/// One node of a program tree, as a mathematical value.
pub enum Node {
    IncPtr,
    DecPtr,
    IncVal,
    DecVal,
    Zero,
    Get,
    Loop(Seq<Node>),
}

/// One instruction of a program. A loop owns its body.
#[derive(Debug, PartialEq, Eq)]
pub enum Instruction {
    IncPtr,
    DecPtr,
    IncVal,
    DecVal,
    Zero,
    Get,
    Loop(Vec<Instruction>),
}

impl DeepView for Instruction {
    type V = Node;

    open spec fn deep_view(&self) -> Node
        decreases self,
    {
        match self {
            Instruction::IncPtr => Node::IncPtr,
            Instruction::DecPtr => Node::DecPtr,
            Instruction::IncVal => Node::IncVal,
            Instruction::DecVal => Node::DecVal,
            Instruction::Zero => Node::Zero,
            Instruction::Get => Node::Get,
            Instruction::Loop(body) => Node::Loop(
                Seq::new(
                    body.len() as nat,
                    |i: int|
                        if 0 <= i < body.len() {
                            body[i].deep_view()
                        } else {
                            Node::IncPtr
                        },
                ),
            ),
        }
    }
}

/// The loop nesting depth of a block: zero without loops, else one more than
/// that of the body that nests deepest.
pub open spec fn nesting(block: Seq<Node>) -> nat
    decreases block,
{
    if block.len() == 0 {
        0
    } else {
        let before = nesting(block.drop_last());
        let last: nat = match block.last() {
            Node::Loop(body) => 1 + nesting(body),
            _ => 0,
        };
        if last > before {
            last
        } else {
            before
        }
    }
}

/// The view of a loop instruction is the loop node over the view of its body.
pub proof fn lemma_loop_view(body: Vec<Instruction>)
    ensures
        Instruction::Loop(body).deep_view() == Node::Loop(body.deep_view()),
{
    assert(Instruction::Loop(body).deep_view()->Loop_0 =~= body.deep_view());
}

} // verus!
