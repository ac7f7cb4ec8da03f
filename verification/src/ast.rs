//! The shared data model: the instruction tree produced by the parser and
//! consumed by the evaluator, and the structured error types.

use vstd::prelude::*;

verus! {

/// One node of the instruction tree. A `Loop` owns its body exclusively;
/// bodies nest to arbitrary depth. `Comment` is a parse artifact with no
/// runtime effect.
#[derive(Debug, PartialEq)]
pub enum Instruction {
    Increment,
    Decrement,
    PointerRight,
    PointerLeft,
    Output,
    Input,
    Loop(Vec<Instruction>),
    Comment,
}

/// Why the parser rejected the source text.
#[derive(Debug, Clone, Copy, PartialEq, Eq, Structural)]
pub enum ParseReason {
    /// A character that starts no production stood at the top level.
    UnexpectedCharacter,
    /// An open loop bracket was never closed: end of input or an
    /// unrecognized character was reached inside the loop body.
    UnterminatedLoop,
}

/// A parse failure: the byte offset at which it was detected (for an
/// unterminated loop, the offset of the opening bracket) and the reason.
#[derive(Debug, Clone, Copy, PartialEq, Eq, Structural)]
pub struct ParseError {
    pub position: usize,
    pub reason: ParseReason,
}

/// The mathematical model of one instruction: the same tree shape as
/// `Instruction`, with spec-level sequences for loop bodies, so that
/// contracts and proofs can build and take apart trees freely.
pub enum InstrView {
    Increment,
    Decrement,
    PointerRight,
    PointerLeft,
    Output,
    Input,
    Loop(Seq<InstrView>),
    Comment,
}

impl Instruction {
    /// The spec-level tree that this instruction stands for.
    pub open spec fn deep(self) -> InstrView
        decreases self,
    {
        match self {
            Instruction::Increment => InstrView::Increment,
            Instruction::Decrement => InstrView::Decrement,
            Instruction::PointerRight => InstrView::PointerRight,
            Instruction::PointerLeft => InstrView::PointerLeft,
            Instruction::Output => InstrView::Output,
            Instruction::Input => InstrView::Input,
            Instruction::Loop(body) => InstrView::Loop(view_prog(body@)),
            Instruction::Comment => InstrView::Comment,
        }
    }
}

/// The spec-level tree of a whole instruction sequence.
pub open spec fn view_prog(p: Seq<Instruction>) -> Seq<InstrView>
    decreases p,
{
    if p.len() == 0 {
        Seq::empty()
    } else {
        seq![p[0].deep()] + view_prog(p.subrange(1, p.len() as int))
    }
}

/// `view_prog` maps the sequence elementwise.
pub proof fn lemma_view_prog_index(p: Seq<Instruction>)
    ensures
        view_prog(p).len() == p.len(),
        forall|k: int| 0 <= k < p.len() ==> view_prog(p)[k] == #[trigger] p[k].deep(),
    decreases p,
{
    if p.len() > 0 {
        let tail = p.subrange(1, p.len() as int);
        lemma_view_prog_index(tail);
        assert forall|k: int| 0 <= k < p.len() implies view_prog(p)[k] == #[trigger] p[k].deep() by {
            if k == 0 {
                assert(view_prog(p)[0] == p[0].deep());
            } else {
                assert(view_prog(p)[k] == view_prog(tail)[k - 1]);
                assert(tail[k - 1] == p[k]);
            }
        }
    }
}

/// Extending a sequence by one instruction extends its model by one node.
pub proof fn lemma_view_prog_push(p: Seq<Instruction>, ins: Instruction)
    ensures
        view_prog(p.push(ins)) == view_prog(p).push(ins.deep()),
{
    let q = p.push(ins);
    lemma_view_prog_index(q);
    lemma_view_prog_index(p);
    assert forall|k: int| 0 <= k < q.len() implies view_prog(q)[k] == view_prog(p).push(
        ins.deep(),
    )[k] by {
        assert(view_prog(q)[k] == q[k].deep());
        if k < p.len() {
            assert(q[k] == p[k]);
            assert(view_prog(p)[k] == p[k].deep());
        } else {
            assert(q[k] == ins);
        }
    }
    assert(view_prog(q) =~= view_prog(p).push(ins.deep()));
}

/// A runtime failure of the evaluator. Every variant aborts the whole
/// execution immediately; output emitted before the failure is kept.
#[derive(Debug, Clone, Copy, PartialEq, Eq, Structural)]
pub enum ExecError {
    /// The data pointer would move past the last cell.
    TapeOverflow,
    /// The data pointer would move below the first cell.
    TapeUnderflow,
    /// An `Input` instruction found no characters remaining.
    InputExhausted,
    /// An `Input` instruction read a character whose code point does not
    /// fit in a single byte.
    InvalidInputCharacter { value: u32 },
    /// The step budget ran out before the program finished.
    Cancelled,
}

} // verus!
