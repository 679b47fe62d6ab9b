use vstd::prelude::*;

use crate::ir::{ir_element_model, ir_elements_model, lemma_ir_elements_model_push, IRElement, IRNode, IrElem};
use crate::token::{body_span, lemma_span_bound, span, well_nested, Token};

verus! {

/// The element that a token other than a bracket becomes.
pub open spec fn unit_ir_element(t: Token) -> IrElem {
    match t {
        Token::IncrementPointer => IrElem::MovPtr { by: 1 },
        Token::DecrementPointer => IrElem::MovPtr { by: -1isize },
        Token::IncrementValue => IrElem::MutVal { at: 0, by: 1 },
        Token::DecrementValue => IrElem::MutVal { at: 0, by: -1isize },
        Token::OutputByte => IrElem::Push { from: 0 },
        _ => IrElem::Read { to: 0 },
    }
}

/// The IR of `t`: one element per token but the brackets, and a conditional
/// block holding the tokens between each loop-open and its close.
pub open spec fn ir_of(t: Seq<Token>) -> Seq<IrElem>
    decreases t.len(),
{
    if t.len() == 0 {
        Seq::empty()
    } else {
        match t[0] {
            Token::JumpBackward => ir_of(t.skip(1)),
            Token::JumpForward => {
                let rest = t.skip(1);
                let k = span(rest, 1);
                proof {
                    lemma_span_bound(rest, 1);
                }
                seq![IrElem::CondBlck(ir_of(rest.take(k as int)))] + ir_of(rest.skip(k as int))
            },
            _ => seq![unit_ir_element(t[0])] + ir_of(t.skip(1)),
        }
    }
}

/// Builds the IR of a properly nested token sequence.
pub fn transform(tks: &[Token]) -> (r: IRNode)
    requires
        well_nested(tks@),
    ensures
        r@ == ir_of(tks@),
{
    let content = build(tks, 0, tks.len());
    proof {
        assert(tks@.subrange(0, tks@.len() as int) =~= tks@);
    }
    IRNode { content }
}

/// The element that a token other than a bracket becomes.
fn unit(t: Token) -> (r: IRElement)
    requires
        t != Token::JumpForward,
        t != Token::JumpBackward,
    ensures
        ir_element_model(r) == unit_ir_element(t),
{
    match t {
        Token::IncrementPointer => IRElement::MovPtr { by: 1 },
        Token::DecrementPointer => IRElement::MovPtr { by: -1 },
        Token::IncrementValue => IRElement::MutVal { at: 0, by: 1 },
        Token::DecrementValue => IRElement::MutVal { at: 0, by: -1 },
        Token::OutputByte => IRElement::Push { from: 0 },
        _ => IRElement::Read { to: 0 },
    }
}

/// Builds the IR of `tokens[start..end]`.
fn build(tokens: &[Token], start: usize, end: usize) -> (r: Vec<IRElement>)
    requires
        start <= end <= tokens@.len(),
    ensures
        ir_elements_model(r@) == ir_of(tokens@.subrange(start as int, end as int)),
    decreases end - start,
{
    let ghost all = ir_of(tokens@.subrange(start as int, end as int));
    let mut out: Vec<IRElement> = Vec::new();
    let mut i: usize = start;
    proof {
        assert(ir_elements_model(out@) + all =~= all);
    }
    while i < end
        invariant
            start <= i <= end <= tokens@.len(),
            all == ir_of(tokens@.subrange(start as int, end as int)),
            all == ir_elements_model(out@) + ir_of(tokens@.subrange(i as int, end as int)),
        decreases end - i,
    {
        let ghost u = tokens@.subrange(i as int, end as int);
        proof {
            assert(u[0] == tokens@[i as int]);
            assert(u.skip(1) =~= tokens@.subrange(i + 1, end as int));
        }
        match tokens[i] {
            Token::JumpBackward => {
                i = i + 1;
            },
            Token::JumpForward => {
                let k = body_span(tokens, i + 1, end);
                proof {
                    assert(u.skip(1).take(k as int) =~= tokens@.subrange(i + 1, i + 1 + k));
                    assert(u.skip(1).skip(k as int) =~= tokens@.subrange(i + 1 + k, end as int));
                }
                let inner = build(tokens, i + 1, i + 1 + k);
                let y = IRElement::CondBlck { node: IRNode { content: inner } };
                proof {
                    lemma_ir_elements_model_push(out@, y);
                    assert(ir_elements_model(out@).push(ir_element_model(y)) + ir_of(
                        tokens@.subrange(i + 1 + k, end as int),
                    ) =~= ir_elements_model(out@) + ir_of(u));
                }
                out.push(y);
                i = i + 1 + k;
            },
            _ => {
                let y = unit(tokens[i]);
                proof {
                    lemma_ir_elements_model_push(out@, y);
                    assert(ir_elements_model(out@).push(ir_element_model(y)) + ir_of(
                        tokens@.subrange(i + 1, end as int),
                    ) =~= ir_elements_model(out@) + ir_of(u));
                }
                out.push(y);
                i = i + 1;
            },
        }
    }
    proof {
        assert(ir_elements_model(out@) + ir_of(tokens@.subrange(end as int, end as int))
            =~= ir_elements_model(out@));
    }
    out
}

} // verus!
