use vstd::prelude::*;

use crate::ast::{elements_model, lemma_elements_model_push, AstElem, Block, Element};
use crate::token::{body_span, depth, lemma_span_bound, never_negative, span, Token};

verus! {

/// Why a token sequence has no AST.
#[derive(Debug, PartialEq, Eq, Structural)]
#[non_exhaustive]
pub enum ASTError {
    /// The loop-open at this position is never closed.
    UnmatchedJumpForward(usize),
    /// The loop-close at this position has no loop-open before it.
    UnmatchedJumpBackward(usize),
}

/// Whether position `i` of `t` is the first at which more loops have been
/// closed than opened.
pub open spec fn is_first_unmatched_close(t: Seq<Token>, i: int) -> bool {
    &&& 0 <= i < t.len()
    &&& depth(t.take(i + 1)) < 0
    &&& never_negative(t.take(i))
}

/// Whether position `k` of `t` holds its first loop-open.
pub open spec fn is_first_open(t: Seq<Token>, k: int) -> bool {
    &&& 0 <= k < t.len()
    &&& t[k] == Token::JumpForward
    &&& forall|j: int| 0 <= j < k ==> t[j] != Token::JumpForward
}

/// The element that a token other than a bracket becomes.
pub open spec fn unit_element(t: Token) -> AstElem {
    match t {
        Token::IncrementPointer => AstElem::PointerAdd(1),
        Token::DecrementPointer => AstElem::PointerSub(1),
        Token::IncrementValue => AstElem::ValueAdd(1),
        Token::DecrementValue => AstElem::ValueSub(1),
        Token::OutputByte => AstElem::Push,
        _ => AstElem::Pull,
    }
}

/// The AST of `t`: one element per token but the brackets, and a
/// conditional holding the tokens between each loop-open and its close.
pub open spec fn ast_of(t: Seq<Token>) -> Seq<AstElem>
    decreases t.len(),
{
    if t.len() == 0 {
        Seq::empty()
    } else {
        match t[0] {
            Token::JumpBackward => ast_of(t.skip(1)),
            Token::JumpForward => {
                let rest = t.skip(1);
                let k = span(rest, 1);
                proof {
                    lemma_span_bound(rest, 1);
                }
                seq![AstElem::Conditional(ast_of(rest.take(k as int)))] + ast_of(
                    rest.skip(k as int),
                )
            },
            _ => seq![unit_element(t[0])] + ast_of(t.skip(1)),
        }
    }
}

/// Builds the AST of a token sequence.
///
/// The first loop-close without an open loop is an error at its position;
/// otherwise, if a loop stays open, the error is at the first loop-open.
pub fn transform(tks: &[Token]) -> (r: Result<Block, ASTError>)
    ensures
        !never_negative(tks@) ==> (r matches Err(ASTError::UnmatchedJumpBackward(i))
            && is_first_unmatched_close(tks@, i as int)),
        never_negative(tks@) && depth(tks@) > 0 ==> (r matches Err(
            ASTError::UnmatchedJumpForward(k),
        ) && is_first_open(tks@, k as int)),
        never_negative(tks@) && depth(tks@) == 0 ==> (r matches Ok(b) && elements_model(b@)
            == ast_of(tks@)),
{
    let ghost t = tks@;
    let mut d: usize = 0;
    let mut first_jfw: Option<usize> = None;
    let mut i: usize = 0;
    proof {
        assert forall|j: int| 0 <= j <= 0 implies #[trigger] depth(t.take(0).take(j)) >= 0 by {
            assert(t.take(0).take(j) =~= Seq::<Token>::empty());
        }
    }
    while i < tks.len()
        invariant
            t == tks@,
            i <= t.len(),
            d == depth(t.take(i as int)),
            d <= i,
            never_negative(t.take(i as int)),
            first_jfw matches Some(k) ==> k < i && is_first_open(t, k as int),
            first_jfw is None ==> d == 0 && forall|j: int| 0 <= j < i ==> t[j] != Token::JumpForward,
        decreases t.len() - i,
    {
        proof {
            assert(t.take(i + 1).drop_last() =~= t.take(i as int));
        }
        match tks[i] {
            Token::JumpForward => {
                if first_jfw.is_none() {
                    first_jfw = Some(i);
                }
                d = d + 1;
            },
            Token::JumpBackward => {
                if d == 0 {
                    return Err(ASTError::UnmatchedJumpBackward(i));
                }
                d = d - 1;
            },
            _ => {},
        }
        proof {
            assert forall|j: int| 0 <= j <= i + 1 implies #[trigger] depth(t.take(i + 1).take(j))
                >= 0 by {
                if j <= i {
                    assert(t.take(i + 1).take(j) =~= t.take(i as int).take(j));
                } else {
                    assert(t.take(i + 1).take(j) =~= t.take(i + 1));
                }
            }
        }
        i = i + 1;
    }
    proof {
        assert(t.take(t.len() as int) =~= t);
    }
    if d != 0 {
        match first_jfw {
            Some(k) => {
                return Err(ASTError::UnmatchedJumpForward(k));
            },
            None => {},
        }
    }
    Ok(build(tks, 0, tks.len()))
}

/// The element that a token other than a bracket becomes.
fn unit(t: Token) -> (r: Element)
    requires
        t != Token::JumpForward,
        t != Token::JumpBackward,
    ensures
        crate::ast::element_model(r) == unit_element(t),
{
    match t {
        Token::IncrementPointer => Element::PointerAdd(1),
        Token::DecrementPointer => Element::PointerSub(1),
        Token::IncrementValue => Element::ValueAdd(1),
        Token::DecrementValue => Element::ValueSub(1),
        Token::OutputByte => Element::Push,
        _ => Element::Pull,
    }
}

/// Builds the AST of `tokens[start..end]`.
fn build(tokens: &[Token], start: usize, end: usize) -> (r: Block)
    requires
        start <= end <= tokens@.len(),
    ensures
        elements_model(r@) == ast_of(tokens@.subrange(start as int, end as int)),
    decreases end - start,
{
    let ghost all = ast_of(tokens@.subrange(start as int, end as int));
    let mut out: Block = Vec::new();
    let mut i: usize = start;
    proof {
        assert(elements_model(out@) + all =~= all);
    }
    while i < end
        invariant
            start <= i <= end <= tokens@.len(),
            all == ast_of(tokens@.subrange(start as int, end as int)),
            all == elements_model(out@) + ast_of(tokens@.subrange(i as int, end as int)),
        decreases end - i,
    {
        let ghost u = tokens@.subrange(i as int, end as int);
        proof {
            assert(u[0] == tokens@[i as int]);
            assert(u.skip(1) =~= tokens@.subrange(i + 1, end as int));
        }
        match tokens[i] {
            Token::JumpBackward => {
                i = i + 1;
            },
            Token::JumpForward => {
                let k = body_span(tokens, i + 1, end);
                proof {
                    assert(u.skip(1).take(k as int) =~= tokens@.subrange(i + 1, i + 1 + k));
                    assert(u.skip(1).skip(k as int) =~= tokens@.subrange(i + 1 + k, end as int));
                }
                let inner = build(tokens, i + 1, i + 1 + k);
                let y = Element::Conditional(inner);
                proof {
                    lemma_elements_model_push(out@, y);
                    assert(elements_model(out@).push(crate::ast::element_model(y)) + ast_of(
                        tokens@.subrange(i + 1 + k, end as int),
                    ) =~= elements_model(out@) + ast_of(u));
                }
                out.push(y);
                i = i + 1 + k;
            },
            _ => {
                let y = unit(tokens[i]);
                proof {
                    lemma_elements_model_push(out@, y);
                    assert(elements_model(out@).push(crate::ast::element_model(y)) + ast_of(
                        tokens@.subrange(i + 1, end as int),
                    ) =~= elements_model(out@) + ast_of(u));
                }
                out.push(y);
                i = i + 1;
            },
        }
    }
    proof {
        assert(elements_model(out@) + ast_of(tokens@.subrange(end as int, end as int))
            =~= elements_model(out@));
    }
    out
}

} // verus!
