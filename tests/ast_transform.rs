use bfbfe::ast::transform::{transform, ASTError};
use bfbfe::ast::Element;
use bfbfe::token::Token;

#[test]
fn transform_transform_success() {
    let tokens: [Token; 10] = [
        Token::IncrementPointer,
        Token::DecrementPointer,
        Token::IncrementValue,
        Token::DecrementValue,
        Token::OutputByte,
        Token::ReadByte,
        Token::JumpForward,
        Token::IncrementPointer,
        Token::IncrementValue,
        Token::JumpBackward,
    ];

    assert_eq!(
        transform(&tokens),
        Ok(vec![
            Element::PointerAdd(1),
            Element::PointerSub(1),
            Element::ValueAdd(1),
            Element::ValueSub(1),
            Element::Push,
            Element::Pull,
            Element::Conditional(vec![Element::PointerAdd(1), Element::ValueAdd(1)])
        ]),
    );
}

#[test]
fn transform_transform_unmatched_jfw() {
    let tokens: [Token; 7] = [
        Token::IncrementPointer,
        Token::DecrementPointer,
        Token::IncrementValue,
        Token::JumpForward,
        Token::DecrementValue,
        Token::OutputByte,
        Token::ReadByte,
    ];

    assert_eq!(transform(&tokens), Err(ASTError::UnmatchedJumpForward(3)));
}

#[test]
fn transform_transform_unmatched_jbw() {
    let tokens: [Token; 7] = [
        Token::IncrementPointer,
        Token::DecrementPointer,
        Token::IncrementValue,
        Token::JumpBackward,
        Token::DecrementValue,
        Token::OutputByte,
        Token::ReadByte,
    ];

    assert_eq!(transform(&tokens), Err(ASTError::UnmatchedJumpBackward(3)));
}

#[test]
fn transform_unclosed_loop_reports_first_open() {
    let tokens = [Token::JumpForward, Token::JumpBackward, Token::JumpForward];
    assert_eq!(transform(&tokens), Err(ASTError::UnmatchedJumpForward(0)));
}

#[test]
fn transform_nested_loops() {
    let tokens = [
        Token::JumpForward,
        Token::JumpForward,
        Token::DecrementValue,
        Token::JumpBackward,
        Token::IncrementPointer,
        Token::JumpBackward,
    ];
    assert_eq!(
        transform(&tokens),
        Ok(vec![Element::Conditional(vec![
            Element::Conditional(vec![Element::ValueSub(1)]),
            Element::PointerAdd(1),
        ])])
    );
}

#[test]
fn ast_node_clone() {
    let tokens = [Token::JumpForward, Token::IncrementValue, Token::JumpBackward];
    let node = bfbfe::ast::Node { content: transform(&tokens).unwrap() };
    assert_eq!(node.clone(), node);
}
