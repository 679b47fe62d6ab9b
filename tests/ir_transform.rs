use bfbfe::ir::{transform, IRElement, IRNode};
use bfbfe::token::Token;

#[test]
fn transform_success() {
    let tokens: [Token; 10] = [
        Token::IncrementPointer,
        Token::DecrementPointer,
        Token::IncrementValue,
        Token::DecrementValue,
        Token::OutputByte,
        Token::ReadByte,
        Token::JumpForward,
        Token::IncrementPointer,
        Token::IncrementValue,
        Token::JumpBackward,
    ];

    assert_eq!(
        transform(&tokens),
        IRNode {
            content: vec![
                IRElement::MovPtr { by: 1 },
                IRElement::MovPtr { by: -1 },
                IRElement::MutVal { at: 0, by: 1 },
                IRElement::MutVal { at: 0, by: -1 },
                IRElement::Push { from: 0 },
                IRElement::Read { to: 0 },
                IRElement::CondBlck {
                    node: IRNode {
                        content: vec![IRElement::MovPtr { by: 1 }, IRElement::MutVal { at: 0, by: 1 }],
                    },
                }
            ],
        }
    );
}

#[test]
fn transform_empty_program() {
    assert_eq!(transform(&[]), IRNode { content: vec![] });
}

#[test]
fn ir_node_clone_and_deref() {
    let tokens = [Token::JumpForward, Token::DecrementValue, Token::JumpBackward, Token::OutputByte];
    let mut node = transform(&tokens);
    let copy = node.clone();
    assert_eq!(copy, node);
    node.push(IRElement::MovPtr { by: 3 });
    assert_eq!(node.len(), 3);
    assert_eq!(copy.len(), 2);
}
