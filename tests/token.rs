use bfbfe::token::{tokenize, Token, TokenizingError};

#[test]
fn test_tokenize_all() {
    assert_eq!(
        tokenize(b"><+-.,[]"),
        Ok(vec![
            Token::IncrementPointer,
            Token::DecrementPointer,
            Token::IncrementValue,
            Token::DecrementValue,
            Token::OutputByte,
            Token::ReadByte,
            Token::JumpForward,
            Token::JumpBackward,
        ])
    );
}

#[test]
fn test_tokenize_invalid_byte() {
    assert_eq!(tokenize(b"><+-.,[]W"), Err(TokenizingError::UnknownByte(b'W', 8)));
}

#[test]
fn tokenize_empty_program() {
    assert_eq!(tokenize(b""), Ok(vec![]));
}

#[test]
fn tokenize_reports_first_unknown_byte() {
    assert_eq!(tokenize(b"+ab"), Err(TokenizingError::UnknownByte(b'a', 1)));
}
