use vstd::prelude::*;

use crate::lang::token::Token;

verus! {

/// The token that a character stands for, if any.
pub open spec fn token_of(c: char) -> Option<Token> {
    match c {
        '>' => Some(Token::IncrementPointer),
        '<' => Some(Token::DecrementPointer),
        '+' => Some(Token::IncrementValue),
        '-' => Some(Token::DecrementValue),
        '.' => Some(Token::PushByte),
        ',' => Some(Token::ReadByte),
        '[' => Some(Token::JumpForward),
        ']' => Some(Token::JumpBackward),
        _ => None,
    }
}

/// The tokens of a program: one per recognized character, in order; every
/// other character is dropped.
pub open spec fn lexed(s: Seq<char>) -> Seq<Token>
    decreases s.len(),
{
    if s.len() == 0 {
        Seq::empty()
    } else {
        match token_of(s.last()) {
            Some(t) => lexed(s.drop_last()).push(t),
            None => lexed(s.drop_last()),
        }
    }
}

fn lex_char(c: char) -> (r: Option<Token>)
    ensures
        r == token_of(c),
{
    match c {
        '>' => Some(Token::IncrementPointer),
        '<' => Some(Token::DecrementPointer),
        '+' => Some(Token::IncrementValue),
        '-' => Some(Token::DecrementValue),
        '.' => Some(Token::PushByte),
        ',' => Some(Token::ReadByte),
        '[' => Some(Token::JumpForward),
        ']' => Some(Token::JumpBackward),
        _ => None,
    }
}

/// Turns a whole program into tokens, dropping unrecognized characters.
pub fn tokenize_whole_program(program: &[char]) -> (r: Vec<Token>)
    ensures
        r@ == lexed(program@),
{
    let mut out: Vec<Token> = Vec::new();
    let mut i: usize = 0;
    while i < program.len()
        invariant
            i <= program@.len(),
            out@ == lexed(program@.take(i as int)),
        decreases program@.len() - i,
    {
        proof {
            assert(program@.take(i + 1).drop_last() =~= program@.take(i as int));
        }
        match lex_char(program[i]) {
            Some(t) => out.push(t),
            None => {},
        }
        i = i + 1;
    }
    proof {
        assert(program@.take(program@.len() as int) =~= program@);
    }
    out
}

} // verus!
