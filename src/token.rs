use vstd::prelude::*;

verus! {

/// One of the eight instructions of the source language.
#[derive(Clone, Copy, Debug, PartialEq, Eq, Structural)]
pub enum Token {
    /// `>`: moves the tape position forward by one.
    IncrementPointer,
    /// `<`: moves the tape position back by one.
    DecrementPointer,
    /// `+`: increments the current value.
    IncrementValue,
    /// `-`: decrements the current value.
    DecrementValue,
    /// `.`: outputs the current byte.
    OutputByte,
    /// `,`: reads one byte into the current value.
    ReadByte,
    /// `[`: skips past the matching `]` if the current value is zero.
    JumpForward,
    /// `]`: jumps back to the matching `[` if the current value is nonzero.
    JumpBackward,
}

/// Why a byte string is not a program.
#[derive(Debug, PartialEq, Eq, Structural)]
#[non_exhaustive]
pub enum TokenizingError {
    /// The byte at the position is not one of the eight instructions.
    UnknownByte(u8, usize),
}

/// The token that a byte stands for, if any.
pub open spec fn byte_token(b: u8) -> Option<Token> {
    if b == 0x3e {
        Some(Token::IncrementPointer)
    } else if b == 0x3c {
        Some(Token::DecrementPointer)
    } else if b == 0x2b {
        Some(Token::IncrementValue)
    } else if b == 0x2d {
        Some(Token::DecrementValue)
    } else if b == 0x2e {
        Some(Token::OutputByte)
    } else if b == 0x2c {
        Some(Token::ReadByte)
    } else if b == 0x5b {
        Some(Token::JumpForward)
    } else if b == 0x5d {
        Some(Token::JumpBackward)
    } else {
        None
    }
}

/// Whether every byte of `p` stands for a token.
pub open spec fn all_known(p: Seq<u8>) -> bool {
    forall|i: int| 0 <= i < p.len() ==> (#[trigger] byte_token(p[i])) is Some
}

/// The tokens of a program whose bytes are all known.
pub open spec fn tokens_of(p: Seq<u8>) -> Seq<Token> {
    p.map_values(|b: u8| byte_token(b)->Some_0)
}

fn token_for(b: u8) -> (r: Option<Token>)
    ensures
        r == byte_token(b),
{
    if b == 0x3e {
        Some(Token::IncrementPointer)
    } else if b == 0x3c {
        Some(Token::DecrementPointer)
    } else if b == 0x2b {
        Some(Token::IncrementValue)
    } else if b == 0x2d {
        Some(Token::DecrementValue)
    } else if b == 0x2e {
        Some(Token::OutputByte)
    } else if b == 0x2c {
        Some(Token::ReadByte)
    } else if b == 0x5b {
        Some(Token::JumpForward)
    } else if b == 0x5d {
        Some(Token::JumpBackward)
    } else {
        None
    }
}

/// Turns a program's bytes into tokens; the first byte that is not an
/// instruction is an error, with its position.
pub fn tokenize(prog: &[u8]) -> (r: Result<Vec<Token>, TokenizingError>)
    ensures
        r is Ok <==> all_known(prog@),
        r matches Ok(v) ==> v@ == tokens_of(prog@),
        r matches Err(TokenizingError::UnknownByte(b, i)) ==> {
            &&& i < prog@.len()
            &&& b == prog@[i as int]
            &&& byte_token(b) is None
            &&& all_known(prog@.take(i as int))
        },
{
    let mut tokens: Vec<Token> = Vec::new();
    let mut i: usize = 0;
    while i < prog.len()
        invariant
            i <= prog@.len(),
            all_known(prog@.take(i as int)),
            tokens@ == tokens_of(prog@.take(i as int)),
        decreases prog@.len() - i,
    {
        match token_for(prog[i]) {
            Some(t) => {
                proof {
                    assert(prog@.take(i + 1) =~= prog@.take(i as int).push(prog@[i as int]));
                    assert(tokens_of(prog@.take(i + 1)) =~= tokens@.push(t));
                }
                tokens.push(t);
            },
            None => {
                proof {
                    assert(!all_known(prog@));
                }
                return Err(TokenizingError::UnknownByte(prog[i], i));
            },
        }
        i = i + 1;
    }
    proof {
        assert(prog@.take(prog@.len() as int) =~= prog@);
    }
    Ok(tokens)
}

/// The nesting depth after `t`: loop-opens minus loop-closes.
pub open spec fn depth(t: Seq<Token>) -> int
    decreases t.len(),
{
    if t.len() == 0 {
        0
    } else {
        depth(t.drop_last()) + match t.last() {
            Token::JumpForward => 1int,
            Token::JumpBackward => -1int,
            _ => 0int,
        }
    }
}

/// Whether no prefix of `t` closes more loops than it opened.
pub open spec fn never_negative(t: Seq<Token>) -> bool {
    forall|j: int| 0 <= j <= t.len() ==> #[trigger] depth(t.take(j)) >= 0
}

/// Whether `t` is properly nested: no prefix closes more loops than it
/// opened, and all loops are closed.
pub open spec fn well_nested(t: Seq<Token>) -> bool {
    never_negative(t) && depth(t) == 0
}

/// How many tokens a loop body takes from the start of `t`, when `open`
/// loops are open: up to and including the close that ends the outermost
/// of them, or all of `t` if none does.
pub open spec fn span(t: Seq<Token>, open: nat) -> nat
    decreases t.len(),
{
    if t.len() == 0 {
        0
    } else {
        let d: int = match t[0] {
            Token::JumpForward => open + 1int,
            Token::JumpBackward => open - 1int,
            _ => open as int,
        };
        if d <= 0 {
            1
        } else {
            1 + span(t.skip(1), d as nat)
        }
    }
}

/// A loop body never takes more tokens than there are.
pub proof fn lemma_span_bound(t: Seq<Token>, open: nat)
    ensures
        span(t, open) <= t.len(),
    decreases t.len(),
{
    if t.len() > 0 {
        let d: int = match t[0] {
            Token::JumpForward => open + 1int,
            Token::JumpBackward => open - 1int,
            _ => open as int,
        };
        if d > 0 {
            lemma_span_bound(t.skip(1), d as nat);
        }
    }
}

/// The number of tokens that a loop body takes from `tokens[from..end]`.
pub fn body_span(tokens: &[Token], from: usize, end: usize) -> (k: usize)
    requires
        from <= end <= tokens@.len(),
    ensures
        k == span(tokens@.subrange(from as int, end as int), 1),
        k <= end - from,
{
    let ghost t = tokens@.subrange(from as int, end as int);
    let mut open: usize = 0;
    let mut j: usize = from;
    proof {
        assert(tokens@.subrange(j as int, end as int) =~= t);
        lemma_span_bound(t, 1);
    }
    while j < end
        invariant
            from <= j <= end <= tokens@.len(),
            t == tokens@.subrange(from as int, end as int),
            span(t, 1) <= t.len(),
            open <= j - from,
            span(t, 1) == (j - from) + span(tokens@.subrange(j as int, end as int), (open + 1) as nat),
        decreases end - j,
    {
        let ghost u = tokens@.subrange(j as int, end as int);
        proof {
            assert(u[0] == tokens@[j as int]);
            assert(u.skip(1) =~= tokens@.subrange(j + 1, end as int));
        }
        match tokens[j] {
            Token::JumpForward => {
                open = open + 1;
            },
            Token::JumpBackward => {
                if open == 0 {
                    return j + 1 - from;
                }
                open = open - 1;
            },
            _ => {},
        }
        j = j + 1;
    }
    j - from
}

} // verus!
