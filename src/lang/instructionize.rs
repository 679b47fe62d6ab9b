use vstd::prelude::*;

use crate::block::IRBlock;
use crate::instruction::{
    is_program,
    lemma_sentinel_free_concat,
    lemma_sentinel_free_push,
    lemma_seq_model_concat,
    lemma_seq_model_push,
    sentinel_free,
    seq_model,
    IRInstruction,
    Instr,
};
use crate::lang::token::Token;

verus! {

/// Why a token sequence cannot be lowered: its loop-open and loop-close
/// counts differ, and the variant names the larger side.
#[derive(Debug, PartialEq, Eq, Structural)]
pub enum InstructionizingError {
    UnmatchedJumpForward,
    UnmatchedJumpBackward,
}

impl InstructionizingError {
    /// The error's message.
    pub fn message(&self) -> (r: &'static str)
        ensures
            self is UnmatchedJumpForward ==> r@ == "unmatched JumpForward"@,
            self is UnmatchedJumpBackward ==> r@ == "unmatched JumpBackward"@,
    {
        match self {
            InstructionizingError::UnmatchedJumpForward => "unmatched JumpForward",
            InstructionizingError::UnmatchedJumpBackward => "unmatched JumpBackward",
        }
    }
}

/// How many times `k` occurs in `t`.
pub open spec fn count_of(t: Seq<Token>, k: Token) -> nat
    decreases t.len(),
{
    if t.len() == 0 {
        0
    } else {
        count_of(t.drop_last(), k) + if t.last() == k {
            1nat
        } else {
            0nat
        }
    }
}

/// The instruction that a token other than a bracket lowers to.
pub open spec fn unit_instr(t: Token) -> Instr {
    match t {
        Token::IncrementPointer => Instr::TraverseBy { val: 1 },
        Token::DecrementPointer => Instr::TraverseBy { val: -1isize },
        Token::IncrementValue => Instr::MutateValue { pos: 0, val: 1 },
        Token::DecrementValue => Instr::MutateValue { pos: 0, val: -1isize },
        Token::PushByte => Instr::OutputBytes { poslst: seq![0isize] },
        _ => Instr::ReadBytes { poslst: seq![0isize] },
    }
}

/// How many tokens a loop body takes from the start of `t`, when `depth`
/// loops are open: up to and including the close that brings the depth to
/// zero, or all of `t` if none does.
pub open spec fn body_len(t: Seq<Token>, depth: nat) -> nat
    decreases t.len(),
{
    if t.len() == 0 {
        0
    } else {
        let d: int = match t[0] {
            Token::JumpForward => depth + 1int,
            Token::JumpBackward => depth - 1,
            _ => depth as int,
        };
        if d <= 0 {
            1
        } else {
            1 + body_len(t.skip(1), d as nat)
        }
    }
}

/// A loop body never takes more tokens than there are.
pub proof fn lemma_body_len_bound(t: Seq<Token>, depth: nat)
    ensures
        body_len(t, depth) <= t.len(),
    decreases t.len(),
{
    if t.len() > 0 {
        let d: int = match t[0] {
            Token::JumpForward => depth + 1int,
            Token::JumpBackward => depth - 1,
            _ => depth as int,
        };
        if d > 0 {
            lemma_body_len_bound(t.skip(1), d as nat);
        }
    }
}

/// The instructions that `t` lowers to. Every symbol but the brackets maps
/// to one instruction at offset 0 with unit delta. A loop-open takes the
/// tokens up to its matching close as the body of a conditional block. A
/// loop-close with no open loop in the current frame lowers to nothing.
pub open spec fn lowered(t: Seq<Token>) -> Seq<Instr>
    decreases t.len(),
{
    if t.len() == 0 {
        Seq::empty()
    } else {
        match t[0] {
            Token::JumpBackward => lowered(t.skip(1)),
            Token::JumpForward => {
                let rest = t.skip(1);
                let k = body_len(rest, 1);
                proof {
                    lemma_body_len_bound(rest, 1);
                }
                seq![Instr::ConditionalBlock(lowered(rest.take(k as int)))] + lowered(
                    rest.skip(k as int),
                )
            },
            _ => seq![unit_instr(t[0])] + lowered(t.skip(1)),
        }
    }
}

/// The program that a balanced token sequence lowers to: its instructions
/// between the two sentinels.
pub open spec fn program_of(t: Seq<Token>) -> Seq<Instr> {
    seq![Instr::BeginProgram] + lowered(t) + seq![Instr::EndProgram]
}

/// Lowering never produces a sentinel.
pub proof fn lemma_lowered_sentinel_free(t: Seq<Token>)
    ensures
        sentinel_free(lowered(t)),
    decreases t.len(),
{
    if t.len() > 0 {
        let e = Seq::<Instr>::empty();
        match t[0] {
            Token::JumpBackward => {
                lemma_lowered_sentinel_free(t.skip(1));
            },
            Token::JumpForward => {
                let rest = t.skip(1);
                let k = body_len(rest, 1);
                lemma_body_len_bound(rest, 1);
                lemma_lowered_sentinel_free(rest.take(k as int));
                lemma_lowered_sentinel_free(rest.skip(k as int));
                let y = Instr::ConditionalBlock(lowered(rest.take(k as int)));
                assert(seq![y] =~= e.push(y));
                lemma_sentinel_free_push(e, y);
                lemma_sentinel_free_concat(seq![y], lowered(rest.skip(k as int)));
            },
            _ => {
                lemma_lowered_sentinel_free(t.skip(1));
                let y = unit_instr(t[0]);
                assert(seq![y] =~= e.push(y));
                lemma_sentinel_free_push(e, y);
                lemma_sentinel_free_concat(seq![y], lowered(t.skip(1)));
            },
        }
    }
}

/// What lowering produces is a whole program.
pub proof fn lemma_program_of_is_program(t: Seq<Token>)
    ensures
        is_program(program_of(t)),
{
    lemma_lowered_sentinel_free(t);
    let p = program_of(t);
    assert(p.subrange(1, p.len() - 1) =~= lowered(t));
}

/// Lowers a whole token sequence into a program block.
///
/// The loop-open and loop-close counts are compared first; if they differ,
/// the error names the larger side and no tree is built.
pub fn instructionize(tokens: &[Token]) -> (r: Result<IRBlock, InstructionizingError>)
    ensures
        count_of(tokens@, Token::JumpForward) > count_of(tokens@, Token::JumpBackward) ==> r
            == Err::<IRBlock, InstructionizingError>(InstructionizingError::UnmatchedJumpForward),
        count_of(tokens@, Token::JumpForward) < count_of(tokens@, Token::JumpBackward) ==> r
            == Err::<IRBlock, InstructionizingError>(InstructionizingError::UnmatchedJumpBackward),
        count_of(tokens@, Token::JumpForward) == count_of(tokens@, Token::JumpBackward) ==> r is Ok
            && r->Ok_0@ == program_of(tokens@),
        r matches Ok(b) ==> is_program(b@),
{
    let mut opens: usize = 0;
    let mut closes: usize = 0;
    let mut i: usize = 0;
    while i < tokens.len()
        invariant
            i <= tokens@.len(),
            opens == count_of(tokens@.take(i as int), Token::JumpForward),
            closes == count_of(tokens@.take(i as int), Token::JumpBackward),
            opens + closes <= i,
        decreases tokens@.len() - i,
    {
        proof {
            assert(tokens@.take(i + 1).drop_last() =~= tokens@.take(i as int));
        }
        match tokens[i] {
            Token::JumpForward => opens = opens + 1,
            Token::JumpBackward => closes = closes + 1,
            _ => {},
        }
        i = i + 1;
    }
    proof {
        assert(tokens@.take(tokens@.len() as int) =~= tokens@);
    }
    if opens > closes {
        return Err(InstructionizingError::UnmatchedJumpForward);
    } else if opens < closes {
        return Err(InstructionizingError::UnmatchedJumpBackward);
    }
    let mut instrs: Vec<IRInstruction> = Vec::new();
    instrs.push(IRInstruction::BeginProgram);
    let mut body = lower_range(tokens, 0, tokens.len());
    let ghost lowered_body = body@;
    instrs.append(&mut body);
    instrs.push(IRInstruction::EndProgram);
    proof {
        assert(tokens@.subrange(0, tokens@.len() as int) =~= tokens@);
        lemma_seq_model_concat(seq![IRInstruction::BeginProgram], lowered_body);
        lemma_seq_model_push(
            seq![IRInstruction::BeginProgram] + lowered_body,
            IRInstruction::EndProgram,
        );
        assert(seq![IRInstruction::BeginProgram] =~= Seq::<IRInstruction>::empty().push(
            IRInstruction::BeginProgram,
        ));
        lemma_seq_model_push(Seq::<IRInstruction>::empty(), IRInstruction::BeginProgram);
        assert(seq_model(seq![IRInstruction::BeginProgram]) =~= seq![Instr::BeginProgram]);
        lemma_program_of_is_program(tokens@);
    }
    Ok(IRBlock::with_instructions(instrs))
}

/// The number of tokens that a loop body takes from `tokens[from..end]`.
fn body_length(tokens: &[Token], from: usize, end: usize) -> (k: usize)
    requires
        from <= end <= tokens@.len(),
    ensures
        k == body_len(tokens@.subrange(from as int, end as int), 1),
{
    let ghost t = tokens@.subrange(from as int, end as int);
    let mut open: usize = 0;
    let mut j: usize = from;
    proof {
        assert(tokens@.subrange(j as int, end as int) =~= t);
    }
    while j < end
        invariant
            from <= j <= end <= tokens@.len(),
            t == tokens@.subrange(from as int, end as int),
            open <= j - from,
            body_len(t, 1) == (j - from) + body_len(
                tokens@.subrange(j as int, end as int),
                (open + 1) as nat,
            ),
        decreases end - j,
    {
        let ghost u = tokens@.subrange(j as int, end as int);
        proof {
            assert(u[0] == tokens@[j as int]);
            assert(u.skip(1) =~= tokens@.subrange(j + 1, end as int));
        }
        match tokens[j] {
            Token::JumpForward => {
                open = open + 1;
            },
            Token::JumpBackward => {
                if open == 0 {
                    return j + 1 - from;
                }
                open = open - 1;
            },
            _ => {},
        }
        j = j + 1;
    }
    j - from
}

/// The instruction that a token other than a bracket lowers to.
fn unit_instruction(t: Token) -> (r: IRInstruction)
    requires
        t != Token::JumpForward,
        t != Token::JumpBackward,
    ensures
        r@ == unit_instr(t),
{
    let mut here: Vec<isize> = Vec::new();
    here.push(0);
    proof {
        assert(here@ =~= seq![0isize]);
    }
    match t {
        Token::IncrementPointer => IRInstruction::TraverseBy { val: 1 },
        Token::DecrementPointer => IRInstruction::TraverseBy { val: -1 },
        Token::IncrementValue => IRInstruction::MutateValue { pos: 0, val: 1 },
        Token::DecrementValue => IRInstruction::MutateValue { pos: 0, val: -1 },
        Token::PushByte => IRInstruction::OutputBytes { poslst: here },
        _ => IRInstruction::ReadBytes { poslst: here },
    }
}

/// Lowers `tokens[start..end]`.
fn lower_range(tokens: &[Token], start: usize, end: usize) -> (r: Vec<IRInstruction>)
    requires
        start <= end <= tokens@.len(),
    ensures
        seq_model(r@) == lowered(tokens@.subrange(start as int, end as int)),
    decreases end - start,
{
    let ghost all = lowered(tokens@.subrange(start as int, end as int));
    let mut out: Vec<IRInstruction> = Vec::new();
    let mut i: usize = start;
    proof {
        assert(seq_model(out@) + all =~= all);
    }
    while i < end
        invariant
            start <= i <= end <= tokens@.len(),
            all == lowered(tokens@.subrange(start as int, end as int)),
            all == seq_model(out@) + lowered(tokens@.subrange(i as int, end as int)),
        decreases end - i,
    {
        let ghost u = tokens@.subrange(i as int, end as int);
        proof {
            assert(u[0] == tokens@[i as int]);
            assert(u.skip(1) =~= tokens@.subrange(i + 1, end as int));
        }
        match tokens[i] {
            Token::JumpBackward => {
                i = i + 1;
            },
            Token::JumpForward => {
                let k = body_length(tokens, i + 1, end);
                proof {
                    lemma_body_len_bound(u.skip(1), 1);
                    assert(u.skip(1).take(k as int) =~= tokens@.subrange(i + 1, i + 1 + k));
                    assert(u.skip(1).skip(k as int) =~= tokens@.subrange(i + 1 + k, end as int));
                }
                let inner = lower_range(tokens, i + 1, i + 1 + k);
                let y = IRInstruction::ConditionalBlock(Box::new(IRBlock::with_instructions(inner)));
                proof {
                    lemma_seq_model_push(out@, y);
                    assert(seq_model(out@).push(y@) + lowered(
                        tokens@.subrange(i + 1 + k, end as int),
                    ) =~= seq_model(out@) + lowered(u));
                }
                out.push(y);
                i = i + 1 + k;
            },
            _ => {
                let y = unit_instruction(tokens[i]);
                proof {
                    lemma_seq_model_push(out@, y);
                    assert(seq_model(out@).push(y@) + lowered(tokens@.subrange(i + 1, end as int))
                        =~= seq_model(out@) + lowered(u));
                }
                out.push(y);
                i = i + 1;
            },
        }
    }
    proof {
        assert(seq_model(out@) + lowered(tokens@.subrange(end as int, end as int)) =~= seq_model(
            out@,
        ));
    }
    out
}

} // verus!
