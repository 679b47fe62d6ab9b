use vstd::prelude::*;

use crate::block::IRBlock;

verus! {

/// An instruction of the intermediate representation.
///
/// Offsets (`pos`) are relative to the pointer at the moment the instruction
/// executes. Cells are eight bits wide and wrap; deltas are stored as `isize`
/// and combined with wrapping addition, which agrees with the cells modulo 256.
#[derive(Debug, PartialEq, Eq)]
#[non_exhaustive]
pub enum IRInstruction {
    /// Marks the beginning of a program; only ever first in the outermost block.
    BeginProgram,
    /// Marks the end of a program; only ever last in the outermost block.
    EndProgram,
    /// Moves the pointer by `val`.
    TraverseBy { val: isize },
    /// Adds `val` to the cell at `pos` from the pointer.
    MutateValue { pos: isize, val: isize },
    /// Sets the cell at `pos` from the pointer to `val`.
    SetTo { pos: isize, val: isize },
    /// Outputs the cells at the positions of `poslst`, in order.
    OutputBytes { poslst: Vec<isize> },
    /// Reads one byte into each cell at the positions of `poslst`, in order.
    ReadBytes { poslst: Vec<isize> },
    /// Runs the block while the cell under the pointer is nonzero.
    ConditionalBlock(Box<IRBlock>),
}

/// The mathematical model of an [`IRInstruction`]: the same tree, with
/// sequences in place of vectors.
pub enum Instr {
    BeginProgram,
    EndProgram,
    TraverseBy { val: isize },
    MutateValue { pos: isize, val: isize },
    SetTo { pos: isize, val: isize },
    OutputBytes { poslst: Seq<isize> },
    ReadBytes { poslst: Seq<isize> },
    ConditionalBlock(Seq<Instr>),
}

/// The model of one instruction.
pub open spec fn instr_model(i: IRInstruction) -> Instr
    decreases i, 1nat,
{
    match i {
        IRInstruction::BeginProgram => Instr::BeginProgram,
        IRInstruction::EndProgram => Instr::EndProgram,
        IRInstruction::TraverseBy { val } => Instr::TraverseBy { val },
        IRInstruction::MutateValue { pos, val } => Instr::MutateValue { pos, val },
        IRInstruction::SetTo { pos, val } => Instr::SetTo { pos, val },
        IRInstruction::OutputBytes { poslst } => Instr::OutputBytes { poslst: poslst@ },
        IRInstruction::ReadBytes { poslst } => Instr::ReadBytes { poslst: poslst@ },
        IRInstruction::ConditionalBlock(b) => Instr::ConditionalBlock(seq_model(b.content@)),
    }
}

/// The model of a sequence of instructions, element by element.
pub open spec fn seq_model(s: Seq<IRInstruction>) -> Seq<Instr>
    decreases s, 0nat,
{
    if s.len() == 0 {
        Seq::empty()
    } else {
        seq_model(s.drop_last()).push(instr_model(s.last()))
    }
}

/// The model of a sequence has its length and models each element in place.
pub proof fn lemma_seq_model(s: Seq<IRInstruction>)
    ensures
        seq_model(s).len() == s.len(),
        forall|i: int| 0 <= i < s.len() ==> #[trigger] seq_model(s)[i] == s[i]@,
    decreases s.len(),
{
    if s.len() > 0 {
        lemma_seq_model(s.drop_last());
    }
}

/// The model of a pushed sequence is the pushed model.
pub proof fn lemma_seq_model_push(s: Seq<IRInstruction>, x: IRInstruction)
    ensures
        seq_model(s.push(x)) == seq_model(s).push(x@),
{
    assert(s.push(x).drop_last() =~= s);
}

/// The model of a concatenation is the concatenation of the models.
pub proof fn lemma_seq_model_concat(a: Seq<IRInstruction>, b: Seq<IRInstruction>)
    ensures
        seq_model(a + b) == seq_model(a) + seq_model(b),
{
    lemma_seq_model(a);
    lemma_seq_model(b);
    lemma_seq_model(a + b);
    assert(seq_model(a + b) =~= seq_model(a) + seq_model(b));
}

/// Whether `x` holds no sentinel, nested blocks included.
pub open spec fn instr_sentinel_free(x: Instr) -> bool
    decreases x, 1nat,
{
    match x {
        Instr::BeginProgram => false,
        Instr::EndProgram => false,
        Instr::ConditionalBlock(b) => sentinel_free(b),
        _ => true,
    }
}

/// Whether no instruction of `s` is or holds a sentinel.
pub open spec fn sentinel_free(s: Seq<Instr>) -> bool
    decreases s, 0nat,
{
    s.len() == 0 || (sentinel_free(s.drop_last()) && instr_sentinel_free(s.last()))
}

/// Whether `s` is a whole program: one begin sentinel first, one end
/// sentinel last, and no sentinel anywhere else, nested blocks included.
pub open spec fn is_program(s: Seq<Instr>) -> bool {
    &&& s.len() >= 2
    &&& s[0] == Instr::BeginProgram
    &&& s.last() == Instr::EndProgram
    &&& sentinel_free(s.subrange(1, s.len() - 1))
}

/// A sequence is free of sentinels exactly when each of its instructions is.
pub proof fn lemma_sentinel_free(s: Seq<Instr>)
    ensures
        sentinel_free(s) <==> forall|i: int| 0 <= i < s.len() ==> #[trigger] instr_sentinel_free(s[i]),
    decreases s.len(),
{
    if s.len() > 0 {
        lemma_sentinel_free(s.drop_last());
        if sentinel_free(s) {
            assert forall|i: int| 0 <= i < s.len() implies #[trigger] instr_sentinel_free(s[i]) by {
                if i < s.len() - 1 {
                    assert(s.drop_last()[i] == s[i]);
                }
            }
        }
        if forall|i: int| 0 <= i < s.len() ==> #[trigger] instr_sentinel_free(s[i]) {
            assert forall|i: int| 0 <= i < s.drop_last().len() implies #[trigger] instr_sentinel_free(
                s.drop_last()[i],
            ) by {
                assert(s.drop_last()[i] == s[i]);
            }
            assert(instr_sentinel_free(s[s.len() - 1]));
            assert(sentinel_free(s));
        }
    }
}

/// Pushing keeps a sequence free of sentinels exactly when the pushed
/// instruction is.
pub proof fn lemma_sentinel_free_push(s: Seq<Instr>, x: Instr)
    ensures
        sentinel_free(s.push(x)) <==> sentinel_free(s) && instr_sentinel_free(x),
{
    assert(s.push(x).drop_last() =~= s);
}

/// Concatenation keeps sequences free of sentinels, and only such ones.
pub proof fn lemma_sentinel_free_concat(a: Seq<Instr>, b: Seq<Instr>)
    ensures
        sentinel_free(a + b) <==> sentinel_free(a) && sentinel_free(b),
{
    lemma_sentinel_free(a);
    lemma_sentinel_free(b);
    lemma_sentinel_free(a + b);
    if sentinel_free(a) && sentinel_free(b) {
        assert forall|i: int| 0 <= i < (a + b).len() implies #[trigger] instr_sentinel_free(
            (a + b)[i],
        ) by {
            if i < a.len() {
                assert(instr_sentinel_free(a[i]));
            } else {
                assert(instr_sentinel_free(b[i - a.len()]));
            }
        }
    }
    if sentinel_free(a + b) {
        assert forall|i: int| 0 <= i < a.len() implies #[trigger] instr_sentinel_free(a[i]) by {
            assert((a + b)[i] == a[i]);
        }
        assert forall|i: int| 0 <= i < b.len() implies #[trigger] instr_sentinel_free(b[i]) by {
            assert((a + b)[a.len() + i] == b[i]);
        }
    }
}

impl Clone for IRInstruction {
    fn clone(&self) -> (r: Self)
        ensures
            r@ == self@,
        decreases self, 1nat,
    {
        match self {
            IRInstruction::BeginProgram => IRInstruction::BeginProgram,
            IRInstruction::EndProgram => IRInstruction::EndProgram,
            IRInstruction::TraverseBy { val } => IRInstruction::TraverseBy { val: *val },
            IRInstruction::MutateValue { pos, val } => IRInstruction::MutateValue { pos: *pos, val: *val },
            IRInstruction::SetTo { pos, val } => IRInstruction::SetTo { pos: *pos, val: *val },
            IRInstruction::OutputBytes { poslst } => IRInstruction::OutputBytes { poslst: poslst.clone() },
            IRInstruction::ReadBytes { poslst } => IRInstruction::ReadBytes { poslst: poslst.clone() },
            IRInstruction::ConditionalBlock(b) => IRInstruction::ConditionalBlock(
                Box::new((**b).clone()),
            ),
        }
    }
}

impl View for IRInstruction {
    type V = Instr;

    open spec fn view(&self) -> Instr {
        instr_model(*self)
    }
}

} // verus!
