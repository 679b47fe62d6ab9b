use vstd::prelude::*;

use crate::instruction::{
    instr_sentinel_free,
    is_program,
    lemma_seq_model,
    lemma_seq_model_push,
    lemma_sentinel_free_push,
    sentinel_free,
    seq_model,
    IRInstruction,
    Instr,
};
use crate::optimization::constants::{
    fold_pass,
    lemma_fold_sentinel_free,
    lemma_fold_split,
    lemma_zero_sentinel_free,
    zero_pass,
    ConstantsOptimization,
};
use crate::optimization::merge::{
    lemma_merge_sentinel_free,
    lemma_merge_split,
    merge_pass,
    MergeInstructions,
};
use crate::optimization::reorder::{
    lemma_flush_empty,
    lemma_reorder_sentinel_free,
    lemma_reorder_push_barrier,
    lemma_reorder_split,
    reorder_pass,
    ReorderingOptimizations,
};

verus! {

/// An owned, ordered sequence of instructions.
#[derive(Debug, PartialEq, Eq)]
pub struct IRBlock {
    pub content: Vec<IRInstruction>,
}

impl View for IRBlock {
    type V = Seq<Instr>;

    open spec fn view(&self) -> Seq<Instr> {
        seq_model(self.content@)
    }
}

/// The passes applied, in order, to one level of the tree: merge,
/// zero-detection, accumulation-folding, reorder.
pub open spec fn level_passes(s: Seq<Instr>) -> Seq<Instr> {
    reorder_pass(fold_pass(zero_pass(merge_pass(s))))
}

/// A block fully optimized: its nested blocks first, bottom-up, then the
/// passes of its own level, each exactly once.
pub open spec fn optimized(s: Seq<Instr>) -> Seq<Instr>
    decreases s, 1nat,
{
    level_passes(children_optimized(s))
}

/// `s` with each nested block replaced by its optimized form.
pub open spec fn children_optimized(s: Seq<Instr>) -> Seq<Instr>
    decreases s, 0nat,
{
    if s.len() == 0 {
        s
    } else {
        let x = s.last();
        let y = match x {
            Instr::ConditionalBlock(b) => Instr::ConditionalBlock(optimized(b)),
            _ => x,
        };
        children_optimized(s.drop_last()).push(y)
    }
}

proof fn lemma_children_optimized_split(a: Seq<Instr>, b: Seq<Instr>)
    ensures
        children_optimized(a + b) == children_optimized(a) + children_optimized(b),
    decreases b.len(),
{
    if b.len() == 0 {
        assert(a + b =~= a);
        assert(children_optimized(a) + children_optimized(b) =~= children_optimized(a));
    } else {
        assert((a + b).drop_last() =~= a + b.drop_last());
        lemma_children_optimized_split(a, b.drop_last());
        assert(children_optimized(a + b) =~= children_optimized(a) + children_optimized(b));
    }
}

/// A sentinel, alone, is left as it is by every pass.
proof fn lemma_sentinel_fixed(x: Instr)
    requires
        x is BeginProgram || x is EndProgram,
    ensures
        children_optimized(seq![x]) == seq![x],
        merge_pass(seq![x]) == seq![x],
        zero_pass(seq![x]) == seq![x],
        fold_pass(seq![x]) == seq![x],
{
    let s = seq![x];
    let e = Seq::<Instr>::empty();
    assert(s.drop_last() =~= e);
    assert(children_optimized(e) == e);
    assert(children_optimized(s) =~= s);
    assert(merge_pass(e) == e);
    assert(merge_pass(s) =~= s);
    assert(zero_pass(s) =~= s);
    assert(s.skip(1) =~= e);
    assert(fold_pass(e) == e);
    assert(fold_pass(s) =~= s);
}

/// Optimizing a program leaves its two sentinels where they are and
/// optimizes what stands between them as one block.
pub proof fn lemma_optimize_program_frame(body: Seq<Instr>)
    ensures
        optimized(seq![Instr::BeginProgram] + body + seq![Instr::EndProgram]) == seq![
            Instr::BeginProgram,
        ] + optimized(body) + seq![Instr::EndProgram],
{
    let bp = seq![Instr::BeginProgram];
    let ep = seq![Instr::EndProgram];
    lemma_sentinel_fixed(Instr::BeginProgram);
    lemma_sentinel_fixed(Instr::EndProgram);

    lemma_children_optimized_split(bp, body);
    lemma_children_optimized_split(bp + body, ep);
    let c = children_optimized(body);
    assert(children_optimized(bp + body + ep) == bp + c + ep);

    if c.len() == 0 {
        lemma_merge_split(bp, ep);
        assert(bp + c + ep =~= bp + ep);
        assert(merge_pass(c) == c);
    } else {
        lemma_merge_split(c, ep);
        assert((c + ep)[0] == c[0]);
        lemma_merge_split(bp, c + ep);
        assert(bp + c + ep =~= bp + (c + ep));
    }
    let m = merge_pass(c);
    assert(merge_pass(bp + c + ep) == bp + m + ep);

    assert(zero_pass(bp + m + ep) =~= zero_pass(bp) + zero_pass(m) + zero_pass(ep));
    let z = zero_pass(m);

    lemma_fold_split(z, ep);
    lemma_fold_split(bp, z + ep);
    assert(bp + z + ep =~= bp + (z + ep));
    let f = fold_pass(z);
    assert(fold_pass(bp + z + ep) == bp + f + ep);

    lemma_reorder_split(bp, f + ep);
    assert(bp + f + ep =~= bp + (f + ep));
    assert(f + ep =~= f.push(Instr::EndProgram));
    lemma_reorder_push_barrier(f, Instr::EndProgram);
    assert(bp.drop_last() =~= Seq::<Instr>::empty());
    lemma_reorder_push_barrier(Seq::<Instr>::empty(), Instr::BeginProgram);
    assert(Seq::<Instr>::empty().push(Instr::BeginProgram) =~= bp);
    assert(reorder_pass(Seq::<Instr>::empty()) =~= Seq::<Instr>::empty()) by {
        lemma_flush_empty();
    }
    assert(reorder_pass(bp) =~= bp);
    assert(reorder_pass(bp + f + ep) =~= bp + reorder_pass(f) + ep);
}

/// Optimization brings no sentinel into a sequence that has none.
pub proof fn lemma_optimized_sentinel_free(s: Seq<Instr>)
    requires
        sentinel_free(s),
    ensures
        sentinel_free(optimized(s)),
    decreases s, 1nat,
{
    lemma_children_sentinel_free(s);
    let c = children_optimized(s);
    lemma_merge_sentinel_free(c);
    lemma_zero_sentinel_free(merge_pass(c));
    lemma_fold_sentinel_free(zero_pass(merge_pass(c)));
    lemma_reorder_sentinel_free(fold_pass(zero_pass(merge_pass(c))));
}

proof fn lemma_children_sentinel_free(s: Seq<Instr>)
    requires
        sentinel_free(s),
    ensures
        sentinel_free(children_optimized(s)),
    decreases s, 0nat,
{
    if s.len() > 0 {
        let x = s.last();
        lemma_sentinel_free_push(s.drop_last(), x);
        assert(s.drop_last().push(x) =~= s);
        lemma_children_sentinel_free(s.drop_last());
        let y = match x {
            Instr::ConditionalBlock(b) => {
                assert(decreases_to!(s => s[s.len() - 1]));
                lemma_optimized_sentinel_free(b);
                Instr::ConditionalBlock(optimized(b))
            },
            _ => x,
        };
        assert(instr_sentinel_free(y));
        lemma_sentinel_free_push(children_optimized(s.drop_last()), y);
    }
}

/// Optimizing a whole program gives a whole program: the sentinels stay at
/// the two ends, and none appears anywhere else.
pub proof fn lemma_optimize_keeps_program(s: Seq<Instr>)
    requires
        is_program(s),
    ensures
        is_program(optimized(s)),
{
    let body = s.subrange(1, s.len() - 1);
    assert(s =~= seq![Instr::BeginProgram] + body + seq![Instr::EndProgram]);
    lemma_optimize_program_frame(body);
    lemma_optimized_sentinel_free(body);
    let r = optimized(s);
    assert(r.subrange(1, r.len() - 1) =~= optimized(body));
}

impl core::ops::Deref for IRBlock {
    type Target = Vec<IRInstruction>;

    fn deref(&self) -> &Vec<IRInstruction> {
        &self.content
    }
}

impl core::ops::DerefMut for IRBlock {
    fn deref_mut(&mut self) -> &mut Vec<IRInstruction> {
        &mut self.content
    }
}

impl Clone for IRBlock {
    fn clone(&self) -> (r: Self)
        ensures
            r@ == self@,
        decreases self, 0nat,
    {
        let mut content: Vec<IRInstruction> = Vec::new();
        let mut i: usize = 0;
        while i < self.content.len()
            invariant
                i <= self.content@.len(),
                seq_model(content@) == seq_model(self.content@.take(i as int)),
            decreases self.content@.len() - i,
        {
            proof {
                assert(self.content@.take(i + 1) =~= self.content@.take(i as int).push(
                    self.content@[i as int],
                ));
                lemma_seq_model_push(self.content@.take(i as int), self.content@[i as int]);
                assert(decreases_to!(self.content@ => self.content@[i as int]));
            }
            let x = self.content[i].clone();
            proof {
                lemma_seq_model_push(content@, x);
            }
            content.push(x);
            i = i + 1;
        }
        proof {
            assert(self.content@.take(self.content@.len() as int) =~= self.content@);
        }
        IRBlock { content }
    }
}

impl IRBlock {
    /// An empty block.
    pub fn new() -> (r: Self)
        ensures
            r@ == Seq::<Instr>::empty(),
    {
        IRBlock { content: Vec::new() }
    }

    /// A block holding `vc`.
    pub fn with_instructions(vc: Vec<IRInstruction>) -> (r: Self)
        ensures
            r.content@ == vc@,
            r@ == seq_model(vc@),
    {
        IRBlock { content: vc }
    }

    /// Optimizes the nested blocks bottom-up, then runs merge, zero-detection,
    /// accumulation-folding and reorder once over this level.
    ///
    /// The pipeline is not run to a fixed point: a second run may fold
    /// further. A whole program stays a whole program.
    pub fn optimize(self) -> (r: Self)
        ensures
            r@ == optimized(self@),
            is_program(self@) ==> is_program(r@),
        decreases self,
    {
        let ghost orig = self;
        proof {
            if is_program(self@) {
                lemma_optimize_keeps_program(self@);
            }
        }
        let content = self.content;
        let ghost s = content@;
        proof {
            lemma_seq_model(s);
        }
        let mut out: Vec<IRInstruction> = Vec::new();
        for x in it: content.into_iter()
            invariant
                it.seq() == s,
                s == orig.content@,
                orig == self,
                seq_model(out@) == children_optimized(seq_model(s.take(it.index() as int))),
        {
            let ghost i = it.index() as int;
            proof {
                assert(s.take(i + 1) =~= s.take(i).push(s[i]));
                lemma_seq_model_push(s.take(i), s[i]);
                assert(seq_model(s.take(i + 1)).drop_last() =~= seq_model(s.take(i)));
            }
            let y = match x {
                IRInstruction::ConditionalBlock(b) => {
                    proof {
                        assert(decreases_to!(orig.content@ => orig.content@[i]));
                    }
                    IRInstruction::ConditionalBlock(Box::new((*b).optimize()))
                },
                other => other,
            };
            proof {
                lemma_seq_model_push(out@, y);
            }
            out.push(y);
        }
        proof {
            assert(s.take(s.len() as int) =~= s);
        }
        let mut r = IRBlock { content: out };
        r.merge_instructions();
        r.find_set_to_zero();
        r.find_set_to_value();
        r.reorder_instructions();
        r
    }
}

} // verus!
