use vstd::prelude::*;

use crate::block::IRBlock;
use crate::instruction::{
    lemma_seq_model,
    lemma_seq_model_push,
    lemma_sentinel_free_push,
    sentinel_free,
    seq_model,
    IRInstruction,
    Instr,
};

verus! {

/// Whether `b` extends a run that ends in `a`: two pointer moves, or two
/// mutations of the same offset.
pub open spec fn joins(a: Instr, b: Instr) -> bool {
    match (a, b) {
        (Instr::TraverseBy { .. }, Instr::TraverseBy { .. }) => true,
        (Instr::MutateValue { pos: p, .. }, Instr::MutateValue { pos: q, .. }) => p == q,
        _ => false,
    }
}

/// The single instruction that a run ending in `a` becomes once `b` joins it.
pub open spec fn join(a: Instr, b: Instr) -> Instr {
    match (a, b) {
        (Instr::TraverseBy { val: x }, Instr::TraverseBy { val: y }) => Instr::TraverseBy {
            val: x.wrapping_add(y),
        },
        (Instr::MutateValue { pos, val: x }, Instr::MutateValue { val: y, .. }) => {
            Instr::MutateValue { pos, val: x.wrapping_add(y) }
        },
        _ => a,
    }
}

/// Appends `x` to an already merged sequence `m`.
pub open spec fn merge_push(m: Seq<Instr>, x: Instr) -> Seq<Instr> {
    if m.len() > 0 && joins(m.last(), x) {
        m.drop_last().push(join(m.last(), x))
    } else {
        m.push(x)
    }
}

/// The merge pass: every maximal run of pointer moves, and every maximal run
/// of mutations of one offset, collapses into one instruction carrying the
/// (wrapping) sum of the deltas. Nested blocks are left as they are.
pub open spec fn merge_pass(s: Seq<Instr>) -> Seq<Instr>
    decreases s.len(),
{
    if s.len() == 0 {
        s
    } else {
        merge_push(merge_pass(s.drop_last()), s.last())
    }
}

/// The wrapping sum of `ds`, added from the left.
pub open spec fn wrapping_sum(ds: Seq<isize>) -> isize
    decreases ds.len(),
{
    if ds.len() == 0 {
        0
    } else {
        wrapping_sum(ds.drop_last()).wrapping_add(ds.last())
    }
}

/// The exact sum of `ds`.
pub open spec fn exact_sum(ds: Seq<isize>) -> int
    decreases ds.len(),
{
    if ds.len() == 0 {
        0
    } else {
        exact_sum(ds.drop_last()) + ds.last()
    }
}

/// The wrapping sum is the exact sum whenever the exact sum fits in `isize`.
pub proof fn lemma_wrapping_sum_exact(ds: Seq<isize>)
    ensures
        isize::MIN <= exact_sum(ds) <= isize::MAX ==> wrapping_sum(ds) == exact_sum(ds),
{
    let range = isize::MAX - isize::MIN + 1;
    let q = lemma_wrapping_sum_offset(ds);
    if isize::MIN <= exact_sum(ds) <= isize::MAX {
        assert(-range < range * q < range);
        assert(q == 0) by (nonlinear_arith)
            requires
                -range < range * q < range,
                range > 0,
        ;
    }
}

/// The wrapping sum differs from the exact sum by a whole number of wraps.
proof fn lemma_wrapping_sum_offset(ds: Seq<isize>) -> (q: int)
    ensures
        wrapping_sum(ds) == exact_sum(ds) - (isize::MAX - isize::MIN + 1) * q,
    decreases ds.len(),
{
    if ds.len() == 0 {
        0
    } else {
        let range = isize::MAX - isize::MIN + 1;
        assert(range == usize::MAX - usize::MIN + 1);
        let q0 = lemma_wrapping_sum_offset(ds.drop_last());
        let w = wrapping_sum(ds.drop_last());
        let c: int = if w + ds.last() > isize::MAX {
            1
        } else if w + ds.last() < isize::MIN {
            -1
        } else {
            0
        };
        assert(range * (q0 + c) == range * q0 + range * c) by (nonlinear_arith);
        q0 + c
    }
}

/// The pointer moves by each of `ds`, in order.
pub open spec fn traversals(ds: Seq<isize>) -> Seq<Instr> {
    ds.map_values(|d: isize| Instr::TraverseBy { val: d })
}

/// The mutations of offset `p` by each of `ds`, in order.
pub open spec fn mutations(p: isize, ds: Seq<isize>) -> Seq<Instr> {
    ds.map_values(|d: isize| Instr::MutateValue { pos: p, val: d })
}

/// Consecutive pointer moves by `d1..dN` merge into one move by their sum.
pub proof fn lemma_merge_traversals(ds: Seq<isize>)
    requires
        ds.len() > 0,
    ensures
        merge_pass(traversals(ds)) == seq![Instr::TraverseBy { val: wrapping_sum(ds) }],
        isize::MIN <= exact_sum(ds) <= isize::MAX ==> merge_pass(traversals(ds)) == seq![
            Instr::TraverseBy { val: exact_sum(ds) as isize },
        ],
    decreases ds.len(),
{
    lemma_wrapping_sum_exact(ds);
    let t = traversals(ds);
    assert(t.drop_last() =~= traversals(ds.drop_last()));
    assert(t.last() == Instr::TraverseBy { val: ds.last() });
    if ds.len() > 1 {
        lemma_merge_traversals(ds.drop_last());
        let w = wrapping_sum(ds.drop_last());
        assert(merge_pass(t) == merge_push(seq![Instr::TraverseBy { val: w }], t.last()));
        assert(seq![Instr::TraverseBy { val: w }].drop_last() =~= Seq::<Instr>::empty());
        assert(merge_pass(t) =~= seq![Instr::TraverseBy { val: wrapping_sum(ds) }]);
    } else {
        assert(t.drop_last() =~= Seq::<Instr>::empty());
        assert(merge_pass(t.drop_last()).len() == 0);
        assert(ds.drop_last() =~= Seq::<isize>::empty());
        assert(wrapping_sum(ds.drop_last()) == 0);
        assert(merge_pass(t) =~= seq![Instr::TraverseBy { val: wrapping_sum(ds) }]);
    }
}

/// Consecutive mutations of one offset by `d1..dN` merge into one mutation
/// of that offset by their sum.
pub proof fn lemma_merge_mutations(p: isize, ds: Seq<isize>)
    requires
        ds.len() > 0,
    ensures
        merge_pass(mutations(p, ds)) == seq![Instr::MutateValue { pos: p, val: wrapping_sum(ds) }],
        isize::MIN <= exact_sum(ds) <= isize::MAX ==> merge_pass(mutations(p, ds)) == seq![
            Instr::MutateValue { pos: p, val: exact_sum(ds) as isize },
        ],
    decreases ds.len(),
{
    lemma_wrapping_sum_exact(ds);
    let t = mutations(p, ds);
    assert(t.drop_last() =~= mutations(p, ds.drop_last()));
    assert(t.last() == Instr::MutateValue { pos: p, val: ds.last() });
    if ds.len() > 1 {
        lemma_merge_mutations(p, ds.drop_last());
        let w = wrapping_sum(ds.drop_last());
        assert(merge_pass(t) == merge_push(seq![Instr::MutateValue { pos: p, val: w }], t.last()));
        assert(seq![Instr::MutateValue { pos: p, val: w }].drop_last() =~= Seq::<Instr>::empty());
        assert(merge_pass(t) =~= seq![Instr::MutateValue { pos: p, val: wrapping_sum(ds) }]);
    } else {
        assert(t.drop_last() =~= Seq::<Instr>::empty());
        assert(merge_pass(t.drop_last()).len() == 0);
        assert(ds.drop_last() =~= Seq::<isize>::empty());
        assert(wrapping_sum(ds.drop_last()) == 0);
        assert(merge_pass(t) =~= seq![Instr::MutateValue { pos: p, val: wrapping_sum(ds) }]);
    }
}

/// The merged form of a nonempty sequence ends in an instruction that joins
/// exactly what the sequence's own last instruction joins.
pub proof fn lemma_merge_last(x: Seq<Instr>)
    requires
        x.len() > 0,
    ensures
        merge_pass(x).len() > 0,
        forall|z: Instr| joins(merge_pass(x).last(), z) == joins(x.last(), z),
    decreases x.len(),
{
    if x.len() > 1 {
        lemma_merge_last(x.drop_last());
    }
}

/// Merging never reaches across a boundary where the two neighbors do not
/// join: the two sides merge separately.
pub proof fn lemma_merge_split(x: Seq<Instr>, y: Seq<Instr>)
    requires
        x.len() > 0,
        y.len() > 0,
        !joins(x.last(), y[0]),
    ensures
        merge_pass(x + y) == merge_pass(x) + merge_pass(y),
    decreases y.len(),
{
    lemma_merge_last(x);
    if y.len() == 1 {
        assert((x + y).drop_last() =~= x);
        assert(y.drop_last() =~= Seq::<Instr>::empty());
    } else {
        assert((x + y).drop_last() =~= x + y.drop_last());
        lemma_merge_split(x, y.drop_last());
        lemma_merge_last(y.drop_last());
        let a = merge_pass(x);
        let b = merge_pass(y.drop_last());
        assert((a + b).last() == b.last());
        assert((a + b).drop_last() =~= a + b.drop_last());
        assert(merge_push(a + b, y.last()) =~= a + merge_push(b, y.last()));
    }
}

/// A mutation of offset `q` between mutations of other offsets blocks the
/// merging across it: each side merges on its own and the mutation stays.
pub proof fn lemma_merge_interrupted(x: Seq<Instr>, q: isize, d: isize, y: Seq<Instr>)
    requires
        x.len() > 0,
        y.len() > 0,
        x.last() matches Instr::MutateValue { pos, .. } && pos != q,
        y[0] matches Instr::MutateValue { pos, .. } && pos != q,
    ensures
        merge_pass(x + seq![Instr::MutateValue { pos: q, val: d }] + y) == merge_pass(x) + seq![
            Instr::MutateValue { pos: q, val: d },
        ] + merge_pass(y),
{
    let m = seq![Instr::MutateValue { pos: q, val: d }];
    lemma_merge_split(m, y);
    assert((x + m).last() == m[0]);
    lemma_merge_split(x + m, y);
    lemma_merge_split(x, m);
    assert(m.drop_last() =~= Seq::<Instr>::empty());
    assert(merge_pass(m.drop_last()).len() == 0);
    assert(merge_pass(m) =~= m);
}

/// Merging brings in no sentinel.
pub proof fn lemma_merge_sentinel_free(s: Seq<Instr>)
    requires
        sentinel_free(s),
    ensures
        sentinel_free(merge_pass(s)),
    decreases s.len(),
{
    if s.len() > 0 {
        lemma_merge_sentinel_free(s.drop_last());
        let m = merge_pass(s.drop_last());
        if m.len() > 0 && joins(m.last(), s.last()) {
            assert(m =~= m.drop_last().push(m.last()));
            lemma_sentinel_free_push(m.drop_last(), m.last());
            lemma_sentinel_free_push(m.drop_last(), join(m.last(), s.last()));
        } else {
            lemma_sentinel_free_push(m, s.last());
        }
    }
}

/// Collapsing runs of pointer moves and of same-offset mutations.
pub trait MergeInstructions {
    fn merge_instructions(&mut self);
}

fn push_merged(out: &mut Vec<IRInstruction>, x: IRInstruction)
    ensures
        seq_model(final(out)@) == merge_push(seq_model(old(out)@), x@),
{
    proof {
        lemma_seq_model(out@);
    }
    let n = out.len();
    let joined: Option<IRInstruction> = if n == 0 {
        None
    } else {
        match (&out[n - 1], &x) {
            (IRInstruction::TraverseBy { val: a }, IRInstruction::TraverseBy { val: b }) => {
                Some(IRInstruction::TraverseBy { val: a.wrapping_add(*b) })
            },
            (
                IRInstruction::MutateValue { pos: p, val: a },
                IRInstruction::MutateValue { pos: q, val: b },
            ) => {
                if *p == *q {
                    Some(IRInstruction::MutateValue { pos: *p, val: a.wrapping_add(*b) })
                } else {
                    None
                }
            },
            _ => None,
        }
    };
    let ghost before = out@;
    match joined {
        Some(j) => {
            out.pop();
            proof {
                assert(out@ =~= before.drop_last());
                lemma_seq_model(before.drop_last());
                assert(seq_model(out@) =~= seq_model(before).drop_last());
                lemma_seq_model_push(out@, j);
            }
            out.push(j);
        },
        None => {
            proof {
                lemma_seq_model_push(out@, x);
            }
            out.push(x);
        },
    }
}

impl MergeInstructions for IRBlock {
    fn merge_instructions(&mut self)
        ensures
            final(self)@ == merge_pass(old(self)@),
    {
        let mut content: Vec<IRInstruction> = Vec::new();
        std::mem::swap(&mut content, &mut self.content);
        let ghost s = content@;
        let mut out: Vec<IRInstruction> = Vec::new();
        for x in it: content.into_iter()
            invariant
                it.seq() == s,
                seq_model(out@) == merge_pass(seq_model(s.take(it.index() as int))),
        {
            proof {
                let i = it.index() as int;
                assert(s.take(i + 1) =~= s.take(i).push(s[i]));
                lemma_seq_model_push(s.take(i), s[i]);
                assert(seq_model(s.take(i + 1)).drop_last() =~= seq_model(s.take(i)));
            }
            push_merged(&mut out, x);
        }
        proof {
            assert(s.take(s.len() as int) =~= s);
        }
        self.content = out;
    }
}

} // verus!
