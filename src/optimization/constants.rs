use vstd::prelude::*;

use crate::block::IRBlock;
use crate::instruction::{
    instr_sentinel_free,
    lemma_seq_model,
    lemma_seq_model_push,
    lemma_sentinel_free,
    lemma_sentinel_free_concat,
    lemma_sentinel_free_push,
    sentinel_free,
    seq_model,
    IRInstruction,
    Instr,
};

verus! {

/// Whether a loop whose body only adds `m` to its own cell surely ends with
/// that cell at zero, from any start value of an eight-bit wrapping cell.
///
/// A step of unit magnitude reaches zero from anywhere; a nonzero magnitude
/// that does not divide 256 visits every residue. A magnitude that divides
/// 256 (other than 1) never reaches zero from a start value that is not a
/// multiple of it, so such a loop is left alone.
pub open spec fn is_zeroing_step(m: isize) -> bool {
    let a: int = if m < 0 { -m } else { m as int };
    (a != 0 && 256int % a != 0) || a == 1
}

/// Whether `x` is a loop whose body is exactly one mutation of offset 0 by a
/// zeroing step.
pub open spec fn is_zeroing_loop(x: Instr) -> bool {
    &&& x matches Instr::ConditionalBlock(body)
    &&& body.len() == 1
    &&& body[0] matches Instr::MutateValue { pos, val }
    &&& pos == 0
    &&& is_zeroing_step(val)
}

/// What zero-detection makes of one instruction.
pub open spec fn zero_detected(x: Instr) -> Instr {
    if is_zeroing_loop(x) {
        Instr::SetTo { pos: 0, val: 0 }
    } else {
        x
    }
}

/// Zero-detection: each zeroing loop becomes `SetTo(0, 0)`.
pub open spec fn zero_pass(s: Seq<Instr>) -> Seq<Instr> {
    s.map_values(|x: Instr| zero_detected(x))
}

/// Whether `b` folds into the `SetTo` `a`: a mutation of the same offset.
pub open spec fn folds_into(a: Instr, b: Instr) -> bool {
    &&& a matches Instr::SetTo { pos: p, .. }
    &&& b matches Instr::MutateValue { pos: q, .. }
    &&& p == q
}

/// The `SetTo` that `a` becomes once the mutation `b` is folded into it.
pub open spec fn folded(a: Instr, b: Instr) -> Instr {
    match (a, b) {
        (Instr::SetTo { pos, val: v }, Instr::MutateValue { val: d, .. }) => Instr::SetTo {
            pos,
            val: v.wrapping_add(d),
        },
        _ => a,
    }
}

/// Accumulation-folding: one left-to-right scan in which a `SetTo` directly
/// followed by a mutation of its offset absorbs that mutation. The scan goes
/// on after the absorbed mutation, so a longer chain folds one step per run.
pub open spec fn fold_pass(s: Seq<Instr>) -> Seq<Instr>
    decreases s.len(),
{
    if s.len() == 0 {
        s
    } else if s.len() >= 2 && folds_into(s[0], s[1]) {
        seq![folded(s[0], s[1])] + fold_pass(s.skip(2))
    } else {
        seq![s[0]] + fold_pass(s.skip(1))
    }
}

/// A loop whose body is one unit step at offset 0 always becomes
/// `SetTo(0, 0)`, wherever it stands.
pub proof fn lemma_unit_step_loop_zeroed(s: Seq<Instr>, i: int, m: isize)
    requires
        0 <= i < s.len(),
        m == 1 || m == -1,
        s[i] == Instr::ConditionalBlock(seq![Instr::MutateValue { pos: 0, val: m }]),
    ensures
        zero_pass(s).len() == s.len(),
        zero_pass(s)[i] == (Instr::SetTo { pos: 0, val: 0 }),
{
}

/// A loop whose body is one step at offset 0 by a magnitude that divides 256
/// and is not 1 (such as -128) is left as it is.
pub proof fn lemma_divisor_step_loop_kept(s: Seq<Instr>, i: int, m: isize)
    requires
        0 <= i < s.len(),
        m < -1 || m > 1,
        256int % (if m < 0 { -m } else { m as int }) == 0,
        s[i] == Instr::ConditionalBlock(seq![Instr::MutateValue { pos: 0, val: m }]),
    ensures
        zero_pass(s).len() == s.len(),
        zero_pass(s)[i] == s[i],
{
}

/// Folding never reaches across a boundary where the left side does not end
/// in a `SetTo` that the right side's first instruction folds into.
pub proof fn lemma_fold_split(a: Seq<Instr>, b: Seq<Instr>)
    requires
        a.len() == 0 || b.len() == 0 || !folds_into(a.last(), b[0]),
    ensures
        fold_pass(a + b) == fold_pass(a) + fold_pass(b),
    decreases a.len(),
{
    if a.len() == 0 {
        assert(a + b =~= b);
        assert(fold_pass(a) + fold_pass(b) =~= fold_pass(b));
    } else if a.len() >= 2 && folds_into(a[0], a[1]) {
        assert((a + b).skip(2) =~= a.skip(2) + b);
        if a.len() > 2 {
            assert(a.skip(2).last() == a.last());
        }
        lemma_fold_split(a.skip(2), b);
        assert(fold_pass(a + b) =~= fold_pass(a) + fold_pass(b));
    } else {
        assert((a + b).skip(1) =~= a.skip(1) + b);
        if a.len() > 1 {
            assert(a.skip(1).last() == a.last());
        }
        lemma_fold_split(a.skip(1), b);
        if a.len() == 1 {
            assert(a.skip(1) =~= Seq::<Instr>::empty());
            assert(fold_pass(a.skip(1)).len() == 0);
        }
        assert(fold_pass(a + b) =~= fold_pass(a) + fold_pass(b));
    }
}

/// `SetTo(p, v)` directly followed by a mutation of `p` by `d` folds into
/// `SetTo(p, v + d)`, whatever stands around the pair.
pub proof fn lemma_set_then_mutate_folds(
    pre: Seq<Instr>,
    p: isize,
    v: isize,
    d: isize,
    post: Seq<Instr>,
)
    ensures
        fold_pass(pre + seq![Instr::SetTo { pos: p, val: v }, Instr::MutateValue { pos: p, val: d }]
            + post) == fold_pass(pre) + seq![Instr::SetTo { pos: p, val: v.wrapping_add(d) }]
            + fold_pass(post),
{
    let pair = seq![Instr::SetTo { pos: p, val: v }, Instr::MutateValue { pos: p, val: d }];
    assert(pre + pair + post =~= pre + (pair + post));
    lemma_fold_split(pre, pair + post);
    assert((pair + post).skip(2) =~= post);
}

/// `SetTo(p, v)` followed by a mutation of another offset is left as it is.
pub proof fn lemma_set_then_other_mutation_kept(
    pre: Seq<Instr>,
    p: isize,
    v: isize,
    q: isize,
    d: isize,
    post: Seq<Instr>,
)
    requires
        p != q,
    ensures
        fold_pass(pre + seq![Instr::SetTo { pos: p, val: v }, Instr::MutateValue { pos: q, val: d }]
            + post) == fold_pass(pre) + seq![
            Instr::SetTo { pos: p, val: v },
            Instr::MutateValue { pos: q, val: d },
        ] + fold_pass(post),
{
    let pair = seq![Instr::SetTo { pos: p, val: v }, Instr::MutateValue { pos: q, val: d }];
    assert(pre + pair + post =~= pre + (pair + post));
    lemma_fold_split(pre, pair + post);
    let r = pair + post;
    assert(r.skip(1) =~= seq![Instr::MutateValue { pos: q, val: d }] + post);
    assert(r.skip(1).skip(1) =~= post);
    assert(!folds_into(r[0], r[1]));
    assert(fold_pass(r) == seq![r[0]] + fold_pass(r.skip(1)));
    assert(fold_pass(r.skip(1)) == seq![r[1]] + fold_pass(post));
    assert(fold_pass(r) =~= pair + fold_pass(post));
}

/// Zero-detection brings in no sentinel.
pub proof fn lemma_zero_sentinel_free(s: Seq<Instr>)
    requires
        sentinel_free(s),
    ensures
        sentinel_free(zero_pass(s)),
{
    lemma_sentinel_free(s);
    lemma_sentinel_free(zero_pass(s));
    assert forall|i: int| 0 <= i < zero_pass(s).len() implies #[trigger] instr_sentinel_free(
        zero_pass(s)[i],
    ) by {
        assert(instr_sentinel_free(s[i]));
    }
}

/// Folding brings in no sentinel.
pub proof fn lemma_fold_sentinel_free(s: Seq<Instr>)
    requires
        sentinel_free(s),
    ensures
        sentinel_free(fold_pass(s)),
    decreases s.len(),
{
    if s.len() > 0 {
        lemma_sentinel_free(s);
        let k: int = if s.len() >= 2 && folds_into(s[0], s[1]) {
            2
        } else {
            1
        };
        let y = if k == 2 {
            folded(s[0], s[1])
        } else {
            s[0]
        };
        assert(s =~= s.take(k) + s.skip(k));
        lemma_sentinel_free_concat(s.take(k), s.skip(k));
        lemma_fold_sentinel_free(s.skip(k));
        assert(instr_sentinel_free(s[0]));
        assert(instr_sentinel_free(y));
        assert(sentinel_free(seq![y])) by {
            assert(seq![y] =~= Seq::<Instr>::empty().push(y));
            lemma_sentinel_free_push(Seq::<Instr>::empty(), y);
        }
        lemma_sentinel_free_concat(seq![y], fold_pass(s.skip(k)));
    }
}

/// Constant propagation over one block.
pub trait ConstantsOptimization {
    fn find_set_to_zero(&mut self);

    fn find_set_to_value(&mut self);
}

fn zeroing_step(m: isize) -> (r: bool)
    ensures
        r == is_zeroing_step(m),
{
    if m == 1 || m == -1 {
        true
    } else if m == 0 {
        false
    } else if m > 256 || m < -256 {
        proof {
            let a = if m < 0 { -m } else { m as int };
            vstd::arithmetic::div_mod::lemma_small_mod(256, a as nat);
        }
        true
    } else {
        let a: isize = if m < 0 { -m } else { m };
        256 % a != 0
    }
}

fn zeroing_loop(x: &IRInstruction) -> (r: bool)
    ensures
        r == is_zeroing_loop(x@),
{
    match x {
        IRInstruction::ConditionalBlock(b) => {
            proof {
                lemma_seq_model(b.content@);
            }
            if b.content.len() != 1 {
                false
            } else {
                match &b.content[0] {
                    IRInstruction::MutateValue { pos, val } => *pos == 0 && zeroing_step(*val),
                    _ => false,
                }
            }
        },
        _ => false,
    }
}

/// Moves the element at `i` out of `v`, leaving a sentinel in its place.
fn take_at(v: &mut Vec<IRInstruction>, i: usize) -> (r: IRInstruction)
    requires
        i < old(v).len(),
    ensures
        r == old(v)@[i as int],
        final(v)@ == old(v)@.update(i as int, IRInstruction::EndProgram),
{
    let mut r = IRInstruction::EndProgram;
    std::mem::swap(&mut r, &mut v[i]);
    r
}

impl ConstantsOptimization for IRBlock {
    /// Zero-detection over the direct sequence of this block.
    fn find_set_to_zero(&mut self)
        ensures
            final(self)@ == zero_pass(old(self)@),
    {
        let mut content: Vec<IRInstruction> = Vec::new();
        std::mem::swap(&mut content, &mut self.content);
        let ghost s = content@;
        let mut out: Vec<IRInstruction> = Vec::new();
        for x in it: content.into_iter()
            invariant
                it.seq() == s,
                seq_model(out@) == zero_pass(seq_model(s.take(it.index() as int))),
        {
            let ghost i = it.index() as int;
            let y = if zeroing_loop(&x) {
                IRInstruction::SetTo { pos: 0, val: 0 }
            } else {
                x
            };
            proof {
                assert(s.take(i + 1) =~= s.take(i).push(s[i]));
                lemma_seq_model_push(s.take(i), s[i]);
                lemma_seq_model_push(out@, y);
                assert(zero_pass(seq_model(s.take(i + 1))) =~= zero_pass(
                    seq_model(s.take(i)),
                ).push(zero_detected(s[i]@)));
            }
            out.push(y);
        }
        proof {
            assert(s.take(s.len() as int) =~= s);
        }
        self.content = out;
    }

    /// Accumulation-folding over the direct sequence of this block.
    fn find_set_to_value(&mut self)
        ensures
            final(self)@ == fold_pass(old(self)@),
    {
        let mut content: Vec<IRInstruction> = Vec::new();
        std::mem::swap(&mut content, &mut self.content);
        let ghost s = content@;
        let ghost m = seq_model(s);
        proof {
            lemma_seq_model(s);
        }
        let n = content.len();
        let mut out: Vec<IRInstruction> = Vec::new();
        let mut i: usize = 0;
        proof {
            assert(m.skip(0) =~= m);
            assert(seq_model(out@) + fold_pass(m) =~= fold_pass(m));
        }
        while i < n
            invariant
                n == content.len() == s.len() == m.len(),
                i <= n,
                m == seq_model(s),
                forall|j: int| i <= j < n ==> #[trigger] content@[j] == s[j],
                forall|j: int| 0 <= j < n ==> #[trigger] m[j] == s[j]@,
                fold_pass(m) == seq_model(out@) + fold_pass(m.skip(i as int)),
            decreases n - i,
        {
            let ghost rest = m.skip(i as int);
            let absorbed: Option<IRInstruction> = if i + 1 < n {
                match (&content[i], &content[i + 1]) {
                    (IRInstruction::SetTo { pos: p, val: v }, IRInstruction::MutateValue { pos: q, val: d }) => {
                        if *p == *q {
                            Some(IRInstruction::SetTo { pos: *p, val: v.wrapping_add(*d) })
                        } else {
                            None
                        }
                    },
                    _ => None,
                }
            } else {
                None
            };
            match absorbed {
                Some(y) => {
                    proof {
                        assert(rest[0] == m[i as int] && rest[1] == m[i + 1]);
                        assert(rest.skip(2) =~= m.skip(i + 2));
                        lemma_seq_model_push(out@, y);
                    }
                    out.push(y);
                    i = i + 2;
                },
                None => {
                    let y = take_at(&mut content, i);
                    proof {
                        assert(rest[0] == m[i as int]);
                        assert(rest.len() >= 2 ==> rest[1] == m[i + 1]);
                        assert(rest.skip(1) =~= m.skip(i + 1));
                        lemma_seq_model_push(out@, y);
                    }
                    out.push(y);
                    i = i + 1;
                },
            }
            proof {
                assert(fold_pass(m) =~= seq_model(out@) + fold_pass(m.skip(i as int)));
            }
        }
        proof {
            assert(m.skip(n as int) =~= Seq::<Instr>::empty());
            assert(seq_model(out@) + Seq::<Instr>::empty() =~= seq_model(out@));
        }
        self.content = out;
    }
}

} // verus!
