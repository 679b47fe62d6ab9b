use vstd::prelude::*;

use crate::block::IRBlock;
use crate::instruction::{
    instr_sentinel_free,
    lemma_seq_model,
    lemma_seq_model_push,
    lemma_sentinel_free,
    lemma_sentinel_free_concat,
    lemma_sentinel_free_push,
    sentinel_free,
    seq_model,
    IRInstruction,
    Instr,
};

verus! {

/// A pending write: its effective position and its value.
pub type Pending = (isize, isize);

/// Whether the reorder pass defers `x`: pointer moves, mutations and sets.
pub open spec fn is_deferred(x: Instr) -> bool {
    x is TraverseBy || x is MutateValue || x is SetTo
}

/// The flush window at the end of `s`: its longest suffix of deferred
/// instructions.
pub open spec fn window(s: Seq<Instr>) -> Seq<Instr>
    decreases s.len(),
{
    if s.len() == 0 {
        s
    } else if is_deferred(s.last()) {
        window(s.drop_last()).push(s.last())
    } else {
        Seq::empty()
    }
}

/// The net pointer motion of a window (wrapping sum of its moves).
pub open spec fn shift_of(w: Seq<Instr>) -> isize
    decreases w.len(),
{
    if w.len() == 0 {
        0
    } else {
        match w.last() {
            Instr::TraverseBy { val } => shift_of(w.drop_last()).wrapping_add(val),
            _ => shift_of(w.drop_last()),
        }
    }
}

/// The sets of a window in arrival order, each at its effective position:
/// its offset plus the motion of the window before it.
pub open spec fn sets_of(w: Seq<Instr>) -> Seq<Pending>
    decreases w.len(),
{
    if w.len() == 0 {
        Seq::empty()
    } else {
        match w.last() {
            Instr::SetTo { pos, val } => sets_of(w.drop_last()).push(
                (pos.wrapping_add(shift_of(w.drop_last())), val),
            ),
            _ => sets_of(w.drop_last()),
        }
    }
}

/// The mutations of a window in arrival order, each at its effective position.
pub open spec fn mutations_of(w: Seq<Instr>) -> Seq<Pending>
    decreases w.len(),
{
    if w.len() == 0 {
        Seq::empty()
    } else {
        match w.last() {
            Instr::MutateValue { pos, val } => mutations_of(w.drop_last()).push(
                (pos.wrapping_add(shift_of(w.drop_last())), val),
            ),
            _ => mutations_of(w.drop_last()),
        }
    }
}

/// `s` with `e` inserted after every entry whose position is not greater
/// than that of `e`.
pub open spec fn insert_by_pos(s: Seq<Pending>, e: Pending) -> Seq<Pending>
    decreases s.len(),
{
    if s.len() == 0 || s.last().0 <= e.0 {
        s.push(e)
    } else {
        insert_by_pos(s.drop_last(), e).push(s.last())
    }
}

/// `s` sorted ascending by position; entries of one position keep their
/// order of arrival.
pub open spec fn sort_by_pos(s: Seq<Pending>) -> Seq<Pending>
    decreases s.len(),
{
    if s.len() == 0 {
        s
    } else {
        insert_by_pos(sort_by_pos(s.drop_last()), s.last())
    }
}

/// The instructions that pending state is emitted as: the sets, then the
/// mutations, then the net motion if it is not zero.
pub open spec fn emit_pending(sets: Seq<Pending>, muts: Seq<Pending>, shift: isize) -> Seq<Instr> {
    sets.map_values(|e: Pending| Instr::SetTo { pos: e.0, val: e.1 }) + muts.map_values(
        |e: Pending| Instr::MutateValue { pos: e.0, val: e.1 },
    ) + if shift != 0 {
        seq![Instr::TraverseBy { val: shift }]
    } else {
        Seq::empty()
    }
}

/// What a window is flushed as: its sets sorted by effective position, then
/// its mutations sorted by effective position, then one move by its net
/// motion, if that is not zero.
///
/// The two groups are emitted sets first. A mutation that came before a set
/// of the same effective position therefore lands after it, which changes the
/// cell's final value; this ordering is the pass's defined behavior.
pub open spec fn flush(w: Seq<Instr>) -> Seq<Instr> {
    emit_pending(sort_by_pos(sets_of(w)), sort_by_pos(mutations_of(w)), shift_of(w))
}

/// What the pass has emitted after reading `s`, not counting the pending
/// window: each instruction that is not deferred comes right after the
/// flush of the window before it.
pub open spec fn emitted(s: Seq<Instr>) -> Seq<Instr>
    decreases s.len(),
{
    if s.len() == 0 {
        s
    } else if is_deferred(s.last()) {
        emitted(s.drop_last())
    } else {
        emitted(s.drop_last()) + flush(window(s.drop_last())) + seq![s.last()]
    }
}

/// The reorder pass: pointer moves and writes are deferred, and each window
/// is flushed before the next instruction that is not deferred, and once more
/// at the end.
pub open spec fn reorder_pass(s: Seq<Instr>) -> Seq<Instr> {
    emitted(s) + flush(window(s))
}

/// Whether the positions of `s` ascend.
pub open spec fn ascending(s: Seq<Pending>) -> bool {
    forall|i: int, j: int| 0 <= i < j < s.len() ==> s[i].0 <= s[j].0
}

proof fn lemma_insert_by_pos(s: Seq<Pending>, e: Pending)
    requires
        ascending(s),
    ensures
        ascending(insert_by_pos(s, e)),
        insert_by_pos(s, e).to_multiset() == s.to_multiset().insert(e),
        insert_by_pos(s, e).len() == s.len() + 1,
        insert_by_pos(s, e).last() == (if s.len() == 0 || s.last().0 <= e.0 {
            e
        } else {
            s.last()
        }),
    decreases s.len(),
{
    broadcast use vstd::seq_lib::to_multiset_build;

    if s.len() == 0 || s.last().0 <= e.0 {
    } else {
        let t = s.drop_last();
        lemma_insert_by_pos(t, e);
        let r = insert_by_pos(t, e);
        assert(s =~= t.push(s.last()));
        assert(ascending(r.push(s.last()))) by {
            assert forall|i: int, j: int| 0 <= i < j < r.len() + 1 implies r.push(s.last())[i].0
                <= r.push(s.last())[j].0 by {
                if j == r.len() && r.len() > 0 {
                    if t.len() == 0 || t.last().0 <= e.0 {
                        assert(r.last() == e);
                    } else {
                        assert(r.last() == t.last());
                    }
                    assert(r.push(s.last())[i].0 <= r.last().0);
                }
            }
        }
        assert(r.push(s.last()).to_multiset() =~= s.to_multiset().insert(e));
    }
}

/// Flushed entries come out in ascending order of position, and are exactly
/// the entries that went in.
pub proof fn lemma_sort_by_pos(s: Seq<Pending>)
    ensures
        ascending(sort_by_pos(s)),
        sort_by_pos(s).to_multiset() == s.to_multiset(),
    decreases s.len(),
{
    broadcast use vstd::seq_lib::to_multiset_build;

    if s.len() > 0 {
        lemma_sort_by_pos(s.drop_last());
        lemma_insert_by_pos(sort_by_pos(s.drop_last()), s.last());
        assert(s =~= s.drop_last().push(s.last()));
    }
}

/// A flush holds only sets, mutations and moves.
proof fn lemma_flush_sentinel_free(w: Seq<Instr>)
    ensures
        sentinel_free(flush(w)),
{
    let f = flush(w);
    lemma_sentinel_free(f);
    assert forall|i: int| 0 <= i < f.len() implies #[trigger] instr_sentinel_free(f[i]) by {
        assert(f[i] is SetTo || f[i] is MutateValue || f[i] is TraverseBy);
    }
}

/// Reordering brings in no sentinel.
pub proof fn lemma_reorder_sentinel_free(s: Seq<Instr>)
    requires
        sentinel_free(s),
    ensures
        sentinel_free(reorder_pass(s)),
{
    lemma_emitted_sentinel_free(s);
    lemma_flush_sentinel_free(window(s));
    lemma_sentinel_free_concat(emitted(s), flush(window(s)));
}

proof fn lemma_emitted_sentinel_free(s: Seq<Instr>)
    requires
        sentinel_free(s),
    ensures
        sentinel_free(emitted(s)),
    decreases s.len(),
{
    if s.len() > 0 {
        lemma_emitted_sentinel_free(s.drop_last());
        if !is_deferred(s.last()) {
            lemma_flush_sentinel_free(window(s.drop_last()));
            lemma_sentinel_free_concat(emitted(s.drop_last()), flush(window(s.drop_last())));
            assert(instr_sentinel_free(s.last()));
            assert(sentinel_free(seq![s.last()])) by {
                assert(seq![s.last()] =~= Seq::<Instr>::empty().push(s.last()));
                lemma_sentinel_free_push(Seq::<Instr>::empty(), s.last());
            }
            lemma_sentinel_free_concat(
                emitted(s.drop_last()) + flush(window(s.drop_last())),
                seq![s.last()],
            );
        }
    }
}

/// A window with nothing in it flushes as nothing.
pub proof fn lemma_flush_empty()
    ensures
        flush(Seq::empty()) == Seq::<Instr>::empty(),
{
    let e = Seq::<Instr>::empty();
    assert(sets_of(e) =~= Seq::<Pending>::empty());
    assert(mutations_of(e) =~= Seq::<Pending>::empty());
    assert(sort_by_pos(sets_of(e)) =~= Seq::<Pending>::empty());
    assert(sort_by_pos(mutations_of(e)) =~= Seq::<Pending>::empty());
    assert(flush(e) =~= Seq::<Instr>::empty());
}

proof fn lemma_emitted_split(p: Seq<Instr>, b: Seq<Instr>)
    requires
        p.len() > 0,
        !is_deferred(p.last()),
    ensures
        emitted(p + b) == emitted(p) + emitted(b),
        window(p + b) == window(b),
    decreases b.len(),
{
    if b.len() == 0 {
        assert(p + b =~= p);
        assert(emitted(p) + emitted(b) =~= emitted(p));
    } else {
        assert((p + b).drop_last() =~= p + b.drop_last());
        lemma_emitted_split(p, b.drop_last());
        if !is_deferred(b.last()) {
            assert(emitted(p + b) =~= emitted(p) + emitted(b));
        }
    }
}

/// After an instruction that is not deferred the pass starts afresh, so the
/// two sides of it are reordered separately.
pub proof fn lemma_reorder_split(p: Seq<Instr>, b: Seq<Instr>)
    requires
        p.len() > 0,
        !is_deferred(p.last()),
    ensures
        reorder_pass(p + b) == reorder_pass(p) + reorder_pass(b),
{
    lemma_emitted_split(p, b);
    lemma_flush_empty();
    assert(reorder_pass(p) =~= emitted(p));
    assert(reorder_pass(p + b) =~= reorder_pass(p) + reorder_pass(b));
}

/// An instruction that is not deferred, put at the end, stays at the end.
pub proof fn lemma_reorder_push_barrier(p: Seq<Instr>, x: Instr)
    requires
        !is_deferred(x),
    ensures
        reorder_pass(p.push(x)) == reorder_pass(p).push(x),
{
    assert(p.push(x).drop_last() =~= p);
    lemma_flush_empty();
    assert(reorder_pass(p.push(x)) =~= reorder_pass(p).push(x));
}

/// Deferring pointer motion and grouping writes by position.
pub trait ReorderingOptimizations {
    fn reorder_instructions(&mut self);
}

/// Inserts `e` into `v` after every entry whose position is not greater.
fn insert_pending(v: &mut Vec<Pending>, e: Pending)
    ensures
        final(v)@ == insert_by_pos(old(v)@, e),
{
    let ghost s = v@;
    let mut j: usize = v.len();
    proof {
        assert(s.take(j as int) =~= s);
        assert(insert_by_pos(s, e) =~= insert_by_pos(s.take(j as int), e) + s.skip(j as int));
    }
    while j > 0 && v[j - 1].0 > e.0
        invariant
            v@ == s,
            j <= s.len(),
            insert_by_pos(s, e) == insert_by_pos(s.take(j as int), e) + s.skip(j as int),
        decreases j,
    {
        proof {
            let t = s.take(j as int);
            assert(t.drop_last() =~= s.take(j - 1));
            assert(s.skip(j - 1) =~= seq![t.last()] + s.skip(j as int));
            assert(insert_by_pos(t, e) == insert_by_pos(t.drop_last(), e).push(t.last()));
            assert(insert_by_pos(s.take(j as int), e) + s.skip(j as int) =~= insert_by_pos(
                s.take(j - 1),
                e,
            ) + s.skip(j - 1));
        }
        j = j - 1;
    }
    proof {
        assert(insert_by_pos(s.take(j as int), e) == s.take(j as int).push(e));
    }
    v.insert(j, e);
    proof {
        assert(v@ =~= s.take(j as int).push(e) + s.skip(j as int));
    }
}

/// Emits the pending state into `out`.
fn emit_into(out: &mut Vec<IRInstruction>, sets: &Vec<Pending>, muts: &Vec<Pending>, shift: isize)
    ensures
        seq_model(final(out)@) == seq_model(old(out)@) + emit_pending(sets@, muts@, shift),
{
    let ghost base = seq_model(out@);
    let ghost set_instrs = sets@.map_values(|e: Pending| Instr::SetTo { pos: e.0, val: e.1 });
    let ghost mut_instrs = muts@.map_values(
        |e: Pending| Instr::MutateValue { pos: e.0, val: e.1 },
    );
    let mut i: usize = 0;
    while i < sets.len()
        invariant
            i <= sets.len(),
            base == seq_model(old(out)@),
            set_instrs == sets@.map_values(|e: Pending| Instr::SetTo { pos: e.0, val: e.1 }),
            seq_model(out@) == base + set_instrs.take(i as int),
        decreases sets.len() - i,
    {
        let y = IRInstruction::SetTo { pos: sets[i].0, val: sets[i].1 };
        proof {
            lemma_seq_model_push(out@, y);
            assert(set_instrs.take(i + 1) =~= set_instrs.take(i as int).push(y@));
        }
        out.push(y);
        i = i + 1;
    }
    proof {
        assert(set_instrs.take(sets.len() as int) =~= set_instrs);
    }
    let mut k: usize = 0;
    while k < muts.len()
        invariant
            k <= muts.len(),
            base == seq_model(old(out)@),
            mut_instrs == muts@.map_values(|e: Pending| Instr::MutateValue { pos: e.0, val: e.1 }),
            seq_model(out@) == base + set_instrs + mut_instrs.take(k as int),
        decreases muts.len() - k,
    {
        let y = IRInstruction::MutateValue { pos: muts[k].0, val: muts[k].1 };
        proof {
            lemma_seq_model_push(out@, y);
            assert(mut_instrs.take(k + 1) =~= mut_instrs.take(k as int).push(y@));
            assert(base + set_instrs + mut_instrs.take(k + 1) =~= (base + set_instrs
                + mut_instrs.take(k as int)).push(y@));
        }
        out.push(y);
        k = k + 1;
    }
    proof {
        assert(mut_instrs.take(muts.len() as int) =~= mut_instrs);
    }
    if shift != 0 {
        let y = IRInstruction::TraverseBy { val: shift };
        proof {
            lemma_seq_model_push(out@, y);
        }
        out.push(y);
    }
    proof {
        assert(seq_model(out@) =~= base + emit_pending(sets@, muts@, shift));
    }
}

impl ReorderingOptimizations for IRBlock {
    fn reorder_instructions(&mut self)
        ensures
            final(self)@ == reorder_pass(old(self)@),
    {
        let mut content: Vec<IRInstruction> = Vec::new();
        std::mem::swap(&mut content, &mut self.content);
        let ghost s = content@;
        let ghost m = seq_model(s);
        proof {
            lemma_seq_model(s);
        }
        let mut out: Vec<IRInstruction> = Vec::new();
        let mut sets: Vec<Pending> = Vec::new();
        let mut muts: Vec<Pending> = Vec::new();
        let mut shift: isize = 0;
        for x in it: content.into_iter()
            invariant
                it.seq() == s,
                m == seq_model(s),
                m.len() == s.len(),
                forall|j: int| 0 <= j < s.len() ==> #[trigger] m[j] == s[j]@,
                seq_model(out@) == emitted(m.take(it.index() as int)),
                shift == shift_of(window(m.take(it.index() as int))),
                sets@ == sort_by_pos(sets_of(window(m.take(it.index() as int)))),
                muts@ == sort_by_pos(mutations_of(window(m.take(it.index() as int)))),
        {
            let ghost i = it.index() as int;
            let ghost pre = m.take(i);
            let ghost w = window(pre);
            proof {
                assert(m.take(i + 1) =~= pre.push(x@));
                assert(m.take(i + 1).drop_last() =~= pre);
            }
            match x {
                IRInstruction::TraverseBy { val } => {
                    proof {
                        assert(w.push(x@).drop_last() =~= w);
                    }
                    shift = shift.wrapping_add(val);
                },
                IRInstruction::MutateValue { pos, val } => {
                    proof {
                        assert(w.push(x@).drop_last() =~= w);
                    }
                    insert_pending(&mut muts, (pos.wrapping_add(shift), val));
                    proof {
                        assert(mutations_of(w.push(x@)) =~= mutations_of(w).push(
                            (pos.wrapping_add(shift), val),
                        ));
                        assert(mutations_of(w.push(x@)).drop_last() =~= mutations_of(w));
                    }
                },
                IRInstruction::SetTo { pos, val } => {
                    proof {
                        assert(w.push(x@).drop_last() =~= w);
                    }
                    insert_pending(&mut sets, (pos.wrapping_add(shift), val));
                    proof {
                        assert(sets_of(w.push(x@)).drop_last() =~= sets_of(w));
                    }
                },
                _ => {
                    emit_into(&mut out, &sets, &muts, shift);
                    proof {
                        lemma_seq_model_push(out@, x);
                        assert(seq_model(out@).push(x@) =~= emitted(pre) + flush(w) + seq![x@]);
                    }
                    out.push(x);
                    sets = Vec::new();
                    muts = Vec::new();
                    shift = 0;
                },
            }
        }
        proof {
            assert(m.take(s.len() as int) =~= m);
        }
        emit_into(&mut out, &sets, &muts, shift);
        self.content = out;
    }
}

} // verus!
