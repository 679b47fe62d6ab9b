use vstd::prelude::*;

use crate::ast::{element_model, elements_model, AstElem, Element, Node};

verus! {

/// The number of cells on the tape.
pub const TAPE_SIZE: usize = 30000;

/// What the caller has to do after a step.
#[derive(Clone, Copy, Debug, PartialEq, Eq, Structural)]
pub enum Action {
    /// Nothing: the machine can step again.
    Continue,
    /// Write this byte to the output.
    Output(u8),
    /// Read one byte and hand it to [`ASTInterpreterContext::supply_input`].
    NeedInput,
    /// The program has finished.
    Halted,
    /// The data pointer is off the tape; the machine does not move.
    PointerOutOfRange,
}

/// The block that `path` leads to from `root`: each entry of the path is the
/// index of a conditional in the block before it. A path through anything
/// else leads to an empty block.
pub open spec fn block_at(root: Seq<AstElem>, path: Seq<usize>) -> Seq<AstElem>
    decreases path.len(),
{
    if path.len() == 0 {
        root
    } else {
        let b = block_at(root, path.drop_last());
        let i = path.last() as int;
        if i < b.len() && b[i] is Conditional {
            b[i]->Conditional_0
        } else {
            Seq::empty()
        }
    }
}

/// Whether the last entry of a nonempty `path` is a conditional of the block
/// that the rest of the path leads to.
pub open spec fn enters_loop(root: Seq<AstElem>, path: Seq<usize>) -> bool {
    let b = block_at(root, path.drop_last());
    &&& path.len() >= 1
    &&& path.last() < b.len()
    &&& b[path.last() as int] is Conditional
}

/// Whether `frames` is a position in `root`: every frame but the last
/// stands at a conditional whose body the next frame is in, and the last
/// stands at an element of its block or just past its end.
pub open spec fn frames_valid(root: Seq<AstElem>, frames: Seq<usize>) -> bool {
    &&& frames.len() >= 1
    &&& forall|k: int| 1 <= k < frames.len() ==> #[trigger] enters_loop(root, frames.take(k))
    &&& frames.last() <= block_at(root, frames.drop_last()).len()
}

/// One step of the machine from tape `tape`, data pointer `dp` and position
/// `frames` in `root`: the new tape, pointer and position, and the action.
///
/// Past the end of a loop body the machine returns to the loop's head, which
/// checks the cell again; past the end of the program it halts. Reading input
/// waits in place for [`ASTInterpreterContext::supply_input`].
pub open spec fn next(root: Seq<AstElem>, tape: Seq<u8>, dp: usize, frames: Seq<usize>) -> (
    Seq<u8>,
    usize,
    Seq<usize>,
    Action,
) {
    let blk = block_at(root, frames.drop_last());
    let i = frames.last();
    let adv = frames.drop_last().push((i + 1) as usize);
    if i >= blk.len() {
        if frames.len() == 1 {
            (tape, dp, frames, Action::Halted)
        } else {
            (tape, dp, frames.drop_last(), Action::Continue)
        }
    } else {
        match blk[i as int] {
            AstElem::PointerAdd(n) => (tape, dp.wrapping_add(n as usize), adv, Action::Continue),
            AstElem::PointerSub(n) => (tape, dp.wrapping_sub(n as usize), adv, Action::Continue),
            AstElem::ValueSet(v) => if dp < tape.len() {
                (tape.update(dp as int, v), dp, adv, Action::Continue)
            } else {
                (tape, dp, frames, Action::PointerOutOfRange)
            },
            AstElem::ValueAdd(v) => if dp < tape.len() {
                (tape.update(dp as int, tape[dp as int].wrapping_add(v)), dp, adv, Action::Continue)
            } else {
                (tape, dp, frames, Action::PointerOutOfRange)
            },
            AstElem::ValueSub(v) => if dp < tape.len() {
                (tape.update(dp as int, tape[dp as int].wrapping_sub(v)), dp, adv, Action::Continue)
            } else {
                (tape, dp, frames, Action::PointerOutOfRange)
            },
            AstElem::Push => if dp < tape.len() {
                (tape, dp, adv, Action::Output(tape[dp as int]))
            } else {
                (tape, dp, frames, Action::PointerOutOfRange)
            },
            AstElem::Pull => if dp < tape.len() {
                (tape, dp, frames, Action::NeedInput)
            } else {
                (tape, dp, frames, Action::PointerOutOfRange)
            },
            AstElem::Conditional(_) => if dp >= tape.len() {
                (tape, dp, frames, Action::PointerOutOfRange)
            } else if tape[dp as int] != 0 {
                (tape, dp, frames.push(0), Action::Continue)
            } else {
                (tape, dp, adv, Action::Continue)
            },
        }
    }
}

/// Whether the machine stands at a read of input with the pointer on the
/// tape.
pub open spec fn waits_for_input(root: Seq<AstElem>, tape: Seq<u8>, dp: usize, frames: Seq<usize>) -> bool {
    let blk = block_at(root, frames.drop_last());
    &&& frames.len() >= 1
    &&& frames.last() < blk.len()
    &&& blk[frames.last() as int] is Pull
    &&& dp < tape.len()
}

/// The state of an interpretation: the program, the tape, the data pointer
/// and the position in the program.
pub struct ASTInterpreterContext {
    pub main_node: Node,
    pub tape: Vec<u8>,
    pub data_pointer: usize,
    pub frames: Vec<usize>,
}

/// The model of each element of `s` is the element of the model.
proof fn lemma_elements_model(s: Seq<Element>)
    ensures
        elements_model(s).len() == s.len(),
        forall|i: int| 0 <= i < s.len() ==> #[trigger] elements_model(s)[i] == element_model(s[i]),
    decreases s.len(),
{
    if s.len() > 0 {
        lemma_elements_model(s.drop_last());
    }
}

/// The block that the frames other than the last lead to.
fn current_block<'a>(root: &'a Vec<Element>, frames: &Vec<usize>) -> (r: &'a Vec<Element>)
    requires
        frames_valid(elements_model(root@), frames@),
    ensures
        elements_model(r@) == block_at(elements_model(root@), frames@.drop_last()),
{
    let ghost m = elements_model(root@);
    let mut b: &Vec<Element> = root;
    let mut k: usize = 0;
    proof {
        assert(frames@.take(0) =~= Seq::<usize>::empty());
    }
    while k < frames.len() - 1
        invariant
            frames_valid(m, frames@),
            m == elements_model(root@),
            k < frames@.len(),
            elements_model(b@) == block_at(m, frames@.take(k as int)),
        decreases frames@.len() - k,
    {
        let ghost p = frames@.take(k + 1);
        proof {
            assert(p.drop_last() =~= frames@.take(k as int));
            assert(enters_loop(m, p));
            lemma_elements_model(b@);
        }
        match &b[frames[k]] {
            Element::Conditional(inner) => {
                b = inner;
            },
            _ => {
                proof {
                    assert(false);
                }
            },
        }
        k = k + 1;
    }
    proof {
        assert(frames@.take(k as int) =~= frames@.drop_last());
    }
    b
}

impl ASTInterpreterContext {
    /// Whether the context is a state of the machine.
    pub open spec fn wf(&self) -> bool {
        frames_valid(self.main_node@, self.frames@)
    }

    /// A context at the start of `main_node`, with a zeroed tape and the
    /// pointer on the first cell.
    pub fn new(main_node: Node) -> (r: Self)
        ensures
            r.wf(),
            r.main_node == main_node,
            r.tape@ == Seq::new(TAPE_SIZE as nat, |i: int| 0u8),
            r.data_pointer == 0,
            r.frames@ == seq![0usize],
    {
        let mut tape: Vec<u8> = Vec::new();
        let mut i: usize = 0;
        while i < TAPE_SIZE
            invariant
                i <= TAPE_SIZE,
                tape@ == Seq::new(i as nat, |j: int| 0u8),
            decreases TAPE_SIZE - i,
        {
            tape.push(0);
            i = i + 1;
            proof {
                assert(tape@ =~= Seq::new(i as nat, |j: int| 0u8));
            }
        }
        let mut frames: Vec<usize> = Vec::new();
        frames.push(0);
        proof {
            assert(frames@ =~= seq![0usize]);
            assert(frames@.drop_last() =~= Seq::<usize>::empty());
        }
        ASTInterpreterContext { main_node, tape, data_pointer: 0, frames }
    }

    /// Performs one step; see [`next`].
    pub fn step(&mut self) -> (a: Action)
        requires
            old(self).wf(),
        ensures
            final(self).wf(),
            final(self).main_node == old(self).main_node,
            (final(self).tape@, final(self).data_pointer, final(self).frames@, a) == next(
                old(self).main_node@,
                old(self).tape@,
                old(self).data_pointer,
                old(self).frames@,
            ),
    {
        let ghost root = self.main_node@;
        let ghost f = self.frames@;
        let n = self.frames.len();
        let i = self.frames[n - 1];
        let blk = current_block(&self.main_node.content, &self.frames);
        let ghost bm = elements_model(blk@);
        proof {
            lemma_elements_model(blk@);
        }
        if i >= blk.len() {
            if n == 1 {
                return Action::Halted;
            }
            self.frames.pop();
            proof {
                let g = self.frames@;
                assert(g =~= f.drop_last());
                assert(g.drop_last() =~= f.take(n - 2));
                assert(enters_loop(root, f.take(n - 1)));
                assert(f.take(n - 1) =~= g);
                assert forall|k: int| 1 <= k < g.len() implies #[trigger] enters_loop(root, g.take(k)) by {
                    assert(g.take(k) =~= f.take(k));
                }
            }
            return Action::Continue;
        }
        let dp = self.data_pointer;
        let on_tape = dp < self.tape.len();
        let action = match &blk[i] {
            Element::PointerAdd(k) => {
                self.data_pointer = dp.wrapping_add(*k as usize);
                Action::Continue
            },
            Element::PointerSub(k) => {
                self.data_pointer = dp.wrapping_sub(*k as usize);
                Action::Continue
            },
            Element::ValueSet(v) => {
                if !on_tape {
                    return Action::PointerOutOfRange;
                }
                self.tape.set(dp, *v);
                Action::Continue
            },
            Element::ValueAdd(v) => {
                if !on_tape {
                    return Action::PointerOutOfRange;
                }
                let c = self.tape[dp];
                self.tape.set(dp, c.wrapping_add(*v));
                Action::Continue
            },
            Element::ValueSub(v) => {
                if !on_tape {
                    return Action::PointerOutOfRange;
                }
                let c = self.tape[dp];
                self.tape.set(dp, c.wrapping_sub(*v));
                Action::Continue
            },
            Element::Push => {
                if !on_tape {
                    return Action::PointerOutOfRange;
                }
                Action::Output(self.tape[dp])
            },
            Element::Pull => {
                if !on_tape {
                    return Action::PointerOutOfRange;
                }
                return Action::NeedInput;
            },
            Element::Conditional(_) => {
                if !on_tape {
                    return Action::PointerOutOfRange;
                }
                if self.tape[dp] != 0 {
                    self.frames.push(0);
                    proof {
                        let g = self.frames@;
                        assert(g =~= f.push(0));
                        assert(g.drop_last() =~= f);
                        assert(f.drop_last() =~= f.take(n - 1));
                        assert(enters_loop(root, f));
                        assert forall|k: int| 1 <= k < g.len() implies #[trigger] enters_loop(
                            root,
                            g.take(k),
                        ) by {
                            if k < f.len() {
                                assert(g.take(k) =~= f.take(k));
                            } else {
                                assert(g.take(k) =~= f);
                            }
                        }
                    }
                    return Action::Continue;
                }
                Action::Continue
            },
        };
        self.frames.set(n - 1, i + 1);
        proof {
            let g = self.frames@;
            assert(g =~= f.drop_last().push((i + 1) as usize));
            assert(g.drop_last() =~= f.drop_last());
            assert forall|k: int| 1 <= k < g.len() implies #[trigger] enters_loop(root, g.take(k)) by {
                assert(g.take(k) =~= f.take(k));
            }
        }
        action
    }

    /// Hands the byte that input produced to a machine waiting for it: the
    /// byte is stored under the pointer and the machine moves on. Returns
    /// whether the machine was waiting; if not, nothing changes.
    pub fn supply_input(&mut self, byte: u8) -> (r: bool)
        requires
            old(self).wf(),
        ensures
            final(self).wf(),
            final(self).main_node == old(self).main_node,
            final(self).data_pointer == old(self).data_pointer,
            r == waits_for_input(
                old(self).main_node@,
                old(self).tape@,
                old(self).data_pointer,
                old(self).frames@,
            ),
            r ==> final(self).tape@ == old(self).tape@.update(old(self).data_pointer as int, byte)
                && final(self).frames@ == old(self).frames@.drop_last().push(
                (old(self).frames@.last() + 1) as usize,
            ),
            !r ==> final(self).tape@ == old(self).tape@ && final(self).frames@ == old(self).frames@,
    {
        let ghost root = self.main_node@;
        let ghost f = self.frames@;
        let n = self.frames.len();
        let i = self.frames[n - 1];
        let blk = current_block(&self.main_node.content, &self.frames);
        proof {
            lemma_elements_model(blk@);
        }
        if i >= blk.len() || self.data_pointer >= self.tape.len() {
            return false;
        }
        match &blk[i] {
            Element::Pull => {},
            _ => {
                return false;
            },
        }
        let dp = self.data_pointer;
        self.tape.set(dp, byte);
        self.frames.set(n - 1, i + 1);
        proof {
            let g = self.frames@;
            assert(g =~= f.drop_last().push((i + 1) as usize));
            assert(g.drop_last() =~= f.drop_last());
            assert forall|k: int| 1 <= k < g.len() implies #[trigger] enters_loop(root, g.take(k)) by {
                assert(g.take(k) =~= f.take(k));
            }
        }
        true
    }
}

} // verus!
