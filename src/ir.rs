use vstd::prelude::*;

pub mod transform;

pub use self::transform::transform;

verus! {

/// A sequence of IR elements.
#[derive(Debug, PartialEq, Eq)]
pub struct IRNode {
    pub content: Vec<IRElement>,
}

/// An element of the IR.
#[derive(Debug, PartialEq, Eq)]
pub enum IRElement {
    /// `ptr += by`.
    MovPtr { by: isize },
    /// `tape[ptr + at] += by`.
    MutVal { at: isize, by: isize },
    /// `tape[ptr + to] = read_byte()`.
    Read { to: isize },
    /// `print(tape[ptr + from])`.
    Push { from: isize },
    /// `while (tape[ptr] != 0) { node }`.
    CondBlck { node: IRNode },
}

/// The mathematical model of an [`IRElement`].
pub enum IrElem {
    MovPtr { by: isize },
    MutVal { at: isize, by: isize },
    Read { to: isize },
    Push { from: isize },
    CondBlck(Seq<IrElem>),
}

/// The model of one element.
pub open spec fn ir_element_model(e: IRElement) -> IrElem
    decreases e, 1nat,
{
    match e {
        IRElement::MovPtr { by } => IrElem::MovPtr { by },
        IRElement::MutVal { at, by } => IrElem::MutVal { at, by },
        IRElement::Read { to } => IrElem::Read { to },
        IRElement::Push { from } => IrElem::Push { from },
        IRElement::CondBlck { node } => IrElem::CondBlck(ir_elements_model(node.content@)),
    }
}

/// The model of a sequence of elements, element by element.
pub open spec fn ir_elements_model(s: Seq<IRElement>) -> Seq<IrElem>
    decreases s, 0nat,
{
    if s.len() == 0 {
        Seq::empty()
    } else {
        ir_elements_model(s.drop_last()).push(ir_element_model(s.last()))
    }
}

/// The model of a pushed sequence is the pushed model.
pub proof fn lemma_ir_elements_model_push(s: Seq<IRElement>, x: IRElement)
    ensures
        ir_elements_model(s.push(x)) == ir_elements_model(s).push(ir_element_model(x)),
{
    assert(s.push(x).drop_last() =~= s);
}

impl Clone for IRElement {
    fn clone(&self) -> (r: Self)
        ensures
            ir_element_model(r) == ir_element_model(*self),
        decreases self, 1nat,
    {
        match self {
            IRElement::MovPtr { by } => IRElement::MovPtr { by: *by },
            IRElement::MutVal { at, by } => IRElement::MutVal { at: *at, by: *by },
            IRElement::Read { to } => IRElement::Read { to: *to },
            IRElement::Push { from } => IRElement::Push { from: *from },
            IRElement::CondBlck { node } => IRElement::CondBlck { node: node.clone() },
        }
    }
}

impl Clone for IRNode {
    fn clone(&self) -> (r: Self)
        ensures
            r@ == self@,
        decreases self, 0nat,
    {
        let mut content: Vec<IRElement> = Vec::new();
        let mut i: usize = 0;
        while i < self.content.len()
            invariant
                i <= self.content@.len(),
                ir_elements_model(content@) == ir_elements_model(self.content@.take(i as int)),
            decreases self.content@.len() - i,
        {
            proof {
                assert(self.content@.take(i + 1) =~= self.content@.take(i as int).push(
                    self.content@[i as int],
                ));
                lemma_ir_elements_model_push(self.content@.take(i as int), self.content@[i as int]);
                assert(decreases_to!(self.content@ => self.content@[i as int]));
            }
            let x = self.content[i].clone();
            proof {
                lemma_ir_elements_model_push(content@, x);
            }
            content.push(x);
            i = i + 1;
        }
        proof {
            assert(self.content@.take(self.content@.len() as int) =~= self.content@);
        }
        IRNode { content }
    }
}

impl core::ops::Deref for IRNode {
    type Target = Vec<IRElement>;

    fn deref(&self) -> &Vec<IRElement> {
        &self.content
    }
}

impl core::ops::DerefMut for IRNode {
    fn deref_mut(&mut self) -> &mut Vec<IRElement> {
        &mut self.content
    }
}

impl View for IRNode {
    type V = Seq<IrElem>;

    open spec fn view(&self) -> Seq<IrElem> {
        ir_elements_model(self.content@)
    }
}

} // verus!
