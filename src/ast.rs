use vstd::prelude::*;

pub mod transform;

verus! {

/// A sequence of AST elements.
pub type Block = Vec<Element>;

/// A program's AST: its top-level elements.
#[derive(Debug, Default, PartialEq, Eq)]
pub struct Node {
    pub content: Block,
}

/// An element of the AST.
#[derive(Debug, PartialEq, Eq)]
#[non_exhaustive]
pub enum Element {
    /// Adds to the data pointer.
    PointerAdd(u16),
    /// Subtracts from the data pointer.
    PointerSub(u16),
    /// Sets the current value to a constant.
    ValueSet(u8),
    /// Adds to the current value.
    ValueAdd(u8),
    /// Subtracts from the current value.
    ValueSub(u8),
    /// Sends the current value to the output.
    Push,
    /// Reads one byte of input into the current value.
    Pull,
    /// Repeats the block while the current value is nonzero.
    Conditional(Block),
}

/// The mathematical model of an [`Element`].
pub enum AstElem {
    PointerAdd(u16),
    PointerSub(u16),
    ValueSet(u8),
    ValueAdd(u8),
    ValueSub(u8),
    Push,
    Pull,
    Conditional(Seq<AstElem>),
}

/// The model of one element.
pub open spec fn element_model(e: Element) -> AstElem
    decreases e, 1nat,
{
    match e {
        Element::PointerAdd(n) => AstElem::PointerAdd(n),
        Element::PointerSub(n) => AstElem::PointerSub(n),
        Element::ValueSet(n) => AstElem::ValueSet(n),
        Element::ValueAdd(n) => AstElem::ValueAdd(n),
        Element::ValueSub(n) => AstElem::ValueSub(n),
        Element::Push => AstElem::Push,
        Element::Pull => AstElem::Pull,
        Element::Conditional(b) => AstElem::Conditional(elements_model(b@)),
    }
}

/// The model of a sequence of elements, element by element.
pub open spec fn elements_model(s: Seq<Element>) -> Seq<AstElem>
    decreases s, 0nat,
{
    if s.len() == 0 {
        Seq::empty()
    } else {
        elements_model(s.drop_last()).push(element_model(s.last()))
    }
}

/// The model of a pushed sequence is the pushed model.
pub proof fn lemma_elements_model_push(s: Seq<Element>, x: Element)
    ensures
        elements_model(s.push(x)) == elements_model(s).push(element_model(x)),
{
    assert(s.push(x).drop_last() =~= s);
}

impl Clone for Element {
    fn clone(&self) -> (r: Self)
        ensures
            element_model(r) == element_model(*self),
        decreases self, 1nat,
    {
        match self {
            Element::PointerAdd(n) => Element::PointerAdd(*n),
            Element::PointerSub(n) => Element::PointerSub(*n),
            Element::ValueSet(n) => Element::ValueSet(*n),
            Element::ValueAdd(n) => Element::ValueAdd(*n),
            Element::ValueSub(n) => Element::ValueSub(*n),
            Element::Push => Element::Push,
            Element::Pull => Element::Pull,
            Element::Conditional(b) => Element::Conditional(clone_block(b)),
        }
    }
}

/// A copy of `b`, element by element.
fn clone_block(b: &Block) -> (r: Block)
    ensures
        elements_model(r@) == elements_model(b@),
    decreases b, 0nat,
{
    let mut content: Block = Vec::new();
    let mut i: usize = 0;
    while i < b.len()
        invariant
            i <= b@.len(),
            elements_model(content@) == elements_model(b@.take(i as int)),
        decreases b@.len() - i,
    {
        proof {
            assert(b@.take(i + 1) =~= b@.take(i as int).push(b@[i as int]));
            lemma_elements_model_push(b@.take(i as int), b@[i as int]);
            assert(decreases_to!(b@ => b@[i as int]));
        }
        let x = b[i].clone();
        proof {
            lemma_elements_model_push(content@, x);
        }
        content.push(x);
        i = i + 1;
    }
    proof {
        assert(b@.take(b@.len() as int) =~= b@);
    }
    content
}

impl Clone for Node {
    fn clone(&self) -> (r: Self)
        ensures
            r@ == self@,
    {
        Node { content: clone_block(&self.content) }
    }
}

impl View for Node {
    type V = Seq<AstElem>;

    open spec fn view(&self) -> Seq<AstElem> {
        elements_model(self.content@)
    }
}

} // verus!
