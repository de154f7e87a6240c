use vstd::prelude::*;

verus! {

/// What a node computes.
#[derive(Clone, Copy, Debug, PartialEq, Eq, Structural)]
pub enum NodeKind {
    /// Takes its value from the inputs handed to a fill.
    Input,
    /// Holds the given value from the moment it is created.
    Constant(u32),
    /// The wrapping sum of its two parents.
    Add,
    /// The wrapping product of its two parents.
    Mul,
    /// The result of the hint function with the given index, applied to
    /// the values of its parents in order.
    Hint(usize),
}

/// A node of the graph: its current value, whether it is hinted, the ids
/// of the nodes it depends on, and what it computes.
#[derive(Debug)]
pub struct Node {
    pub value: Option<u32>,
    pub is_hint: bool,
    pub parents: Vec<usize>,
    pub kind: NodeKind,
}

impl Node {
    /// A node that no operation fills: a constant when it is given a value,
    /// an input otherwise.
    pub fn new(value: Option<u32>, is_hint: bool, parents: Vec<usize>) -> (r: Node)
        ensures
            r.value == value,
            r.is_hint == is_hint,
            r.parents@ == parents@,
            r.kind == (match value {
                Some(c) => NodeKind::Constant(c),
                None => NodeKind::Input,
            }),
    {
        let kind = match value {
            Some(c) => NodeKind::Constant(c),
            None => NodeKind::Input,
        };
        Node { value, is_hint, parents, kind }
    }
}

/// A function from the ordered values of a hint's dependencies to the
/// hinted value. Every closure `Fn(&[u32]) -> u32` is one.
pub trait Compute {
    /// The dependency values on which the function may be called.
    spec fn accepts(&self, args: Seq<u32>) -> bool;

    /// `r` is a possible result of the function on `args`.
    spec fn gives(&self, args: Seq<u32>, r: u32) -> bool;

    fn compute(&self, args: &[u32]) -> (r: u32)
        requires
            self.accepts(args@),
        ensures
            self.gives(args@, r),
    ;
}

impl<F: Fn(&[u32]) -> u32> Compute for F {
    open spec fn accepts(&self, args: Seq<u32>) -> bool {
        forall|s: &[u32]| s@ == args ==> call_requires(*self, (s,))
    }

    open spec fn gives(&self, args: Seq<u32>, r: u32) -> bool {
        exists|s: &[u32]| s@ == args && call_ensures(*self, (s,), r)
    }

    fn compute(&self, args: &[u32]) -> (r: u32) {
        (self)(args)
    }
}

} // verus!
