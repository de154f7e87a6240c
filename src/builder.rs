use vstd::prelude::*;

use crate::node::{Compute, Node, NodeKind};

verus! {

/// The wrapping sum of two values, modulo 2^32.
pub open spec fn add_wrapped(a: u32, b: u32) -> u32 {
    ((a as int + b as int) % 0x1_0000_0000) as u32
}

/// The wrapping product of two values, modulo 2^32.
pub open spec fn mul_wrapped(a: u32, b: u32) -> u32 {
    ((a as int * b as int) % 0x1_0000_0000) as u32
}

/// A node as the contracts see it.
pub struct NodeView {
    pub kind: NodeKind,
    pub parents: Seq<usize>,
    pub value: Option<u32>,
}

/// A graph as the contracts see it: its nodes by id, its constraints in
/// the order they were recorded, and its hint functions.
pub struct GraphView<F> {
    pub nodes: Seq<NodeView>,
    pub constraints: Seq<(usize, usize)>,
    pub hints: Seq<F>,
}

impl<F: Compute> GraphView<F> {
    pub open spec fn len(self) -> int {
        self.nodes.len() as int
    }

    pub open spec fn is_input(self, i: int) -> bool {
        self.nodes[i].kind is Input
    }

    pub open spec fn resolved(self, i: int) -> bool {
        self.nodes[i].value is Some
    }

    pub open spec fn val(self, i: int) -> u32 {
        self.nodes[i].value.unwrap()
    }

    /// Every dependency of node `i` holds a value.
    pub open spec fn parents_resolved(self, i: int) -> bool {
        forall|j: int|
            0 <= j < self.nodes[i].parents.len() ==> #[trigger] self.resolved(
                self.nodes[i].parents[j] as int,
            )
    }

    /// The values of the dependencies of node `i`, in order.
    pub open spec fn parent_values(self, i: int) -> Seq<u32> {
        self.nodes[i].parents.map_values(|p: usize| self.val(p as int))
    }

    /// `r` is what node `i` computes from the current values of its
    /// dependencies, all of which are resolved.
    pub open spec fn computes(self, i: int, r: u32) -> bool {
        &&& self.parents_resolved(i)
        &&& match self.nodes[i].kind {
            NodeKind::Add => r == add_wrapped(self.parent_values(i)[0], self.parent_values(i)[1]),
            NodeKind::Mul => r == mul_wrapped(self.parent_values(i)[0], self.parent_values(i)[1]),
            NodeKind::Hint(k) => self.hints[k as int].gives(self.parent_values(i), r),
            _ => false,
        }
    }

    pub open spec fn node_wf(self, i: int) -> bool {
        &&& forall|j: int|
            0 <= j < self.nodes[i].parents.len() ==> #[trigger] self.nodes[i].parents[j] < i
        &&& match self.nodes[i].kind {
            NodeKind::Input => self.nodes[i].parents.len() == 0,
            NodeKind::Constant(c) => self.nodes[i].parents.len() == 0 && self.nodes[i].value
                == Some(c),
            NodeKind::Add => self.nodes[i].parents.len() == 2,
            NodeKind::Mul => self.nodes[i].parents.len() == 2,
            NodeKind::Hint(k) => k < self.hints.len(),
        }
    }

    /// Parents precede their children, each kind has its arity, constants
    /// hold their value, hint functions accept every argument list, and
    /// constraints name existing nodes.
    pub open spec fn well_formed(self) -> bool {
        &&& forall|i: int| 0 <= i < self.len() ==> #[trigger] self.node_wf(i)
        &&& forall|k: int, a: Seq<u32>|
            0 <= k < self.hints.len() ==> #[trigger] self.hints[k].accepts(a)
        &&& forall|c: int|
            0 <= c < self.constraints.len() ==> #[trigger] self.constraints[c].0 < self.len()
                && self.constraints[c].1 < self.len()
    }

    /// Same nodes, dependencies, constraints and hint functions; values
    /// may differ.
    pub open spec fn same_shape(self, other: GraphView<F>) -> bool {
        &&& self.nodes.len() == other.nodes.len()
        &&& self.constraints == other.constraints
        &&& self.hints == other.hints
        &&& forall|i: int|
            0 <= i < self.len() ==> #[trigger] self.nodes[i].kind == other.nodes[i].kind
                && self.nodes[i].parents == other.nodes[i].parents
    }

    /// The graph with node `n` appended.
    pub open spec fn push_node(self, n: NodeView) -> GraphView<F> {
        GraphView { nodes: self.nodes.push(n), ..self }
    }

    /// Constraint `c` holds: both sides are resolved to the same value.
    pub open spec fn constraint_holds(self, c: int) -> bool {
        let (a, b) = self.constraints[c];
        self.resolved(a as int) && self.resolved(b as int) && self.val(a as int) == self.val(
            b as int,
        )
    }

    pub open spec fn all_constraints_hold(self) -> bool {
        forall|c: int| 0 <= c < self.constraints.len() ==> #[trigger] self.constraint_holds(c)
    }

    /// No node that an operation fills can be filled: each unresolved one
    /// has an unresolved dependency.
    pub open spec fn is_fixpoint(self) -> bool {
        forall|i: int|
            0 <= i < self.len() && !self.is_input(i) && !#[trigger] self.resolved(i)
                ==> !self.parents_resolved(i)
    }

    /// The value that a fill with `inputs` gives to node `i` if it is an
    /// input.
    pub open spec fn supplied(self, inputs: Seq<Option<u32>>, i: int) -> Option<u32> {
        if i < inputs.len() && inputs[i] is Some {
            inputs[i]
        } else {
            self.nodes[i].value
        }
    }

    /// From `self` to `next` no input changed, no resolved value of a
    /// computed node changed, and each newly resolved node holds what it
    /// computes in `next`.
    pub open spec fn advances_to(self, next: GraphView<F>) -> bool {
        &&& self.same_shape(next)
        &&& forall|i: int|
            0 <= i < self.len() && self.is_input(i) ==> #[trigger] next.nodes[i].value
                == self.nodes[i].value
        &&& forall|i: int|
            0 <= i < self.len() && !self.is_input(i) && #[trigger] self.resolved(i)
                ==> next.nodes[i].value == self.nodes[i].value
        &&& forall|i: int|
            0 <= i < self.len() && !self.is_input(i) && !self.resolved(i) && #[trigger] next.resolved(i)
                ==> next.computes(i, next.val(i))
    }

    /// What a fill with `inputs` leads to from `self`: inputs take their
    /// supplied values, resolved computed nodes keep theirs, each newly
    /// resolved node holds what it computes, and nothing more can be
    /// resolved.
    pub open spec fn filled_to(self, inputs: Seq<Option<u32>>, next: GraphView<F>) -> bool {
        &&& self.same_shape(next)
        &&& forall|i: int|
            0 <= i < self.len() && self.is_input(i) ==> #[trigger] next.nodes[i].value
                == self.supplied(inputs, i)
        &&& forall|i: int|
            0 <= i < self.len() && !self.is_input(i) && #[trigger] self.resolved(i)
                ==> next.nodes[i].value == self.nodes[i].value
        &&& forall|i: int|
            0 <= i < self.len() && !self.is_input(i) && !self.resolved(i) && #[trigger] next.resolved(i)
                ==> next.computes(i, next.val(i))
        &&& next.is_fixpoint()
    }
}

impl<F: Compute> GraphView<F> {
    /// `e` reports the first constraint that does not hold: every earlier
    /// one holds, and `e` names its unresolved side (the first side when
    /// both are) or says that both sides differ.
    pub open spec fn reports_first_failure(self, e: ConstraintError) -> bool {
        match e {
            ConstraintError::UnresolvedNode { constraint, node } => {
                let (a, b) = self.constraints[constraint as int];
                &&& constraint < self.constraints.len()
                &&& forall|c: int| 0 <= c < constraint ==> #[trigger] self.constraint_holds(c)
                &&& if !self.resolved(a as int) {
                    node == a
                } else {
                    !self.resolved(b as int) && node == b
                }
            },
            ConstraintError::Mismatch { constraint } => {
                let (a, b) = self.constraints[constraint as int];
                &&& constraint < self.constraints.len()
                &&& forall|c: int| 0 <= c < constraint ==> #[trigger] self.constraint_holds(c)
                &&& self.resolved(a as int) && self.resolved(b as int)
                &&& self.val(a as int) != self.val(b as int)
            },
        }
    }
}

impl<F: Compute> GraphView<F> {
    /// Every resolved node that an operation fills holds what it computes.
    pub open spec fn operations_hold(self) -> bool {
        forall|i: int|
            0 <= i < self.len() && !self.is_input(i) && !(self.nodes[i].kind is Constant)
                && #[trigger] self.resolved(i) ==> self.computes(i, self.val(i))
    }

    /// Each input that is resolved and also supplied by `inputs` is
    /// supplied its current value.
    pub open spec fn inputs_agree(self, inputs: Seq<Option<u32>>) -> bool {
        forall|i: int|
            0 <= i < self.len() && i < inputs.len() && self.is_input(i) && #[trigger] self.resolved(i)
                && inputs[i] is Some ==> inputs[i] == self.nodes[i].value
    }

    /// Every hint function gives at most one result on each argument list.
    pub open spec fn hints_deterministic(self) -> bool {
        forall|k: int, a: Seq<u32>, r1: u32, r2: u32|
            0 <= k < self.hints.len() && #[trigger] self.hints[k].gives(a, r1)
                && #[trigger] self.hints[k].gives(a, r2) ==> r1 == r2
    }
}

impl<F: Compute> GraphView<F> {
    /// Every resolved value of `self` is kept in `next`.
    pub open spec fn keeps_values_in(self, next: GraphView<F>) -> bool {
        forall|i: int|
            0 <= i < self.len() && #[trigger] self.resolved(i) ==> next.nodes[i].value
                == self.nodes[i].value
    }

    /// What a node computes stays true while the values it reads are kept.
    pub proof fn lemma_computes_kept(self, next: GraphView<F>, i: int, r: u32)
        requires
            0 <= i < self.len(),
            self.well_formed(),
            self.same_shape(next),
            self.keeps_values_in(next),
            self.computes(i, r),
        ensures
            next.computes(i, r),
    {
        assert(self.nodes[i].kind == next.nodes[i].kind);
        assert(self.node_wf(i));
        assert forall|j: int| 0 <= j < next.nodes[i].parents.len() implies #[trigger] next.resolved(
            next.nodes[i].parents[j] as int,
        ) by {
            assert(self.nodes[i].parents[j] < i);
            assert(self.resolved(self.nodes[i].parents[j] as int));
        }
        assert forall|j: int| 0 <= j < next.nodes[i].parents.len() implies #[trigger] next.parent_values(i)[j]
            == self.parent_values(i)[j] by {
            assert(self.nodes[i].parents[j] < i);
            assert(self.resolved(self.nodes[i].parents[j] as int));
        }
        assert(next.parent_values(i) =~= self.parent_values(i));
    }

    /// `next` keeps the nodes and hint functions of `self` and appends
    /// nodes that are unresolved or constants.
    pub open spec fn extended_by(self, next: GraphView<F>) -> bool {
        &&& self.len() <= next.len()
        &&& self.hints.len() <= next.hints.len()
        &&& forall|i: int| 0 <= i < self.len() ==> #[trigger] next.nodes[i] == self.nodes[i]
        &&& forall|k: int| 0 <= k < self.hints.len() ==> #[trigger] next.hints[k] == self.hints[k]
        &&& forall|i: int|
            self.len() <= i < next.len() ==> !#[trigger] next.resolved(i)
                || next.nodes[i].kind is Constant
    }

    pub proof fn lemma_extension_keeps_operations(self, next: GraphView<F>)
        requires
            self.well_formed(),
            self.operations_hold(),
            self.extended_by(next),
        ensures
            next.operations_hold(),
    {
        assert forall|i: int|
            0 <= i < next.len() && !next.is_input(i) && !(next.nodes[i].kind is Constant)
                && #[trigger] next.resolved(i) implies next.computes(i, next.val(i)) by {
            assert(i < self.len());
            assert(next.nodes[i] == self.nodes[i]);
            assert(self.resolved(i));
            assert(self.computes(i, self.val(i)));
            assert(self.node_wf(i));
            assert forall|j: int| 0 <= j < next.nodes[i].parents.len() implies #[trigger] next.resolved(
                next.nodes[i].parents[j] as int,
            ) by {
                assert(self.nodes[i].parents[j] < i);
                assert(self.resolved(self.nodes[i].parents[j] as int));
                assert(next.nodes[self.nodes[i].parents[j] as int] == self.nodes[self.nodes[i].parents[j] as int]);
            }
            assert forall|j: int| 0 <= j < next.nodes[i].parents.len() implies #[trigger] next.parent_values(i)[j]
                == self.parent_values(i)[j] by {
                assert(self.nodes[i].parents[j] < i);
                assert(next.nodes[self.nodes[i].parents[j] as int] == self.nodes[self.nodes[i].parents[j] as int]);
            }
            assert(next.parent_values(i) =~= self.parent_values(i));
            match self.nodes[i].kind {
                NodeKind::Hint(k) => {
                    assert(next.hints[k as int] == self.hints[k as int]);
                },
                _ => {},
            }
        }
    }

    pub proof fn lemma_advances_keeps(self, next: GraphView<F>)
        requires
            self.advances_to(next),
        ensures
            self.keeps_values_in(next),
    {
        assert forall|i: int| 0 <= i < self.len() && #[trigger] self.resolved(i) implies next.nodes[i].value
            == self.nodes[i].value by {
            if self.is_input(i) {
            }
        }
    }

    pub proof fn lemma_advances_refl(self)
        ensures
            self.advances_to(self),
    {
    }

    pub proof fn lemma_advances_trans(self, b: GraphView<F>, c: GraphView<F>)
        requires
            b.well_formed(),
            self.advances_to(b),
            b.advances_to(c),
        ensures
            self.advances_to(c),
    {
        b.lemma_advances_keeps(c);
        assert forall|i: int|
            0 <= i < self.len() && !self.is_input(i) && !self.resolved(i) && #[trigger] c.resolved(i)
                implies c.computes(i, c.val(i)) by {
            assert(self.nodes[i].kind == b.nodes[i].kind);
            if b.resolved(i) {
                b.lemma_computes_kept(c, i, b.val(i));
            }
        }
        assert forall|i: int| 0 <= i < self.len() implies #[trigger] self.nodes[i].kind == c.nodes[i].kind
            && self.nodes[i].parents == c.nodes[i].parents by {
            assert(self.nodes[i].kind == b.nodes[i].kind);
            assert(b.nodes[i].kind == c.nodes[i].kind);
        }
        assert forall|i: int| 0 <= i < self.len() && self.is_input(i) implies #[trigger] c.nodes[i].value
            == self.nodes[i].value by {
            assert(self.nodes[i].kind == b.nodes[i].kind);
        }
        assert forall|i: int| 0 <= i < self.len() && !self.is_input(i) && #[trigger] self.resolved(i)
            implies c.nodes[i].value == self.nodes[i].value by {
            assert(self.nodes[i].kind == b.nodes[i].kind);
            assert(b.nodes[i].value == self.nodes[i].value);
            assert(b.resolved(i));
        }
    }
}

/// Why an operation could not be added to a graph.
#[derive(Debug, PartialEq, Eq, Structural)]
pub enum GraphError {
    /// The id names no node of the graph.
    InvalidReference(usize),
}

/// The first constraint that does not hold, and why.
#[derive(Debug, PartialEq, Eq, Structural)]
pub enum ConstraintError {
    /// Node `node`, a side of constraint `constraint`, has no value.
    UnresolvedNode { constraint: usize, node: usize },
    /// Both sides of constraint `constraint` are resolved, to different values.
    Mismatch { constraint: usize },
}

/// Builds a computation graph and evaluates it.
///
/// All hint functions of one graph have the type `F`. A graph whose hints
/// are different closures takes function pointers:
/// `Builder<fn(&[u32]) -> u32>`.
pub struct Builder<F> {
    nodes: Vec<Node>,
    constraints: Vec<(usize, usize)>,
    hints: Vec<F>,
}

impl<F> View for Builder<F> {
    type V = GraphView<F>;

    closed spec fn view(&self) -> GraphView<F> {
        GraphView {
            nodes: self.nodes@.map_values(
                |n: Node| NodeView { kind: n.kind, parents: n.parents@, value: n.value },
            ),
            constraints: self.constraints@,
            hints: self.hints@,
        }
    }
}

impl<F: Fn(&[u32]) -> u32> Builder<F> {
    pub open spec fn wf(&self) -> bool {
        self@.well_formed()
    }

    /// An empty graph.
    pub fn new() -> (r: Builder<F>)
        ensures
            r.wf(),
            r@.operations_hold(),
            r@.nodes.len() == 0,
            r@.constraints.len() == 0,
            r@.hints.len() == 0,
    {
        let r = Builder { nodes: Vec::new(), constraints: Vec::new(), hints: Vec::new() };
        proof {
            assert(r@.nodes =~= Seq::<NodeView>::empty());
        }
        r
    }

    fn create_node(&mut self, kind: NodeKind, parents: Vec<usize>) -> (id: usize)
        requires
            old(self).wf(),
            old(self)@.push_node(
                NodeView { kind: kind, parents: parents@, value: Self::initial_value(kind) },
            ).node_wf(old(self)@.len()),
        ensures
            id == old(self)@.len(),
            final(self)@ == old(self)@.push_node(
                NodeView { kind: kind, parents: parents@, value: Self::initial_value(kind) },
            ),
            final(self).wf(),
            old(self)@.operations_hold() ==> final(self)@.operations_hold(),
    {
        let value = match kind {
            NodeKind::Constant(c) => Some(c),
            _ => None,
        };
        let is_hint = match kind {
            NodeKind::Hint(_) => true,
            _ => false,
        };
        let id = self.nodes.len();
        self.nodes.push(Node { value, is_hint, parents, kind });
        proof {
            let n = NodeView { kind: kind, parents: parents@, value: Self::initial_value(kind) };
            assert(self@.nodes =~= old(self)@.nodes.push(n));
            assert(self@.hints == old(self)@.hints);
            assert(self@.constraints == old(self)@.constraints);
            assert(self@ == old(self)@.push_node(n));
            assert forall|i: int| 0 <= i < self@.len() implies #[trigger] self@.node_wf(i) by {
                if i < old(self)@.len() {
                    assert(old(self)@.node_wf(i));
                    assert(old(self)@.nodes[i] == self@.nodes[i]);
                }
            }
            assert(self@.well_formed());
            if old(self)@.operations_hold() {
                old(self)@.lemma_extension_keeps_operations(self@);
            }
        }
        id
    }

    /// Adds an input node, with no value until a fill supplies one.
    pub fn init(&mut self) -> (id: usize)
        requires
            old(self).wf(),
        ensures
            id == old(self)@.len(),
            final(self)@ == old(self)@.push_node(
                NodeView { kind: NodeKind::Input, parents: Seq::empty(), value: None },
            ),
            final(self).wf(),
            old(self)@.operations_hold() ==> final(self)@.operations_hold(),
    {
        let v: Vec<usize> = Vec::new();
        proof {
            assert(v@ =~= Seq::<usize>::empty());
        }
        self.create_node(NodeKind::Input, v)
    }

    /// Adds a node that holds `value` from now on.
    pub fn constant(&mut self, value: u32) -> (id: usize)
        requires
            old(self).wf(),
        ensures
            id == old(self)@.len(),
            final(self)@ == old(self)@.push_node(
                NodeView {
                    kind: NodeKind::Constant(value),
                    parents: Seq::empty(),
                    value: Some(value),
                },
            ),
            final(self).wf(),
            old(self)@.operations_hold() ==> final(self)@.operations_hold(),
    {
        let v: Vec<usize> = Vec::new();
        proof {
            assert(v@ =~= Seq::<usize>::empty());
        }
        self.create_node(NodeKind::Constant(value), v)
    }

    /// Adds a node of kind `kind` (`Add` or `Mul`) on the parents `a`, `b`.
    fn add_operation(&mut self, a: &usize, b: &usize, kind: NodeKind) -> (id: usize)
        requires
            old(self).wf(),
            *a < old(self)@.len(),
            *b < old(self)@.len(),
            kind is Add || kind is Mul,
        ensures
            id == old(self)@.len(),
            final(self)@ == old(self)@.push_node(
                NodeView { kind: kind, parents: seq![*a, *b], value: None },
            ),
            final(self).wf(),
            old(self)@.operations_hold() ==> final(self)@.operations_hold(),
    {
        let parents: Vec<usize> = vec![*a, *b];
        proof {
            assert(parents@ =~= seq![*a, *b]);
        }
        self.create_node(kind, parents)
    }

    /// Adds a node holding the wrapping sum of nodes `a` and `b`.
    pub fn add(&mut self, a: &usize, b: &usize) -> (id: usize)
        requires
            old(self).wf(),
            *a < old(self)@.len(),
            *b < old(self)@.len(),
        ensures
            id == old(self)@.len(),
            final(self)@ == old(self)@.push_node(
                NodeView { kind: NodeKind::Add, parents: seq![*a, *b], value: None },
            ),
            final(self).wf(),
            old(self)@.operations_hold() ==> final(self)@.operations_hold(),
    {
        self.add_operation(a, b, NodeKind::Add)
    }

    /// Adds a node holding the wrapping product of nodes `a` and `b`.
    pub fn mul(&mut self, a: &usize, b: &usize) -> (id: usize)
        requires
            old(self).wf(),
            *a < old(self)@.len(),
            *b < old(self)@.len(),
        ensures
            id == old(self)@.len(),
            final(self)@ == old(self)@.push_node(
                NodeView { kind: NodeKind::Mul, parents: seq![*a, *b], value: None },
            ),
            final(self).wf(),
            old(self)@.operations_hold() ==> final(self)@.operations_hold(),
    {
        self.add_operation(a, b, NodeKind::Mul)
    }

    /// Like `add`, but an id that names no node is reported as an error
    /// (`a` first) and leaves the graph unchanged.
    pub fn try_add(&mut self, a: &usize, b: &usize) -> (r: Result<usize, GraphError>)
        requires
            old(self).wf(),
        ensures
            final(self).wf(),
            old(self)@.operations_hold() ==> final(self)@.operations_hold(),
            *a >= old(self)@.len() ==> r == Err::<usize, GraphError>(GraphError::InvalidReference(*a))
                && final(self)@ == old(self)@,
            *a < old(self)@.len() && *b >= old(self)@.len() ==> r == Err::<usize, GraphError>(
                GraphError::InvalidReference(*b),
            ) && final(self)@ == old(self)@,
            *a < old(self)@.len() && *b < old(self)@.len() ==> r == Ok::<usize, GraphError>(
                old(self)@.len() as usize,
            ) && final(self)@ == old(self)@.push_node(
                NodeView { kind: NodeKind::Add, parents: seq![*a, *b], value: None },
            ),
    {
        if *a >= self.nodes.len() {
            return Err(GraphError::InvalidReference(*a));
        }
        if *b >= self.nodes.len() {
            return Err(GraphError::InvalidReference(*b));
        }
        Ok(self.add_operation(a, b, NodeKind::Add))
    }

    /// Like `mul`, but an id that names no node is reported as an error
    /// (`a` first) and leaves the graph unchanged.
    pub fn try_mul(&mut self, a: &usize, b: &usize) -> (r: Result<usize, GraphError>)
        requires
            old(self).wf(),
        ensures
            final(self).wf(),
            old(self)@.operations_hold() ==> final(self)@.operations_hold(),
            *a >= old(self)@.len() ==> r == Err::<usize, GraphError>(GraphError::InvalidReference(*a))
                && final(self)@ == old(self)@,
            *a < old(self)@.len() && *b >= old(self)@.len() ==> r == Err::<usize, GraphError>(
                GraphError::InvalidReference(*b),
            ) && final(self)@ == old(self)@,
            *a < old(self)@.len() && *b < old(self)@.len() ==> r == Ok::<usize, GraphError>(
                old(self)@.len() as usize,
            ) && final(self)@ == old(self)@.push_node(
                NodeView { kind: NodeKind::Mul, parents: seq![*a, *b], value: None },
            ),
    {
        if *a >= self.nodes.len() {
            return Err(GraphError::InvalidReference(*a));
        }
        if *b >= self.nodes.len() {
            return Err(GraphError::InvalidReference(*b));
        }
        Ok(self.add_operation(a, b, NodeKind::Mul))
    }

    /// Records that nodes `a` and `b` must hold equal values.
    pub fn assert_equal(&mut self, a: usize, b: usize)
        requires
            old(self).wf(),
            a < old(self)@.len(),
            b < old(self)@.len(),
        ensures
            final(self)@ == (GraphView { constraints: old(self)@.constraints.push((a, b)), ..old(self)@ }),
            final(self).wf(),
            old(self)@.operations_hold() ==> final(self)@.operations_hold(),
    {
        self.constraints.push((a, b));
        proof {
            assert(self@.nodes =~= old(self)@.nodes);
            assert forall|c: int| 0 <= c < self@.constraints.len() implies #[trigger] self@.constraints[c].0
                < self@.len() && self@.constraints[c].1 < self@.len() by {
                if c < old(self)@.constraints.len() {
                    assert(old(self)@.constraints[c] == self@.constraints[c]);
                }
            }
            assert forall|i: int| 0 <= i < self@.len() implies #[trigger] self@.node_wf(i) by {
                assert(old(self)@.node_wf(i));
            }
            if old(self)@.operations_hold() {
                old(self)@.lemma_extension_keeps_operations(self@);
            }
        }
    }

    /// Adds a node whose value, once every node of `depends_on` is
    /// resolved, is `value_func` applied to their values in order.
    pub fn hint(&mut self, value_func: F, depends_on: Vec<usize>) -> (id: usize)
        requires
            old(self).wf(),
            forall|j: int| 0 <= j < depends_on@.len() ==> #[trigger] depends_on@[j] < old(self)@.len(),
            forall|s: &[u32]| call_requires(value_func, (s,)),
        ensures
            id == old(self)@.len(),
            final(self)@.nodes == old(self)@.nodes.push(
                NodeView {
                    kind: NodeKind::Hint(old(self)@.hints.len() as usize),
                    parents: depends_on@,
                    value: None,
                },
            ),
            final(self)@.constraints == old(self)@.constraints,
            final(self)@.hints == old(self)@.hints.push(value_func),
            final(self).wf(),
            old(self)@.operations_hold() ==> final(self)@.operations_hold(),
    {
        let k = self.hints.len();
        self.hints.push(value_func);
        proof {
            assert(self@.nodes =~= old(self)@.nodes);
            assert(self@.constraints == old(self)@.constraints);
            assert forall|j: int, a: Seq<u32>| 0 <= j < self@.hints.len() implies #[trigger] self@.hints[j].accepts(a) by {
                if j < old(self)@.hints.len() {
                    assert(old(self)@.hints[j] == self@.hints[j]);
                } else {
                    assert(forall|s: &[u32]| s@ == a ==> call_requires(value_func, (s,)));
                }
            }
            if old(self)@.operations_hold() {
                old(self)@.lemma_extension_keeps_operations(self@);
            }
            assert forall|i: int| 0 <= i < self@.len() implies #[trigger] self@.node_wf(i) by {
                assert(old(self)@.node_wf(i));
            }
        }
        self.create_node(NodeKind::Hint(k), depends_on)
    }

    /// Gives node `i` its value if an operation fills it and all its
    /// dependencies are resolved; tells whether it did.
    fn fill_node(&mut self, i: usize) -> (filled: bool)
        requires
            old(self).wf(),
            i < old(self)@.len(),
        ensures
            final(self).wf(),
            old(self)@.same_shape(final(self)@),
            forall|j: int|
                0 <= j < old(self)@.len() && j != i ==> #[trigger] final(self)@.nodes[j].value
                    == old(self)@.nodes[j].value,
            filled == (!old(self)@.resolved(i as int) && final(self)@.resolved(i as int)),
            !filled ==> final(self)@ == old(self)@,
            filled ==> !old(self)@.is_input(i as int) && old(self)@.parents_resolved(i as int)
                && final(self)@.computes(i as int, final(self)@.val(i as int)),
            !old(self)@.is_input(i as int) && !final(self)@.resolved(i as int)
                ==> !final(self)@.parents_resolved(i as int),
    {
        proof {
            assert(old(self)@.node_wf(i as int));
        }
        if self.nodes[i].value.is_some() {
            return false;
        }
        let kind = self.nodes[i].kind;
        match kind {
            NodeKind::Input => {
                return false;
            },
            NodeKind::Constant(_) => {
                return false;
            },
            _ => {},
        }
        let n = self.nodes[i].parents.len();
        let mut vals: Vec<u32> = Vec::new();
        let mut j: usize = 0;
        while j < n
            invariant
                self@ == old(self)@,
                self@.well_formed(),
                i < self@.len(),
                n == self@.nodes[i as int].parents.len(),
                j <= n,
                vals@.len() == j,
                forall|t: int|
                    0 <= t < j ==> #[trigger] self@.resolved(self@.nodes[i as int].parents[t] as int)
                        && vals@[t] == self@.val(self@.nodes[i as int].parents[t] as int),
            decreases n - j,
        {
            let p = self.nodes[i].parents[j];
            proof {
                assert(self@.nodes[i as int].parents[j as int] == p);
                assert(self@.node_wf(i as int));
            }
            match self.nodes[p].value {
                Some(v) => {
                    vals.push(v);
                },
                None => {
                    proof {
                        assert(!self@.resolved(self@.nodes[i as int].parents[j as int] as int));
                    }
                    return false;
                },
            }
            j += 1;
        }
        proof {
            assert forall|t: int| 0 <= t < vals@.len() implies vals@[t] == #[trigger] self@.parent_values(
                i as int,
            )[t] by {
                assert(self@.resolved(self@.nodes[i as int].parents[t] as int));
            }
            assert(vals@ =~= self@.parent_values(i as int));
        }
        let r: u32 = match kind {
            NodeKind::Add => {
                let r = vals[0].wrapping_add(vals[1]);
                proof {
                    assert(r == add_wrapped(vals@[0], vals@[1]));
                }
                r
            },
            NodeKind::Mul => {
                let r = vals[0].wrapping_mul(vals[1]);
                proof {
                    assert(r == mul_wrapped(vals@[0], vals@[1]));
                }
                r
            },
            NodeKind::Hint(k) => self.hints[k].compute(vals.as_slice()),
            _ => 0,
        };
        self.nodes[i].value = Some(r);
        proof {
            assert(self@.nodes[i as int] == NodeView { value: Some(r), ..old(self)@.nodes[i as int] });
            assert(self@.nodes =~= old(self)@.nodes.update(i as int, NodeView { value: Some(r), ..old(self)@.nodes[i as int] }));
            assert(self@.parent_values(i as int) =~= old(self)@.parent_values(i as int)) by {
                assert forall|t: int| 0 <= t < self@.nodes[i as int].parents.len() implies
                    self@.nodes[self@.nodes[i as int].parents[t] as int] == old(self)@.nodes[old(self)@.nodes[i as int].parents[t] as int] by {
                    assert(old(self)@.node_wf(i as int));
                    assert(old(self)@.nodes[i as int].parents[t] < i);
                }
            }
            assert forall|t: int| 0 <= t < self@.nodes[i as int].parents.len() implies
                #[trigger] self@.resolved(self@.nodes[i as int].parents[t] as int) by {
                assert(old(self)@.node_wf(i as int));
                assert(old(self)@.nodes[i as int].parents[t] < i);
                assert(old(self)@.resolved(old(self)@.nodes[i as int].parents[t] as int));
            }
            assert forall|q: int| 0 <= q < self@.len() implies #[trigger] self@.node_wf(q) by {
                assert(old(self)@.node_wf(q));
            }
            assert(self@.hints == old(self)@.hints);
            assert(self@.constraints == old(self)@.constraints);
        }
        true
    }

    /// One pass over all nodes in id order; tells whether it resolved any.
    fn fill_pass(&mut self) -> (filled_any: bool)
        requires
            old(self).wf(),
        ensures
            final(self).wf(),
            old(self)@.advances_to(final(self)@),
            final(self)@.is_fixpoint(),
            old(self)@.is_fixpoint() ==> !filled_any,
    {
        let ghost s0 = self@;
        let n = self.nodes.len();
        let mut filled_any = false;
        let mut i: usize = 0;
        proof {
            s0.lemma_advances_refl();
        }
        while i < n
            invariant
                self.wf(),
                n == self@.len(),
                i <= n,
                s0.advances_to(self@),
                forall|j: int|
                    0 <= j < i && !self@.is_input(j) && !#[trigger] self@.resolved(j)
                        ==> !self@.parents_resolved(j),
                s0.is_fixpoint() ==> self@ == s0 && !filled_any,
            decreases n - i,
        {
            let ghost before = self@;
            let filled = self.fill_node(i);
            proof {
                let after = self@;
                assert(before.advances_to(after)) by {
                    assert forall|j: int|
                        0 <= j < before.len() && !before.is_input(j) && !before.resolved(j)
                            && #[trigger] after.resolved(j) implies after.computes(j, after.val(j)) by {
                        if j != i {
                            assert(after.nodes[j].value == before.nodes[j].value);
                        }
                    }
                    assert forall|j: int| 0 <= j < before.len() implies #[trigger] before.nodes[j].kind
                        == after.nodes[j].kind && before.nodes[j].parents == after.nodes[j].parents by {
                        assert(before.same_shape(after));
                    }
                }
                s0.lemma_advances_trans(before, after);
                assert forall|j: int|
                    0 <= j < i + 1 && !after.is_input(j) && !#[trigger] after.resolved(j)
                        implies !after.parents_resolved(j) by {
                    if j < i {
                        assert(before.nodes[j].value == after.nodes[j].value);
                        assert(before.nodes[j].kind == after.nodes[j].kind);
                        assert(!before.resolved(j));
                        assert(!before.parents_resolved(j));
                        let t = choose|t: int|
                            0 <= t < before.nodes[j].parents.len() && !#[trigger] before.resolved(
                                before.nodes[j].parents[t] as int,
                            );
                        assert(before.node_wf(j));
                        assert(before.nodes[j].parents[t] < j);
                        assert(after.nodes[j].parents == before.nodes[j].parents);
                        assert(!after.resolved(after.nodes[j].parents[t] as int));
                    } else {
                        assert(before.nodes[j].kind == after.nodes[j].kind);
                    }
                }
                if s0.is_fixpoint() {
                    if filled {
                        assert(!before.resolved(i as int));
                        assert(!before.is_input(i as int));
                        assert(before.parents_resolved(i as int));
                    }
                }
            }
            if filled {
                filled_any = true;
            }
            i += 1;
        }
        filled_any
    }

    /// Sets each input node from the entry of `inputs` at its id, then
    /// resolves nodes until no more can be resolved.
    pub fn fill_nodes(&mut self, inputs: Vec<Option<u32>>)
        requires
            old(self).wf(),
        ensures
            final(self).wf(),
            old(self)@.filled_to(inputs@, final(self)@),
    {
        let ghost s0 = self@;
        let mut i: usize = 0;
        while i < inputs.len() && i < self.nodes.len()
            invariant
                self.wf(),
                s0.same_shape(self@),
                forall|j: int|
                    0 <= j < s0.len() && s0.is_input(j) ==> #[trigger] self@.nodes[j].value == if j
                        < i {
                        s0.supplied(inputs@, j)
                    } else {
                        s0.nodes[j].value
                    },
                forall|j: int|
                    0 <= j < s0.len() && !s0.is_input(j) ==> #[trigger] self@.nodes[j].value
                        == s0.nodes[j].value,
            decreases inputs.len() - i,
        {
            let is_input = match self.nodes[i].kind {
                NodeKind::Input => true,
                _ => false,
            };
            if is_input {
                match inputs[i] {
                    Some(v) => {
                        let ghost before = self@;
                        self.nodes[i].value = Some(v);
                        proof {
                            assert(self@.nodes =~= before.nodes.update(
                                i as int,
                                NodeView { value: Some(v), ..before.nodes[i as int] },
                            ));
                            assert forall|q: int| 0 <= q < self@.len() implies #[trigger] self@.node_wf(
                                q,
                            ) by {
                                assert(before.node_wf(q));
                            }
                            assert(self@.hints == before.hints);
                            assert(self@.constraints == before.constraints);
                            assert forall|q: int| 0 <= q < s0.len() implies #[trigger] s0.nodes[q].kind
                                == self@.nodes[q].kind && s0.nodes[q].parents == self@.nodes[q].parents by {
                                assert(s0.same_shape(before));
                            }
                        }
                    },
                    None => {},
                }
            }
            i += 1;
        }
        let ghost s1 = self@;
        proof {
            s1.lemma_advances_refl();
            assert forall|j: int| 0 <= j < s0.len() && s0.is_input(j) implies #[trigger] s1.nodes[j].value
                == s0.supplied(inputs@, j) by {
                if j >= i {
                    assert(j >= inputs@.len());
                }
            }
        }
        loop
            invariant
                self.wf(),
                s1.advances_to(self@),
            ensures
                self@.is_fixpoint(),
                s1.advances_to(self@),
            decreases (if self@.is_fixpoint() { 0int } else { 1int }),
        {
            let ghost before = self@;
            let filled = self.fill_pass();
            proof {
                s1.lemma_advances_trans(before, self@);
            }
            if !filled {
                break;
            }
        }
        proof {
            let fin = self@;
            assert forall|j: int| 0 <= j < s0.len() implies #[trigger] s0.nodes[j].kind == fin.nodes[j].kind
                && s0.nodes[j].parents == fin.nodes[j].parents by {
                assert(s0.same_shape(s1));
                assert(s1.same_shape(fin));
            }
            assert forall|j: int|
                0 <= j < s0.len() && !s0.is_input(j) && !s0.resolved(j) && #[trigger] fin.resolved(j)
                    implies fin.computes(j, fin.val(j)) by {
                assert(s1.nodes[j].value == s0.nodes[j].value);
            }
            assert forall|j: int| 0 <= j < s0.len() && !s0.is_input(j) && #[trigger] s0.resolved(j)
                implies fin.nodes[j].value == s0.nodes[j].value by {
                assert(s1.nodes[j].value == s0.nodes[j].value);
                assert(s1.resolved(j));
                assert(s0.nodes[j].kind == s1.nodes[j].kind);
            }
        }
    }

    /// Checks the constraints in the order they were recorded and reports
    /// the first one that does not hold.
    pub fn verify_constraints(&self) -> (r: Result<(), ConstraintError>)
        requires
            self.wf(),
        ensures
            r is Ok <==> self@.all_constraints_hold(),
            match r {
                Ok(_) => true,
                Err(e) => self@.reports_first_failure(e),
            },
    {
        let n = self.constraints.len();
        let mut c: usize = 0;
        while c < n
            invariant
                self.wf(),
                n == self@.constraints.len(),
                c <= n,
                forall|d: int| 0 <= d < c ==> #[trigger] self@.constraint_holds(d),
            decreases n - c,
        {
            let (a, b) = self.constraints[c];
            proof {
                assert(self@.constraints[c as int] == (a, b));
                assert(a < self@.len() && b < self@.len());
            }
            match self.nodes[a].value {
                None => {
                    assert(!self@.constraint_holds(c as int));
                    return Err(ConstraintError::UnresolvedNode { constraint: c, node: a });
                },
                Some(va) => match self.nodes[b].value {
                    None => {
                        assert(!self@.constraint_holds(c as int));
                        return Err(ConstraintError::UnresolvedNode { constraint: c, node: b });
                    },
                    Some(vb) => {
                        if va != vb {
                            assert(!self@.constraint_holds(c as int));
                            return Err(ConstraintError::Mismatch { constraint: c });
                        }
                    },
                },
            }
            c += 1;
        }
        Ok(())
    }

    /// Whether every constraint holds: both sides resolved, to equal values.
    pub fn check_constraints(&self) -> (r: bool)
        requires
            self.wf(),
        ensures
            r == self@.all_constraints_hold(),
    {
        match self.verify_constraints() {
            Ok(_) => true,
            Err(_) => false,
        }
    }

    /// The current value of node `id`, if it is resolved.
    pub fn get_value(&self, id: usize) -> (r: Option<u32>)
        requires
            self.wf(),
            id < self@.len(),
        ensures
            r == self@.nodes[id as int].value,
    {
        self.nodes[id].value
    }

    /// The value a node of kind `kind` holds when it is created.
    pub open spec fn initial_value(kind: NodeKind) -> Option<u32> {
        match kind {
            NodeKind::Constant(c) => Some(c),
            _ => None,
        }
    }
}

} // verus!
