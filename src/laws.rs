use vstd::prelude::*;

use crate::builder::{add_wrapped, mul_wrapped, GraphView};
use crate::node::{Compute, NodeKind};

verus! {

/// Filling twice with the same inputs changes nothing the first fill
/// resolved, and resolves nothing new: the second fill leaves every value
/// as the first left it.
pub proof fn lemma_fill_idempotent<F: Compute>(
    g0: GraphView<F>,
    inputs: Seq<Option<u32>>,
    g1: GraphView<F>,
    g2: GraphView<F>,
)
    requires
        g0.well_formed(),
        g0.filled_to(inputs, g1),
        g1.filled_to(inputs, g2),
    ensures
        forall|i: int| 0 <= i < g1.len() ==> #[trigger] g2.nodes[i].value == g1.nodes[i].value,
{
    lemma_refill_prefix(g0, inputs, g1, g2, g1.len());
}

proof fn lemma_refill_prefix<F: Compute>(
    g0: GraphView<F>,
    inputs: Seq<Option<u32>>,
    g1: GraphView<F>,
    g2: GraphView<F>,
    n: int,
)
    requires
        g0.well_formed(),
        g0.filled_to(inputs, g1),
        g1.filled_to(inputs, g2),
        0 <= n <= g1.len(),
    ensures
        forall|i: int| 0 <= i < n ==> #[trigger] g2.nodes[i].value == g1.nodes[i].value,
    decreases n,
{
    if n > 0 {
        lemma_refill_prefix(g0, inputs, g1, g2, n - 1);
        let i = n - 1;
        assert(g0.nodes[i].kind == g1.nodes[i].kind);
        assert(g0.node_wf(i));
        if g1.is_input(i) {
            assert(g2.nodes[i].value == g1.supplied(inputs, i));
            assert(g1.nodes[i].value == g0.supplied(inputs, i));
        } else if g1.resolved(i) {
        } else {
            assert(!g1.parents_resolved(i));
            let t = choose|t: int|
                0 <= t < g1.nodes[i].parents.len() && !#[trigger] g1.resolved(
                    g1.nodes[i].parents[t] as int,
                );
            assert(g0.nodes[i].parents == g1.nodes[i].parents);
            assert(g1.nodes[i].parents[t] < i);
            assert(!g2.resolved(g2.nodes[i].parents[t] as int));
            assert(!g2.resolved(i));
        }
    }
}

/// With hint functions that give one result per argument list, two fills
/// of the same graph with the same inputs give every node the same value,
/// so checking the constraints afterwards gives the same answer.
pub proof fn lemma_fill_deterministic<F: Compute>(
    g0: GraphView<F>,
    inputs: Seq<Option<u32>>,
    g1: GraphView<F>,
    g2: GraphView<F>,
)
    requires
        g0.well_formed(),
        g0.hints_deterministic(),
        g0.filled_to(inputs, g1),
        g0.filled_to(inputs, g2),
    ensures
        forall|i: int| 0 <= i < g0.len() ==> #[trigger] g1.nodes[i].value == g2.nodes[i].value,
        g1.all_constraints_hold() == g2.all_constraints_hold(),
{
    lemma_fills_agree_prefix(g0, inputs, g1, g2, g0.len());
    assert forall|c: int| 0 <= c < g1.constraints.len() implies #[trigger] g1.constraint_holds(c)
        == g2.constraint_holds(c) by {
        assert(g0.constraints[c].0 < g0.len() && g0.constraints[c].1 < g0.len());
        assert(g1.nodes[g1.constraints[c].0 as int].value == g2.nodes[g2.constraints[c].0 as int].value);
        assert(g1.nodes[g1.constraints[c].1 as int].value == g2.nodes[g2.constraints[c].1 as int].value);
    }
    assert(g1.constraints == g2.constraints);
    if g1.all_constraints_hold() {
        assert forall|c: int| 0 <= c < g2.constraints.len() implies #[trigger] g2.constraint_holds(c) by {
            assert(g1.constraint_holds(c));
        }
    }
    if g2.all_constraints_hold() {
        assert forall|c: int| 0 <= c < g1.constraints.len() implies #[trigger] g1.constraint_holds(c) by {
            assert(g2.constraint_holds(c));
        }
    }
}

proof fn lemma_fills_agree_prefix<F: Compute>(
    g0: GraphView<F>,
    inputs: Seq<Option<u32>>,
    g1: GraphView<F>,
    g2: GraphView<F>,
    n: int,
)
    requires
        g0.well_formed(),
        g0.hints_deterministic(),
        g0.filled_to(inputs, g1),
        g0.filled_to(inputs, g2),
        0 <= n <= g0.len(),
    ensures
        forall|i: int| 0 <= i < n ==> #[trigger] g1.nodes[i].value == g2.nodes[i].value,
    decreases n,
{
    if n > 0 {
        lemma_fills_agree_prefix(g0, inputs, g1, g2, n - 1);
        let i = n - 1;
        assert(g0.nodes[i].kind == g1.nodes[i].kind);
        assert(g0.nodes[i].kind == g2.nodes[i].kind);
        assert(g0.nodes[i].parents == g1.nodes[i].parents);
        assert(g0.nodes[i].parents == g2.nodes[i].parents);
        assert(g0.node_wf(i));
        if g0.is_input(i) {
        } else if g0.resolved(i) {
        } else if g1.resolved(i) && g2.resolved(i) {
            assert(g1.computes(i, g1.val(i)));
            assert(g2.computes(i, g2.val(i)));
            assert forall|t: int| 0 <= t < g1.nodes[i].parents.len() implies #[trigger] g1.parent_values(i)[t]
                == g2.parent_values(i)[t] by {
                assert(g1.nodes[i].parents[t] < i);
            }
            assert(g1.parent_values(i) =~= g2.parent_values(i));
            match g0.nodes[i].kind {
                NodeKind::Hint(k) => {
                    assert(g1.hints[k as int].gives(g1.parent_values(i), g1.val(i)));
                    assert(g0.hints[k as int].gives(g1.parent_values(i), g2.val(i)));
                },
                _ => {},
            }
        } else if g1.resolved(i) {
            assert(g1.computes(i, g1.val(i)));
            assert(!g2.parents_resolved(i));
            let t = choose|t: int|
                0 <= t < g2.nodes[i].parents.len() && !#[trigger] g2.resolved(
                    g2.nodes[i].parents[t] as int,
                );
            assert(g1.nodes[i].parents[t] < i);
            assert(g1.resolved(g1.nodes[i].parents[t] as int));
        } else if g2.resolved(i) {
            assert(g2.computes(i, g2.val(i)));
            assert(!g1.parents_resolved(i));
            let t = choose|t: int|
                0 <= t < g1.nodes[i].parents.len() && !#[trigger] g1.resolved(
                    g1.nodes[i].parents[t] as int,
                );
            assert(g2.nodes[i].parents[t] < i);
            assert(g2.resolved(g2.nodes[i].parents[t] as int));
        }
    }
}

/// After a fill from a graph whose resolved nodes hold what they compute,
/// with inputs that agree with the inputs already resolved, every `Add` or
/// `Mul` node whose two parents are resolved holds their wrapping sum or
/// product, and every resolved node still holds what it computes.
pub proof fn lemma_fill_applies_operators<F: Compute>(
    g0: GraphView<F>,
    inputs: Seq<Option<u32>>,
    g1: GraphView<F>,
)
    requires
        g0.well_formed(),
        g0.operations_hold(),
        g0.inputs_agree(inputs),
        g0.filled_to(inputs, g1),
    ensures
        g1.operations_hold(),
        forall|i: int|
            0 <= i < g1.len() && g1.nodes[i].kind == NodeKind::Add && #[trigger] g1.parents_resolved(i)
                ==> g1.nodes[i].value == Some(
                add_wrapped(
                    g1.val(g1.nodes[i].parents[0] as int),
                    g1.val(g1.nodes[i].parents[1] as int),
                ),
            ),
        forall|i: int|
            0 <= i < g1.len() && g1.nodes[i].kind == NodeKind::Mul && #[trigger] g1.parents_resolved(i)
                ==> g1.nodes[i].value == Some(
                mul_wrapped(
                    g1.val(g1.nodes[i].parents[0] as int),
                    g1.val(g1.nodes[i].parents[1] as int),
                ),
            ),
{
    assert(g0.keeps_values_in(g1)) by {
        assert forall|i: int| 0 <= i < g0.len() && #[trigger] g0.resolved(i) implies g1.nodes[i].value
            == g0.nodes[i].value by {
            if g0.is_input(i) {
                assert(g1.nodes[i].value == g0.supplied(inputs, i));
            }
        }
    }
    assert forall|i: int|
        0 <= i < g1.len() && !g1.is_input(i) && !(g1.nodes[i].kind is Constant)
            && #[trigger] g1.resolved(i) implies g1.computes(i, g1.val(i)) by {
        assert(g0.nodes[i].kind == g1.nodes[i].kind);
        if g0.resolved(i) {
            g0.lemma_computes_kept(g1, i, g0.val(i));
        }
    }
    assert forall|i: int|
        0 <= i < g1.len() && g1.nodes[i].kind == NodeKind::Add && #[trigger] g1.parents_resolved(i)
            implies g1.nodes[i].value == Some(
            add_wrapped(
                g1.val(g1.nodes[i].parents[0] as int),
                g1.val(g1.nodes[i].parents[1] as int),
            ),
        ) by {
        assert(g0.nodes[i].kind == g1.nodes[i].kind);
        assert(g0.nodes[i].parents == g1.nodes[i].parents);
        assert(g0.node_wf(i));
        assert(g1.resolved(i));
    }
    assert forall|i: int|
        0 <= i < g1.len() && g1.nodes[i].kind == NodeKind::Mul && #[trigger] g1.parents_resolved(i)
            implies g1.nodes[i].value == Some(
            mul_wrapped(
                g1.val(g1.nodes[i].parents[0] as int),
                g1.val(g1.nodes[i].parents[1] as int),
            ),
        ) by {
        assert(g0.nodes[i].kind == g1.nodes[i].kind);
        assert(g0.nodes[i].parents == g1.nodes[i].parents);
        assert(g0.node_wf(i));
        assert(g1.resolved(i));
    }
}

} // verus!
