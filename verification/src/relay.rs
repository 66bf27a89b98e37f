use crate::arrow::{
    distinct_of_constant, targets, written, written_keeps_ends, written_leaves_rest,
    written_reads_back, ArrowView,
};
use crate::func::{FunctionView, Pass};
use crate::graph::{requeued, GraphView};
use crate::types::ContinuousDomain;
use crate::var::{Variable, VariableBody};
use vstd::prelude::*;

verus! {

/// `graph` after `source` has been connected to `target` `n` times.
pub open spec fn linked_times<D, F>(
    graph: GraphView<D, F>,
    source: usize,
    target: usize,
    n: nat,
) -> GraphView<D, F>
    decreases n,
{
    if n == 0 {
        graph
    } else {
        linked_times(graph, source, target, (n - 1) as nat).linked(source, target)
    }
}

/// A source that holds `values` (node 0) and a sink seeded with `seed`
/// (node 1), connected once for each of the values.
pub open spec fn relay<D, F>(values: Seq<D>, seed: Seq<D>) -> GraphView<D, F> {
    linked_times(
        GraphView::empty().with_node(FunctionView::source(values)).with_node(
            FunctionView::sink(seed),
        ),
        0,
        1,
        values.len(),
    )
}

/// The forward edges of connections `first`, `first + 1`, ... (`n` of them),
/// counted from the first connection ever made in a graph. Each connection
/// lays two edges, so these are even positions in the table of edges.
pub open spec fn ahead(first: nat, n: nat) -> Seq<Variable> {
    Seq::new(n, |i: int| Variable((2 * (first + i)) as usize))
}

/// The reverse edges of the same connections: the odd positions that follow.
pub open spec fn back(first: nat, n: nat) -> Seq<Variable> {
    Seq::new(n, |i: int| Variable((2 * (first + i) + 1) as usize))
}

/// The edges of a graph in which node 0 was connected to node 1 `n` times and nothing else.
pub open spec fn joined<D>(n: nat) -> Seq<VariableBody<D>> {
    Seq::new(
        2 * n,
        |k: int|
            if k % 2 == 0 {
                VariableBody { value: None, source: 0, target: 1 }
            } else {
                VariableBody { value: None, source: 1, target: 0 }
            },
    )
}

/// What `n` connections make of a source holding `values` and a sink seeded with `seed`.
pub open spec fn paired<D, F>(values: Seq<D>, seed: Seq<D>, n: nat) -> GraphView<D, F> {
    GraphView {
        nodes: seq![
            FunctionView {
                f: ArrowView {
                    domain: Seq::empty(),
                    arrow: None,
                    values,
                    codomain: ahead(0, n),
                },
                b: ArrowView {
                    domain: back(0, n),
                    arrow: None,
                    values: Seq::empty(),
                    codomain: Seq::empty(),
                },
            },
            FunctionView {
                f: ArrowView {
                    domain: ahead(0, n),
                    arrow: None,
                    values: Seq::empty(),
                    codomain: Seq::empty(),
                },
                b: ArrowView {
                    domain: Seq::empty(),
                    arrow: None,
                    values: seed,
                    codomain: back(0, n),
                },
            },
        ],
        slots: joined(n),
    }
}

/// Connecting a source to a sink `n` times gives the graph that `paired` describes.
pub proof fn linked_times_is_paired<D, F>(values: Seq<D>, seed: Seq<D>, n: nat)
    requires
        2 * n <= usize::MAX,
    ensures
        linked_times(
            GraphView::<D, F>::empty().with_node(FunctionView::source(values)).with_node(
                FunctionView::sink(seed),
            ),
            0,
            1,
            n,
        ) == paired::<D, F>(values, seed, n),
    decreases n,
{
    let start = GraphView::<D, F>::empty().with_node(FunctionView::source(values)).with_node(
        FunctionView::sink(seed),
    );
    let goal = paired::<D, F>(values, seed, n);
    if n == 0 {
        assert(start.nodes[0].f.codomain =~= goal.nodes[0].f.codomain);
        assert(start.nodes[0].b.domain =~= goal.nodes[0].b.domain);
        assert(start.nodes[1].f.domain =~= goal.nodes[1].f.domain);
        assert(start.nodes[1].b.codomain =~= goal.nodes[1].b.codomain);
        assert(start.nodes[0] == goal.nodes[0]);
        assert(start.nodes[1] == goal.nodes[1]);
        assert(start.nodes =~= goal.nodes);
        assert(start.slots =~= goal.slots);
    } else {
        let m = (n - 1) as nat;
        linked_times_is_paired::<D, F>(values, seed, m);
        let before = paired::<D, F>(values, seed, m);
        let after = before.linked(0, 1);
        assert(after.slots =~= goal.slots);
        assert(after.nodes[0].f.codomain =~= goal.nodes[0].f.codomain);
        assert(after.nodes[0].b.domain =~= goal.nodes[0].b.domain);
        assert(after.nodes[1].f.domain =~= goal.nodes[1].f.domain);
        assert(after.nodes[1].b.codomain =~= goal.nodes[1].b.codomain);
        assert(after.nodes =~= goal.nodes);
    }
}

/// The edges of `joined` once the source has written `values` on those that lead forward.
pub open spec fn laden<D>(values: Seq<D>) -> Seq<VariableBody<D>> {
    Seq::new(
        2 * values.len(),
        |k: int|
            if k % 2 == 0 {
                VariableBody { value: Some(values[k / 2]), source: 0, target: 1 }
            } else {
                VariableBody { value: None, source: 1, target: 0 }
            },
    )
}

/// The relay after the source has fired.
pub open spec fn carried<D, F>(values: Seq<D>, seed: Seq<D>) -> GraphView<D, F> {
    GraphView { slots: laden(values), ..paired::<D, F>(values, seed, values.len()) }
}

/// The relay after the sink has taken what arrived.
pub open spec fn delivered<D, F>(values: Seq<D>, seed: Seq<D>) -> GraphView<D, F> {
    let graph = carried::<D, F>(values, seed);
    let sink = graph.nodes[1];
    GraphView {
        nodes: graph.nodes.update(1, FunctionView { f: sink.f.holding(values), ..sink }),
        ..graph
    }
}

/// The source's writes turn `joined` into `laden`.
proof fn written_is_laden<D>(values: Seq<D>)
    requires
        2 * values.len() <= usize::MAX,
    ensures
        written(joined::<D>(values.len()), ahead(0, values.len()), values) == laden(values),
{
    let n = values.len();
    let slots = joined::<D>(n);
    let links = ahead(0, n);
    let after = written(slots, links, values);
    written_keeps_ends(slots, links, values);
    assert forall|k: int| 0 <= k < 2 * n implies after[k] == laden(values)[k] by {
        if k % 2 == 0 {
            let i = k / 2;
            assert(links[i].index() == k);
            written_reads_back(slots, links, values, i);
        } else {
            written_leaves_rest(slots, links, values, k);
        }
    }
    assert(after =~= laden(values));
}

/// The first step of the relay: the source fires, the values stand on the
/// edges, and the sink is named once.
proof fn relay_first_step<D: ContinuousDomain, F: Fn(&[D]) -> Vec<D>>(
    values: Seq<D>,
    seed: Seq<D>,
    after: GraphView<D, F>,
    next: Option<Seq<usize>>,
)
    requires
        0 < values.len(),
        2 * values.len() <= usize::MAX,
        paired::<D, F>(values, seed, values.len()).moves(0, Pass::Forward, after, next),
    ensures
        after == carried::<D, F>(values, seed),
        next == Some(seq![1usize]),
{
    let n = values.len();
    let graph = paired::<D, F>(values, seed, n);
    let source = graph.nodes[0];
    assert(source.f.is_coterminal());
    written_is_laden(values);
    let ends = targets(graph.slots, source.f.codomain);
    assert forall|i: int| 0 <= i < ends.len() implies ends[i] == 1 by {
        assert(source.f.codomain[i].index() == 2 * i);
    }
    distinct_of_constant(ends, 1);
    assert(after.nodes[0].f == source.f);
    assert(after.nodes[0] == source);
    assert(after.nodes =~= graph.nodes);
}

/// The second step of the relay: the sink takes the values and names nobody.
proof fn relay_second_step<D: ContinuousDomain, F: Fn(&[D]) -> Vec<D>>(
    values: Seq<D>,
    seed: Seq<D>,
    after: GraphView<D, F>,
    next: Option<Seq<usize>>,
)
    requires
        0 < values.len(),
        2 * values.len() <= usize::MAX,
        carried::<D, F>(values, seed).moves(1, Pass::Forward, after, next),
    ensures
        after == delivered::<D, F>(values, seed),
        next == Some(Seq::<usize>::empty()),
{
    let graph = carried::<D, F>(values, seed);
    let sink = graph.nodes[1];
    assert(sink.f.is_terminal());
    assert(sink.f.passes_through());
    assert(sink.f.arguments(graph.slots) =~= values) by {
        assert forall|i: int| 0 <= i < values.len() implies sink.f.arguments(graph.slots)[i]
            == values[i] by {
            assert(sink.f.domain[i].index() == 2 * i);
        }
    }
    assert(targets(graph.slots, sink.f.codomain) =~= Seq::<usize>::empty());
    assert(after.nodes[1].f == sink.f.holding(values));
    assert(after.nodes =~= delivered::<D, F>(values, seed).nodes);
}

/// Every state that a forward traversal of the relay from its source can be
/// in: the start, the state after the source has fired, and the state after
/// the sink has taken the values, where the traversal ends.
pub proof fn relay_trace<D: ContinuousDomain, F: Fn(&[D]) -> Vec<D>>(
    values: Seq<D>,
    seed: Seq<D>,
    after: GraphView<D, F>,
    queue: Seq<usize>,
    steps: nat,
)
    requires
        0 < values.len(),
        2 * values.len() <= usize::MAX,
        paired::<D, F>(values, seed, values.len()).reaches(0, Pass::Forward, after, queue, steps),
    ensures
        steps <= 2,
        steps == 0 ==> after == paired::<D, F>(values, seed, values.len()) && queue == seq![0usize],
        steps == 1 ==> after == carried::<D, F>(values, seed) && queue == seq![1usize],
        steps == 2 ==> after == delivered::<D, F>(values, seed) && queue == Seq::<usize>::empty(),
    decreases steps,
{
    let start = paired::<D, F>(values, seed, values.len());
    if steps > 0 {
        let (before, waiting) = choose|before: GraphView<D, F>, waiting: Seq<usize>|
            start.reaches(0, Pass::Forward, before, waiting, (steps - 1) as nat)
                && #[trigger] before.advances(waiting, Pass::Forward, after, queue);
        relay_trace(values, seed, before, waiting, (steps - 1) as nat);
        let next = choose|next: Option<Seq<usize>>| #[trigger]
            before.moves(waiting[0] as int, Pass::Forward, after, next) && queue == requeued(
                waiting,
                next,
            );
        if steps == 1 {
            relay_first_step(values, seed, after, next);
            assert(queue =~= seq![1usize]);
        } else if steps == 2 {
            relay_second_step(values, seed, after, next);
            assert(queue =~= Seq::<usize>::empty());
        }
    }
}

/// A relay without values has nothing to hand over: the one step of its
/// forward traversal changes nothing and names nobody.
pub proof fn empty_relay_trace<D: ContinuousDomain, F: Fn(&[D]) -> Vec<D>>(
    values: Seq<D>,
    seed: Seq<D>,
    after: GraphView<D, F>,
    queue: Seq<usize>,
    steps: nat,
)
    requires
        values.len() == 0,
        paired::<D, F>(values, seed, 0).reaches(0, Pass::Forward, after, queue, steps),
    ensures
        steps <= 1,
        after == paired::<D, F>(values, seed, 0),
        steps == 0 ==> queue == seq![0usize],
        steps == 1 ==> queue == Seq::<usize>::empty(),
    decreases steps,
{
    let start = paired::<D, F>(values, seed, 0);
    if steps > 0 {
        let (before, waiting) = choose|before: GraphView<D, F>, waiting: Seq<usize>|
            start.reaches(0, Pass::Forward, before, waiting, (steps - 1) as nat)
                && #[trigger] before.advances(waiting, Pass::Forward, after, queue);
        empty_relay_trace(values, seed, before, waiting, (steps - 1) as nat);
        let next = choose|next: Option<Seq<usize>>| #[trigger]
            before.moves(waiting[0] as int, Pass::Forward, after, next) && queue == requeued(
                waiting,
                next,
            );
        if steps == 1 {
            let source = start.nodes[0];
            assert(source.f.is_terminal() && !source.f.is_applied());
            assert(targets(start.slots, source.f.codomain) =~= Seq::<usize>::empty());
            assert(after.nodes[0].f.values =~= source.f.values);
            assert(after.nodes[0].f == source.f);
            assert(after.nodes =~= start.nodes);
            assert(queue =~= Seq::<usize>::empty());
        }
    }
}

/// A forward traversal of the relay from its source is in order at every step.
pub proof fn relay_can_traverse<D: ContinuousDomain, F: Fn(&[D]) -> Vec<D>>(
    values: Seq<D>,
    seed: Seq<D>,
)
    requires
        2 * values.len() <= usize::MAX,
    ensures
        relay::<D, F>(values, seed).can_traverse(0, Pass::Forward),
{
    let start = relay::<D, F>(values, seed);
    linked_times_is_paired::<D, F>(values, seed, values.len());
    assert forall|after: GraphView<D, F>, queue: Seq<usize>, steps: nat|
        #[trigger] start.reaches(0, Pass::Forward, after, queue, steps) && queue.len()
            > 0 implies after.can_step(queue[0] as int, Pass::Forward) by {
        if values.len() == 0 {
            empty_relay_trace(values, seed, after, queue, steps);
            assert(after.nodes[0].f.is_terminal());
            assert(!after.nodes[0].f.reads_domain());
        } else {
            relay_trace(values, seed, after, queue, steps);
            if steps == 0 {
                assert(after.nodes[0].f.is_coterminal());
            } else {
                let sink = after.nodes[1];
                assert(sink.f.is_terminal());
                assert forall|i: int| 0 <= i < sink.f.domain.len() implies (
                #[trigger] after.slots[sink.f.domain[i].index()]).value is Some by {
                    assert(sink.f.domain[i].index() == 2 * i);
                }
            }
        }
    }
}

/// A source that holds `values` and is connected to a sink once for each of
/// them hands them over unchanged: when the forward pass from the source has
/// ended, the inputs of the sink are exactly `values`, in their order, and so
/// are the values the sink holds.
pub proof fn identity_path<D: ContinuousDomain, F: Fn(&[D]) -> Vec<D>>(
    values: Seq<D>,
    seed: Seq<D>,
    after: GraphView<D, F>,
)
    requires
        2 * values.len() <= usize::MAX,
        relay::<D, F>(values, seed).settles(0, Pass::Forward, after),
    ensures
        after.nodes[1].f.inputs(after.slots) == values.map_values(|v: D| Some(v)),
        after.nodes[1].f.values == values,
{
    let start = relay::<D, F>(values, seed);
    let done = Seq::<usize>::empty();
    linked_times_is_paired::<D, F>(values, seed, values.len());
    let steps = choose|steps: nat| start.reaches(0, Pass::Forward, after, done, steps);
    if values.len() == 0 {
        empty_relay_trace(values, seed, after, done, steps);
    } else {
        relay_trace(values, seed, after, done, steps);
        assert(steps == 2) by {
            assert(seq![0usize].len() == 1);
            assert(seq![1usize].len() == 1);
        }
    }
    assert(after.nodes.len() == 2);
    let sink = after.nodes[1];
    assert(sink.f.values =~= values);
    assert(sink.f.inputs(after.slots) =~= values.map_values(|v: D| Some(v))) by {
        assert forall|i: int| 0 <= i < values.len() implies sink.f.inputs(after.slots)[i] == Some(
            values[i],
        ) by {
            assert(sink.f.domain[i].index() == 2 * i);
        }
    }
}

} // verus!
