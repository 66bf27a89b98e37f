use crate::arrow::{
    distinct, distinct_is_drawn_from, listed, targets, written, written_keeps_ends, ArrowView,
    Fault,
};
use crate::func::{Function, FunctionView, Pass};
use crate::types::ContinuousDomain;
use crate::var::{Variable, VariableBody};
use std::collections::VecDeque;
use vstd::prelude::*;
use vstd::std_specs::ops::MulSpec;

verus! {

/// The owner of every node and every edge of one computation.
///
/// Nodes and edges are named by their positions; an edge records the
/// positions of the two nodes it joins.
pub struct Graph<D, F> {
    nodes: Vec<Function<D, F>>,
    slots: Vec<VariableBody<D>>,
}

/// The mathematical content of a `Graph`.
pub struct GraphView<D, F> {
    pub nodes: Seq<FunctionView<D, F>>,
    pub slots: Seq<VariableBody<D>>,
}

impl<D, F> View for Graph<D, F> {
    type V = GraphView<D, F>;

    closed spec fn view(&self) -> GraphView<D, F> {
        GraphView { nodes: Seq::new(self.nodes@.len(), |i: int| self.nodes@[i]@), slots: self.slots@ }
    }
}

impl<D, F> GraphView<D, F> {
    /// `id` names a node of the graph.
    pub open spec fn has(self, id: int) -> bool {
        0 <= id < self.nodes.len()
    }

    /// The arrow of node `id` that serves `pass`.
    pub open spec fn arrow(self, id: int, pass: Pass) -> ArrowView<D, F> {
        self.nodes[id].arrow(pass)
    }

    /// `link` is an output edge of node `id` in `pass` as the graph sees it:
    /// the edge names `id` as its producer, and its consumer has it among
    /// its inputs in the same pass.
    pub open spec fn joins_out(self, id: int, pass: Pass, link: Variable) -> bool {
        &&& self.slots[link.index()].source == id
        &&& self.arrow(self.slots[link.index()].target as int, pass).domain.contains(link)
    }

    /// `link` is an input edge of node `id` in `pass` as the graph sees it:
    /// the edge names `id` as its consumer, and its producer has it among
    /// its outputs in the same pass.
    pub open spec fn joins_in(self, id: int, pass: Pass, link: Variable) -> bool {
        &&& self.slots[link.index()].target == id
        &&& self.arrow(self.slots[link.index()].source as int, pass).codomain.contains(link)
    }

    /// The arrow of node `id` for `pass` is consistent with the graph: its
    /// handles name edges, and each of its edges is held at the other end by
    /// the node that the edge names there.
    pub open spec fn arrow_wf(self, id: int, pass: Pass) -> bool {
        &&& self.arrow(id, pass).attached(self.slots)
        &&& forall|i: int|
            0 <= i < self.arrow(id, pass).codomain.len() ==> #[trigger] self.joins_out(
                id,
                pass,
                self.arrow(id, pass).codomain[i],
            )
        &&& forall|i: int|
            0 <= i < self.arrow(id, pass).domain.len() ==> #[trigger] self.joins_in(
                id,
                pass,
                self.arrow(id, pass).domain[i],
            )
    }

    /// Both ends of edge `k` are nodes of the graph.
    pub open spec fn slot_wf(self, k: int) -> bool {
        &&& self.slots[k].source < self.nodes.len()
        &&& self.slots[k].target < self.nodes.len()
    }

    /// The graph is consistent: every arrow is, and every edge joins two of
    /// its nodes. Every graph that is built by `add` and `link_to` is.
    pub open spec fn wf(self) -> bool {
        &&& forall|id: int, pass: Pass| self.has(id) ==> #[trigger] self.arrow_wf(id, pass)
        &&& forall|k: int| 0 <= k < self.slots.len() ==> #[trigger] self.slot_wf(k)
    }

    /// `other` has the nodes and edges of this graph, wired in the same way
    /// and around the same functions; only values may differ.
    pub open spec fn same_wiring(self, other: Self) -> bool {
        &&& other.nodes.len() == self.nodes.len()
        &&& other.slots.len() == self.slots.len()
        &&& forall|k: int|
            0 <= k < self.slots.len() ==> {
                &&& (#[trigger] other.slots[k]).source == self.slots[k].source
                &&& other.slots[k].target == self.slots[k].target
            }
        &&& forall|id: int, pass: Pass|
            self.has(id) ==> {
                &&& (#[trigger] other.arrow(id, pass)).domain == self.arrow(id, pass).domain
                &&& other.arrow(id, pass).codomain == self.arrow(id, pass).codomain
                &&& other.arrow(id, pass).arrow == self.arrow(id, pass).arrow
            }
    }

    /// The graph with no node and no edge.
    pub open spec fn empty() -> Self {
        GraphView { nodes: Seq::empty(), slots: Seq::empty() }
    }

    /// The graph with `node` added as its last node.
    pub open spec fn with_node(self, node: FunctionView<D, F>) -> Self {
        GraphView { nodes: self.nodes.push(node), ..self }
    }

    /// The graph with one more connection from `source` to `target`.
    ///
    /// Two edges are added. The first runs from `source` to `target` and is
    /// the last output of `source` and the last input of `target` in the
    /// forward pass. The second runs the other way and is the last output of
    /// `target` and the last input of `source` in the reverse pass.
    pub open spec fn linked(self, source: usize, target: usize) -> Self {
        let ahead = Variable(self.slots.len() as usize);
        let back = Variable((self.slots.len() + 1) as usize);
        let s = self.nodes[source as int];
        let t = self.nodes[target as int];
        GraphView {
            nodes: self.nodes.update(
                source as int,
                FunctionView {
                    f: ArrowView { codomain: s.f.codomain.push(ahead), ..s.f },
                    b: ArrowView { domain: s.b.domain.push(back), ..s.b },
                },
            ).update(
                target as int,
                FunctionView {
                    f: ArrowView { domain: t.f.domain.push(ahead), ..t.f },
                    b: ArrowView { codomain: t.b.codomain.push(back), ..t.b },
                },
            ),
            slots: self.slots.push(
                VariableBody { value: None, source, target },
            ).push(VariableBody { value: None, source: target, target: source }),
        }
    }
}

impl<D: ContinuousDomain, F: Fn(&[D]) -> Vec<D>> Graph<D, F> {
    /// A graph with no node and no edge.
    pub fn new() -> (graph: Self)
        ensures
            graph@ == GraphView::<D, F>::empty(),
            graph@.wf(),
    {
        let graph = Graph { nodes: Vec::new(), slots: Vec::new() };
        assert(graph@.nodes =~= Seq::empty());
        graph
    }

    /// Takes a node that is not wired yet into the graph and returns its name.
    pub fn add(&mut self, node: Function<D, F>) -> (id: usize)
        requires
            old(self)@.wf(),
            node@.is_unwired(),
        ensures
            id == old(self)@.nodes.len(),
            final(self)@ == old(self)@.with_node(node@),
            final(self)@.wf(),
    {
        let id: usize = self.nodes.len();
        self.nodes.push(node);
        assert(self@.nodes =~= old(self)@.nodes.push(node@));
        proof {
            old(self)@.with_node_is_wf(node@);
        }
        id
    }

    /// The number of nodes.
    pub fn len(&self) -> (n: usize)
        ensures
            n == self@.nodes.len(),
    {
        self.nodes.len()
    }

    /// The node named `id`.
    pub fn node(&self, id: usize) -> (node: &Function<D, F>)
        requires
            self@.has(id as int),
        ensures
            node@ == self@.nodes[id as int],
    {
        &self.nodes[id]
    }

    /// The table of edges.
    pub fn slots(&self) -> (slots: &Vec<VariableBody<D>>)
        ensures
            slots@ == self@.slots,
    {
        &self.slots
    }

    /// Connects `source` to `target`: see `GraphView::linked`.
    ///
    /// Each call adds one position to what flows between the two nodes, so
    /// calling it `n` times makes `n` parallel edges, used in the order of the calls.
    pub fn link_to(&mut self, source: usize, target: usize)
        requires
            old(self)@.wf(),
            old(self)@.has(source as int),
            old(self)@.has(target as int),
            source != target,
        ensures
            final(self)@ == old(self)@.linked(source, target),
            final(self)@.wf(),
    {
        let ahead = Variable::new(&mut self.slots, None, source, target);
        self.nodes[source].f.add_output(ahead);
        self.nodes[target].f.add_input(ahead);
        let back = Variable::new(&mut self.slots, None, target, source);
        self.nodes[target].b.add_output(back);
        self.nodes[source].b.add_input(back);
        assert(self.slots.len() == old(self)@.slots.len() + 2);
        assert(self@.nodes =~= old(self)@.linked(source, target).nodes);
        proof {
            old(self)@.linked_is_wf(source, target);
        }
    }

    /// Connects `source` to `target` and returns `target`, so that a chain
    /// can be built from left to right.
    pub fn followed_by(&mut self, source: usize, target: usize) -> (next: usize)
        requires
            old(self)@.wf(),
            old(self)@.has(source as int),
            old(self)@.has(target as int),
            source != target,
        ensures
            next == target,
            final(self)@ == old(self)@.linked(source, target),
            final(self)@.wf(),
    {
        self.link_to(source, target);
        target
    }
}

impl<D, F> GraphView<D, F> {
    /// Connecting two nodes keeps every old edge, and every arrow keeps the
    /// edges it has, at their positions.
    pub proof fn linked_extends(self, source: usize, target: usize)
        requires
            self.has(source as int),
            self.has(target as int),
            source != target,
        ensures
            self.linked(source, target).nodes.len() == self.nodes.len(),
            self.linked(source, target).slots.len() == self.slots.len() + 2,
            forall|k: int|
                0 <= k < self.slots.len() ==> #[trigger] self.linked(source, target).slots[k]
                    == self.slots[k],
            forall|m: int, pass: Pass|
                0 <= m < self.nodes.len() ==> {
                    &&& self.arrow(m, pass).domain.is_prefix_of(
                        (#[trigger] self.linked(source, target).arrow(m, pass)).domain,
                    )
                    &&& self.arrow(m, pass).codomain.is_prefix_of(
                        self.linked(source, target).arrow(m, pass).codomain,
                    )
                },
    {
    }

    /// What a sequence holds, every sequence that it begins holds too.
    proof fn prefix_contains(short: Seq<Variable>, long: Seq<Variable>, link: Variable)
        requires
            short.is_prefix_of(long),
            short.contains(link),
        ensures
            long.contains(link),
    {
        let i = choose|i: int| 0 <= i < short.len() && short[i] == link;
        assert(long[i] == link);
    }

    /// A consistent graph stays consistent when two of its nodes are connected.
    pub proof fn linked_is_wf(self, source: usize, target: usize)
        requires
            self.wf(),
            self.has(source as int),
            self.has(target as int),
            source != target,
            self.slots.len() + 2 <= usize::MAX,
        ensures
            self.linked(source, target).wf(),
    {
        let after = self.linked(source, target);
        self.linked_extends(source, target);
        assert forall|id: int, pass: Pass| after.has(id) implies #[trigger] after.arrow_wf(
            id,
            pass,
        ) by {
            self.linked_arrow_is_wf(source, target, id, pass);
        }
        assert forall|k: int| 0 <= k < after.slots.len() implies #[trigger] after.slot_wf(k) by {
            if k < self.slots.len() {
                assert(self.slot_wf(k));
            }
        }
    }

    /// The two edges of a new connection are held at both ends.
    proof fn linked_joins_new(self, source: usize, target: usize)
        requires
            self.has(source as int),
            self.has(target as int),
            source != target,
            self.slots.len() + 2 <= usize::MAX,
        ensures
            ({
                let after = self.linked(source, target);
                let ahead = Variable(self.slots.len() as usize);
                let back = Variable((self.slots.len() + 1) as usize);
                &&& after.joins_out(source as int, Pass::Forward, ahead)
                &&& after.joins_in(target as int, Pass::Forward, ahead)
                &&& after.joins_out(target as int, Pass::Backward, back)
                &&& after.joins_in(source as int, Pass::Backward, back)
            }),
    {
        let after = self.linked(source, target);
        let ahead = Variable(self.slots.len() as usize);
        let back = Variable((self.slots.len() + 1) as usize);
        let s = source as int;
        let t = target as int;
        assert(after.arrow(s, Pass::Forward).codomain[self.arrow(s, Pass::Forward).codomain.len() as int]
            == ahead);
        assert(after.arrow(t, Pass::Forward).domain[self.arrow(t, Pass::Forward).domain.len() as int]
            == ahead);
        assert(after.arrow(t, Pass::Backward).codomain[self.arrow(
            t,
            Pass::Backward,
        ).codomain.len() as int] == back);
        assert(after.arrow(s, Pass::Backward).domain[self.arrow(s, Pass::Backward).domain.len() as int]
            == back);
    }

    /// The part of `linked_is_wf` that concerns one arrow.
    proof fn linked_arrow_is_wf(self, source: usize, target: usize, id: int, pass: Pass)
        requires
            self.wf(),
            self.has(source as int),
            self.has(target as int),
            self.has(id),
            source != target,
            self.slots.len() + 2 <= usize::MAX,
        ensures
            self.linked(source, target).arrow_wf(id, pass),
    {
        let after = self.linked(source, target);
        let old_arrow = self.arrow(id, pass);
        let new_arrow = after.arrow(id, pass);
        self.linked_extends(source, target);
        self.linked_joins_new(source, target);
        assert(self.arrow_wf(id, pass));
        assert(old_arrow.domain.is_prefix_of(new_arrow.domain));
        assert(old_arrow.codomain.is_prefix_of(new_arrow.codomain));
        assert forall|i: int| 0 <= i < new_arrow.domain.len() implies (
        #[trigger] new_arrow.domain[i]).within(after.slots) by {
            if i < old_arrow.domain.len() {
                assert(new_arrow.domain[i] == old_arrow.domain[i]);
                assert(old_arrow.domain[i].within(self.slots));
            }
        }
        assert forall|i: int| 0 <= i < new_arrow.codomain.len() implies (
        #[trigger] new_arrow.codomain[i]).within(after.slots) by {
            if i < old_arrow.codomain.len() {
                assert(new_arrow.codomain[i] == old_arrow.codomain[i]);
                assert(old_arrow.codomain[i].within(self.slots));
            }
        }
        assert forall|i: int| 0 <= i < new_arrow.codomain.len() implies #[trigger] after.joins_out(
            id,
            pass,
            new_arrow.codomain[i],
        ) by {
            if i < old_arrow.codomain.len() {
                let c = old_arrow.codomain[i];
                assert(new_arrow.codomain[i] == c);
                assert(c.within(self.slots));
                assert(self.joins_out(id, pass, c));
                assert(self.slot_wf(c.index()));
                let t = self.slots[c.index()].target as int;
                assert(self.arrow(t, pass).domain.is_prefix_of(after.arrow(t, pass).domain));
                Self::prefix_contains(self.arrow(t, pass).domain, after.arrow(t, pass).domain, c);
            }
        }
        assert forall|i: int| 0 <= i < new_arrow.domain.len() implies #[trigger] after.joins_in(
            id,
            pass,
            new_arrow.domain[i],
        ) by {
            if i < old_arrow.domain.len() {
                let c = old_arrow.domain[i];
                assert(new_arrow.domain[i] == c);
                assert(c.within(self.slots));
                assert(self.joins_in(id, pass, c));
                assert(self.slot_wf(c.index()));
                let p = self.slots[c.index()].source as int;
                assert(self.arrow(p, pass).codomain.is_prefix_of(after.arrow(p, pass).codomain));
                Self::prefix_contains(self.arrow(p, pass).codomain, after.arrow(p, pass).codomain, c);
            }
        }
    }

    /// A consistent graph stays consistent when a node without edges joins it.
    pub proof fn with_node_is_wf(self, node: FunctionView<D, F>)
        requires
            self.wf(),
            node.is_unwired(),
        ensures
            self.with_node(node).wf(),
    {
        let after = self.with_node(node);
        assert forall|id: int, pass: Pass| after.has(id) implies #[trigger] after.arrow_wf(
            id,
            pass,
        ) by {
            if id < self.nodes.len() {
                assert(self.arrow_wf(id, pass));
                let arrow = self.arrow(id, pass);
                assert(after.arrow(id, pass) == arrow);
                assert forall|i: int| 0 <= i < arrow.codomain.len() implies #[trigger]
                    after.joins_out(id, pass, arrow.codomain[i]) by {
                    let c = arrow.codomain[i];
                    assert(self.joins_out(id, pass, c));
                    assert(c.within(self.slots));
                    assert(self.slot_wf(c.index()));
                }
                assert forall|i: int| 0 <= i < arrow.domain.len() implies #[trigger]
                    after.joins_in(id, pass, arrow.domain[i]) by {
                    let c = arrow.domain[i];
                    assert(self.joins_in(id, pass, c));
                    assert(c.within(self.slots));
                    assert(self.slot_wf(c.index()));
                }
            }
        }
        assert forall|k: int| 0 <= k < after.slots.len() implies #[trigger] after.slot_wf(k) by {
            assert(self.slot_wf(k));
        }
    }
}

impl<D: ContinuousDomain, F: Fn(&[D]) -> Vec<D>> GraphView<D, F> {
    /// A step of `pass` at node `id` is in order.
    pub open spec fn can_step(self, id: int, pass: Pass) -> bool {
        self.nodes[id].can_step(pass, self.slots)
    }

    /// One step of `pass` at node `id` leads from this graph to `after`:
    /// the node moves, and every other node stays as it is.
    pub open spec fn moves(self, id: int, pass: Pass, after: Self, next: Option<Seq<usize>>) -> bool {
        &&& after.nodes == self.nodes.update(id, after.nodes[id])
        &&& self.nodes[id].moves(pass, self.slots, after.nodes[id], after.slots, next)
    }

    /// What a step does at a node whose arrow takes part, spelled out: the
    /// arrow of the pass holds new values, which stand on its output edges;
    /// the node's other arrow and every other node are as before; and the
    /// consumers of the output edges are named, each once.
    pub proof fn moves_when_eligible(
        self,
        id: int,
        pass: Pass,
        after: Self,
        next: Option<Seq<usize>>,
    )
        requires
            self.has(id),
            self.arrow(id, pass).is_eligible(self.slots),
            self.moves(id, pass, after, next),
        ensures
            after.nodes.len() == self.nodes.len(),
            forall|other: int| self.has(other) && other != id ==> after.nodes[other] == self.nodes[other],
            after.arrow(id, pass) == self.arrow(id, pass).holding(after.arrow(id, pass).values),
            pass is Forward ==> after.nodes[id].b == self.nodes[id].b && self.nodes[id].f.yields_forward(
                self.slots,
                after.nodes[id].f.values,
            ),
            pass is Backward ==> after.nodes[id].f == self.nodes[id].f
                && self.nodes[id].b.yields_backward(
                self.nodes[id].f.arguments(self.slots),
                self.slots,
                after.nodes[id].b.values,
            ),
            after.slots == written(
                self.slots,
                self.arrow(id, pass).codomain,
                after.arrow(id, pass).values,
            ),
            next == Some(distinct(targets(self.slots, self.arrow(id, pass).codomain))),
    {
    }

    /// A step changes values only.
    pub proof fn moves_keeps_wiring(self, id: int, pass: Pass, after: Self, next: Option<Seq<usize>>)
        requires
            self.wf(),
            self.has(id),
            self.moves(id, pass, after, next),
        ensures
            self.same_wiring(after),
    {
        let node = self.nodes[id];
        assert(self.arrow_wf(id, pass));
        if node.arrow(pass).is_eligible(self.slots) {
            written_keeps_ends(self.slots, node.arrow(pass).codomain, after.nodes[id].arrow(pass).values);
        }
    }

    /// A consistent graph stays consistent under a step.
    pub proof fn moves_keeps_wf(self, id: int, pass: Pass, after: Self, next: Option<Seq<usize>>)
        requires
            self.wf(),
            self.has(id),
            self.moves(id, pass, after, next),
        ensures
            after.wf(),
    {
        self.moves_keeps_wiring(id, pass, after, next);
        self.same_wiring_keeps_wf(after);
    }

    /// Consistency is a matter of wiring: a graph with the wiring of a
    /// consistent graph is consistent.
    pub proof fn same_wiring_keeps_wf(self, other: Self)
        requires
            self.wf(),
            self.same_wiring(other),
        ensures
            other.wf(),
    {
        assert forall|m: int, p: Pass| other.has(m) implies #[trigger] other.arrow_wf(m, p) by {
            assert(self.arrow_wf(m, p));
            let arrow = self.arrow(m, p);
            assert(other.arrow(m, p).codomain == arrow.codomain);
            assert(other.arrow(m, p).domain == arrow.domain);
            assert forall|i: int| 0 <= i < arrow.codomain.len() implies #[trigger] other.joins_out(
                m,
                p,
                arrow.codomain[i],
            ) by {
                let c = arrow.codomain[i];
                assert(self.joins_out(m, p, c));
                assert(c.within(self.slots));
                assert(self.slot_wf(c.index()));
                let t = self.slots[c.index()].target as int;
                assert(other.arrow(t, p).domain == self.arrow(t, p).domain);
            }
            assert forall|i: int| 0 <= i < arrow.domain.len() implies #[trigger] other.joins_in(
                m,
                p,
                arrow.domain[i],
            ) by {
                let c = arrow.domain[i];
                assert(self.joins_in(m, p, c));
                assert(c.within(self.slots));
                assert(self.slot_wf(c.index()));
                let t = self.slots[c.index()].source as int;
                assert(other.arrow(t, p).codomain == self.arrow(t, p).codomain);
            }
        }
        assert forall|k: int| 0 <= k < other.slots.len() implies #[trigger] other.slot_wf(k) by {
            assert(self.slot_wf(k));
        }
    }
}

impl<D: ContinuousDomain, F: Fn(&[D]) -> Vec<D>> Graph<D, F> {
    /// One step of `pass` at node `id`.
    fn step(&mut self, id: usize, pass: Pass) -> (next: Option<Vec<usize>>)
        requires
            old(self)@.wf(),
            old(self)@.has(id as int),
            old(self)@.can_step(id as int, pass),
        ensures
            old(self)@.moves(id as int, pass, final(self)@, listed(next)),
            old(self)@.same_wiring(final(self)@),
            final(self)@.wf(),
    {
        proof {
            assert(self@.arrow_wf(id as int, Pass::Forward));
            assert(self@.arrow_wf(id as int, Pass::Backward));
        }
        let next = match pass {
            Pass::Forward => self.nodes[id].propagate_f(&mut self.slots),
            Pass::Backward => self.nodes[id].propagate_b(&mut self.slots),
        };
        assert(self@.nodes =~= old(self)@.nodes.update(id as int, self@.nodes[id as int]));
        proof {
            old(self)@.moves_keeps_wf(id as int, pass, self@, listed(next));
            old(self)@.moves_keeps_wiring(id as int, pass, self@, listed(next));
        }
        next
    }

    /// One step of the forward pass at node `id`: the node fires if its
    /// forward arrow takes part, and the nodes to visit next come back.
    pub fn propagate_f(&mut self, id: usize) -> (next: Option<Vec<usize>>)
        requires
            old(self)@.wf(),
            old(self)@.has(id as int),
            old(self)@.can_step(id as int, Pass::Forward),
        ensures
            old(self)@.moves(id as int, Pass::Forward, final(self)@, listed(next)),
            old(self)@.same_wiring(final(self)@),
            final(self)@.wf(),
    {
        self.step(id, Pass::Forward)
    }

    /// One step of the reverse pass at node `id`.
    pub fn propagate_b(&mut self, id: usize) -> (next: Option<Vec<usize>>)
        requires
            old(self)@.wf(),
            old(self)@.has(id as int),
            old(self)@.can_step(id as int, Pass::Backward),
        ensures
            old(self)@.moves(id as int, Pass::Backward, final(self)@, listed(next)),
            old(self)@.same_wiring(final(self)@),
            final(self)@.wf(),
    {
        self.step(id, Pass::Backward)
    }
}

/// The queue of a traversal after its first entry has been served and has
/// named `next` to be visited.
pub open spec fn requeued(queue: Seq<usize>, next: Option<Seq<usize>>) -> Seq<usize> {
    queue.drop_first() + match next {
        Some(consumers) => consumers,
        None => Seq::empty(),
    }
}

/// Puts the nodes that a step named at the end of the queue.
fn enqueue(queue: &mut VecDeque<usize>, next: &Option<Vec<usize>>)
    ensures
        final(queue)@ == old(queue)@ + match listed(*next) {
            Some(consumers) => consumers,
            None => Seq::empty(),
        },
{
    if let Some(consumers) = next {
        let mut k: usize = 0;
        while k < consumers.len()
            invariant
                k <= consumers.len(),
                queue@ == old(queue)@ + consumers@.take(k as int),
            decreases consumers.len() - k,
        {
            queue.push_back(consumers[k]);
            assert(consumers@.take(k + 1) =~= consumers@.take(k as int).push(consumers@[k as int]));
            k += 1;
        }
        assert(consumers@.take(k as int) =~= consumers@);
    } else {
        assert(queue@ =~= old(queue)@ + Seq::<usize>::empty());
    }
}

/// How many of `nodes` hold no values in their arrow for `pass`.
pub open spec fn idle_among<D, F>(nodes: Seq<FunctionView<D, F>>, pass: Pass) -> nat
    decreases nodes.len(),
{
    if nodes.len() == 0 {
        0
    } else {
        idle_among(nodes.drop_last(), pass) + if nodes.last().arrow(pass).is_applied() {
            0nat
        } else {
            1nat
        }
    }
}

/// Replacing one node changes the count of idle nodes by that node's share.
pub proof fn idle_among_update<D, F>(
    nodes: Seq<FunctionView<D, F>>,
    id: int,
    node: FunctionView<D, F>,
    pass: Pass,
)
    requires
        0 <= id < nodes.len(),
    ensures
        idle_among(nodes.update(id, node), pass) + (if nodes[id].arrow(pass).is_applied() {
            0nat
        } else {
            1nat
        }) == idle_among(nodes, pass) + (if node.arrow(pass).is_applied() {
            0nat
        } else {
            1nat
        }),
    decreases nodes.len(),
{
    let changed = nodes.update(id, node);
    if id == nodes.len() - 1 {
        assert(changed.drop_last() =~= nodes.drop_last());
    } else {
        assert(changed.drop_last() =~= nodes.drop_last().update(id, node));
        idle_among_update(nodes.drop_last(), id, node, pass);
    }
}

impl<D: ContinuousDomain, F: Fn(&[D]) -> Vec<D>> GraphView<D, F> {
    /// How many nodes hold no values in their arrow for `pass`.
    pub open spec fn idle(self, pass: Pass) -> nat {
        idle_among(self.nodes, pass)
    }

    /// A traversal that is in this state with `queue` waiting serves the
    /// first node of the queue and is then in state `after` with `queue_after` waiting.
    pub open spec fn advances(
        self,
        queue: Seq<usize>,
        pass: Pass,
        after: Self,
        queue_after: Seq<usize>,
    ) -> bool {
        &&& queue.len() > 0
        &&& exists|next: Option<Seq<usize>>| #[trigger]
            self.moves(queue[0] as int, pass, after, next) && queue_after == requeued(queue, next)
    }

    /// A breadth-first traversal of `pass` that starts in this state at node
    /// `start` can be in state `after`, with `queue` waiting, when it has
    /// served `steps` nodes.
    pub open spec fn reaches(
        self,
        start: usize,
        pass: Pass,
        after: Self,
        queue: Seq<usize>,
        steps: nat,
    ) -> bool
        decreases steps,
    {
        if steps == 0 {
            after == self && queue == seq![start]
        } else {
            exists|before: Self, waiting: Seq<usize>|
                self.reaches(start, pass, before, waiting, (steps - 1) as nat)
                    && #[trigger] before.advances(waiting, pass, after, queue)
        }
    }

    /// Every step of a traversal from `start` is in order, however the
    /// functions of the nodes answer.
    pub open spec fn can_traverse(self, start: usize, pass: Pass) -> bool {
        forall|after: Self, queue: Seq<usize>, steps: nat|
            #[trigger] self.reaches(start, pass, after, queue, steps) && queue.len() > 0
                ==> after.can_step(queue[0] as int, pass)
    }

    /// A traversal from `start` can end in state `after`: it reaches `after`
    /// with nothing left to visit.
    pub open spec fn settles(self, start: usize, pass: Pass, after: Self) -> bool {
        exists|steps: nat| self.reaches(start, pass, after, Seq::empty(), steps)
    }

    /// Visiting again a node whose function has been applied is in order and
    /// changes nothing: the step of the forward pass leaves the graph as it
    /// is and names no node.
    pub proof fn revisit_changes_nothing(self, id: int, after: Self, next: Option<Seq<usize>>)
        requires
            self.has(id),
            self.nodes[id].f.arrow is Some,
            self.nodes[id].f.is_applied(),
            self.moves(id, Pass::Forward, after, next),
        ensures
            self.can_step(id, Pass::Forward),
            after == self,
            next is None,
    {
        self.nodes[id].f.applied_arrow_rests(self.slots, after.nodes[id].f, after.slots, next);
        assert(after.nodes =~= self.nodes);
    }

    /// The nodes that a step names are nodes of the graph, and each has inputs in `pass`.
    pub proof fn moves_names_wired_nodes(
        self,
        id: int,
        pass: Pass,
        after: Self,
        next: Option<Seq<usize>>,
    )
        requires
            self.wf(),
            self.has(id),
            self.moves(id, pass, after, next),
        ensures
            next matches Some(consumers) ==> forall|i: int|
                0 <= i < consumers.len() ==> {
                    &&& self.has(#[trigger] consumers[i] as int)
                    &&& self.arrow(consumers[i] as int, pass).domain.len() > 0
                },
    {
        if let Some(consumers) = next {
            let arrow = self.arrow(id, pass);
            let ends = targets(self.slots, arrow.codomain);
            assert(self.arrow_wf(id, pass));
            assert(consumers == distinct(ends));
            distinct_is_drawn_from(ends);
            assert forall|i: int| 0 <= i < consumers.len() implies {
                &&& self.has(#[trigger] consumers[i] as int)
                &&& self.arrow(consumers[i] as int, pass).domain.len() > 0
            } by {
                assert(consumers.contains(consumers[i]));
                assert(ends.contains(consumers[i]));
                let j = choose|j: int| 0 <= j < ends.len() && ends[j] == consumers[i];
                let c = arrow.codomain[j];
                assert(c.within(self.slots));
                assert(self.slot_wf(c.index()));
                assert(self.joins_out(id, pass, c));
            }
        }
    }

    /// What a step that was in order leaves in the arrow fits the output edges.
    pub proof fn moves_in_order_fits(self, id: int, pass: Pass, after: Self, next: Option<Seq<usize>>)
        requires
            self.has(id),
            self.can_step(id, pass),
            self.moves(id, pass, after, next),
        ensures
            next is Some ==> self.arrow(id, pass).fits(after.arrow(id, pass).values),
    {
        let node = self.nodes[id];
        if node.arrow(pass).is_eligible(self.slots) {
            let out = after.nodes[id].arrow(pass).values;
            match pass {
                Pass::Forward => {
                    assert(node.f.yields_forward(self.slots, out));
                },
                Pass::Backward => {
                    assert(node.b.yields_backward(node.f.arguments(self.slots), self.slots, out));
                },
            }
        }
    }

    /// A step never adds an idle node. A step at a node that has inputs
    /// either removes one or names no node to visit, provided that what it
    /// leaves in the arrow fits the output edges.
    pub proof fn moves_makes_progress(
        self,
        id: int,
        pass: Pass,
        after: Self,
        next: Option<Seq<usize>>,
    )
        requires
            self.wf(),
            self.has(id),
            self.moves(id, pass, after, next),
            next is Some ==> self.arrow(id, pass).fits(after.arrow(id, pass).values),
        ensures
            after.idle(pass) <= self.idle(pass),
            self.arrow(id, pass).domain.len() > 0 && after.idle(pass) == self.idle(pass) ==> requeued(
                seq![id as usize],
                next,
            ).len() == 0,
    {
        let node = self.nodes[id];
        let arrow = node.arrow(pass);
        idle_among_update(self.nodes, id, after.nodes[id], pass);
        if arrow.is_eligible(self.slots) {
            let out = after.nodes[id].arrow(pass).values;
            if out.len() == 0 {
                assert(arrow.codomain.len() == 0);
                assert(targets(self.slots, arrow.codomain) =~= Seq::<usize>::empty());
            }
        } else {
            assert(after.nodes =~= self.nodes);
        }
    }
}

impl<D: ContinuousDomain, F: Fn(&[D]) -> Vec<D>> Graph<D, F> {
    /// Serves the queue of a breadth-first traversal until it is empty.
    fn traverse(&mut self, start: usize, pass: Pass)
        requires
            old(self)@.wf(),
            old(self)@.has(start as int),
            old(self)@.can_traverse(start, pass),
        ensures
            old(self)@.settles(start, pass, final(self)@),
            old(self)@.same_wiring(final(self)@),
            final(self)@.wf(),
    {
        let mut queue: VecDeque<usize> = VecDeque::new();
        queue.push_front(start);
        assert(queue@ =~= seq![start]);
        let ghost mut steps: nat = 0;
        let mut fresh = true;
        while queue.len() > 0
            invariant
                self@.wf(),
                old(self)@.same_wiring(self@),
                old(self)@.can_traverse(start, pass),
                old(self)@.reaches(start, pass, self@, queue@, steps),
                fresh ==> queue@.len() == 1,
                forall|i: int| 0 <= i < queue@.len() ==> self@.has(#[trigger] queue@[i] as int),
                !fresh ==> forall|i: int|
                    0 <= i < queue@.len() ==> self@.arrow(
                        #[trigger] queue@[i] as int,
                        pass,
                    ).domain.len() > 0,
            decreases
                    self@.idle(pass),
                    (if fresh {
                        1nat
                    } else {
                        0nat
                    }),
                    queue@.len(),
        {
            let ghost before = self@;
            let ghost waiting = queue@;
            assert(before.has(waiting[0] as int));
            let id = queue.pop_front().unwrap();
            let next = self.step(id, pass);
            proof {
                before.moves_keeps_wiring(id as int, pass, self@, listed(next));
                before.moves_names_wired_nodes(id as int, pass, self@, listed(next));
                before.moves_in_order_fits(id as int, pass, self@, listed(next));
                before.moves_makes_progress(id as int, pass, self@, listed(next));
                assert(queue@ =~= waiting.drop_first());
            }
            enqueue(&mut queue, &next);
            proof {
                assert(queue@ == requeued(waiting, listed(next)));
                assert(before.advances(waiting, pass, self@, queue@));
                assert(requeued(seq![id], listed(next)) =~= match listed(next) {
                    Some(consumers) => consumers,
                    None => Seq::empty(),
                });
                steps = steps + 1;
            }
            fresh = false;
        }
        assert(queue@ =~= Seq::<usize>::empty());
    }

    /// Runs the forward pass from `start`.
    ///
    /// The traversal is breadth-first: `start` is served first, and each node
    /// that fires names the nodes to be served after those already waiting.
    /// A node may be served more than once; it fires at most while it holds
    /// no values, so that a further visit changes nothing.
    ///
    /// The pass must not meet a node that cannot take its step: a sink with
    /// an input still missing, a function that refuses its arguments, or a
    /// result that does not fit the output edges. `can_traverse` says so of
    /// every state the traversal can reach; `sound_graph_can_traverse` gives
    /// conditions on the graph alone under which it holds.
    pub fn propagate_forward(&mut self, start: usize)
        requires
            old(self)@.wf(),
            old(self)@.has(start as int),
            old(self)@.can_traverse(start, Pass::Forward),
        ensures
            old(self)@.settles(start, Pass::Forward, final(self)@),
            old(self)@.same_wiring(final(self)@),
            final(self)@.wf(),
    {
        self.traverse(start, Pass::Forward)
    }

    /// Runs the reverse pass from `start`, which is as a rule a sink that
    /// was seeded. The traversal has the shape of the forward one and walks
    /// the mirrored edges that `link_to` made.
    pub fn propagate_backward(&mut self, start: usize)
        requires
            old(self)@.wf(),
            old(self)@.has(start as int),
            old(self)@.can_traverse(start, Pass::Backward),
        ensures
            old(self)@.settles(start, Pass::Backward, final(self)@),
            old(self)@.same_wiring(final(self)@),
            final(self)@.wf(),
    {
        self.traverse(start, Pass::Backward)
    }
}

impl<D: ContinuousDomain, F: Fn(&[D]) -> Vec<D>> GraphView<D, F> {
    /// A pass over the graph can be attempted: every function of the pass
    /// accepts every argument, and in the reverse pass any two values may be
    /// multiplied.
    pub open spec fn can_try(self, pass: Pass) -> bool {
        &&& forall|id: int, xs: Seq<D>|
            self.has(id) ==> #[trigger] self.arrow(id, pass).is_callable(xs)
        &&& pass is Backward ==> forall|a: D, b: D| #[trigger] a.mul_req(b)
    }

    /// A step of `pass` at node `id` would go wrong in the way `fault` names.
    pub open spec fn faults(self, id: int, pass: Pass, fault: Fault) -> bool {
        self.nodes[id].faults(pass, self.slots, fault)
    }

    /// A traversal from `start` can come to a halt in state `after`, where
    /// the node to be served next cannot take its step for the reason that
    /// `fault` names.
    pub open spec fn stalls(self, start: usize, pass: Pass, after: Self, fault: Fault) -> bool {
        exists|queue: Seq<usize>, steps: nat| #[trigger]
            self.reaches(start, pass, after, queue, steps) && queue.len() > 0 && after.faults(
                queue[0] as int,
                pass,
                fault,
            )
    }

    /// A traversal that can stall is not one whose every step is in order.
    pub proof fn stalled_cannot_traverse(self, start: usize, pass: Pass, after: Self, fault: Fault)
        requires
            self.stalls(start, pass, after, fault),
        ensures
            !self.can_traverse(start, pass),
    {
        let (queue, steps) = choose|queue: Seq<usize>, steps: nat| #[trigger]
            self.reaches(start, pass, after, queue, steps) && queue.len() > 0 && after.faults(
                queue[0] as int,
                pass,
                fault,
            );
        after.nodes[queue[0] as int].fault_is_out_of_order(pass, after.slots, fault);
    }

    /// A graph with the wiring of one over which a pass can be attempted
    /// admits the attempt too.
    pub proof fn same_wiring_can_try(self, other: Self, pass: Pass)
        requires
            self.can_try(pass),
            self.same_wiring(other),
        ensures
            other.can_try(pass),
    {
        assert forall|id: int, xs: Seq<D>| other.has(id) implies #[trigger] other.arrow(
            id,
            pass,
        ).is_callable(xs) by {
            assert(self.arrow(id, pass).is_callable(xs));
            assert(other.arrow(id, pass).arrow == self.arrow(id, pass).arrow);
        }
    }
}

impl<D: ContinuousDomain, F: Fn(&[D]) -> Vec<D>> Graph<D, F> {
    /// One step of `pass` at node `id`, taken only if it is in order.
    fn try_step(&mut self, id: usize, pass: Pass) -> (outcome: Result<Option<Vec<usize>>, Fault>)
        requires
            old(self)@.wf(),
            old(self)@.has(id as int),
            old(self)@.can_try(pass),
        ensures
            match outcome {
                Ok(next) => {
                    &&& old(self)@.moves(id as int, pass, final(self)@, listed(next))
                    &&& next is Some ==> old(self)@.arrow(id as int, pass).fits(
                        final(self)@.arrow(id as int, pass).values,
                    )
                },
                Err(fault) => old(self)@.faults(id as int, pass, fault) && final(self)@ == old(self)@,
            },
            old(self)@.can_step(id as int, pass) ==> outcome is Ok,
            old(self)@.same_wiring(final(self)@),
            final(self)@.wf(),
    {
        proof {
            assert(self@.arrow_wf(id as int, Pass::Forward));
            assert(self@.arrow_wf(id as int, Pass::Backward));
            assert(self@.arrow(id as int, pass).is_callable(self@.nodes[id as int].f.arguments(self@.slots)));
        }
        let outcome = match pass {
            Pass::Forward => self.nodes[id].try_propagate_f(&mut self.slots),
            Pass::Backward => self.nodes[id].try_propagate_b(&mut self.slots),
        };
        assert(self@.nodes =~= old(self)@.nodes.update(id as int, self@.nodes[id as int]));
        proof {
            if outcome is Ok {
                old(self)@.moves_keeps_wf(id as int, pass, self@, listed(outcome->Ok_0));
                old(self)@.moves_keeps_wiring(id as int, pass, self@, listed(outcome->Ok_0));
            } else {
                assert(self@.nodes =~= old(self)@.nodes);
            }
        }
        outcome
    }

    /// As `propagate_f`, for a caller who cannot tell beforehand whether the
    /// step is in order: the step is taken if it is, and otherwise the graph
    /// stays as it is and the fault is returned.
    pub fn try_propagate_f(&mut self, id: usize) -> (outcome: Result<Option<Vec<usize>>, Fault>)
        requires
            old(self)@.wf(),
            old(self)@.has(id as int),
            old(self)@.can_try(Pass::Forward),
        ensures
            match outcome {
                Ok(next) => old(self)@.moves(id as int, Pass::Forward, final(self)@, listed(next)),
                Err(fault) => old(self)@.faults(id as int, Pass::Forward, fault) && final(self)@
                    == old(self)@,
            },
            old(self)@.can_step(id as int, Pass::Forward) ==> outcome is Ok,
            old(self)@.same_wiring(final(self)@),
            final(self)@.wf(),
    {
        self.try_step(id, Pass::Forward)
    }

    /// As `propagate_b`, for a caller who cannot tell beforehand whether the
    /// step is in order.
    pub fn try_propagate_b(&mut self, id: usize) -> (outcome: Result<Option<Vec<usize>>, Fault>)
        requires
            old(self)@.wf(),
            old(self)@.has(id as int),
            old(self)@.can_try(Pass::Backward),
        ensures
            match outcome {
                Ok(next) => old(self)@.moves(id as int, Pass::Backward, final(self)@, listed(next)),
                Err(fault) => old(self)@.faults(id as int, Pass::Backward, fault) && final(self)@
                    == old(self)@,
            },
            old(self)@.can_step(id as int, Pass::Backward) ==> outcome is Ok,
            old(self)@.same_wiring(final(self)@),
            final(self)@.wf(),
    {
        self.try_step(id, Pass::Backward)
    }

    /// Serves the queue of a breadth-first traversal until it is empty or a
    /// node cannot take its step.
    fn try_traverse(&mut self, start: usize, pass: Pass) -> (outcome: Result<(), Fault>)
        requires
            old(self)@.wf(),
            old(self)@.has(start as int),
            old(self)@.can_try(pass),
        ensures
            match outcome {
                Ok(_) => old(self)@.settles(start, pass, final(self)@),
                Err(fault) => old(self)@.stalls(start, pass, final(self)@, fault),
            },
            old(self)@.can_traverse(start, pass) ==> outcome is Ok,
            old(self)@.same_wiring(final(self)@),
            final(self)@.wf(),
    {
        let mut queue: VecDeque<usize> = VecDeque::new();
        queue.push_front(start);
        assert(queue@ =~= seq![start]);
        let ghost mut steps: nat = 0;
        let mut fresh = true;
        while queue.len() > 0
            invariant
                self@.wf(),
                self@.can_try(pass),
                old(self)@.same_wiring(self@),
                old(self)@.reaches(start, pass, self@, queue@, steps),
                fresh ==> queue@.len() == 1,
                forall|i: int| 0 <= i < queue@.len() ==> self@.has(#[trigger] queue@[i] as int),
                !fresh ==> forall|i: int|
                    0 <= i < queue@.len() ==> self@.arrow(
                        #[trigger] queue@[i] as int,
                        pass,
                    ).domain.len() > 0,
            decreases
                    self@.idle(pass),
                    (if fresh {
                        1nat
                    } else {
                        0nat
                    }),
                    queue@.len(),
        {
            let ghost before = self@;
            let ghost waiting = queue@;
            assert(before.has(waiting[0] as int));
            let id = queue.pop_front().unwrap();
            let next = match self.try_step(id, pass) {
                Ok(next) => next,
                Err(fault) => {
                    proof {
                        assert(old(self)@.reaches(start, pass, before, waiting, steps));
                        assert(old(self)@.stalls(start, pass, before, fault));
                        old(self)@.stalled_cannot_traverse(start, pass, before, fault);
                    }
                    return Err(fault);
                },
            };
            proof {
                before.moves_keeps_wiring(id as int, pass, self@, listed(next));
                before.same_wiring_can_try(self@, pass);
                before.moves_names_wired_nodes(id as int, pass, self@, listed(next));
                before.moves_makes_progress(id as int, pass, self@, listed(next));
                assert(queue@ =~= waiting.drop_first());
            }
            enqueue(&mut queue, &next);
            proof {
                assert(queue@ == requeued(waiting, listed(next)));
                assert(before.advances(waiting, pass, self@, queue@));
                assert(requeued(seq![id], listed(next)) =~= match listed(next) {
                    Some(consumers) => consumers,
                    None => Seq::empty(),
                });
                steps = steps + 1;
            }
            fresh = false;
        }
        assert(queue@ =~= Seq::<usize>::empty());
        Ok(())
    }

    /// As `propagate_forward`, for a caller who cannot tell beforehand
    /// whether every step of the pass is in order.
    ///
    /// The traversal runs as far as its steps are in order. If it meets a
    /// node that cannot take its step, it stops there, leaves the graph as
    /// the steps before have made it, and returns the fault. It returns
    /// `Ok` whenever `propagate_forward` could have been called.
    pub fn try_propagate_forward(&mut self, start: usize) -> (outcome: Result<(), Fault>)
        requires
            old(self)@.wf(),
            old(self)@.has(start as int),
            old(self)@.can_try(Pass::Forward),
        ensures
            match outcome {
                Ok(_) => old(self)@.settles(start, Pass::Forward, final(self)@),
                Err(fault) => old(self)@.stalls(start, Pass::Forward, final(self)@, fault),
            },
            old(self)@.can_traverse(start, Pass::Forward) ==> outcome is Ok,
            old(self)@.same_wiring(final(self)@),
            final(self)@.wf(),
    {
        self.try_traverse(start, Pass::Forward)
    }

    /// As `propagate_backward`, for a caller who cannot tell beforehand
    /// whether every step of the pass is in order; see `try_propagate_forward`.
    pub fn try_propagate_backward(&mut self, start: usize) -> (outcome: Result<(), Fault>)
        requires
            old(self)@.wf(),
            old(self)@.has(start as int),
            old(self)@.can_try(Pass::Backward),
        ensures
            match outcome {
                Ok(_) => old(self)@.settles(start, Pass::Backward, final(self)@),
                Err(fault) => old(self)@.stalls(start, Pass::Backward, final(self)@, fault),
            },
            old(self)@.can_traverse(start, Pass::Backward) ==> outcome is Ok,
            old(self)@.same_wiring(final(self)@),
            final(self)@.wf(),
    {
        self.try_traverse(start, Pass::Backward)
    }
}

} // verus!
