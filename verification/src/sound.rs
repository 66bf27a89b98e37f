use crate::arrow::{
    accepts, distinct_is_drawn_from, maps, targets, written_defines, ArrowView,
};
use crate::func::Pass;
use crate::graph::{requeued, GraphView};
use crate::types::ContinuousDomain;
use vstd::prelude::*;
use vstd::std_specs::ops::MulSpec;

verus! {

/// `f` accepts every argument of `taken` values and answers each with `given` values.
pub open spec fn answers_with<D, F: Fn(&[D]) -> Vec<D>>(f: F, taken: nat, given: nat) -> bool {
    &&& forall|xs: Seq<D>| xs.len() == taken ==> #[trigger] accepts(f, xs)
    &&& forall|xs: Seq<D>, out: Seq<D>|
        xs.len() == taken && #[trigger] maps(f, xs, out) ==> out.len() == given
}

impl<D: ContinuousDomain, F: Fn(&[D]) -> Vec<D>> ArrowView<D, F> {
    /// Whatever the arrow may hand on has one value for each output edge.
    ///
    /// With a function, the function accepts every argument of `taken`
    /// values, which is how many it is handed, and answers with one value
    /// per output edge. Without one, an arrow that has output edges either
    /// holds one value per output edge or will take one from each of as many
    /// input edges.
    pub open spec fn is_balanced(self, taken: nat) -> bool {
        match self.arrow {
            Some(f) => answers_with(f, taken, self.codomain.len()),
            None => self.codomain.len() > 0 ==> if self.domain.len() == 0 {
                self.values.len() == self.codomain.len()
            } else {
                self.values.len() > 0 || self.domain.len() == self.codomain.len()
            },
        }
    }
}

impl<D: ContinuousDomain, F: Fn(&[D]) -> Vec<D>> GraphView<D, F> {
    /// All input edges of the arrow of node `id` for `pass` come from one node.
    pub open spec fn has_one_producer(self, id: int, pass: Pass) -> bool {
        forall|i: int, j: int|
            0 <= i < self.arrow(id, pass).domain.len() && 0 <= j < self.arrow(id, pass).domain.len()
                ==> self.slots[(#[trigger] self.arrow(id, pass).domain[i]).index()].source
                == self.slots[(#[trigger] self.arrow(id, pass).domain[j]).index()].source
    }

    /// The arrow of node `id` for `pass` cannot go wrong by itself: it is
    /// balanced for the number of values that enter the node on the way
    /// forward, which is what its function is handed in either pass; and if
    /// it is a sink, it is fed by one node only, so that it is never visited
    /// with some of its inputs still missing.
    pub open spec fn arrow_is_sound(self, id: int, pass: Pass) -> bool {
        &&& self.arrow(id, pass).is_balanced(self.nodes[id].f.domain.len())
        &&& self.arrow(id, pass).is_terminal() ==> self.has_one_producer(id, pass)
        &&& pass is Backward ==> {
            &&& self.nodes[id].f.is_applicable(self.slots)
            &&& self.nodes[id].b.arrow is Some ==> self.nodes[id].b.codomain.len()
                <= self.nodes[id].b.domain.len()
        }
    }

    /// Every arrow of `pass` is sound. For the reverse pass, moreover, the
    /// forward pass has defined the inputs of every node, and any two values
    /// may be multiplied.
    pub open spec fn is_sound(self, pass: Pass) -> bool {
        &&& forall|id: int| self.has(id) ==> #[trigger] self.arrow_is_sound(id, pass)
        &&& pass is Backward ==> forall|a: D, b: D| #[trigger] a.mul_req(b)
    }

    /// A traversal may start at `start`: if that node is a sink that has
    /// yet to take its inputs, they are all there.
    pub open spec fn starts_well(self, start: int, pass: Pass) -> bool {
        self.arrow(start, pass).is_terminal() && self.arrow(start, pass).passes_through()
            ==> self.arrow(start, pass).is_applicable(self.slots)
    }

    /// Node `from` has an output edge to node `to` in `pass`.
    pub open spec fn feeds(self, from: int, to: int, pass: Pass) -> bool {
        exists|j: int|
            0 <= j < self.arrow(from, pass).codomain.len() && self.slots[(#[trigger] self.arrow(
                from,
                pass,
            ).codomain[j]).index()].target == to
    }

    /// Every output edge of node `id` in `pass` holds a value.
    pub open spec fn has_flushed(self, id: int, pass: Pass) -> bool {
        forall|j: int|
            0 <= j < self.arrow(id, pass).codomain.len() ==> (#[trigger] self.slots[self.arrow(
                id,
                pass,
            ).codomain[j].index()]).value is Some
    }

    /// Node `id` waits to be visited for a reason: a node that feeds it has
    /// written on all of its output edges.
    pub open spec fn is_fed(self, id: int, pass: Pass) -> bool {
        exists|from: int| self.has(from) && #[trigger] self.feeds(from, id, pass) && self.has_flushed(
            from,
            pass,
        )
    }

    /// A sink with one producer that was fed has all of its inputs.
    proof fn fed_sink_is_ready(self, id: int, pass: Pass)
        requires
            self.wf(),
            self.has(id),
            self.has_one_producer(id, pass),
            self.is_fed(id, pass),
        ensures
            self.arrow(id, pass).is_applicable(self.slots),
    {
        let arrow = self.arrow(id, pass);
        let from = choose|from: int| self.has(from) && #[trigger] self.feeds(from, id, pass)
            && self.has_flushed(from, pass);
        let producer = self.arrow(from, pass);
        let j = choose|j: int|
            0 <= j < producer.codomain.len() && self.slots[(#[trigger] producer.codomain[j]).index()].target
                == id;
        let first = producer.codomain[j];
        assert(self.arrow_wf(from, pass));
        assert(self.arrow_wf(id, pass));
        assert(self.joins_out(from, pass, first));
        assert(arrow.domain.contains(first));
        let at = choose|i: int| 0 <= i < arrow.domain.len() && arrow.domain[i] == first;
        assert forall|i: int| 0 <= i < arrow.domain.len() implies (
        #[trigger] self.slots[arrow.domain[i].index()]).value is Some by {
            let link = arrow.domain[i];
            assert(self.slots[link.index()].source == self.slots[arrow.domain[at].index()].source);
            assert(self.joins_in(id, pass, link));
            let k = choose|k: int| 0 <= k < producer.codomain.len() && producer.codomain[k] == link;
            assert(self.slots[producer.codomain[k].index()].value is Some);
        }
    }

    /// What holds of every state of a traversal over a sound graph.
    pub open spec fn keeps_sound(
        self,
        start: usize,
        pass: Pass,
        after: Self,
        queue: Seq<usize>,
        steps: nat,
    ) -> bool {
        &&& after.wf()
        &&& self.same_wiring(after)
        &&& after.is_sound(pass)
        &&& forall|i: int| 0 <= i < queue.len() ==> after.has(#[trigger] queue[i] as int)
        &&& if steps == 0 {
            after == self && queue == seq![start]
        } else {
            forall|i: int| 0 <= i < queue.len() ==> after.is_fed(#[trigger] queue[i] as int, pass)
        }
    }

    /// In a sound state, a step at a node that waits for a reason is in order.
    proof fn sound_step_is_in_order(self, id: int, pass: Pass)
        requires
            self.wf(),
            self.has(id),
            self.is_sound(pass),
            self.is_fed(id, pass) || self.starts_well(id, pass),
        ensures
            self.can_step(id, pass),
    {
        let node = self.nodes[id];
        let arrow = self.arrow(id, pass);
        assert(self.arrow_is_sound(id, pass));
        if arrow.is_eligible(self.slots) {
            if arrow.is_terminal() && arrow.passes_through() && self.is_fed(id, pass) {
                self.fed_sink_is_ready(id, pass);
            }
            match pass {
                Pass::Forward => {
                    assert(node.f.can_apply_forward(self.slots));
                    assert forall|out: Seq<D>| #[trigger]
                        node.f.yields_forward(self.slots, out) implies node.f.fits(out) by {
                        if node.f.arrow is None && node.f.passes_through() {
                            assert(out.len() == node.f.domain.len());
                        }
                    }
                },
                Pass::Backward => {
                    let forward = node.f.arguments(self.slots);
                    assert(node.b.can_apply_backward(forward, self.slots));
                    assert forall|out: Seq<D>| #[trigger]
                        node.b.yields_backward(forward, self.slots, out) implies node.b.fits(
                        out,
                    ) by {
                        if node.b.arrow is None && node.b.passes_through() {
                            assert(out.len() == node.b.domain.len());
                        }
                    }
                },
            }
        }
    }

    /// A step at a node of a sound state leads to a sound state, in which
    /// every node that the step names is fed, and every node that was fed still is.
    proof fn sound_step_keeps_sound(self, id: int, pass: Pass, after: Self, next: Option<Seq<usize>>)
        requires
            self.wf(),
            self.has(id),
            self.is_sound(pass),
            self.moves(id, pass, after, next),
        ensures
            after.wf(),
            self.same_wiring(after),
            after.is_sound(pass),
            forall|other: int| self.has(other) && self.is_fed(other, pass) ==> after.is_fed(other, pass),
            next matches Some(consumers) ==> forall|i: int|
                0 <= i < consumers.len() ==> after.has(#[trigger] consumers[i] as int) && after.is_fed(
                    consumers[i] as int,
                    pass,
                ),
    {
        self.moves_keeps_wf(id, pass, after, next);
        self.moves_keeps_wiring(id, pass, after, next);
        self.moves_names_wired_nodes(id, pass, after, next);
        self.moves_keeps_defined(id, pass, after, next);
        assert forall|m: int| after.has(m) implies #[trigger] after.arrow_is_sound(m, pass) by {
            self.moves_keeps_arrow_sound(id, pass, after, next, m);
        }
        assert forall|other: int| self.has(other) && self.is_fed(other, pass) implies after.is_fed(
            other,
            pass,
        ) by {
            let from = choose|from: int| self.has(from) && #[trigger] self.feeds(from, other, pass)
                && self.has_flushed(from, pass);
            self.moves_keeps_fed(id, pass, after, next, from, other);
        }
        if let Some(consumers) = next {
            let arrow = self.arrow(id, pass);
            let ends = targets(self.slots, arrow.codomain);
            distinct_is_drawn_from(ends);
            assert forall|i: int| 0 <= i < consumers.len() implies after.has(
                #[trigger] consumers[i] as int,
            ) && after.is_fed(consumers[i] as int, pass) by {
                assert(consumers.contains(consumers[i]));
                assert(ends.contains(consumers[i]));
                let j = choose|j: int| 0 <= j < ends.len() && ends[j] == consumers[i];
                assert(after.arrow(id, pass).codomain == arrow.codomain);
                assert(arrow.codomain[j].within(self.slots)) by {
                    assert(self.arrow_wf(id, pass));
                }
                assert(after.slots[after.arrow(id, pass).codomain[j].index()].target
                    == consumers[i]);
                assert(after.feeds(id, consumers[i] as int, pass));
            }
        }
    }

    /// A step only defines: every edge that held a value still holds one,
    /// and if the node fired, each of its output edges holds one.
    proof fn moves_keeps_defined(self, id: int, pass: Pass, after: Self, next: Option<Seq<usize>>)
        requires
            self.wf(),
            self.has(id),
            self.moves(id, pass, after, next),
        ensures
            forall|k: int|
                0 <= k < self.slots.len() && self.slots[k].value is Some ==> (
                #[trigger] after.slots[k]).value is Some,
            next is Some ==> after.has_flushed(id, pass),
    {
        let arrow = self.arrow(id, pass);
        assert(self.arrow_wf(id, pass));
        if arrow.is_eligible(self.slots) {
            written_defines(self.slots, arrow.codomain, after.arrow(id, pass).values);
            assert(after.arrow(id, pass).codomain == arrow.codomain);
        }
    }

    /// A node that was fed by `from` is still fed by it after a step.
    proof fn moves_keeps_fed(
        self,
        id: int,
        pass: Pass,
        after: Self,
        next: Option<Seq<usize>>,
        from: int,
        to: int,
    )
        requires
            self.wf(),
            self.has(id),
            self.has(from),
            self.moves(id, pass, after, next),
            self.feeds(from, to, pass),
            self.has_flushed(from, pass),
        ensures
            after.has(from),
            after.feeds(from, to, pass),
            after.has_flushed(from, pass),
    {
        self.moves_keeps_wiring(id, pass, after, next);
        self.moves_keeps_defined(id, pass, after, next);
        let producer = self.arrow(from, pass);
        assert(self.arrow_wf(from, pass));
        assert(after.arrow(from, pass).codomain == producer.codomain);
        let j = choose|j: int|
            0 <= j < producer.codomain.len() && self.slots[(#[trigger] producer.codomain[j]).index()].target
                == to;
        assert(producer.codomain[j].within(self.slots));
        assert(after.slots[after.arrow(from, pass).codomain[j].index()].target == to);
        assert forall|k: int| 0 <= k < after.arrow(from, pass).codomain.len() implies (
        #[trigger] after.slots[after.arrow(from, pass).codomain[k].index()]).value is Some by {
            assert(producer.codomain[k].within(self.slots));
            assert(self.slots[producer.codomain[k].index()].value is Some);
        }
    }

    /// Soundness of an arrow survives a step.
    proof fn moves_keeps_arrow_sound(
        self,
        id: int,
        pass: Pass,
        after: Self,
        next: Option<Seq<usize>>,
        other: int,
    )
        requires
            self.wf(),
            self.has(id),
            self.has(other),
            self.is_sound(pass),
            self.moves(id, pass, after, next),
        ensures
            after.arrow_is_sound(other, pass),
    {
        self.moves_keeps_wiring(id, pass, after, next);
        self.moves_keeps_defined(id, pass, after, next);
        assert(self.arrow_is_sound(other, pass));
        assert(self.arrow_is_sound(id, pass));
        assert(self.arrow_wf(other, pass));
        assert(self.arrow_wf(other, Pass::Forward));
        let before = self.arrow(other, pass);
        let now = after.arrow(other, pass);
        assert(now.domain == before.domain && now.codomain == before.codomain && now.arrow
            == before.arrow);
        assert(after.nodes[other].f.domain == self.nodes[other].f.domain);
        assert(now.is_balanced(self.nodes[other].f.domain.len())) by {
            if other == id && self.arrow(id, pass).is_eligible(self.slots) {
                self.moves_when_eligible(id, pass, after, next);
                if before.arrow is None && before.passes_through() {
                    assert(now.values.len() == before.domain.len());
                }
            } else if other == id {
            } else {
                self.moves_leaves_others(id, pass, after, next, other);
            }
        }
        if now.is_terminal() {
            assert forall|i: int, j: int|
                0 <= i < now.domain.len() && 0 <= j < now.domain.len() implies after.slots[(
                #[trigger] now.domain[i]).index()].source == after.slots[(
                #[trigger] now.domain[j]).index()].source by {
                assert(before.domain[i].within(self.slots));
                assert(before.domain[j].within(self.slots));
                assert(self.slots[before.domain[i].index()].source
                    == self.slots[before.domain[j].index()].source);
            }
        }
        if pass is Backward {
            let inputs = self.nodes[other].f;
            assert(after.nodes[other].f.domain == inputs.domain);
            assert forall|i: int| 0 <= i < inputs.domain.len() implies (
            #[trigger] after.slots[after.nodes[other].f.domain[i].index()]).value is Some by {
                assert(inputs.domain[i].within(self.slots));
                assert(self.slots[inputs.domain[i].index()].value is Some);
            }
        }
    }

    /// A step at one node leaves every other node as it is.
    proof fn moves_leaves_others(
        self,
        id: int,
        pass: Pass,
        after: Self,
        next: Option<Seq<usize>>,
        other: int,
    )
        requires
            self.has(id),
            self.has(other),
            other != id,
            self.moves(id, pass, after, next),
        ensures
            after.nodes[other] == self.nodes[other],
    {
    }

    /// Every state of a traversal over a sound graph is sound, and in it
    /// every node that waits to be visited does so for a reason.
    pub proof fn reaches_keeps_sound(
        self,
        start: usize,
        pass: Pass,
        after: Self,
        queue: Seq<usize>,
        steps: nat,
    )
        requires
            self.wf(),
            self.has(start as int),
            self.is_sound(pass),
            self.reaches(start, pass, after, queue, steps),
        ensures
            self.keeps_sound(start, pass, after, queue, steps),
        decreases steps,
    {
        if steps > 0 {
            let (before, waiting) = choose|before: Self, waiting: Seq<usize>|
                self.reaches(start, pass, before, waiting, (steps - 1) as nat)
                    && #[trigger] before.advances(waiting, pass, after, queue);
            self.reaches_keeps_sound(start, pass, before, waiting, (steps - 1) as nat);
            let next = choose|next: Option<Seq<usize>>| #[trigger]
                before.moves(waiting[0] as int, pass, after, next) && queue == requeued(
                    waiting,
                    next,
                );
            let id = waiting[0] as int;
            assert(before.has(id));
            before.sound_step_keeps_sound(id, pass, after, next);
            assert(self.same_wiring(after));
            assert forall|i: int| 0 <= i < queue.len() implies after.has(
                #[trigger] queue[i] as int,
            ) && after.is_fed(queue[i] as int, pass) by {
                if i < waiting.len() - 1 {
                    assert(queue[i] == waiting[i + 1]);
                    assert(before.has(waiting[i + 1] as int));
                    assert(steps - 1 > 0);
                    assert(before.is_fed(waiting[i + 1] as int, pass));
                } else {
                    let consumers = next->Some_0;
                    assert(queue[i] == consumers[i - (waiting.len() - 1)]);
                }
            }
        }
    }

    /// A sound graph can be traversed: if the graph is consistent, every
    /// arrow of the pass is sound, and the start is not a sink that still
    /// lacks inputs, then every step of a traversal from `start` is in order.
    pub proof fn sound_graph_can_traverse(self, start: usize, pass: Pass)
        requires
            self.wf(),
            self.has(start as int),
            self.is_sound(pass),
            self.starts_well(start as int, pass),
        ensures
            self.can_traverse(start, pass),
    {
        assert forall|after: Self, queue: Seq<usize>, steps: nat|
            #[trigger] self.reaches(start, pass, after, queue, steps) && queue.len()
                > 0 implies after.can_step(queue[0] as int, pass) by {
            self.reaches_keeps_sound(start, pass, after, queue, steps);
            assert(after.has(queue[0] as int));
            if steps > 0 {
                assert(after.is_fed(queue[0] as int, pass));
            }
            after.sound_step_is_in_order(queue[0] as int, pass);
        }
    }
}

} // verus!
