use crate::arrow::{chains, maps};
use crate::func::Pass;
use crate::graph::GraphView;
use crate::types::ContinuousDomain;
use vstd::prelude::*;
use vstd::std_specs::ops::MulSpec;

verus! {

/// `f` has one answer to each argument.
pub open spec fn single_valued<D, F: Fn(&[D]) -> Vec<D>>(f: F) -> bool {
    forall|xs: Seq<D>, a: Seq<D>, b: Seq<D>|
        #[trigger] maps(f, xs, a) && #[trigger] maps(f, xs, b) ==> a == b
}

impl<D: ContinuousDomain, F: Fn(&[D]) -> Vec<D>> GraphView<D, F> {
    /// Every function in the graph has one answer to each argument.
    pub open spec fn is_functional(self) -> bool {
        forall|id: int, pass: Pass|
            self.has(id) ==> match (#[trigger] self.arrow(id, pass)).arrow {
                Some(f) => single_valued(f),
                None => true,
            }
    }

    /// With single-valued functions a step has one outcome.
    pub proof fn moves_is_determined(
        self,
        id: int,
        pass: Pass,
        one: Self,
        next_one: Option<Seq<usize>>,
        other: Self,
        next_other: Option<Seq<usize>>,
    )
        requires
            self.has(id),
            self.is_functional(),
            pass is Backward ==> D::obeys_mul_spec(),
            self.moves(id, pass, one, next_one),
            self.moves(id, pass, other, next_other),
        ensures
            one == other,
            next_one == next_other,
    {
        let node = self.nodes[id];
        let arrow = self.arrow(id, pass);
        if arrow.is_eligible(self.slots) {
            let a = one.arrow(id, pass).values;
            let b = other.arrow(id, pass).values;
            assert(a == b) by {
                match pass {
                    Pass::Forward => {
                        assert(node.f.yields_forward(self.slots, a));
                        assert(node.f.yields_forward(self.slots, b));
                    },
                    Pass::Backward => {
                        let forward = node.f.arguments(self.slots);
                        assert(node.b.yields_backward(forward, self.slots, a));
                        assert(node.b.yields_backward(forward, self.slots, b));
                        if let Some(f) = node.b.arrow {
                            let upstream = node.b.arguments(self.slots);
                            let la = choose|local: Seq<D>| #[trigger]
                                maps(f, forward, local) && chains(upstream, local, a);
                            let lb = choose|local: Seq<D>| #[trigger]
                                maps(f, forward, local) && chains(upstream, local, b);
                            assert(la == lb);
                            assert(a =~= b);
                        }
                    },
                }
            }
            assert(one.nodes[id] == other.nodes[id]);
        }
        assert(one.nodes =~= other.nodes);
    }

    /// Whatever a traversal reaches is a consistent graph with the wiring
    /// and the functions it started with, and only nodes of the graph wait
    /// to be visited.
    pub proof fn reaches_keeps_wiring(
        self,
        start: usize,
        pass: Pass,
        after: Self,
        queue: Seq<usize>,
        steps: nat,
    )
        requires
            self.wf(),
            self.has(start as int),
            self.reaches(start, pass, after, queue, steps),
        ensures
            after.wf(),
            self.same_wiring(after),
            forall|i: int| 0 <= i < queue.len() ==> after.has(#[trigger] queue[i] as int),
        decreases steps,
    {
        if steps > 0 {
            let (before, waiting) = choose|before: Self, waiting: Seq<usize>|
                self.reaches(start, pass, before, waiting, (steps - 1) as nat)
                    && #[trigger] before.advances(waiting, pass, after, queue);
            self.reaches_keeps_wiring(start, pass, before, waiting, (steps - 1) as nat);
            let next = choose|next: Option<Seq<usize>>| #[trigger]
                before.moves(waiting[0] as int, pass, after, next) && queue == crate::graph::requeued(
                    waiting,
                    next,
                );
            let id = waiting[0] as int;
            assert(before.has(id));
            before.moves_keeps_wf(id, pass, after, next);
            before.moves_keeps_wiring(id, pass, after, next);
            before.moves_names_wired_nodes(id, pass, after, next);
            assert forall|i: int| 0 <= i < queue.len() implies after.has(
                #[trigger] queue[i] as int,
            ) by {
                if i < waiting.len() - 1 {
                    assert(queue[i] == waiting[i + 1]);
                } else {
                    let consumers = next->Some_0;
                    assert(queue[i] == consumers[i - (waiting.len() - 1)]);
                }
            }
        }
    }

    /// With single-valued functions, a traversal is in one state after a given number of steps.
    pub proof fn reaches_is_determined(
        self,
        start: usize,
        pass: Pass,
        steps: nat,
        one: Self,
        queue_one: Seq<usize>,
        other: Self,
        queue_other: Seq<usize>,
    )
        requires
            self.wf(),
            self.has(start as int),
            self.is_functional(),
            pass is Backward ==> D::obeys_mul_spec(),
            self.reaches(start, pass, one, queue_one, steps),
            self.reaches(start, pass, other, queue_other, steps),
        ensures
            one == other,
            queue_one == queue_other,
        decreases steps,
    {
        if steps > 0 {
            let prior = (steps - 1) as nat;
            let (b1, w1) = choose|before: Self, waiting: Seq<usize>|
                self.reaches(start, pass, before, waiting, prior) && #[trigger] before.advances(
                    waiting,
                    pass,
                    one,
                    queue_one,
                );
            let (b2, w2) = choose|before: Self, waiting: Seq<usize>|
                self.reaches(start, pass, before, waiting, prior) && #[trigger] before.advances(
                    waiting,
                    pass,
                    other,
                    queue_other,
                );
            self.reaches_is_determined(start, pass, prior, b1, w1, b2, w2);
            self.reaches_keeps_wiring(start, pass, b1, w1, prior);
            let n1 = choose|next: Option<Seq<usize>>| #[trigger]
                b1.moves(w1[0] as int, pass, one, next) && queue_one == crate::graph::requeued(
                    w1,
                    next,
                );
            let n2 = choose|next: Option<Seq<usize>>| #[trigger]
                b1.moves(w1[0] as int, pass, other, next) && queue_other == crate::graph::requeued(
                    w1,
                    next,
                );
            assert(b1.is_functional()) by {
                assert forall|id: int, p: Pass| b1.has(id) implies match (#[trigger] b1.arrow(
                    id,
                    p,
                )).arrow {
                    Some(f) => single_valued(f),
                    None => true,
                } by {
                    assert(b1.arrow(id, p).arrow == self.arrow(id, p).arrow);
                }
            }
            b1.moves_is_determined(w1[0] as int, pass, one, n1, other, n2);
        }
    }

    /// A traversal that has taken `steps` steps had nodes waiting after each earlier step.
    pub proof fn reaches_passes_through(
        self,
        start: usize,
        pass: Pass,
        after: Self,
        queue: Seq<usize>,
        steps: nat,
        earlier: nat,
    )
        requires
            earlier < steps,
            self.reaches(start, pass, after, queue, steps),
        ensures
            exists|then: Self, waiting: Seq<usize>| #[trigger]
                self.reaches(start, pass, then, waiting, earlier) && waiting.len() > 0,
        decreases steps,
    {
        let (before, waiting) = choose|before: Self, waiting: Seq<usize>|
            self.reaches(start, pass, before, waiting, (steps - 1) as nat)
                && #[trigger] before.advances(waiting, pass, after, queue);
        if earlier < steps - 1 {
            self.reaches_passes_through(
                start,
                pass,
                before,
                waiting,
                (steps - 1) as nat,
                earlier,
            );
        }
    }

    /// The outcome of a traversal is determined: if every function in the
    /// graph has one answer to each argument (and, for the reverse pass, the
    /// products of the element type are specified), a traversal from `start`
    /// can end in one state only.
    pub proof fn settles_is_determined(self, start: usize, pass: Pass, one: Self, other: Self)
        requires
            self.wf(),
            self.has(start as int),
            self.is_functional(),
            pass is Backward ==> D::obeys_mul_spec(),
            self.settles(start, pass, one),
            self.settles(start, pass, other),
        ensures
            one == other,
    {
        let done = Seq::<usize>::empty();
        let n1 = choose|steps: nat| self.reaches(start, pass, one, done, steps);
        let n2 = choose|steps: nat| self.reaches(start, pass, other, done, steps);
        if n1 < n2 {
            self.reaches_passes_through(start, pass, other, done, n2, n1);
            let (then, waiting) = choose|then: Self, waiting: Seq<usize>| #[trigger]
                self.reaches(start, pass, then, waiting, n1) && waiting.len() > 0;
            self.reaches_is_determined(start, pass, n1, one, done, then, waiting);
        } else if n2 < n1 {
            self.reaches_passes_through(start, pass, one, done, n1, n2);
            let (then, waiting) = choose|then: Self, waiting: Seq<usize>| #[trigger]
                self.reaches(start, pass, then, waiting, n2) && waiting.len() > 0;
            self.reaches_is_determined(start, pass, n2, other, done, then, waiting);
        } else {
            self.reaches_is_determined(start, pass, n1, one, done, other, done);
        }
    }
}

} // verus!
