use crate::arrow::{
    accepts, carries, chains, distinct, maps, targets, targets_of_one_consumer, written,
    written_keeps_ends, written_leaves_rest, written_reads_back, ArrowView,
};
use crate::func::{FunctionView, Pass};
use crate::graph::{requeued, GraphView};
use crate::relay::{ahead, back, linked_times};
use crate::types::ContinuousDomain;
use crate::var::{Variable, VariableBody};
use vstd::prelude::*;
use vstd::std_specs::ops::MulSpec;

verus! {

/// The smallest graph in which a function is applied: a source that holds
/// `values` (node 0), an ordinary node around `arrow` and `coarrow` (node 1)
/// and a sink seeded with `seed` (node 2). The source is connected to the
/// ordinary node once for each of its values, and then the ordinary node to
/// the sink `width` times.
pub struct Pipeline<D, F> {
    pub values: Seq<D>,
    pub arrow: F,
    pub coarrow: Option<F>,
    pub seed: Seq<D>,
    pub width: nat,
}

/// What the edges and the nodes of a pipeline carry at some moment.
///
/// `first` stands on the edges from the source to the ordinary node and
/// `second` on those from there to the sink. `third` and `fourth` stand on
/// the reverse edges, from the sink back to the ordinary node and from there
/// back to the source. The other fields are the values that the arrows hold.
pub struct Load<D> {
    pub first: Option<Seq<D>>,
    pub second: Option<Seq<D>>,
    pub third: Option<Seq<D>>,
    pub fourth: Option<Seq<D>>,
    pub held: Seq<D>,
    pub taken: Seq<D>,
    pub held_back: Seq<D>,
    pub taken_back: Seq<D>,
}

/// The value at position `i` of `given`, if anything was given.
pub open spec fn pick<D>(given: Option<Seq<D>>, i: int) -> Option<D> {
    match given {
        Some(values) => Some(values[i]),
        None => None,
    }
}

/// The four groups of edges of a pipeline, in the order in which a forward
/// pass and then a reverse pass write on them.
pub enum Stage {
    /// From the source to the ordinary node.
    First,
    /// From the ordinary node to the sink.
    Second,
    /// From the sink back to the ordinary node.
    Third,
    /// From the ordinary node back to the source.
    Fourth,
}

impl Stage {
    /// The edges of the stage, in a pipeline with `n` connections into the
    /// ordinary node and `m` out of it.
    pub open spec fn links(self, n: nat, m: nat) -> Seq<Variable> {
        match self {
            Stage::First => ahead(0, n),
            Stage::Second => ahead(n, m),
            Stage::Third => back(n, m),
            Stage::Fourth => back(0, n),
        }
    }

    /// The node at the near end of the edges of the stage.
    pub open spec fn producer(self) -> usize {
        match self {
            Stage::First => 0,
            Stage::Second => 1,
            Stage::Third => 2,
            Stage::Fourth => 1,
        }
    }

    /// The node at the far end of the edges of the stage.
    pub open spec fn consumer(self) -> usize {
        match self {
            Stage::First => 1,
            Stage::Second => 2,
            Stage::Third => 1,
            Stage::Fourth => 0,
        }
    }

    /// What `load` has on the edges of the stage.
    pub open spec fn of<D>(self, load: Load<D>) -> Option<Seq<D>> {
        match self {
            Stage::First => load.first,
            Stage::Second => load.second,
            Stage::Third => load.third,
            Stage::Fourth => load.fourth,
        }
    }

    /// `load` with `values` on the edges of the stage.
    pub open spec fn put<D>(self, load: Load<D>, values: Seq<D>) -> Load<D> {
        match self {
            Stage::First => Load { first: Some(values), ..load },
            Stage::Second => Load { second: Some(values), ..load },
            Stage::Third => Load { third: Some(values), ..load },
            Stage::Fourth => Load { fourth: Some(values), ..load },
        }
    }

    /// The position in the table of edges of edge `i` of the stage.
    pub open spec fn position(self, n: nat, i: int) -> int {
        match self {
            Stage::First => 2 * i,
            Stage::Second => 2 * (n + i),
            Stage::Third => 2 * (n + i) + 1,
            Stage::Fourth => 2 * i + 1,
        }
    }

    /// The stage to which the edge at position `k` belongs.
    pub open spec fn at(n: nat, k: int) -> Stage {
        if k < 2 * n {
            if k % 2 == 0 {
                Stage::First
            } else {
                Stage::Fourth
            }
        } else {
            if k % 2 == 0 {
                Stage::Second
            } else {
                Stage::Third
            }
        }
    }

    /// Which edge of its stage the edge at position `k` is.
    pub open spec fn index_at(n: nat, k: int) -> int {
        if k < 2 * n {
            k / 2
        } else {
            (k - 2 * n) / 2
        }
    }
}

/// The edges of a pipeline with `n` connections into the ordinary node and
/// `m` out of it, carrying `load`.
pub open spec fn piped<D>(n: nat, m: nat, load: Load<D>) -> Seq<VariableBody<D>> {
    Seq::new(
        2 * (n + m),
        |k: int|
            VariableBody {
                value: pick(Stage::at(n, k).of(load), Stage::index_at(n, k)),
                source: Stage::at(n, k).producer(),
                target: Stage::at(n, k).consumer(),
            },
    )
}

impl<D> Load<D> {
    /// Nothing on any edge, nothing held but what the nodes were made with.
    pub open spec fn nothing() -> Self {
        Load {
            first: None,
            second: None,
            third: None,
            fourth: None,
            held: Seq::empty(),
            taken: Seq::empty(),
            held_back: Seq::empty(),
            taken_back: Seq::empty(),
        }
    }

    /// The load when the forward pass has ended and the function answered `out`.
    pub open spec fn forwarded(values: Seq<D>, out: Seq<D>) -> Self {
        Load { first: Some(values), second: Some(out), held: out, taken: out, ..Self::nothing() }
    }
}

impl<D, F> Pipeline<D, F> {
    /// The three nodes after `n` connections from the source to the ordinary
    /// node and then `m` from there to the sink.
    pub open spec fn built(self, n: nat, m: nat) -> GraphView<D, F> {
        linked_times(
            linked_times(
                GraphView::empty().with_node(FunctionView::source(self.values)).with_node(
                    FunctionView::ordinary(Some(self.arrow), self.coarrow),
                ).with_node(FunctionView::sink(self.seed)),
                0,
                1,
                n,
            ),
            1,
            2,
            m,
        )
    }

    /// The pipeline as the wiring operations build it.
    pub open spec fn graph(self) -> GraphView<D, F> {
        self.built(self.values.len(), self.width)
    }

    /// The same three nodes written out, with `n` and `m` connections, carrying `load`.
    pub open spec fn staged(self, n: nat, m: nat, load: Load<D>) -> GraphView<D, F> {
        GraphView {
            nodes: seq![
                FunctionView {
                    f: ArrowView {
                        domain: Seq::empty(),
                        arrow: None,
                        values: self.values,
                        codomain: ahead(0, n),
                    },
                    b: ArrowView {
                        domain: back(0, n),
                        arrow: None,
                        values: load.taken_back,
                        codomain: Seq::empty(),
                    },
                },
                FunctionView {
                    f: ArrowView {
                        domain: ahead(0, n),
                        arrow: Some(self.arrow),
                        values: load.held,
                        codomain: ahead(n, m),
                    },
                    b: ArrowView {
                        domain: back(n, m),
                        arrow: self.coarrow,
                        values: load.held_back,
                        codomain: back(0, n),
                    },
                },
                FunctionView {
                    f: ArrowView {
                        domain: ahead(n, m),
                        arrow: None,
                        values: load.taken,
                        codomain: Seq::empty(),
                    },
                    b: ArrowView {
                        domain: Seq::empty(),
                        arrow: None,
                        values: self.seed,
                        codomain: back(n, m),
                    },
                },
            ],
            slots: piped(n, m, load),
        }
    }

    /// The pipeline carrying `load`.
    pub open spec fn carrying(self, load: Load<D>) -> GraphView<D, F> {
        self.staged(self.values.len(), self.width, load)
    }

    /// The pipeline has something to hand on at each stage, and its edges can be counted.
    pub open spec fn is_sized(self) -> bool {
        &&& 0 < self.values.len()
        &&& 0 < self.width
        &&& 2 * (self.values.len() + self.width) <= usize::MAX
    }
}

/// Two graphs of three nodes are the same graph if they agree edge by edge
/// and arrow by arrow.
proof fn agree<D, F>(a: GraphView<D, F>, b: GraphView<D, F>)
    requires
        a.nodes.len() == 3,
        b.nodes.len() == 3,
        a.slots =~= b.slots,
        forall|id: int, pass: Pass|
            0 <= id < 3 ==> {
                &&& (#[trigger] a.arrow(id, pass)).domain =~= b.arrow(id, pass).domain
                &&& a.arrow(id, pass).codomain =~= b.arrow(id, pass).codomain
                &&& a.arrow(id, pass).values =~= b.arrow(id, pass).values
                &&& a.arrow(id, pass).arrow == b.arrow(id, pass).arrow
            },
    ensures
        a == b,
{
    assert forall|id: int| 0 <= id < 3 implies a.nodes[id] == b.nodes[id] by {
        assert(a.arrow(id, Pass::Forward).domain =~= b.arrow(id, Pass::Forward).domain);
        assert(a.arrow(id, Pass::Backward).domain =~= b.arrow(id, Pass::Backward).domain);
        assert(a.nodes[id].f == b.nodes[id].f);
        assert(a.nodes[id].b == b.nodes[id].b);
    }
    assert(a.nodes =~= b.nodes);
}

impl<D, F> Pipeline<D, F> {
    /// Building a pipeline by connections gives the graph that `staged` describes.
    pub proof fn built_is_staged(self, n: nat, m: nat)
        requires
            2 * (n + m) <= usize::MAX,
        ensures
            self.built(n, m) == self.staged(n, m, Load::nothing()),
        decreases m, n,
    {
        let goal = self.staged(n, m, Load::nothing());
        let made = self.built(n, m);
        if m == 0 && n == 0 {
            agree(made, goal);
        } else if m == 0 {
            let k = (n - 1) as nat;
            self.built_is_staged(k, 0);
            let before = self.staged(k, 0, Load::nothing());
            assert(made == before.linked(0, 1));
            agree(before.linked(0, 1), goal);
        } else {
            let k = (m - 1) as nat;
            self.built_is_staged(n, k);
            let before = self.staged(n, k, Load::nothing());
            assert(made == before.linked(1, 2));
            agree(before.linked(1, 2), goal);
        }
    }
}

impl Stage {
    /// Positions and edges of stages correspond one to one.
    pub proof fn located(self, n: nat, m: nat, i: int)
        requires
            0 <= i < self.links(n, m).len(),
        ensures
            0 <= self.position(n, i) < 2 * (n + m),
            Stage::at(n, self.position(n, i)) == self,
            Stage::index_at(n, self.position(n, i)) == i,
    {
    }

    /// The edge at position `k` is edge `index_at` of stage `at`.
    pub proof fn locates(n: nat, m: nat, k: int)
        requires
            0 <= k < 2 * (n + m),
        ensures
            0 <= Stage::index_at(n, k) < Stage::at(n, k).links(n, m).len(),
            Stage::at(n, k).position(n, Stage::index_at(n, k)) == k,
    {
    }

    /// Edge `i` of the stage lies at its position in the table of edges.
    pub proof fn edge(self, n: nat, m: nat, i: int)
        requires
            2 * (n + m) <= usize::MAX,
            0 <= i < self.links(n, m).len(),
        ensures
            self.links(n, m)[i].index() == self.position(n, i),
    {
    }

    /// The edges of the stage lie within the table, carry what the load has
    /// for them, and all end at the consumer of the stage.
    pub proof fn carried<D>(self, n: nat, m: nat, load: Load<D>)
        requires
            2 * (n + m) <= usize::MAX,
        ensures
            forall|i: int|
                0 <= i < self.links(n, m).len() ==> (#[trigger] self.links(n, m)[i]).within(
                    piped(n, m, load),
                ),
            match self.of(load) {
                Some(values) => values.len() == self.links(n, m).len() ==> carries(
                    piped(n, m, load),
                    self.links(n, m),
                    values,
                ),
                None => true,
            },
            self.links(n, m).len() > 0 ==> distinct(targets(piped(n, m, load), self.links(n, m)))
                == seq![self.consumer()],
    {
        let slots = piped(n, m, load);
        let links = self.links(n, m);
        assert forall|i: int| 0 <= i < links.len() implies (#[trigger] links[i]).within(slots)
            && slots[links[i].index()].target == self.consumer() && slots[links[i].index()].value
            == pick(self.of(load), i) by {
            self.edge(n, m, i);
            self.located(n, m, i);
        }
        if links.len() > 0 {
            targets_of_one_consumer(slots, links, self.consumer());
        }
    }

    /// Writing `values` on the edges of the stage puts them into the load.
    pub proof fn written<D>(self, n: nat, m: nat, load: Load<D>, values: Seq<D>)
        requires
            2 * (n + m) <= usize::MAX,
            values.len() == self.links(n, m).len(),
        ensures
            written(piped(n, m, load), self.links(n, m), values) == piped(
                n,
                m,
                self.put(load, values),
            ),
    {
        let slots = piped(n, m, load);
        let links = self.links(n, m);
        let goal = piped(n, m, self.put(load, values));
        let after = written(slots, links, values);
        self.carried(n, m, load);
        written_keeps_ends(slots, links, values);
        assert forall|j: int| 0 <= j < links.len() implies (#[trigger] links[j]).index()
            == self.position(n, j) && Stage::at(n, self.position(n, j)) == self && Stage::index_at(
            n,
            self.position(n, j),
        ) == j by {
            self.edge(n, m, j);
            self.located(n, m, j);
        }
        assert forall|k: int| 0 <= k < 2 * (n + m) implies after[k] == goal[k] by {
            let i = Stage::index_at(n, k);
            Stage::locates(n, m, k);
            if Stage::at(n, k) == self {
                assert(links[i].index() == k);
                written_reads_back(slots, links, values, i);
            } else {
                written_leaves_rest(slots, links, values, k);
            }
        }
        assert(after =~= goal);
    }
}

impl<D: ContinuousDomain, F: Fn(&[D]) -> Vec<D>> Pipeline<D, F> {
    /// The function answers the values of the source with one value for each
    /// edge that leads on to the sink.
    pub open spec fn answers_in_width(self) -> bool {
        forall|out: Seq<D>| #[trigger] maps(self.arrow, self.values, out) ==> out.len() == self.width
    }

    /// The reverse pass is in order: the sink was seeded with one value for
    /// each edge that reaches it, and the reverse function accepts the values
    /// of the source and answers with one value for each of them, each of
    /// which may be multiplied by the seed of the same position.
    pub open spec fn can_reverse(self) -> bool {
        &&& self.seed.len() == self.width
        &&& self.values.len() <= self.width
        &&& self.coarrow matches Some(g) && accepts(g, self.values) && forall|local: Seq<D>| #[trigger]
            maps(g, self.values, local) ==> {
                &&& local.len() == self.values.len()
                &&& forall|i: int|
                    0 <= i < local.len() ==> self.seed[i].mul_req(#[trigger] local[i])
            }
    }

    /// `out` is a chain-rule product for this pipeline: an answer of the
    /// reverse function to the values of the source, multiplied position by
    /// position, from the left, by the seed of the sink.
    pub open spec fn pulls_back(self, out: Seq<D>) -> bool {
        self.coarrow matches Some(g) && exists|local: Seq<D>| #[trigger]
            maps(g, self.values, local) && chains(self.seed, local, out)
    }

    /// The load when the reverse pass has ended with `grad` at the source,
    /// after a forward pass in which the function answered `out`.
    pub open spec fn reversed(self, out: Seq<D>, grad: Seq<D>) -> Load<D> {
        Load {
            third: Some(self.seed),
            fourth: Some(grad),
            held_back: grad,
            taken_back: grad,
            ..Load::forwarded(self.values, out)
        }
    }

    /// The stage on whose edges node `id` writes in `pass`, if it writes at all.
    pub open spec fn feeds(id: int, pass: Pass) -> Option<Stage> {
        match pass {
            Pass::Forward => if id == 0 {
                Some(Stage::First)
            } else if id == 1 {
                Some(Stage::Second)
            } else {
                None
            },
            Pass::Backward => if id == 2 {
                Some(Stage::Third)
            } else if id == 1 {
                Some(Stage::Fourth)
            } else {
                None
            },
        }
    }

    /// `load` after node `id` has fired in `pass` with `values`: the values
    /// stand on the edges the node feeds, and the node holds them.
    pub open spec fn fired(load: Load<D>, id: int, pass: Pass, values: Seq<D>) -> Load<D> {
        let fed = match Self::feeds(id, pass) {
            Some(stage) => stage.put(load, values),
            None => load,
        };
        match pass {
            Pass::Forward => if id == 1 {
                Load { held: values, ..fed }
            } else if id == 2 {
                Load { taken: values, ..fed }
            } else {
                fed
            },
            Pass::Backward => if id == 1 {
                Load { held_back: values, ..fed }
            } else if id == 0 {
                Load { taken_back: values, ..fed }
            } else {
                fed
            },
        }
    }

    /// One step of a pass over a pipeline, at a node whose arrow takes part:
    /// the arrow holds new values, these stand on the edges of the stage it
    /// feeds, and the consumer of that stage is named.
    proof fn lands(
        self,
        load: Load<D>,
        id: int,
        pass: Pass,
        after: GraphView<D, F>,
        next: Option<Seq<usize>>,
    )
        requires
            self.is_sized(),
            0 <= id < 3,
            self.carrying(load).arrow(id, pass).is_eligible(self.carrying(load).slots),
            self.carrying(load).moves(id, pass, after, next),
            match Self::feeds(id, pass) {
                Some(stage) => after.arrow(id, pass).values.len() == stage.links(
                    self.values.len(),
                    self.width,
                ).len(),
                None => true,
            },
            id == 0 && pass is Forward ==> after.arrow(id, pass).values == self.values,
            id == 2 && pass is Backward ==> after.arrow(id, pass).values == self.seed,
        ensures
            after == self.carrying(Self::fired(load, id, pass, after.arrow(id, pass).values)),
            next == match Self::feeds(id, pass) {
                Some(stage) => Some(seq![stage.consumer()]),
                None => Some(Seq::<usize>::empty()),
            },
    {
        let n = self.values.len();
        let graph = self.carrying(load);
        let values = after.arrow(id, pass).values;
        let goal = Self::fired(load, id, pass, values);
        graph.moves_when_eligible(id, pass, after, next);
        match Self::feeds(id, pass) {
            Some(stage) => {
                stage.carried(n, self.width, load);
                stage.written(n, self.width, load, values);
                assert(piped(n, self.width, goal) =~= piped(n, self.width, stage.put(load, values)));
            },
            None => {
                assert(targets(graph.slots, Seq::<Variable>::empty()) =~= Seq::<usize>::empty());
                assert(piped(n, self.width, goal) =~= piped(n, self.width, load));
            },
        }
        agree(after, self.carrying(goal));
    }

    /// The first step of the forward pass: the source fires and names the ordinary node.
    proof fn forward_first_step(self, after: GraphView<D, F>, next: Option<Seq<usize>>)
        requires
            self.is_sized(),
            self.carrying(Load::nothing()).moves(0, Pass::Forward, after, next),
        ensures
            after == self.carrying(Load { first: Some(self.values), ..Load::nothing() }),
            next == Some(seq![1usize]),
    {
        let graph = self.carrying(Load::nothing());
        assert(graph.nodes[0].f.is_coterminal());
        graph.moves_when_eligible(0, Pass::Forward, after, next);
        self.lands(Load::nothing(), 0, Pass::Forward, after, next);
    }

    /// What the second step of the forward pass leaves in the ordinary node.
    proof fn forward_second_yield(self, after: GraphView<D, F>, next: Option<Seq<usize>>)
        requires
            self.is_sized(),
            self.carrying(Load { first: Some(self.values), ..Load::nothing() }).moves(
                1,
                Pass::Forward,
                after,
                next,
            ),
        ensures
            self.carrying(Load { first: Some(self.values), ..Load::nothing() }).nodes[1].f.is_eligible(
                piped(
                    self.values.len(),
                    self.width,
                    Load { first: Some(self.values), ..Load::nothing() },
                ),
            ),
            maps(self.arrow, self.values, after.nodes[1].f.values),
    {
        let load = Load { first: Some(self.values), ..Load::nothing() };
        let graph = self.carrying(load);
        Stage::First.carried(self.values.len(), self.width, load);
        graph.nodes[1].f.reads_what_stands(graph.slots, self.values);
        graph.moves_when_eligible(1, Pass::Forward, after, next);
    }

    /// The second step of the forward pass: the ordinary node applies its
    /// function to the values of the source and names the sink.
    proof fn forward_second_step(self, after: GraphView<D, F>, next: Option<Seq<usize>>)
        requires
            self.is_sized(),
            self.answers_in_width(),
            self.carrying(Load { first: Some(self.values), ..Load::nothing() }).moves(
                1,
                Pass::Forward,
                after,
                next,
            ),
        ensures
            maps(self.arrow, self.values, after.nodes[1].f.values),
            after == self.carrying(
                Load {
                    first: Some(self.values),
                    second: Some(after.nodes[1].f.values),
                    held: after.nodes[1].f.values,
                    ..Load::nothing()
                },
            ),
            next == Some(seq![2usize]),
    {
        self.forward_second_yield(after, next);
        self.lands(
            Load { first: Some(self.values), ..Load::nothing() },
            1,
            Pass::Forward,
            after,
            next,
        );
    }

    /// What the third step of the forward pass leaves in the sink.
    proof fn forward_third_yield(
        self,
        out: Seq<D>,
        after: GraphView<D, F>,
        next: Option<Seq<usize>>,
    )
        requires
            self.is_sized(),
            out.len() == self.width,
            self.carrying(
                Load {
                    first: Some(self.values),
                    second: Some(out),
                    held: out,
                    ..Load::nothing()
                },
            ).moves(2, Pass::Forward, after, next),
        ensures
            self.carrying(
                Load {
                    first: Some(self.values),
                    second: Some(out),
                    held: out,
                    ..Load::nothing()
                },
            ).nodes[2].f.is_eligible(
                piped(
                    self.values.len(),
                    self.width,
                    Load {
                        first: Some(self.values),
                        second: Some(out),
                        held: out,
                        ..Load::nothing()
                    },
                ),
            ),
            after.nodes[2].f.values == out,
    {
        let load = Load { first: Some(self.values), second: Some(out), held: out, ..Load::nothing() };
        let graph = self.carrying(load);
        Stage::Second.carried(self.values.len(), self.width, load);
        graph.nodes[2].f.reads_what_stands(graph.slots, out);
        assert(graph.nodes[2].f.is_terminal());
        assert(graph.nodes[2].f.passes_through());
        graph.moves_when_eligible(2, Pass::Forward, after, next);
    }

    /// The third step of the forward pass: the sink takes what stands on its
    /// edges and names nobody.
    proof fn forward_third_step(
        self,
        out: Seq<D>,
        after: GraphView<D, F>,
        next: Option<Seq<usize>>,
    )
        requires
            self.is_sized(),
            out.len() == self.width,
            self.carrying(
                Load {
                    first: Some(self.values),
                    second: Some(out),
                    held: out,
                    ..Load::nothing()
                },
            ).moves(2, Pass::Forward, after, next),
        ensures
            after == self.carrying(Load::forwarded(self.values, out)),
            next == Some(Seq::<usize>::empty()),
    {
        self.forward_third_yield(out, after, next);
        self.lands(
            Load { first: Some(self.values), second: Some(out), held: out, ..Load::nothing() },
            2,
            Pass::Forward,
            after,
            next,
        );
    }

    /// Every state that a forward traversal of a pipeline from its source
    /// can be in. There are four, one after each step; in the last two the
    /// ordinary node holds an answer of its function to the values of the source.
    pub proof fn forward_trace(self, after: GraphView<D, F>, queue: Seq<usize>, steps: nat)
        requires
            self.is_sized(),
            self.answers_in_width(),
            self.carrying(Load::nothing()).reaches(0, Pass::Forward, after, queue, steps),
        ensures
            steps <= 3,
            steps == 0 ==> queue == seq![0usize] && after == self.carrying(Load::nothing()),
            steps == 1 ==> queue == seq![1usize] && after == self.carrying(
                Load { first: Some(self.values), ..Load::nothing() },
            ),
            steps >= 2 ==> maps(self.arrow, self.values, after.nodes[1].f.values),
            steps == 2 ==> queue == seq![2usize] && after == self.carrying(
                Load {
                    first: Some(self.values),
                    second: Some(after.nodes[1].f.values),
                    held: after.nodes[1].f.values,
                    ..Load::nothing()
                },
            ),
            steps == 3 ==> queue == Seq::<usize>::empty() && after == self.carrying(
                Load::forwarded(self.values, after.nodes[1].f.values),
            ),
        decreases steps,
    {
        let start = self.carrying(Load::nothing());
        if steps > 0 {
            let (before, waiting) = choose|before: GraphView<D, F>, waiting: Seq<usize>|
                start.reaches(0, Pass::Forward, before, waiting, (steps - 1) as nat)
                    && #[trigger] before.advances(waiting, Pass::Forward, after, queue);
            self.forward_trace(before, waiting, (steps - 1) as nat);
            let next = choose|next: Option<Seq<usize>>| #[trigger]
                before.moves(waiting[0] as int, Pass::Forward, after, next) && queue == requeued(
                    waiting,
                    next,
                );
            if steps == 1 {
                self.forward_first_step(after, next);
                assert(queue =~= seq![1usize]);
            } else if steps == 2 {
                self.forward_second_step(after, next);
                assert(queue =~= seq![2usize]);
            } else if steps == 3 {
                self.forward_third_step(before.nodes[1].f.values, after, next);
                assert(queue =~= Seq::<usize>::empty());
            }
        }
    }

    /// A forward traversal of a pipeline from its source is in order at
    /// every step, if the function accepts the values of the source and
    /// answers with one value for each edge that leads on to the sink.
    pub proof fn can_traverse_forward(self)
        requires
            self.is_sized(),
            accepts(self.arrow, self.values),
            self.answers_in_width(),
        ensures
            self.graph().can_traverse(0, Pass::Forward),
    {
        let n = self.values.len();
        let start = self.graph();
        self.built_is_staged(n, self.width);
        assert forall|after: GraphView<D, F>, queue: Seq<usize>, steps: nat|
            #[trigger] start.reaches(0, Pass::Forward, after, queue, steps) && queue.len()
                > 0 implies after.can_step(queue[0] as int, Pass::Forward) by {
            self.forward_trace(after, queue, steps);
            if steps == 0 {
                assert(after.nodes[0].f.is_coterminal());
            } else if steps == 1 {
                let load = Load { first: Some(self.values), ..Load::nothing() };
                Stage::First.carried(n, self.width, load);
                after.nodes[1].f.reads_what_stands(after.slots, self.values);
            } else {
                let out = after.nodes[1].f.values;
                let load = Load {
                    first: Some(self.values),
                    second: Some(out),
                    held: out,
                    ..Load::nothing()
                };
                Stage::Second.carried(n, self.width, load);
                after.nodes[2].f.reads_what_stands(after.slots, out);
                assert(after.nodes[2].f.is_terminal());
            }
        }
    }

    /// Where the forward pass from the source of a pipeline ends: the
    /// ordinary node holds an answer of its function to the values of the
    /// source, that answer stands on the edges to the sink, and the sink
    /// holds it too.
    pub proof fn forward_outcome(self, after: GraphView<D, F>)
        requires
            self.is_sized(),
            self.answers_in_width(),
            self.graph().settles(0, Pass::Forward, after),
        ensures
            maps(self.arrow, self.values, after.nodes[1].f.values),
            after.nodes[1].f.values.len() == self.width,
            after == self.carrying(Load::forwarded(self.values, after.nodes[1].f.values)),
    {
        let start = self.graph();
        self.built_is_staged(self.values.len(), self.width);
        let steps = choose|steps: nat|
            start.reaches(0, Pass::Forward, after, Seq::<usize>::empty(), steps);
        self.forward_trace(after, Seq::<usize>::empty(), steps);
        assert(steps == 3) by {
            assert(seq![0usize].len() == 1);
            assert(seq![1usize].len() == 1);
            assert(seq![2usize].len() == 1);
        }
    }

    /// One application: when the forward pass from the source of a pipeline
    /// has ended, the ordinary node holds an answer of its function to the
    /// values of the source, and that answer, position by position, is what
    /// stands on the inputs of the sink and what the sink holds.
    pub proof fn single_application(self, after: GraphView<D, F>)
        requires
            self.is_sized(),
            self.answers_in_width(),
            self.graph().settles(0, Pass::Forward, after),
        ensures
            maps(self.arrow, self.values, after.nodes[1].f.values),
            after.nodes[2].f.inputs(after.slots) == after.nodes[1].f.values.map_values(
                |v: D| Some(v),
            ),
            after.nodes[2].f.values == after.nodes[1].f.values,
    {
        self.forward_outcome(after);
        let out = after.nodes[1].f.values;
        Stage::Second.carried(self.values.len(), self.width, Load::forwarded(self.values, out));
        after.nodes[2].f.reads_what_stands(after.slots, out);
    }

    /// The first step of the reverse pass: the sink hands its seed back and
    /// names the ordinary node.
    proof fn reverse_first_step(
        self,
        out: Seq<D>,
        after: GraphView<D, F>,
        next: Option<Seq<usize>>,
    )
        requires
            self.is_sized(),
            self.seed.len() == self.width,
            out.len() == self.width,
            self.carrying(Load::forwarded(self.values, out)).moves(2, Pass::Backward, after, next),
        ensures
            after == self.carrying(
                Load { third: Some(self.seed), ..Load::forwarded(self.values, out) },
            ),
            next == Some(seq![1usize]),
    {
        let load = Load::forwarded(self.values, out);
        let graph = self.carrying(load);
        assert(graph.nodes[2].b.is_coterminal());
        graph.moves_when_eligible(2, Pass::Backward, after, next);
        self.lands(load, 2, Pass::Backward, after, next);
    }

    /// What the ordinary node computes in the reverse pass: a chain-rule
    /// product with one value for each value of the source.
    proof fn reverse_yield(self, load: Load<D>, grad: Seq<D>)
        requires
            self.is_sized(),
            self.can_reverse(),
            load.third == Some(self.seed),
            self.carrying(load).nodes[1].b.yields_backward(
                self.values,
                self.carrying(load).slots,
                grad,
            ),
        ensures
            self.pulls_back(grad),
            grad.len() == self.values.len(),
    {
        let g = self.coarrow->Some_0;
        let graph = self.carrying(load);
        Stage::Third.carried(self.values.len(), self.width, load);
        graph.nodes[1].b.reads_what_stands(graph.slots, self.seed);
        let upstream = graph.nodes[1].b.arguments(graph.slots);
        let local = choose|local: Seq<D>| #[trigger]
            maps(g, self.values, local) && chains(upstream, local, grad);
        assert(maps(g, self.values, local) && chains(self.seed, local, grad));
    }

    /// What the second step of the reverse pass leaves in the ordinary node.
    proof fn reverse_second_yield(
        self,
        out: Seq<D>,
        after: GraphView<D, F>,
        next: Option<Seq<usize>>,
    )
        requires
            self.is_sized(),
            self.can_reverse(),
            out.len() == self.width,
            self.carrying(
                Load { third: Some(self.seed), ..Load::forwarded(self.values, out) },
            ).moves(1, Pass::Backward, after, next),
        ensures
            self.carrying(
                Load { third: Some(self.seed), ..Load::forwarded(self.values, out) },
            ).nodes[1].b.is_eligible(
                piped(
                    self.values.len(),
                    self.width,
                    Load { third: Some(self.seed), ..Load::forwarded(self.values, out) },
                ),
            ),
            self.pulls_back(after.nodes[1].b.values),
            after.nodes[1].b.values.len() == self.values.len(),
    {
        let n = self.values.len();
        let load = Load { third: Some(self.seed), ..Load::forwarded(self.values, out) };
        let graph = self.carrying(load);
        Stage::First.carried(n, self.width, load);
        graph.nodes[1].f.reads_what_stands(graph.slots, self.values);
        Stage::Third.carried(n, self.width, load);
        graph.nodes[1].b.reads_what_stands(graph.slots, self.seed);
        assert(graph.arrow(1, Pass::Backward).is_eligible(graph.slots));
        graph.moves_when_eligible(1, Pass::Backward, after, next);
        self.reverse_yield(load, after.nodes[1].b.values);
    }

    /// The second step of the reverse pass: the ordinary node evaluates its
    /// reverse function where the forward pass entered it, multiplies by
    /// what came back from the sink, and names the source.
    proof fn reverse_second_step(
        self,
        out: Seq<D>,
        after: GraphView<D, F>,
        next: Option<Seq<usize>>,
    )
        requires
            self.is_sized(),
            self.can_reverse(),
            out.len() == self.width,
            self.carrying(
                Load { third: Some(self.seed), ..Load::forwarded(self.values, out) },
            ).moves(1, Pass::Backward, after, next),
        ensures
            self.pulls_back(after.nodes[1].b.values),
            after.nodes[1].b.values.len() == self.values.len(),
            after == self.carrying(
                Load {
                    third: Some(self.seed),
                    fourth: Some(after.nodes[1].b.values),
                    held_back: after.nodes[1].b.values,
                    ..Load::forwarded(self.values, out)
                },
            ),
            next == Some(seq![0usize]),
    {
        self.reverse_second_yield(out, after, next);
        self.lands(
            Load { third: Some(self.seed), ..Load::forwarded(self.values, out) },
            1,
            Pass::Backward,
            after,
            next,
        );
    }

    /// What the third step of the reverse pass leaves in the source.
    proof fn reverse_third_yield(
        self,
        out: Seq<D>,
        grad: Seq<D>,
        after: GraphView<D, F>,
        next: Option<Seq<usize>>,
    )
        requires
            self.is_sized(),
            out.len() == self.width,
            grad.len() == self.values.len(),
            self.carrying(
                Load {
                    third: Some(self.seed),
                    fourth: Some(grad),
                    held_back: grad,
                    ..Load::forwarded(self.values, out)
                },
            ).moves(0, Pass::Backward, after, next),
        ensures
            self.carrying(
                Load {
                    third: Some(self.seed),
                    fourth: Some(grad),
                    held_back: grad,
                    ..Load::forwarded(self.values, out)
                },
            ).nodes[0].b.is_eligible(
                piped(
                    self.values.len(),
                    self.width,
                    Load {
                        third: Some(self.seed),
                        fourth: Some(grad),
                        held_back: grad,
                        ..Load::forwarded(self.values, out)
                    },
                ),
            ),
            after.nodes[0].b.values == grad,
    {
        let load = Load {
            third: Some(self.seed),
            fourth: Some(grad),
            held_back: grad,
            ..Load::forwarded(self.values, out)
        };
        let graph = self.carrying(load);
        Stage::Fourth.carried(self.values.len(), self.width, load);
        graph.nodes[0].b.reads_what_stands(graph.slots, grad);
        assert(graph.nodes[0].b.is_terminal());
        assert(graph.nodes[0].b.passes_through());
        graph.moves_when_eligible(0, Pass::Backward, after, next);
    }

    /// The third step of the reverse pass: the source takes what came back
    /// and names nobody.
    proof fn reverse_third_step(
        self,
        out: Seq<D>,
        grad: Seq<D>,
        after: GraphView<D, F>,
        next: Option<Seq<usize>>,
    )
        requires
            self.is_sized(),
            out.len() == self.width,
            grad.len() == self.values.len(),
            self.carrying(
                Load {
                    third: Some(self.seed),
                    fourth: Some(grad),
                    held_back: grad,
                    ..Load::forwarded(self.values, out)
                },
            ).moves(0, Pass::Backward, after, next),
        ensures
            after == self.carrying(self.reversed(out, grad)),
            next == Some(Seq::<usize>::empty()),
    {
        self.reverse_third_yield(out, grad, after, next);
        self.lands(
            Load {
                third: Some(self.seed),
                fourth: Some(grad),
                held_back: grad,
                ..Load::forwarded(self.values, out)
            },
            0,
            Pass::Backward,
            after,
            next,
        );
    }

    /// Every state that a reverse traversal from the sink can be in, when
    /// it starts where a forward pass has ended with the answer `out`.
    pub proof fn reverse_trace(
        self,
        out: Seq<D>,
        after: GraphView<D, F>,
        queue: Seq<usize>,
        steps: nat,
    )
        requires
            self.is_sized(),
            self.can_reverse(),
            out.len() == self.width,
            self.carrying(Load::forwarded(self.values, out)).reaches(
                2,
                Pass::Backward,
                after,
                queue,
                steps,
            ),
        ensures
            steps <= 3,
            steps == 0 ==> queue == seq![2usize] && after == self.carrying(
                Load::forwarded(self.values, out),
            ),
            steps == 1 ==> queue == seq![1usize] && after == self.carrying(
                Load { third: Some(self.seed), ..Load::forwarded(self.values, out) },
            ),
            steps >= 2 ==> self.pulls_back(after.nodes[1].b.values)
                && after.nodes[1].b.values.len() == self.values.len(),
            steps == 2 ==> queue == seq![0usize] && after == self.carrying(
                Load {
                    third: Some(self.seed),
                    fourth: Some(after.nodes[1].b.values),
                    held_back: after.nodes[1].b.values,
                    ..Load::forwarded(self.values, out)
                },
            ),
            steps == 3 ==> queue == Seq::<usize>::empty() && after == self.carrying(
                self.reversed(out, after.nodes[1].b.values),
            ),
        decreases steps,
    {
        let start = self.carrying(Load::forwarded(self.values, out));
        if steps > 0 {
            let (before, waiting) = choose|before: GraphView<D, F>, waiting: Seq<usize>|
                start.reaches(2, Pass::Backward, before, waiting, (steps - 1) as nat)
                    && #[trigger] before.advances(waiting, Pass::Backward, after, queue);
            self.reverse_trace(out, before, waiting, (steps - 1) as nat);
            let next = choose|next: Option<Seq<usize>>| #[trigger]
                before.moves(waiting[0] as int, Pass::Backward, after, next) && queue == requeued(
                    waiting,
                    next,
                );
            if steps == 1 {
                self.reverse_first_step(out, after, next);
                assert(queue =~= seq![1usize]);
            } else if steps == 2 {
                self.reverse_second_step(out, after, next);
                assert(queue =~= seq![0usize]);
            } else if steps == 3 {
                self.reverse_third_step(out, before.nodes[1].b.values, after, next);
                assert(queue =~= Seq::<usize>::empty());
            }
        }
    }

    /// After the forward pass, a reverse traversal from the sink is in order at every step.
    pub proof fn can_traverse_backward(self, forwarded: GraphView<D, F>)
        requires
            self.is_sized(),
            self.answers_in_width(),
            self.can_reverse(),
            self.graph().settles(0, Pass::Forward, forwarded),
        ensures
            forwarded.can_traverse(2, Pass::Backward),
    {
        let n = self.values.len();
        self.forward_outcome(forwarded);
        let out = forwarded.nodes[1].f.values;
        assert forall|after: GraphView<D, F>, queue: Seq<usize>, steps: nat|
            #[trigger] forwarded.reaches(2, Pass::Backward, after, queue, steps) && queue.len()
                > 0 implies after.can_step(queue[0] as int, Pass::Backward) by {
            self.reverse_trace(out, after, queue, steps);
            let base = Load::forwarded(self.values, out);
            if steps == 0 {
                Stage::Second.carried(n, self.width, base);
                after.nodes[2].f.reads_what_stands(after.slots, out);
                assert(after.nodes[2].b.is_coterminal());
            } else if steps == 1 {
                let load = Load { third: Some(self.seed), ..base };
                Stage::First.carried(n, self.width, load);
                after.nodes[1].f.reads_what_stands(after.slots, self.values);
                Stage::Third.carried(n, self.width, load);
                after.nodes[1].b.reads_what_stands(after.slots, self.seed);
                assert forall|grad: Seq<D>| #[trigger]
                    after.nodes[1].b.yields_backward(
                        self.values,
                        after.slots,
                        grad,
                    ) implies after.nodes[1].b.fits(grad) by {
                    self.reverse_yield(load, grad);
                }
            } else {
                let grad = after.nodes[1].b.values;
                let load = Load {
                    third: Some(self.seed),
                    fourth: Some(grad),
                    held_back: grad,
                    ..base
                };
                Stage::Fourth.carried(n, self.width, load);
                after.nodes[0].b.reads_what_stands(after.slots, grad);
                assert(after.nodes[0].f.arguments(after.slots) =~= Seq::<D>::empty());
                assert(after.nodes[0].b.is_terminal());
            }
        }
    }

    /// The chain rule for one node: when the forward pass from the source has
    /// ended and then the reverse pass from the sink, the source holds, in
    /// its backward arrow, an answer of the reverse function to the values of
    /// the source, multiplied position by position by the seed of the sink.
    /// The reverse pass leaves what the forward pass computed as it is.
    pub proof fn reverse_application(self, forwarded: GraphView<D, F>, after: GraphView<D, F>)
        requires
            self.is_sized(),
            self.answers_in_width(),
            self.can_reverse(),
            self.graph().settles(0, Pass::Forward, forwarded),
            forwarded.settles(2, Pass::Backward, after),
        ensures
            self.pulls_back(after.nodes[0].b.values),
            after.nodes[0].f.values == self.values,
            after.nodes[1].f.values == forwarded.nodes[1].f.values,
            after.nodes[2].f.values == forwarded.nodes[2].f.values,
    {
        self.forward_outcome(forwarded);
        let out = forwarded.nodes[1].f.values;
        let steps = choose|steps: nat|
            forwarded.reaches(2, Pass::Backward, after, Seq::<usize>::empty(), steps);
        self.reverse_trace(out, after, Seq::<usize>::empty(), steps);
        assert(steps == 3) by {
            assert(seq![0usize].len() == 1);
            assert(seq![1usize].len() == 1);
            assert(seq![2usize].len() == 1);
        }
    }
}

} // verus!
