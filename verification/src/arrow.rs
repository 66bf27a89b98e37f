use crate::types::ContinuousDomain;
use crate::var::{Variable, VariableBody};
use vstd::prelude::*;
use vstd::std_specs::ops::MulSpec;

verus! {

/// One direction of a node: the edges it reads, the edges it writes, the
/// function between them if it has one, and the values it computed last.
///
/// The order in which edges were attached is the order of the function's
/// arguments and of its results.
pub struct Arrow<D, F> {
    domain: Vec<Variable>,
    arrow: Option<F>,
    values: Vec<D>,
    codomain: Vec<Variable>,
}

/// The mathematical content of an `Arrow`.
pub struct ArrowView<D, F> {
    pub domain: Seq<Variable>,
    pub arrow: Option<F>,
    pub values: Seq<D>,
    pub codomain: Seq<Variable>,
}

impl<D, F> View for Arrow<D, F> {
    type V = ArrowView<D, F>;

    closed spec fn view(&self) -> ArrowView<D, F> {
        ArrowView {
            domain: self.domain@,
            arrow: self.arrow,
            values: self.values@,
            codomain: self.codomain@,
        }
    }
}

/// Why a step cannot be taken. Each is a mistake in how the graph was put
/// together, not a condition to recover from.
#[derive(Clone, Copy, Debug, PartialEq, Eq, Structural)]
pub enum Fault {
    /// An arrow was to read an input edge that holds no value.
    ReadinessViolation,
    /// What an arrow computed does not match its edges in number.
    ArityMismatch,
}

/// What a step returned, as a mathematical value.
pub open spec fn listed(next: Option<Vec<usize>>) -> Option<Seq<usize>> {
    match next {
        Some(consumers) => Some(consumers@),
        None => None,
    }
}

/// `f` is willing to be called on a slice that holds `xs`.
pub open spec fn accepts<D, F: Fn(&[D]) -> Vec<D>>(f: F, xs: Seq<D>) -> bool {
    forall|a: &[D]| a@ == xs ==> #[trigger] call_requires(f, (a,))
}

/// `ys` is a possible answer of `f` to a slice that holds `xs`.
pub open spec fn maps<D, F: Fn(&[D]) -> Vec<D>>(f: F, xs: Seq<D>, ys: Seq<D>) -> bool {
    exists|a: &[D], r: Vec<D>| a@ == xs && r@ == ys && #[trigger] call_ensures(f, (a,), r)
}

/// `c` is what `a * b` evaluates to, as far as the type's multiplication is specified.
pub open spec fn is_product<D: ContinuousDomain>(a: D, b: D, c: D) -> bool {
    D::obeys_mul_spec() ==> c == a.mul_spec(b)
}

/// `out` holds, position by position, the value that arrived from downstream
/// times the local contribution.
pub open spec fn chains<D: ContinuousDomain>(upstream: Seq<D>, local: Seq<D>, out: Seq<D>) -> bool {
    &&& out.len() == local.len()
    &&& forall|i: int| 0 <= i < local.len() ==> is_product(upstream[i], local[i], #[trigger] out[i])
}

/// The table after `values[i]` has been written on edge `links[i]`, for each
/// `i` in turn.
pub open spec fn written<D>(slots: Seq<VariableBody<D>>, links: Seq<Variable>, values: Seq<D>) -> Seq<
    VariableBody<D>,
>
    decreases links.len(),
{
    if links.len() == 0 {
        slots
    } else {
        let k = links.len() - 1;
        let before = written(slots, links.drop_last(), values);
        before.update(
            links[k].index(),
            VariableBody { value: Some(values[k]), ..before[links[k].index()] },
        )
    }
}

/// The consumers at the far end of `links`, one entry per edge.
pub open spec fn targets<D>(slots: Seq<VariableBody<D>>, links: Seq<Variable>) -> Seq<usize> {
    Seq::new(links.len(), |i: int| slots[links[i].index()].target)
}

/// `s` without repetitions: each entry is kept where it first occurs.
pub open spec fn distinct(s: Seq<usize>) -> Seq<usize>
    decreases s.len(),
{
    if s.len() == 0 {
        Seq::empty()
    } else {
        let init = distinct(s.drop_last());
        if init.contains(s.last()) {
            init
        } else {
            init.push(s.last())
        }
    }
}

impl<D, F> ArrowView<D, F> {
    /// Every handle of the arrow names an edge of `slots`.
    pub open spec fn attached(self, slots: Seq<VariableBody<D>>) -> bool {
        &&& forall|i: int| 0 <= i < self.domain.len() ==> (#[trigger] self.domain[i]).within(slots)
        &&& forall|i: int| 0 <= i < self.codomain.len() ==> (#[trigger] self.codomain[i]).within(slots)
    }

    /// What currently stands on the input edges, in order.
    pub open spec fn inputs(self, slots: Seq<VariableBody<D>>) -> Seq<Option<D>> {
        Seq::new(self.domain.len(), |i: int| slots[self.domain[i].index()].value)
    }

    /// The input values themselves; meaningful when all of them are defined.
    pub open spec fn arguments(self, slots: Seq<VariableBody<D>>) -> Seq<D> {
        Seq::new(self.domain.len(), |i: int| slots[self.domain[i].index()].value->Some_0)
    }

    /// A sink: no function and nothing to write to.
    pub open spec fn is_terminal(self) -> bool {
        self.arrow is None && self.codomain.len() == 0
    }

    /// A source: no function, nothing to read, and values that were given.
    pub open spec fn is_coterminal(self) -> bool {
        self.arrow is None && self.domain.len() == 0 && self.values.len() > 0
    }

    /// Every input edge holds a value.
    pub open spec fn is_applicable(self, slots: Seq<VariableBody<D>>) -> bool {
        forall|i: int|
            0 <= i < self.domain.len() ==> (#[trigger] slots[self.domain[i].index()]).value is Some
    }

    /// The arrow holds computed (or given) values.
    pub open spec fn is_applied(self) -> bool {
        self.values.len() > 0
    }

    /// The arrow takes part when asked to propagate: a source always does; any
    /// other arrow only while it holds no values yet, and then if it is a sink
    /// or all of its inputs are defined.
    pub open spec fn is_eligible(self, slots: Seq<VariableBody<D>>) -> bool {
        self.is_coterminal() || (!self.is_applied() && (self.is_terminal() || self.is_applicable(
            slots,
        )))
    }

    /// Without a function, the arrow hands its inputs on unchanged, once:
    /// when it has inputs and holds no values yet.
    pub open spec fn passes_through(self) -> bool {
        self.arrow is None && self.domain.len() > 0 && self.values.len() == 0
    }

    /// Applying the arrow reads its input edges.
    pub open spec fn reads_domain(self) -> bool {
        self.arrow is Some || self.passes_through()
    }

    /// The same arrow holding `values`.
    pub open spec fn holding(self, values: Seq<D>) -> Self {
        ArrowView { values, ..self }
    }

    /// An arrow that is attached to no edge.
    pub open spec fn unwired(arrow: Option<F>, values: Seq<D>) -> Self {
        ArrowView { domain: Seq::empty(), arrow, values, codomain: Seq::empty() }
    }
}

impl<D: ContinuousDomain, F: Fn(&[D]) -> Vec<D>> ArrowView<D, F> {
    /// `out` is what a forward application may leave in the arrow: a result of
    /// the function on the inputs, the inputs themselves for an arrow that
    /// passes them through, and otherwise the values it already held.
    pub open spec fn yields_forward(self, slots: Seq<VariableBody<D>>, out: Seq<D>) -> bool {
        match self.arrow {
            Some(f) => maps(f, self.arguments(slots), out),
            None => out == if self.passes_through() {
                self.arguments(slots)
            } else {
                self.values
            },
        }
    }

    /// `out` is what a backward application may leave in the arrow when the
    /// node's forward inputs were `forward`: the function is evaluated on
    /// `forward`, and each result is multiplied from the left by the value on
    /// the input edge of the same position.
    pub open spec fn yields_backward(
        self,
        forward: Seq<D>,
        slots: Seq<VariableBody<D>>,
        out: Seq<D>,
    ) -> bool {
        match self.arrow {
            Some(f) => exists|local: Seq<D>| #[trigger]
                maps(f, forward, local) && chains(self.arguments(slots), local, out),
            None => out == if self.passes_through() {
                self.arguments(slots)
            } else {
                self.values
            },
        }
    }

    /// A forward application is in order: the inputs it reads are defined and
    /// the function accepts them.
    pub open spec fn can_apply_forward(self, slots: Seq<VariableBody<D>>) -> bool {
        &&& self.reads_domain() ==> self.is_applicable(slots)
        &&& self.arrow matches Some(f) ==> accepts(f, self.arguments(slots))
    }

    /// A backward application is in order: the inputs it reads are defined,
    /// the function accepts `forward`, answers with no more values than there
    /// are input edges, and each product is one the element type permits.
    pub open spec fn can_apply_backward(self, forward: Seq<D>, slots: Seq<VariableBody<D>>) -> bool {
        &&& self.reads_domain() ==> self.is_applicable(slots)
        &&& self.arrow matches Some(f) ==> {
            &&& accepts(f, forward)
            &&& forall|local: Seq<D>| #[trigger]
                maps(f, forward, local) ==> {
                    &&& local.len() <= self.domain.len()
                    &&& forall|i: int|
                        0 <= i < local.len() ==> self.arguments(slots)[i].mul_req(
                            #[trigger] local[i],
                        )
                }
        }
    }

    /// The values fit the output edges: there is one per edge, unless the arrow is a sink.
    pub open spec fn fits(self, out: Seq<D>) -> bool {
        self.is_terminal() || out.len() == self.codomain.len()
    }

    /// Propagating forward is in order: if the arrow takes part, it can be
    /// applied, and whatever it computes fits its output edges.
    pub open spec fn can_propagate_forward(self, slots: Seq<VariableBody<D>>) -> bool {
        self.is_eligible(slots) ==> {
            &&& self.can_apply_forward(slots)
            &&& forall|out: Seq<D>| #[trigger] self.yields_forward(slots, out) ==> self.fits(out)
        }
    }

    /// Propagating backward is in order, in the same sense.
    pub open spec fn can_propagate_backward(self, forward: Seq<D>, slots: Seq<VariableBody<D>>) -> bool {
        self.is_eligible(slots) ==> {
            &&& self.can_apply_backward(forward, slots)
            &&& forall|out: Seq<D>| #[trigger]
                self.yields_backward(forward, slots, out) ==> self.fits(out)
        }
    }

    /// The effect of handing the arrow's new values on: the arrow holds them,
    /// each stands on its output edge, and `consumers` lists once each node
    /// at the far end of an output edge.
    pub open spec fn emits(
        self,
        slots: Seq<VariableBody<D>>,
        after: Self,
        slots_after: Seq<VariableBody<D>>,
        consumers: Seq<usize>,
    ) -> bool {
        &&& after == self.holding(after.values)
        &&& slots_after == written(slots, self.codomain, after.values)
        &&& consumers == distinct(targets(slots, self.codomain))
    }

    /// One forward firing of the arrow.
    pub open spec fn fires_forward(
        self,
        slots: Seq<VariableBody<D>>,
        after: Self,
        slots_after: Seq<VariableBody<D>>,
        consumers: Seq<usize>,
    ) -> bool {
        &&& self.yields_forward(slots, after.values)
        &&& self.emits(slots, after, slots_after, consumers)
    }

    /// One backward firing of the arrow.
    pub open spec fn fires_backward(
        self,
        forward: Seq<D>,
        slots: Seq<VariableBody<D>>,
        after: Self,
        slots_after: Seq<VariableBody<D>>,
        consumers: Seq<usize>,
    ) -> bool {
        &&& self.yields_backward(forward, slots, after.values)
        &&& self.emits(slots, after, slots_after, consumers)
    }
}

impl<D: ContinuousDomain, F: Fn(&[D]) -> Vec<D>> ArrowView<D, F> {
    /// One forward step of the arrow: it fires if it takes part, and
    /// otherwise nothing changes and nothing is returned.
    pub open spec fn moves_forward(
        self,
        slots: Seq<VariableBody<D>>,
        after: Self,
        slots_after: Seq<VariableBody<D>>,
        next: Option<Seq<usize>>,
    ) -> bool {
        if self.is_eligible(slots) {
            next matches Some(consumers) && self.fires_forward(slots, after, slots_after, consumers)
        } else {
            next is None && after == self && slots_after == slots
        }
    }

    /// One backward step of the arrow, in the same sense.
    pub open spec fn moves_backward(
        self,
        forward: Seq<D>,
        slots: Seq<VariableBody<D>>,
        after: Self,
        slots_after: Seq<VariableBody<D>>,
        next: Option<Seq<usize>>,
    ) -> bool {
        if self.is_eligible(slots) {
            next matches Some(consumers) && self.fires_backward(
                forward,
                slots,
                after,
                slots_after,
                consumers,
            )
        } else {
            next is None && after == self && slots_after == slots
        }
    }

    /// The function of the arrow, if it has one, accepts `xs`.
    pub open spec fn is_callable(self, xs: Seq<D>) -> bool {
        self.arrow matches Some(f) ==> accepts(f, xs)
    }

    /// Whatever the function answers to `forward`, the products that a
    /// backward application forms with it are ones the element type permits.
    pub open spec fn may_multiply(self, forward: Seq<D>, slots: Seq<VariableBody<D>>) -> bool {
        self.arrow matches Some(f) ==> forall|local: Seq<D>| #[trigger]
            maps(f, forward, local) ==> forall|i: int|
                0 <= i < local.len() && i < self.domain.len() ==> self.arguments(slots)[i].mul_req(
                    #[trigger] local[i],
                )
    }

    /// A forward step of the arrow would go wrong in the way `fault` names:
    /// the arrow takes part, and either reads an edge without a value, or
    /// can compute values that do not fit its output edges.
    pub open spec fn faults_forward(self, slots: Seq<VariableBody<D>>, fault: Fault) -> bool {
        &&& self.is_eligible(slots)
        &&& match fault {
            Fault::ReadinessViolation => self.reads_domain() && !self.is_applicable(slots),
            Fault::ArityMismatch => exists|out: Seq<D>| #[trigger]
                self.yields_forward(slots, out) && !self.fits(out),
        }
    }

    /// A backward step of the arrow would go wrong in the way `fault`
    /// names. Besides the ways of a forward step, the function can answer
    /// with more values than there are input edges to multiply them with.
    pub open spec fn faults_backward(
        self,
        forward: Seq<D>,
        slots: Seq<VariableBody<D>>,
        fault: Fault,
    ) -> bool {
        &&& self.is_eligible(slots)
        &&& match fault {
            Fault::ReadinessViolation => self.reads_domain() && !self.is_applicable(slots),
            Fault::ArityMismatch => {
                ||| exists|out: Seq<D>| #[trigger]
                    self.yields_backward(forward, slots, out) && !self.fits(out)
                ||| self.arrow matches Some(f) && exists|local: Seq<D>| #[trigger]
                    maps(f, forward, local) && local.len() > self.domain.len()
            },
        }
    }

    /// A step that would go wrong is not in order.
    pub proof fn fault_is_out_of_order(self, forward: Seq<D>, slots: Seq<VariableBody<D>>, fault: Fault)
        ensures
            self.faults_forward(slots, fault) ==> !self.can_propagate_forward(slots),
            self.faults_backward(forward, slots, fault) ==> !self.can_propagate_backward(
                forward,
                slots,
            ),
    {
    }
}

impl<D: ContinuousDomain, F: Fn(&[D]) -> Vec<D>> ArrowView<D, F> {
    /// Propagating a second time is harmless: an arrow that has a function
    /// and holds values takes no part, whatever stands on the edges. Asking
    /// it to propagate forward is therefore in order, and the step leaves
    /// the arrow and the edges as they are and returns nothing.
    pub proof fn applied_arrow_rests(
        self,
        slots: Seq<VariableBody<D>>,
        after: Self,
        slots_after: Seq<VariableBody<D>>,
        next: Option<Seq<usize>>,
    )
        requires
            self.arrow is Some,
            self.is_applied(),
        ensures
            !self.is_eligible(slots),
            self.can_propagate_forward(slots),
            self.moves_forward(slots, after, slots_after, next) ==> after == self && slots_after
                == slots && next is None,
    {
    }

    /// An arrow that has a function and output edges holds values once it
    /// has fired, so that it does not fire again.
    pub proof fn fired_arrow_rests(
        self,
        slots: Seq<VariableBody<D>>,
        after: Self,
        slots_after: Seq<VariableBody<D>>,
        consumers: Seq<usize>,
        later: Seq<VariableBody<D>>,
    )
        requires
            self.arrow is Some,
            self.codomain.len() > 0,
            self.can_propagate_forward(slots),
            self.is_eligible(slots),
            self.fires_forward(slots, after, slots_after, consumers),
        ensures
            after.is_applied(),
            !after.is_eligible(later),
    {
        assert(self.fits(after.values));
    }
}

impl<D: ContinuousDomain, F: Fn(&[D]) -> Vec<D>> Arrow<D, F> {
    /// An arrow around `function`, with no edges and no values yet.
    pub fn new(function: Option<F>) -> (arrow: Self)
        ensures
            arrow@ == ArrowView::<D, F>::unwired(function, Seq::empty()),
    {
        Arrow { domain: Vec::new(), arrow: function, values: Vec::new(), codomain: Vec::new() }
    }

    /// A source: no function, no edges, and `values` ready to be handed on.
    pub fn coterminal(values: Vec<D>) -> (arrow: Self)
        ensures
            arrow@ == ArrowView::<D, F>::unwired(None, values@),
    {
        Arrow { domain: Vec::new(), arrow: None, values, codomain: Vec::new() }
    }

    /// A sink: no function, no edges, no values.
    pub fn terminal() -> (arrow: Self)
        ensures
            arrow@ == ArrowView::<D, F>::unwired(None, Seq::empty()),
    {
        Arrow { domain: Vec::new(), arrow: None, values: Vec::new(), codomain: Vec::new() }
    }

    /// Whether the arrow is a sink: it has no function and no output edge.
    pub fn is_terminal(&self) -> (yes: bool)
        ensures
            yes == self@.is_terminal(),
    {
        self.arrow.is_none() && self.codomain.len() == 0
    }

    /// Whether the arrow is a source: it has no function and no input edge,
    /// and holds values.
    pub fn is_coterminal(&self) -> (yes: bool)
        ensures
            yes == self@.is_coterminal(),
    {
        self.arrow.is_none() && self.domain.len() == 0 && self.values.len() > 0
    }

    /// Attaches `connection` as the last input edge.
    pub fn add_input(&mut self, connection: Variable)
        ensures
            final(self)@ == (ArrowView {
                domain: old(self)@.domain.push(connection),
                ..old(self)@
            }),
    {
        self.domain.push(connection);
    }

    /// Attaches `connection` as the last output edge.
    pub fn add_output(&mut self, connection: Variable)
        ensures
            final(self)@ == (ArrowView {
                codomain: old(self)@.codomain.push(connection),
                ..old(self)@
            }),
    {
        self.codomain.push(connection);
    }

    /// The contents of the input edges, in order.
    pub fn inputs(&self, slots: &Vec<VariableBody<D>>) -> (found: Vec<Option<D>>)
        requires
            self@.attached(slots@),
        ensures
            found@ == self@.inputs(slots@),
    {
        let mut found: Vec<Option<D>> = Vec::new();
        let mut i: usize = 0;
        while i < self.domain.len()
            invariant
                self@.attached(slots@),
                i <= self.domain.len(),
                found@ == self@.inputs(slots@).take(i as int),
            decreases self.domain.len() - i,
        {
            assert(self@.domain[i as int].within(slots@));
            found.push(slots[self.domain[i].0].value);
            assert(found@ =~= self@.inputs(slots@).take(i + 1));
            i += 1;
        }
        assert(found@ =~= self@.inputs(slots@));
        found
    }

    /// The values the arrow holds.
    pub fn outputs(&self) -> (held: Vec<D>)
        ensures
            held@ == self@.values,
    {
        let mut held: Vec<D> = Vec::new();
        let mut i: usize = 0;
        while i < self.values.len()
            invariant
                i <= self.values.len(),
                held@ == self.values@.take(i as int),
            decreases self.values.len() - i,
        {
            held.push(self.values[i]);
            assert(held@ =~= self.values@.take(i + 1));
            i += 1;
        }
        assert(held@ =~= self.values@);
        held
    }

    /// Whether every input edge holds a value.
    pub fn is_applicable(&self, slots: &Vec<VariableBody<D>>) -> (yes: bool)
        requires
            self@.attached(slots@),
        ensures
            yes == self@.is_applicable(slots@),
    {
        let mut i: usize = 0;
        while i < self.domain.len()
            invariant
                self@.attached(slots@),
                i <= self.domain.len(),
                forall|j: int|
                    0 <= j < i ==> (#[trigger] slots@[self@.domain[j].index()]).value is Some,
            decreases self.domain.len() - i,
        {
            assert(self@.domain[i as int].within(slots@));
            if slots[self.domain[i].0].value.is_none() {
                assert(slots@[self@.domain[i as int].index()].value is None);
                return false;
            }
            i += 1;
        }
        true
    }

    /// Whether the arrow holds values.
    pub fn is_applied(&self) -> (yes: bool)
        ensures
            yes == self@.is_applied(),
    {
        self.values.len() > 0
    }

    /// The values on the input edges, all of which are defined.
    fn gather(&self, slots: &Vec<VariableBody<D>>) -> (data: Vec<D>)
        requires
            self@.attached(slots@),
            self@.is_applicable(slots@),
        ensures
            data@ == self@.arguments(slots@),
    {
        let mut data: Vec<D> = Vec::new();
        let mut i: usize = 0;
        while i < self.domain.len()
            invariant
                self@.attached(slots@),
                self@.is_applicable(slots@),
                i <= self.domain.len(),
                data@ == self@.arguments(slots@).take(i as int),
            decreases self.domain.len() - i,
        {
            assert(self@.domain[i as int].within(slots@));
            assert(slots@[self@.domain[i as int].index()].value is Some);
            data.push(slots[self.domain[i].0].value.unwrap());
            assert(data@ =~= self@.arguments(slots@).take(i + 1));
            i += 1;
        }
        assert(data@ =~= self@.arguments(slots@));
        data
    }

    /// Computes the arrow's values from its inputs.
    ///
    /// With a function, the values are its result on the inputs. Without one,
    /// an arrow that has inputs and holds nothing yet takes its inputs as its
    /// values; any other arrow keeps what it holds.
    pub fn apply_f(&mut self, slots: &Vec<VariableBody<D>>)
        requires
            old(self)@.attached(slots@),
            old(self)@.can_apply_forward(slots@),
        ensures
            final(self)@ == old(self)@.holding(final(self)@.values),
            old(self)@.yields_forward(slots@, final(self)@.values),
    {
        if let Some(f) = &self.arrow {
            let data = self.gather(slots);
            self.values = f(data.as_slice());
        } else if self.domain.len() > 0 && self.values.len() == 0 {
            self.values = self.gather(slots);
        }
    }

    /// Computes the arrow's values for the reverse pass, given the values
    /// that entered the node on the way forward.
    ///
    /// With a function, it is evaluated on `forward`, and each of its results
    /// is multiplied from the left by the value on the input edge of the same
    /// position. Without one, the arrow behaves as in `apply_f`.
    pub fn apply_b(&mut self, forward: &[&D], slots: &Vec<VariableBody<D>>)
        requires
            old(self)@.attached(slots@),
            old(self)@.can_apply_backward(pointees(forward@), slots@),
        ensures
            final(self)@ == old(self)@.holding(final(self)@.values),
            old(self)@.yields_backward(pointees(forward@), slots@, final(self)@.values),
    {
        if let Some(f) = &self.arrow {
            let data = copied(forward);
            let upstream = self.gather(slots);
            let local = f(data.as_slice());
            assert(maps(*f, pointees(forward@), local@));
            self.values = chain(&upstream, local);
        } else if self.domain.len() > 0 && self.values.len() == 0 {
            self.values = self.gather(slots);
        }
    }

    /// Writes the arrow's values on its output edges and names the nodes that read them.
    fn emit(&self, slots: &mut Vec<VariableBody<D>>) -> (consumers: Vec<usize>)
        requires
            self@.attached(old(slots)@),
            self@.fits(self@.values),
        ensures
            final(slots)@ == written(old(slots)@, self@.codomain, self@.values),
            consumers@ == distinct(targets(old(slots)@, self@.codomain)),
    {
        let mut i: usize = 0;
        while i < self.codomain.len()
            invariant
                self@.attached(old(slots)@),
                self@.fits(self@.values),
                i <= self.codomain.len(),
                slots@.len() == old(slots)@.len(),
                slots@ == written(old(slots)@, self@.codomain.take(i as int), self@.values),
            decreases self.codomain.len() - i,
        {
            assert(self@.codomain[i as int].within(slots@));
            assert(self@.codomain.take(i + 1).drop_last() =~= self@.codomain.take(i as int));
            slots[self.codomain[i].0].value = Some(self.values[i]);
            i += 1;
        }
        assert(self@.codomain.take(i as int) =~= self@.codomain);
        proof {
            written_keeps_ends(old(slots)@, self@.codomain, self@.values);
        }
        let mut consumers: Vec<usize> = Vec::new();
        let mut j: usize = 0;
        while j < self.codomain.len()
            invariant
                self@.attached(old(slots)@),
                j <= self.codomain.len(),
                slots@.len() == old(slots)@.len(),
                forall|k: int|
                    0 <= k < slots@.len() ==> (#[trigger] slots@[k]).target == old(slots)@[k].target,
                consumers@ == distinct(targets(old(slots)@, self@.codomain).take(j as int)),
            decreases self.codomain.len() - j,
        {
            assert(self@.codomain[j as int].within(slots@));
            let target: usize = slots[self.codomain[j].0].target;
            assert(targets(old(slots)@, self@.codomain).take(j + 1).drop_last() =~= targets(
                old(slots)@,
                self@.codomain,
            ).take(j as int));
            if !holds(&consumers, target) {
                consumers.push(target);
            }
            j += 1;
        }
        assert(targets(old(slots)@, self@.codomain).take(j as int) =~= targets(
            old(slots)@,
            self@.codomain,
        ));
        consumers
    }

    /// One forward step of the arrow, if it takes part.
    ///
    /// An arrow that does not take part is left alone and `None` is returned.
    /// One that does is applied, its values are written on its output edges,
    /// and the nodes that read those edges come back, each named once, in the
    /// order of the edges.
    pub fn propagate_forward(&mut self, slots: &mut Vec<VariableBody<D>>) -> (next: Option<
        Vec<usize>,
    >)
        requires
            old(self)@.attached(old(slots)@),
            old(self)@.can_propagate_forward(old(slots)@),
        ensures
            old(self)@.moves_forward(old(slots)@, final(self)@, final(slots)@, listed(next)),
    {
        if self.is_coterminal() || (!self.is_applied() && (self.is_terminal()
            || self.is_applicable(slots))) {
            self.apply_f(slots);
            Some(self.emit(slots))
        } else {
            None
        }
    }

    /// One backward step of the arrow, if it takes part; `forward` holds the
    /// values that entered the node on the way forward.
    ///
    /// It differs from `propagate_forward` only in how the arrow is applied.
    pub fn propagate_backward(&mut self, forward: &[&D], slots: &mut Vec<VariableBody<D>>) -> (next:
        Option<Vec<usize>>)
        requires
            old(self)@.attached(old(slots)@),
            old(self)@.can_propagate_backward(pointees(forward@), old(slots)@),
        ensures
            old(self)@.moves_backward(
                pointees(forward@),
                old(slots)@,
                final(self)@,
                final(slots)@,
                listed(next),
            ),
    {
        if self.is_coterminal() || (!self.is_applied() && (self.is_terminal()
            || self.is_applicable(slots))) {
            self.apply_b(forward, slots);
            Some(self.emit(slots))
        } else {
            None
        }
    }
    /// As `propagate_forward`, for a caller who cannot tell beforehand
    /// whether the step is in order. The step is taken if it is. If the arrow
    /// takes part and would read an edge without a value, or if what it
    /// computes does not fit its output edges, nothing is changed and the
    /// fault is returned.
    pub fn try_propagate_forward(&mut self, slots: &mut Vec<VariableBody<D>>) -> (outcome: Result<
        Option<Vec<usize>>,
        Fault,
    >)
        requires
            old(self)@.attached(old(slots)@),
            old(self)@.is_callable(old(self)@.arguments(old(slots)@)),
        ensures
            match outcome {
                Ok(next) => {
                    &&& old(self)@.moves_forward(
                        old(slots)@,
                        final(self)@,
                        final(slots)@,
                        listed(next),
                    )
                    &&& next is Some ==> old(self)@.fits(final(self)@.values)
                },
                Err(fault) => {
                    &&& old(self)@.faults_forward(old(slots)@, fault)
                    &&& final(self)@ == old(self)@
                    &&& final(slots)@ == old(slots)@
                },
            },
            old(self)@.can_propagate_forward(old(slots)@) ==> outcome is Ok,
    {
        if !(self.is_coterminal() || (!self.is_applied() && (self.is_terminal()
            || self.is_applicable(slots)))) {
            return Ok(None);
        }
        if self.arrow.is_some() || (self.domain.len() > 0 && self.values.len() == 0) {
            if !self.is_applicable(slots) {
                return Err(Fault::ReadinessViolation);
            }
            let out = match &self.arrow {
                Some(f) => {
                    let data = self.gather(slots);
                    f(data.as_slice())
                },
                None => self.gather(slots),
            };
            assert(self@.yields_forward(slots@, out@));
            if !(self.is_terminal() || out.len() == self.codomain.len()) {
                return Err(Fault::ArityMismatch);
            }
            self.values = out;
        } else {
            assert(self@.yields_forward(slots@, self@.values));
            if !(self.is_terminal() || self.values.len() == self.codomain.len()) {
                return Err(Fault::ArityMismatch);
            }
        }
        Ok(Some(self.emit(slots)))
    }

    /// As `propagate_backward`, for a caller who cannot tell beforehand
    /// whether the step is in order; see `try_propagate_forward`. A function
    /// that answers with more values than the arrow has input edges is an
    /// arity mismatch too.
    pub fn try_propagate_backward(
        &mut self,
        forward: &[&D],
        slots: &mut Vec<VariableBody<D>>,
    ) -> (outcome: Result<Option<Vec<usize>>, Fault>)
        requires
            old(self)@.attached(old(slots)@),
            old(self)@.is_callable(pointees(forward@)),
            old(self)@.may_multiply(pointees(forward@), old(slots)@),
        ensures
            match outcome {
                Ok(next) => {
                    &&& old(self)@.moves_backward(
                        pointees(forward@),
                        old(slots)@,
                        final(self)@,
                        final(slots)@,
                        listed(next),
                    )
                    &&& next is Some ==> old(self)@.fits(final(self)@.values)
                },
                Err(fault) => {
                    &&& old(self)@.faults_backward(pointees(forward@), old(slots)@, fault)
                    &&& final(self)@ == old(self)@
                    &&& final(slots)@ == old(slots)@
                },
            },
            old(self)@.can_propagate_backward(pointees(forward@), old(slots)@) ==> outcome is Ok,
    {
        if !(self.is_coterminal() || (!self.is_applied() && (self.is_terminal()
            || self.is_applicable(slots)))) {
            return Ok(None);
        }
        if self.arrow.is_some() || (self.domain.len() > 0 && self.values.len() == 0) {
            if !self.is_applicable(slots) {
                return Err(Fault::ReadinessViolation);
            }
            let upstream = self.gather(slots);
            let out = match &self.arrow {
                Some(f) => {
                    let data = copied(forward);
                    let local = f(data.as_slice());
                    assert(maps(*f, pointees(forward@), local@));
                    if local.len() > upstream.len() {
                        return Err(Fault::ArityMismatch);
                    }
                    chain(&upstream, local)
                },
                None => upstream,
            };
            assert(self@.yields_backward(pointees(forward@), slots@, out@));
            if !(self.is_terminal() || out.len() == self.codomain.len()) {
                return Err(Fault::ArityMismatch);
            }
            self.values = out;
        } else {
            assert(self@.yields_backward(pointees(forward@), slots@, self@.values));
            if !(self.is_terminal() || self.values.len() == self.codomain.len()) {
                return Err(Fault::ArityMismatch);
            }
        }
        Ok(Some(self.emit(slots)))
    }

}

impl<D: ContinuousDomain, F: Fn(&[D]) -> Vec<D>> Default for Arrow<D, F> {
    /// The default arrow is a sink.
    fn default() -> (arrow: Self)
        ensures
            arrow@ == ArrowView::<D, F>::unwired(None, Seq::empty()),
    {
        Arrow::terminal()
    }
}

impl<D: ContinuousDomain, F: Fn(&[D]) -> Vec<D> + Clone> Clone for Arrow<D, F> {
    /// A copy that is attached to no edge. It holds the values of the arrow
    /// it was made from and a clone of that arrow's function.
    fn clone(&self) -> (copy: Self)
        ensures
            copy@.domain == Seq::<Variable>::empty(),
            copy@.codomain == Seq::<Variable>::empty(),
            copy@.values == self@.values,
            match self@.arrow {
                Some(f) => copy@.arrow matches Some(g) && cloned(f, g),
                None => copy@.arrow is None,
            },
    {
        Arrow {
            domain: Vec::new(),
            arrow: match &self.arrow {
                Some(f) => Some(f.clone()),
                None => None,
            },
            values: self.outputs(),
            codomain: Vec::new(),
        }
    }
}

/// The values behind a sequence of references.
pub open spec fn pointees<D>(refs: Seq<&D>) -> Seq<D> {
    refs.map_values(|r: &D| *r)
}

/// Copies the values behind `refs` into a vector.
fn copied<D: ContinuousDomain>(refs: &[&D]) -> (data: Vec<D>)
    ensures
        data@ == pointees(refs@),
{
    let mut data: Vec<D> = Vec::new();
    let mut i: usize = 0;
    while i < refs.len()
        invariant
            i <= refs.len(),
            data@ == pointees(refs@).take(i as int),
        decreases refs.len() - i,
    {
        data.push(*refs[i]);
        assert(data@ =~= pointees(refs@).take(i + 1));
        i += 1;
    }
    assert(data@ =~= pointees(refs@));
    data
}

/// Whether `x` occurs in `list`.
fn holds(list: &Vec<usize>, x: usize) -> (found: bool)
    ensures
        found == list@.contains(x),
{
    let mut i: usize = 0;
    while i < list.len()
        invariant
            i <= list.len(),
            forall|j: int| 0 <= j < i ==> list@[j] != x,
        decreases list.len() - i,
    {
        if list[i] == x {
            return true;
        }
        i += 1;
    }
    false
}

/// Multiplies each local contribution from the left by the value that arrived
/// from downstream at the same position.
pub fn chain<D: ContinuousDomain>(upstream: &Vec<D>, local: Vec<D>) -> (out: Vec<D>)
    requires
        local@.len() <= upstream@.len(),
        forall|i: int| 0 <= i < local@.len() ==> upstream@[i].mul_req(#[trigger] local@[i]),
    ensures
        chains(upstream@, local@, out@),
{
    let mut out: Vec<D> = Vec::new();
    let mut i: usize = 0;
    while i < local.len()
        invariant
            i <= local.len(),
            local@.len() <= upstream@.len(),
            forall|k: int| 0 <= k < local@.len() ==> upstream@[k].mul_req(#[trigger] local@[k]),
            out@.len() == i,
            forall|k: int| 0 <= k < i ==> is_product(upstream@[k], local@[k], #[trigger] out@[k]),
        decreases local.len() - i,
    {
        assert(upstream@[i as int].mul_req(local@[i as int]));
        out.push(upstream[i] * local[i]);
        i += 1;
    }
    out
}

/// Writing values on edges changes neither the number of edges nor the ends of any.
pub proof fn written_keeps_ends<D>(slots: Seq<VariableBody<D>>, links: Seq<Variable>, values: Seq<D>)
    requires
        forall|i: int| 0 <= i < links.len() ==> (#[trigger] links[i]).within(slots),
    ensures
        written(slots, links, values).len() == slots.len(),
        forall|k: int|
            0 <= k < slots.len() ==> {
                &&& (#[trigger] written(slots, links, values)[k]).source == slots[k].source
                &&& written(slots, links, values)[k].target == slots[k].target
            },
    decreases links.len(),
{
    if links.len() > 0 {
        written_keeps_ends(slots, links.drop_last(), values);
    }
}

/// `values` stand on `links`, position by position.
pub open spec fn carries<D>(slots: Seq<VariableBody<D>>, links: Seq<Variable>, values: Seq<D>) -> bool {
    &&& links.len() == values.len()
    &&& forall|i: int|
        0 <= i < links.len() ==> (#[trigger] slots[links[i].index()]).value == Some(values[i])
}

impl<D, F> ArrowView<D, F> {
    /// An arrow whose input edges carry `values` reads exactly those, and is ready.
    pub proof fn reads_what_stands(self, slots: Seq<VariableBody<D>>, values: Seq<D>)
        requires
            carries(slots, self.domain, values),
        ensures
            self.arguments(slots) == values,
            self.inputs(slots) == values.map_values(|v: D| Some(v)),
            self.is_applicable(slots),
    {
        assert forall|i: int| 0 <= i < self.domain.len() implies self.arguments(slots)[i]
            == values[i] && self.inputs(slots)[i] == Some(values[i]) by {
            assert(slots[self.domain[i].index()].value == Some(values[i]));
        }
        assert(self.arguments(slots) =~= values);
        assert(self.inputs(slots) =~= values.map_values(|v: D| Some(v)));
    }
}

/// Edges that all end at one node name that node, once.
pub proof fn targets_of_one_consumer<D>(
    slots: Seq<VariableBody<D>>,
    links: Seq<Variable>,
    consumer: usize,
)
    requires
        links.len() > 0,
        forall|i: int|
            0 <= i < links.len() ==> (#[trigger] slots[links[i].index()]).target == consumer,
    ensures
        distinct(targets(slots, links)) == seq![consumer],
{
    let ends = targets(slots, links);
    assert forall|i: int| 0 <= i < ends.len() implies ends[i] == consumer by {
        assert(slots[links[i].index()].target == consumer);
    }
    distinct_of_constant(ends, consumer);
}

/// A sequence that repeats one value has that value as its only distinct entry.
pub proof fn distinct_of_constant(s: Seq<usize>, c: usize)
    requires
        s.len() > 0,
        forall|i: int| 0 <= i < s.len() ==> s[i] == c,
    ensures
        distinct(s) == seq![c],
    decreases s.len(),
{
    if s.len() == 1 {
        assert(distinct(s.drop_last()) =~= Seq::<usize>::empty());
        assert(distinct(s) =~= seq![c]);
    } else {
        distinct_of_constant(s.drop_last(), c);
        assert(seq![c][0] == c);
    }
}

/// Whatever `distinct` keeps was there before.
pub proof fn distinct_is_drawn_from(s: Seq<usize>)
    ensures
        forall|x: usize| distinct(s).contains(x) ==> s.contains(x),
    decreases s.len(),
{
    if s.len() > 0 {
        distinct_is_drawn_from(s.drop_last());
        assert forall|x: usize| distinct(s).contains(x) implies s.contains(x) by {
            let init = distinct(s.drop_last());
            if init.contains(x) {
                assert(s.drop_last().contains(x));
                let j = choose|j: int| 0 <= j < s.drop_last().len() && s.drop_last()[j] == x;
                assert(s[j] == x);
            } else {
                let j = choose|j: int| 0 <= j < distinct(s).len() && distinct(s)[j] == x;
                assert(x == s.last());
                assert(s[s.len() - 1] == x);
            }
        }
    }
}

/// A value stands on its edge after the writes, provided that no later
/// write goes to the same edge.
pub proof fn written_reads_back<D>(
    slots: Seq<VariableBody<D>>,
    links: Seq<Variable>,
    values: Seq<D>,
    i: int,
)
    requires
        forall|j: int| 0 <= j < links.len() ==> (#[trigger] links[j]).within(slots),
        0 <= i < links.len(),
        forall|j: int| i < j < links.len() ==> (#[trigger] links[j]).index() != links[i].index(),
    ensures
        written(slots, links, values)[links[i].index()] == (VariableBody {
            value: Some(values[i]),
            ..slots[links[i].index()]
        }),
    decreases links.len(),
{
    written_keeps_ends(slots, links.drop_last(), values);
    if i < links.len() - 1 {
        written_reads_back(slots, links.drop_last(), values, i);
        assert(links[links.len() - 1].index() != links[i].index());
    }
}

/// An edge that none of the writes names is as it was.
pub proof fn written_leaves_rest<D>(
    slots: Seq<VariableBody<D>>,
    links: Seq<Variable>,
    values: Seq<D>,
    k: int,
)
    requires
        forall|j: int| 0 <= j < links.len() ==> (#[trigger] links[j]).within(slots),
        0 <= k < slots.len(),
        forall|j: int| 0 <= j < links.len() ==> (#[trigger] links[j]).index() != k,
    ensures
        written(slots, links, values)[k] == slots[k],
    decreases links.len(),
{
    if links.len() > 0 {
        written_keeps_ends(slots, links.drop_last(), values);
        written_leaves_rest(slots, links.drop_last(), values, k);
        assert(links[links.len() - 1].index() != k);
    }
}

/// Writing defines: afterwards every edge that was written on holds a value,
/// and so does every edge that held one before.
pub proof fn written_defines<D>(slots: Seq<VariableBody<D>>, links: Seq<Variable>, values: Seq<D>)
    requires
        forall|j: int| 0 <= j < links.len() ==> (#[trigger] links[j]).within(slots),
    ensures
        forall|j: int|
            0 <= j < links.len() ==> (#[trigger] written(slots, links, values)[links[j].index()]).value
                is Some,
        forall|k: int|
            0 <= k < slots.len() && slots[k].value is Some ==> (#[trigger] written(
                slots,
                links,
                values,
            )[k]).value is Some,
    decreases links.len(),
{
    if links.len() > 0 {
        let before = written(slots, links.drop_last(), values);
        written_defines(slots, links.drop_last(), values);
        written_keeps_ends(slots, links.drop_last(), values);
        let last = links[links.len() - 1];
        assert forall|j: int| 0 <= j < links.len() implies (#[trigger] written(
            slots,
            links,
            values,
        )[links[j].index()]).value is Some by {
            if j < links.len() - 1 && links[j].index() != last.index() {
                assert(links.drop_last()[j] == links[j]);
                assert(before[links.drop_last()[j].index()].value is Some);
            }
        }
    }
}

/// `distinct` keeps each value that occurs.
pub proof fn distinct_covers(s: Seq<usize>)
    ensures
        forall|x: usize| s.contains(x) ==> distinct(s).contains(x),
    decreases s.len(),
{
    if s.len() > 0 {
        distinct_covers(s.drop_last());
        let init = distinct(s.drop_last());
        assert forall|x: usize| s.contains(x) implies distinct(s).contains(x) by {
            let j = choose|j: int| 0 <= j < s.len() && s[j] == x;
            if j < s.len() - 1 {
                assert(s.drop_last()[j] == x);
                assert(s.drop_last().contains(x));
                assert(init.contains(x));
                let k = choose|k: int| 0 <= k < init.len() && init[k] == x;
                assert(distinct(s)[k] == x);
            } else if init.contains(x) {
            } else {
                assert(distinct(s)[init.len() as int] == x);
            }
        }
    }
}

/// `distinct` keeps no value twice.
pub proof fn distinct_has_no_repeats(s: Seq<usize>)
    ensures
        distinct(s).no_duplicates(),
    decreases s.len(),
{
    if s.len() > 0 {
        distinct_has_no_repeats(s.drop_last());
    }
}

} // verus!
