use crate::arrow::{listed, pointees, Arrow, ArrowView, Fault};
use crate::types::ContinuousDomain;
use crate::var::{Variable, VariableBody};
use vstd::prelude::*;

verus! {

/// A node of the graph: one arrow for the forward pass and one for the
/// reverse pass. The two share nothing but the node they belong to.
pub struct Function<D, F> {
    pub f: Arrow<D, F>,
    pub b: Arrow<D, F>,
}

/// The mathematical content of a `Function`.
pub struct FunctionView<D, F> {
    pub f: ArrowView<D, F>,
    pub b: ArrowView<D, F>,
}

impl<D, F> View for Function<D, F> {
    type V = FunctionView<D, F>;

    open spec fn view(&self) -> FunctionView<D, F> {
        FunctionView { f: self.f@, b: self.b@ }
    }
}

/// The two passes over a graph.
#[derive(Clone, Copy, Debug)]
pub enum Pass {
    /// From the sources towards the sinks, through the forward arrows.
    Forward,
    /// From the sinks back towards the sources, through the backward arrows.
    Backward,
}

impl<D, F> FunctionView<D, F> {
    /// The arrow that serves `pass`.
    pub open spec fn arrow(self, pass: Pass) -> ArrowView<D, F> {
        match pass {
            Pass::Forward => self.f,
            Pass::Backward => self.b,
        }
    }

    /// An ordinary node before it is wired: `arrow` computes the forward
    /// pass and `coarrow` the reverse pass.
    pub open spec fn ordinary(arrow: Option<F>, coarrow: Option<F>) -> Self {
        FunctionView {
            f: ArrowView::unwired(arrow, Seq::empty()),
            b: ArrowView::unwired(coarrow, Seq::empty()),
        }
    }

    /// A source before it is wired: its forward arrow holds `values`.
    pub open spec fn source(values: Seq<D>) -> Self {
        FunctionView {
            f: ArrowView::unwired(None, values),
            b: ArrowView::unwired(None, Seq::empty()),
        }
    }

    /// A sink before it is wired: its backward arrow holds `values`.
    pub open spec fn sink(values: Seq<D>) -> Self {
        FunctionView {
            f: ArrowView::unwired(None, Seq::empty()),
            b: ArrowView::unwired(None, values),
        }
    }

    /// Neither arrow is attached to an edge.
    pub open spec fn is_unwired(self) -> bool {
        &&& self.f.domain.len() == 0
        &&& self.f.codomain.len() == 0
        &&& self.b.domain.len() == 0
        &&& self.b.codomain.len() == 0
    }
}

/// What a node offers on its own, before and after it is wired into a graph.
pub trait FunctionOn<D: ContinuousDomain, F: Fn(&[D]) -> Vec<D>>: Sized + View<V = FunctionView<D, F>> {
    /// An ordinary node: `arrow` computes the forward pass, `coarrow` the reverse pass.
    fn new(arrow: Option<F>, coarrow: Option<F>) -> (node: Self)
        ensures
            node@ == FunctionView::<D, F>::ordinary(arrow, coarrow),
    ;

    /// A source: its forward arrow starts out holding `values`.
    fn coterminal(values: Vec<D>) -> (node: Self)
        ensures
            node@ == FunctionView::<D, F>::source(values@),
    ;

    /// A sink: its backward arrow starts out holding `values`, the seed of a reverse pass.
    fn terminal(values: Vec<D>) -> (node: Self)
        ensures
            node@ == FunctionView::<D, F>::sink(values@),
    ;

    /// Hands the forward arrow to `f` and returns what `f` makes of it.
    fn on_f<T, G: Fn(&Arrow<D, F>) -> T>(&self, f: G) -> (seen: T)
        requires
            forall|a: &Arrow<D, F>| a@ == self@.f ==> #[trigger] call_requires(f, (a,)),
        ensures
            exists|a: &Arrow<D, F>| a@ == self@.f && #[trigger] call_ensures(f, (a,), seen),
    ;

    /// Hands the backward arrow to `f` and returns what `f` makes of it.
    fn on_b<T, G: Fn(&Arrow<D, F>) -> T>(&self, f: G) -> (seen: T)
        requires
            forall|a: &Arrow<D, F>| a@ == self@.b ==> #[trigger] call_requires(f, (a,)),
        ensures
            exists|a: &Arrow<D, F>| a@ == self@.b && #[trigger] call_ensures(f, (a,), seen),
    ;

    /// Whether the node is a source of the forward pass.
    fn is_coterminal(&self) -> (yes: bool)
        ensures
            yes == self@.f.is_coterminal(),
    ;

    /// Attaches `var` as the last input edge of the forward arrow.
    fn add_input(&mut self, var: &Variable)
        ensures
            final(self)@.f == (ArrowView { domain: old(self)@.f.domain.push(*var), ..old(self)@.f }),
            final(self)@.b == old(self)@.b,
    ;

    /// Attaches `var` as the last output edge of the forward arrow.
    fn add_output(&mut self, var: &Variable)
        ensures
            final(self)@.f == (ArrowView {
                codomain: old(self)@.f.codomain.push(*var),
                ..old(self)@.f
            }),
            final(self)@.b == old(self)@.b,
    ;
}

impl<D: ContinuousDomain, F: Fn(&[D]) -> Vec<D>> FunctionOn<D, F> for Function<D, F> {
    fn new(arrow: Option<F>, coarrow: Option<F>) -> (node: Self) {
        Function { f: Arrow::new(arrow), b: Arrow::new(coarrow) }
    }

    fn coterminal(values: Vec<D>) -> (node: Self) {
        Function { f: Arrow::coterminal(values), b: Arrow::terminal() }
    }

    fn terminal(values: Vec<D>) -> (node: Self) {
        Function { f: Arrow::terminal(), b: Arrow::coterminal(values) }
    }

    fn on_f<T, G: Fn(&Arrow<D, F>) -> T>(&self, f: G) -> (seen: T) {
        f(&self.f)
    }

    fn on_b<T, G: Fn(&Arrow<D, F>) -> T>(&self, f: G) -> (seen: T) {
        f(&self.b)
    }

    fn is_coterminal(&self) -> (yes: bool) {
        self.f.is_coterminal()
    }

    fn add_input(&mut self, var: &Variable) {
        self.f.add_input(*var);
    }

    fn add_output(&mut self, var: &Variable) {
        self.f.add_output(*var);
    }
}

impl<D: ContinuousDomain, F: Fn(&[D]) -> Vec<D> + Clone> Clone for Function<D, F> {
    /// A copy of the node that is not wired into any graph.
    fn clone(&self) -> (copy: Self)
        ensures
            copy@.is_unwired(),
            copy@.f.values == self@.f.values,
            copy@.b.values == self@.b.values,
            match self@.f.arrow {
                Some(f) => copy@.f.arrow matches Some(g) && cloned(f, g),
                None => copy@.f.arrow is None,
            },
            match self@.b.arrow {
                Some(f) => copy@.b.arrow matches Some(g) && cloned(f, g),
                None => copy@.b.arrow is None,
            },
    {
        Function { f: self.f.clone(), b: self.b.clone() }
    }
}

impl<D: ContinuousDomain, F: Fn(&[D]) -> Vec<D>> FunctionView<D, F> {
    /// A step of `pass` at this node is in order.
    ///
    /// A step of the reverse pass reads the values that entered the node on
    /// the way forward, so all of them must be defined.
    pub open spec fn can_step(self, pass: Pass, slots: Seq<VariableBody<D>>) -> bool {
        match pass {
            Pass::Forward => self.f.can_propagate_forward(slots),
            Pass::Backward => {
                &&& self.f.is_applicable(slots)
                &&& self.b.can_propagate_backward(self.f.arguments(slots), slots)
            },
        }
    }

    /// The node fires in `pass`: the arrow of that pass fires and the other
    /// arrow stays as it is.
    pub open spec fn fires(
        self,
        pass: Pass,
        slots: Seq<VariableBody<D>>,
        after: Self,
        slots_after: Seq<VariableBody<D>>,
        consumers: Seq<usize>,
    ) -> bool {
        match pass {
            Pass::Forward => {
                &&& after.b == self.b
                &&& self.f.fires_forward(slots, after.f, slots_after, consumers)
            },
            Pass::Backward => {
                &&& after.f == self.f
                &&& self.b.fires_backward(
                    self.f.arguments(slots),
                    slots,
                    after.b,
                    slots_after,
                    consumers,
                )
            },
        }
    }

    /// One step of `pass` at this node: it fires if its arrow takes part, and
    /// otherwise nothing changes and nothing is returned.
    pub open spec fn moves(
        self,
        pass: Pass,
        slots: Seq<VariableBody<D>>,
        after: Self,
        slots_after: Seq<VariableBody<D>>,
        next: Option<Seq<usize>>,
    ) -> bool {
        if self.arrow(pass).is_eligible(slots) {
            next matches Some(consumers) && self.fires(pass, slots, after, slots_after, consumers)
        } else {
            next is None && after == self && slots_after == slots
        }
    }
}

impl<D: ContinuousDomain, F: Fn(&[D]) -> Vec<D>> FunctionView<D, F> {
    /// A step of `pass` at this node can be attempted: the function of the
    /// arrow, if there is one, accepts what it would be handed, and in the
    /// reverse pass the products it would form are permitted.
    pub open spec fn can_try(self, pass: Pass, slots: Seq<VariableBody<D>>) -> bool {
        match pass {
            Pass::Forward => self.f.is_callable(self.f.arguments(slots)),
            Pass::Backward => {
                &&& self.b.is_callable(self.f.arguments(slots))
                &&& self.b.may_multiply(self.f.arguments(slots), slots)
            },
        }
    }

    /// A step of `pass` at this node would go wrong in the way `fault`
    /// names. In the reverse pass it is a readiness violation, too, if a
    /// value that entered the node on the way forward is missing.
    pub open spec fn faults(self, pass: Pass, slots: Seq<VariableBody<D>>, fault: Fault) -> bool {
        match pass {
            Pass::Forward => self.f.faults_forward(slots, fault),
            Pass::Backward => if self.f.is_applicable(slots) {
                self.b.faults_backward(self.f.arguments(slots), slots, fault)
            } else {
                fault is ReadinessViolation
            },
        }
    }

    /// A step that would go wrong is not in order.
    pub proof fn fault_is_out_of_order(self, pass: Pass, slots: Seq<VariableBody<D>>, fault: Fault)
        requires
            self.faults(pass, slots, fault),
        ensures
            !self.can_step(pass, slots),
    {
        self.f.fault_is_out_of_order(self.f.arguments(slots), slots, fault);
        self.b.fault_is_out_of_order(self.f.arguments(slots), slots, fault);
    }
}

impl<D: ContinuousDomain, F: Fn(&[D]) -> Vec<D>> Function<D, F> {
    /// One step of the forward pass at this node.
    pub fn propagate_f(&mut self, slots: &mut Vec<VariableBody<D>>) -> (next: Option<Vec<usize>>)
        requires
            old(self)@.f.attached(old(slots)@),
            old(self)@.can_step(Pass::Forward, old(slots)@),
        ensures
            old(self)@.moves(Pass::Forward, old(slots)@, final(self)@, final(slots)@, listed(next)),
    {
        self.f.propagate_forward(slots)
    }

    /// One step of the reverse pass at this node. The backward arrow is
    /// handed the values that stand on the input edges of the forward arrow.
    pub fn propagate_b(&mut self, slots: &mut Vec<VariableBody<D>>) -> (next: Option<Vec<usize>>)
        requires
            old(self)@.f.attached(old(slots)@),
            old(self)@.b.attached(old(slots)@),
            old(self)@.can_step(Pass::Backward, old(slots)@),
        ensures
            old(self)@.moves(Pass::Backward, old(slots)@, final(self)@, final(slots)@, listed(next)),
    {
        let inputs = self.f.inputs(slots);
        assert forall|i: int| 0 <= i < inputs@.len() implies (#[trigger] inputs@[i]) is Some by {
            assert(slots@[self@.f.domain[i].index()].value is Some);
        }
        let seen = defined(&inputs);
        assert(pointees(seen@) =~= self@.f.arguments(slots@));
        self.b.propagate_backward(seen.as_slice(), slots)
    }

    /// As `propagate_f`, for a caller who cannot tell beforehand whether the
    /// step is in order: the step is taken if it is, and otherwise nothing
    /// is changed and the fault is returned.
    pub fn try_propagate_f(&mut self, slots: &mut Vec<VariableBody<D>>) -> (outcome: Result<
        Option<Vec<usize>>,
        Fault,
    >)
        requires
            old(self)@.f.attached(old(slots)@),
            old(self)@.can_try(Pass::Forward, old(slots)@),
        ensures
            match outcome {
                Ok(next) => {
                    &&& old(self)@.moves(
                        Pass::Forward,
                        old(slots)@,
                        final(self)@,
                        final(slots)@,
                        listed(next),
                    )
                    &&& next is Some ==> old(self)@.f.fits(final(self)@.f.values)
                },
                Err(fault) => {
                    &&& old(self)@.faults(Pass::Forward, old(slots)@, fault)
                    &&& final(self)@ == old(self)@
                    &&& final(slots)@ == old(slots)@
                },
            },
            old(self)@.can_step(Pass::Forward, old(slots)@) ==> outcome is Ok,
    {
        self.f.try_propagate_forward(slots)
    }

    /// As `propagate_b`, for a caller who cannot tell beforehand whether the
    /// step is in order.
    pub fn try_propagate_b(&mut self, slots: &mut Vec<VariableBody<D>>) -> (outcome: Result<
        Option<Vec<usize>>,
        Fault,
    >)
        requires
            old(self)@.f.attached(old(slots)@),
            old(self)@.b.attached(old(slots)@),
            old(self)@.can_try(Pass::Backward, old(slots)@),
        ensures
            match outcome {
                Ok(next) => {
                    &&& old(self)@.moves(
                        Pass::Backward,
                        old(slots)@,
                        final(self)@,
                        final(slots)@,
                        listed(next),
                    )
                    &&& next is Some ==> old(self)@.b.fits(final(self)@.b.values)
                },
                Err(fault) => {
                    &&& old(self)@.faults(Pass::Backward, old(slots)@, fault)
                    &&& final(self)@ == old(self)@
                    &&& final(slots)@ == old(slots)@
                },
            },
            old(self)@.can_step(Pass::Backward, old(slots)@) ==> outcome is Ok,
    {
        if !self.f.is_applicable(slots) {
            return Err(Fault::ReadinessViolation);
        }
        let inputs = self.f.inputs(slots);
        assert forall|i: int| 0 <= i < inputs@.len() implies (#[trigger] inputs@[i]) is Some by {
            assert(slots@[self@.f.domain[i].index()].value is Some);
        }
        let seen = defined(&inputs);
        assert(pointees(seen@) =~= self@.f.arguments(slots@));
        self.b.try_propagate_backward(seen.as_slice(), slots)
    }
}

/// References to the values in `inputs`, all of which are defined.
fn defined<'a, D>(inputs: &'a Vec<Option<D>>) -> (seen: Vec<&'a D>)
    requires
        forall|i: int| 0 <= i < inputs@.len() ==> (#[trigger] inputs@[i]) is Some,
    ensures
        seen@.len() == inputs@.len(),
        forall|i: int| 0 <= i < inputs@.len() ==> *(#[trigger] seen@[i]) == inputs@[i]->Some_0,
{
    let mut seen: Vec<&D> = Vec::new();
    let mut i: usize = 0;
    while i < inputs.len()
        invariant
            i <= inputs.len(),
            forall|k: int| 0 <= k < inputs@.len() ==> (#[trigger] inputs@[k]) is Some,
            seen@.len() == i,
            forall|k: int| 0 <= k < i ==> *(#[trigger] seen@[k]) == inputs@[k]->Some_0,
        decreases inputs.len() - i,
    {
        assert(inputs@[i as int] is Some);
        seen.push(inputs[i].as_ref().unwrap());
        i += 1;
    }
    seen
}

} // verus!
