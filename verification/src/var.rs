use crate::types::ContinuousDomain;
use vstd::prelude::*;

verus! {

/// What one edge of the graph holds: the value that travels along it, if any
/// has been written yet, and the two nodes it joins. The nodes are fixed when
/// the edge is made.
pub struct VariableBody<D> {
    pub value: Option<D>,
    pub source: usize,
    pub target: usize,
}

/// A handle on one edge: its position in the table that owns every edge.
///
/// The producer keeps one copy of the handle among its outputs and the consumer
/// another among its inputs; both see the same `VariableBody` through the table.
#[derive(Clone, Copy, Debug)]
pub struct Variable(pub usize);

impl Variable {
    /// Whether the handle names an edge of `slots`.
    pub open spec fn within<D>(self, slots: Seq<VariableBody<D>>) -> bool {
        self.0 < slots.len()
    }

    /// The position the handle names.
    pub open spec fn index(self) -> int {
        self.0 as int
    }

    /// Appends a new edge from `source` to `target` and returns its handle.
    pub fn new<D: ContinuousDomain>(
        slots: &mut Vec<VariableBody<D>>,
        value: Option<D>,
        source: usize,
        target: usize,
    ) -> (link: Variable)
        ensures
            link.index() == old(slots)@.len(),
            final(slots)@ == old(slots)@.push(VariableBody { value, source, target }),
    {
        let link = Variable(slots.len());
        slots.push(VariableBody { value, source, target });
        link
    }

    /// Shared access to the edge.
    pub fn get<'a, D: ContinuousDomain>(&self, slots: &'a Vec<VariableBody<D>>) -> (body:
        &'a VariableBody<D>)
        requires
            self.within(slots@),
        ensures
            *body == slots@[self.index()],
    {
        &slots[self.0]
    }

    /// Exclusive access to the edge; whatever is written through the result
    /// is what every holder of the handle reads afterwards.
    pub fn set<'a, D: ContinuousDomain>(&self, slots: &'a mut Vec<VariableBody<D>>) -> (body:
        &'a mut VariableBody<D>)
        requires
            self.within(old(slots)@),
        ensures
            *body == old(slots)@[self.index()],
            final(slots)@ == old(slots)@.update(self.index(), *final(body)),
    {
        &mut slots[self.0]
    }

    /// The value currently on the edge.
    pub fn get_value<D: ContinuousDomain>(&self, slots: &Vec<VariableBody<D>>) -> (value: Option<D>)
        requires
            self.within(slots@),
        ensures
            value == slots@[self.index()].value,
    {
        slots[self.0].value
    }

    /// Replaces the value on the edge and leaves its two ends as they are.
    pub fn set_value<D: ContinuousDomain>(&self, slots: &mut Vec<VariableBody<D>>, val: Option<D>)
        requires
            self.within(old(slots)@),
        ensures
            final(slots)@ == old(slots)@.update(
                self.index(),
                (VariableBody { value: val, ..old(slots)@[self.index()] }),
            ),
    {
        slots[self.0].value = val;
    }
}

} // verus!
