use vstd::prelude::*;

verus! {

/// Components are referenced by a small dense integer rather than by a Rust reference.
#[derive(Clone, Copy, Debug, PartialEq, Eq, Hash, PartialOrd, Ord, Structural)]
pub struct ComponentID(pub usize);

/// The index that stands for "no component": held by the root as its parent,
/// and used for "no target".
pub const NO_COMPONENT_INDEX: usize = usize::MAX;

impl ComponentID {
    pub open spec fn is_none(self) -> bool {
        self.0 == NO_COMPONENT_INDEX
    }

    /// The id that names no component.
    pub fn none() -> (r: ComponentID)
        ensures
            r.is_none(),
    {
        ComponentID(NO_COMPONENT_INDEX)
    }

    pub fn is_no_component(&self) -> (r: bool)
        ensures
            r == self.is_none(),
    {
        self.0 == NO_COMPONENT_INDEX
    }
}

/// A node of the component tree.
#[derive(Debug)]
pub struct Component {
    /// The name of the component. Names are unique among siblings only.
    pub name: String,
    /// The parent's id; `NO_COMPONENT` for the root.
    pub parent: ComponentID,
    /// The children, in the order they were added.
    pub children: Vec<ComponentID>,
}

} // verus!
