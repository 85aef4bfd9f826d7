//! The types that an element can be an instance of.
use vstd::prelude::*;

verus! {

/// Index of a component in the `components` of an object tree.
pub type ComponentId = usize;

/// What an element is an instance of.
#[derive(Debug, PartialEq, Eq)]
pub enum ElementType {
    /// No type: the state of a default element.
    Invalid,
    /// A built-in element kind, by its name.
    Builtin(String),
    /// An instance of a component of the same object tree.
    Component(ComponentId),
}

impl ElementType {
    /// The component that this is an instance of, if it is one.
    pub open spec fn component(&self) -> Option<ComponentId> {
        match self {
            ElementType::Component(c) => Some(*c),
            _ => None,
        }
    }

    /// The component that this is an instance of, if it is one.
    pub fn as_component(&self) -> (res: Option<ComponentId>)
        ensures
            res == self.component(),
    {
        match self {
            ElementType::Component(c) => Some(*c),
            _ => None,
        }
    }
}

impl Default for ElementType {
    fn default() -> (res: Self)
        ensures
            res == ElementType::Invalid,
    {
        ElementType::Invalid
    }
}

} // verus!
