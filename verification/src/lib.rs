//! Lowering of repeated elements in an object tree.
//!
//! An object tree is made of elements organised into components. An element
//! that stems from a `for` or an `if` construct is a *repeated* element. The
//! pass of [`passes::repeater_component`] gives every repeated element a
//! component of its own that holds what the element held, leaves the element
//! behind as an empty instance of that component, and moves the property
//! references that named the element over to the root of the new component.
//!
//! - [`expression_tree`]: expressions and the property references in them;
//! - [`langtype`]: what an element can be an instance of;
//! - [`object_tree`]: elements, components, and the tree that holds them;
//! - [`tree_shape`]: facts about subtrees and components;
//! - [`well_formedness`]: deciding whether a tree is well formed;
//! - [`passes`]: the pass, why it does what it states, and what follows.
pub mod expression_tree;
pub mod langtype;
pub mod object_tree;
pub mod passes;
pub mod tree_shape;
pub mod well_formedness;
