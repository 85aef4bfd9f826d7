//! The passes that transform an object tree.
pub mod repeater_component;
pub mod repeater_component_guarantees;
pub mod repeater_component_lemmas;
