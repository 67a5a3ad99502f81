//! Layout and event-routing core of a composition UI toolkit: a constraint
//! solver that shares a ribbon's extent among its cells, the layout of ribbons
//! and layer stacks, and the rules by which input and resize events travel
//! from a container to its children.
pub mod event;
pub mod fraction;
pub mod button;
pub mod geometry;
pub mod layer_stack;
pub mod ribbon;
pub mod solver;
pub mod solver_laws;
