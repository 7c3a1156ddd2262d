//! Per-component scopes and the cooperative lifecycle scheduler behind a
//! tree of stateful UI components.
pub mod laws;
pub mod lifecycle;
pub mod runtime;
pub mod scope;
