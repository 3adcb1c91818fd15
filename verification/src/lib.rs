//! A declarative data-stack engine: one tool-agnostic description of a
//! pipeline is checked, ordered by its dependencies, compiled into the
//! configuration text of each backend tool, and driven through a
//! validate-then-execute lifecycle.

pub mod adapters;
pub mod compiler;
pub mod descriptor;
pub mod dsl;
pub mod graph;
pub mod orchestrator;
pub mod plan;
pub mod resolver;
pub mod text;
pub mod yaml;
