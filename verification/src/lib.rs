//! Dependency graphs of installed packages: resolution of the transitive
//! closure, transposition into the "who depends on me" relation, and rendering
//! as a directed-graph description.

pub mod deptree;
pub mod dot;
pub mod listing;
pub mod metadata;
pub mod package;
pub mod resolve;
pub mod resolver;
pub mod text;
pub mod transpose;
pub mod walk;
