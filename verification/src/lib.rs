//! Front-end core of a module-based language compiler: source locations and
//! diagnostics, the namespace/declaration registries, and the passes that
//! enumerate a module graph and resolve every name to a terminal reference set.

pub mod diag;
pub mod dependencies;
pub mod enumeration;
pub mod namespace;
pub mod program;
pub mod resolution;
pub mod resolver;
pub mod semantic;
pub mod syntax;
