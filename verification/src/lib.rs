//! A host-side dynamic linker and module-dependency resolver for a sandboxed
//! bytecode execution engine.
//!
//! Guest programs are split across independently compiled binary modules that
//! refer to one another by symbolic name.  This crate holds the verified core:
//! the parser for the linking-metadata (`dylink`) section embedded in each
//! binary, the dependency manager that resolves a module graph from
//! declarative metadata, and the binary linker that allocates shared
//! memory/table regions, resolves cross-module symbols through global offset
//! tables, and keeps the instance registry.
//!
//! The engine itself, the network and the file system are outside
//! collaborators: the functions here decide, and the embedding program
//! performs the corresponding outside work and hands the results back.

pub mod dylink;
pub mod error;
pub mod linker;
pub mod manager;
