//! A tracing just-in-time compiler core: an intermediate representation of
//! traced variables, the planning of compute passes over it, and the
//! generation of PTX entry points.

pub mod codegen;
pub mod deps;
pub mod graph;
pub mod jit;
pub mod schedule;
pub mod text;
pub mod trace;
