//! Compiles a resource-constrained project-scheduling instance into a
//! weighted partial MaxSAT formula.
//!
//! Activities are decomposed into segments, start-time windows are derived
//! from all-pairs shortest paths over the segment precedence graph, and the
//! resulting propositional variables and clauses are rendered as weighted CNF.

pub mod id_generator;
pub mod floyd_warshall;
pub mod text;
pub mod sat_seg_var;
pub mod segment;
pub mod project;
pub mod schedule;
pub mod encode;
pub mod wcnf;
pub mod reader;
pub mod names;
