//! Move legality for the 2048 sliding-tile game, as a constraint set over the
//! Goldilocks field.
//!
//! `line` holds the line merge (compaction, one pass of pairwise merging, zero
//! fill) on concrete field values; `board` maps the four move directions onto
//! it; `circuit` is a constraint set of gates over wires whose meaning is given
//! by terms over the public inputs; and `encode` builds, with branch-free
//! selection by 0/1 indicators only, the constraints that accept exactly the
//! legal moves.
use vstd::prelude::*;

pub mod field;
pub mod line;
pub mod board;
pub mod circuit;
pub mod encode;

verus! {

} // verus!
