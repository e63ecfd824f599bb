//! Greedy allocation of offcuts to beams.
//!
//! A pool of offcuts, each a length of material, is to supply beams of
//! given lengths. A beam is one piece, or several pieces welded end to end;
//! a weld budget limits how many. The allocator picks the pieces for one
//! beam at a time and never goes back on a beam it has assembled.
//!
//! - [`pool`]: the pool as a sequence of lengths, its material and order.
//! - [`choice`]: the piece that finishes a beam and the piece that extends it.
//! - [`greedy`]: the run of such choices as a function, and what holds of it.
//! - [`allocator`]: one attempt on the pool.
//! - [`requirements`]: what is asked for, and in which order it is tried.
//! - [`report`]: a whole list of requirements against one pool.
//! - [`text`]: the pool and the requirements as plain text.

pub mod allocator;
pub mod choice;
pub mod greedy;
pub mod pool;
pub mod report;
pub mod requirements;
pub mod text;
