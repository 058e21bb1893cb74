//! Filters the columns of a multiple-sequence alignment: a column survives when it shows
//! variation (optionally) and enough sequences carry a canonical base there.

pub mod bits;
pub mod bases;
pub mod error;
pub mod threshold;
pub mod record;
pub mod scan;
pub mod classify;
pub mod project;
pub mod pipeline;
pub mod fasta;
pub mod laws;
pub mod misc;
