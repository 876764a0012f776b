//! Queries over the columns of a file.

pub mod combine;
pub mod error;
pub mod filter;
pub mod handle;
pub mod items;
pub mod iter;
pub mod join;
pub mod laws;
pub mod mask;
pub mod panes;
pub mod predicate;
pub mod refine;
pub mod relate;
pub mod resolve;
pub mod sieve;
pub mod source;
pub mod terminal;
pub mod window;
pub mod written;
