//! A parallel bitonic sorting network over slices, with the small exercises
//! that sit beside it.
pub mod order;
pub mod network;
pub mod bitonic;
pub mod laws;
pub mod util;
pub mod calc;
pub mod collection;
pub mod wordcount;
