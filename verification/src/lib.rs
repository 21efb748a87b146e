//! Line, word, and byte-size counting for a single file, organized so that
//! the file can be scanned in disjoint byte ranges whose partial results are
//! merged into one total.
//!
//! The pieces mirror the architecture of the tool they serve: a range
//! planner splits `[0, file_size)` into adjacent windows, counting kernels
//! scan one window, and aggregators combine the partial results. Reading
//! the file and spawning the workers is left to the caller; everything here
//! is pure computation over byte windows.

pub mod format;
pub mod lines;
pub mod planner;
pub mod words;
