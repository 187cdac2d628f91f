//! Collapses runs of two or more ASCII space bytes into a single space,
//! except inside angle-bracket markup tags, whose bodies keep their
//! spacing verbatim.

pub mod hints;
pub mod laws;
pub mod scanner;
