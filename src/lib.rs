//! A fixed-capacity slot array whose unoccupied slots are threaded on a
//! freelist with a version-tagged head word.

pub mod array;
pub mod codec;
pub mod history;
