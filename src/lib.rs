//! Virtual paths and the path algebra beneath them: normalization,
//! resolution and relative paths under POSIX and Windows rules, and `File`,
//! a path qualified by the root it is expressed against (`file:`, `app:`,
//! `app-storage:`).
use vstd::prelude::*;

pub mod chars;
pub mod segments;
pub mod posix;
pub mod windows;
pub mod host;
pub mod file;
pub mod locale_options;
pub mod laws;
pub mod windows_laws;

verus! {

} // verus!
