use vstd::prelude::*;

pub mod attrs;
pub mod derive_input;
pub mod json;
pub mod slog_test;
pub mod stats;

verus! {

} // verus!
