//! Verified core of the ScrollWorks carving tools.
use vstd::prelude::*;

pub mod chip;
pub mod compose;
pub mod decimal;
pub mod history;
pub mod ids;
pub mod links;
pub mod names;
pub mod prefs;
pub mod presets;
pub mod rng;
pub mod shoots;
pub mod text;

verus! {

} // verus!
