//! A generative-music engine driven by a small text format: music strings and grammars are
//! read into syntax trees, grammars are expanded, music is composed into tracks of exactly
//! timed events, and a scheduler hands those events out tick by tick for playback.
use vstd::prelude::*;

pub mod frac;
pub mod time;
pub mod composition;
pub mod cfg;
pub mod compose;
pub mod laws;
pub mod scheduler;
pub mod scan;
pub mod grammar;
pub mod scanners;
pub mod print;
pub mod midi;

verus! {

} // verus!
