use vstd::prelude::*;

pub mod text;
pub mod ngram_map;
pub mod ranked;
pub mod ngram_cache;
pub mod pattern;
pub mod state;
pub mod suggest;
pub mod config;
pub mod input;
pub mod engine;
pub mod telegram_import;
pub mod overlay;

verus! {

} // verus!
