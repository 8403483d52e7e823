//! Halo's note-taking core: calendar feeds, note styles, model catalogue,
//! web research, export formatting and the streaming protocols of the local
//! engines, each stated and proved over a mathematical model.
use vstd::prelude::*;

pub mod text;
pub mod types;
pub mod json;
pub mod paths;
pub mod models;
pub mod storage;
pub mod research;
pub mod calendar;
pub mod integrations;
pub mod commands;
pub mod import;
pub mod llm;
pub mod transcribe;
pub mod audio;

verus! {

} // verus!
