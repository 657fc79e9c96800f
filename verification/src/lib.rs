use vstd::prelude::*;

pub mod codec;
pub mod command;
pub mod comments;
pub mod event;
pub mod extract;
pub mod genesis;
pub mod json;
pub mod json_reading;
pub mod lint;
pub mod log;
pub mod model;
pub mod number;
pub mod paths;
pub mod render;
pub mod replay;
pub mod reread;
pub mod text;

verus! {
} // verus!
