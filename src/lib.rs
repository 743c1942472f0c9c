use vstd::prelude::*;

pub mod api;
pub mod broadcast;
pub mod codec;
pub mod formats;
pub mod service;
pub mod standard;

verus! {

} // verus!
