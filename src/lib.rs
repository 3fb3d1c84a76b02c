//! Overlay of grammar annotations on a text: offset translation, issue
//! normalization, overlap resolution and rendering.
use vstd::prelude::*;

pub mod issue;
pub mod json;
pub mod offsets;
pub mod render;
pub mod resolve;

verus! {

} // verus!
