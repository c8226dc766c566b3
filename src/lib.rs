//! A static blog's post pipeline: reading dated file names, splitting and
//! decoding the header of each post, rendering its body, and assembling the
//! ordered collection that templates are rendered from.
use vstd::prelude::*;

pub mod blogs;
pub mod filename;
pub mod header;
pub mod posts;
pub mod text;
pub mod time;

verus! {

} // verus!
