//! Storage and query-execution core of a small relational engine: slotted
//! pages and heap files kept as byte images, the packed row format, and the
//! scan, selection, projection and index operators over rows of text fields.
use vstd::prelude::*;

pub mod codec;
pub mod page;
pub mod heap;
pub mod text;
pub mod query;
pub mod index;
pub mod plan;
pub mod scan;

verus! {

} // verus!
