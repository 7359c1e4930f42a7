use vstd::prelude::*;

pub mod builder;
pub mod codec;
pub mod decode;
pub mod ingest;
pub mod combine;
pub mod prefix_answer;
pub mod reader;
pub mod record;
pub mod round_trip;
pub mod text;
pub mod trie;

verus! {

} // verus!
