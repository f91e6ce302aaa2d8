//! The master keys listed in a Joplin `info.json`.
use vstd::prelude::*;

verus! {

/// A master key as `info.json` lists it.
pub struct DecodedMasterKey {
    pub encryption_method: u32,
    pub id: String,
    pub content: String,
}

/// The part of `info.json` that the library reads.
pub struct DecodedJson {
    pub master_keys: Vec<DecodedMasterKey>,
}

} // verus!
