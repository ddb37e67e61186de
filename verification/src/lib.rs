use vstd::prelude::*;

pub mod bytesutil;
pub mod dataproperty;
pub mod dataobject;
pub mod datastore;
pub mod json;
pub mod laws;

verus! {

} // verus!
