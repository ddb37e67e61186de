use vstd::prelude::*;

verus! {

/// A parsed JSON value, as the object builder reads it. Floats are held as the bits
/// of their IEEE 754 double representation.
pub enum JsonValue {
    Null,
    Bool(bool),
    Int(i64),
    Float(u64),
    Str(String),
    Array(Vec<JsonValue>),
    Object(Vec<(String, JsonValue)>),
}

/// The keys of an object's entries are all different, as in every object of
/// every object nested in it.
pub open spec fn spec_json_wf(v: JsonValue) -> bool
    decreases v,
{
    match v {
        JsonValue::Object(entries) => {
            &&& forall|i: int, j: int|
                0 <= i < j < entries@.len() ==> (#[trigger] entries@[i]).0@ != (
                #[trigger] entries@[j]).0@
            &&& forall|i: int|
                0 <= i < entries@.len() ==> spec_json_wf(#[trigger] entries@[i].1)
        },
        _ => true,
    }
}

} // verus!
