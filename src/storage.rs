//! An owned, growable key of the storage layer.
use vstd::prelude::*;
use vstd::utf8::{decode_utf8, valid_utf8};
use crate::shard::copy_bytes;
use crate::resp::append_bytes;

verus! {

/// Relies on `String::from_utf8`: valid UTF-8 bytes decode to a string of
/// the characters they encode.
#[verifier::external_body]
fn string_from_utf8(bytes: Vec<u8>) -> (r: String)
    requires
        valid_utf8(bytes@),
    ensures
        r@ == decode_utf8(bytes@),
{
    String::from_utf8(bytes).unwrap_or_default()
}

/// An owned key.
#[derive(Debug, Clone, PartialEq, Eq, Hash)]
pub struct Key(Vec<u8>);

impl View for Key {
    type V = Seq<u8>;

    closed spec fn view(&self) -> Seq<u8> {
        self.0@
    }
}

impl Key {
    /// A key holding a copy of `data`.
    pub fn new(data: &[u8]) -> (r: Key)
        ensures
            r@ == data@,
    {
        let mut bytes: Vec<u8> = Vec::new();
        append_bytes(&mut bytes, data);
        assert(bytes@ == Seq::<u8>::empty() + data@);
        Key(bytes)
    }

    /// The key as text; its bytes must be UTF-8.
    pub fn to_string(&self) -> (r: String)
        requires
            valid_utf8(self@),
        ensures
            r@ == decode_utf8(self@),
    {
        string_from_utf8(copy_bytes(&self.0))
    }

    /// A copy of the key's bytes.
    pub fn to_vec(&self) -> (r: Vec<u8>)
        ensures
            r@ == self@,
    {
        copy_bytes(&self.0)
    }
}

} // verus!
