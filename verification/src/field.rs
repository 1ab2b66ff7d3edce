//! A single named field and the 8-byte key its name hashes to, the
//! middle component of a storage key.
use vstd::prelude::*;

use crate::endian::be_bytes;
use crate::endian::push_u64_be;
use crate::types::Value;
use crate::util::hash64_of;
use crate::util::hash_str;

verus! {

/// The big-endian bytes of a field name's hash.
#[derive(Debug)]
pub struct FieldKey {
    bytes: Vec<u8>,
}

impl View for FieldKey {
    type V = Seq<u8>;

    closed spec fn view(&self) -> Seq<u8> {
        self.bytes@
    }
}

impl FieldKey {
    pub fn as_vec(&self) -> (r: &Vec<u8>)
        ensures
            r@ == self@,
    {
        &self.bytes
    }
}

/// A named field with its value.
#[derive(Debug)]
pub struct Field {
    name: String,
    value: Value,
}

impl Field {
    pub closed spec fn name_spec(&self) -> Seq<char> {
        self.name@
    }

    pub fn new(name: String, value: Value) -> (r: Field)
        ensures
            r.name_spec() == name@,
    {
        Field { name, value }
    }

    /// The field's key: the 8 big-endian bytes of its name's hash.
    pub fn key(&self) -> (r: FieldKey)
        ensures
            r@ == be_bytes(hash64_of(self.name_spec()) as nat, 8),
    {
        let hash = hash_str(self.name.as_str());
        let mut bytes: Vec<u8> = Vec::new();
        push_u64_be(&mut bytes, hash);
        proof {
            assert(bytes@ =~= be_bytes(hash64_of(self.name_spec()) as nat, 8));
        }
        FieldKey { bytes }
    }
}

} // verus!
