//! Fixed-width, byte-lexicographically sortable binary keys.  A storage
//! key is 32 bytes: four big-endian 64-bit fields, `[record_kind]
//! [collection_hash][field_hash][document_id]`.  Sorting the bytes is
//! the same as sorting the four integers in that field order, so all rows
//! of one document's field sit in one contiguous range.
use vstd::prelude::*;

use crate::endian::be_bytes;
use crate::endian::lemma_be_bytes_len;
use crate::endian::lemma_be_bytes_lex_lt;
use crate::endian::lemma_lex_lt_concat;
use crate::endian::lemma_pow256_values;
use crate::endian::lex_le;
use crate::endian::lex_lt;
use crate::endian::push_u64_be;
use crate::endian::read_u64_be;
use crate::endian::from_be;
use crate::id::Snowflake;

verus! {

/// The record kind of a document field row; the only kind defined.
pub const FIELD_ROW_KIND: u64 = 0x01;

/// The 32 bytes of a storage key, as a function of its four fields.
pub open spec fn key_bytes(kind: u64, collection_hash: u64, field_hash: u64, id: u64) -> Seq<u8> {
    be_bytes(kind as nat, 8) + be_bytes(collection_hash as nat, 8) + be_bytes(
        field_hash as nat,
        8,
    ) + be_bytes(id as nat, 8)
}

/// A fixed 32-byte storage key.
#[derive(Debug, Clone)]
pub struct Key {
    bytes: Vec<u8>,
}

impl View for Key {
    type V = Seq<u8>;

    closed spec fn view(&self) -> Seq<u8> {
        self.bytes@
    }
}

impl Key {
    /// Every key is exactly 32 bytes.
    pub closed spec fn wf(&self) -> bool {
        self.bytes@.len() == 32
    }

    /// Wrap raw bytes that are known to be key-sized.
    pub fn from_bytes(bytes: Vec<u8>) -> (r: Key)
        requires
            bytes@.len() == 32,
        ensures
            r.wf(),
            r@ == bytes@,
    {
        Key { bytes }
    }

    /// The raw bytes, for handing to the storage boundary.
    pub fn as_vec(&self) -> (r: &Vec<u8>)
        ensures
            r@ == self@,
    {
        &self.bytes
    }

    /// Give up the raw bytes.
    pub fn into_vec(self) -> (r: Vec<u8>)
        ensures
            r@ == self@,
    {
        self.bytes
    }

    /// The `field_hash` component: bytes 16 to 24, big-endian.
    pub fn field_hash(&self) -> (r: u64)
        requires
            self.wf(),
        ensures
            r as nat == from_be(self@.subrange(16, 24)),
    {
        read_u64_be(&self.bytes, 16)
    }
}

/// Build the storage key `[kind][collection_hash][field_hash][id]`.
pub fn storage_key(kind: u64, collection_hash: u64, field_hash: u64, id: u64) -> (r: Key)
    ensures
        r.wf(),
        r@ == key_bytes(kind, collection_hash, field_hash, id),
{
    let mut out: Vec<u8> = Vec::new();
    push_u64_be(&mut out, kind);
    push_u64_be(&mut out, collection_hash);
    push_u64_be(&mut out, field_hash);
    push_u64_be(&mut out, id);
    proof {
        lemma_be_bytes_len(kind as nat, 8);
        lemma_be_bytes_len(collection_hash as nat, 8);
        lemma_be_bytes_len(field_hash as nat, 8);
        lemma_be_bytes_len(id as nat, 8);
        assert(out@ =~= key_bytes(kind, collection_hash, field_hash, id));
    }
    Key { bytes: out }
}

/// The bounds of the byte range that holds one document's rows, for a
/// field-hash window `[lo, hi]`.  The range is a superset, not an exact
/// filter: hashes strictly between `lo` and `hi` but outside the
/// requested set still fall inside it and must be excluded by exact
/// membership testing in the consumer.
pub fn range_bounds(collection_hash: u64, id: u64, lo: u64, hi: u64) -> (r: (Key, Key))
    ensures
        r.0.wf(),
        r.1.wf(),
        r.0@ == key_bytes(FIELD_ROW_KIND, collection_hash, lo, id),
        r.1@ == key_bytes(FIELD_ROW_KIND, collection_hash, hi, id),
{
    (
        storage_key(FIELD_ROW_KIND, collection_hash, lo, id),
        storage_key(FIELD_ROW_KIND, collection_hash, hi, id),
    )
}

/// A storage key is 32 bytes, and its third field reads back as the
/// field hash it was built from.
pub proof fn lemma_key_bytes_fields(kind: u64, ch: u64, h: u64, id: u64)
    ensures
        key_bytes(kind, ch, h, id).len() == 32,
        key_bytes(kind, ch, h, id).subrange(16, 24) =~= be_bytes(h as nat, 8),
        crate::endian::from_be8(key_bytes(kind, ch, h, id).subrange(16, 24)) == h,
{
    lemma_be_bytes_len(kind as nat, 8);
    lemma_be_bytes_len(ch as nat, 8);
    lemma_be_bytes_len(h as nat, 8);
    lemma_be_bytes_len(id as nat, 8);
    assert(key_bytes(kind, ch, h, id).subrange(16, 24) =~= be_bytes(h as nat, 8));
    crate::endian::lemma_from_be8_be_bytes(h);
}

/// Storage keys with equal kind, collection and id order strictly by
/// field hash under byte-lexicographic comparison.
pub proof fn lemma_storage_key_field_order(kind: u64, ch: u64, a: u64, b: u64, id: u64)
    requires
        a < b,
    ensures
        lex_lt(key_bytes(kind, ch, a, id), key_bytes(kind, ch, b, id)),
{
    lemma_pow256_values();
    let p = be_bytes(kind as nat, 8) + be_bytes(ch as nat, 8);
    let ta = be_bytes(a as nat, 8) + be_bytes(id as nat, 8);
    let tb = be_bytes(b as nat, 8) + be_bytes(id as nat, 8);
    lemma_be_bytes_lex_lt(a as nat, b as nat, 8, be_bytes(id as nat, 8), be_bytes(id as nat, 8));
    lemma_lex_lt_concat(p, ta, tb);
    assert(key_bytes(kind, ch, a, id) =~= p + ta);
    assert(key_bytes(kind, ch, b, id) =~= p + tb);
}

/// The weak form, for range bounds: `a <= b` gives `lex_le`.
pub proof fn lemma_storage_key_field_order_le(kind: u64, ch: u64, a: u64, b: u64, id: u64)
    requires
        a <= b,
    ensures
        lex_le(key_bytes(kind, ch, a, id), key_bytes(kind, ch, b, id)),
{
    if a < b {
        lemma_storage_key_field_order(kind, ch, a, b, id);
    }
}

/// A 128-bit partition key: high 64 bits a deterministic tag of the
/// collection name, low 64 bits the document's identifier.
#[derive(Debug, Clone, Copy, PartialEq, Eq, Hash, Structural)]
pub struct PartitionKey {
    bits: u128,
}

/// The packed 128-bit partition key value.
pub open spec fn pack_pk(tag: u64, id: u64) -> u128 {
    ((tag as u128) << 64) | (id as u128)
}

pub open spec fn spec_pk_tag(v: u128) -> u64 {
    (v >> 64) as u64
}

pub open spec fn spec_pk_id(v: u128) -> u64 {
    v as u64
}

/// The partition-key packing round trip: `tag` and `id` come back out of
/// the 128-bit value exactly, for arbitrary values of both.
pub proof fn lemma_pk_fields(tag: u64, id: u64)
    by (bit_vector)
    ensures
        spec_pk_tag(pack_pk(tag, id)) == tag,
        spec_pk_id(pack_pk(tag, id)) == id,
{
}

impl PartitionKey {
    pub closed spec fn value(&self) -> u128 {
        self.bits
    }

    pub fn new(tag: u64, id: Snowflake) -> (r: PartitionKey)
        ensures
            r.value() == pack_pk(tag, id.value()),
    {
        PartitionKey { bits: ((tag as u128) << 64) | (id.as_u64() as u128) }
    }

    /// The collection tag: the high 64 bits.
    pub fn tag(&self) -> (r: u64)
        ensures
            r == spec_pk_tag(self.value()),
    {
        proof {
            lemma_pk_shift_bound(self.bits);
        }
        (self.bits >> 64) as u64
    }

    /// The document identifier: the low 64 bits.
    pub fn id(&self) -> (r: Snowflake)
        ensures
            r.value() == spec_pk_id(self.value()),
    {
        Snowflake::new(self.bits as u64)
    }
}

/// The high half of a 128-bit value fits a `u64`.
proof fn lemma_pk_shift_bound(v: u128)
    by (bit_vector)
    ensures
        (v >> 64) <= 0xFFFF_FFFF_FFFF_FFFFu128,
{
}

} // verus!
