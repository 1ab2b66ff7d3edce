//! Documents: a logical entity with an identifier, a collection label
//! and an ordered field mapping.  A document has no single physical row;
//! it is realized as one storage row per field, written as one atomic
//! batch, and rebuilt from the keyspace on every read.
use vstd::prelude::*;

use crate::codec::decode_pair;
use crate::codec::decode_pair_spec;
use crate::codec::encode_pair;
use crate::codec::encodable;
use crate::codec::pair_bytes;
use crate::endian::be_bytes;
use crate::endian::from_be8;
use crate::error::Error;
use crate::id::Generator;
use crate::id::Snowflake;
use crate::id::pack;
use crate::key::FIELD_ROW_KIND;
use crate::key::key_bytes;
use crate::key::lemma_key_bytes_fields;
use crate::key::range_bounds;
use crate::key::storage_key;
use crate::shard::Shard;
use crate::shard::batch_applied;
use crate::shard::range_result;
use crate::shard::rows_views;
use crate::types::FieldMap;
use crate::types::Val;
use crate::types::Value;
use crate::types::spec_accumulate;
use crate::util::hash64_of;
use crate::util::hash_str;
use vstd::utf8::encode_utf8;

verus! {

/// A document: identifier, collection label, ordered field mapping.
#[derive(Debug)]
pub struct Document {
    id: Snowflake,
    label: String,
    fields: FieldMap,
}

/// The storage rows one document encodes into: for each field, the
/// 32-byte key `[kind][collection_hash][hash(name)][id]` and the encoded
/// `(name, value)` pair.
pub open spec fn doc_rows_spec(collection_hash: u64, id: u64, fields: Seq<(Seq<char>, Val)>) -> Seq<
    (Seq<u8>, Seq<u8>),
> {
    Seq::new(
        fields.len(),
        |i: int|
            (
                key_bytes(FIELD_ROW_KIND, collection_hash, hash64_of(fields[i].0), id),
                pair_bytes(fields[i].0, fields[i].1),
            ),
    )
}

/// Build the storage rows for a field mapping, one row per field, in
/// field order.
pub fn field_rows(collection_hash: u64, id: u64, fields: &FieldMap) -> (r: Vec<(Vec<u8>, Vec<u8>)>)
    ensures
        rows_views(r@) =~= doc_rows_spec(collection_hash, id, fields.model()),
        forall|i: int|
            0 <= i < fields.model().len() ==> encodable((#[trigger] fields.model()[i]).1)
                && encode_utf8(fields.model()[i].0).len() < 0x10000000000000000,
{
    let n = fields.len();
    let mut rows: Vec<(Vec<u8>, Vec<u8>)> = Vec::new();
    let mut i: usize = 0;
    while i < n
        invariant
            n == fields.model().len(),
            i <= n,
            rows@.len() == i,
            forall|j: int|
                0 <= j < i ==> (#[trigger] rows@[j]).0@ == key_bytes(
                    FIELD_ROW_KIND,
                    collection_hash,
                    hash64_of(fields.model()[j].0),
                    id,
                ) && rows@[j].1@ == pair_bytes(fields.model()[j].0, fields.model()[j].1),
            forall|j: int|
                0 <= j < i ==> encodable((#[trigger] fields.model()[j]).1) && encode_utf8(
                    fields.model()[j].0,
                ).len() < 0x10000000000000000,
        decreases n - i,
    {
        let entry = fields.entry(i);
        let field_hash = hash_str(entry.0.as_str());
        let key = storage_key(FIELD_ROW_KIND, collection_hash, field_hash, id);
        let value = encode_pair(entry.0.as_str(), &entry.1);
        rows.push((key.into_vec(), value));
        i = i + 1;
    }
    rows
}

/// The pairs decoded from scanned rows under an optional projection: a
/// malformed key or value is a decode error for the whole document; a row
/// whose field-hash is not an exact member of the projected set is
/// discarded.
pub open spec fn decode_rows_spec(rows: Seq<(Seq<u8>, Seq<u8>)>, proj: Option<Seq<u64>>) -> Option<
    Seq<(Seq<char>, Val)>,
>
    decreases rows.len(),
{
    if rows.len() == 0 {
        Some(Seq::empty())
    } else if rows[0].0.len() != 32 {
        None
    } else if proj matches Some(hs) && !hs.contains(from_be8(rows[0].0.subrange(16, 24)) as u64) {
        decode_rows_spec(rows.drop_first(), proj)
    } else {
        match decode_pair_spec(rows[0].1) {
            Some(p) => match decode_rows_spec(rows.drop_first(), proj) {
                Some(t) => Some(Seq::empty().push(p) + t),
                None => None,
            },
            None => None,
        }
    }
}

impl Document {
    pub closed spec fn id_spec(&self) -> u64 {
        self.id.value()
    }

    pub closed spec fn label_spec(&self) -> Seq<char> {
        self.label@
    }

    pub closed spec fn fields_spec(&self) -> Seq<(Seq<char>, Val)> {
        self.fields.model()
    }

    pub closed spec fn wf(&self) -> bool {
        self.fields.wf()
    }

    /// A new empty document under `label`, with a freshly minted
    /// identifier.
    pub fn new(label: &str, generator: &mut Generator, node_id: u8) -> (r: Result<Document, Error>)
        requires
            node_id < 32,
            old(generator).wf(),
        ensures
            final(generator).wf(),
            r is Err ==> *final(generator) == *old(generator) && r->Err_0
                == Error::ClockRegression,
            r matches Ok(doc) ==> {
                &&& doc.wf()
                &&& doc.label_spec() == label@
                &&& doc.fields_spec() =~= Seq::<(Seq<char>, Val)>::empty()
                &&& doc.id_spec() == pack(
                    final(generator).ts(),
                    node_id,
                    final(generator).worker(),
                    final(generator).seq(),
                )
            },
    {
        let id = generator.next_id(node_id)?;
        Ok(Document { id, label: label.to_owned(), fields: FieldMap::new() })
    }

    /// A new empty document under `label` carrying an existing primary
    /// key.
    pub fn new_with_pk(label: &str, pk: Snowflake) -> (r: Document)
        ensures
            r.wf(),
            r.label_spec() == label@,
            r.fields_spec() =~= Seq::<(Seq<char>, Val)>::empty(),
            r.id_spec() == pk.value(),
    {
        Document { id: pk, label: label.to_owned(), fields: FieldMap::new() }
    }

    pub fn id(&self) -> (r: Snowflake)
        ensures
            r.value() == self.id_spec(),
    {
        self.id
    }

    pub fn label(&self) -> (r: &str)
        ensures
            r@ == self.label_spec(),
    {
        self.label.as_str()
    }

    pub fn fields(&self) -> (r: &FieldMap)
        ensures
            r.model() == self.fields_spec(),
    {
        &self.fields
    }

    /// Set one field, returning the value it replaces, if any.
    pub fn set_field(&mut self, k: String, v: Value) -> (r: Option<Value>)
        requires
            old(self).wf(),
        ensures
            final(self).wf(),
            final(self).id_spec() == old(self).id_spec(),
            final(self).label_spec() == old(self).label_spec(),
            final(self).fields_spec() == crate::types::spec_insert(
                old(self).fields_spec(),
                k@,
                v.model(),
            ),
            r is Some <==> crate::types::spec_contains_name(old(self).fields_spec(), k@),
            crate::types::spec_contains_name(old(self).fields_spec(), k@) ==> (r matches Some(prev)
                && prev.model() == old(self).fields_spec()[crate::types::spec_index_of(
                old(self).fields_spec(),
                k@,
            )].1),
    {
        proof {
            crate::types::lemma_index_of(self.fields.model(), k@);
        }
        self.fields.insert(k, v)
    }

    /// Encode the document into its storage rows, one per field, in
    /// field order.
    pub fn encode_rows(&self) -> (r: Vec<(Vec<u8>, Vec<u8>)>)
        ensures
            rows_views(r@) =~= doc_rows_spec(
                hash64_of(self.label_spec()),
                self.id_spec(),
                self.fields_spec(),
            ),
            forall|i: int|
                0 <= i < self.fields_spec().len() ==> encodable(
                    (#[trigger] self.fields_spec()[i]).1,
                ) && encode_utf8(self.fields_spec()[i].0).len() < 0x10000000000000000,
    {
        let label_hash = hash_str(self.label.as_str());
        field_rows(label_hash, self.id.as_u64(), &self.fields)
    }

    /// Write the document: one row per field, submitted as a single
    /// atomic batch.  All rows become visible together or none do.
    pub fn encode_into(&self, shard: &mut Shard) -> (r: Result<Snowflake, Error>)
        ensures
            r matches Ok(id) ==> id.value() == self.id_spec() && crate::shard::shard_entries(
                *final(shard),
            ) == batch_applied(
                crate::shard::shard_entries(*old(shard)),
                doc_rows_spec(hash64_of(self.label_spec()), self.id_spec(), self.fields_spec()),
            ),
            r is Err ==> r->Err_0 matches Error::Storage(_),
    {
        let rows = self.encode_rows();
        match shard.apply_batch(&rows) {
            Ok(_) => Ok(self.id),
            Err(e) => Err(e),
        }
    }

    /// Rebuild a document's fields from scanned rows, filtering by exact
    /// projected-hash membership.  Any row that fails to decode is a
    /// fatal error for the whole decode.
    pub fn decode_rows(rows: &Vec<(Vec<u8>, Vec<u8>)>, projection: &Option<Vec<u64>>) -> (r: Result<
        FieldMap,
        Error,
    >)
        ensures
            r matches Ok(m) ==> {
                &&& m.wf()
                &&& decode_rows_spec(rows_views(rows@), proj_view(*projection)) matches Some(ps)
                    && m.model() =~= spec_accumulate(Seq::empty(), ps)
            },
            r is Err ==> decode_rows_spec(rows_views(rows@), proj_view(*projection)) is None
                && r->Err_0 == Error::Decode,
    {
        let n = rows.len();
        let mut m = FieldMap::new();
        let ghost whole = rows_views(rows@);
        let ghost mut done: Seq<(Seq<char>, Val)> = Seq::empty();
        let mut i: usize = 0;
        proof {
            assert(whole.skip(0) =~= whole);
        }
        while i < n
            invariant
                n == rows@.len(),
                i <= n,
                whole == rows_views(rows@),
                m.wf(),
                m.model() =~= spec_accumulate(Seq::empty(), done),
                forall|t: Seq<(Seq<char>, Val)>|
                    decode_rows_spec(whole.skip(i as int), proj_view(*projection)) == Some(t)
                        ==> decode_rows_spec(whole, proj_view(*projection)) == Some(done + t),
                decode_rows_spec(whole.skip(i as int), proj_view(*projection)) is None
                    ==> decode_rows_spec(whole, proj_view(*projection)) is None,
            decreases n - i,
        {
            let ghost tail = whole.skip(i as int);
            proof {
                assert(tail[0] == whole[i as int]);
                assert(tail.drop_first() =~= whole.skip(i + 1));
            }
            let row_key = &rows[i].0;
            if row_key.len() != 32 {
                return Err(Error::Decode);
            }
            let h = crate::endian::read_u64_be(row_key, 16);
            let keep: bool = match projection {
                Some(hs) => contains_u64(hs, h),
                None => true,
            };
            if keep {
                match decode_pair(&rows[i].1) {
                    Ok((name, value)) => {
                        let ghost p = (name@, value.model());
                        let ghost pre_done = done;
                        proof {
                            crate::types::lemma_index_of(m.model(), name@);
                            lemma_accumulate_snoc(done, p);
                        }
                        m.insert(name, value);
                        proof {
                            done = pre_done.push(p);
                            assert(m.model() =~= spec_accumulate(Seq::empty(), done));
                            assert forall|t: Seq<(Seq<char>, Val)>|
                                decode_rows_spec(whole.skip(i + 1), proj_view(*projection))
                                    == Some(t) implies decode_rows_spec(
                                whole,
                                proj_view(*projection),
                            ) == Some(done + t) by {
                                assert(decode_rows_spec(tail, proj_view(*projection)) == Some(
                                    Seq::empty().push(p) + t,
                                ));
                                assert(pre_done + (Seq::empty().push(p) + t) =~= done + t);
                            }
                        }
                    },
                    Err(_) => {
                        return Err(Error::Decode);
                    },
                }
            }
            i = i + 1;
        }
        proof {
            assert(whole.skip(n as int) =~= Seq::<(Seq<u8>, Seq<u8>)>::empty());
            assert(decode_rows_spec(whole.skip(n as int), proj_view(*projection))
                == Some(Seq::<(Seq<char>, Val)>::empty()));
            assert(done + Seq::<(Seq<char>, Val)>::empty() =~= done);
        }
        Ok(m)
    }
}

/// The least element of a non-empty hash sequence.
pub open spec fn seq_min_u64(s: Seq<u64>) -> u64
    decreases s.len(),
{
    if s.len() <= 1 {
        s[0]
    } else {
        let m = seq_min_u64(s.drop_last());
        if s.last() < m {
            s.last()
        } else {
            m
        }
    }
}

/// The greatest element of a non-empty hash sequence.
pub open spec fn seq_max_u64(s: Seq<u64>) -> u64
    decreases s.len(),
{
    if s.len() <= 1 {
        s[0]
    } else {
        let m = seq_max_u64(s.drop_last());
        if s.last() > m {
            s.last()
        } else {
            m
        }
    }
}

/// Every element lies between the least and the greatest.
pub proof fn lemma_min_max_bounds(s: Seq<u64>)
    requires
        s.len() > 0,
    ensures
        forall|i: int| 0 <= i < s.len() ==> seq_min_u64(s) <= #[trigger] s[i] <= seq_max_u64(s),
    decreases s.len(),
{
    if s.len() > 1 {
        lemma_min_max_bounds(s.drop_last());
        assert forall|i: int| 0 <= i < s.len() implies seq_min_u64(s) <= #[trigger] s[i]
            <= seq_max_u64(s) by {
            if i < s.len() - 1 {
                assert(s.drop_last()[i] == s[i]);
            }
        }
    }
}

/// The hashes of a projection's field names.
pub open spec fn hashes_of(names: Seq<String>) -> Seq<u64> {
    Seq::new(names.len(), |i: int| hash64_of(names[i]@))
}

/// The projected hash set of an optional projection by names.
pub open spec fn proj_hashes(p: Option<Vec<String>>) -> Option<Seq<u64>> {
    match p {
        Some(names) => Some(hashes_of(names@)),
        None => None,
    }
}

/// The field-hash window the range scan uses: the least and greatest
/// projected hash, or the whole hash space without a projection.
pub open spec fn proj_window(p: Option<Vec<String>>) -> (u64, u64) {
    match p {
        Some(names) => (seq_min_u64(hashes_of(names@)), seq_max_u64(hashes_of(names@))),
        None => (0, 0xFFFF_FFFF_FFFF_FFFFu64),
    }
}

impl Document {
    /// Read the document's fields back from the storage boundary,
    /// optionally restricted to a projection of field names.  The range
    /// scan between the least and greatest projected hash is a superset,
    /// not an exact filter: rows are kept only on exact membership of
    /// their field hash in the projected set.  Rows are visited in
    /// storage-key order, so the rebuilt mapping's order reflects hash
    /// order, not write order.
    pub fn decode_from(self, shard: &Shard, projection: Option<Vec<String>>) -> (r: Result<
        Document,
        Error,
    >)
        requires
            projection matches Some(names) ==> names@.len() > 0,
        ensures
            r is Err ==> (r->Err_0 matches Error::Storage(_) || r->Err_0 == Error::Decode),
            r matches Ok(doc) ==> {
                &&& doc.wf()
                &&& doc.id_spec() == self.id_spec()
                &&& doc.label_spec() == self.label_spec()
                &&& exists|rows: Seq<(Seq<u8>, Seq<u8>)>, ps: Seq<(Seq<char>, Val)>|
                    {
                        &&& range_result(
                            crate::shard::shard_entries(*shard),
                            key_bytes(
                                FIELD_ROW_KIND,
                                hash64_of(self.label_spec()),
                                proj_window(projection).0,
                                self.id_spec(),
                            ),
                            key_bytes(
                                FIELD_ROW_KIND,
                                hash64_of(self.label_spec()),
                                proj_window(projection).1,
                                self.id_spec(),
                            ),
                            rows,
                        )
                        &&& decode_rows_spec(rows, proj_hashes(projection)) == Some(ps)
                        &&& doc.fields_spec() =~= spec_accumulate(Seq::empty(), ps)
                    }
            },
    {
        let label_hash = hash_str(self.label.as_str());
        let id_bits = self.id.as_u64();
        let lo: u64;
        let hi: u64;
        let hashes: Option<Vec<u64>>;
        match &projection {
            None => {
                lo = 0;
                hi = 0xFFFF_FFFF_FFFF_FFFFu64;
                hashes = None;
            },
            Some(names) => {
                let k = names.len();
                let mut hs: Vec<u64> = Vec::new();
                let mut i: usize = 0;
                while i < k
                    invariant
                        k == names@.len(),
                        i <= k,
                        hs@ =~= hashes_of(names@).take(i as int),
                    decreases k - i,
                {
                    hs.push(hash_str(names[i].as_str()));
                    proof {
                        assert(hs@ =~= hashes_of(names@).take(i + 1));
                    }
                    i = i + 1;
                }
                proof {
                    assert(hs@ =~= hashes_of(names@));
                }
                let mut mn: u64 = hs[0];
                let mut mx: u64 = hs[0];
                let mut j: usize = 1;
                while j < k
                    invariant
                        k == hs@.len(),
                        k >= 1,
                        1 <= j <= k,
                        mn == seq_min_u64(hs@.take(j as int)),
                        mx == seq_max_u64(hs@.take(j as int)),
                    decreases k - j,
                {
                    proof {
                        assert(hs@.take(j + 1).drop_last() =~= hs@.take(j as int));
                        assert(hs@.take(j + 1).last() == hs@[j as int]);
                    }
                    let h = hs[j];
                    if h < mn {
                        mn = h;
                    }
                    if h > mx {
                        mx = h;
                    }
                    j = j + 1;
                }
                proof {
                    assert(hs@.take(k as int) =~= hs@);
                }
                lo = mn;
                hi = mx;
                hashes = Some(hs);
            },
        }
        let (lo_key, hi_key) = range_bounds(label_hash, id_bits, lo, hi);
        let rows = match shard.range(lo_key.as_vec(), hi_key.as_vec()) {
            Ok(rows) => rows,
            Err(e) => {
                return Err(e);
            },
        };
        let fields = match Document::decode_rows(&rows, &hashes) {
            Ok(m) => m,
            Err(e) => {
                return Err(e);
            },
        };
        proof {
            assert(proj_view(hashes) == proj_hashes(projection));
        }
        Ok(Document { id: self.id, label: self.label, fields })
    }
}

/// The projected hash set, as a sequence view.
pub open spec fn proj_view(p: Option<Vec<u64>>) -> Option<Seq<u64>> {
    match p {
        Some(v) => Some(v@),
        None => None,
    }
}

/// Linear scan for a hash in the projected set.
fn contains_u64(hs: &Vec<u64>, x: u64) -> (r: bool)
    ensures
        r == hs@.contains(x),
{
    let n = hs.len();
    let mut i: usize = 0;
    while i < n
        invariant
            n == hs@.len(),
            i <= n,
            forall|j: int| 0 <= j < i ==> hs@[j] != x,
        decreases n - i,
    {
        if hs[i] == x {
            return true;
        }
        i = i + 1;
    }
    false
}

/// Whether a projection keeps a field of this name.
pub open spec fn kept(proj: Option<Seq<u64>>, name: Seq<char>) -> bool {
    match proj {
        None => true,
        Some(hs) => hs.contains(hash64_of(name)),
    }
}

/// The fields a projection keeps, in order.
pub open spec fn filter_fields(fields: Seq<(Seq<char>, Val)>, proj: Option<Seq<u64>>) -> Seq<
    (Seq<char>, Val),
>
    decreases fields.len(),
{
    if fields.len() == 0 {
        Seq::empty()
    } else if kept(proj, fields[0].0) {
        Seq::empty().push(fields[0]) + filter_fields(fields.drop_first(), proj)
    } else {
        filter_fields(fields.drop_first(), proj)
    }
}

/// Filtering keeps only members of the input, keeps exactly the fields
/// the projection admits, and preserves name distinctness.
pub proof fn lemma_filter_fields(fields: Seq<(Seq<char>, Val)>, proj: Option<Seq<u64>>)
    requires
        forall|i: int, j: int| 0 <= i < j < fields.len() ==> fields[i].0 != fields[j].0,
    ensures
        forall|x: (Seq<char>, Val)|
            #[trigger] filter_fields(fields, proj).contains(x) ==> fields.contains(x) && kept(
                proj,
                x.0,
            ),
        forall|i: int|
            0 <= i < fields.len() && kept(proj, (#[trigger] fields[i]).0) ==> filter_fields(
                fields,
                proj,
            ).contains(fields[i]),
        forall|i: int, j: int|
            0 <= i < j < filter_fields(fields, proj).len() ==> filter_fields(fields, proj)[i].0
                != filter_fields(fields, proj)[j].0,
    decreases fields.len(),
{
    if fields.len() > 0 {
        let rest = fields.drop_first();
        assert(forall|i: int| 0 <= i < rest.len() ==> rest[i] == fields[i + 1]);
        lemma_filter_fields(rest, proj);
        let f = filter_fields(fields, proj);
        let fr = filter_fields(rest, proj);
        assert forall|x: (Seq<char>, Val)| #[trigger] f.contains(x) implies fields.contains(x)
            && kept(proj, x.0) by {
            if kept(proj, fields[0].0) && x == fields[0] {
                assert(fields[0] == fields[0]);
            } else {
                assert(fr.contains(x));
                let j = choose|j: int| 0 <= j < rest.len() && rest[j] == x;
                assert(fields[j + 1] == x);
            }
        }
        assert forall|i: int|
            0 <= i < fields.len() && kept(proj, (#[trigger] fields[i]).0) implies f.contains(
            fields[i],
        ) by {
            if i == 0 {
                assert(f[0] == fields[0]);
            } else {
                assert(fr.contains(rest[i - 1]));
                let j = choose|j: int| 0 <= j < fr.len() && fr[j] == rest[i - 1];
                if kept(proj, fields[0].0) {
                    assert(f[j + 1] == fr[j]);
                } else {
                    assert(f[j] == fr[j]);
                }
            }
        }
        assert forall|i: int, j: int| 0 <= i < j < f.len() implies f[i].0 != f[j].0 by {
            if kept(proj, fields[0].0) {
                assert(f[0] == fields[0]);
                if i == 0 {
                    assert(f[j] == fr[j - 1]);
                    assert(fr.contains(fr[j - 1]));
                    let m = choose|m: int| 0 <= m < rest.len() && rest[m] == fr[j - 1];
                    assert(fields[m + 1] == fr[j - 1]);
                    assert(fields[0].0 != fields[m + 1].0);
                } else {
                    assert(f[i] == fr[i - 1] && f[j] == fr[j - 1]);
                }
            } else {
                assert(f[i] == fr[i] && f[j] == fr[j]);
            }
        }
    }
}

/// Accumulating pairwise-distinct names never replaces: the fold is
/// plain concatenation.
pub proof fn lemma_accumulate_distinct(acc: Seq<(Seq<char>, Val)>, ps: Seq<(Seq<char>, Val)>)
    requires
        forall|i: int, j: int| 0 <= i < j < (acc + ps).len() ==> (acc + ps)[i].0 != (acc + ps)[j].0,
    ensures
        spec_accumulate(acc, ps) == acc + ps,
    decreases ps.len(),
{
    if ps.len() == 0 {
        assert(acc + ps =~= acc);
    } else {
        let p0 = ps[0];
        crate::types::lemma_index_of(acc, p0.0);
        if crate::types::spec_contains_name(acc, p0.0) {
            let at = crate::types::spec_index_of(acc, p0.0);
            assert((acc + ps)[at] == acc[at]);
            assert((acc + ps)[acc.len() as int] == p0);
            assert(false);
        }
        assert(crate::types::spec_insert(acc, p0.0, p0.1) == acc.push(p0));
        assert(acc.push(p0) + ps.drop_first() =~= acc + ps);
        lemma_accumulate_distinct(acc.push(p0), ps.drop_first());
    }
}

/// Decoding the rows a document encodes into yields exactly the fields
/// the projection keeps, in field order: the superset range bound never
/// decides membership, the exact hash filter does.
pub proof fn lemma_decode_doc_rows(
    collection_hash: u64,
    id: u64,
    fields: Seq<(Seq<char>, Val)>,
    proj: Option<Seq<u64>>,
)
    requires
        forall|i: int|
            0 <= i < fields.len() ==> encodable((#[trigger] fields[i]).1) && encode_utf8(
                fields[i].0,
            ).len() < 0x10000000000000000,
    ensures
        decode_rows_spec(doc_rows_spec(collection_hash, id, fields), proj) == Some(
            filter_fields(fields, proj),
        ),
    decreases fields.len(),
{
    let rows = doc_rows_spec(collection_hash, id, fields);
    if fields.len() == 0 {
        assert(rows =~= Seq::<(Seq<u8>, Seq<u8>)>::empty());
        assert(filter_fields(fields, proj) =~= Seq::<(Seq<char>, Val)>::empty());
    } else {
        let f0 = fields[0];
        let key0 = key_bytes(FIELD_ROW_KIND, collection_hash, hash64_of(f0.0), id);
        crate::endian::lemma_be_bytes_len(FIELD_ROW_KIND as nat, 8);
        crate::endian::lemma_be_bytes_len(collection_hash as nat, 8);
        crate::endian::lemma_be_bytes_len(hash64_of(f0.0) as nat, 8);
        crate::endian::lemma_be_bytes_len(id as nat, 8);
        assert(rows[0] == (key0, pair_bytes(f0.0, f0.1)));
        assert(key0.len() == 32);
        assert(key0.subrange(16, 24) =~= be_bytes(hash64_of(f0.0) as nat, 8));
        crate::endian::lemma_from_be8_be_bytes(hash64_of(f0.0));
        let rest = fields.drop_first();
        assert(forall|i: int| 0 <= i < rest.len() ==> rest[i] == fields[i + 1]);
        assert(rows.drop_first() =~= doc_rows_spec(collection_hash, id, rest));
        lemma_decode_doc_rows(collection_hash, id, rest, proj);
        if kept(proj, f0.0) {
            crate::codec::lemma_decode_pair_bytes(f0.0, f0.1);
            assert(decode_rows_spec(rows, proj) == Some(
                Seq::empty().push(f0) + filter_fields(rest, proj),
            ));
        } else {
            assert(decode_rows_spec(rows, proj) == decode_rows_spec(rows.drop_first(), proj));
        }
    }
}

/// The document round trip: decoding the rows a document encodes into,
/// without a projection, rebuilds exactly the document's field mapping,
/// names and values alike, in field order.
pub proof fn lemma_document_round_trip(
    collection_hash: u64,
    id: u64,
    fields: Seq<(Seq<char>, Val)>,
)
    requires
        forall|i: int|
            0 <= i < fields.len() ==> encodable((#[trigger] fields[i]).1) && encode_utf8(
                fields[i].0,
            ).len() < 0x10000000000000000,
        forall|i: int, j: int| 0 <= i < j < fields.len() ==> fields[i].0 != fields[j].0,
    ensures
        decode_rows_spec(doc_rows_spec(collection_hash, id, fields), None) == Some(fields),
        spec_accumulate(Seq::empty(), fields) == fields,
{
    lemma_decode_doc_rows(collection_hash, id, fields, None);
    assert(filter_fields(fields, None) =~= fields) by {
        lemma_filter_none(fields);
    }
    assert(Seq::<(Seq<char>, Val)>::empty() + fields =~= fields);
    lemma_accumulate_distinct(Seq::empty(), fields);
}

/// Without a projection nothing is filtered out.
proof fn lemma_filter_none(fields: Seq<(Seq<char>, Val)>)
    ensures
        filter_fields(fields, None) =~= fields,
    decreases fields.len(),
{
    if fields.len() > 0 {
        lemma_filter_none(fields.drop_first());
        assert(filter_fields(fields, None) =~= Seq::empty().push(fields[0]) + fields.drop_first());
        assert(Seq::empty().push(fields[0]) + fields.drop_first() =~= fields);
    }
}

/// Projection correctness: decoding under a projection returns exactly
/// the fields whose name-hash is an exact member of the projected set —
/// never one whose hash merely falls between the projected bounds — and
/// the rebuilt mapping is exactly that filtered field list.
pub proof fn lemma_projection_exact(
    collection_hash: u64,
    id: u64,
    fields: Seq<(Seq<char>, Val)>,
    hashes: Seq<u64>,
)
    requires
        forall|i: int|
            0 <= i < fields.len() ==> encodable((#[trigger] fields[i]).1) && encode_utf8(
                fields[i].0,
            ).len() < 0x10000000000000000,
        forall|i: int, j: int| 0 <= i < j < fields.len() ==> fields[i].0 != fields[j].0,
    ensures
        decode_rows_spec(doc_rows_spec(collection_hash, id, fields), Some(hashes)) == Some(
            filter_fields(fields, Some(hashes)),
        ),
        spec_accumulate(Seq::empty(), filter_fields(fields, Some(hashes))) == filter_fields(
            fields,
            Some(hashes),
        ),
        forall|x: (Seq<char>, Val)|
            #[trigger] filter_fields(fields, Some(hashes)).contains(x) ==> fields.contains(x)
                && hashes.contains(hash64_of(x.0)),
        forall|i: int|
            0 <= i < fields.len() && hashes.contains(hash64_of((#[trigger] fields[i]).0))
                ==> filter_fields(fields, Some(hashes)).contains(fields[i]),
{
    lemma_decode_doc_rows(collection_hash, id, fields, Some(hashes));
    lemma_filter_fields(fields, Some(hashes));
    let filtered = filter_fields(fields, Some(hashes));
    assert(Seq::<(Seq<char>, Val)>::empty() + filtered =~= filtered);
    lemma_accumulate_distinct(Seq::empty(), filtered);
}

/// The scanned range is a superset of what a projection asks for: every
/// row whose field hash is a projected hash lies between the window's
/// bounding keys.  Membership itself is decided by the exact filter, not
/// by the range.
pub proof fn lemma_projected_rows_in_window(
    collection_hash: u64,
    id: u64,
    hashes: Seq<u64>,
    h: u64,
)
    requires
        hashes.len() > 0,
        hashes.contains(h),
    ensures
        crate::endian::lex_le(
            key_bytes(FIELD_ROW_KIND, collection_hash, seq_min_u64(hashes), id),
            key_bytes(FIELD_ROW_KIND, collection_hash, h, id),
        ),
        crate::endian::lex_le(
            key_bytes(FIELD_ROW_KIND, collection_hash, h, id),
            key_bytes(FIELD_ROW_KIND, collection_hash, seq_max_u64(hashes), id),
        ),
{
    lemma_min_max_bounds(hashes);
    let i = choose|i: int| 0 <= i < hashes.len() && hashes[i] == h;
    assert(seq_min_u64(hashes) <= h <= seq_max_u64(hashes));
    crate::key::lemma_storage_key_field_order_le(
        FIELD_ROW_KIND,
        collection_hash,
        seq_min_u64(hashes),
        h,
        id,
    );
    crate::key::lemma_storage_key_field_order_le(
        FIELD_ROW_KIND,
        collection_hash,
        h,
        seq_max_u64(hashes),
        id,
    );
}

/// The bindings a pair list stands for as a mapping, later pairs winning.
pub open spec fn pairs_as_map(ps: Seq<(Seq<char>, Val)>) -> Map<Seq<char>, Val>
    decreases ps.len(),
{
    if ps.len() == 0 {
        Map::empty()
    } else {
        pairs_as_map(ps.drop_last()).insert(ps.last().0, ps.last().1)
    }
}

/// With pairwise-distinct names the mapping binds exactly the pairs.
pub proof fn lemma_pairs_as_map(ps: Seq<(Seq<char>, Val)>)
    requires
        forall|i: int, j: int| 0 <= i < j < ps.len() ==> ps[i].0 != ps[j].0,
    ensures
        forall|n: Seq<char>|
            #[trigger] pairs_as_map(ps).contains_key(n) <==> exists|i: int|
                0 <= i < ps.len() && (#[trigger] ps[i]).0 == n,
        forall|i: int|
            0 <= i < ps.len() ==> pairs_as_map(ps)[(#[trigger] ps[i]).0] == ps[i].1,
    decreases ps.len(),
{
    if ps.len() > 0 {
        let front = ps.drop_last();
        assert(forall|i: int| 0 <= i < front.len() ==> front[i] == ps[i]);
        lemma_pairs_as_map(front);
        assert forall|n: Seq<char>| #[trigger]
            pairs_as_map(ps).contains_key(n) implies exists|i: int|
            0 <= i < ps.len() && (#[trigger] ps[i]).0 == n by {
            if n != ps.last().0 {
                assert(pairs_as_map(front).contains_key(n));
                assert(exists|i: int| 0 <= i < front.len() && (#[trigger] front[i]).0 == n);
                let i = choose|i: int| 0 <= i < front.len() && (#[trigger] front[i]).0 == n;
                assert(front[i] == ps[i]);
                assert(ps[i].0 == n);
            } else {
                assert(ps[ps.len() - 1].0 == n);
            }
        }
        assert forall|n: Seq<char>|
            exists|i: int|
                0 <= i < ps.len() && (#[trigger] ps[i]).0 == n implies #[trigger] pairs_as_map(
            ps,
        ).contains_key(n) by {
            let i = choose|i: int| 0 <= i < ps.len() && (#[trigger] ps[i]).0 == n;
            if i < ps.len() - 1 {
                assert(front[i].0 == n);
            }
        }
        assert forall|i: int|
            0 <= i < ps.len() implies pairs_as_map(ps)[(#[trigger] ps[i]).0] == ps[i].1 by {
            if i < ps.len() - 1 {
                assert(ps[i].0 != ps.last().0);
                assert(front[i].0 == ps[i].0);
            }
        }
    }
}

/// Decoding any row list drawn from a document's rows yields the matched
/// fields, one per row, in row order.
proof fn lemma_decode_member_rows(
    scanned: Seq<(Seq<u8>, Seq<u8>)>,
    collection_hash: u64,
    id: u64,
    fields: Seq<(Seq<char>, Val)>,
)
    requires
        forall|i: int|
            0 <= i < fields.len() ==> encodable((#[trigger] fields[i]).1) && encode_utf8(
                fields[i].0,
            ).len() < 0x10000000000000000,
        forall|j: int|
            0 <= j < scanned.len() ==> exists|i: int|
                0 <= i < fields.len() && #[trigger] scanned[j] == doc_rows_spec(
                    collection_hash,
                    id,
                    fields,
                )[i],
    ensures
        decode_rows_spec(scanned, None) matches Some(ps) && ps.len() == scanned.len() && (forall|
            j: int,
        |
            0 <= j < scanned.len() ==> exists|i: int|
                0 <= i < fields.len() && #[trigger] ps[j] == fields[i] && scanned[j]
                    == doc_rows_spec(collection_hash, id, fields)[i]),
    decreases scanned.len(),
{
    let rows = doc_rows_spec(collection_hash, id, fields);
    if scanned.len() > 0 {
        let i0 = choose|i: int| 0 <= i < fields.len() && #[trigger] scanned[0] == rows[i];
        lemma_key_bytes_fields(FIELD_ROW_KIND, collection_hash, hash64_of(fields[i0].0), id);
        assert(scanned[0].0.len() == 32);
        crate::codec::lemma_decode_pair_bytes(fields[i0].0, fields[i0].1);
        assert(decode_pair_spec(scanned[0].1) == Some((fields[i0].0, fields[i0].1)));
        let tail = scanned.drop_first();
        assert forall|j: int| 0 <= j < tail.len() implies exists|i: int|
            0 <= i < fields.len() && #[trigger] tail[j] == rows[i] by {
            assert(tail[j] == scanned[j + 1]);
            let i = choose|i: int| 0 <= i < fields.len() && #[trigger] scanned[j + 1] == rows[i];
            assert(tail[j] == rows[i]);
        }
        lemma_decode_member_rows(tail, collection_hash, id, fields);
        let tps = decode_rows_spec(tail, None)->Some_0;
        let ps = Seq::empty().push((fields[i0].0, fields[i0].1)) + tps;
        assert(decode_rows_spec(scanned, None) == Some(ps));
        assert forall|j: int| 0 <= j < scanned.len() implies exists|i: int|
            0 <= i < fields.len() && #[trigger] ps[j] == fields[i] && scanned[j] == rows[i] by {
            if j == 0 {
                assert(ps[0] == (fields[i0].0, fields[i0].1));
                assert(ps[0] == fields[i0] && scanned[0] == rows[i0]);
            } else {
                let i = choose|i: int|
                    0 <= i < fields.len() && #[trigger] tps[j - 1] == fields[i] && tail[j - 1]
                        == rows[i];
                assert(ps[j] == tps[j - 1]);
                assert(scanned[j] == tail[j - 1]);
                assert(ps[j] == fields[i] && scanned[j] == rows[i]);
            }
        }
    }
}

/// The write-read round trip through the storage boundary.  Given a
/// document whose field names carry pairwise-distinct hashes (a 64-bit
/// hash collision between two of one document's field names is the
/// documented, undetected tail risk), written as its row batch into an
/// empty tree: any sorted full-window scan of that tree decodes without
/// error, and the rebuilt pairs bind exactly the document's fields as a
/// mapping.
pub proof fn lemma_store_round_trip(
    collection_hash: u64,
    id: u64,
    fields: Seq<(Seq<char>, Val)>,
    entries: Map<Seq<u8>, Seq<u8>>,
    scanned: Seq<(Seq<u8>, Seq<u8>)>,
)
    requires
        forall|i: int|
            0 <= i < fields.len() ==> encodable((#[trigger] fields[i]).1) && encode_utf8(
                fields[i].0,
            ).len() < 0x10000000000000000,
        forall|i: int, j: int|
            0 <= i < j < fields.len() ==> hash64_of((#[trigger] fields[i]).0) != hash64_of(
                (#[trigger] fields[j]).0,
            ),
        entries == batch_applied(
            Map::empty(),
            doc_rows_spec(collection_hash, id, fields),
        ),
        range_result(
            entries,
            key_bytes(FIELD_ROW_KIND, collection_hash, 0, id),
            key_bytes(FIELD_ROW_KIND, collection_hash, 0xFFFF_FFFF_FFFF_FFFFu64, id),
            scanned,
        ),
    ensures
        decode_rows_spec(scanned, None) matches Some(ps) && pairs_as_map(ps) == pairs_as_map(
            fields,
        ),
{
    let rows = doc_rows_spec(collection_hash, id, fields);
    // Field names are distinct because their hashes are.
    assert forall|i: int, j: int|
        0 <= i < j < fields.len() implies (#[trigger] fields[i]).0 != (#[trigger] fields[j]).0 by {
        if fields[i].0 == fields[j].0 {
            assert(hash64_of(fields[i].0) == hash64_of(fields[j].0));
        }
    }
    // Row keys are distinct because the hashes are.
    assert forall|i: int, j: int|
        0 <= i < j < rows.len() implies (#[trigger] rows[i]).0 != (#[trigger] rows[j]).0 by {
        lemma_key_bytes_fields(FIELD_ROW_KIND, collection_hash, hash64_of(fields[i].0), id);
        lemma_key_bytes_fields(FIELD_ROW_KIND, collection_hash, hash64_of(fields[j].0), id);
        if rows[i].0 == rows[j].0 {
            assert(from_be8(rows[i].0.subrange(16, 24)) == from_be8(rows[j].0.subrange(16, 24)));
        }
    }
    crate::shard::lemma_batch_applied(Map::empty(), rows);
    // Each written key binds its own row's value.
    assert forall|i: int|
        0 <= i < rows.len() implies entries.contains_key((#[trigger] rows[i]).0) && entries[
        rows[i].0] == rows[i].1 by {
        assert(forall|j: int| i < j < rows.len() ==> (#[trigger] rows[j]).0 != rows[i].0);
    }
    // Every scanned row is one of the written rows.
    assert forall|j: int| 0 <= j < scanned.len() implies exists|i: int|
        0 <= i < fields.len() && #[trigger] scanned[j] == rows[i] by {
        assert(entries.contains_key(scanned[j].0) && entries[scanned[j].0] == scanned[j].1);
        let i = choose|i: int| 0 <= i < rows.len() && (#[trigger] rows[i]).0 == scanned[j].0;
        assert(entries[rows[i].0] == rows[i].1);
        assert(scanned[j] == rows[i]);
    }
    // Every written row is scanned: its key lies inside the full window.
    assert forall|i: int| #![trigger fields[i]] 0 <= i < fields.len() implies exists|j: int|
        0 <= j < scanned.len() && #[trigger] scanned[j] == rows[i] by {
        let h = hash64_of(fields[i].0);
        crate::key::lemma_storage_key_field_order_le(FIELD_ROW_KIND, collection_hash, 0, h, id);
        crate::key::lemma_storage_key_field_order_le(
            FIELD_ROW_KIND,
            collection_hash,
            h,
            0xFFFF_FFFF_FFFF_FFFFu64,
            id,
        );
        assert(entries.contains_key(rows[i].0));
        let j = choose|j: int| 0 <= j < scanned.len() && (#[trigger] scanned[j]).0 == rows[i].0;
        assert(entries[scanned[j].0] == scanned[j].1);
        assert(scanned[j] == rows[i]);
    }
    // Scanned keys are distinct: the scan is strictly ascending.
    assert forall|j1: int, j2: int|
        0 <= j1 < j2 < scanned.len() implies (#[trigger] scanned[j1]).0 != (
    #[trigger] scanned[j2]).0 by {
        crate::endian::lemma_lex_lt_irreflexive(scanned[j1].0);
    }
    lemma_decode_member_rows(scanned, collection_hash, id, fields);
    let ps = decode_rows_spec(scanned, None)->Some_0;
    // Decoded names are distinct.
    assert forall|j1: int, j2: int|
        0 <= j1 < j2 < ps.len() implies (#[trigger] ps[j1]).0 != (#[trigger] ps[j2]).0 by {
        let i1 = choose|i: int|
            0 <= i < fields.len() && #[trigger] ps[j1] == fields[i] && scanned[j1] == rows[i];
        let i2 = choose|i: int|
            0 <= i < fields.len() && #[trigger] ps[j2] == fields[i] && scanned[j2] == rows[i];
        if i1 == i2 {
            assert(scanned[j1].0 == scanned[j2].0);
        } else {
            assert(fields[i1].0 != fields[i2].0);
        }
    }
    lemma_pairs_as_map(ps);
    lemma_pairs_as_map(fields);
    // Every decoded pair is a field, and every field is decoded.
    assert forall|n: Seq<char>| #[trigger]
        pairs_as_map(ps).contains_key(n) implies pairs_as_map(fields).contains_key(n)
        && pairs_as_map(ps)[n] == pairs_as_map(fields)[n] by {
        let j = choose|j: int| 0 <= j < ps.len() && (#[trigger] ps[j]).0 == n;
        let i = choose|i: int|
            0 <= i < fields.len() && #[trigger] ps[j] == fields[i] && scanned[j] == rows[i];
        assert(fields[i].0 == n);
        assert(pairs_as_map(ps)[n] == ps[j].1);
        assert(pairs_as_map(fields)[n] == fields[i].1);
    }
    assert forall|n: Seq<char>| #[trigger]
        pairs_as_map(fields).contains_key(n) implies pairs_as_map(ps).contains_key(n) by {
        let i = choose|i: int| 0 <= i < fields.len() && (#[trigger] fields[i]).0 == n;
        let j = choose|j: int| 0 <= j < scanned.len() && #[trigger] scanned[j] == rows[i];
        let i2 = choose|i2: int|
            0 <= i2 < fields.len() && #[trigger] ps[j] == fields[i2] && scanned[j] == rows[i2];
        if i2 != i {
            assert(rows[i2].0 == rows[i].0);
            assert(false);
        }
        assert(ps[j].0 == n);
    }
    assert(pairs_as_map(ps) =~= pairs_as_map(fields));
}

/// Folding one more pair into an accumulated mapping is one insertion.
proof fn lemma_accumulate_snoc(done: Seq<(Seq<char>, Val)>, p: (Seq<char>, Val))
    ensures
        spec_accumulate(Seq::empty(), done.push(p)) == crate::types::spec_insert(
            spec_accumulate(Seq::empty(), done),
            p.0,
            p.1,
        ),
{
    lemma_accumulate_snoc_general(Seq::empty(), done, p);
}

proof fn lemma_accumulate_snoc_general(
    acc: Seq<(Seq<char>, Val)>,
    done: Seq<(Seq<char>, Val)>,
    p: (Seq<char>, Val),
)
    ensures
        spec_accumulate(acc, done.push(p)) == crate::types::spec_insert(
            spec_accumulate(acc, done),
            p.0,
            p.1,
        ),
    decreases done.len(),
{
    if done.len() == 0 {
        assert(done.push(p)[0] == p);
        assert(done.push(p).drop_first() =~= Seq::<(Seq<char>, Val)>::empty());
        assert(spec_accumulate(crate::types::spec_insert(acc, p.0, p.1), Seq::empty())
            == crate::types::spec_insert(acc, p.0, p.1));
    } else {
        assert(done.push(p)[0] == done[0]);
        assert(done.push(p).drop_first() =~= done.drop_first().push(p));
        lemma_accumulate_snoc_general(
            crate::types::spec_insert(acc, done[0].0, done[0].1),
            done.drop_first(),
            p,
        );
    }
}

} // verus!
