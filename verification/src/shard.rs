//! The storage boundary: an ordered key-value engine, consumed and not
//! re-implemented.  It must provide atomic batched writes and sorted
//! range iteration; the contracts here state exactly that, over the
//! entries the underlying tree holds.
use vstd::prelude::*;

use crate::endian::lex_le;
use crate::endian::lex_lt;
use crate::error::Error;

verus! {

#[verifier::external_type_specification]
#[verifier::external_body]
pub struct ExDb(sled::Db);

/// What the handle's underlying `sled` tree holds: its key-value
/// entries.  Every wrapper around the engine speaks in terms of this
/// one mapping.
pub uninterp spec fn shard_entries(s: Shard) -> Map<Seq<u8>, Seq<u8>>;

/// The tree after a batch of inserts, applied in order.
pub open spec fn batch_applied(
    m: Map<Seq<u8>, Seq<u8>>,
    rows: Seq<(Seq<u8>, Seq<u8>)>,
) -> Map<Seq<u8>, Seq<u8>>
    decreases rows.len(),
{
    if rows.len() == 0 {
        m
    } else {
        batch_applied(m.insert(rows[0].0, rows[0].1), rows.drop_first())
    }
}

/// What applying a batch means, key by key: a key written by the batch
/// maps to the value of its last occurrence, and every other key keeps
/// its old binding.
pub proof fn lemma_batch_applied(m: Map<Seq<u8>, Seq<u8>>, rows: Seq<(Seq<u8>, Seq<u8>)>)
    ensures
        forall|k: Seq<u8>|
            #[trigger] batch_applied(m, rows).contains_key(k) <==> m.contains_key(k) || exists|i: int|
                0 <= i < rows.len() && (#[trigger] rows[i]).0 == k,
        forall|i: int|
            0 <= i < rows.len() && (forall|j: int|
                i < j < rows.len() ==> (#[trigger] rows[j]).0 != rows[i].0) ==> batch_applied(
                m,
                rows,
            )[(#[trigger] rows[i]).0] == rows[i].1,
        forall|k: Seq<u8>|
            m.contains_key(k) && (forall|i: int|
                0 <= i < rows.len() ==> (#[trigger] rows[i]).0 != k) ==> #[trigger] batch_applied(
                m,
                rows,
            )[k] == m[k],
    decreases rows.len(),
{
    if rows.len() > 0 {
        let m1 = m.insert(rows[0].0, rows[0].1);
        let rest = rows.drop_first();
        assert(forall|i: int| 0 <= i < rest.len() ==> rest[i] == rows[i + 1]);
        lemma_batch_applied(m1, rest);
        assert(batch_applied(m, rows) == batch_applied(m1, rest));
        assert forall|k: Seq<u8>| #[trigger]
            batch_applied(m, rows).contains_key(k) implies m.contains_key(k) || exists|i: int|
            0 <= i < rows.len() && (#[trigger] rows[i]).0 == k by {
            assert(batch_applied(m1, rest).contains_key(k));
            if m1.contains_key(k) && !m.contains_key(k) {
                assert(rows[0].0 == k);
            } else if !m1.contains_key(k) {
                assert(exists|i: int| 0 <= i < rest.len() && (#[trigger] rest[i]).0 == k);
                let i = choose|i: int| 0 <= i < rest.len() && (#[trigger] rest[i]).0 == k;
                assert(rows[i + 1].0 == k);
            }
        }
        assert forall|k: Seq<u8>|
            m.contains_key(k) || exists|i: int|
                0 <= i < rows.len() && (#[trigger] rows[i]).0 == k implies #[trigger] batch_applied(
            m,
            rows,
        ).contains_key(k) by {
            if !m1.contains_key(k) {
                let i = choose|i: int| 0 <= i < rows.len() && (#[trigger] rows[i]).0 == k;
                assert(rest[i - 1].0 == k);
            }
        }
        assert forall|i: int|
            0 <= i < rows.len() && (forall|j: int|
                i < j < rows.len() ==> (#[trigger] rows[j]).0 != rows[i].0) implies batch_applied(
            m,
            rows,
        )[(#[trigger] rows[i]).0] == rows[i].1 by {
            if i == 0 {
                assert(forall|j: int| 0 <= j < rest.len() ==> (#[trigger] rest[j]).0 != rows[0].0);
                assert(m1.contains_key(rows[0].0) && m1[rows[0].0] == rows[0].1);
            } else {
                assert(rest[i - 1] == rows[i]);
                assert(forall|j: int|
                    i - 1 < j < rest.len() ==> (#[trigger] rest[j]).0 != rest[i - 1].0);
            }
        }
        assert forall|k: Seq<u8>|
            m.contains_key(k) && (forall|i: int|
                0 <= i < rows.len() ==> (#[trigger] rows[i]).0 != k) implies #[trigger]
            batch_applied(m, rows)[k] == m[k] by {
            assert(rows[0].0 != k);
            assert(m1.contains_key(k) && m1[k] == m[k]);
            assert(forall|i: int| 0 <= i < rest.len() ==> (#[trigger] rest[i]).0 != k);
        }
    }
}

/// The views of a vector of raw rows.
pub open spec fn rows_views(rows: Seq<(Vec<u8>, Vec<u8>)>) -> Seq<(Seq<u8>, Seq<u8>)> {
    Seq::new(rows.len(), |i: int| (rows[i].0@, rows[i].1@))
}

/// What a sorted inclusive range scan returns: pairs in strictly
/// ascending byte-lexicographic key order, every one an entry of the tree
/// with its key inside the bounds, and every in-range entry among them.
pub open spec fn range_result(
    m: Map<Seq<u8>, Seq<u8>>,
    lo: Seq<u8>,
    hi: Seq<u8>,
    rows: Seq<(Seq<u8>, Seq<u8>)>,
) -> bool {
    &&& forall|i: int|
        0 <= i < rows.len() ==> lex_le(lo, (#[trigger] rows[i]).0) && lex_le(rows[i].0, hi)
            && m.contains_key(rows[i].0) && m[rows[i].0] == rows[i].1
    &&& forall|i: int, j: int|
        0 <= i < j < rows.len() ==> lex_lt((#[trigger] rows[i]).0, (#[trigger] rows[j]).0)
    &&& forall|k: Seq<u8>|
        #[trigger] m.contains_key(k) && lex_le(lo, k) && lex_le(k, hi) ==> exists|i: int|
            0 <= i < rows.len() && (#[trigger] rows[i]).0 == k
}

/// A handle on one ordered key-value tree of the storage engine.
pub struct Shard {
    db: sled::Db,
}

impl Shard {
    /// The entries the underlying tree holds.
    pub open spec fn entries(&self) -> Map<Seq<u8>, Seq<u8>> {
        shard_entries(*self)
    }

    /// Relies on `sled::Config::open` with `create_new(false)` and
    /// high-throughput mode: a handle on the tree at `path`, created if
    /// missing, or the engine's error on an inaccessible path.  Nothing
    /// is known of what the tree already holds.
    #[verifier::external_body]
    pub fn open(path: &str) -> (r: Result<Shard, Error>)
        ensures
            r is Err ==> r->Err_0 matches Error::Storage(_),
    {
        let config = sled::Config::default().create_new(false).mode(
            sled::Mode::HighThroughput,
        ).path(path);
        match config.open() {
            Ok(db) => Ok(Shard { db }),
            Err(e) => Err(Error::Storage(format!("{e}"))),
        }
    }

    /// Relies on `sled::Tree::insert`: on success the tree maps `k` to
    /// `v` and holds everything else unchanged.  On failure nothing is
    /// known of the tree.
    #[verifier::external_body]
    pub fn put(&mut self, k: &Vec<u8>, v: &Vec<u8>) -> (r: Result<(), Error>)
        ensures
            r is Ok ==> shard_entries(*final(self)) == shard_entries(*old(self)).insert(k@, v@),
            r is Err ==> r->Err_0 matches Error::Storage(_),
    {
        match self.db.insert(k.as_slice(), v.as_slice()) {
            Ok(_) => Ok(()),
            Err(e) => Err(Error::Storage(format!("{e}"))),
        }
    }

    /// Relies on `sled::Tree::apply_batch`: on success the tree holds
    /// every pair of the batch, applied in order.  The engine recovers a
    /// batch atomically across a crash; after an error return, nothing
    /// is claimed of the tree.
    #[verifier::external_body]
    pub(crate) fn apply_batch(&mut self, rows: &Vec<(Vec<u8>, Vec<u8>)>) -> (r: Result<(), Error>)
        ensures
            r is Ok ==> shard_entries(*final(self)) == batch_applied(
                shard_entries(*old(self)),
                rows_views(rows@),
            ),
            r is Err ==> r->Err_0 matches Error::Storage(_),
    {
        let mut batch = sled::Batch::default();
        for (k, v) in rows.iter() {
            batch.insert(k.as_slice(), v.as_slice());
        }
        match self.db.apply_batch(batch) {
            Ok(_) => Ok(()),
            Err(e) => Err(Error::Storage(format!("{e}"))),
        }
    }

    /// Relies on `sled::Tree::range` over an inclusive bound pair: the
    /// entries whose keys lie between the bounds, in ascending
    /// byte-lexicographic key order, or the engine's error.
    #[verifier::external_body]
    pub(crate) fn range(&self, lo: &Vec<u8>, hi: &Vec<u8>) -> (r: Result<Vec<(Vec<u8>, Vec<u8>)>, Error>)
        ensures
            r matches Ok(rows) ==> range_result(shard_entries(*self), lo@, hi@, rows_views(rows@)),
            r is Err ==> r->Err_0 matches Error::Storage(_),
    {
        let mut out: Vec<(Vec<u8>, Vec<u8>)> = Vec::new();
        for item in self.db.range(lo.as_slice()..=hi.as_slice()) {
            match item {
                Ok((k, v)) => out.push((k.to_vec(), v.to_vec())),
                Err(e) => return Err(Error::Storage(format!("{e}"))),
            }
        }
        Ok(out)
    }
}

} // verus!
