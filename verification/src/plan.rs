//! Plans: the two storage-facing stages of one request.  A logical plan
//! is validated and resolved; a physical plan is storage-ready raw keys
//! and values.  Each stage is produced once and consumed once.
use vstd::prelude::*;

use crate::document::doc_rows_spec;
use crate::document::field_rows;
use crate::error::Error;
use crate::id::Snowflake;
use crate::shard::Shard;
use crate::shard::batch_applied;
use crate::shard::rows_views;
use crate::shard::shard_entries;
use crate::types::FieldMap;

verus! {

/// A validated, resolved request: the identifier is always present, the
/// collection name already resolved to its hash.
#[derive(Debug, PartialEq)]
pub enum LogicalPlan {
    UpsertDocument { id: Snowflake, collection_hash: u64, fields: FieldMap },
}

/// A storage-ready operation: one raw row, or an atomic batch of rows.
#[derive(Debug, PartialEq)]
pub enum PhysicalPlan {
    PutKey(Vec<u8>, Vec<u8>),
    Batch(Vec<(Vec<u8>, Vec<u8>)>),
}

impl LogicalPlan {
    /// Lower to a physical plan: the per-field column layout, one row
    /// per field, which is the layout that supports projection-correct
    /// reads.
    pub fn execute(self) -> (r: Result<PhysicalPlan, Error>)
        ensures
            self matches LogicalPlan::UpsertDocument { id, collection_hash, fields } ==> (
            r matches Ok(p) && p matches PhysicalPlan::Batch(rows) && rows_views(rows@)
                =~= doc_rows_spec(collection_hash, id.value(), fields.model())),
    {
        match self {
            LogicalPlan::UpsertDocument { id, collection_hash, fields } => {
                let rows = field_rows(collection_hash, id.as_u64(), &fields);
                Ok(PhysicalPlan::Batch(rows))
            },
        }
    }
}

impl PhysicalPlan {
    /// Issue the operation against the storage boundary; the boundary's
    /// error is propagated unchanged.
    pub fn execute(self, shard: &mut Shard) -> (r: Result<Option<()>, Error>)
        ensures
            r is Ok ==> r->Ok_0 is None,
            self matches PhysicalPlan::PutKey(k, v) ==> (r is Ok ==> shard_entries(*final(shard))
                == shard_entries(*old(shard)).insert(k@, v@)),
            self matches PhysicalPlan::Batch(rows) ==> (r is Ok ==> shard_entries(*final(shard))
                == batch_applied(shard_entries(*old(shard)), rows_views(rows@))),
    {
        match self {
            PhysicalPlan::PutKey(k, v) => {
                match shard.put(&k, &v) {
                    Ok(_) => Ok(None),
                    Err(e) => Err(e),
                }
            },
            PhysicalPlan::Batch(rows) => {
                match shard.apply_batch(&rows) {
                    Ok(_) => Ok(None),
                    Err(e) => Err(e),
                }
            },
        }
    }
}

} // verus!
