//! The untrusted request stage and its compilation into a logical plan.
//! Compiling a select fails immediately with the unimplemented-feature
//! error — a declared non-goal, distinguishable from transient failures
//! so that callers do not retry it.
use vstd::prelude::*;

use crate::error::Error;
use crate::id::Generator;
use crate::id::Snowflake;
use crate::id::base62_decoded;
use crate::id::pack;
use crate::plan::LogicalPlan;
use crate::types::FieldMap;
use crate::util::hash64_of;
use crate::util::hash_str;

verus! {

/// An untrusted request: the identifier, when present, is still text.
#[derive(Debug)]
pub enum Query {
    Upsert { id: Option<String>, collection: String, input: FieldMap },
    Select { id: Option<String>, collection: String, projection: Vec<String> },
}

impl Query {
    /// Validate and resolve the request.  An upsert without an
    /// identifier mints one from the generator; malformed identifier
    /// text is a parse error; a select is the unimplemented feature.
    pub fn build(self, generator: &mut Generator, node_id: u8) -> (r: Result<LogicalPlan, Error>)
        requires
            node_id < 32,
            old(generator).wf(),
        ensures
            final(generator).wf(),
            final(generator).worker() == old(generator).worker(),
            self matches Query::Select { .. } ==> r == Err::<LogicalPlan, Error>(
                Error::Unimplemented,
            ) && *final(generator) == *old(generator),
            self matches Query::Upsert { id: given, collection, input } ==> {
                &&& (r matches Ok(p) ==> (p matches LogicalPlan::UpsertDocument {
                    id: pid,
                    collection_hash,
                    fields,
                } && collection_hash == hash64_of(collection@) && fields == input && (
                match given {
                    Some(text) => base62_decoded(text@) == Some(pid.value()),
                    None => pid.value() == pack(
                        final(generator).ts(),
                        node_id,
                        final(generator).worker(),
                        final(generator).seq(),
                    ),
                })))
                &&& (given matches Some(text) && base62_decoded(text@) is None ==> r == Err::<
                    LogicalPlan,
                    Error,
                >(Error::IdentifierParse))
                &&& (given matches Some(text) && base62_decoded(text@) is Some ==> r is Ok)
                &&& (given is None && r is Err ==> r->Err_0 == Error::ClockRegression)
            },
    {
        match self {
            Query::Upsert { id, collection, input } => {
                let pid = match id {
                    Some(text) => {
                        match Snowflake::from_str(text.as_str()) {
                            Ok(parsed) => parsed,
                            Err(e) => {
                                return Err(e);
                            },
                        }
                    },
                    None => {
                        match generator.next_id(node_id) {
                            Ok(minted) => minted,
                            Err(e) => {
                                return Err(e);
                            },
                        }
                    },
                };
                let collection_hash = hash_str(collection.as_str());
                Ok(LogicalPlan::UpsertDocument { id: pid, collection_hash, fields: input })
            },
            Query::Select { .. } => Err(Error::Unimplemented),
        }
    }
}

} // verus!
