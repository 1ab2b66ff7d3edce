use elytra::document::Document;
use elytra::epoch::unix_now;
use elytra::error::Error;
use elytra::id::IdentifierAuthority;
use elytra::id::Snowflake;
use elytra::plan::LogicalPlan;
use elytra::plan::PhysicalPlan;
use elytra::query::Query;
use elytra::shard::Shard;
use elytra::types::FieldMap;
use elytra::types::Value;
use elytra::util::hash_str;

const EPOCH_MS: u64 = 1_735_689_600_000;

fn fresh_shard(tag: &str) -> Shard {
    let stamp = unix_now().unwrap();
    let path = format!("/tmp/elytra_test_{tag}_{stamp}");
    Shard::open(path.as_str()).unwrap()
}

fn minted(authority: &mut IdentifierAuthority) -> Snowflake {
    let mut generator = authority.generator().unwrap();
    generator.next_id(0).unwrap()
}

#[test]
fn document_round_trip_no_fields() {
    let mut shard = fresh_shard("rt0");
    let mut authority = IdentifierAuthority::new(EPOCH_MS);
    let doc = Document::new_with_pk("things", minted(&mut authority));
    doc.encode_into(&mut shard).unwrap();
    let probe = Document::new_with_pk("things", doc.id());
    let back = probe.decode_from(&shard, None).unwrap();
    assert_eq!(back.fields().len(), 0);
}

#[test]
fn document_round_trip_one_field() {
    let mut shard = fresh_shard("rt1");
    let mut authority = IdentifierAuthority::new(EPOCH_MS);
    let mut doc = Document::new_with_pk("things", minted(&mut authority));
    doc.set_field(String::from("name"), Value::String(String::from("Ada")));
    doc.encode_into(&mut shard).unwrap();
    let probe = Document::new_with_pk("things", doc.id());
    let back = probe.decode_from(&shard, None).unwrap();
    assert_eq!(back.fields().len(), 1);
    assert_eq!(back.fields().get("name"), Some(&Value::String(String::from("Ada"))));
}

#[test]
fn document_round_trip_many_fields() {
    let mut shard = fresh_shard("rtn");
    let mut authority = IdentifierAuthority::new(EPOCH_MS);
    let mut doc = Document::new_with_pk("things", minted(&mut authority));
    doc.set_field(String::from("a"), Value::UInt(1));
    doc.set_field(String::from("b"), Value::Int(-2));
    doc.set_field(String::from("c"), Value::Bool(true));
    doc.set_field(String::from("d"), Value::Bytes(vec![9, 8, 7]));
    doc.set_field(String::from("e"), Value::F64Bits(1.5f64.to_bits()));
    doc.encode_into(&mut shard).unwrap();
    let probe = Document::new_with_pk("things", doc.id());
    let back = probe.decode_from(&shard, None).unwrap();
    assert_eq!(back.fields().len(), 5);
    assert_eq!(back.fields().get("a"), Some(&Value::UInt(1)));
    assert_eq!(back.fields().get("b"), Some(&Value::Int(-2)));
    assert_eq!(back.fields().get("c"), Some(&Value::Bool(true)));
    assert_eq!(back.fields().get("d"), Some(&Value::Bytes(vec![9, 8, 7])));
    assert_eq!(back.fields().get("e"), Some(&Value::F64Bits(1.5f64.to_bits())));
    assert_eq!(back.id().as_u64(), doc.id().as_u64());
    assert_eq!(back.label(), "things");
}

#[test]
fn projection_returns_exactly_the_requested_fields() {
    let mut shard = fresh_shard("proj");
    let mut authority = IdentifierAuthority::new(EPOCH_MS);
    let mut doc = Document::new_with_pk("things", minted(&mut authority));
    doc.set_field(String::from("a"), Value::UInt(1));
    doc.set_field(String::from("b"), Value::UInt(2));
    doc.set_field(String::from("c"), Value::UInt(3));
    doc.encode_into(&mut shard).unwrap();
    let probe = Document::new_with_pk("things", doc.id());
    let back = probe
        .decode_from(&shard, Some(vec![String::from("a"), String::from("c")]))
        .unwrap();
    assert_eq!(back.fields().len(), 2);
    assert_eq!(back.fields().get("a"), Some(&Value::UInt(1)));
    assert_eq!(back.fields().get("c"), Some(&Value::UInt(3)));
    assert_eq!(back.fields().get("b"), None);
}

#[test]
fn reupsert_overwrites_field_rows() {
    let mut shard = fresh_shard("over");
    let mut authority = IdentifierAuthority::new(EPOCH_MS);
    let mut doc = Document::new_with_pk("things", minted(&mut authority));
    doc.set_field(String::from("a"), Value::UInt(1));
    doc.encode_into(&mut shard).unwrap();
    doc.set_field(String::from("a"), Value::UInt(2));
    doc.encode_into(&mut shard).unwrap();
    let probe = Document::new_with_pk("things", doc.id());
    let back = probe.decode_from(&shard, None).unwrap();
    assert_eq!(back.fields().len(), 1);
    assert_eq!(back.fields().get("a"), Some(&Value::UInt(2)));
}

#[test]
fn decode_rows_rejects_malformed_keys() {
    let rows = vec![(vec![1, 2, 3], vec![0, 0, 0, 0, 0, 0, 0, 0, 0])];
    assert_eq!(Document::decode_rows(&rows, &None), Err(Error::Decode));
}

#[test]
fn decode_rows_rejects_corrupt_values() {
    let key: Vec<u8> = (0u8..32).collect();
    let rows = vec![(key, vec![99, 99])];
    assert_eq!(Document::decode_rows(&rows, &None), Err(Error::Decode));
}

#[test]
fn upsert_without_id_mints_one() {
    let mut authority = IdentifierAuthority::new(EPOCH_MS);
    let mut generator = authority.generator().unwrap();
    let mut fields = FieldMap::new();
    fields.insert(String::from("name"), Value::String(String::from("Ada")));
    let query = Query::Upsert { id: None, collection: String::from("users"), input: fields };
    let plan = query.build(&mut generator, 0).unwrap();
    let LogicalPlan::UpsertDocument { id, collection_hash, fields } = plan;
    assert!(id.as_u64() > 0);
    assert_eq!(collection_hash, hash_str("users"));
    assert_eq!(fields.get("name"), Some(&Value::String(String::from("Ada"))));
}

#[test]
fn upsert_with_id_parses_it() {
    let mut authority = IdentifierAuthority::new(EPOCH_MS);
    let mut generator = authority.generator().unwrap();
    let wanted = Snowflake::new(123_456_789);
    let query = Query::Upsert {
        id: Some(wanted.display()),
        collection: String::from("users"),
        input: FieldMap::new(),
    };
    let plan = query.build(&mut generator, 0).unwrap();
    let LogicalPlan::UpsertDocument { id, .. } = plan;
    assert_eq!(id.as_u64(), wanted.as_u64());
}

#[test]
fn upsert_with_malformed_id_fails_parsing() {
    let mut authority = IdentifierAuthority::new(EPOCH_MS);
    let mut generator = authority.generator().unwrap();
    let query = Query::Upsert {
        id: Some(String::from("not base62!")),
        collection: String::from("users"),
        input: FieldMap::new(),
    };
    assert_eq!(query.build(&mut generator, 0), Err(Error::IdentifierParse));
}

#[test]
fn select_always_fails_unimplemented() {
    let mut authority = IdentifierAuthority::new(EPOCH_MS);
    let mut generator = authority.generator().unwrap();
    for _ in 0..2 {
        let query = Query::Select {
            id: None,
            collection: String::from("users"),
            projection: vec![String::from("name")],
        };
        assert_eq!(query.build(&mut generator, 0), Err(Error::Unimplemented));
    }
}

#[test]
fn query_to_storage_and_back() {
    let mut shard = fresh_shard("q2s");
    let mut authority = IdentifierAuthority::new(EPOCH_MS);
    let mut generator = authority.generator().unwrap();
    let mut fields = FieldMap::new();
    fields.insert(String::from("name"), Value::String(String::from("Ada")));
    let query = Query::Upsert { id: None, collection: String::from("users"), input: fields };
    let logical = query.build(&mut generator, 0).unwrap();
    let LogicalPlan::UpsertDocument { id, .. } = &logical;
    let doc_id = *id;
    let physical = logical.execute().unwrap();
    match &physical {
        PhysicalPlan::Batch(rows) => assert_eq!(rows.len(), 1),
        other => panic!("expected a batch, got {other:?}"),
    }
    assert_eq!(physical.execute(&mut shard).unwrap(), None);
    let probe = Document::new_with_pk("users", doc_id);
    let back = probe.decode_from(&shard, None).unwrap();
    assert_eq!(back.fields().get("name"), Some(&Value::String(String::from("Ada"))));
}

#[test]
fn put_key_writes_a_raw_row() {
    let mut shard = fresh_shard("raw");
    let plan = PhysicalPlan::PutKey(vec![1, 2, 3], vec![4, 5, 6]);
    assert_eq!(plan.execute(&mut shard).unwrap(), None);
}

#[test]
fn minted_document_carries_its_collection() {
    let mut authority = IdentifierAuthority::new(EPOCH_MS);
    let mut generator = authority.generator().unwrap();
    let doc = Document::new("users", &mut generator, 1).unwrap();
    assert_eq!(doc.label(), "users");
    assert_eq!(doc.fields().len(), 0);
    assert_eq!(doc.id().node_id(), 1);
}

#[test]
fn open_propagates_storage_errors() {
    match Shard::open("/dev/null/not_a_directory") {
        Err(Error::Storage(_)) => {}
        Err(other) => panic!("expected a storage error, got {other:?}"),
        Ok(_) => panic!("expected a storage error, got a handle"),
    }
}
