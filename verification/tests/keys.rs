use elytra::field::Field;
use elytra::id::Snowflake;
use elytra::key::Key;
use elytra::key::PartitionKey;
use elytra::key::range_bounds;
use elytra::key::storage_key;
use elytra::types::Value;
use elytra::util::hash_str;

fn be(x: u64) -> [u8; 8] {
    x.to_be_bytes()
}

#[test]
fn storage_key_layout_is_four_big_endian_fields() {
    let key = storage_key(0x01, 0x0203_0405_0607_0809, 0x0A0B_0C0D_0E0F_1011, 0x1213_1415_1617_1819);
    let bytes = key.as_vec();
    assert_eq!(bytes.len(), 32);
    assert_eq!(&bytes[0..8], &be(0x01));
    assert_eq!(&bytes[8..16], &be(0x0203_0405_0607_0809));
    assert_eq!(&bytes[16..24], &be(0x0A0B_0C0D_0E0F_1011));
    assert_eq!(&bytes[24..32], &be(0x1213_1415_1617_1819));
}

#[test]
fn storage_keys_sort_by_field_hash() {
    let pairs = [(0u64, 1u64), (1, 2), (0xFF, 0x100), (7, u64::MAX)];
    for (a, b) in pairs {
        let ka = storage_key(1, 42, a, 9);
        let kb = storage_key(1, 42, b, 9);
        assert!(ka.as_vec().as_slice() < kb.as_vec().as_slice());
    }
}

#[test]
fn storage_key_field_hash_reads_back() {
    let key = storage_key(1, 42, 0xDEAD_BEEF_0BAD_F00D, 9);
    assert_eq!(key.field_hash(), 0xDEAD_BEEF_0BAD_F00D);
}

#[test]
fn key_from_bytes_round_trip() {
    let raw: Vec<u8> = (0u8..32).collect();
    let key = Key::from_bytes(raw.clone());
    assert_eq!(key.as_vec(), &raw);
    assert_eq!(key.into_vec(), raw);
}

#[test]
fn partition_key_round_trip() {
    for (tag, id) in [(0u64, 0u64), (1, 2), (u64::MAX, u64::MAX), (0xABCD, 0x1234_5678_9ABC_DEF0)] {
        let pk = PartitionKey::new(tag, Snowflake::new(id));
        assert_eq!(pk.tag(), tag);
        assert_eq!(pk.id().as_u64(), id);
    }
}

#[test]
fn range_bounds_are_storage_keys() {
    let (lo, hi) = range_bounds(42, 9, 5, 10);
    assert_eq!(lo.as_vec(), storage_key(0x01, 42, 5, 9).as_vec());
    assert_eq!(hi.as_vec(), storage_key(0x01, 42, 10, 9).as_vec());
    assert!(lo.as_vec().as_slice() < hi.as_vec().as_slice());
}

#[test]
fn field_key_is_the_hashed_name() {
    let field = Field::new(String::from("name"), Value::Null);
    let expected = be(hash_str("name"));
    assert_eq!(field.key().as_vec().as_slice(), &expected);
}

#[test]
fn hash_is_deterministic_and_spreads() {
    assert_eq!(hash_str("users"), hash_str("users"));
    assert_ne!(hash_str("users"), hash_str("user"));
    assert_ne!(hash_str(""), hash_str("a"));
}
