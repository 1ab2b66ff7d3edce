use elytra::epoch::EpochCell;
use elytra::epoch::global_epoch;
use elytra::epoch::global_offset;
use elytra::epoch::is_global_epoch_offset_set;
use elytra::epoch::now;
use elytra::epoch::set_global_epoch_offset;
use elytra::epoch::unix_now;
use elytra::error::Error;
use elytra::id::IdentifierAuthority;
use elytra::id::NodeCell;
use elytra::id::Snowflake;
use elytra::id::node_id;
use elytra::id::set_node_id;
use elytra::id::snowflake;
use std::collections::HashSet;

const EPOCH_MS: u64 = 1_735_689_600_000;

#[test]
fn consecutive_ids_strictly_increase() {
    let mut authority = IdentifierAuthority::new(EPOCH_MS);
    let mut generator = authority.generator().unwrap();
    let mut last = generator.next_id(3).unwrap().as_u64();
    for _ in 0..10_000u32 {
        let id = generator.next_id(3).unwrap().as_u64();
        assert!(id > last);
        last = id;
    }
}

#[test]
fn bit_packing_round_trip() {
    let mut authority = IdentifierAuthority::new(EPOCH_MS);
    for slot in 0..4u8 {
        let mut generator = authority.generator().unwrap();
        let id = generator.next_id(7).unwrap();
        assert_eq!(id.worker_id(), slot);
        assert_eq!(id.node_id(), 7);
    }
    let mut authority2 = IdentifierAuthority::new(EPOCH_MS);
    let mut g = authority2.generator().unwrap();
    for node in [0u8, 1, 15, 31] {
        let id = g.next_id(node).unwrap();
        assert_eq!(id.node_id(), node);
        assert_eq!(id.worker_id(), 0);
    }
}

#[test]
fn parse_display_round_trip() {
    for v in [0u64, 1, 61, 62, 1337, 0xDEAD_BEEF, u64::MAX - 1, u64::MAX] {
        let id = Snowflake::new(v);
        let text = id.display();
        let back = Snowflake::from_str(text.as_str()).unwrap();
        assert_eq!(back.as_u64(), v);
    }
}

#[test]
fn parse_rejects_malformed_text() {
    assert_eq!(Snowflake::from_str(""), Err(Error::IdentifierParse));
    assert_eq!(Snowflake::from_str("hello world!"), Err(Error::IdentifierParse));
    assert_eq!(Snowflake::from_str("_"), Err(Error::IdentifierParse));
}

#[test]
fn parse_rejects_text_beyond_64_bits() {
    // One digit past the largest u64: the identifier is 64-bit, so this
    // is malformed id text, not a value to truncate.
    let largest = Snowflake::new(u64::MAX).display();
    let over = format!("{largest}0");
    assert_eq!(Snowflake::from_str(over.as_str()), Err(Error::IdentifierParse));
    assert_eq!(Snowflake::from_str("ZZZZZZZZZZZZZZZZ"), Err(Error::IdentifierParse));
}

#[test]
fn display_of_known_value() {
    // base62 of 1337 in the standard alphabet is "LZ".
    assert_eq!(Snowflake::new(1337).display(), "LZ");
    // Zero still renders as one digit, never as empty text.
    assert_eq!(Snowflake::new(0).display(), "0");
}

#[test]
fn unix_timestamp_formula() {
    let ts_ms = 123_456u64;
    let id = Snowflake::new(ts_ms << 22);
    assert_eq!(id.timestamp(), ts_ms);
    assert_eq!(id.unix_timestamp(EPOCH_MS), (ts_ms + EPOCH_MS) / 1000);
}

#[test]
fn worker_slots_are_bounded() {
    let mut authority = IdentifierAuthority::new(EPOCH_MS);
    for _ in 0..32 {
        assert!(authority.generator().is_ok());
    }
    match authority.generator() {
        Err(Error::WorkerSlotsExhausted) => {}
        other => panic!("expected slot exhaustion, got {other:?}"),
    }
}

#[test]
fn many_generators_no_duplicates() {
    let mut authority = IdentifierAuthority::new(EPOCH_MS);
    let mut generators = Vec::new();
    for _ in 0..32 {
        generators.push(authority.generator().unwrap());
    }
    let total: usize = 1_000_000;
    let per = total / 32;
    let mut seen: HashSet<u64> = HashSet::with_capacity(total);
    for round in 0..per {
        for g in generators.iter_mut() {
            let id = g.next_id((round % 32) as u8).unwrap();
            assert!(seen.insert(id.as_u64()), "duplicate identifier minted");
        }
    }
    assert_eq!(seen.len(), total);
}

#[test]
fn epoch_offset_first_writer_wins() {
    let mut cell = EpochCell::new();
    assert!(!is_global_epoch_offset_set(&cell));
    set_global_epoch_offset(&mut cell, 1000);
    assert!(is_global_epoch_offset_set(&cell));
    assert_eq!(global_offset(&cell), 1000);
    set_global_epoch_offset(&mut cell, 9999);
    assert_eq!(global_offset(&cell), 1000);
    assert_eq!(global_epoch(&cell), 1000);
}

#[test]
fn now_requires_an_epoch() {
    let cell = EpochCell::new();
    assert_eq!(now(&cell), Err(Error::EpochNotSet));
}

#[test]
fn now_detects_clock_regression() {
    let mut cell = EpochCell::new();
    set_global_epoch_offset(&mut cell, u64::MAX);
    assert_eq!(now(&cell), Err(Error::ClockRegression));
}

#[test]
fn now_counts_from_the_offset() {
    let mut cell = EpochCell::new();
    set_global_epoch_offset(&mut cell, 0);
    let a = now(&cell).unwrap();
    let b = unix_now().unwrap();
    assert!(b >= a);
    assert!(b - a < 60_000);
}

#[test]
fn node_cell_is_write_once_input() {
    let mut cell = NodeCell::new();
    set_node_id(&mut cell, 13);
    assert_eq!(node_id(&cell), 13);
}

#[test]
fn snowflake_free_function_mints() {
    let mut authority = IdentifierAuthority::new(EPOCH_MS);
    let mut generator = authority.generator().unwrap();
    let a = snowflake(&mut generator, 2).unwrap();
    let b = snowflake(&mut generator, 2).unwrap();
    assert!(a.as_u64() < b.as_u64());
    assert_eq!(a.node_id(), 2);
}
