use zfmt::db::{secs_to_iso8601, Db, DbError};
use zfmt::elf::{EventEntry, StringEntry};

fn evt(tag: u32, fh: u64, fmth: u32, bc: &[u8]) -> EventEntry {
    EventEntry { tag, full_hash: fh, format_hash: fmth, bytecode: bc.to_vec() }
}

fn str_(hash: u32, content: &str) -> StringEntry {
    StringEntry { hash, content: content.to_owned() }
}

#[test]
fn create_and_ingest() {
    let mut db = Db::memory();
    let events = vec![evt(0xaabb, 0xcafe0000_0000aabb, 0x1234, &[0x20, 0x00])];
    let strings = vec![str_(0x1234, "hello {x}")];
    let stats = db.ingest(&events, &strings, 1).unwrap();
    assert_eq!(stats.events_added, 1);
    assert_eq!(stats.strings_added, 1);
}

#[test]
fn idempotent_reingest() {
    let mut db = Db::memory();
    let events = vec![evt(0x1111, 0xcafe_1111, 0, &[0x00])];
    let strings = vec![];
    db.ingest(&events, &strings, 1).unwrap();
    let stats = db.ingest(&events, &strings, 1).unwrap();
    assert_eq!(stats.events_skipped, 1);
    assert_eq!(stats.events_added, 0);
}

#[test]
fn full_hash_collision_rejected() {
    let mut db = Db::memory();
    let e1 = evt(0xaaaa, 0xdeadbeef_deadbeef, 0, &[0x00]);
    let e2 = evt(0xbbbb, 0xdeadbeef_deadbeef, 0, &[0x08]);
    db.ingest(&[e1], &[], 1).unwrap();
    assert!(db.ingest(&[e2], &[], 2).is_err());
}

#[test]
fn wire_collision_rejected() {
    let mut db = Db::memory();
    let e1 = evt(0xcccc, 0x0000_0001, 0, &[0x00]);
    let e2 = evt(0xcccc, 0x0000_0002, 0, &[0x00]);
    db.ingest(&[e1], &[], 1).unwrap();
    assert!(db.ingest(&[e2], &[], 2).is_err());
}

#[test]
fn string_collision_rejected() {
    let mut db = Db::memory();
    let s1 = str_(0xffff, "original");
    let s2 = str_(0xffff, "different");
    db.ingest(&[], &[s1], 1).unwrap();
    assert!(db.ingest(&[], &[s2], 2).is_err());
}

#[test]
fn verify_present() {
    let mut db = Db::memory();
    let e = evt(0x1234, 0xabcd_1234, 0, &[0x00]);
    db.ingest(&[e.clone()], &[], 1).unwrap();
    let missing = db.verify(&[e]).unwrap();
    assert!(missing.is_empty());
}

#[test]
fn verify_missing() {
    let db = Db::memory();
    let e = evt(0x9999, 0xaaaa_9999, 0, &[0x00]);
    let missing = db.verify(&[e]).unwrap();
    assert_eq!(missing, vec!["00009999".to_owned()]);
}

#[test]
fn merge() {
    let mut src = Db::memory();
    let mut dst = Db::memory();
    src.ingest(&[evt(0x1, 0x1, 0, &[0x00])], &[str_(0x10, "fmt")], 0).unwrap();
    let stats = dst.merge_from(&src).unwrap();
    assert_eq!(stats.events_added, 1);
    assert_eq!(stats.strings_added, 1);
    let stats2 = dst.merge_from(&src).unwrap();
    assert_eq!(stats2.events_skipped, 1);
}

#[test]
fn check_clean_elf() {
    let mut db = Db::memory();
    let e = evt(0x1234, 0xabcd_1234, 0, &[0x00]);
    db.ingest(&[e.clone()], &[], 1).unwrap();
    let new = evt(0x5678, 0xabcd_5678, 0, &[0x00]);
    let stats = db.check(&[e.clone(), new], &[]).unwrap();
    assert_eq!(stats.events_existing, 1);
    assert_eq!(stats.events_new, 1);
}

#[test]
fn check_same_elf_collision() {
    let db = Db::memory();
    let e1 = evt(0xaaaa, 0x0000_0001, 0, &[0x00]);
    let e2 = evt(0xaaaa, 0x0000_0002, 0, &[0x00]);
    assert!(db.check(&[e1, e2], &[]).is_err());
}

#[test]
fn check_wire_collision_with_db() {
    let mut db = Db::memory();
    db.ingest(&[evt(0xbbbb, 0x1111_bbbb, 0, &[0x00])], &[], 1).unwrap();
    let e = evt(0xbbbb, 0x2222_bbbb, 0, &[0x00]);
    assert!(db.check(&[e], &[]).is_err());
}

#[test]
fn check_does_not_modify_db() {
    let db = Db::memory();
    let e = evt(0xcccc, 0xabcd_cccc, 0, &[0x00]);
    db.check(&[e.clone()], &[]).unwrap();
    let missing = db.verify(&[e]).unwrap();
    assert_eq!(missing.len(), 1, "check should not have written to the database");
}

#[test]
fn secs_to_iso8601_epoch() {
    assert_eq!(secs_to_iso8601(0), "1970-01-01T00:00:00Z");
}

#[test]
fn secs_to_iso8601_known() {
    assert_eq!(secs_to_iso8601(1779580800), "2026-05-24T00:00:00Z");
}

#[test]
fn secs_to_iso8601_leap_day_and_end_of_day() {
    assert_eq!(secs_to_iso8601(951868799), "2000-02-29T23:59:59Z");
    assert_eq!(secs_to_iso8601(951868800), "2000-03-01T00:00:00Z");
}

#[test]
fn collision_errors_name_the_entries() {
    let mut db = Db::memory();
    db.ingest(&[evt(0xaaaa, 0x5555, 0, &[0])], &[str_(0x1, "a")], 1).unwrap();
    assert_eq!(
        db.ingest(&[evt(0xbbbb, 0x5555, 0, &[0])], &[], 2),
        Err(DbError::FullHashCollision { full_hash: 0x5555, existing_tag: 0xaaaa, tag: 0xbbbb })
    );
    assert_eq!(
        db.ingest(&[evt(0xaaaa, 0x6666, 0, &[0])], &[], 2),
        Err(DbError::WireCollision { tag: 0xaaaa, existing_full_hash: 0x5555, full_hash: 0x6666 })
    );
    assert_eq!(db.ingest(&[], &[str_(0x1, "b")], 2), Err(DbError::StringCollision { hash: 0x1 }));
    assert_eq!(db.lookup_string(0x1), Some("a".to_owned()));
    assert_eq!(db.all_events().len(), 1);
}

#[test]
fn ingest_records_each_build_once() {
    let mut db = Db::memory();
    db.ingest_at(&[], &[], 7, 0).unwrap();
    db.ingest_at(&[], &[], 7, 86400).unwrap();
    assert_eq!(db.builds().len(), 1);
    assert_eq!(db.builds()[0].build_id, 7);
    assert_eq!(db.builds()[0].ingested_at, "1970-01-01T00:00:00Z");
}
