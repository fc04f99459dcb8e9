use zfmt::db::Db;
use zfmt::elf::{EventEntry, StringEntry};
use zfmt::export::{export_at, render};

#[test]
fn export_render_basic() {
    let mut db = Db::memory();
    let fmt_hash = 0x524fb994u32;
    let events = vec![EventEntry {
        tag: 0xa1a6a340,
        full_hash: 0xcef2c6c3a1a6a340,
        format_hash: fmt_hash,
        bytecode: vec![0x4b, 0x00],
    }];
    let strings = vec![StringEntry { hash: fmt_hash, content: "{message}".to_owned() }];
    db.ingest(&events, &strings, 0).unwrap();
    let text = render(&events, &strings, &db);
    assert!(text.contains("# zfmt event database export"));
    assert!(text.contains("[event a1a6a340]"));
    assert!(text.contains("full_hash   = cef2c6c3a1a6a340"));
    assert!(text.contains("format      = {message}"));
    assert!(text.contains("bytecode    = 4b 00"));
    assert!(text.contains("[string 524fb994]"));
    assert!(text.contains("content     = {message}"));
}

#[test]
fn render_no_format_string() {
    let db = Db::memory();
    let events = vec![EventEntry { tag: 0x1234, full_hash: 0xabcd_1234, format_hash: 0, bytecode: vec![0x18, 0x00] }];
    let text = render(&events, &[], &db);
    assert!(!text.contains("format"));
    assert!(text.contains("bytecode    = 18 00"));
}

#[test]
fn render_empty() {
    let db = Db::memory();
    let text = render(&[], &[], &db);
    assert!(text.starts_with("# zfmt event database export\n"));
}

#[test]
fn export_at_fixed_time_is_exact() {
    let db = Db::memory();
    let events = vec![EventEntry { tag: 0x1, full_hash: 0x2, format_hash: 0, bytecode: vec![] }];
    let strings = vec![StringEntry { hash: 0xff, content: "é".to_owned() }];
    assert_eq!(
        export_at(&events, &strings, &db, 0),
        "# zfmt event database export\n# generated 1970-01-01T00:00:00Z\n\n[event 00000001]\nfull_hash   = 0000000000000002\nbytecode    = \n\n[string 000000ff]\ncontent     = é\n"
    );
}
