use zfmt::schema::{FieldDef, FieldKind, Scalar, Schema};

#[test]
fn test_duplicate_format() {
    let foo = Schema::record("Foo", Some("{0:c}"), vec![FieldDef { name: "0".to_owned(), kind: FieldKind::Scalar(Scalar::U32) }]).unwrap();
    let bar = Schema::record("Bar", Some("{0:c}"), vec![FieldDef { name: "0".to_owned(), kind: FieldKind::Scalar(Scalar::U32) }]).unwrap();
    assert_eq!(foo.format_hash(), bar.format_hash());
    assert_ne!(foo.tag(), bar.tag());
    let foo0: u32 = 0x41424344;
    let bar0: u32 = 0x45464748;
    assert_eq!(foo0, 0x41424344);
    assert_eq!(bar0, 0x45464748);
}
