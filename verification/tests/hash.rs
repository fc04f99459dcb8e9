use zfmt::hash::{canonical_type, fnv1a_64, struct_hash_input, tag_of, variant_hash_input, zfmt_str};

#[test]
fn example_hash() {
    let input = struct_hash_input(
        "Quick",
        Some("The quick brown {clever_animal} jumped over the lazy {lazy_animal} {n} times!"),
        &[("clever_animal", "str"), ("lazy_animal", "str"), ("n", "u32")],
    );
    assert_eq!(
        input,
        "struct Quick\n\
         format The quick brown {clever_animal} jumped over the lazy {lazy_animal} {n} times!\n\
         field clever_animal str\n\
         field lazy_animal str\n\
         field n u32\n"
    );
    let h = fnv1a_64(&input);
    assert_eq!(h as u32, tag_of(h));
    assert_eq!(h, fnv1a_64(&input));
}

#[test]
fn no_fields_no_format() {
    let input = struct_hash_input("Empty", None, &[]);
    assert_eq!(input, "struct Empty\n");
    let h = fnv1a_64(&input);
    assert_ne!(h, 0);
}

#[test]
fn canonical_type_str() {
    assert_eq!(canonical_type("&str"), "str");
    assert_eq!(canonical_type("String"), "str");
    assert_eq!(canonical_type("u32"), "u32");
    assert_eq!(canonical_type("[u8; 4]"), "[u8; 4]");
}

#[test]
fn variant_hash_input_basic() {
    let input = variant_hash_input(
        "SensorEvent",
        "Temperature",
        Some("temperature={celsius}"),
        &[("celsius", "f32")],
    );
    assert_eq!(
        input,
        "variant SensorEvent::Temperature\n\
         format temperature={celsius}\n\
         field celsius f32\n"
    );
}

#[test]
fn fnv1a_known_values() {
    assert_eq!(fnv1a_64(""), 0xcbf29ce484222325);
    assert_eq!(fnv1a_64("a"), 0xaf63dc4c8601ec8c);
    assert_eq!(tag_of(0x1234_5678_9abc_def0), 0x9abc_def0);
    assert_eq!(zfmt_str("a"), 0x8601ec8c);
}
