use jsonl_peek::index::{hash_text, HASH_BASIS};

#[test]
fn hash_is_fnv1a_over_characters() {
    assert_eq!(hash_text(""), HASH_BASIS);
    assert_eq!(hash_text("a"), 0xaf63dc4c8601ec8c);
    assert_eq!(hash_text("foobar"), 0x85944171f73967e8);
}

#[test]
fn hash_tells_close_texts_apart() {
    assert_ne!(hash_text("ab"), hash_text("ba"));
    assert_ne!(hash_text("a"), hash_text("a "));
}
