use jsonl_peek::path::{FieldPath, Segment};

#[test]
fn parses_a_bare_key() {
    let path = FieldPath::parse("role").unwrap();
    assert_eq!(path.segments(), &[Segment::Key("role".into())]);
}

#[test]
fn parses_nested_keys() {
    let path = FieldPath::parse("meta.source").unwrap();
    assert_eq!(
        path.segments(),
        &[Segment::Key("meta".into()), Segment::Key("source".into())]
    );
}

#[test]
fn parses_a_positive_index() {
    let path = FieldPath::parse("messages[0].content").unwrap();
    assert_eq!(
        path.segments(),
        &[
            Segment::Key("messages".into()),
            Segment::Index(0),
            Segment::Key("content".into()),
        ]
    );
}

#[test]
fn parses_a_negative_index() {
    let path = FieldPath::parse("messages[-1].content").unwrap();
    assert_eq!(
        path.segments(),
        &[
            Segment::Key("messages".into()),
            Segment::Index(-1),
            Segment::Key("content".into()),
        ]
    );
}

#[test]
fn parses_a_wildcard_index() {
    let path = FieldPath::parse("messages[].role").unwrap();
    assert_eq!(
        path.segments(),
        &[
            Segment::Key("messages".into()),
            Segment::Every,
            Segment::Key("role".into()),
        ]
    );
}

#[test]
fn parses_a_leading_index() {
    let path = FieldPath::parse("[0].id").unwrap();
    assert_eq!(
        path.segments(),
        &[Segment::Index(0), Segment::Key("id".into())]
    );
}

#[test]
fn round_trips_through_display() {
    let path = FieldPath::parse("messages[].role").unwrap();
    assert_eq!(path.to_string(), "messages[].role");
    assert_eq!(path.as_str(), "messages[].role");
}

#[test]
fn rejects_empty_path() {
    assert!(FieldPath::parse("").is_err());
}

#[test]
fn rejects_leading_dot() {
    assert!(FieldPath::parse(".a").is_err());
}

#[test]
fn rejects_trailing_dot() {
    assert!(FieldPath::parse("a.").is_err());
}

#[test]
fn rejects_double_dot() {
    assert!(FieldPath::parse("a..b").is_err());
}

#[test]
fn rejects_unterminated_bracket() {
    assert!(FieldPath::parse("a[0").is_err());
}

#[test]
fn rejects_stray_close_bracket() {
    assert!(FieldPath::parse("a]0").is_err());
}

#[test]
fn rejects_non_numeric_index() {
    assert!(FieldPath::parse("a[x]").is_err());
}

#[test]
fn rejects_two_keys_with_no_separator() {
    assert!(FieldPath::parse("a[0]b").is_err());
}

fn message_of(input: &str) -> String {
    FieldPath::parse(input).unwrap_err().to_string()
}

#[test]
fn error_messages_name_the_problem_and_the_input() {
    assert_eq!(message_of(""), "field path is empty");
    assert_eq!(message_of(".a"), "unexpected '.' at position 0 in '.a'");
    assert_eq!(message_of("a."), "trailing '.' in 'a.'");
    assert_eq!(message_of("a..b"), "unexpected '.' at position 2 in 'a..b'");
    assert_eq!(message_of("a[0"), "unterminated '[' in 'a[0'");
    assert_eq!(message_of("a]0"), "unexpected ']' at position 1 in 'a]0'");
    assert_eq!(message_of("a[x]"), "invalid array index 'x' in 'a[x]'");
    assert_eq!(message_of("a[0]b"), "expected '.' or '[' at position 4 in 'a[0]b'");
}

#[test]
fn positions_in_messages_count_bytes() {
    // 'é' takes two bytes, so the stray bracket sits at byte 2.
    assert_eq!(message_of("é]"), "unexpected ']' at position 2 in 'é]'");
}

#[test]
fn index_accepts_a_plus_sign_and_the_i64_range() {
    let path = FieldPath::parse("a[+7]").unwrap();
    assert_eq!(path.segments(), &[Segment::Key("a".into()), Segment::Index(7)]);
    let path = FieldPath::parse("[-9223372036854775808]").unwrap();
    assert_eq!(path.segments(), &[Segment::Index(i64::MIN)]);
    assert!(FieldPath::parse("[9223372036854775808]").is_err());
    assert!(FieldPath::parse("[-]").is_err());
}

#[test]
fn adjacent_brackets_need_no_separator() {
    let path = FieldPath::parse("grid[1][-2]").unwrap();
    assert_eq!(
        path.segments(),
        &[Segment::Key("grid".into()), Segment::Index(1), Segment::Index(-2)]
    );
    assert_eq!(path.as_str(), "grid[1][-2]");
}

#[test]
fn a_clone_is_the_same_path() {
    let path = FieldPath::parse("a.b[2][]").unwrap();
    let copy = path.clone();
    assert_eq!(copy, path);
    assert_eq!(copy.as_str(), "a.b[2][]");
    assert_eq!(copy.segments(), path.segments());
    let segment = path.segments()[0].clone();
    assert_eq!(segment, Segment::Key("a".into()));
}
