use jsonl_peek::json::Value;
use jsonl_peek::lines::LineReader;
use jsonl_peek::path::FieldPath;
use jsonl_peek::stats::{json_type, render_value, text_before, walk_path, FieldStat, JsonType, Stats, StatsOptions};
use std::io::{BufRead, Cursor};

/// The histogram bucket of a line length of 16 or more.
fn log_bucket_index(value: u64) -> usize {
    ((value as f64 / 16.0).ln() / 1.03f64.ln()).floor() as usize
}

/// How a float's literal text is displayed: as the `f64` it stands for.
fn render_float(text: &str) -> String {
    text.parse::<f64>().map(|f| f.to_string()).unwrap_or_else(|_| text.to_string())
}

/// Runs the single pass over `reader`, line by line.
fn from_reader<R: BufRead>(mut reader: R, options: StatsOptions) -> std::io::Result<Stats> {
    let mut stats = Stats::new(&options);
    let mut lines = LineReader::new();
    let mut buf = Vec::new();
    loop {
        buf.clear();
        reader.read_until(b'\n', &mut buf)?;
        let Some(line) = lines.next_line(&mut buf) else {
            break;
        };
        let bucket = if line.len() >= 16 { log_bucket_index(line.len() as u64) } else { 0 };
        stats.record_line(line, bucket, &render_float);
    }
    Ok(stats)
}

fn run(input: &str, options: StatsOptions) -> Stats {
    from_reader(Cursor::new(input.as_bytes()), options).unwrap()
}

#[test]
fn counts_blank_valid_and_invalid_lines() {
    let stats = run(
        "{\"a\":1}\n\n{\"a\":2,}\n{\"a\":3}\n",
        StatsOptions::default(),
    );
    assert_eq!(stats.lines, 4);
    assert_eq!(stats.blank, 1);
    assert_eq!(stats.valid, 2);
    assert_eq!(stats.invalid, 1);
}

#[test]
fn records_top_level_types() {
    let stats = run("1\n\"a\"\n[1,2]\n{}\n", StatsOptions::default());
    let types: Vec<_> = stats.top_level.sorted();
    assert_eq!(types.len(), 4);
    assert!(types.contains(&("int", 1)));
    assert!(types.contains(&("string", 1)));
    assert!(types.contains(&("array", 1)));
    assert!(types.contains(&("object", 1)));
}

#[test]
fn builds_the_top_level_key_table() {
    let stats = run(
        "{\"id\":1,\"tags\":[1]}\n{\"id\":2}\n",
        StatsOptions::default(),
    );
    let id = stats.keys.iter().find(|k| k.key == "id").unwrap();
    assert_eq!(id.count, 2);
    assert_eq!(id.types.sorted(), vec![("int", 2)]);

    let tags = stats.keys.iter().find(|k| k.key == "tags").unwrap();
    assert_eq!(tags.count, 1);
}

#[test]
fn a_duplicate_key_in_one_record_counts_presence_once() {
    let stats = run("{\"a\":1,\"a\":2}\n", StatsOptions::default());
    let a = stats.keys.iter().find(|k| k.key == "a").unwrap();
    assert_eq!(a.count, 1);
    assert_eq!(a.types.sorted(), vec![("int", 2)]);
}

#[test]
fn line_length_histogram_ignores_blank_lines() {
    let stats = run("{\"a\":1}\n\n", StatsOptions::default());
    assert_eq!(stats.line_length.count(), 1);
}

#[test]
fn profiles_a_simple_field() {
    let path = FieldPath::parse("meta.source").unwrap();
    let options = StatsOptions {
        fields: vec![path],
        ..StatsOptions::default()
    };
    let stats = run(
        "{\"meta\":{\"source\":\"web\"}}\n{\"meta\":{\"source\":\"web\"}}\n{\"meta\":{\"source\":\"forum\"}}\n{\"id\":1}\n",
        options,
    );
    let field = &stats.fields[0];
    assert_eq!(field.records_present, 3);
    assert_eq!(field.values, 3);
    assert_eq!(field.distinct_values(), 2);
    let top = field.top(1);
    assert_eq!(top[0], ("\"web\"".to_string(), 2));
}

#[test]
fn profiles_a_fanned_out_field() {
    let path = FieldPath::parse("messages[].role").unwrap();
    let options = StatsOptions {
        fields: vec![path],
        ..StatsOptions::default()
    };
    let stats = run(
        "{\"messages\":[{\"role\":\"user\"},{\"role\":\"assistant\"}]}\n",
        options,
    );
    let field = &stats.fields[0];
    assert_eq!(field.records_present, 1);
    assert_eq!(field.values, 2);
}

#[test]
fn issues_are_capped_but_the_invalid_total_is_exact() {
    let mut input = String::new();
    for _ in 0..5 {
        input.push_str("{bad}\n");
    }
    let options = StatsOptions {
        max_errors: 2,
        ..StatsOptions::default()
    };
    let stats = run(&input, options);
    assert_eq!(stats.invalid, 5);
    assert_eq!(stats.issues.len(), 2);
}

#[test]
fn invalid_utf8_is_counted_as_invalid() {
    let mut input = vec![0xFF, 0xFE, b'\n'];
    input.extend_from_slice(b"{}\n");
    let stats = from_reader(Cursor::new(input), StatsOptions::default()).unwrap();
    assert_eq!(stats.invalid, 1);
    assert_eq!(stats.valid, 1);
}

#[test]
fn issues_record_line_column_and_reason() {
    let mut input = b"{\"a\":1}\n{\"a\" 1}\nab\xC3(\n".to_vec();
    input.extend_from_slice(b"\n[1,]\n");
    let stats = from_reader(Cursor::new(input), StatsOptions::default()).unwrap();
    assert_eq!(stats.lines, 5);
    assert_eq!(stats.blank, 1);
    assert_eq!(stats.invalid, 3);
    let issues: Vec<(usize, usize, &str)> = stats
        .issues
        .iter()
        .map(|i| (i.line, i.column, i.reason.as_str()))
        .collect();
    assert_eq!(
        issues,
        vec![
            (2, 6, "expected ':' after object key"),
            (3, 3, "invalid utf-8"),
            (5, 4, "unexpected character ']'"),
        ]
    );
}

#[test]
fn bytes_and_line_lengths_are_exact() {
    let stats = run("{\"a\":1}\n\n[1,2,3,4,5,6,7,8,9]\n", StatsOptions::default());
    assert_eq!(stats.bytes, 7 + 19);
    assert_eq!(stats.line_length.count(), 2);
    assert_eq!(stats.line_length.min(), 7);
    assert_eq!(stats.line_length.max(), 19);
    assert_eq!(stats.line_length.sum(), 26);
}

#[test]
fn type_tally_sorts_by_count_then_first_seen() {
    let stats = run("\"a\"\n1\n1\nnull\n\"b\"\ntrue\n", StatsOptions::default());
    assert_eq!(
        stats.top_level.sorted(),
        vec![("string", 2), ("int", 2), ("null", 1), ("bool", 1)]
    );
}

#[test]
fn key_table_keeps_first_seen_order_and_kinds() {
    let stats = run("{\"b\":1,\"a\":\"x\"}\n{\"a\":null}\n[]\n", StatsOptions::default());
    let keys: Vec<(&str, usize)> = stats.keys.iter().map(|k| (k.key.as_str(), k.count)).collect();
    assert_eq!(keys, vec![("b", 1), ("a", 2)]);
    assert_eq!(stats.keys[1].types.sorted(), vec![("string", 1), ("null", 1)]);
    assert!(!stats.keys_truncated);
}

#[test]
fn key_table_stops_growing_at_its_cap() {
    let mut record = String::from("{");
    for i in 0..520 {
        if i > 0 {
            record.push(',');
        }
        record.push_str(&format!("\"k{i}\":{i}"));
    }
    record.push_str("}\n");
    let stats = run(&record, StatsOptions::default());
    assert_eq!(stats.keys.len(), 512);
    assert!(stats.keys_truncated);
}

#[test]
fn field_values_render_by_kind() {
    let path = FieldPath::parse("v").unwrap();
    let options = StatsOptions { fields: vec![path], ..StatsOptions::default() };
    let stats = run(
        "{\"v\":\"1\"}\n{\"v\":1}\n{\"v\":1.50}\n{\"v\":1.5}\n{\"v\":[1,2]}\n{\"v\":{}}\n{\"v\":null}\n{\"v\":false}\n{\"v\":-7}\n",
        options,
    );
    let field = &stats.fields[0];
    assert_eq!(field.values, 9);
    assert_eq!(field.distinct_values(), 8);
    let top = field.top(10);
    assert_eq!(top[0], ("1.5".to_string(), 2));
    let rest: Vec<&str> = top[1..].iter().map(|(v, _)| v.as_str()).collect();
    assert_eq!(
        rest,
        vec!["\"1\"", "-7", "1", "[array of 2]", "false", "null", "{object of 0}"]
    );
}

#[test]
fn top_breaks_ties_on_the_value_and_truncates() {
    let path = FieldPath::parse("[]").unwrap();
    let options = StatsOptions { fields: vec![path], ..StatsOptions::default() };
    let stats = run("[\"b\",\"a\",\"c\",\"a\"]\n", options);
    let field = &stats.fields[0];
    assert_eq!(field.records_present, 1);
    assert_eq!(
        field.top(2),
        vec![("\"a\"".to_string(), 2), ("\"b\"".to_string(), 1)]
    );
    assert_eq!(field.top(0), vec![]);
}

#[test]
fn walk_selects_by_key_index_and_every() {
    let value = jsonl_peek::json::parse(
        "{\"m\":[{\"r\":1},{\"r\":2},{\"x\":3}],\"m\":[{\"r\":4}]}",
    )
    .unwrap();
    let every = FieldPath::parse("m[].r").unwrap();
    let found: Vec<&Value> = walk_path(&value, every.segments());
    assert_eq!(found, vec![&Value::Int(1), &Value::Int(2), &Value::Int(4)]);
    let last = FieldPath::parse("m[-1].r").unwrap();
    assert_eq!(walk_path(&value, last.segments()), vec![&Value::Int(4)]);
    let far = FieldPath::parse("m[5]").unwrap();
    assert!(walk_path(&value, far.segments()).is_empty());
    let wrong_shape = FieldPath::parse("m.r").unwrap();
    assert!(walk_path(&value, wrong_shape.segments()).is_empty());
}

#[test]
fn records_present_counts_a_record_once() {
    let path = FieldPath::parse("xs[]").unwrap();
    let options = StatsOptions { fields: vec![path], ..StatsOptions::default() };
    let stats = run("{\"xs\":[1,2,3]}\n{\"xs\":[]}\n{\"xs\":[4]}\n", options);
    let field = &stats.fields[0];
    assert_eq!(field.records_present, 2);
    assert_eq!(field.values, 4);
    assert_eq!(field.types.sorted(), vec![("int", 4)]);
}

#[test]
fn strings_render_with_debug_escapes() {
    let value = Value::String("tab\there \"q\"".to_string());
    assert_eq!(render_value(&value, &render_float), "\"tab\\there \\\"q\\\"\"");
    assert_eq!(json_type(&value), JsonType::String);
    assert_eq!(JsonType::Float.name(), "float");
}

#[test]
fn text_order_is_by_character() {
    let a: Vec<char> = "ab".chars().collect();
    let b: Vec<char> = "b".chars().collect();
    let c: Vec<char> = "abc".chars().collect();
    assert!(text_before(&a, &b));
    assert!(!text_before(&b, &a));
    assert!(text_before(&a, &c));
    assert!(!text_before(&a, &a));
}

#[test]
fn counting_rendered_values_directly() {
    let mut field = FieldStat::new(FieldPath::parse("x").unwrap());
    field.count_rendered(JsonType::Int, "1".to_string());
    field.count_rendered(JsonType::String, "\"1\"".to_string());
    field.count_rendered(JsonType::Int, "1".to_string());
    assert_eq!(field.values, 3);
    assert_eq!(field.records_present, 0);
    assert_eq!(field.distinct_values(), 2);
    assert_eq!(field.top(5), vec![("1".to_string(), 2), ("\"1\"".to_string(), 1)]);
    assert_eq!(field.types.sorted(), vec![("int", 2), ("string", 1)]);
    assert!(!field.values_truncated);
}

#[test]
fn shorter_top_lists_are_prefixes_of_longer_ones() {
    let path = FieldPath::parse("[]").unwrap();
    let options = StatsOptions { fields: vec![path], ..StatsOptions::default() };
    let stats = run("[\"d\",\"b\",\"a\",\"c\",\"a\",\"d\",\"a\"]\n", options);
    let field = &stats.fields[0];
    let two = field.top(2);
    let five = field.top(5);
    assert_eq!(two, vec![("\"a\"".to_string(), 3), ("\"d\"".to_string(), 2)]);
    assert_eq!(five.len(), 4);
    assert_eq!(&five[..2], &two[..]);
    assert_eq!(field.top(2), two);
    assert_eq!(field.top(5), five);
}
