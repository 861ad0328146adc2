use jsonl_peek::hist::{Histogram, Rank};
use jsonl_peek::json::{parse, Value};
use jsonl_peek::lines::LineReader;
use jsonl_peek::listing::stats_report;
use jsonl_peek::path::FieldPath;
use jsonl_peek::report::{format_count, indent_continuation, json_array, json_object, json_string};
use jsonl_peek::stats::{Stats, StatsOptions};
use jsonl_peek::summary::{self, json_type_tally, Percentiles};
use std::io::{BufRead, Cursor};

fn log_bucket_index(value: u64) -> usize {
    ((value as f64 / 16.0).ln() / 1.03f64.ln()).floor() as usize
}

fn render_float(text: &str) -> String {
    text.parse::<f64>().map(|f| f.to_string()).unwrap_or_else(|_| text.to_string())
}

fn from_reader<R: BufRead>(mut reader: R, options: StatsOptions) -> std::io::Result<Stats> {
    let mut stats = Stats::new(&options);
    let mut lines = LineReader::new();
    let mut buf = Vec::new();
    loop {
        buf.clear();
        reader.read_until(b'\n', &mut buf)?;
        let Some(line) = lines.next_line(&mut buf) else {
            break;
        };
        let bucket = if line.len() >= 16 { log_bucket_index(line.len() as u64) } else { 0 };
        stats.record_line(line, bucket, &render_float);
    }
    Ok(stats)
}

fn percentile(h: &Histogram, p: f64) -> u64 {
    if h.count() == 0 {
        return 0;
    }
    if p >= 1.0 {
        return h.max();
    }
    let target = ((h.count() as f64) * p).ceil().max(1.0) as u64;
    match h.locate_rank(target) {
        Rank::Exact(v) => v,
        Rank::Log(idx) => (16.0 * 1.03f64.powi(idx as i32)) as u64,
        Rank::Max => h.max(),
    }
}

fn json_number(v: f64) -> String {
    let s = format!("{v:.4}");
    let s = s.trim_end_matches('0');
    let s = s.trim_end_matches('.');
    if s.is_empty() || s == "-" {
        "0".to_string()
    } else {
        s.to_string()
    }
}

fn rate(n: usize, total: usize) -> f64 {
    if total == 0 {
        0.0
    } else {
        n as f64 / total as f64
    }
}

fn percentiles(h: &Histogram) -> Percentiles {
    Percentiles {
        p50: percentile(h, 0.5),
        p90: percentile(h, 0.9),
        p99: percentile(h, 0.99),
    }
}

fn mean(h: &Histogram) -> f64 {
    if h.count() == 0 {
        0.0
    } else {
        h.sum() as f64 / h.count() as f64
    }
}

fn stats_to_json(file_label: &str, stats: &Stats, top: usize) -> String {
    summary::stats_to_json(
        file_label,
        stats,
        top,
        &percentiles(&stats.line_length),
        &json_number(mean(&stats.line_length)),
        &|n: usize, total: usize| json_number(rate(n, total)),
    )
}

fn percent(n: usize, total: usize) -> String {
    if total == 0 {
        return "0.0%".to_string();
    }
    format!("{:.1}%", (n as f64 / total as f64) * 100.0)
}

#[test]
fn json_string_escapes_control_characters_and_quotes() {
    assert_eq!(json_string("hi"), "\"hi\"");
    assert_eq!(json_string("a\"b"), "\"a\\\"b\"");
    assert_eq!(json_string("a\\b"), "\"a\\\\b\"");
    assert_eq!(json_string("a\nb\tc"), "\"a\\nb\\tc\"");
    assert_eq!(json_string("a\u{1}b"), "\"a\\u0001b\"");
}

#[test]
fn json_object_indents_nested_values() {
    let inner = json_object(vec![("b".to_string(), "1".to_string())]);
    let outer = json_object(vec![("a".to_string(), inner)]);
    assert_eq!(outer, "{\n  \"a\": {\n    \"b\": 1\n  }\n}");
}

#[test]
fn json_array_indents_nested_objects() {
    let item = json_object(vec![("k".to_string(), "1".to_string())]);
    let arr = json_array(vec![item.clone(), item]);
    assert_eq!(
        arr,
        "[\n  {\n    \"k\": 1\n  },\n  {\n    \"k\": 1\n  }\n]"
    );
}

#[test]
fn stats_to_json_produces_parseable_numbers_and_the_field_path() {
    let path = FieldPath::parse("meta.source").unwrap();
    let options = StatsOptions {
        fields: vec![path],
        ..StatsOptions::default()
    };
    let stats = from_reader(
        Cursor::new("{\"meta\":{\"source\":\"web\"}}\n{bad}\n".as_bytes()),
        options,
    )
    .unwrap();

    let json = stats_to_json("sample.jsonl", &stats, 10);
    assert!(json.contains("\"file\": \"sample.jsonl\""));
    assert!(json.contains("\"lines\": 2"));
    assert!(json.contains("\"invalid\": 1"));
    assert!(json.contains("\"path\": \"meta.source\""));
    assert!(json.contains("\"value\": \"\\\"web\\\"\""));
}

#[test]
fn empty_objects_and_arrays_stay_on_one_line() {
    assert_eq!(json_object(vec![]), "{}");
    assert_eq!(json_array(vec![]), "[]");
}

#[test]
fn indent_continuation_indents_every_line_after_the_first() {
    assert_eq!(indent_continuation(""), "");
    assert_eq!(indent_continuation("a"), "a");
    assert_eq!(indent_continuation("a\nb\r\nc\n"), "a\n  b\n  c");
}

#[test]
fn format_count_groups_thousands() {
    assert_eq!(format_count(0), "0");
    assert_eq!(format_count(999), "999");
    assert_eq!(format_count(1000), "1,000");
    assert_eq!(format_count(1234567), "1,234,567");
    assert_eq!(format_count(u64::MAX), "18,446,744,073,709,551,615");
}

#[test]
fn json_string_round_trips_through_the_parser() {
    for s in ["", "plain", "quote \" and \\ slash", "ctl \u{1}\u{1f}", "é ☃ 😀", "tab\tnl\ncr\r"] {
        let text = json_string(s);
        assert_eq!(jsonl_peek::json::parse(&text).unwrap(), jsonl_peek::json::Value::String(s.to_string()));
    }
}

#[test]
fn type_tally_renders_as_an_object_most_common_first() {
    let stats = from_reader(Cursor::new("1\n\"a\"\n2\n".as_bytes()), StatsOptions::default()).unwrap();
    assert_eq!(json_type_tally(&stats.top_level), "{\n  \"int\": 2,\n  \"string\": 1\n}");
}

#[test]
fn whole_json_report_for_a_small_file() {
    let path = FieldPath::parse("k").unwrap();
    let options = StatsOptions { fields: vec![path], ..StatsOptions::default() };
    let stats = from_reader(Cursor::new("{\"k\":1}\n\n{\"k\":1,\"z\":null}\n".as_bytes()), options).unwrap();
    let pct = Percentiles { p50: 7, p90: 16, p99: 16 };
    let json = summary::stats_to_json("f", &stats, 5, &pct, "11.5", &|n: usize, t: usize| format!("{n}/{t}"));
    let expected = "{\n  \"file\": \"f\",\n  \"lines\": 3,\n  \"blank\": 1,\n  \"invalid\": 0,\n  \"valid\": 2,\n  \"bytes\": 23,\n  \"top_level\": {\n    \"object\": 2\n  },\n  \"line_length\": {\n    \"min\": 7,\n    \"p50\": 7,\n    \"p90\": 16,\n    \"p99\": 16,\n    \"max\": 16,\n    \"mean\": 11.5\n  },\n  \"keys\": [\n    {\n      \"key\": \"k\",\n      \"count\": 2,\n      \"rate\": 2/2,\n      \"types\": {\n        \"int\": 2\n      }\n    },\n    {\n      \"key\": \"z\",\n      \"count\": 1,\n      \"rate\": 1/2,\n      \"types\": {\n        \"null\": 1\n      }\n    }\n  ],\n  \"keys_truncated\": false,\n  \"fields\": [\n    {\n      \"path\": \"k\",\n      \"records_present\": 2,\n      \"rate\": 2/2,\n      \"values\": 2,\n      \"types\": {\n        \"int\": 2\n      },\n      \"distinct_values\": 1,\n      \"values_truncated\": false,\n      \"top\": [\n        {\n          \"value\": \"1\",\n          \"count\": 2,\n          \"rate\": 2/2\n        }\n      ]\n    }\n  ],\n  \"issues\": [],\n  \"issues_truncated\": false\n}";
    assert_eq!(json, expected);
}

#[test]
fn text_report_lists_counts_keys_fields_and_issues() {
    let path = FieldPath::parse("role").unwrap();
    let options = StatsOptions { fields: vec![path], max_errors: 1, ..StatsOptions::default() };
    let stats = from_reader(
        Cursor::new("{\"role\":\"user\"}\n{\"role\":\"user\",\"n\":1}\n{bad\n[1,]\n".as_bytes()),
        options,
    )
    .unwrap();
    let lines = stats_report(
        "x.jsonl",
        &stats,
        10,
        &percentiles(&stats.line_length),
        &format!("{:.1}", mean(&stats.line_length)),
        "44 B",
        &|n: usize, t: usize| percent(n, t),
    );
    let expected = vec![
        "file    x.jsonl".to_string(),
        "lines   4   blank 0   invalid 2   valid 2".to_string(),
        "bytes   44   (44 B)".to_string(),
        "top level  object:2".to_string(),
        "".to_string(),
        "line length in bytes".to_string(),
        "  min 4   p50 4   p90 20   p99 20   max 21   mean 11.0".to_string(),
        "".to_string(),
        "top level keys over 2 objects".to_string(),
        format!("  {:<28} {:>7}  {:>6}  {}", "role", "2", "100.0%", "string:2"),
        format!("  {:<28} {:>7}  {:>6}  {}", "n", "1", "50.0%", "int:1"),
        "".to_string(),
        "field role".to_string(),
        "  present in 2 of 2 records (100.0%), 2 values, types string:2".to_string(),
        "  1 distinct values".to_string(),
        format!("    {:>7}  {:>6}  {}", "2", "100.0%", "\"user\""),
        "".to_string(),
        "invalid lines (2 total, showing 1)".to_string(),
        "  line 3 col 2: expected string key".to_string(),
    ];
    assert_eq!(lines, expected);
}

#[test]
fn grouping_keeps_every_digit() {
    for n in [0u64, 7, 12, 123, 1234, 98765, 100000, 4_000_000_001, u64::MAX] {
        assert_eq!(format_count(n).replace(',', ""), n.to_string());
    }
}

#[test]
fn json_report_parses_back_with_its_members_in_order() {
    let path = FieldPath::parse("meta.tags[]").unwrap();
    let options = StatsOptions { fields: vec![path], max_errors: 1, ..StatsOptions::default() };
    let stats = from_reader(
        Cursor::new("{\"meta\":{\"tags\":[\"a\",\"b\"]}}\n\n{bad\n[1]\n{\"x\":\"q\\n\"}\n{nope\n".as_bytes()),
        options,
    )
    .unwrap();
    let json = stats_to_json("dir/\"odd\" name.jsonl", &stats, 10);
    let Value::Object(members) = parse(&json).unwrap() else { panic!("not an object") };
    let names: Vec<&str> = members.iter().map(|(k, _)| k.as_str()).collect();
    assert_eq!(
        names,
        vec![
            "file", "lines", "blank", "invalid", "valid", "bytes", "top_level", "line_length", "keys",
            "keys_truncated", "fields", "issues", "issues_truncated"
        ]
    );
    assert_eq!(members[0].1, Value::String("dir/\"odd\" name.jsonl".to_string()));
    assert_eq!(members[1].1, Value::Int(6));
    assert_eq!(members[2].1, Value::Int(1));
    assert_eq!(members[3].1, Value::Int(2));
    assert_eq!(members[4].1, Value::Int(3));
    assert_eq!(members[5].1, Value::Int(stats.bytes as i64));
    assert!(matches!(members[6].1, Value::Object(_)));
    assert!(matches!(members[7].1, Value::Object(_)));
    assert!(matches!(&members[8].1, Value::Array(ks) if ks.len() == stats.keys.len()));
    assert_eq!(members[9].1, Value::Bool(false));
    assert!(matches!(&members[10].1, Value::Array(fs) if fs.len() == 1));
    assert!(matches!(&members[11].1, Value::Array(is) if is.len() == 1));
    assert_eq!(members[12].1, Value::Bool(true));
}
