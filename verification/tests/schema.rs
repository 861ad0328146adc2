use jsonl_peek::lines::LineReader;
use jsonl_peek::schema::{PathStat, Schema};
use std::io::{BufRead, Cursor};

/// The options of a profiling run.
struct SchemaOptions {
    depth: usize,
    min_rate: f64,
}

impl Default for SchemaOptions {
    fn default() -> Self {
        SchemaOptions {
            depth: 3,
            min_rate: 0.0,
        }
    }
}

/// Share of `records` that contained `p` at least once.
fn rate(p: &PathStat, records: usize) -> f64 {
    if records == 0 {
        0.0
    } else {
        p.records_present as f64 / records as f64
    }
}

/// Runs the single pass over `reader`, then drops the paths rarer than
/// `min_rate` and sorts the rest by path.
fn from_reader<R: BufRead>(mut reader: R, options: SchemaOptions) -> std::io::Result<Schema> {
    let mut schema = Schema::new(options.depth);
    let mut lines = LineReader::new();
    let mut buf = Vec::new();
    loop {
        buf.clear();
        reader.read_until(b'\n', &mut buf)?;
        let Some(line) = lines.next_line(&mut buf) else {
            break;
        };
        schema.record_line(line);
    }
    let min_rate = options.min_rate;
    schema.finish(&|present: usize, records: usize| {
        let rate = if records == 0 { 0.0 } else { present as f64 / records as f64 };
        rate >= min_rate
    });
    Ok(schema)
}

fn run(input: &str, options: SchemaOptions) -> Schema {
    from_reader(Cursor::new(input.as_bytes()), options).unwrap()
}

fn path<'a>(schema: &'a Schema, name: &str) -> &'a PathStat {
    schema
        .paths
        .iter()
        .find(|p| p.path == name)
        .unwrap_or_else(|| panic!("no path '{name}' in {:?}", schema.paths.iter().map(|p| &p.path).collect::<Vec<_>>()))
}

#[test]
fn finds_top_level_and_nested_paths() {
    let schema = run(
        "{\"id\":1,\"meta\":{\"source\":\"web\"}}\n{\"id\":2,\"meta\":{\"source\":\"forum\"}}\n",
        SchemaOptions::default(),
    );
    assert_eq!(schema.records, 2);

    let id = path(&schema, "id");
    assert_eq!(id.records_present, 2);
    assert_eq!(id.types.sorted(), vec![("int", 2)]);

    let source = path(&schema, "meta.source");
    assert_eq!(source.records_present, 2);
    assert_eq!(source.types.sorted(), vec![("string", 2)]);
}

#[test]
fn fans_out_over_array_elements_and_counts_presence_once() {
    let schema = run(
        "{\"messages\":[{\"role\":\"user\"},{\"role\":\"assistant\"}]}\n",
        SchemaOptions::default(),
    );
    let role = path(&schema, "messages[].role");
    assert_eq!(role.records_present, 1);
    assert_eq!(role.values, 2);
}

#[test]
fn depth_limits_how_far_the_walk_descends() {
    let schema = run(
        "{\"a\":{\"b\":{\"c\":1}}}\n",
        SchemaOptions {
            depth: 2,
            ..SchemaOptions::default()
        },
    );
    assert!(schema.paths.iter().any(|p| p.path == "a"));
    assert!(schema.paths.iter().any(|p| p.path == "a.b"));
    assert!(!schema.paths.iter().any(|p| p.path == "a.b.c"));
}

#[test]
fn min_rate_hides_rare_paths() {
    let schema = run(
        "{\"id\":1,\"tags\":[1]}\n{\"id\":2}\n{\"id\":3}\n{\"id\":4}\n",
        SchemaOptions {
            min_rate: 0.5,
            ..SchemaOptions::default()
        },
    );
    assert!(schema.paths.iter().any(|p| p.path == "id"));
    assert!(!schema.paths.iter().any(|p| p.path == "tags"));
}

#[test]
fn paths_are_sorted() {
    let schema = run("{\"b\":1,\"a\":1}\n", SchemaOptions::default());
    let names: Vec<&str> = schema.paths.iter().map(|p| p.path.as_str()).collect();
    assert_eq!(names, vec!["a", "b"]);
}

#[test]
fn counts_unparseable_lines_without_touching_blank_ones() {
    let schema = run("{\"a\":1}\n\n{bad}\n", SchemaOptions::default());
    assert_eq!(schema.records, 1);
    assert_eq!(schema.unparseable, 1);
}

#[test]
fn rate_is_relative_to_record_count() {
    let schema = run("{\"a\":1}\n{}\n", SchemaOptions::default());
    let a = path(&schema, "a");
    assert_eq!(rate(a, schema.records), 0.5);
}

#[test]
fn top_level_arrays_and_scalars_record_what_they_hold() {
    let schema = run("[1,{\"x\":true}]\n7\n", SchemaOptions::default());
    assert_eq!(schema.records, 2);
    let names: Vec<&str> = schema.paths.iter().map(|p| p.path.as_str()).collect();
    assert_eq!(names, vec!["[]", "[].x"]);
    let items = path(&schema, "[]");
    assert_eq!(items.values, 2);
    assert_eq!(items.records_present, 1);
    assert_eq!(items.types.sorted(), vec![("int", 1), ("object", 1)]);
}

#[test]
fn nested_arrays_mark_each_level() {
    let schema = run("{\"grid\":[[1,2],[3]]}\n", SchemaOptions::default());
    let names: Vec<&str> = schema.paths.iter().map(|p| p.path.as_str()).collect();
    assert_eq!(names, vec!["grid", "grid[]", "grid[][]"]);
    assert_eq!(path(&schema, "grid[][]").values, 3);
}

#[test]
fn depth_zero_records_nothing() {
    let schema = run("{\"a\":1}\n", SchemaOptions { depth: 0, ..SchemaOptions::default() });
    assert_eq!(schema.records, 1);
    assert!(schema.paths.is_empty());
    assert!(!schema.paths_truncated);
}

#[test]
fn invalid_utf8_is_unparseable() {
    let schema = from_reader(Cursor::new(vec![0xC3, b'\n', b'{', b'}', b'\n']), SchemaOptions::default()).unwrap();
    assert_eq!(schema.records, 1);
    assert_eq!(schema.unparseable, 1);
}

#[test]
fn path_table_stops_growing_at_its_cap() {
    let mut record = String::from("{");
    for i in 0..2005 {
        if i > 0 {
            record.push(',');
        }
        record.push_str(&format!("\"k{i}\":0"));
    }
    record.push_str("}\n");
    let schema = run(&record, SchemaOptions::default());
    assert_eq!(schema.paths.len(), 2000);
    assert!(schema.paths_truncated);
}

#[test]
fn paths_stay_within_depth_and_have_a_value_per_record() {
    let input = "{\"a\":{\"b\":{\"c\":1}},\"l\":[[1,2],[3]]}\n{\"a\":{\"b\":2}}\n{\"l\":[]}\n";
    let s = from_reader(Cursor::new(input), SchemaOptions { depth: 2, ..SchemaOptions::default() }).unwrap();
    let paths: Vec<&str> = s.paths.iter().map(|p| p.path.as_str()).collect();
    assert_eq!(paths, vec!["a", "a.b", "l", "l[]"]);
    for p in &s.paths {
        assert!(p.records_present <= p.values, "{}", p.path);
    }
    let l_items = s.paths.iter().find(|p| p.path == "l[]").unwrap();
    assert_eq!((l_items.records_present, l_items.values), (1, 2));
}
