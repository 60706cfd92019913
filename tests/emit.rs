use jep106_build::emit::{flatten_table, frame_json, make_json, make_rust};
use jep106_build::generate::{generate, Format};
use jep106_build::table::{build_table, BuildError, Table};
use serde_json::Value;

fn chars(s: &str) -> Vec<char> {
    s.chars().collect()
}

fn text(v: &[char]) -> String {
    v.iter().collect()
}

fn table_of(doc: &str) -> Table {
    build_table(&chars(doc)).unwrap()
}

const EXAMPLE: &str = "1   Example Corp.   0 0 0 0 0 0 0 0   01 ";

fn rust_tail(version: &str) -> String {
    format!(
        "\n        /// Returns the JEP106 specification version code.\n        pub const fn version() -> &'static str {{\n            \"{}\"\n        }}\n    ",
        version
    )
}

#[test]
fn flatten_is_bank_major() {
    let t = table_of("1 A 0 0 0 0 0 0 0 0 01 \n5 B 0 0 0 0 0 0 0 0 05 \n1 C 0 0 0 0 0 0 0 0 01 \n");
    let flat = flatten_table(&t);
    assert_eq!(flat.len(), 256);
    assert_eq!(flat[1], Some(chars("A")));
    assert_eq!(flat[5], Some(chars("B")));
    assert_eq!(flat[128 + 1], Some(chars("C")));
    assert_eq!(flat.iter().filter(|e| e.is_some()).count(), 3);
}

#[test]
fn empty_table_in_rust_format() {
    let out = text(&make_rust(&Table::new(), &chars("V1")));
    let expected = format!(
        "pub(crate) static CODES: [[Option<&'static str>; 128]; 0] = [];{}",
        rust_tail("V1")
    );
    assert_eq!(out, expected);
}

#[test]
fn empty_table_in_json_format() {
    let out = text(&make_json(&Table::new(), &chars("V1")));
    assert_eq!(out, "{\n  \"manufacturers\": [],\n  \"version\": \"V1\"\n}");
    let v: Value = serde_json::from_str(&out).unwrap();
    assert_eq!(v["manufacturers"], Value::Array(vec![]));
    assert_eq!(v["version"], Value::String("V1".to_string()));
}

#[test]
fn example_document_in_rust_format() {
    let out = text(&make_rust(&table_of(EXAMPLE), &chars("JEP106BE")));
    let mut bank = String::from("[None,Some(\"Example Corp.\"),");
    for _ in 2..128 {
        bank.push_str("None,");
    }
    bank.push_str("],");
    let expected = format!(
        "pub(crate) static CODES: [[Option<&'static str>; 128]; 1] = [{}];{}",
        bank,
        rust_tail("JEP106BE")
    );
    assert_eq!(out, expected);
}

#[test]
fn example_document_in_json_format() {
    let out = text(&make_json(&table_of(EXAMPLE), &chars("JEP106BE")));
    let v: Value = serde_json::from_str(&out).unwrap();
    assert_eq!(v["version"], Value::String("JEP106BE".to_string()));
    let list = v["manufacturers"].as_array().unwrap();
    assert_eq!(list.len(), 128);
    for (i, e) in list.iter().enumerate() {
        if i == 1 {
            assert_eq!(e, &Value::String("Example Corp.".to_string()));
        } else {
            assert_eq!(e, &Value::Null);
        }
    }
}

#[test]
fn json_layout_matches_serde_json_pretty_printer() {
    let t = table_of("1 A \"q\" \\ 0 0 0 0 0 0 0 0 01 \n2 B\u{1} 0 0 0 0 0 0 0 0 02 \n1 C 0 0 0 0 0 0 0 0 01 ");
    let out = text(&make_json(&t, &chars("JEP\"106")));
    let mut map = serde_json::Map::new();
    let list: Vec<Value> = flatten_table(&t)
        .into_iter()
        .map(|e| match e {
            Some(n) => Value::String(text(&n)),
            None => Value::Null,
        })
        .collect();
    map.insert("version".to_string(), Value::String("JEP\"106".to_string()));
    map.insert("manufacturers".to_string(), Value::Array(list));
    assert_eq!(out, serde_json::to_string_pretty(&Value::Object(map)).unwrap());
}

#[test]
fn json_names_are_quoted_and_escaped() {
    let out = text(&frame_json(&chars("\"v\""), &vec![None, Some(chars("\"a\\\"b\""))]));
    assert_eq!(out, "{\n  \"manufacturers\": [\n    null,\n    \"a\\\"b\"\n  ],\n  \"version\": \"v\"\n}");
    let t = table_of("1 Say \"Hi\" 0 0 0 0 0 0 0 0 01 ");
    let out = text(&make_json(&t, &chars("v")));
    assert!(out.contains("\n    \"Say \\\"Hi\\\"\",\n"));
}

#[test]
fn quotes_in_names_are_escaped_in_rust_format() {
    let t = table_of("1 Say \"Hi\" \\o/ 0 0 0 0 0 0 0 0 01 ");
    let out = text(&make_rust(&t, &chars("v\"2")));
    assert!(out.contains("[None,Some(\"Say \\\"Hi\\\" \\\\o/\"),None,"));
    assert!(out.contains("\"v\\\"2\""));
}

#[test]
fn bank_count_is_written_in_decimal() {
    let mut doc = String::new();
    for _ in 0..12 {
        doc.push_str("1 A 0 0 0 0 0 0 0 0 01 \n");
    }
    let out = text(&make_rust(&table_of(&doc), &chars("v")));
    assert!(out.starts_with("pub(crate) static CODES: [[Option<&'static str>; 128]; 12] = [[None,Some(\"A\"),"));
}

#[test]
fn generate_in_both_formats() {
    let doc = chars(&format!("JEDEC\n{}\n", EXAMPLE));
    let version = chars("JEP106BE");
    let rust = generate(&doc, &version, Format::Rust).unwrap();
    assert_eq!(rust, make_rust(&table_of(EXAMPLE), &version));
    let json = generate(&doc, &version, Format::Json).unwrap();
    assert_eq!(json, make_json(&table_of(EXAMPLE), &version));
    assert_eq!(
        generate(&chars("4 X 0 0 0 0 0 0 0 0 04 "), &version, Format::Json),
        Err(BuildError::NoCurrentBank)
    );
}

#[test]
fn format_names() {
    assert_eq!(Format::Rust.as_str(), "rust");
    assert_eq!(Format::Json.as_str(), "json");
    assert_eq!(Format::Rust.file_name(), "codes.rs");
    assert_eq!(Format::Json.file_name(), "codes.json");
}

#[test]
fn json_escapes_control_characters_and_reads_back() {
    let name = "\u{8}\t\n\u{c}\r\u{1f}\u{0}\u{7f} é \"q\" \\";
    let mut bank: Vec<Option<Vec<char>>> = vec![None; 128];
    bank[3] = Some(chars(name));
    let t = Table { banks: vec![bank] };
    let out = text(&make_json(&t, &chars("v\u{1}")));
    assert!(out.contains("\"\\b\\t\\n\\f\\r\\u001f\\u0000\u{7f} é \\\"q\\\" \\\\\""));
    let v: Value = serde_json::from_str(&out).unwrap();
    assert_eq!(v["version"], Value::String("v\u{1}".to_string()));
    assert_eq!(v["manufacturers"][3], Value::String(name.to_string()));
    assert_eq!(v["manufacturers"].as_array().unwrap().len(), 128);
}
