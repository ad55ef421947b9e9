use rparse::{CSVParser, RowWidthError};

fn rows(text: &str, delimiter: &str) -> Vec<Vec<String>> {
    CSVParser::new(text.to_string(), false, delimiter).read_all()
}

fn strings(v: &[&str]) -> Vec<String> {
    v.iter().map(|s| s.to_string()).collect()
}

#[test]
fn single_line_without_delimiter_is_one_field() {
    assert_eq!(rows("  \"hello world\"  ", ","), vec![strings(&["hello world"])]);
    assert_eq!(rows("a-b c", ","), vec![strings(&["a-b c"])]);
}

#[test]
fn joined_row_reads_back_the_same() {
    let first = rows(" a , b,\"c\" ", ",");
    assert_eq!(first, vec![strings(&["a", "b", "c"])]);
    let mut p = CSVParser::new(" a , b,\"c\" ".to_string(), false, ",");
    let joined = p.each_line(|s| s);
    assert_eq!(joined, strings(&["a,b,c"]));
    assert_eq!(rows(&joined[0], ","), first);
}

#[test]
fn quoted_and_bare_field_agree() {
    assert_eq!(rows("\"abc\"", ","), rows("abc", ","));
    assert_eq!(rows("\"abc\"", ","), vec![strings(&["abc"])]);
}

#[test]
fn header_binding_maps_names_to_values() {
    let mut p = CSVParser::new("id,name\n1, Alice".to_string(), true, ",");
    let recs = p.with_headers().unwrap();
    assert_eq!(recs.len(), 1);
    assert_eq!(recs[0].len(), 2);
    assert_eq!(recs[0].get("id"), Some(&"1".to_string()));
    assert_eq!(recs[0].get("name"), Some(&"Alice".to_string()));
    assert_eq!(recs[0].get("age"), None);
}

#[test]
fn blank_lines_are_dropped() {
    let r = rows("a,b\n\n c,d", ",");
    assert_eq!(r.len(), 2);
    assert_eq!(r, vec![strings(&["a", "b"]), strings(&["c", "d"])]);
}

#[test]
fn short_row_under_headers_fails() {
    let mut p = CSVParser::new("id,name,age\n1,Alice".to_string(), true, ",");
    assert_eq!(p.with_headers(), Err(RowWidthError { row: 1, expected: 3, found: 2 }));
}

#[test]
fn semicolon_delimiter_keeps_commas_in_fields() {
    assert_eq!(rows("x,y;z", ";"), vec![strings(&["x,y", "z"])]);
    let mut p = CSVParser::new("a ; b\nc;d".to_string(), false, ";");
    assert_eq!(p.each_line(|s| s), strings(&["a;b", "c;d"]));
}

#[test]
fn empty_document_has_no_rows() {
    assert!(rows("", ",").is_empty());
    assert!(rows("\r\n\n\r", ",").is_empty());
    let mut p = CSVParser::new(String::new(), true, ",");
    assert_eq!(p.with_headers().map(|v| v.len()), Ok(0));
}

#[test]
fn carriage_returns_end_lines() {
    assert_eq!(rows("a,b\r\nc\rd", ","), vec![strings(&["a", "b"]), strings(&["c"]), strings(&["d"])]);
}

#[test]
fn whitespace_line_gives_one_empty_field() {
    assert_eq!(rows("   ", ","), vec![strings(&[""])]);
    assert_eq!(rows(" , ", ","), vec![strings(&["", ""])]);
}

#[test]
fn unicode_whitespace_is_trimmed() {
    assert_eq!(rows("\u{3000}a b\u{00A0},\tc", ","), vec![strings(&["a b", "c"])]);
}

#[test]
fn one_pair_of_quotes_is_removed() {
    assert_eq!(rows("\"\"x\"\"", ","), vec![strings(&["\"x\""])]);
    assert_eq!(rows("\" a \"", ","), vec![strings(&["a"])]);
    assert_eq!(rows("\"", ","), vec![strings(&[""])]);
}

#[test]
fn multi_character_delimiter_separates_as_a_whole() {
    assert_eq!(rows("a;b", ";,"), vec![strings(&["a;b"])]);
    assert_eq!(rows("a;,b", ";,"), vec![strings(&["a", "b"])]);
    assert_eq!(rows("a;b;,c,d", ";,"), vec![strings(&["a;b", "c,d"])]);
    let mut p = CSVParser::new(" a ;, b ".to_string(), false, ";,");
    let joined = p.each_line(|s| s);
    assert_eq!(joined, strings(&["a;,b"]));
    assert_eq!(rows(&joined[0], ";,"), vec![strings(&["a", "b"])]);
}

#[test]
fn adjacent_delimiters_keep_an_empty_field() {
    assert_eq!(rows("a,,b", ","), vec![strings(&["a", "", "b"])]);
    assert_eq!(rows("a,", ","), vec![strings(&["a", ""])]);
    let mut p = CSVParser::new("x,y,z
1,,3".to_string(), true, ",");
    let recs = p.with_headers().unwrap();
    assert_eq!(recs[0].get("y"), Some(&"".to_string()));
    assert_eq!(recs[0].get("z"), Some(&"3".to_string()));
}

#[test]
fn empty_delimiter_leaves_lines_whole() {
    assert_eq!(rows(" a,b ", ""), vec![strings(&["a,b"])]);
}

#[test]
fn transform_runs_once_per_row_in_order() {
    let mut p = CSVParser::new("a,b\nc\n".to_string(), false, ",");
    assert_eq!(p.each_line(|s| s.to_uppercase()), strings(&["A,B", "C"]));
}

#[test]
fn repeated_header_keeps_later_value() {
    let mut p = CSVParser::new("k,k\n1,2".to_string(), true, ",");
    let recs = p.with_headers().unwrap();
    assert_eq!(recs[0].len(), 2);
    assert_eq!(recs[0].get("k"), Some(&"2".to_string()));
}

#[test]
fn longer_row_drops_extra_fields() {
    let mut p = CSVParser::new("id\n1,2\n3".to_string(), true, ",");
    let recs = p.with_headers().unwrap();
    assert_eq!(recs.len(), 2);
    assert_eq!(recs[0].len(), 1);
    assert_eq!(recs[0].get("id"), Some(&"1".to_string()));
    assert_eq!(recs[1].get("id"), Some(&"3".to_string()));
    let pairs: Vec<(String, String)> = recs[0].entries().clone();
    assert_eq!(pairs, vec![("id".to_string(), "1".to_string())]);
}

#[test]
fn first_short_row_is_reported() {
    let mut p = CSVParser::new("a,b\n1,2\n3\n4".to_string(), true, ",");
    assert_eq!(p.with_headers(), Err(RowWidthError { row: 2, expected: 2, found: 1 }));
}

#[test]
fn parser_keeps_its_settings() {
    let p = CSVParser::new("x".to_string(), true, "|");
    assert!(p.has_headers());
    assert_eq!(p.delimiter(), "|");
}

#[test]
fn file_access_error_message() {
    assert_eq!(
        rparse::FileAccessError.message(),
        "Cannot access file. Are you sure this file exists?"
    );
}
