use todo_store::codec::{decode, decode_filter, encode, title_matches, DecodeError, Task};

fn task(id: &str, title: &str, description: &str, date: &str, completed: bool) -> Task {
    Task {
        id: id.to_string(),
        title: title.to_string(),
        description: description.to_string(),
        date: date.to_string(),
        completed,
    }
}

#[test]
fn encode_quotes_every_field() {
    let t = task("ab12", "Buy milk", "2% organic", "2024-05-01 09:30", false);
    assert_eq!(encode(&t), "\"ab12\",\"Buy milk\",\"2% organic\",\"2024-05-01 09:30\",\"No\"");
}

#[test]
fn encode_doubles_quotes_and_marks_completed() {
    let t = task("x", "say \"hi\"", "a,b", "d", true);
    assert_eq!(encode(&t), "\"x\",\"say \"\"hi\"\"\",\"a,b\",\"d\",\"Yes\"");
}

#[test]
fn round_trip_with_commas_and_quotes() {
    let t = task("q9Z1", "one, two", "he said \"no, thanks\" then left", "2024-01-02 03:04", false);
    let back = decode(&encode(&t)).unwrap();
    assert_eq!(back.id, t.id);
    assert_eq!(back.title, t.title);
    assert_eq!(back.description, t.description);
    assert_eq!(back.date, t.date);
    assert!(!back.completed);
}

#[test]
fn round_trip_completed_and_empty_fields() {
    let t = task("0000", "", "", "", true);
    let back = decode(&encode(&t)).unwrap();
    assert_eq!(back.title, "");
    assert_eq!(back.description, "");
    assert!(back.completed);
}

#[test]
fn round_trip_keeps_quotes_at_field_edges() {
    let t = task("id", "a\"", "\"quoted\"", "say \"hi\", \"bye\"", false);
    let line = encode(&t);
    assert_eq!(line, "\"id\",\"a\"\"\",\"\"\"quoted\"\"\",\"say \"\"hi\"\", \"\"bye\"\"\",\"No\"");
    let back = decode(&line).unwrap();
    assert_eq!(back.title, "a\"");
    assert_eq!(back.description, "\"quoted\"");
    assert_eq!(back.date, "say \"hi\", \"bye\"");
}

#[test]
fn decode_removes_one_enclosing_quote_each_side() {
    let t = decode("\"a\",b,\"\"\"\",\"\",\"No").unwrap();
    assert_eq!(t.id, "a");
    assert_eq!(t.title, "b");
    assert_eq!(t.description, "\"");
    assert_eq!(t.date, "");
    assert!(!t.completed);
}

#[test]
fn decode_rejects_too_few_fields() {
    assert!(matches!(decode("\"a\",\"b\",\"c\",\"d\""), Err(DecodeError::TooFewFields)));
    assert!(matches!(decode(""), Err(DecodeError::TooFewFields)));
    assert!(matches!(decode("\"a,b,c,d,e\""), Err(DecodeError::TooFewFields)));
}

#[test]
fn decode_flag_is_case_sensitive_and_trimmed() {
    assert!(decode("a,b,c,d, Yes ").unwrap().completed);
    assert!(!decode("a,b,c,d,yes").unwrap().completed);
    assert!(!decode("a,b,c,d,No").unwrap().completed);
}

#[test]
fn decode_accepts_unquoted_header_shape() {
    let h = decode("id,title,description,date,completed,").unwrap();
    assert_eq!(h.id, "id");
    assert_eq!(h.title, "title");
    assert_eq!(h.date, "date");
    assert!(!h.completed);
}

#[test]
fn decode_filter_matches_lowercased_title() {
    let line = "\"ab12\",\"Alpha Plan\",\"d\",\"t\",\"Yes\"";
    let t = decode_filter(line, "alpha").unwrap();
    assert_eq!(t.id, "ab12");
    assert_eq!(t.title, "Alpha Plan");
    assert!(t.completed);
    assert!(decode_filter(line, "beta").is_none());
}

#[test]
fn decode_filter_flag_ignores_ascii_case() {
    assert!(decode_filter("a,Title,c,d, yEs", "title").unwrap().completed);
    assert!(!decode_filter("a,Title,c,d,no", "title").unwrap().completed);
}

#[test]
fn decode_filter_splits_naively_on_commas() {
    assert!(decode_filter("a,b,c,d", "b").is_none());
    // A comma inside a quoted title shifts the columns in this path.
    let t = decode_filter("\"x\",\"one, two\",\"d\",\"t\",\"No\"", "one").unwrap();
    assert_eq!(t.title, "one");
    assert_eq!(t.description, " two");
}

#[test]
fn title_matches_trims_before_search() {
    assert!(title_matches("  alpha  ", "alpha"));
    assert!(title_matches("alpha", ""));
    assert!(!title_matches("alpha", "alpha "));
    assert!(!title_matches("Alpha", "alpha"));
}
