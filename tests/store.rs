use todo_store::codec::{decode, encode, Task};
use todo_store::store::{
    decode_rows, find_in_rows, generate_random_id, header_line, quote_fields, select_by_flag,
    undecodable_rows, Store,
};

fn task(id: &str, title: &str, description: &str, completed: bool) -> Task {
    Task {
        id: id.to_string(),
        title: title.to_string(),
        description: description.to_string(),
        date: "2024-05-01 09:30".to_string(),
        completed,
    }
}

fn empty_store() -> Store {
    Store::open(Vec::new())
}

#[test]
fn open_writes_header_into_empty_file() {
    let s = empty_store();
    assert_eq!(s.lines, vec!["id,title,description,date,completed,".to_string()]);
    assert_eq!(header_line(), "id,title,description,date,completed,");
}

#[test]
fn open_keeps_existing_lines() {
    let s = Store::open(vec!["h".to_string(), "r".to_string()]);
    assert_eq!(s.lines, vec!["h".to_string(), "r".to_string()]);
}

#[test]
fn text_terminates_lines_with_crlf() {
    let s = Store::open(vec!["a".to_string(), "b".to_string()]);
    assert_eq!(s.text(), "a\r\nb\r\n");
}

#[test]
fn read_all_lines_normalizes_rows() {
    let s = Store::open(vec![
        header_line(),
        "k1,plain title,has \"\"x\"\",d,No".to_string(),
        "\"k2\",\"a, b\",\"c\",\"d\",\"Yes\"".to_string(),
    ]);
    let rows = s.read_all_lines().unwrap();
    assert_eq!(
        rows,
        vec![
            "\"k1\",\"plain title\",\"has \"\"\"\"x\"\"\"\"\",\"d\",\"No\"".to_string(),
            "\"k2\",\"a, b\",\"c\",\"d\",\"Yes\"".to_string(),
        ]
    );
}

#[test]
fn create_then_list_all() {
    let mut s = empty_store();
    let t = s.create("Buy milk".to_string(), "2% organic".to_string());
    let all = s.list_all().unwrap();
    assert_eq!(all.len(), 1);
    assert!(!all[0].completed);
    assert_eq!(all[0].id.chars().count(), 4);
    assert_eq!(all[0].id, t.id);
    assert_eq!(all[0].title, "Buy milk");
    assert_eq!(all[0].description, "2% organic");
}

#[test]
fn random_id_is_four_alphanumerics() {
    let id = generate_random_id();
    assert_eq!(id.chars().count(), 4);
    assert!(id.chars().all(|c| c.is_ascii_alphanumeric()));
}

#[test]
fn create_grows_listing_by_one() {
    let mut s = empty_store();
    s.create("first".to_string(), "x".to_string());
    let before = s.list_all().unwrap().len();
    let t = s.create("second, with comma".to_string(), "and \"quotes\" inside".to_string());
    let after = s.list_all().unwrap();
    assert_eq!(after.len(), before + 1);
    let last = after.last().unwrap();
    assert_eq!(last.id, t.id);
    assert_eq!(last.title, "second, with comma");
    assert_eq!(last.description, "and \"quotes\" inside");
    assert!(!last.completed);
}

#[test]
fn list_all_twice_is_the_same() {
    let mut s = empty_store();
    s.add(&task("aa11", "one", "d", false));
    s.add(&task("bb22", "two", "d", true));
    let a = s.list_all().unwrap();
    let b = s.list_all().unwrap();
    assert_eq!(a.len(), b.len());
    for (x, y) in a.iter().zip(b.iter()) {
        assert_eq!(x.id, y.id);
        assert_eq!(x.title, y.title);
        assert_eq!(x.completed, y.completed);
    }
}

#[test]
fn find_by_title_is_case_insensitive() {
    let mut s = empty_store();
    s.create("Alpha".to_string(), "first".to_string());
    s.create("beta project".to_string(), "second".to_string());
    let found = s.find_by_title("alpha").unwrap();
    assert_eq!(found.len(), 1);
    assert_eq!(found[0].title, "Alpha");
    assert!(!found[0].completed);
    assert_eq!(s.find_by_title("project").unwrap().len(), 1);
    assert_eq!(s.find_by_title("gamma").unwrap().len(), 0);
}

#[test]
fn toggle_only_the_matching_task() {
    let mut s = empty_store();
    s.add(&task("7f3a", "first", "d", false));
    s.add(&task("9b21", "second", "d", false));
    assert!(s.toggle_completion("7f3a"));
    let all = s.list_all().unwrap();
    assert!(all[0].completed);
    assert!(!all[1].completed);
}

#[test]
fn toggle_twice_restores() {
    let mut s = empty_store();
    let t = task("7f3a", "first", "d", false);
    s.add(&t);
    s.toggle_completion("7f3a");
    assert!(s.list_all().unwrap()[0].completed);
    s.toggle_completion("7f3a");
    assert!(!s.list_all().unwrap()[0].completed);
    assert_eq!(s.lines[1], encode(&t));
}

#[test]
fn toggle_without_match_changes_nothing() {
    let mut s = empty_store();
    s.add(&task("7f3a", "first", "d", false));
    let before = s.lines.clone();
    assert!(!s.toggle_completion("zzzz"));
    assert_eq!(s.lines, before);
}

#[test]
fn toggle_by_substring_hits_every_match() {
    let mut s = empty_store();
    s.add(&task("ab11", "first", "d", false));
    s.add(&task("ab22", "second", "d", true));
    assert!(s.toggle_completion("ab"));
    let all = s.list_all().unwrap();
    assert!(all[0].completed);
    assert!(!all[1].completed);
}

#[test]
fn delete_matching_leaves_one_row_and_header() {
    let mut s = empty_store();
    s.add(&task("7f3a", "first", "d", false));
    s.add(&task("9b21", "second", "d", false));
    assert!(s.delete_matching("9b21"));
    assert_eq!(s.lines.len(), 2);
    assert_eq!(s.lines[0], header_line());
    assert_eq!(decode(&s.lines[1]).unwrap().id, "7f3a");
}

#[test]
fn delete_matching_keeps_order_of_the_rest() {
    let mut s = empty_store();
    s.add(&task("a1", "keep one", "d", false));
    s.add(&task("b2", "drop me", "d", false));
    s.add(&task("c3", "keep two", "d", false));
    s.add(&task("d4", "drop me too", "d", false));
    assert!(s.delete_matching("drop"));
    let ids: Vec<String> = s.list_all().unwrap().into_iter().map(|t| t.id).collect();
    assert_eq!(ids, vec!["a1".to_string(), "c3".to_string()]);
    assert!(!s.delete_matching("absent"));
    assert_eq!(s.lines.len(), 3);
}

#[test]
fn delete_all_keeps_only_header() {
    let mut s = empty_store();
    s.add(&task("7f3a", "first", "d", false));
    s.add(&task("9b21", "second", "d", true));
    assert!(s.delete_all());
    assert_eq!(s.lines, vec![header_line()]);
    assert_eq!(s.list_all().unwrap().len(), 0);
    let h = decode(&s.lines[0]).unwrap();
    assert_eq!(h.id, "id");
}

#[test]
fn delete_all_on_empty_file() {
    let mut s = Store { lines: Vec::new() };
    assert!(!s.delete_all());
    assert!(s.lines.is_empty());
}

#[test]
fn list_by_completion_uses_plain_text() {
    let mut s = empty_store();
    s.add(&task("a1", "one", "d", true));
    s.add(&task("b2", "two", "d", false));
    s.add(&task("c3", "Yes please", "d", false));
    let yes = s.list_by_completion("Yes").unwrap();
    assert_eq!(yes.len(), 2);
    assert_eq!(yes[0].id, "a1");
    assert_eq!(yes[1].id, "c3");
    assert_eq!(s.list_by_completion("No").unwrap().len(), 2);
}

#[test]
fn row_functions_on_given_rows() {
    let rows = vec![
        encode(&task("a1", "Alpha", "d", true)),
        "broken".to_string(),
        encode(&task("b2", "beta", "d", false)),
    ];
    let all = decode_rows(&rows);
    assert_eq!(all.len(), 2);
    assert_eq!(all[1].id, "b2");
    assert_eq!(select_by_flag(&rows, "Yes").len(), 1);
    assert_eq!(find_in_rows(&rows, "alpha").len(), 1);
    assert_eq!(find_in_rows(&rows, "beta").len(), 1);
}

#[test]
fn delete_matching_never_removes_the_header() {
    let mut s = empty_store();
    s.add(&task("7f3a", "first", "d", false));
    assert!(!s.delete_matching("description"));
    assert_eq!(s.lines.len(), 2);
    assert!(s.delete_matching(""));
    assert_eq!(s.lines, vec![header_line()]);
}

#[test]
fn toggle_changes_only_the_flag() {
    let mut s = empty_store();
    s.add(&task("No3x", "Nothing", "No rush, Yes", false));
    assert!(s.toggle_completion("No3x"));
    let once = s.list_all().unwrap();
    assert_eq!(once[0].id, "No3x");
    assert_eq!(once[0].title, "Nothing");
    assert_eq!(once[0].description, "No rush, Yes");
    assert!(once[0].completed);
    assert!(s.toggle_completion("No3x"));
    let twice = s.list_all().unwrap();
    assert_eq!(twice[0].title, "Nothing");
    assert!(!twice[0].completed);
}

#[test]
fn toggle_skips_the_header() {
    let mut s = empty_store();
    s.add(&task("a1", "first", "d", false));
    assert!(!s.toggle_completion("title"));
    assert_eq!(s.lines[0], header_line());
    assert!(s.toggle_completion("i"));
    assert_eq!(s.lines[0], header_line());
    // The key also occurs in the row's title, so that row is toggled.
    assert!(s.list_all().unwrap()[0].completed);
}

#[test]
fn toggle_sets_only_the_flag_field() {
    let mut s = Store::open(vec![header_line(), "k1,t,d,x,No".to_string(), "bad".to_string()]);
    assert!(s.toggle_completion("k1"));
    assert_eq!(s.lines[1], "k1,t,d,x,\"Yes\"");
    assert!(!s.toggle_completion("bad"));
    assert_eq!(s.lines[2], "bad");
}

#[test]
fn toggle_keeps_trailing_comma_and_other_rows() {
    let h = "id,title,description,date,completed,".to_string();
    let a = "\"7f3a\",\"Buy milk\",\"2% organic\",\"2026-10-18 09:00\",\"No\",".to_string();
    let b = "\"9b21\",\"Call bank\",\"weekly\",\"2026-10-18 09:05\",\"No\",".to_string();
    let mut s = Store::open(vec![h.clone(), a.clone(), b.clone()]);
    assert!(s.toggle_completion("7f3a"));
    assert_eq!(
        s.lines,
        vec![
            h.clone(),
            "\"7f3a\",\"Buy milk\",\"2% organic\",\"2026-10-18 09:00\",\"Yes\",".to_string(),
            b.clone(),
        ]
    );
    assert!(s.toggle_completion("7f3a"));
    assert_eq!(s.lines, vec![h, a, b]);
}

#[test]
fn undecodable_rows_are_reported_by_position() {
    let rows = vec![
        encode(&task("a1", "one", "d", false)),
        "\"zz\",\"only two\"".to_string(),
        encode(&task("b2", "two", "d", true)),
        "".to_string(),
    ];
    assert_eq!(undecodable_rows(&rows), vec![1, 3]);
    assert_eq!(decode_rows(&rows).len(), 2);
    assert!(undecodable_rows(&Vec::new()).is_empty());
}

#[test]
fn listing_skips_a_malformed_row() {
    let mut s = empty_store();
    s.add(&task("a1", "one", "d", false));
    s.lines.push("\"zz\",\"only two\"".to_string());
    s.add(&task("b2", "two", "d", true));
    let rows = s.read_all_lines().unwrap();
    assert_eq!(undecodable_rows(&rows), vec![1]);
    let ids: Vec<String> = s.list_all().unwrap().into_iter().map(|t| t.id).collect();
    assert_eq!(ids, vec!["a1".to_string(), "b2".to_string()]);
}

#[test]
fn create_keeps_edge_quotes() {
    let mut s = empty_store();
    s.create("say \"hi\", \"bye\"".to_string(), "a,b".to_string());
    let all = s.list_all().unwrap();
    assert_eq!(all[0].title, "say \"hi\", \"bye\"");
    assert_eq!(all[0].description, "a,b");
}

#[test]
fn quote_fields_renders_canonical_form() {
    let fields = vec!["a".to_string(), "b \"c\"".to_string(), "".to_string()];
    assert_eq!(quote_fields(&fields), "\"a\",\"b \"\"c\"\"\",\"\"");
    assert_eq!(quote_fields(&Vec::new()), "");
}

#[test]
fn create_stamps_minute_precision_time() {
    let mut s = empty_store();
    let t = s.create("t".to_string(), "d".to_string());
    let d: Vec<char> = t.date.chars().collect();
    assert_eq!(d.len(), 16);
    assert!(d[0..4].iter().all(|c| c.is_ascii_digit()));
    assert_eq!(d[4], '-');
    assert_eq!(d[7], '-');
    assert_eq!(d[10], ' ');
    assert_eq!(d[13], ':');
}
