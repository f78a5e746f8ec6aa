use msg_stats::{group_messages, GroupStats, Groups, InvalidMessageError, Message};

fn stats_of(groups: &[(String, GroupStats)], t: &str) -> Option<(i32, usize)> {
    let found: Vec<&(String, GroupStats)> = groups.iter().filter(|(k, _)| k == t).collect();
    assert!(found.len() <= 1, "type {:?} appears more than once", t);
    found.first().map(|(_, s)| (s.occurences, s.total_byte_size))
}

fn sorted(groups: Vec<(String, GroupStats)>) -> Vec<(String, i32, usize)> {
    let mut v: Vec<(String, i32, usize)> = groups
        .into_iter()
        .map(|(k, s)| (k, s.occurences, s.total_byte_size))
        .collect();
    v.sort();
    v
}

fn failure(input: &str) -> InvalidMessageError {
    match group_messages(input.to_string()) {
        Ok(_) => panic!("expected a failure for {:?}", input),
        Err(e) => e,
    }
}

#[test]
fn two_types_three_lines() {
    let input = "{\"type\":\"a\"}\n{\"type\":\"b\"}\n{\"type\":\"a\"}\n";
    let groups = group_messages(input.to_string()).unwrap();
    assert_eq!(groups.len(), 2);
    assert_eq!(stats_of(&groups, "a"), Some((2, 24)));
    assert_eq!(stats_of(&groups, "b"), Some((1, 12)));
}

#[test]
fn empty_file_gives_empty_mapping() {
    let groups = group_messages(String::new()).unwrap();
    assert!(groups.is_empty());
}

#[test]
fn invalid_json_on_second_line_fails() {
    let e = failure("{\"type\":\"x\"}\nnot valid json\n");
    assert_eq!(e.line_number, 2);
    assert_eq!(e.line, b"not valid json".to_vec());
    assert!(e.cause.is_syntax());
}

#[test]
fn missing_type_field_fails() {
    let e = failure("{\"notype\":\"x\"}\n");
    assert_eq!(e.line_number, 1);
    assert_eq!(e.line, b"{\"notype\":\"x\"}".to_vec());
    assert!(e.cause.to_string().contains("missing field `type`"));
}

#[test]
fn thousand_lines_of_one_type() {
    let mut input = String::new();
    let mut total: usize = 0;
    for i in 0..1000 {
        let line = format!("{{\"type\":\"same\",\"pad\":\"{}\"}}", "x".repeat(i % 37));
        total += line.len();
        input.push_str(&line);
        input.push('\n');
    }
    let groups = group_messages(input).unwrap();
    assert_eq!(groups.len(), 1);
    assert_eq!(stats_of(&groups, "same"), Some((1000, total)));
}

#[test]
fn text_without_lines_gives_empty_mapping() {
    let groups = group_messages("".to_string()).unwrap();
    assert_eq!(groups.len(), 0);
}

#[test]
fn single_newline_is_one_blank_line() {
    let e = failure("\n");
    assert_eq!(e.line_number, 1);
    assert!(e.line.is_empty());
}

#[test]
fn permuted_lines_give_same_counters() {
    let a = "{\"type\":\"a\",\"n\":1}\n{\"type\":\"b\"}\n{\"type\":\"a\"}\n{\"type\":\"c\",\"x\":[1,2]}\n";
    let b = "{\"type\":\"c\",\"x\":[1,2]}\n{\"type\":\"a\"}\n{\"type\":\"b\"}\n{\"type\":\"a\",\"n\":1}\n";
    let ga = sorted(group_messages(a.to_string()).unwrap());
    let gb = sorted(group_messages(b.to_string()).unwrap());
    assert_eq!(ga, gb);
    assert_eq!(ga.len(), 3);
}

#[test]
fn lines_after_first_invalid_do_not_matter() {
    let e1 = failure("{\"type\":\"a\"}\n{\"kind\":1}\n{\"type\":\"b\"}\n");
    let e2 = failure("{\"type\":\"a\"}\n{\"kind\":1}\ngarbage\n");
    assert_eq!(e1.line_number, 2);
    assert_eq!(e2.line_number, 2);
}

#[test]
fn non_ascii_bytes_are_counted() {
    let line = "{\"type\":\"\u{e9}t\u{e9}\",\"note\":\"\u{1f600}\"}";
    let groups = group_messages(format!("{}\n", line)).unwrap();
    assert_eq!(line.len(), 30);
    assert_eq!(stats_of(&groups, "\u{e9}t\u{e9}"), Some((1, 30)));
}

#[test]
fn crlf_terminators_are_not_counted() {
    let groups = group_messages("{\"type\":\"a\"}\r\n{\"type\":\"a\"}\r\n".to_string()).unwrap();
    assert_eq!(stats_of(&groups, "a"), Some((2, 24)));
}

#[test]
fn last_line_without_terminator_is_counted() {
    let groups = group_messages("{\"type\":\"a\"}\n{\"type\":\"bb\"}".to_string()).unwrap();
    assert_eq!(stats_of(&groups, "a"), Some((1, 12)));
    assert_eq!(stats_of(&groups, "bb"), Some((1, 13)));
}

#[test]
fn empty_type_is_a_key() {
    let groups = group_messages("{\"type\":\"\"}\n{\"type\":\"\"}\n".to_string()).unwrap();
    assert_eq!(stats_of(&groups, ""), Some((2, 22)));
}

#[test]
fn non_text_type_fails() {
    let e = failure("{\"type\":\"a\"}\n{\"type\":\"a\"}\n{\"type\":7}\n");
    assert_eq!(e.line_number, 3);
    assert!(e.cause.is_data());
}

#[test]
fn json_that_is_no_object_fails() {
    let e = failure("[\"type\"]\n");
    assert_eq!(e.line_number, 1);
    assert!(e.cause.is_data());
    let e = failure("\"type\"\n");
    assert_eq!(e.line_number, 1);
}

#[test]
fn message_reads_type_member() {
    let m = Message::try_from(b"{\"id\":3,\"type\":\"order\"}").ok().unwrap();
    assert_eq!(m.type_, "order");
}

#[test]
fn message_reports_syntax_error() {
    match Message::try_from(b"{\"type\":") {
        Ok(_) => panic!("expected a failure"),
        Err(cause) => assert!(cause.is_eof()),
    }
}

#[test]
fn add_message_creates_then_bumps() {
    let mut index = Groups::new();
    index.add_message("a".to_string(), 5);
    index.add_message("b".to_string(), 7);
    index.add_message("a".to_string(), 11);
    let groups = index.into_entries();
    assert_eq!(groups.len(), 2);
    assert_eq!(stats_of(&groups, "a"), Some((2, 16)));
    assert_eq!(stats_of(&groups, "b"), Some((1, 7)));
}

#[test]
fn group_stats_arithmetic() {
    let mut s = GroupStats::default();
    assert_eq!((s.occurences, s.total_byte_size), (0, 0));
    s.add_assign(GroupStats::of_line(b"{\"type\":\"a\"}"));
    s.add_assign(GroupStats::of_line(b"xyz"));
    assert_eq!((s.occurences, s.total_byte_size), (2, 15));
}

#[test]
fn other_members_are_skipped_unchecked() {
    let huge = "{\"type\":\"a\",\"x\":1e400}";
    let deep = format!("{{\"type\":\"a\",\"x\":{}{}}}", "[".repeat(200), "]".repeat(200));
    let groups = group_messages(format!("{}\n{}\n", huge, deep)).unwrap();
    assert_eq!(stats_of(&groups, "a"), Some((2, huge.len() + deep.len())));
}

#[test]
fn escaped_type_is_decoded() {
    let line = "{\"type\":\"a\\u0062\"}";
    let groups = group_messages(line.to_string()).unwrap();
    assert_eq!(stats_of(&groups, "ab"), Some((1, line.len())));
}

#[test]
fn group_stats_from_str() {
    let s = GroupStats::from("{\"type\":\"\u{e9}\"}");
    assert_eq!((s.occurences, s.total_byte_size), (1, 13));
}

#[test]
fn many_distinct_types() {
    let mut input = String::new();
    for i in 0..500 {
        input.push_str(&format!("{{\"type\":\"t{}\"}}\n", i % 250));
    }
    let groups = group_messages(input).unwrap();
    assert_eq!(groups.len(), 250);
    assert_eq!(stats_of(&groups, "t7"), Some((2, 26)));
    assert_eq!(stats_of(&groups, "t249"), Some((2, 30)));
}

#[test]
fn type_member_found_among_others() {
    let m = Message::try_from(b"{\"a\":1,\"b\":{\"c\":[true,null]},\"type\":\"x\",\"z\":\"y\"}")
        .ok()
        .unwrap();
    assert_eq!(m.type_, "x");
}

#[test]
fn escaped_type_key_is_the_type_member() {
    let m = Message::try_from(b"{\"t\\u0079pe\":\"k\"}").ok().unwrap();
    assert_eq!(m.type_, "k");
}
