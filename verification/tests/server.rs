use tiempodb::server::serve::{parse_query, LineStep, LinesIterator, Query};

fn lines_of(chunks: &[&str]) -> Vec<String> {
    let mut iterator = LinesIterator::new();
    let mut chunks = chunks.iter();
    let mut result = vec![];
    loop {
        match iterator.next() {
            LineStep::Line(line) => result.push(line),
            LineStep::Invalid => break,
            LineStep::Pending => match chunks.next() {
                Some(chunk) => iterator.feed(chunk.as_bytes()),
                None => iterator.finish(),
            },
            LineStep::End => break,
        }
    }
    result
}

#[test]
fn server_test_line_terator() {
    let chunks = vec![
        "first_line\nsecond_li",
        "ne",
        "\n",
        "\n",
        "third_line\n",
        "fourth_line",
    ];

    let result = lines_of(&chunks);
    assert_eq!(
        vec!["first_line", "second_line", "", "third_line", "fourth_line"],
        result
    );
}

#[test]
fn serve_test_line_terator() {
    let chunks = vec![
        "first_line\nsecond_li",
        "ne",
        "\n",
        "\n",
        "third_line\n",
        "fourth_line",
    ];

    let result = lines_of(&chunks);
    assert_eq!(
        vec!["first_line", "second_line", "", "third_line", "fourth_line"],
        result
    );
}

#[test]
fn lines_of_a_body_as_a_write_request_sends_them() {
    assert_eq!(
        lines_of(&["first_line\nsecond_line", "\n", "third_line"]),
        vec!["first_line", "second_line", "third_line"]
    );
}

#[test]
fn a_body_that_ends_with_a_line_feed_has_no_empty_last_line() {
    assert_eq!(lines_of(&["a\nb\n"]), vec!["a", "b"]);
    assert_eq!(lines_of(&[]), Vec::<String>::new());
    assert_eq!(lines_of(&["\n"]), vec![""]);
}

#[test]
fn steps_say_what_is_missing() {
    let mut iterator = LinesIterator::new();
    assert_eq!(LineStep::Pending, iterator.next());
    iterator.feed(b"half");
    assert_eq!(LineStep::Pending, iterator.next());
    iterator.feed(b" line\nnext");
    assert_eq!(LineStep::Line("half line".to_string()), iterator.next());
    assert_eq!(LineStep::Pending, iterator.next());
    iterator.feed(&[0xff, b'\n']);
    assert_eq!(LineStep::Invalid, iterator.next());
    iterator.feed(b"last");
    iterator.finish();
    assert_eq!(LineStep::Line("last".to_string()), iterator.next());
    assert_eq!(LineStep::End, iterator.next());
    assert_eq!(LineStep::End, iterator.next());
}

#[test]
fn a_query_request_names_its_language() {
    let request = Query {
        query_type: "influxdb".into(),
        query: "SELECT \"name\" FROM \"OLOLO\"".into(),
    };
    assert_eq!("influxdb", request.query_type);
    assert_eq!("SELECT \"name\" FROM \"OLOLO\"", request.query);
}

#[test]
fn the_parameters_of_a_write_request_are_read() {
    assert_eq!(
        parse_query(Some("bucket=test_bucket&org=rbag&precision=ms")),
        vec![
            ("bucket".to_string(), "test_bucket".to_string()),
            ("org".to_string(), "rbag".to_string()),
            ("precision".to_string(), "ms".to_string())
        ]
    );
    assert_eq!(
        parse_query(Some("q=a+b%21&&flag")),
        vec![
            ("q".to_string(), "a b!".to_string()),
            ("flag".to_string(), "".to_string())
        ]
    );
    assert!(parse_query(Some("")).is_empty());
    assert!(parse_query(None).is_empty());
}

#[test]
fn a_line_may_arrive_byte_by_byte() {
    let mut lines = LinesIterator::new();
    assert_eq!(LineStep::Pending, lines.next());
    lines.feed(b"a");
    assert_eq!(LineStep::Pending, lines.next());
    lines.feed(b"b");
    assert_eq!(LineStep::Pending, lines.next());
    lines.feed(b"\n");
    assert_eq!(LineStep::Line("ab".to_string()), lines.next());
    assert_eq!(LineStep::Pending, lines.next());
    lines.feed(b"\n");
    assert_eq!(LineStep::Line("".to_string()), lines.next());
    lines.feed(b"c");
    lines.feed(b"d");
    assert_eq!(LineStep::Pending, lines.next());
    lines.finish();
    assert_eq!(LineStep::Line("cd".to_string()), lines.next());
    assert_eq!(LineStep::End, lines.next());
}
