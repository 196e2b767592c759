use looper_pedal::toml::{chars_of, read_general_line, scan_line, LineAt, Scalar, Scan, Scanned};

fn general(text: &str) -> LineAt {
    read_general_line(&chars_of(text))
}

fn key_is(key: &Option<Vec<char>>, expected: &str) -> bool {
    match key {
        Some(k) => k.iter().collect::<String>() == expected,
        None => false,
    }
}

#[test]
fn values_of_any_kind_are_read_to_their_end() {
    for text in [
        "future = 1.5",
        "future = 6.02e23",
        "future = inf",
        "future = 1979-05-27T07:32:00Z",
        "future = [1, 2]",
        "future = [ \"a]\", 'b]' ]  # a comment",
        "future = { x = 1, y = [2, 3] }",
        "future = \"\"\"one line\"\"\"",
        "future = '''one line'''",
    ] {
        match general(text) {
            LineAt::Entry(key, Scalar::Other) => assert!(key_is(&key, "future"), "{text}"),
            _ => panic!("not read as an entry: {text}"),
        }
    }
}

#[test]
fn a_literal_string_holds_its_text_as_written() {
    match general("device_name = 'C:\\iD4'  # comment") {
        LineAt::Entry(key, Scalar::Str(s)) => {
            assert!(key_is(&key, "device_name"));
            assert_eq!(s.iter().collect::<String>(), "C:\\iD4");
        }
        _ => panic!("not a string entry"),
    }
}

#[test]
fn quoted_keys_name_one_key_and_dotted_keys_none() {
    match general("\"sample_rate\" = 48000") {
        LineAt::Entry(key, Scalar::Int(v)) => {
            assert!(key_is(&key, "sample_rate"));
            assert_eq!(v, 48_000);
        }
        _ => panic!("not an integer entry"),
    }
    match general("'odd key' = true") {
        LineAt::Entry(key, Scalar::Bool(true)) => assert!(key_is(&key, "odd key")),
        _ => panic!("not a boolean entry"),
    }
    match general("a.b = 2") {
        LineAt::Entry(None, Scalar::Int(2)) => {}
        _ => panic!("a dotted key names no top-level key"),
    }
}

#[test]
fn headers_blank_lines_and_broken_lines() {
    assert!(matches!(general("[table]"), LineAt::Header));
    assert!(matches!(general("  [[array.of.tables]]  # comment"), LineAt::Header));
    assert!(matches!(general("[\"quoted ] name\"]"), LineAt::Header));
    assert!(matches!(general("   # only a comment"), LineAt::Blank));
    assert!(matches!(general("[table] extra"), LineAt::Bad));
    assert!(matches!(general("no equals sign"), LineAt::Bad));
    assert!(matches!(general("x = \"open"), LineAt::Bad));
    assert!(matches!(general("x = 'open"), LineAt::Bad));
    assert!(matches!(general("x = [1, 2]] 3"), LineAt::Bad));
}

#[test]
fn a_value_that_runs_on_says_where_it_stands() {
    match general("future = [1,") {
        LineAt::Opened(key, Scan::Array(1)) => assert!(key_is(&key, "future")),
        _ => panic!("an open array"),
    }
    assert!(matches!(general("future = [[1, 2], # note"), LineAt::Opened(_, Scan::Array(1))));
    assert!(matches!(general("future = \"\"\"first line"), LineAt::Opened(_, Scan::Basic3(0))));
    assert!(matches!(general("future = '''first line"), LineAt::Opened(_, Scan::Literal3(0))));
}

#[test]
fn scanning_the_next_line_carries_on_from_there() {
    let next = chars_of("  3, \"]\"]  # done");
    match scan_line(&next, 0, Scan::Array(1)) {
        Scanned::Ended(e) => assert_eq!(e, 9),
        _ => panic!("the array closes"),
    }
    let more = chars_of("  4, [5,");
    assert!(matches!(scan_line(&more, 0, Scan::Array(1)), Scanned::Open(Scan::Array(2))));
    let closing = chars_of("end of text\"\"\"");
    match scan_line(&closing, 0, Scan::Basic3(0)) {
        Scanned::Ended(e) => assert_eq!(e, 14),
        _ => panic!("the string closes"),
    }
    let escaped = chars_of("a \\\"\"\" still open");
    assert!(matches!(scan_line(&escaped, 0, Scan::Basic3(0)), Scanned::Open(Scan::Basic3(0))));
    let unclosed = chars_of("\"half");
    assert!(matches!(scan_line(&unclosed, 0, Scan::Array(1)), Scanned::Broken));
}

#[test]
fn integers_in_other_bases_read_their_value() {
    for (text, value) in [
        ("rate = 0xBB80", 48_000i64),
        ("rate = 0xbb_80", 48_000),
        ("rate = 0o135600", 48_000),
        ("rate = 0b1011_1011_1000_0000", 48_000),
        ("rate = 0x7FFFFFFFFFFFFFFF", i64::MAX),
        ("rate = 0x00ff  # padded", 255),
    ] {
        match general(text) {
            LineAt::Entry(_, Scalar::Int(v)) => assert_eq!(v, value, "{text}"),
            _ => panic!("not an integer: {text}"),
        }
    }
    for text in [
        "rate = 0x8000000000000000",
        "rate = 0x",
        "rate = 0x_1",
        "rate = 0x1__2",
        "rate = 0x1_",
        "rate = 0o8",
        "rate = 0b102",
        "rate = 0X1F",
        "rate = -0x1",
    ] {
        assert!(matches!(general(text), LineAt::Entry(_, Scalar::Other)), "{text}");
    }
}
