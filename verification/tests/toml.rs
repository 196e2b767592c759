use looper_pedal::toml::{chars_of, push_decimal, push_escaped, read_line, split_lines, string_of, Line, Scalar};

fn line(text: &str) -> Line {
    read_line(&chars_of(text))
}

fn text(chars: &[char]) -> String {
    chars.iter().collect()
}

#[test]
fn lines_split_at_newlines_and_lose_a_carriage_return() {
    let lines = split_lines(&chars_of("a = 1\r\nb = 2\nc = 3\n"));
    let lines: Vec<String> = lines.iter().map(|l| text(l)).collect();
    assert_eq!(lines, vec!["a = 1", "b = 2", "c = 3"], "no empty line after the last newline");
}

#[test]
fn a_line_with_no_newline_keeps_its_carriage_return() {
    let lines = split_lines(&chars_of("a\nb\r"));
    let lines: Vec<String> = lines.iter().map(|l| text(l)).collect();
    assert_eq!(lines, vec!["a", "b\r"]);
}

#[test]
fn comments_and_blank_lines_say_nothing() {
    assert!(matches!(line(""), Line::Blank));
    assert!(matches!(line("   \t"), Line::Blank));
    assert!(matches!(line("# a comment"), Line::Blank));
    assert!(matches!(line("  # indented"), Line::Blank));
}

#[test]
fn a_pair_reads_its_key_and_value() {
    match line("  sample_rate =  48_000   # the rate") {
        Line::Pair(key, Scalar::Int(v)) => {
            assert_eq!(text(&key), "sample_rate");
            assert_eq!(v, 48_000);
        },
        _ => panic!("a pair"),
    }
    match line("enabled = false") {
        Line::Pair(_, Scalar::Bool(b)) => assert!(!b),
        _ => panic!("a boolean"),
    }
    match line("offset = -12") {
        Line::Pair(_, Scalar::Int(v)) => assert_eq!(v, -12),
        _ => panic!("a negative number"),
    }
}

#[test]
fn strings_read_their_escapes() {
    match line(r#"name = "A \"quoted\" \\ name\tA\u0042""#) {
        Line::Pair(_, Scalar::Str(s)) => assert_eq!(text(&s), "A \"quoted\" \\ name\tAB"),
        _ => panic!("a string"),
    }
}

#[test]
fn what_is_not_a_setting_is_refused() {
    assert!(matches!(line("device_name=iD4"), Line::Bad), "an unquoted value");
    assert!(matches!(line("= 3"), Line::Bad), "no key");
    assert!(matches!(line("rate = 007"), Line::Bad), "a leading zero");
    assert!(matches!(line("rate = 1__0"), Line::Bad), "a doubled underscore");
    assert!(matches!(line("rate = 1 2"), Line::Bad), "something after the value");
    assert!(matches!(line("name = \"open"), Line::Bad), "an unclosed string");
    assert!(matches!(line("name = \"bad \\q escape\""), Line::Bad), "an unknown escape");
    assert!(matches!(line("big = 9223372036854775808"), Line::Bad), "past a 64-bit integer");
}

#[test]
fn the_extremes_of_a_64_bit_integer_read() {
    match line("low = -9223372036854775808") {
        Line::Pair(_, Scalar::Int(v)) => assert_eq!(v, i64::MIN),
        _ => panic!("the smallest"),
    }
    match line("high = 9223372036854775807") {
        Line::Pair(_, Scalar::Int(v)) => assert_eq!(v, i64::MAX),
        _ => panic!("the largest"),
    }
}

#[test]
fn escaping_writes_what_a_string_needs_and_nothing_more() {
    let mut out = String::from("x=");
    push_escaped(&mut out, &"say \"hi\"\\\n\u{1}é".to_string());
    assert_eq!(out, "x=say \\\"hi\\\"\\\\\\n\\u0001é");
}

#[test]
fn decimals_are_written_digit_by_digit() {
    let mut out = String::new();
    push_decimal(&mut out, 0);
    out.push(' ');
    push_decimal(&mut out, 4_294_967_295);
    assert_eq!(out, "0 4294967295");
}

#[test]
fn characters_and_strings_convert_both_ways() {
    let chars = chars_of("héllo");
    assert_eq!(chars, vec!['h', 'é', 'l', 'l', 'o']);
    assert_eq!(string_of(&chars), "héllo");
}
