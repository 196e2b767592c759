// Reading and writing the settings file's TOML. Every line of a TOML
// document is read: comments and blank lines; `key = value` pairs with
// bare, quoted or dotted keys and any value - strings, integers and
// booleans are read for what they hold, everything else (floats, dates,
// arrays and inline tables, multi-line strings and arrays that run over
// several lines) only for where it ends; and table headers, after which
// no pair is a top-level one. The settings are top-level pairs.

use vstd::prelude::*;

verus! {

broadcast use vstd::string::group_string_axioms;

// ---------------------------------------------------------------------
// Characters
// ---------------------------------------------------------------------

pub open spec fn is_ws(c: char) -> bool {
    c == ' ' || c == '\t'
}

pub open spec fn is_digit(c: char) -> bool {
    '0' <= c && c <= '9'
}

pub open spec fn is_key_char(c: char) -> bool {
    ('a' <= c && c <= 'z') || ('A' <= c && c <= 'Z') || is_digit(c) || c == '_' || c == '-'
}

pub open spec fn digit_value(c: char) -> int {
    c as int - '0' as int
}

/// Characters a basic string may not hold as they are.
pub open spec fn is_control(c: char) -> bool {
    (c as int) < 0x20 || (c as int) == 0x7f
}

pub open spec fn hex_value(c: char) -> Option<int> {
    if is_digit(c) {
        Some(digit_value(c))
    } else if 'a' <= c && c <= 'f' {
        Some(c as int - 'a' as int + 10)
    } else if 'A' <= c && c <= 'F' {
        Some(c as int - 'A' as int + 10)
    } else {
        None
    }
}

pub open spec fn hex_digit(v: int) -> char {
    if v < 10 {
        (v + '0' as int) as char
    } else {
        (v - 10 + 'a' as int) as char
    }
}

// ---------------------------------------------------------------------
// Lines
// ---------------------------------------------------------------------

/// The text up to the first newline, what follows it, and whether there
/// was one.
pub open spec fn take_line(t: Seq<char>) -> (Seq<char>, Seq<char>, bool)
    decreases t.len(),
{
    if t.len() == 0 {
        (Seq::empty(), Seq::empty(), false)
    } else if t[0] == '\n' {
        (Seq::empty(), t.drop_first(), true)
    } else {
        let (line, rest, found) = take_line(t.drop_first());
        (seq![t[0]] + line, rest, found)
    }
}

/// A line ended by `\r\n` loses the `\r` too.
pub open spec fn strip_cr(line: Seq<char>) -> Seq<char> {
    if line.len() > 0 && line.last() == '\r' {
        line.drop_last()
    } else {
        line
    }
}

pub proof fn lemma_take_line_rest(t: Seq<char>)
    ensures
        take_line(t).1.len() <= t.len(),
        take_line(t).2 ==> take_line(t).1.len() < t.len(),
    decreases t.len(),
{
    if t.len() > 0 && t[0] != '\n' {
        lemma_take_line_rest(t.drop_first());
    }
}

/// The lines of `t`: split at each `\n`, a `\r` before it dropped, and no
/// empty line after a final newline.
pub open spec fn text_lines(t: Seq<char>) -> Seq<Seq<char>>
    decreases t.len(),
{
    if t.len() == 0 {
        Seq::empty()
    } else {
        let (line, rest, found) = take_line(t);
        if !found {
            seq![line]
        } else {
            proof {
                lemma_take_line_rest(t);
            }
            seq![strip_cr(line)] + text_lines(rest)
        }
    }
}

fn copy_range(text: &Vec<char>, from: usize, to: usize) -> (part: Vec<char>)
    requires
        from <= to <= text@.len(),
    ensures
        part@ == text@.subrange(from as int, to as int),
{
    let mut part: Vec<char> = Vec::new();
    let mut i = from;
    while i < to
        invariant
            from <= i <= to,
            to <= text@.len(),
            part@ == text@.subrange(from as int, i as int),
        decreases to - i,
    {
        part.push(text[i]);
        assert(part@ =~= text@.subrange(from as int, i + 1));
        i = i + 1;
    }
    part
}

pub proof fn lemma_take_line_at(t: Seq<char>, k: int)
    requires
        0 <= k <= t.len(),
        forall|j: int| 0 <= j < k ==> t[j] != '\n',
    ensures
        k < t.len() && t[k] == '\n' ==> take_line(t) == (t.take(k), t.skip(k + 1), true),
        k == t.len() ==> take_line(t) == (t, Seq::<char>::empty(), false),
    decreases k,
{
    if k > 0 {
        lemma_take_line_at(t.drop_first(), k - 1);
        assert(seq![t[0]] + t.drop_first().take(k - 1) =~= t.take(k));
        if k < t.len() {
            assert(t.drop_first().skip(k) =~= t.skip(k + 1));
        }
        assert(seq![t[0]] + t.drop_first() =~= t);
    } else {
        if t.len() == 0 {
            assert(t =~= Seq::<char>::empty());
        } else {
            assert(t.take(0) =~= Seq::<char>::empty());
            assert(t.skip(1) =~= t.drop_first());
        }
    }
}

/// The lines of `text`, as `text_lines` says.
pub fn split_lines(text: &Vec<char>) -> (lines: Vec<Vec<char>>)
    ensures
        lines@.len() == text_lines(text@).len(),
        forall|i: int| 0 <= i < lines@.len() ==> #[trigger] lines@[i]@ == text_lines(text@)[i],
{
    let n = text.len();
    let mut lines: Vec<Vec<char>> = Vec::new();
    let mut start: usize = 0;
    let ghost mut done: Seq<Seq<char>> = Seq::empty();
    assert(text@.skip(0) =~= text@);
    while start < n
        invariant
            n == text@.len(),
            start <= n,
            lines@.len() == done.len(),
            forall|i: int| 0 <= i < lines@.len() ==> #[trigger] lines@[i]@ == done[i],
            text_lines(text@) == done + text_lines(text@.skip(start as int)),
        decreases n - start,
    {
        let ghost rest = text@.skip(start as int);
        let mut k = start;
        while k < n && text[k] != '\n'
            invariant
                start <= k <= n,
                n == text@.len(),
                forall|j: int| start <= j < k ==> text@[j] != '\n',
            decreases n - k,
        {
            k = k + 1;
        }
        proof {
            lemma_take_line_at(rest, k - start);
        }
        if k == n {
            let line = copy_range(text, start, n);
            proof {
                assert(line@ =~= rest);
                assert(text_lines(text@.skip(n as int)) =~= Seq::<Seq<char>>::empty());
                done = done.push(line@);
            }
            lines.push(line);
            start = n;
        } else {
            let mut end = k;
            if end > start && text[end - 1] == '\r' {
                end = end - 1;
            }
            let line = copy_range(text, start, end);
            proof {
                assert(rest.take(k - start) =~= text@.subrange(start as int, k as int));
                assert(line@ =~= strip_cr(rest.take(k - start)));
                assert(rest.skip(k - start + 1) =~= text@.skip(k + 1));
                done = done.push(line@);
            }
            lines.push(line);
            start = k + 1;
        }
        assert forall|i: int| 0 <= i < lines@.len() implies #[trigger] lines@[i]@ == done[i] by {}
    }
    proof {
        assert(text@.skip(start as int) =~= Seq::<char>::empty());
        assert(done + Seq::<Seq<char>>::empty() =~= done);
    }
    lines
}

// ---------------------------------------------------------------------
// Within a line
// ---------------------------------------------------------------------

/// `l` with leading spaces and tabs dropped.
pub open spec fn skip_ws(l: Seq<char>) -> Seq<char>
    decreases l.len(),
{
    if l.len() > 0 && is_ws(l[0]) {
        skip_ws(l.drop_first())
    } else {
        l
    }
}

/// The bare key at the front of `l`, and what follows it.
pub open spec fn take_key(l: Seq<char>) -> (Seq<char>, Seq<char>)
    decreases l.len(),
{
    if l.len() > 0 && is_key_char(l[0]) {
        let (key, rest) = take_key(l.drop_first());
        (seq![l[0]] + key, rest)
    } else {
        (Seq::empty(), l)
    }
}

/// The character an escape sequence's letter stands for.
pub open spec fn escaped(e: char) -> Option<char> {
    if e == 'n' {
        Some('\n')
    } else if e == 't' {
        Some('\t')
    } else if e == 'r' {
        Some('\r')
    } else if e == '"' {
        Some('"')
    } else if e == '\\' {
        Some('\\')
    } else if e == 'b' {
        Some('\x08')
    } else if e == 'f' {
        Some('\x0c')
    } else {
        None
    }
}

/// The character a `\u` escape's four hex digits name - only the ASCII
/// ones are read.
pub open spec fn unicode_escape(l: Seq<char>) -> Option<char> {
    if l.len() < 4 {
        None
    } else {
        match (hex_value(l[0]), hex_value(l[1]), hex_value(l[2]), hex_value(l[3])) {
            (Some(a), Some(b), Some(c), Some(d)) => {
                let code = ((a * 16 + b) * 16 + c) * 16 + d;
                if code < 0x80 {
                    Some(code as char)
                } else {
                    None
                }
            },
            _ => None,
        }
    }
}

/// The rest of a basic string whose opening quote is already behind: its
/// contents, and what follows the closing quote.
pub open spec fn parse_string(l: Seq<char>) -> Option<(Seq<char>, Seq<char>)>
    decreases l.len(),
{
    if l.len() == 0 {
        None
    } else if l[0] == '"' {
        Some((Seq::empty(), l.drop_first()))
    } else if l[0] == '\\' {
        if l.len() < 2 {
            None
        } else if l[1] == 'u' {
            match unicode_escape(l.skip(2)) {
                Some(c) => match parse_string(l.skip(6)) {
                    Some((s, rest)) => Some((seq![c] + s, rest)),
                    None => None,
                },
                None => None,
            }
        } else {
            match escaped(l[1]) {
                Some(c) => match parse_string(l.skip(2)) {
                    Some((s, rest)) => Some((seq![c] + s, rest)),
                    None => None,
                },
                None => None,
            }
        }
    } else if is_control(l[0]) && l[0] != '\t' {
        None
    } else {
        match parse_string(l.drop_first()) {
            Some((s, rest)) => Some((seq![l[0]] + s, rest)),
            None => None,
        }
    }
}

/// Digits after the first, with single underscores allowed between them:
/// the value `acc` grows to, and what follows the last digit.
pub open spec fn digits_tail(l: Seq<char>, acc: int) -> (int, Seq<char>)
    decreases l.len(),
{
    if l.len() > 0 && is_digit(l[0]) {
        digits_tail(l.drop_first(), acc * 10 + digit_value(l[0]))
    } else if l.len() > 1 && l[0] == '_' && is_digit(l[1]) {
        digits_tail(l.skip(2), acc * 10 + digit_value(l[1]))
    } else {
        (acc, l)
    }
}

/// A decimal integer with an optional sign, no leading zeros, and a value
/// a 64-bit signed integer can hold.
pub open spec fn parse_int(l: Seq<char>) -> Option<(int, Seq<char>)> {
    let negative = l.len() > 0 && l[0] == '-';
    let unsigned = if l.len() > 0 && (l[0] == '-' || l[0] == '+') {
        l.drop_first()
    } else {
        l
    };
    if unsigned.len() == 0 || !is_digit(unsigned[0]) {
        None
    } else if unsigned[0] == '0' && unsigned.len() > 1 && (is_digit(unsigned[1]) || unsigned[1]
        == '_') {
        None
    } else {
        let (magnitude, rest) = digits_tail(unsigned.drop_first(), digit_value(unsigned[0]));
        let value = if negative {
            -magnitude
        } else {
            magnitude
        };
        if value < i64::MIN || value > i64::MAX {
            None
        } else {
            Some((value, rest))
        }
    }
}

pub enum TomlValue {
    Str(Seq<char>),
    Int(int),
    Bool(bool),
    /// Any other value: a float, a date or time, an array, an inline
    /// table, a multi-line string. Nothing the settings use, so only its
    /// extent is read.
    Other,
}

pub open spec fn true_word() -> Seq<char> {
    seq!['t', 'r', 'u', 'e']
}

pub open spec fn false_word() -> Seq<char> {
    seq!['f', 'a', 'l', 's', 'e']
}

/// The value at the front of `l`, and what follows it.
pub open spec fn parse_value(l: Seq<char>) -> Option<(TomlValue, Seq<char>)> {
    if l.len() == 0 {
        None
    } else if l[0] == '"' {
        match parse_string(l.drop_first()) {
            Some((s, rest)) => Some((TomlValue::Str(s), rest)),
            None => None,
        }
    } else if l.len() >= 4 && l.take(4) == true_word() {
        Some((TomlValue::Bool(true), l.skip(4)))
    } else if l.len() >= 5 && l.take(5) == false_word() {
        Some((TomlValue::Bool(false), l.skip(5)))
    } else {
        match parse_int(l) {
            Some((v, rest)) => Some((TomlValue::Int(v), rest)),
            None => None,
        }
    }
}

/// What one line of the file says.
pub enum TomlLine {
    /// Nothing but whitespace or a comment.
    Blank,
    Pair(Seq<char>, TomlValue),
    /// Not something this reader takes.
    Bad,
}

/// Whether nothing but a comment follows.
pub open spec fn ends_line(l: Seq<char>) -> bool {
    l.len() == 0 || l[0] == '#'
}

pub open spec fn parse_line(l: Seq<char>) -> TomlLine {
    let a = skip_ws(l);
    if ends_line(a) {
        TomlLine::Blank
    } else {
        let (key, b) = take_key(a);
        let c = skip_ws(b);
        if key.len() == 0 || c.len() == 0 || c[0] != '=' {
            TomlLine::Bad
        } else {
            match parse_value(skip_ws(c.drop_first())) {
                Some((value, rest)) => if ends_line(skip_ws(rest)) {
                    TomlLine::Pair(key, value)
                } else {
                    TomlLine::Bad
                },
                None => TomlLine::Bad,
            }
        }
    }
}


// ---------------------------------------------------------------------
// Values and keys of any kind
// ---------------------------------------------------------------------

/// Where a scan through a value stands: inside arrays or inline tables
/// `depth` deep, and possibly inside a string or a comment there. A
/// multi-line string or an array can run over several lines, so this is
/// carried from one line to the next.
#[derive(Clone, Copy, PartialEq, Eq, Structural)]
pub enum Scan {
    Array(usize),
    Comment(usize),
    Basic(usize),
    BasicEscape(usize),
    Literal(usize),
    Basic3(usize),
    Basic3Escape(usize),
    Literal3(usize),
}

/// How a scan through the rest of a line ends: the value ended just
/// before `Ended`'s index; it runs on past the end of the line; or the
/// line cannot be part of a value.
#[derive(Clone, Copy, PartialEq, Eq, Structural)]
pub enum Scanned {
    Ended(usize),
    Open(Scan),
    Broken,
}

/// Three `q`s start at `i`.
pub open spec fn starts3(l: Seq<char>, i: int, q: char) -> bool {
    0 <= i && i + 3 <= l.len() && l[i] == q && l[i + 1] == q && l[i + 2] == q
}

/// What a scan in `st` comes to when the line runs out.
pub open spec fn line_ends_in(st: Scan) -> Scanned {
    match st {
        Scan::Array(d) => Scanned::Open(Scan::Array(d)),
        Scan::Comment(d) => Scanned::Open(Scan::Array(d)),
        Scan::Basic3(d) => Scanned::Open(Scan::Basic3(d)),
        Scan::Basic3Escape(d) => Scanned::Open(Scan::Basic3(d)),
        Scan::Literal3(d) => Scanned::Open(Scan::Literal3(d)),
        _ => Scanned::Broken,
    }
}

/// Scans `l` from `i` in `st` to where the value ends. A string closing at
/// depth 0 ends the value; so does the bracket that closes depth 1.
pub open spec fn scan_at(l: Seq<char>, i: int, st: Scan) -> Scanned
    decreases l.len() - i,
{
    if i < 0 || i >= l.len() {
        line_ends_in(st)
    } else {
        let c = l[i];
        match st {
            Scan::Array(d) => if c == '#' {
                scan_at(l, i + 1, Scan::Comment(d))
            } else if starts3(l, i, '"') {
                scan_at(l, i + 3, Scan::Basic3(d))
            } else if starts3(l, i, '\'') {
                scan_at(l, i + 3, Scan::Literal3(d))
            } else if c == '"' {
                scan_at(l, i + 1, Scan::Basic(d))
            } else if c == '\'' {
                scan_at(l, i + 1, Scan::Literal(d))
            } else if c == '[' || c == '{' {
                if d == usize::MAX {
                    Scanned::Broken
                } else {
                    scan_at(l, i + 1, Scan::Array((d + 1) as usize))
                }
            } else if c == ']' || c == '}' {
                if d <= 1 {
                    Scanned::Ended((i + 1) as usize)
                } else {
                    scan_at(l, i + 1, Scan::Array((d - 1) as usize))
                }
            } else {
                scan_at(l, i + 1, Scan::Array(d))
            },
            Scan::Comment(d) => scan_at(l, i + 1, Scan::Comment(d)),
            Scan::Basic(d) => if c == '"' {
                scan_at(l, i + 1, Scan::Array(d))
            } else if c == '\\' {
                scan_at(l, i + 1, Scan::BasicEscape(d))
            } else {
                scan_at(l, i + 1, Scan::Basic(d))
            },
            Scan::BasicEscape(d) => scan_at(l, i + 1, Scan::Basic(d)),
            Scan::Literal(d) => if c == '\'' {
                scan_at(l, i + 1, Scan::Array(d))
            } else {
                scan_at(l, i + 1, Scan::Literal(d))
            },
            Scan::Basic3(d) => if starts3(l, i, '"') {
                if d == 0 {
                    Scanned::Ended((i + 3) as usize)
                } else {
                    scan_at(l, i + 3, Scan::Array(d))
                }
            } else if c == '\\' {
                scan_at(l, i + 1, Scan::Basic3Escape(d))
            } else {
                scan_at(l, i + 1, Scan::Basic3(d))
            },
            Scan::Basic3Escape(d) => scan_at(l, i + 1, Scan::Basic3(d)),
            Scan::Literal3(d) => if starts3(l, i, '\'') {
                if d == 0 {
                    Scanned::Ended((i + 3) as usize)
                } else {
                    scan_at(l, i + 3, Scan::Array(d))
                }
            } else {
                scan_at(l, i + 1, Scan::Literal3(d))
            },
        }
    }
}

/// Where the spaces and tabs from `i` end.
pub open spec fn ws_end(l: Seq<char>, i: int) -> int
    decreases l.len() - i,
{
    if 0 <= i < l.len() && is_ws(l[i]) {
        ws_end(l, i + 1)
    } else {
        i
    }
}

/// Nothing but whitespace and a comment from `i` on.
pub open spec fn rest_blank(l: Seq<char>, i: int) -> bool {
    let j = ws_end(l, i);
    j >= l.len() || l[j] == '#'
}

/// Where the first `target` outside quotes stands, from `i` on, with `q`
/// saying whether `i` is inside a basic string (1), just after a
/// backslash in one (2), or inside a literal string (3).
pub open spec fn find_outside(l: Seq<char>, i: int, q: nat, target: char) -> Option<int>
    decreases l.len() - i,
{
    if i < 0 || i >= l.len() {
        None
    } else {
        let c = l[i];
        if q == 1 {
            if c == '"' {
                find_outside(l, i + 1, 0, target)
            } else if c == '\\' {
                find_outside(l, i + 1, 2, target)
            } else {
                find_outside(l, i + 1, 1, target)
            }
        } else if q == 2 {
            find_outside(l, i + 1, 1, target)
        } else if q == 3 {
            if c == '\'' {
                find_outside(l, i + 1, 0, target)
            } else {
                find_outside(l, i + 1, 3, target)
            }
        } else if c == target {
            Some(i)
        } else if c == '"' {
            find_outside(l, i + 1, 1, target)
        } else if c == '\'' {
            find_outside(l, i + 1, 3, target)
        } else {
            find_outside(l, i + 1, 0, target)
        }
    }
}

/// `s` without its trailing spaces and tabs.
pub open spec fn trim_end(s: Seq<char>) -> Seq<char>
    decreases s.len(),
{
    if s.len() > 0 && is_ws(s.last()) {
        trim_end(s.drop_last())
    } else {
        s
    }
}

/// The key written as `k`, if it is a single one: bare, or one basic or
/// literal string. A dotted key names something inside a table.
pub open spec fn single_key(k: Seq<char>) -> Option<Seq<char>> {
    if k.len() > 0 && forall|i: int| 0 <= i < k.len() ==> is_key_char(#[trigger] k[i]) {
        Some(k)
    } else if k.len() > 0 && k[0] == '"' {
        match parse_string(k.drop_first()) {
            Some((name, rest)) => if rest.len() == 0 {
                Some(name)
            } else {
                None
            },
            None => None,
        }
    } else if k.len() >= 2 && k[0] == '\'' && k.last() == '\'' && forall|i: int|
        1 <= i < k.len() - 1 ==> #[trigger] k[i] != '\'' {
        Some(k.subrange(1, k.len() - 1))
    } else {
        None
    }
}

/// Where the literal string whose contents start at `i` closes: the index
/// just after its closing quote.
pub open spec fn literal_close(l: Seq<char>, i: int) -> Option<int>
    decreases l.len() - i,
{
    if i < 0 || i >= l.len() {
        None
    } else if l[i] == '\'' {
        Some(i + 1)
    } else {
        literal_close(l, i + 1)
    }
}

/// Where a bare value - a number, a boolean, a date - starting at `i`
/// ends: at a comment or the end of the line.
pub open spec fn token_end(l: Seq<char>, i: int) -> int
    decreases l.len() - i,
{
    if 0 <= i < l.len() && l[i] != '#' {
        token_end(l, i + 1)
    } else {
        i
    }
}

/// The base a prefix letter names: `x` hexadecimal, `o` octal, `b`
/// binary; 0 for any other letter.
pub open spec fn base_of(c: char) -> int {
    if c == 'x' {
        16
    } else if c == 'o' {
        8
    } else if c == 'b' {
        2
    } else {
        0
    }
}

/// The value of `c` as a digit in `base`, if it is one.
pub open spec fn radix_digit(c: char, base: int) -> Option<int> {
    match hex_value(c) {
        Some(x) => if x < base {
            Some(x)
        } else {
            None
        },
        None => None,
    }
}

/// Digits in `base` after the first, with single underscores between
/// them, running to the end of `l`: the value `acc` grows to, or `None`
/// if anything else stands there.
pub open spec fn radix_tail(l: Seq<char>, base: int, acc: int) -> Option<int>
    decreases l.len(),
{
    if l.len() == 0 {
        Some(acc)
    } else if radix_digit(l[0], base) is Some {
        radix_tail(l.drop_first(), base, acc * base + radix_digit(l[0], base)->0)
    } else if l.len() > 1 && l[0] == '_' && radix_digit(l[1], base) is Some {
        radix_tail(l.skip(2), base, acc * base + radix_digit(l[1], base)->0)
    } else {
        None
    }
}

/// A whole token that is an integer written in hexadecimal, octal or
/// binary - `0x`, `0o` or `0b`, then its digits - and its value, where a
/// 64-bit signed integer can hold it.
pub open spec fn parse_prefixed(t: Seq<char>) -> Option<int> {
    if t.len() >= 3 && t[0] == '0' && base_of(t[1]) > 0 && radix_digit(t[2], base_of(t[1])) is Some {
        match radix_tail(t.skip(3), base_of(t[1]), radix_digit(t[2], base_of(t[1]))->0) {
            Some(x) => if x <= i64::MAX {
                Some(x)
            } else {
                None
            },
            None => None,
        }
    } else {
        None
    }
}

/// What a bare value - one in neither quotes nor brackets - holds, read
/// as a whole.
pub open spec fn bare_value(t: Seq<char>) -> TomlValue {
    match parse_prefixed(t) {
        Some(x) => TomlValue::Int(x),
        None => match parse_value(t) {
            Some((x, rest)) => if rest.len() == 0 {
                x
            } else {
                TomlValue::Other
            },
            None => TomlValue::Other,
        },
    }
}

/// What a value starting at `v` is: read through to its end, with what it
/// holds where the settings could use it; or running on past the line.
pub enum ValueRead {
    Ended(TomlValue, int),
    Opened(Scan),
    Bad,
}

pub open spec fn read_value(l: Seq<char>, v: int) -> ValueRead {
    if v < 0 || v >= l.len() {
        ValueRead::Bad
    } else if starts3(l, v, '"') || starts3(l, v, '\'') || l[v] == '[' || l[v] == '{' {
        let scanned = if starts3(l, v, '"') {
            scan_at(l, v + 3, Scan::Basic3(0))
        } else if starts3(l, v, '\'') {
            scan_at(l, v + 3, Scan::Literal3(0))
        } else {
            scan_at(l, v + 1, Scan::Array(1))
        };
        match scanned {
            Scanned::Ended(e) => ValueRead::Ended(TomlValue::Other, e as int),
            Scanned::Open(s) => ValueRead::Opened(s),
            Scanned::Broken => ValueRead::Bad,
        }
    } else if l[v] == '"' {
        match parse_string(l.skip(v + 1)) {
            Some((s, rest)) => ValueRead::Ended(TomlValue::Str(s), l.len() - rest.len()),
            None => ValueRead::Bad,
        }
    } else if l[v] == '\'' {
        match literal_close(l, v + 1) {
            Some(e) => ValueRead::Ended(TomlValue::Str(l.subrange(v + 1, e - 1)), e),
            None => ValueRead::Bad,
        }
    } else {
        let e = token_end(l, v);
        ValueRead::Ended(bare_value(trim_end(l.subrange(v, e))), e)
    }
}

/// What a line is, read as TOML in general.
pub enum GeneralLine {
    Blank,
    Header,
    /// A pair; the key where it is a single one.
    Entry(Option<Seq<char>>, TomlValue),
    /// A pair whose value runs on past the line.
    Opened(Option<Seq<char>>, Scan),
    Bad,
}

pub open spec fn general_line(l: Seq<char>) -> GeneralLine {
    let a = ws_end(l, 0);
    if a >= l.len() || l[a] == '#' {
        GeneralLine::Blank
    } else if l[a] == '[' {
        match find_outside(l, a + 1, 0, ']') {
            Some(e) => {
                let f = if e + 1 < l.len() && l[e + 1] == ']' {
                    e + 2
                } else {
                    e + 1
                };
                if rest_blank(l, f) {
                    GeneralLine::Header
                } else {
                    GeneralLine::Bad
                }
            },
            None => GeneralLine::Bad,
        }
    } else {
        match find_outside(l, a, 0, '=') {
            Some(e) => {
                let key = single_key(trim_end(l.subrange(a, e)));
                match read_value(l, ws_end(l, e + 1)) {
                    ValueRead::Ended(x, end) => if rest_blank(l, end) {
                        GeneralLine::Entry(key, x)
                    } else {
                        GeneralLine::Bad
                    },
                    ValueRead::Opened(s) => GeneralLine::Opened(key, s),
                    ValueRead::Bad => GeneralLine::Bad,
                }
            },
            None => GeneralLine::Bad,
        }
    }
}

/// Where reading a document stands between lines: whether a table header
/// has been seen, so that pairs are no longer top-level ones, and a value
/// still running on, if one is.
pub struct DocState {
    pub in_table: bool,
    pub open: Option<Scan>,
}

/// A top-level pair a line gives, if it gives one.
pub open spec fn top_pair(in_table: bool, key: Option<Seq<char>>, v: TomlValue) -> Option<(Seq<char>, TomlValue)> {
    match key {
        Some(k) => if in_table {
            None
        } else {
            Some((k, v))
        },
        None => None,
    }
}

/// One line of a document read in `st`: where reading stands after it,
/// and the top-level pair it gives, if any; `None` if it is not TOML.
pub open spec fn doc_line(st: DocState, l: Seq<char>) -> Option<(DocState, Option<(Seq<char>, TomlValue)>)> {
    match st.open {
        Some(s) => match scan_at(l, 0, s) {
            Scanned::Ended(e) => if rest_blank(l, e as int) {
                Some((DocState { in_table: st.in_table, open: None }, None))
            } else {
                None
            },
            Scanned::Open(s2) => Some((DocState { in_table: st.in_table, open: Some(s2) }, None)),
            Scanned::Broken => None,
        },
        None => match parse_line(l) {
            TomlLine::Blank => Some((st, None)),
            TomlLine::Pair(k, v) => Some((st, top_pair(st.in_table, Some(k), v))),
            TomlLine::Bad => match general_line(l) {
                GeneralLine::Blank => Some((st, None)),
                GeneralLine::Header => Some((DocState { in_table: true, open: None }, None)),
                GeneralLine::Entry(key, v) => Some((st, top_pair(st.in_table, key, v))),
                GeneralLine::Opened(key, s) => Some(
                    (
                        DocState { in_table: st.in_table, open: Some(s) },
                        top_pair(st.in_table, key, TomlValue::Other),
                    ),
                ),
                GeneralLine::Bad => None,
            },
        },
    }
}

// ---------------------------------------------------------------------
// Reading, in executable form
// ---------------------------------------------------------------------

fn is_ws_char(c: char) -> (b: bool)
    ensures
        b == is_ws(c),
{
    c == ' ' || c == '\t'
}

fn is_digit_char(c: char) -> (b: bool)
    ensures
        b == is_digit(c),
{
    '0' <= c && c <= '9'
}

fn is_key_character(c: char) -> (b: bool)
    ensures
        b == is_key_char(c),
{
    ('a' <= c && c <= 'z') || ('A' <= c && c <= 'Z') || ('0' <= c && c <= '9') || c == '_' || c
        == '-'
}

/// Where the whitespace starting at `i` ends.
fn skip_ws_at(l: &Vec<char>, i: usize) -> (j: usize)
    requires
        i <= l@.len(),
    ensures
        i <= j <= l@.len(),
        l@.skip(j as int) == skip_ws(l@.skip(i as int)),
{
    let mut j = i;
    while j < l.len() && is_ws_char(l[j])
        invariant
            i <= j <= l@.len(),
            skip_ws(l@.skip(i as int)) == skip_ws(l@.skip(j as int)),
        decreases l@.len() - j,
    {
        assert(l@.skip(j as int).drop_first() =~= l@.skip(j + 1));
        j = j + 1;
    }
    j
}

/// The code point of `c`.
fn char_code(c: char) -> (v: u32)
    ensures
        v == c as int,
{
    c as u32
}

fn hex_of(c: char) -> (v: Option<u32>)
    ensures
        match hex_value(c) {
            Some(x) => v == Some(x as u32),
            None => v.is_none(),
        },
{
    if '0' <= c && c <= '9' {
        Some((c as u32) - ('0' as u32))
    } else if 'a' <= c && c <= 'f' {
        Some((c as u32) - ('a' as u32) + 10)
    } else if 'A' <= c && c <= 'F' {
        Some((c as u32) - ('A' as u32) + 10)
    } else {
        None
    }
}

fn escaped_char(e: char) -> (c: Option<char>)
    ensures
        c == escaped(e),
{
    if e == 'n' {
        Some('\n')
    } else if e == 't' {
        Some('\t')
    } else if e == 'r' {
        Some('\r')
    } else if e == '"' {
        Some('"')
    } else if e == '\\' {
        Some('\\')
    } else if e == 'b' {
        Some('\x08')
    } else if e == 'f' {
        Some('\x0c')
    } else {
        None
    }
}

fn unicode_at(l: &Vec<char>, i: usize) -> (c: Option<char>)
    requires
        i <= l@.len(),
    ensures
        c == unicode_escape(l@.skip(i as int)),
{
    if l.len() - i < 4 {
        return None;
    }
    let a = hex_of(l[i]);
    let b = hex_of(l[i + 1]);
    let c = hex_of(l[i + 2]);
    let d = hex_of(l[i + 3]);
    match (a, b, c, d) {
        (Some(a), Some(b), Some(c), Some(d)) => {
            let code = ((a * 16 + b) * 16 + c) * 16 + d;
            if code < 0x80 {
                Some((code as u8) as char)
            } else {
                None
            }
        },
        _ => None,
    }
}

/// A basic string whose opening quote is just before `i`: its contents
/// and where what follows the closing quote begins.
fn parse_string_at(l: &Vec<char>, i: usize) -> (parsed: Option<(Vec<char>, usize)>)
    requires
        i <= l@.len(),
    ensures
        match parse_string(l@.skip(i as int)) {
            Some((s, rest)) => match parsed {
                Some((v, j)) => v@ == s && j <= l@.len() && l@.skip(j as int) == rest,
                None => false,
            },
            None => parsed.is_none(),
        },
{
    let n = l.len();
    let mut out: Vec<char> = Vec::new();
    let mut j = i;
    while j < n
        invariant
            n == l@.len(),
            i <= j <= n,
            parse_string(l@.skip(i as int)) == match parse_string(l@.skip(j as int)) {
                Some((s, rest)) => Some((out@ + s, rest)),
                None => None,
            },
        decreases n - j,
    {
        let ghost here = l@.skip(j as int);
        let c = l[j];
        if c == '"' {
            assert(here.drop_first() =~= l@.skip(j + 1));
            assert(out@ + Seq::<char>::empty() =~= out@);
            return Some((out, j + 1));
        } else if c == '\\' {
            if n - j < 2 {
                return None;
            }
            let e = l[j + 1];
            if e == 'u' {
                let code = unicode_at(l, j + 2);
                assert(here.skip(2) =~= l@.skip(j + 2));
                match code {
                    Some(ch) => {
                        assert(here.skip(6) =~= l@.skip(j + 6));
                        proof {
                            let prefix = out@;
                            match parse_string(l@.skip(j + 6)) {
                                Some((s, rest)) => {
                                    assert(prefix.push(ch) + s =~= prefix + (seq![ch] + s));
                                },
                                None => {},
                            }
                        }
                        out.push(ch);
                        j = j + 6;
                    },
                    None => {
                        return None;
                    },
                }
            } else {
                match escaped_char(e) {
                    Some(ch) => {
                        assert(here.skip(2) =~= l@.skip(j + 2));
                        proof {
                            let prefix = out@;
                            match parse_string(l@.skip(j + 2)) {
                                Some((s, rest)) => {
                                    assert(prefix.push(ch) + s =~= prefix + (seq![ch] + s));
                                },
                                None => {},
                            }
                        }
                        out.push(ch);
                        j = j + 2;
                    },
                    None => {
                        return None;
                    },
                }
            }
        } else if (char_code(c) < 0x20 || char_code(c) == 0x7f) && c != '\t' {
            return None;
        } else {
            assert(here.drop_first() =~= l@.skip(j + 1));
            proof {
                let prefix = out@;
                match parse_string(l@.skip(j + 1)) {
                    Some((s, rest)) => {
                        assert(prefix.push(c) + s =~= prefix + (seq![c] + s));
                    },
                    None => {},
                }
            }
            out.push(c);
            j = j + 1;
        }
    }
    None
}

/// Past this, an integer is out of range whatever its sign.
spec fn too_big() -> int {
    0x1_0000_0000_0000_0000int
}

proof fn lemma_digits_tail_grows(l: Seq<char>, acc: int)
    requires
        acc >= 0,
    ensures
        digits_tail(l, acc).0 >= acc,
    decreases l.len(),
{
    if l.len() > 0 && is_digit(l[0]) {
        lemma_digits_tail_grows(l.drop_first(), acc * 10 + digit_value(l[0]));
    } else if l.len() > 1 && l[0] == '_' && is_digit(l[1]) {
        lemma_digits_tail_grows(l.skip(2), acc * 10 + digit_value(l[1]));
    }
}

/// A decimal integer at `i`: its value and where what follows it begins.
fn parse_int_at(l: &Vec<char>, i: usize) -> (parsed: Option<(i64, usize)>)
    requires
        i <= l@.len(),
    ensures
        match parse_int(l@.skip(i as int)) {
            Some((v, rest)) => match parsed {
                Some((x, j)) => x == v && j <= l@.len() && l@.skip(j as int) == rest,
                None => false,
            },
            None => parsed.is_none(),
        },
{
    let n = l.len();
    let ghost whole = l@.skip(i as int);
    let mut j = i;
    let negative = j < n && l[j] == '-';
    if j < n && (l[j] == '-' || l[j] == '+') {
        j = j + 1;
        assert(whole.drop_first() =~= l@.skip(j as int));
    }
    let ghost unsigned = l@.skip(j as int);
    if j >= n || !is_digit_char(l[j]) {
        return None;
    }
    if l[j] == '0' && j + 1 < n && (is_digit_char(l[j + 1]) || l[j + 1] == '_') {
        return None;
    }
    let mut magnitude: u128 = ((l[j] as u32) - ('0' as u32)) as u128;
    let mut big = false;
    let ghost mut acc: int = digit_value(l@[j as int]);
    j = j + 1;
    assert(unsigned.drop_first() =~= l@.skip(j as int));
    while j < n
        invariant
            n == l@.len(),
            j <= n,
            acc >= 0,
            !big ==> magnitude == acc && acc <= too_big(),
            big ==> acc > too_big(),
            digits_tail(unsigned.drop_first(), digit_value(unsigned[0])) == digits_tail(
                l@.skip(j as int),
                acc,
            ),
        ensures
            j <= n,
            acc >= 0,
            !big ==> magnitude == acc && acc <= too_big(),
            big ==> acc > too_big(),
            digits_tail(unsigned.drop_first(), digit_value(unsigned[0])) == digits_tail(
                l@.skip(j as int),
                acc,
            ),
            digits_tail(l@.skip(j as int), acc) == (acc, l@.skip(j as int)),
        decreases n - j,
    {
        let ghost here = l@.skip(j as int);
        let c = l[j];
        let d: u32;
        if is_digit_char(c) {
            d = (c as u32) - ('0' as u32);
            assert(here.drop_first() =~= l@.skip(j + 1));
            j = j + 1;
        } else if c == '_' && j + 1 < n && is_digit_char(l[j + 1]) {
            d = (l[j + 1] as u32) - ('0' as u32);
            assert(here.skip(2) =~= l@.skip(j + 2));
            j = j + 2;
        } else {
            break;
        }
        proof {
            acc = acc * 10 + d;
        }
        if !big {
            let next = magnitude * 10 + d as u128;
            if next > 0x1_0000_0000_0000_0000u128 {
                big = true;
            } else {
                magnitude = next;
            }
        }
    }
    let ghost rest = l@.skip(j as int);
    proof {
        lemma_digits_tail_grows(rest, acc);
    }
    if big || magnitude > 0x8000_0000_0000_0000u128 {
        return None;
    }
    if negative {
        Some(((0i128 - magnitude as i128) as i64, j))
    } else {
        if magnitude > 0x7fff_ffff_ffff_ffffu128 {
            return None;
        }
        Some((magnitude as i64, j))
    }
}

/// An executable value.
pub enum Scalar {
    Str(Vec<char>),
    Int(i64),
    Bool(bool),
    Other,
}

pub open spec fn scalar_view(v: Scalar) -> TomlValue {
    match v {
        Scalar::Str(s) => TomlValue::Str(s@),
        Scalar::Int(x) => TomlValue::Int(x as int),
        Scalar::Bool(b) => TomlValue::Bool(b),
        Scalar::Other => TomlValue::Other,
    }
}

fn word_at(l: &Vec<char>, i: usize, word: &Vec<char>) -> (is: bool)
    requires
        i <= l@.len(),
    ensures
        is == (l@.len() - i >= word@.len() && l@.skip(i as int).take(word@.len() as int)
            == word@),
{
    let n = l.len();
    let w = word.len();
    if n - i < w {
        return false;
    }
    let mut k: usize = 0;
    while k < w
        invariant
            k <= w,
            w == word@.len(),
            i + w <= n,
            n == l@.len(),
            forall|q: int| 0 <= q < k ==> l@[i + q] == word@[q],
        decreases w - k,
    {
        if l[i + k] != word[k] {
            assert(l@.skip(i as int).take(w as int)[k as int] != word@[k as int]);
            return false;
        }
        k = k + 1;
    }
    assert(l@.skip(i as int).take(w as int) =~= word@);
    true
}

fn parse_value_at(l: &Vec<char>, i: usize) -> (parsed: Option<(Scalar, usize)>)
    requires
        i <= l@.len(),
    ensures
        match parse_value(l@.skip(i as int)) {
            Some((v, rest)) => match parsed {
                Some((x, j)) => scalar_view(x) == v && j <= l@.len() && l@.skip(j as int) == rest,
                None => false,
            },
            None => parsed.is_none(),
        },
{
    let ghost here = l@.skip(i as int);
    if i >= l.len() {
        return None;
    }
    if l[i] == '"' {
        assert(here.drop_first() =~= l@.skip(i + 1));
        return match parse_string_at(l, i + 1) {
            Some((s, j)) => Some((Scalar::Str(s), j)),
            None => None,
        };
    }
    let t = vec!['t', 'r', 'u', 'e'];
    assert(t@ =~= true_word());
    if word_at(l, i, &t) {
        assert(here.skip(4) =~= l@.skip(i + 4));
        return Some((Scalar::Bool(true), i + 4));
    }
    let f = vec!['f', 'a', 'l', 's', 'e'];
    assert(f@ =~= false_word());
    if word_at(l, i, &f) {
        assert(here.skip(5) =~= l@.skip(i + 5));
        return Some((Scalar::Bool(false), i + 5));
    }
    match parse_int_at(l, i) {
        Some((v, j)) => Some((Scalar::Int(v), j)),
        None => None,
    }
}

/// What one line says, in executable form.
pub enum Line {
    Blank,
    Pair(Vec<char>, Scalar),
    Bad,
}

pub open spec fn line_view(line: Line) -> TomlLine {
    match line {
        Line::Blank => TomlLine::Blank,
        Line::Pair(k, v) => TomlLine::Pair(k@, scalar_view(v)),
        Line::Bad => TomlLine::Bad,
    }
}

/// Reads one line - see `parse_line`.
pub fn read_line(l: &Vec<char>) -> (line: Line)
    ensures
        line_view(line) == parse_line(l@),
{
    let n = l.len();
    assert(l@.skip(0) =~= l@);
    let a = skip_ws_at(l, 0);
    if a == n || l[a] == '#' {
        return Line::Blank;
    }
    let mut b = a;
    while b < n && is_key_character(l[b])
        invariant
            a <= b <= n,
            n == l@.len(),
            take_key(l@.skip(a as int)) == ({
                let (key, rest) = take_key(l@.skip(b as int));
                (l@.subrange(a as int, b as int) + key, rest)
            }),
        decreases n - b,
    {
        proof {
            let here = l@.skip(b as int);
            assert(here.drop_first() =~= l@.skip(b + 1));
            let (key, rest) = take_key(l@.skip(b + 1));
            assert(l@.subrange(a as int, b as int) + (seq![l@[b as int]] + key) =~= l@.subrange(
                a as int,
                b + 1,
            ) + key);
        }
        b = b + 1;
    }
    proof {
        assert(take_key(l@.skip(b as int)) == (Seq::<char>::empty(), l@.skip(b as int)));
        assert(l@.subrange(a as int, b as int) + Seq::<char>::empty() =~= l@.subrange(
            a as int,
            b as int,
        ));
    }
    let key = copy_range(l, a, b);
    let c = skip_ws_at(l, b);
    if b == a || c == n || l[c] != '=' {
        return Line::Bad;
    }
    assert(l@.skip(c as int).drop_first() =~= l@.skip(c + 1));
    let d = skip_ws_at(l, c + 1);
    match parse_value_at(l, d) {
        Some((value, e)) => {
            let f = skip_ws_at(l, e);
            if f == n || l[f] == '#' {
                Line::Pair(key, value)
            } else {
                Line::Bad
            }
        },
        None => Line::Bad,
    }
}


// ---------------------------------------------------------------------
// Values and keys of any kind, in executable form
// ---------------------------------------------------------------------

fn ws_end_at(l: &Vec<char>, i: usize) -> (j: usize)
    requires
        i <= l@.len(),
    ensures
        j == ws_end(l@, i as int),
        i <= j <= l@.len(),
{
    let mut j = i;
    while j < l.len() && is_ws_char(l[j])
        invariant
            i <= j <= l@.len(),
            ws_end(l@, i as int) == ws_end(l@, j as int),
        decreases l@.len() - j,
    {
        j = j + 1;
    }
    j
}

pub fn rest_blank_at(l: &Vec<char>, i: usize) -> (blank: bool)
    requires
        i <= l@.len(),
    ensures
        blank == rest_blank(l@, i as int),
{
    let j = ws_end_at(l, i);
    j >= l.len() || l[j] == '#'
}

fn starts3_at(l: &Vec<char>, i: usize, q: char) -> (yes: bool)
    requires
        i <= l@.len(),
    ensures
        yes == starts3(l@, i as int, q),
{
    l.len() - i >= 3 && l[i] == q && l[i + 1] == q && l[i + 2] == q
}

/// `scan_at`, from `i`.
pub fn scan_line(l: &Vec<char>, from: usize, start: Scan) -> (scanned: Scanned)
    requires
        from <= l@.len(),
    ensures
        scanned == scan_at(l@, from as int, start),
{
    let n = l.len();
    let mut i = from;
    let mut st = start;
    while i < n
        invariant
            i <= n,
            n == l@.len(),
            scan_at(l@, from as int, start) == scan_at(l@, i as int, st),
        decreases n - i,
    {
        let c = l[i];
        match st {
            Scan::Array(d) => {
                if c == '#' {
                    st = Scan::Comment(d);
                    i = i + 1;
                } else if starts3_at(l, i, '"') {
                    st = Scan::Basic3(d);
                    i = i + 3;
                } else if starts3_at(l, i, '\'') {
                    st = Scan::Literal3(d);
                    i = i + 3;
                } else if c == '"' {
                    st = Scan::Basic(d);
                    i = i + 1;
                } else if c == '\'' {
                    st = Scan::Literal(d);
                    i = i + 1;
                } else if c == '[' || c == '{' {
                    if d == usize::MAX {
                        return Scanned::Broken;
                    }
                    st = Scan::Array(d + 1);
                    i = i + 1;
                } else if c == ']' || c == '}' {
                    if d <= 1 {
                        return Scanned::Ended(i + 1);
                    }
                    st = Scan::Array(d - 1);
                    i = i + 1;
                } else {
                    i = i + 1;
                }
            },
            Scan::Comment(d) => {
                i = i + 1;
            },
            Scan::Basic(d) => {
                if c == '"' {
                    st = Scan::Array(d);
                } else if c == '\\' {
                    st = Scan::BasicEscape(d);
                }
                i = i + 1;
            },
            Scan::BasicEscape(d) => {
                st = Scan::Basic(d);
                i = i + 1;
            },
            Scan::Literal(d) => {
                if c == '\'' {
                    st = Scan::Array(d);
                }
                i = i + 1;
            },
            Scan::Basic3(d) => {
                if starts3_at(l, i, '"') {
                    if d == 0 {
                        return Scanned::Ended(i + 3);
                    }
                    st = Scan::Array(d);
                    i = i + 3;
                } else {
                    if c == '\\' {
                        st = Scan::Basic3Escape(d);
                    }
                    i = i + 1;
                }
            },
            Scan::Basic3Escape(d) => {
                st = Scan::Basic3(d);
                i = i + 1;
            },
            Scan::Literal3(d) => {
                if starts3_at(l, i, '\'') {
                    if d == 0 {
                        return Scanned::Ended(i + 3);
                    }
                    st = Scan::Array(d);
                    i = i + 3;
                } else {
                    i = i + 1;
                }
            },
        }
    }
    match st {
        Scan::Array(d) => Scanned::Open(Scan::Array(d)),
        Scan::Comment(d) => Scanned::Open(Scan::Array(d)),
        Scan::Basic3(d) => Scanned::Open(Scan::Basic3(d)),
        Scan::Basic3Escape(d) => Scanned::Open(Scan::Basic3(d)),
        Scan::Literal3(d) => Scanned::Open(Scan::Literal3(d)),
        _ => Scanned::Broken,
    }
}

/// `find_outside`, from `i` outside any string.
fn find_outside_at(l: &Vec<char>, from: usize, target: char) -> (found: Option<usize>)
    requires
        from <= l@.len(),
    ensures
        match find_outside(l@, from as int, 0, target) {
            Some(k) => found matches Some(f) && f == k && from <= f < l@.len(),
            None => found is None,
        },
{
    let n = l.len();
    let mut i = from;
    let mut q: u8 = 0;
    while i < n
        invariant
            from <= i <= n,
            n == l@.len(),
            q <= 3,
            find_outside(l@, from as int, 0, target) == find_outside(l@, i as int, q as nat, target),
        decreases n - i,
    {
        let c = l[i];
        if q == 1 {
            if c == '"' {
                q = 0;
            } else if c == '\\' {
                q = 2;
            }
        } else if q == 2 {
            q = 1;
        } else if q == 3 {
            if c == '\'' {
                q = 0;
            }
        } else if c == target {
            return Some(i);
        } else if c == '"' {
            q = 1;
        } else if c == '\'' {
            q = 3;
        }
        i = i + 1;
    }
    None
}

/// Where `l[from..to]` ends once its trailing whitespace is dropped.
fn trim_end_at(l: &Vec<char>, from: usize, to: usize) -> (end: usize)
    requires
        from <= to <= l@.len(),
    ensures
        from <= end <= to,
        l@.subrange(from as int, end as int) == trim_end(l@.subrange(from as int, to as int)),
{
    let mut e = to;
    while e > from && is_ws_char(l[e - 1])
        invariant
            from <= e <= to,
            to <= l@.len(),
            trim_end(l@.subrange(from as int, to as int)) == trim_end(
                l@.subrange(from as int, e as int),
            ),
        decreases e,
    {
        assert(l@.subrange(from as int, e as int).drop_last() =~= l@.subrange(
            from as int,
            e - 1,
        ));
        e = e - 1;
    }
    e
}

/// `single_key`, of the characters `k`.
fn single_key_of(k: &Vec<char>) -> (key: Option<Vec<char>>)
    ensures
        match single_key(k@) {
            Some(name) => key matches Some(v) && v@ == name,
            None => key is None,
        },
{
    let n = k.len();
    let mut bare = n > 0;
    let mut i: usize = 0;
    while i < n
        invariant
            i <= n,
            n == k@.len(),
            bare == (n > 0 && forall|j: int| 0 <= j < i ==> is_key_char(#[trigger] k@[j])),
        decreases n - i,
    {
        if !is_key_character(k[i]) {
            bare = false;
        }
        i = i + 1;
    }
    if bare {
        return Some(copy_range(k, 0, n));
    }
    if n > 0 && k[0] == '"' {
        assert(k@.skip(1) =~= k@.drop_first());
        return match parse_string_at(k, 1) {
            Some((name, j)) => {
                if j == n {
                    Some(name)
                } else {
                    None
                }
            },
            None => None,
        };
    }
    if n >= 2 && k[0] == '\'' && k[n - 1] == '\'' {
        let mut j: usize = 1;
        while j < n - 1
            invariant
                1 <= j <= n - 1,
                n == k@.len(),
                k@[0] == '\'',
                k@[n - 1] == '\'',
                !(n > 0 && forall|q: int| 0 <= q < n ==> is_key_char(#[trigger] k@[q])),
                forall|q: int| 1 <= q < j ==> #[trigger] k@[q] != '\'',
            decreases n - 1 - j,
        {
            if k[j] == '\'' {
                assert(k@[j as int] == '\'');
                return None;
            }
            j = j + 1;
        }
        return Some(copy_range(k, 1, n - 1));
    }
    None
}

fn literal_close_at(l: &Vec<char>, i: usize) -> (closed: Option<usize>)
    requires
        i <= l@.len(),
    ensures
        match literal_close(l@, i as int) {
            Some(e) => closed matches Some(c) && c == e && i < c <= l@.len(),
            None => closed is None,
        },
{
    let mut j = i;
    while j < l.len()
        invariant
            i <= j <= l@.len(),
            literal_close(l@, i as int) == literal_close(l@, j as int),
        decreases l@.len() - j,
    {
        if l[j] == '\'' {
            return Some(j + 1);
        }
        j = j + 1;
    }
    None
}

fn token_end_at(l: &Vec<char>, i: usize) -> (end: usize)
    requires
        i <= l@.len(),
    ensures
        end == token_end(l@, i as int),
        i <= end <= l@.len(),
{
    let mut j = i;
    while j < l.len() && l[j] != '#'
        invariant
            i <= j <= l@.len(),
            token_end(l@, i as int) == token_end(l@, j as int),
        decreases l@.len() - j,
    {
        j = j + 1;
    }
    j
}

fn radix_of(c: char, base: u32) -> (v: Option<u32>)
    ensures
        match radix_digit(c, base as int) {
            Some(x) => v == Some(x as u32),
            None => v is None,
        },
{
    match hex_of(c) {
        Some(x) => if x < base {
            Some(x)
        } else {
            None
        },
        None => None,
    }
}

proof fn lemma_radix_tail_grows(l: Seq<char>, base: int, acc: int)
    requires
        acc >= 0,
        base >= 1,
    ensures
        radix_tail(l, base, acc) matches Some(x) ==> x >= acc,
    decreases l.len(),
{
    if l.len() > 0 {
        if radix_digit(l[0], base) is Some {
            let d = radix_digit(l[0], base)->0;
            assert(acc * base + d >= acc) by (nonlinear_arith)
                requires
                    acc >= 0,
                    base >= 1,
                    d >= 0,
            ;
            lemma_radix_tail_grows(l.drop_first(), base, acc * base + d);
        } else if l.len() > 1 && l[0] == '_' && radix_digit(l[1], base) is Some {
            let d = radix_digit(l[1], base)->0;
            assert(acc * base + d >= acc) by (nonlinear_arith)
                requires
                    acc >= 0,
                    base >= 1,
                    d >= 0,
            ;
            lemma_radix_tail_grows(l.skip(2), base, acc * base + d);
        }
    }
}

/// `parse_prefixed`, in executable form.
fn parse_prefixed_at(t: &Vec<char>) -> (x: Option<i64>)
    ensures
        match parse_prefixed(t@) {
            Some(v) => x matches Some(a) && a == v,
            None => x is None,
        },
{
    let n = t.len();
    if n < 3 || t[0] != '0' {
        return None;
    }
    let base: u32;
    if t[1] == 'x' {
        base = 16;
    } else if t[1] == 'o' {
        base = 8;
    } else if t[1] == 'b' {
        base = 2;
    } else {
        return None;
    }
    let first = match radix_of(t[2], base) {
        Some(d) => d,
        None => return None,
    };
    let mut value: u64 = first as u64;
    let ghost mut acc: int = first as int;
    let mut j: usize = 3;
    while j < n
        invariant
            3 <= j <= n,
            n == t@.len(),
            t@[0] == '0',
            base as int == base_of(t@[1]),
            2 <= base <= 16,
            radix_digit(t@[2], base as int) == Some(first as int),
            0 <= acc <= i64::MAX,
            value == acc,
            radix_tail(t@.skip(3), base as int, first as int) == radix_tail(
                t@.skip(j as int),
                base as int,
                acc,
            ),
        decreases n - j,
    {
        let ghost here = t@.skip(j as int);
        assert(here[0] == t@[j as int]);
        assert(j + 1 < n ==> here[1] == t@[j + 1]);
        let d: u32;
        match radix_of(t[j], base) {
            Some(x) => {
                d = x;
                assert(here.drop_first() =~= t@.skip(j + 1));
                j = j + 1;
            },
            None => {
                if t[j] == '_' && j + 1 < n {
                    match radix_of(t[j + 1], base) {
                        Some(x) => {
                            d = x;
                            assert(here.skip(2) =~= t@.skip(j + 2));
                            j = j + 2;
                        },
                        None => return None,
                    }
                } else {
                    return None;
                }
            },
        }
        let ghost grown: int = acc * base + d;
        if value > (0x7fff_ffff_ffff_ffffu64 - d as u64) / (base as u64) {
            proof {
                let q: int = (0x7fff_ffff_ffff_ffff - d) / (base as int);
                assert(grown > i64::MAX) by (nonlinear_arith)
                    requires
                        acc > q,
                        grown == acc * base + d,
                        q == (0x7fff_ffff_ffff_ffff - d) / (base as int),
                        2 <= base <= 16,
                        0 <= d < 16,
                ;
                lemma_radix_tail_grows(t@.skip(j as int), base as int, grown);
            }
            return None;
        }
        proof {
            let q: int = (0x7fff_ffff_ffff_ffff - d) / (base as int);
            assert(grown <= i64::MAX) by (nonlinear_arith)
                requires
                    acc <= q,
                    acc >= 0,
                    grown == acc * base + d,
                    q == (0x7fff_ffff_ffff_ffff - d) / (base as int),
                    2 <= base <= 16,
                    0 <= d < 16,
            ;
            acc = grown;
        }
        value = value * (base as u64) + d as u64;
    }
    assert(t@.skip(j as int).len() == 0);
    Some(value as i64)
}

/// `ValueRead`, in executable form.
pub enum ValueAt {
    Ended(Scalar, usize),
    Opened(Scan),
    Bad,
}

pub open spec fn value_at_view(v: ValueAt) -> ValueRead {
    match v {
        ValueAt::Ended(x, e) => ValueRead::Ended(scalar_view(x), e as int),
        ValueAt::Opened(s) => ValueRead::Opened(s),
        ValueAt::Bad => ValueRead::Bad,
    }
}

fn read_value_at(l: &Vec<char>, v: usize) -> (read: ValueAt)
    requires
        v <= l@.len(),
    ensures
        value_at_view(read) == read_value(l@, v as int),
        read matches ValueAt::Ended(_, e) ==> e <= l@.len(),
{
    let n = l.len();
    if v >= n {
        return ValueAt::Bad;
    }
    if starts3_at(l, v, '"') || starts3_at(l, v, '\'') || l[v] == '[' || l[v] == '{' {
        let scanned = if starts3_at(l, v, '"') {
            scan_line(l, v + 3, Scan::Basic3(0))
        } else if starts3_at(l, v, '\'') {
            scan_line(l, v + 3, Scan::Literal3(0))
        } else {
            scan_line(l, v + 1, Scan::Array(1))
        };
        return match scanned {
            Scanned::Ended(e) => {
                proof {
                    lemma_scan_ends_within(l@, (if starts3(l@, v as int, '"') || starts3(l@, v as int, '\'') { v + 3 } else { v + 1 }) as int, if starts3(l@, v as int, '"') { Scan::Basic3(0) } else if starts3(l@, v as int, '\'') { Scan::Literal3(0) } else { Scan::Array(1) });
                }
                ValueAt::Ended(Scalar::Other, e)
            },
            Scanned::Open(s) => ValueAt::Opened(s),
            Scanned::Broken => ValueAt::Bad,
        };
    }
    if l[v] == '"' {
        return match parse_string_at(l, v + 1) {
            Some((s, j)) => ValueAt::Ended(Scalar::Str(s), j),
            None => ValueAt::Bad,
        };
    }
    if l[v] == '\'' {
        return match literal_close_at(l, v + 1) {
            Some(e) => ValueAt::Ended(Scalar::Str(copy_range(l, v + 1, e - 1)), e),
            None => ValueAt::Bad,
        };
    }
    let e = token_end_at(l, v);
    let t = trim_end_at(l, v, e);
    let text = copy_range(l, v, t);
    assert(text@.skip(0) =~= text@);
    let x = match parse_prefixed_at(&text) {
        Some(a) => Scalar::Int(a),
        None => match parse_value_at(&text, 0) {
            Some((x, j)) => {
                if j == text.len() {
                    x
                } else {
                    Scalar::Other
                }
            },
            None => Scalar::Other,
        },
    };
    ValueAt::Ended(x, e)
}

/// A scan that ends, ends within the line.
pub proof fn lemma_scan_ends_within(l: Seq<char>, i: int, st: Scan)
    ensures
        scan_at(l, i, st) matches Scanned::Ended(e) ==> e <= l.len(),
    decreases l.len() - i,
{
    if 0 <= i < l.len() {
        match st {
            Scan::Array(d) => {
                lemma_scan_ends_within(l, i + 1, Scan::Comment(d));
                if i + 3 <= l.len() {
                    lemma_scan_ends_within(l, i + 3, Scan::Basic3(d));
                    lemma_scan_ends_within(l, i + 3, Scan::Literal3(d));
                }
                lemma_scan_ends_within(l, i + 1, Scan::Basic(d));
                lemma_scan_ends_within(l, i + 1, Scan::Literal(d));
                if d < usize::MAX {
                    lemma_scan_ends_within(l, i + 1, Scan::Array((d + 1) as usize));
                }
                if d > 1 {
                    lemma_scan_ends_within(l, i + 1, Scan::Array((d - 1) as usize));
                }
                lemma_scan_ends_within(l, i + 1, Scan::Array(d));
            },
            Scan::Comment(d) => lemma_scan_ends_within(l, i + 1, Scan::Comment(d)),
            Scan::Basic(d) => {
                lemma_scan_ends_within(l, i + 1, Scan::Array(d));
                lemma_scan_ends_within(l, i + 1, Scan::BasicEscape(d));
                lemma_scan_ends_within(l, i + 1, Scan::Basic(d));
            },
            Scan::BasicEscape(d) => lemma_scan_ends_within(l, i + 1, Scan::Basic(d)),
            Scan::Literal(d) => {
                lemma_scan_ends_within(l, i + 1, Scan::Array(d));
                lemma_scan_ends_within(l, i + 1, Scan::Literal(d));
            },
            Scan::Basic3(d) => {
                if i + 3 <= l.len() {
                    lemma_scan_ends_within(l, i + 3, Scan::Array(d));
                }
                lemma_scan_ends_within(l, i + 1, Scan::Basic3Escape(d));
                lemma_scan_ends_within(l, i + 1, Scan::Basic3(d));
            },
            Scan::Basic3Escape(d) => lemma_scan_ends_within(l, i + 1, Scan::Basic3(d)),
            Scan::Literal3(d) => {
                if i + 3 <= l.len() {
                    lemma_scan_ends_within(l, i + 3, Scan::Array(d));
                }
                lemma_scan_ends_within(l, i + 1, Scan::Literal3(d));
            },
        }
    }
}

/// `GeneralLine`, in executable form.
pub enum LineAt {
    Blank,
    Header,
    Entry(Option<Vec<char>>, Scalar),
    Opened(Option<Vec<char>>, Scan),
    Bad,
}

pub open spec fn key_view(k: Option<Vec<char>>) -> Option<Seq<char>> {
    match k {
        Some(v) => Some(v@),
        None => None,
    }
}

pub open spec fn line_at_view(line: LineAt) -> GeneralLine {
    match line {
        LineAt::Blank => GeneralLine::Blank,
        LineAt::Header => GeneralLine::Header,
        LineAt::Entry(k, x) => GeneralLine::Entry(key_view(k), scalar_view(x)),
        LineAt::Opened(k, s) => GeneralLine::Opened(key_view(k), s),
        LineAt::Bad => GeneralLine::Bad,
    }
}

/// Reads one line as TOML in general - see `general_line`.
pub fn read_general_line(l: &Vec<char>) -> (line: LineAt)
    ensures
        line_at_view(line) == general_line(l@),
{
    let n = l.len();
    let a = ws_end_at(l, 0);
    if a >= n || l[a] == '#' {
        return LineAt::Blank;
    }
    if l[a] == '[' {
        return match find_outside_at(l, a + 1, ']') {
            Some(e) => {
                let f = if e + 1 < n && l[e + 1] == ']' {
                    e + 2
                } else {
                    e + 1
                };
                if rest_blank_at(l, f) {
                    LineAt::Header
                } else {
                    LineAt::Bad
                }
            },
            None => LineAt::Bad,
        };
    }
    match find_outside_at(l, a, '=') {
        Some(e) => {
            let t = trim_end_at(l, a, e);
            let written = copy_range(l, a, t);
            let key = single_key_of(&written);
            let v = ws_end_at(l, e + 1);
            match read_value_at(l, v) {
                ValueAt::Ended(x, end) => {
                    if rest_blank_at(l, end) {
                        LineAt::Entry(key, x)
                    } else {
                        LineAt::Bad
                    }
                },
                ValueAt::Opened(s) => LineAt::Opened(key, s),
                ValueAt::Bad => LineAt::Bad,
            }
        },
        None => LineAt::Bad,
    }
}

// ---------------------------------------------------------------------
// Writing
// ---------------------------------------------------------------------

/// How one character of a string is written inside quotes.
pub open spec fn escape_char(c: char) -> Seq<char> {
    if c == '"' {
        seq!['\\', '"']
    } else if c == '\\' {
        seq!['\\', '\\']
    } else if c == '\n' {
        seq!['\\', 'n']
    } else if c == '\r' {
        seq!['\\', 'r']
    } else if c == '\x08' {
        seq!['\\', 'b']
    } else if c == '\x0c' {
        seq!['\\', 'f']
    } else if is_control(c) && c != '\t' {
        seq!['\\', 'u', '0', '0', hex_digit((c as int) / 16), hex_digit((c as int) % 16)]
    } else {
        seq![c]
    }
}

/// A string as it is written between quotes.
pub open spec fn escape(s: Seq<char>) -> Seq<char>
    decreases s.len(),
{
    if s.len() == 0 {
        Seq::empty()
    } else {
        escape(s.drop_last()) + escape_char(s.last())
    }
}

/// The decimal digits of `n`, most significant first.
pub open spec fn decimal(n: nat) -> Seq<char>
    decreases n,
{
    if n < 10 {
        seq![(n + '0' as int) as char]
    } else {
        decimal(n / 10).push(((n % 10) + '0' as int) as char)
    }
}

/// Wraps `String::push`, which appends one character.
#[verifier::external_body]
pub(crate) fn push_char(s: &mut String, c: char)
    ensures
        final(s)@ == old(s)@.push(c),
{
    s.push(c);
}

fn hex_char(v: u32) -> (c: char)
    requires
        v < 16,
    ensures
        c == hex_digit(v as int),
{
    if v < 10 {
        ((v + 0x30) as u8) as char
    } else {
        ((v - 10 + 0x61) as u8) as char
    }
}

/// Appends `s` as it is written between quotes.
pub fn push_escaped(out: &mut String, s: &String)
    ensures
        final(out)@ == old(out)@ + escape(s@),
{
    let chars = chars_of(s.as_str());
    let n = chars.len();
    let mut i: usize = 0;
    while i < n
        invariant
            i <= n,
            n == chars@.len(),
            chars@ == s@,
            out@ == old(out)@ + escape(s@.take(i as int)),
        decreases n - i,
    {
        let c = chars[i];
        let ghost before = out@;
        if c == '"' {
            push_char(out, '\\');
            push_char(out, '"');
        } else if c == '\\' {
            push_char(out, '\\');
            push_char(out, '\\');
        } else if c == '\n' {
            push_char(out, '\\');
            push_char(out, 'n');
        } else if c == '\r' {
            push_char(out, '\\');
            push_char(out, 'r');
        } else if c == '\x08' {
            push_char(out, '\\');
            push_char(out, 'b');
        } else if c == '\x0c' {
            push_char(out, '\\');
            push_char(out, 'f');
        } else if (char_code(c) < 0x20 || char_code(c) == 0x7f) && c != '\t' {
            push_char(out, '\\');
            push_char(out, 'u');
            push_char(out, '0');
            push_char(out, '0');
            push_char(out, hex_char(char_code(c) / 16));
            push_char(out, hex_char(char_code(c) % 16));
        } else {
            push_char(out, c);
        }
        proof {
            assert(s@.take(i as int + 1).drop_last() =~= s@.take(i as int));
            assert(out@ =~= before + escape_char(c));
            assert(old(out)@ + escape(s@.take(i as int)) + escape_char(c) =~= old(out)@ + escape(
                s@.take(i as int + 1),
            ));
        }
        i = i + 1;
    }
    assert(s@.take(n as int) =~= s@);
}

/// Appends the decimal digits of `n`.
pub fn push_decimal(out: &mut String, n: u32)
    ensures
        final(out)@ == old(out)@ + decimal(n as nat),
    decreases n,
{
    if n >= 10 {
        push_decimal(out, n / 10);
    }
    push_char(out, (((n % 10) + 0x30) as u8) as char);
    proof {
        if n >= 10 {
            assert(old(out)@ + decimal((n / 10) as nat) + seq![(((n % 10) + 0x30) as u8) as char]
                =~= old(out)@ + decimal(n as nat));
        } else {
            assert(old(out)@.push((((n % 10) + 0x30) as u8) as char) =~= old(out)@ + decimal(
                n as nat,
            ));
        }
    }
}

/// The characters of `text`.
pub fn chars_of(text: &str) -> (chars: Vec<char>)
    ensures
        chars@ == text@,
{
    let mut chars: Vec<char> = Vec::new();
    for c in it: text.chars()
        invariant
            chars@ == it.seq().take(it.index() as int),
    {
        chars.push(c);
    }
    assert(chars@ =~= text@);
    chars
}

/// A `String` holding these characters.
pub fn string_of(chars: &Vec<char>) -> (s: String)
    ensures
        s@ == chars@,
{
    let mut s = String::new();
    let mut i: usize = 0;
    while i < chars.len()
        invariant
            i <= chars@.len(),
            s@ == chars@.take(i as int),
        decreases chars@.len() - i,
    {
        push_char(&mut s, chars[i]);
        assert(s@ =~= chars@.take(i as int + 1));
        i = i + 1;
    }
    assert(chars@.take(chars@.len() as int) =~= chars@);
    s
}


// ---------------------------------------------------------------------
// What is written reads back
// ---------------------------------------------------------------------

/// The value of a run of decimal digits.
pub open spec fn digits_value(d: Seq<char>) -> int
    decreases d.len(),
{
    if d.len() == 0 {
        0
    } else {
        digits_value(d.drop_last()) * 10 + digit_value(d.last())
    }
}

pub open spec fn all_digits(d: Seq<char>) -> bool {
    forall|i: int| 0 <= i < d.len() ==> is_digit(#[trigger] d[i])
}

/// A line followed by a newline is one line of the text.
pub proof fn lemma_text_lines_cons(a: Seq<char>, rest: Seq<char>)
    requires
        forall|i: int| 0 <= i < a.len() ==> a[i] != '\n',
        a.len() > 0 ==> a.last() != '\r',
    ensures
        text_lines(a + seq!['\n'] + rest) == seq![a] + text_lines(rest),
{
    let t = a + seq!['\n'] + rest;
    assert forall|j: int| 0 <= j < a.len() implies t[j] != '\n' by {
        assert(t[j] == a[j]);
    }
    lemma_take_line_at(t, a.len() as int);
    assert(t.take(a.len() as int) =~= a);
    assert(t.skip(a.len() as int + 1) =~= rest);
}

proof fn lemma_escape_cons(c: char, s: Seq<char>)
    ensures
        escape(seq![c] + s) == escape_char(c) + escape(s),
    decreases s.len(),
{
    if s.len() == 0 {
        assert(seq![c] + s =~= seq![c]);
        assert(seq![c].drop_last() =~= Seq::<char>::empty());
        assert(seq![c].last() == c);
        assert(escape(Seq::<char>::empty()) == Seq::<char>::empty());
        assert(escape(seq![c]) == escape(Seq::<char>::empty()) + escape_char(c));
        assert(Seq::<char>::empty() + escape_char(c) =~= escape_char(c));
        assert(escape_char(c) + Seq::<char>::empty() =~= escape_char(c));
    } else {
        lemma_escape_cons(c, s.drop_last());
        assert((seq![c] + s).drop_last() =~= seq![c] + s.drop_last());
        assert(escape_char(c) + escape(s.drop_last()) + escape_char(s.last()) =~= escape_char(c)
            + escape(s));
    }
}

proof fn lemma_hex_digit(v: int)
    requires
        0 <= v < 16,
    ensures
        hex_value(hex_digit(v)) == Some(v),
        hex_digit(v) != '\n',
        hex_digit(v) != '\r',
        hex_digit(v) != '"',
{
}

proof fn lemma_char_code(c: char)
    ensures
        0 <= c as int <= 0x10FFFF,
{
}

/// One escaped character, then the rest of the string.
proof fn lemma_parse_escaped_step(c: char, after: Seq<char>)
    ensures
        parse_string(escape_char(c) + after) == match parse_string(after) {
            Some((s, r)) => Some((seq![c] + s, r)),
            None => None,
        },
{
    let l = escape_char(c) + after;
    if c == '"' || c == '\\' || c == '\n' || c == '\r' || c == '\x08' || c == '\x0c' {
        assert(l.skip(2) =~= after);
    } else if is_control(c) && c != '\t' {
        let code = c as int;
        lemma_char_code(c);
        assert(0 <= code / 16 < 16 && 0 <= code % 16 < 16) by (nonlinear_arith)
            requires
                0 <= code < 0x80,
        ;
        lemma_hex_digit(code / 16);
        lemma_hex_digit(code % 16);
        assert(l.skip(2)[0] == '0');
        assert(l.skip(2)[1] == '0');
        assert(l.skip(2)[2] == hex_digit(code / 16));
        assert(l.skip(2)[3] == hex_digit(code % 16));
        assert(((0 * 16 + 0) * 16 + code / 16) * 16 + code % 16 == code);
        assert(unicode_escape(l.skip(2)) == Some(c));
        assert(l.skip(6) =~= after);
    } else {
        assert(l.drop_first() =~= after);
    }
}

/// What `escape` writes, `parse_string` reads back, up to the closing
/// quote.
pub proof fn lemma_parse_escaped(s: Seq<char>, rest: Seq<char>)
    ensures
        parse_string(escape(s) + seq!['"'] + rest) == Some((s, rest)),
    decreases s.len(),
{
    if s.len() == 0 {
        assert(escape(s) + seq!['"'] + rest =~= seq!['"'] + rest);
        assert((seq!['"'] + rest).drop_first() =~= rest);
    } else {
        let c = s[0];
        let tail = s.drop_first();
        assert(seq![c] + tail =~= s);
        lemma_escape_cons(c, tail);
        lemma_parse_escaped(tail, rest);
        let after = escape(tail) + seq!['"'] + rest;
        assert(escape(s) + seq!['"'] + rest =~= escape_char(c) + after);
        lemma_parse_escaped_step(c, after);
    }
}

/// `escape` writes no line break of its own.
pub proof fn lemma_escape_one_line(s: Seq<char>)
    ensures
        forall|i: int|
            0 <= i < escape(s).len() ==> #[trigger] escape(s)[i] != '\n' && escape(s)[i] != '\r'
                && escape(s)[i] != '"' || (i > 0 && escape(s)[i - 1] == '\\' && escape(s)[i] == '"'),
    decreases s.len(),
{
    if s.len() > 0 {
        lemma_escape_one_line(s.drop_last());
        let c = s.last();
        if is_control(c) && c != '\t' {
            let code = c as int;
            lemma_char_code(c);
            assert(0 <= code / 16 < 16 && 0 <= code % 16 < 16) by (nonlinear_arith)
                requires
                    0 <= code < 0x80,
            ;
            lemma_hex_digit((c as int) / 16);
            lemma_hex_digit((c as int) % 16);
        }
        let e = escape(s);
        let a = escape(s.drop_last());
        let b = escape_char(c);
        assert(e =~= a + b);
        assert forall|i: int| 0 <= i < e.len() implies #[trigger] e[i] != '\n' && e[i] != '\r'
            && e[i] != '"' || (i > 0 && e[i - 1] == '\\' && e[i] == '"') by {
            if i < a.len() {
                assert(e[i] == a[i]);
                if i > 0 {
                    assert(e[i - 1] == a[i - 1]);
                }
            } else {
                assert(e[i] == b[i - a.len()]);
                if c == '"' && i == a.len() + 1 {
                    assert(e[i - 1] == b[0]);
                }
            }
        }
    }
}

proof fn lemma_digits_tail_all(p: Seq<char>, d: Seq<char>)
    requires
        all_digits(d),
    ensures
        digits_tail(d, digits_value(p)) == (digits_value(p + d), Seq::<char>::empty()),
    decreases d.len(),
{
    if d.len() == 0 {
        assert(p + d =~= p);
    } else {
        let q = p.push(d[0]);
        assert(q.drop_last() =~= p);
        assert(all_digits(d.drop_first())) by {
            assert forall|i: int| 0 <= i < d.drop_first().len() implies is_digit(
                #[trigger] d.drop_first()[i],
            ) by {
                assert(d.drop_first()[i] == d[i + 1]);
            }
        }
        assert(is_digit(d[0]));
        lemma_digits_tail_all(q, d.drop_first());
        assert(q + d.drop_first() =~= p + d);
    }
}

proof fn lemma_decimal(n: nat)
    ensures
        all_digits(decimal(n)),
        digits_value(decimal(n)) == n,
        decimal(n).len() >= 1,
        decimal(n)[0] == '0' ==> n == 0 && decimal(n).len() == 1,
    decreases n,
{
    if n >= 10 {
        lemma_decimal(n / 10);
        let d = decimal(n / 10);
        let e = decimal(n);
        let last = ((n % 10) + '0' as int) as char;
        assert(last as int == (n % 10) + '0' as int);
        assert(e =~= d.push(last));
        assert(e.drop_last() =~= d);
        assert(e.last() == last);
        assert(digit_value(last) == n % 10);
        assert(digits_value(e) == digits_value(d) * 10 + digit_value(last));
        assert((n / 10) * 10 + n % 10 == n);
        assert forall|i: int| 0 <= i < e.len() implies is_digit(#[trigger] e[i]) by {
            if i < d.len() {
                assert(e[i] == d[i]);
            }
        }
        assert(e[0] == d[0]);
    } else {
        let e = decimal(n);
        let only = (n + '0' as int) as char;
        assert(only as int == n + '0' as int);
        assert(e =~= seq![only]);
        assert(e.drop_last() =~= Seq::<char>::empty());
        assert(e.last() == only);
        assert(digits_value(Seq::<char>::empty()) == 0);
    }
}

/// What `decimal` writes, `parse_int` reads back.
pub proof fn lemma_parse_decimal(n: nat)
    requires
        n <= i64::MAX,
    ensures
        parse_int(decimal(n)) == Some((n as int, Seq::<char>::empty())),
        decimal(n).len() > 0 && is_digit(decimal(n)[0]),
        forall|i: int| 0 <= i < decimal(n).len() ==> is_digit(#[trigger] decimal(n)[i]),
{
    lemma_decimal(n);
    let l = decimal(n);
    assert(is_digit(l[0]));
    let first = seq![l[0]];
    assert(first.drop_last() =~= Seq::<char>::empty());
    assert(first.last() == l[0]);
    assert(digits_value(Seq::<char>::empty()) == 0);
    assert(digits_value(first) == digit_value(l[0]));
    assert(all_digits(l.drop_first())) by {
        assert forall|i: int| 0 <= i < l.drop_first().len() implies is_digit(
            #[trigger] l.drop_first()[i],
        ) by {
            assert(l.drop_first()[i] == l[i + 1]);
        }
    }
    lemma_digits_tail_all(first, l.drop_first());
    assert(first + l.drop_first() =~= l);
    if l[0] == '0' {
        assert(l.len() == 1);
    }
}

/// Reading a key that stops where a character no key holds begins.
pub proof fn lemma_take_key(k: Seq<char>, r: Seq<char>)
    requires
        forall|i: int| 0 <= i < k.len() ==> is_key_char(#[trigger] k[i]),
        r.len() > 0,
        !is_key_char(r[0]),
    ensures
        take_key(k + r) == (k, r),
    decreases k.len(),
{
    if k.len() == 0 {
        assert(k + r =~= r);
    } else {
        assert forall|i: int| 0 <= i < k.drop_first().len() implies is_key_char(
            #[trigger] k.drop_first()[i],
        ) by {
            assert(k.drop_first()[i] == k[i + 1]);
        }
        lemma_take_key(k.drop_first(), r);
        assert((k + r).drop_first() =~= k.drop_first() + r);
        assert(seq![k[0]] + k.drop_first() =~= k);
        assert(is_key_char(k[0]));
    }
}

/// A line `key = value` with nothing after the value reads as that pair.
pub proof fn lemma_parse_pair(key: Seq<char>, value_text: Seq<char>, v: TomlValue)
    requires
        key.len() > 0,
        forall|i: int| 0 <= i < key.len() ==> is_key_char(#[trigger] key[i]),
        value_text.len() > 0,
        !is_ws(value_text[0]),
        parse_value(value_text) == Some((v, Seq::<char>::empty())),
    ensures
        parse_line(key + seq![' ', '=', ' '] + value_text) == TomlLine::Pair(key, v),
{
    let r = seq![' ', '=', ' '] + value_text;
    let l = key + r;
    assert(l =~= key + seq![' ', '=', ' '] + value_text);
    assert(is_key_char(key[0]));
    assert(l[0] == key[0]);
    assert(skip_ws(l) == l);
    lemma_take_key(key, r);
    assert(r.drop_first() =~= seq!['=', ' '] + value_text);
    let c = seq!['=', ' '] + value_text;
    assert(c[0] == '=');
    assert(skip_ws(c) == c);
    assert(skip_ws(r) == c);
    assert(c.drop_first() =~= seq![' '] + value_text);
    assert((seq![' '] + value_text).drop_first() =~= value_text);
    assert(skip_ws(seq![' '] + value_text) == skip_ws(value_text));
    assert(skip_ws(value_text) == value_text);
    assert(skip_ws(Seq::<char>::empty()) == Seq::<char>::empty());
}

} // verus!
