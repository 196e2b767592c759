// The persisted settings: what they are, their defaults and ranges, and
// how they are read from and written to the settings file.

use vstd::prelude::*;
use vstd::string::StringExecFns;
use crate::toml::{
    all_digits, chars_of, decimal, digits_value, escape, is_digit, is_key_char, is_ws,
    lemma_escape_one_line, lemma_parse_decimal, lemma_parse_escaped, lemma_parse_pair,
    lemma_text_lines_cons, parse_int, parse_line, parse_string, parse_value, push_decimal,
    push_escaped, read_general_line, read_line, scalar_view, scan_line, split_lines, string_of,
    text_lines, true_word, false_word, doc_line, rest_blank, scan_at, DocState, GeneralLine, Line,
    LineAt, Scalar, Scan, Scanned, TomlLine, TomlValue, general_line, key_view, line_at_view,
    top_pair,
};

verus! {

broadcast use vstd::string::group_string_axioms;

/// Loop playback gain when nothing is saved, as a percentage of unity.
pub const DEFAULT_VOLUME_PCT: u32 = 100;
pub const VOLUME_PCT_MIN: u32 = 0;
pub const VOLUME_PCT_MAX: u32 = 200;

/// Wait before recording starts when nothing is saved. Long enough to put
/// a guitar back on and be ready; drag the slider to zero to turn it off.
pub const DEFAULT_PREROLL_MS: u32 = 5000;
pub const PREROLL_MS_MIN: u32 = 0;
pub const PREROLL_MS_MAX: u32 = 5000;

/// How long a hold clears the loop when nothing is saved.
pub const DEFAULT_LONG_PRESS_MS: u32 = 2000;
pub const LONG_PRESS_MS_MIN: u32 = 500;
pub const LONG_PRESS_MS_MAX: u32 = 4000;

/// Callback headroom when nothing is saved.
pub const DEFAULT_LATENCY_MS: u32 = 8;
pub const LATENCY_MS_MIN: u32 = 2;
pub const LATENCY_MS_MAX: u32 = 50;

/// Longest recordable loop when nothing is saved.
pub const DEFAULT_MAX_LOOP_SECS: u32 = 60;
pub const MAX_LOOP_SECS_MIN: u32 = 10;
pub const MAX_LOOP_SECS_MAX: u32 = 120;

/// Layers, the first recording included, when nothing is saved.
pub const DEFAULT_MAX_LAYERS: u32 = 4;
pub const MAX_LAYERS_MIN: u32 = 1;
pub const MAX_LAYERS_MAX: u32 = 8;

/// The persisted device, rate, channel and value settings. Doubles as the
/// bundle of settings the looper is started with.
pub struct AppConfig {
    pub device_name: String,
    pub sample_rate: u32,
    /// 0-indexed input channel to capture, record and loop.
    pub input_channel: u16,
    /// Loop playback gain as a percentage of unity (100 = unchanged).
    /// Applied to the loop only, never the live passthrough.
    pub volume_pct: u32,
    /// How long to wait between pressing record and actually capturing.
    /// 0 = start immediately.
    pub preroll_ms: u32,
    /// Callback headroom.
    pub latency_ms: u32,
    /// Longest recordable loop.
    pub max_loop_secs: u32,
    /// Layers, including the first recording.
    pub max_layers: u32,
    /// How long a hold clears the loop.
    pub long_press_ms: u32,
}

/// The settings as values.
pub struct ConfigModel {
    pub device_name: Seq<char>,
    pub sample_rate: u32,
    pub input_channel: u16,
    pub volume_pct: u32,
    pub preroll_ms: u32,
    pub latency_ms: u32,
    pub max_loop_secs: u32,
    pub max_layers: u32,
    pub long_press_ms: u32,
}

impl View for AppConfig {
    type V = ConfigModel;

    open spec fn view(&self) -> ConfigModel {
        ConfigModel {
            device_name: self.device_name@,
            sample_rate: self.sample_rate,
            input_channel: self.input_channel,
            volume_pct: self.volume_pct,
            preroll_ms: self.preroll_ms,
            latency_ms: self.latency_ms,
            max_loop_secs: self.max_loop_secs,
            max_layers: self.max_layers,
            long_press_ms: self.long_press_ms,
        }
    }
}

// ---------------------------------------------------------------------
// Defaults and ranges
// ---------------------------------------------------------------------

pub open spec fn clamp(v: u32, lo: u32, hi: u32) -> u32 {
    if v < lo {
        lo
    } else if v > hi {
        hi
    } else {
        v
    }
}

/// Every value setting held to its range; the device, rate and channel
/// are left as they are.
pub open spec fn clamped(m: ConfigModel) -> ConfigModel {
    ConfigModel {
        device_name: m.device_name,
        sample_rate: m.sample_rate,
        input_channel: m.input_channel,
        volume_pct: clamp(m.volume_pct, VOLUME_PCT_MIN, VOLUME_PCT_MAX),
        preroll_ms: clamp(m.preroll_ms, PREROLL_MS_MIN, PREROLL_MS_MAX),
        latency_ms: clamp(m.latency_ms, LATENCY_MS_MIN, LATENCY_MS_MAX),
        max_loop_secs: clamp(m.max_loop_secs, MAX_LOOP_SECS_MIN, MAX_LOOP_SECS_MAX),
        max_layers: clamp(m.max_layers, MAX_LAYERS_MIN, MAX_LAYERS_MAX),
        long_press_ms: clamp(m.long_press_ms, LONG_PRESS_MS_MIN, LONG_PRESS_MS_MAX),
    }
}

/// Whether every value setting lies within its range.
pub open spec fn in_range(m: ConfigModel) -> bool {
    &&& VOLUME_PCT_MIN <= m.volume_pct <= VOLUME_PCT_MAX
    &&& PREROLL_MS_MIN <= m.preroll_ms <= PREROLL_MS_MAX
    &&& LATENCY_MS_MIN <= m.latency_ms <= LATENCY_MS_MAX
    &&& MAX_LOOP_SECS_MIN <= m.max_loop_secs <= MAX_LOOP_SECS_MAX
    &&& MAX_LAYERS_MIN <= m.max_layers <= MAX_LAYERS_MAX
    &&& LONG_PRESS_MS_MIN <= m.long_press_ms <= LONG_PRESS_MS_MAX
}

/// The settings a fresh install starts from: no device, no rate, the
/// first channel, every value at its default.
pub open spec fn default_model() -> ConfigModel {
    ConfigModel {
        device_name: Seq::empty(),
        sample_rate: 0,
        input_channel: 0,
        volume_pct: DEFAULT_VOLUME_PCT,
        preroll_ms: DEFAULT_PREROLL_MS,
        latency_ms: DEFAULT_LATENCY_MS,
        max_loop_secs: DEFAULT_MAX_LOOP_SECS,
        max_layers: DEFAULT_MAX_LAYERS,
        long_press_ms: DEFAULT_LONG_PRESS_MS,
    }
}

/// Bytes the loop layers take: every layer is allocated at the full loop
/// length, four bytes a sample.
pub open spec fn memory_bytes(m: ConfigModel) -> int {
    m.max_loop_secs * m.max_layers * m.sample_rate * 4
}

fn clamp_u32(v: u32, lo: u32, hi: u32) -> (r: u32)
    ensures
        r == clamp(v, lo, hi),
{
    if v < lo {
        lo
    } else if v > hi {
        hi
    } else {
        v
    }
}

// ---------------------------------------------------------------------
// The settings file
// ---------------------------------------------------------------------

pub open spec fn key_device_name() -> Seq<char> {
    "device_name"@
}

pub open spec fn key_sample_rate() -> Seq<char> {
    "sample_rate"@
}

pub open spec fn key_input_channel() -> Seq<char> {
    "input_channel"@
}

pub open spec fn key_volume_pct() -> Seq<char> {
    "volume_pct"@
}

pub open spec fn key_preroll_ms() -> Seq<char> {
    "preroll_ms"@
}

pub open spec fn key_latency_ms() -> Seq<char> {
    "latency_ms"@
}

pub open spec fn key_max_loop_secs() -> Seq<char> {
    "max_loop_secs"@
}

pub open spec fn key_max_layers() -> Seq<char> {
    "max_layers"@
}

pub open spec fn key_long_press_ms() -> Seq<char> {
    "long_press_ms"@
}

/// Where reading a document's lines stands after `lines`, and the
/// top-level key-value pairs they gave, in order; `None` if a line is not
/// TOML.
pub open spec fn doc_of(lines: Seq<Seq<char>>) -> Option<(DocState, Seq<(Seq<char>, TomlValue)>)>
    decreases lines.len(),
{
    if lines.len() == 0 {
        Some((DocState { in_table: false, open: None }, Seq::empty()))
    } else {
        match doc_of(lines.drop_last()) {
            None => None,
            Some((st, pairs)) => match doc_line(st, lines.last()) {
                None => None,
                Some((next, pair)) => Some(
                    (
                        next,
                        match pair {
                            Some(p) => pairs.push(p),
                            None => pairs,
                        },
                    ),
                ),
            },
        }
    }
}

/// The top-level key-value pairs of a file's lines in order, or `None` if
/// it is not TOML - a line that is not, or a value still open at the end.
pub open spec fn table_of(lines: Seq<Seq<char>>) -> Option<Seq<(Seq<char>, TomlValue)>> {
    match doc_of(lines) {
        Some((st, pairs)) => if st.open is None {
            Some(pairs)
        } else {
            None
        },
        None => None,
    }
}

/// No key is given twice.
pub open spec fn distinct_keys(pairs: Seq<(Seq<char>, TomlValue)>) -> bool {
    forall|i: int, j: int| 0 <= i < j < pairs.len() ==> pairs[i].0 != pairs[j].0
}

/// The value given for `key`, if any.
pub open spec fn value_of(pairs: Seq<(Seq<char>, TomlValue)>, key: Seq<char>) -> Option<TomlValue>
    decreases pairs.len(),
{
    if pairs.len() == 0 {
        None
    } else if pairs.last().0 == key {
        Some(pairs.last().1)
    } else {
        value_of(pairs.drop_last(), key)
    }
}

/// A whole-number setting: `default` when absent, the value when it is
/// an integer in `0..=max`, and `None` (the file is refused) otherwise.
pub open spec fn number_field(v: Option<TomlValue>, default: Option<int>, max: int) -> Option<int> {
    match v {
        None => default,
        Some(TomlValue::Int(x)) => if 0 <= x <= max {
            Some(x)
        } else {
            None
        },
        Some(_) => None,
    }
}

/// The settings a table gives, clamped to their ranges. The device name
/// and the sample rate are required; unknown keys are ignored.
pub open spec fn config_from_table(pairs: Seq<(Seq<char>, TomlValue)>) -> Option<ConfigModel> {
    let rate = number_field(value_of(pairs, key_sample_rate()), None, u32::MAX as int);
    let channel = number_field(value_of(pairs, key_input_channel()), Some(0), u16::MAX as int);
    let volume = number_field(
        value_of(pairs, key_volume_pct()),
        Some(DEFAULT_VOLUME_PCT as int),
        u32::MAX as int,
    );
    let preroll = number_field(
        value_of(pairs, key_preroll_ms()),
        Some(DEFAULT_PREROLL_MS as int),
        u32::MAX as int,
    );
    let latency = number_field(
        value_of(pairs, key_latency_ms()),
        Some(DEFAULT_LATENCY_MS as int),
        u32::MAX as int,
    );
    let loop_secs = number_field(
        value_of(pairs, key_max_loop_secs()),
        Some(DEFAULT_MAX_LOOP_SECS as int),
        u32::MAX as int,
    );
    let layers = number_field(
        value_of(pairs, key_max_layers()),
        Some(DEFAULT_MAX_LAYERS as int),
        u32::MAX as int,
    );
    let long_press = number_field(
        value_of(pairs, key_long_press_ms()),
        Some(DEFAULT_LONG_PRESS_MS as int),
        u32::MAX as int,
    );
    match value_of(pairs, key_device_name()) {
        Some(TomlValue::Str(name)) => if rate is Some && channel is Some && volume is Some
            && preroll is Some && latency is Some && loop_secs is Some && layers is Some
            && long_press is Some {
            Some(
                clamped(
                    ConfigModel {
                        device_name: name,
                        sample_rate: rate->0 as u32,
                        input_channel: channel->0 as u16,
                        volume_pct: volume->0 as u32,
                        preroll_ms: preroll->0 as u32,
                        latency_ms: latency->0 as u32,
                        max_loop_secs: loop_secs->0 as u32,
                        max_layers: layers->0 as u32,
                        long_press_ms: long_press->0 as u32,
                    },
                ),
            )
        } else {
            None
        },
        _ => None,
    }
}

/// What a settings file in TOML says, or `None` if it is not one.
pub open spec fn config_from_toml(text: Seq<char>) -> Option<ConfigModel> {
    match table_of(text_lines(text)) {
        Some(pairs) => if distinct_keys(pairs) {
            config_from_table(pairs)
        } else {
            None
        },
        None => None,
    }
}

/// One line giving a string setting.
pub open spec fn text_entry(key: Seq<char>, s: Seq<char>) -> Seq<char> {
    key + " = \""@ + escape(s) + "\"\n"@
}

/// One line giving a number setting.
pub open spec fn number_entry(key: Seq<char>, n: nat) -> Seq<char> {
    key + " = "@ + decimal(n) + "\n"@
}

/// The settings as the file is written.
pub open spec fn toml_text(m: ConfigModel) -> Seq<char> {
    text_entry(key_device_name(), m.device_name) + number_entry(
        key_sample_rate(),
        m.sample_rate as nat,
    ) + number_entry(key_input_channel(), m.input_channel as nat) + number_entry(
        key_volume_pct(),
        m.volume_pct as nat,
    ) + number_entry(key_preroll_ms(), m.preroll_ms as nat) + number_entry(
        key_latency_ms(),
        m.latency_ms as nat,
    ) + number_entry(key_max_loop_secs(), m.max_loop_secs as nat) + number_entry(
        key_max_layers(),
        m.max_layers as nat,
    ) + number_entry(key_long_press_ms(), m.long_press_ms as nat)
}

pub open spec fn pairs_view(v: Seq<(Vec<char>, Scalar)>) -> Seq<(Seq<char>, TomlValue)> {
    v.map_values(|p: (Vec<char>, Scalar)| (p.0@, scalar_view(p.1)))
}

pub open spec fn lines_view(v: Seq<Vec<char>>) -> Seq<Seq<char>> {
    v.map_values(|l: Vec<char>| l@)
}

fn chars_eq(a: &Vec<char>, b: &Vec<char>) -> (same: bool)
    ensures
        same == (a@ == b@),
{
    if a.len() != b.len() {
        return false;
    }
    let mut i: usize = 0;
    while i < a.len()
        invariant
            i <= a@.len(),
            a@.len() == b@.len(),
            forall|j: int| 0 <= j < i ==> a@[j] == b@[j],
        decreases a@.len() - i,
    {
        if a[i] != b[i] {
            return false;
        }
        i = i + 1;
    }
    assert(a@ =~= b@);
    true
}

/// A top-level pair a line gives, in executable form.
fn top_pair_of(in_table: bool, key: Option<Vec<char>>, v: Scalar) -> (pair: Option<(Vec<char>, Scalar)>)
    ensures
        match top_pair(in_table, key_view(key), scalar_view(v)) {
            Some((k, x)) => pair matches Some(p) && p.0@ == k && scalar_view(p.1) == x,
            None => pair is None,
        },
{
    match key {
        Some(k) => {
            if in_table {
                None
            } else {
                Some((k, v))
            }
        },
        None => None,
    }
}

/// The top-level pairs of the file's lines, as `table_of` says.
fn read_table(lines: &Vec<Vec<char>>) -> (table: Option<Vec<(Vec<char>, Scalar)>>)
    ensures
        match table_of(lines_view(lines@)) {
            Some(pairs) => table is Some && pairs_view(table->0@) == pairs,
            None => table is None,
        },
{
    let mut pairs: Vec<(Vec<char>, Scalar)> = Vec::new();
    let mut in_table = false;
    let mut open: Option<Scan> = None;
    let mut i: usize = 0;
    while i < lines.len()
        invariant
            i <= lines@.len(),
            doc_of(lines_view(lines@.take(i as int))) == Some(
                (DocState { in_table, open }, pairs_view(pairs@)),
            ),
        decreases lines@.len() - i,
    {
        let line = &lines[i];
        let ghost st = DocState { in_table, open };
        proof {
            assert(lines_view(lines@.take(i + 1)).drop_last() =~= lines_view(lines@.take(i as int)));
            assert(lines_view(lines@.take(i + 1)).last() == lines@[i as int]@);
            assert(lines_view(lines@).take(i + 1) =~= lines_view(lines@.take(i + 1)));
        }
        let mut pair: Option<(Vec<char>, Scalar)> = None;
        match open {
            Some(s) => {
                match scan_line(line, 0, s) {
                    Scanned::Ended(e) => {
                        proof {
                            crate::toml::lemma_scan_ends_within(line@, 0, s);
                        }
                        if !crate::toml::rest_blank_at(line, e) {
                            proof {
                                assert(doc_line(st, line@) is None);
                                assert(doc_of(lines_view(lines@.take(i + 1))) is None);
                                lemma_table_of_bad_stays(lines_view(lines@), i + 1);
                            }
                            return None;
                        }
                        open = None;
                    },
                    Scanned::Open(s2) => {
                        open = Some(s2);
                    },
                    Scanned::Broken => {
                        proof {
                            assert(doc_line(st, line@) is None);
                            assert(doc_of(lines_view(lines@.take(i + 1))) is None);
                            lemma_table_of_bad_stays(lines_view(lines@), i + 1);
                        }
                        return None;
                    },
                }
            },
            None => {
                match read_line(line) {
                    Line::Blank => {},
                    Line::Pair(k, v) => {
                        pair = top_pair_of(in_table, Some(k), v);
                    },
                    Line::Bad => {
                        match read_general_line(line) {
                            LineAt::Blank => {},
                            LineAt::Header => {
                                in_table = true;
                            },
                            LineAt::Entry(k, v) => {
                                pair = top_pair_of(in_table, k, v);
                            },
                            LineAt::Opened(k, s) => {
                                pair = top_pair_of(in_table, k, Scalar::Other);
                                open = Some(s);
                            },
                            LineAt::Bad => {
                                proof {
                                    assert(doc_line(st, line@) is None);
                                    assert(doc_of(lines_view(lines@.take(i + 1))) is None);
                                    lemma_table_of_bad_stays(lines_view(lines@), i + 1);
                                }
                                return None;
                            },
                        }
                    },
                }
            },
        }
        match pair {
            Some(p) => {
                let ghost before = pairs@;
                pairs.push(p);
                proof {
                    assert(pairs_view(pairs@) =~= pairs_view(before).push(
                        (pairs@.last().0@, scalar_view(pairs@.last().1)),
                    ));
                }
            },
            None => {},
        }
        i = i + 1;
    }
    assert(lines@.take(lines@.len() as int) =~= lines@);
    if open.is_some() {
        return None;
    }
    Some(pairs)
}

proof fn lemma_table_of_bad_stays(lines: Seq<Seq<char>>, k: int)
    requires
        0 <= k <= lines.len(),
        doc_of(lines.take(k)) is None,
    ensures
        doc_of(lines) is None,
        table_of(lines) is None,
    decreases lines.len() - k,
{
    if k < lines.len() {
        assert(lines.take(k + 1).drop_last() =~= lines.take(k));
        lemma_table_of_bad_stays(lines, k + 1);
    } else {
        assert(lines.take(k) =~= lines);
    }
}

fn keys_distinct(pairs: &Vec<(Vec<char>, Scalar)>) -> (distinct: bool)
    ensures
        distinct == distinct_keys(pairs_view(pairs@)),
{
    let n = pairs.len();
    let mut i: usize = 0;
    while i < n
        invariant
            i <= n,
            n == pairs@.len(),
            forall|a: int, b: int|
                0 <= a < b < n && a < i ==> #[trigger] pairs@[a].0@ != #[trigger] pairs@[b].0@,
        decreases n - i,
    {
        let mut j: usize = i + 1;
        while j < n
            invariant
                i < j <= n,
                n == pairs@.len(),
                forall|a: int, b: int|
                    0 <= a < b < n && a < i ==> #[trigger] pairs@[a].0@ != #[trigger] pairs@[b].0@,
                forall|b: int| i < b < j ==> pairs@[i as int].0@ != #[trigger] pairs@[b].0@,
            decreases n - j,
        {
            if chars_eq(&pairs[i].0, &pairs[j].0) {
                proof {
                    let pv = pairs_view(pairs@);
                    assert(pv[i as int].0 == pv[j as int].0);
                }
                return false;
            }
            j = j + 1;
        }
        i = i + 1;
    }
    proof {
        let pv = pairs_view(pairs@);
        assert forall|a: int, b: int| 0 <= a < b < pv.len() implies pv[a].0 != pv[b].0 by {
            assert(pairs@[a].0@ != pairs@[b].0@);
        }
    }
    true
}

/// Where the value for `key` stands, if the table gives one.
fn find_value(pairs: &Vec<(Vec<char>, Scalar)>, key: &Vec<char>) -> (found: Option<usize>)
    ensures
        match found {
            Some(i) => i < pairs@.len() && value_of(pairs_view(pairs@), key@) == Some(
                scalar_view(pairs@[i as int].1),
            ),
            None => value_of(pairs_view(pairs@), key@) is None,
        },
{
    let ghost pv = pairs_view(pairs@);
    let mut i = pairs.len();
    assert(pv.take(i as int) =~= pv);
    while i > 0
        invariant
            i <= pairs@.len(),
            pv == pairs_view(pairs@),
            value_of(pv, key@) == value_of(pv.take(i as int), key@),
        decreases i,
    {
        assert(pv.take(i as int).drop_last() =~= pv.take(i - 1));
        if chars_eq(&pairs[i - 1].0, key) {
            return Some(i - 1);
        }
        i = i - 1;
    }
    None
}

/// A whole-number setting, as `number_field` says.
fn number_at(pairs: &Vec<(Vec<char>, Scalar)>, at: Option<usize>, default: Option<u32>, max: u32) -> (n: Option<u32>)
    requires
        at matches Some(i) ==> i < pairs@.len(),
    ensures
        n == (match number_field(
            match at {
                Some(i) => Some(scalar_view(pairs@[i as int].1)),
                None => None,
            },
            match default {
                Some(d) => Some(d as int),
                None => None,
            },
            max as int,
        ) {
            Some(x) => Some(x as u32),
            None => None,
        }),
{
    match at {
        None => default,
        Some(i) => match &pairs[i].1 {
            Scalar::Int(x) => {
                if 0 <= *x && *x <= max as i64 {
                    Some(*x as u32)
                } else {
                    None
                }
            },
            _ => None,
        },
    }
}

// ---------------------------------------------------------------------
// The format the settings were kept in before, `key=value` lines
// ---------------------------------------------------------------------

/// A line's text before its first `=` and after it, or `None` if it has
/// none.
pub open spec fn split_at_equals(l: Seq<char>) -> Option<(Seq<char>, Seq<char>)>
    decreases l.len(),
{
    if l.len() == 0 {
        None
    } else if l[0] == '=' {
        Some((Seq::empty(), l.drop_first()))
    } else {
        match split_at_equals(l.drop_first()) {
            Some((k, v)) => Some((seq![l[0]] + k, v)),
            None => None,
        }
    }
}

/// An unsigned integer as Rust's `parse` reads one: an optional `+`, then
/// at least one digit and nothing else, no more than `max`.
pub open spec fn parse_unsigned(v: Seq<char>, max: int) -> Option<int> {
    let d = if v.len() > 0 && v[0] == '+' {
        v.drop_first()
    } else {
        v
    };
    if d.len() == 0 || !all_digits(d) || digits_value(d) > max {
        None
    } else {
        Some(digits_value(d))
    }
}

/// What the old format's lines have said so far. A later line for the
/// same key replaces an earlier one, a number that does not parse too.
pub struct LegacyFields {
    pub device_name: Option<Seq<char>>,
    pub sample_rate: Option<int>,
    pub input_channel: Option<int>,
    pub volume_pct: Option<int>,
    pub preroll_ms: Option<int>,
}

pub open spec fn legacy_apply(f: LegacyFields, k: Seq<char>, v: Seq<char>) -> LegacyFields {
    if k == key_device_name() {
        LegacyFields {
            device_name: Some(v),
            sample_rate: f.sample_rate,
            input_channel: f.input_channel,
            volume_pct: f.volume_pct,
            preroll_ms: f.preroll_ms,
        }
    } else if k == key_sample_rate() {
        LegacyFields {
            device_name: f.device_name,
            sample_rate: parse_unsigned(v, u32::MAX as int),
            input_channel: f.input_channel,
            volume_pct: f.volume_pct,
            preroll_ms: f.preroll_ms,
        }
    } else if k == key_input_channel() {
        LegacyFields {
            device_name: f.device_name,
            sample_rate: f.sample_rate,
            input_channel: parse_unsigned(v, u16::MAX as int),
            volume_pct: f.volume_pct,
            preroll_ms: f.preroll_ms,
        }
    } else if k == key_volume_pct() {
        LegacyFields {
            device_name: f.device_name,
            sample_rate: f.sample_rate,
            input_channel: f.input_channel,
            volume_pct: parse_unsigned(v, u32::MAX as int),
            preroll_ms: f.preroll_ms,
        }
    } else if k == key_preroll_ms() {
        LegacyFields {
            device_name: f.device_name,
            sample_rate: f.sample_rate,
            input_channel: f.input_channel,
            volume_pct: f.volume_pct,
            preroll_ms: parse_unsigned(v, u32::MAX as int),
        }
    } else {
        f
    }
}

/// The old format's lines read in order, or `None` if one has no `=`.
pub open spec fn legacy_fields(lines: Seq<Seq<char>>) -> Option<LegacyFields>
    decreases lines.len(),
{
    if lines.len() == 0 {
        Some(
            LegacyFields {
                device_name: None,
                sample_rate: None,
                input_channel: None,
                volume_pct: None,
                preroll_ms: None,
            },
        )
    } else {
        match legacy_fields(lines.drop_last()) {
            None => None,
            Some(f) => match split_at_equals(lines.last()) {
                Some((k, v)) => Some(legacy_apply(f, k, v)),
                None => None,
            },
        }
    }
}

/// What a file in the old format says: it needs a device, a rate, a
/// channel and a volume; the pre-roll and everything added since fall
/// back to their defaults, and the values are clamped to their ranges.
pub open spec fn config_from_legacy(text: Seq<char>) -> Option<ConfigModel> {
    match legacy_fields(text_lines(text)) {
        Some(f) => match (f.device_name, f.sample_rate, f.input_channel, f.volume_pct) {
            (Some(name), Some(rate), Some(channel), Some(volume)) => Some(
                clamped(
                    ConfigModel {
                        device_name: name,
                        sample_rate: rate as u32,
                        input_channel: channel as u16,
                        volume_pct: volume as u32,
                        preroll_ms: match f.preroll_ms {
                            Some(p) => p as u32,
                            None => DEFAULT_PREROLL_MS,
                        },
                        latency_ms: DEFAULT_LATENCY_MS,
                        max_loop_secs: DEFAULT_MAX_LOOP_SECS,
                        max_layers: DEFAULT_MAX_LAYERS,
                        long_press_ms: DEFAULT_LONG_PRESS_MS,
                    },
                ),
            ),
            _ => None,
        },
        None => None,
    }
}

/// What a settings file says: TOML, or failing that the old format.
pub open spec fn config_from_text(text: Seq<char>) -> Option<ConfigModel> {
    match config_from_toml(text) {
        Some(m) => Some(m),
        None => config_from_legacy(text),
    }
}

proof fn lemma_split_at_equals(l: Seq<char>, k: int)
    requires
        0 <= k <= l.len(),
        forall|j: int| 0 <= j < k ==> l[j] != '=',
    ensures
        k < l.len() && l[k] == '=' ==> split_at_equals(l) == Some((l.take(k), l.skip(k + 1))),
        k == l.len() ==> split_at_equals(l) is None,
    decreases k,
{
    if k > 0 {
        lemma_split_at_equals(l.drop_first(), k - 1);
        assert(seq![l[0]] + l.drop_first().take(k - 1) =~= l.take(k));
        if k < l.len() {
            assert(l.drop_first().skip(k) =~= l.skip(k + 1));
        }
    } else if l.len() > 0 {
        assert(l.take(0) =~= Seq::<char>::empty());
        assert(l.skip(1) =~= l.drop_first());
    }
}

/// Where the first `=` of `l` stands, as `split_at_equals` says.
fn equals_at(l: &Vec<char>) -> (at: Option<usize>)
    ensures
        match split_at_equals(l@) {
            Some((k, v)) => at matches Some(i) && i < l@.len() && k == l@.take(i as int) && v
                == l@.skip(i + 1),
            None => at is None,
        },
        at matches Some(i) ==> i < l@.len(),
{
    let mut i: usize = 0;
    while i < l.len()
        invariant
            i <= l@.len(),
            forall|j: int| 0 <= j < i ==> l@[j] != '=',
        decreases l@.len() - i,
    {
        if l[i] == '=' {
            proof {
                lemma_split_at_equals(l@, i as int);
            }
            return Some(i);
        }
        i = i + 1;
    }
    proof {
        lemma_split_at_equals(l@, i as int);
    }
    None
}

fn copy_part(text: &Vec<char>, from: usize, to: usize) -> (part: Vec<char>)
    requires
        from <= to <= text@.len(),
    ensures
        part@ == text@.subrange(from as int, to as int),
{
    let mut part: Vec<char> = Vec::new();
    let mut i = from;
    while i < to
        invariant
            from <= i <= to,
            to <= text@.len(),
            part@ == text@.subrange(from as int, i as int),
        decreases to - i,
    {
        part.push(text[i]);
        assert(part@ =~= text@.subrange(from as int, i + 1));
        i = i + 1;
    }
    part
}

proof fn lemma_digits_value_grows(d: Seq<char>, k: int)
    requires
        0 <= k <= d.len(),
        all_digits(d),
    ensures
        digits_value(d.take(k)) <= digits_value(d),
        0 <= digits_value(d.take(k)),
    decreases d.len() - k,
{
    if k < d.len() {
        lemma_digits_value_grows(d, k + 1);
        assert(d.take(k + 1).drop_last() =~= d.take(k));
        assert('0' <= d[k] && d[k] <= '9');
    } else {
        assert(d.take(k) =~= d);
    }
    lemma_digits_value_nonneg(d.take(k));
}

proof fn lemma_digits_value_nonneg(d: Seq<char>)
    requires
        all_digits(d),
    ensures
        0 <= digits_value(d),
    decreases d.len(),
{
    if d.len() > 0 {
        assert(all_digits(d.drop_last())) by {
            assert forall|i: int| 0 <= i < d.drop_last().len() implies '0' <= #[trigger] d.drop_last()[i]
                && d.drop_last()[i] <= '9' by {
                assert(d.drop_last()[i] == d[i]);
            }
        }
        lemma_digits_value_nonneg(d.drop_last());
        assert('0' <= d[d.len() - 1]);
    }
}

/// The characters of `l` from `from` on, read as `parse_unsigned` says.
fn parse_unsigned_at(l: &Vec<char>, from: usize, max: u32) -> (n: Option<u32>)
    requires
        from <= l@.len(),
    ensures
        match parse_unsigned(l@.skip(from as int), max as int) {
            Some(x) => n == Some(x as u32) && 0 <= x <= max,
            None => n is None,
        },
{
    let ghost v = l@.skip(from as int);
    let mut start = from;
    if start < l.len() && l[start] == '+' {
        start = start + 1;
    }
    let ghost d = l@.skip(start as int);
    assert(d =~= (if v.len() > 0 && v[0] == '+' {
        v.drop_first()
    } else {
        v
    }));
    if start == l.len() {
        return None;
    }
    let mut acc: u64 = 0;
    let mut big = false;
    let mut k = start;
    while k < l.len()
        invariant
            start <= k <= l@.len(),
            d == l@.skip(start as int),
            v == l@.skip(from as int),
            d == (if v.len() > 0 && v[0] == '+' {
                v.drop_first()
            } else {
                v
            }),
            forall|j: int| 0 <= j < k - start ==> '0' <= #[trigger] d[j] && d[j] <= '9',
            !big ==> acc == digits_value(d.take(k - start)) && acc <= max,
            big ==> digits_value(d.take(k - start)) > max,
        decreases l@.len() - k,
    {
        let c = l[k];
        if c < '0' || c > '9' {
            proof {
                assert(d[k - start] == c);
                assert(!('0' <= d[k - start] && d[k - start] <= '9'));
                assert(!all_digits(d));
            }
            return None;
        }
        proof {
            assert(d.take(k - start + 1).drop_last() =~= d.take(k - start));
            assert(d.take(k - start + 1).last() == c);
            assert(all_digits(d.take(k - start)));
            lemma_digits_value_nonneg(d.take(k - start));
        }
        let digit = ((c as u32) - ('0' as u32)) as u64;
        if !big {
            let next = acc * 10 + digit;
            if next > max as u64 {
                big = true;
            } else {
                acc = next;
            }
        }
        k = k + 1;
    }
    proof {
        assert(d.take(k - start) =~= d);
        assert(all_digits(d));
        lemma_digits_value_nonneg(d);
    }
    if big {
        None
    } else {
        Some(acc as u32)
    }
}

impl AppConfig {
    /// The settings a fresh install starts from.
    pub fn default_config() -> (c: AppConfig)
        ensures
            c@ == default_model(),
    {
        AppConfig {
            device_name: String::new(),
            sample_rate: 0,
            input_channel: 0,
            volume_pct: DEFAULT_VOLUME_PCT,
            preroll_ms: DEFAULT_PREROLL_MS,
            latency_ms: DEFAULT_LATENCY_MS,
            max_loop_secs: DEFAULT_MAX_LOOP_SECS,
            max_layers: DEFAULT_MAX_LAYERS,
            long_press_ms: DEFAULT_LONG_PRESS_MS,
        }
    }

    /// A copy of these settings.
    pub fn duplicate(&self) -> (c: AppConfig)
        ensures
            c@ == self@,
    {
        AppConfig {
            device_name: self.device_name.clone(),
            sample_rate: self.sample_rate,
            input_channel: self.input_channel,
            volume_pct: self.volume_pct,
            preroll_ms: self.preroll_ms,
            latency_ms: self.latency_ms,
            max_loop_secs: self.max_loop_secs,
            max_layers: self.max_layers,
            long_press_ms: self.long_press_ms,
        }
    }

    /// These settings with every value held to its range.
    pub fn clamped(self) -> (c: AppConfig)
        ensures
            c@ == clamped(self@),
    {
        AppConfig {
            device_name: self.device_name,
            sample_rate: self.sample_rate,
            input_channel: self.input_channel,
            volume_pct: clamp_u32(self.volume_pct, VOLUME_PCT_MIN, VOLUME_PCT_MAX),
            preroll_ms: clamp_u32(self.preroll_ms, PREROLL_MS_MIN, PREROLL_MS_MAX),
            latency_ms: clamp_u32(self.latency_ms, LATENCY_MS_MIN, LATENCY_MS_MAX),
            max_loop_secs: clamp_u32(self.max_loop_secs, MAX_LOOP_SECS_MIN, MAX_LOOP_SECS_MAX),
            max_layers: clamp_u32(self.max_layers, MAX_LAYERS_MIN, MAX_LAYERS_MAX),
            long_press_ms: clamp_u32(self.long_press_ms, LONG_PRESS_MS_MIN, LONG_PRESS_MS_MAX),
        }
    }

    /// What the loop length and layer count cost in memory: every layer
    /// is allocated at the full loop length, `seconds x layers x rate x 4`
    /// bytes.
    pub fn loop_memory_bytes(&self) -> (bytes: u64)
        requires
            memory_bytes(self@) <= u64::MAX,
        ensures
            bytes == memory_bytes(self@),
    {
        let secs = self.max_loop_secs as u64;
        let layers = self.max_layers as u64;
        let rate = self.sample_rate as u64;
        assert(secs * layers <= secs * layers * rate * 4 || rate == 0) by (nonlinear_arith)
            requires
                secs >= 0,
                layers >= 0,
                rate >= 0,
        ;
        assert(secs * layers * rate <= secs * layers * rate * 4) by (nonlinear_arith)
            requires
                secs >= 0,
                layers >= 0,
                rate >= 0,
        ;
        if rate == 0 {
            assert(secs * layers * rate * 4 == 0) by (nonlinear_arith)
                requires
                    rate == 0,
            ;
            return 0;
        }
        assert(secs * layers <= u64::MAX);
        let a = secs * layers;
        assert(a * rate <= u64::MAX);
        let b = a * rate;
        b * 4
    }

    /// Reads a settings file in TOML. `None` if it is not TOML, a key is
    /// given twice, a known key holds a value of the wrong kind, or the
    /// device name or the sample rate is missing. Unknown keys, whatever
    /// their values, and everything under a table header are ignored;
    /// the values are clamped to their ranges.
    pub fn from_toml(text: &str) -> (config: Option<AppConfig>)
        ensures
            match config_from_toml(text@) {
                Some(m) => config matches Some(c) && c@ == m,
                None => config is None,
            },
    {
        let chars = chars_of(text);
        let lines = split_lines(&chars);
        proof {
            assert(lines_view(lines@) =~= text_lines(text@));
        }
        let pairs = match read_table(&lines) {
            Some(p) => p,
            None => return None,
        };
        if !keys_distinct(&pairs) {
            return None;
        }
        let ghost pv = pairs_view(pairs@);
        let name_at = find_value(&pairs, &chars_of("device_name"));
        let rate = number_at(&pairs, find_value(&pairs, &chars_of("sample_rate")), None, u32::MAX);
        let channel = number_at(
            &pairs,
            find_value(&pairs, &chars_of("input_channel")),
            Some(0),
            u16::MAX as u32,
        );
        let volume = number_at(
            &pairs,
            find_value(&pairs, &chars_of("volume_pct")),
            Some(DEFAULT_VOLUME_PCT),
            u32::MAX,
        );
        let preroll = number_at(
            &pairs,
            find_value(&pairs, &chars_of("preroll_ms")),
            Some(DEFAULT_PREROLL_MS),
            u32::MAX,
        );
        let latency = number_at(
            &pairs,
            find_value(&pairs, &chars_of("latency_ms")),
            Some(DEFAULT_LATENCY_MS),
            u32::MAX,
        );
        let loop_secs = number_at(
            &pairs,
            find_value(&pairs, &chars_of("max_loop_secs")),
            Some(DEFAULT_MAX_LOOP_SECS),
            u32::MAX,
        );
        let layers = number_at(
            &pairs,
            find_value(&pairs, &chars_of("max_layers")),
            Some(DEFAULT_MAX_LAYERS),
            u32::MAX,
        );
        let long_press = number_at(
            &pairs,
            find_value(&pairs, &chars_of("long_press_ms")),
            Some(DEFAULT_LONG_PRESS_MS),
            u32::MAX,
        );
        let name = match name_at {
            Some(i) => match &pairs[i].1 {
                Scalar::Str(s) => string_of(s),
                _ => return None,
            },
            None => return None,
        };
        match (rate, channel, volume, preroll, latency, loop_secs, layers, long_press) {
            (
                Some(rate),
                Some(channel),
                Some(volume),
                Some(preroll),
                Some(latency),
                Some(loop_secs),
                Some(layers),
                Some(long_press),
            ) => {
                let config = AppConfig {
                    device_name: name,
                    sample_rate: rate,
                    input_channel: channel as u16,
                    volume_pct: volume,
                    preroll_ms: preroll,
                    latency_ms: latency,
                    max_loop_secs: loop_secs,
                    max_layers: layers,
                    long_press_ms: long_press,
                };
                Some(config.clamped())
            },
            _ => None,
        }
    }

    /// The settings as a TOML file: one `key = value` line each, the
    /// device name quoted and escaped. Always succeeds.
    pub fn to_toml(&self) -> (text: Result<String, String>)
        ensures
            text matches Ok(t) && t@ == toml_text(self@),
    {
        let mut out = String::new();
        out.append("device_name");
        out.append(" = \"");
        push_escaped(&mut out, &self.device_name);
        out.append("\"\n");
        self.number_line(&mut out, "sample_rate", self.sample_rate);
        self.number_line(&mut out, "input_channel", self.input_channel as u32);
        self.number_line(&mut out, "volume_pct", self.volume_pct);
        self.number_line(&mut out, "preroll_ms", self.preroll_ms);
        self.number_line(&mut out, "latency_ms", self.latency_ms);
        self.number_line(&mut out, "max_loop_secs", self.max_loop_secs);
        self.number_line(&mut out, "max_layers", self.max_layers);
        self.number_line(&mut out, "long_press_ms", self.long_press_ms);
        assert(out@ =~= toml_text(self@));
        Ok(out)
    }

    fn number_line(&self, out: &mut String, key: &str, n: u32)
        ensures
            final(out)@ == old(out)@ + number_entry(key@, n as nat),
    {
        out.append(key);
        out.append(" = ");
        push_decimal(out, n);
        out.append("\n");
        assert(out@ =~= old(out)@ + number_entry(key@, n as nat));
    }

    /// Reads a file in the old `key=value` format. `None` if a line has no
    /// `=`, or the device, rate, channel or volume is missing or does not
    /// parse.
    pub fn from_legacy(text: &str) -> (config: Option<AppConfig>)
        ensures
            match config_from_legacy(text@) {
                Some(m) => config matches Some(c) && c@ == m,
                None => config is None,
            },
    {
        let chars = chars_of(text);
        let lines = split_lines(&chars);
        let ghost lv = lines_view(lines@);
        proof {
            assert(lv =~= text_lines(text@));
        }
        let k_name = chars_of("device_name");
        let k_rate = chars_of("sample_rate");
        let k_channel = chars_of("input_channel");
        let k_volume = chars_of("volume_pct");
        let k_preroll = chars_of("preroll_ms");
        let mut name: Option<Vec<char>> = None;
        let mut rate: Option<u32> = None;
        let mut channel: Option<u32> = None;
        let mut volume: Option<u32> = None;
        let mut preroll: Option<u32> = None;
        let mut i: usize = 0;
        while i < lines.len()
            invariant
                i <= lines@.len(),
                lv == lines_view(lines@),
                lv == text_lines(text@),
                k_name@ == key_device_name(),
                k_rate@ == key_sample_rate(),
                k_channel@ == key_input_channel(),
                k_volume@ == key_volume_pct(),
                k_preroll@ == key_preroll_ms(),
                legacy_fields(lv.take(i as int)) == Some(
                    LegacyFields {
                        device_name: match name {
                            Some(n) => Some(n@),
                            None => None,
                        },
                        sample_rate: match rate {
                            Some(r) => Some(r as int),
                            None => None,
                        },
                        input_channel: match channel {
                            Some(c) => Some(c as int),
                            None => None,
                        },
                        volume_pct: match volume {
                            Some(v) => Some(v as int),
                            None => None,
                        },
                        preroll_ms: match preroll {
                            Some(p) => Some(p as int),
                            None => None,
                        },
                    },
                ),
                channel matches Some(c) ==> c <= u16::MAX,
            decreases lines@.len() - i,
        {
            let line = &lines[i];
            proof {
                assert(lv[i as int] == line@);
                assert(lv.take(i + 1).drop_last() =~= lv.take(i as int));
                assert(lv.take(i + 1).last() == line@);
            }
            let at = match equals_at(line) {
                Some(at) => at,
                None => {
                    proof {
                        assert(legacy_fields(lv.take(i + 1)) is None);
                        lemma_legacy_bad_stays(lv, i + 1);
                    }
                    return None;
                },
            };
            let key = copy_part(line, 0, at);
            proof {
                assert(key@ =~= line@.take(at as int));
                assert(line@.skip(at + 1) =~= line@.skip(at + 1));
            }
            if chars_eq(&key, &k_name) {
                name = Some(copy_part(line, at + 1, line.len()));
                proof {
                    assert(name->0@ =~= line@.skip(at + 1));
                }
            } else if chars_eq(&key, &k_rate) {
                rate = parse_unsigned_at(line, at + 1, u32::MAX);
            } else if chars_eq(&key, &k_channel) {
                channel = parse_unsigned_at(line, at + 1, u16::MAX as u32);
            } else if chars_eq(&key, &k_volume) {
                volume = parse_unsigned_at(line, at + 1, u32::MAX);
            } else if chars_eq(&key, &k_preroll) {
                preroll = parse_unsigned_at(line, at + 1, u32::MAX);
            }
            i = i + 1;
        }
        proof {
            assert(lv.take(lines@.len() as int) =~= lv);
        }
        match (name, rate, channel, volume) {
            (Some(name), Some(rate), Some(channel), Some(volume)) => {
                let config = AppConfig {
                    device_name: string_of(&name),
                    sample_rate: rate,
                    input_channel: channel as u16,
                    volume_pct: volume,
                    preroll_ms: match preroll {
                        Some(p) => p,
                        None => DEFAULT_PREROLL_MS,
                    },
                    latency_ms: DEFAULT_LATENCY_MS,
                    max_loop_secs: DEFAULT_MAX_LOOP_SECS,
                    max_layers: DEFAULT_MAX_LAYERS,
                    long_press_ms: DEFAULT_LONG_PRESS_MS,
                };
                Some(config.clamped())
            },
            _ => None,
        }
    }

    /// Reads a settings file: as TOML, and failing that in the old format,
    /// so a file written before the change still loads.
    pub fn parse(text: &str) -> (config: Option<AppConfig>)
        ensures
            match config_from_text(text@) {
                Some(m) => config matches Some(c) && c@ == m,
                None => config is None,
            },
    {
        match AppConfig::from_toml(text) {
            Some(c) => Some(c),
            None => AppConfig::from_legacy(text),
        }
    }
}

impl Default for AppConfig {
    /// The settings a fresh install starts from.
    fn default() -> (c: AppConfig)
        ensures
            c@ == default_model(),
    {
        AppConfig::default_config()
    }
}

proof fn lemma_legacy_bad_stays(lines: Seq<Seq<char>>, k: int)
    requires
        0 <= k <= lines.len(),
        legacy_fields(lines.take(k)) is None,
    ensures
        legacy_fields(lines) is None,
    decreases lines.len() - k,
{
    if k < lines.len() {
        assert(lines.take(k + 1).drop_last() =~= lines.take(k));
        lemma_legacy_bad_stays(lines, k + 1);
    } else {
        assert(lines.take(k) =~= lines);
    }
}


// ---------------------------------------------------------------------
// What is written reads back
// ---------------------------------------------------------------------

pub open spec fn key_of(i: int) -> Seq<char> {
    if i == 0 {
        key_device_name()
    } else if i == 1 {
        key_sample_rate()
    } else if i == 2 {
        key_input_channel()
    } else if i == 3 {
        key_volume_pct()
    } else if i == 4 {
        key_preroll_ms()
    } else if i == 5 {
        key_latency_ms()
    } else if i == 6 {
        key_max_loop_secs()
    } else if i == 7 {
        key_max_layers()
    } else {
        key_long_press_ms()
    }
}

proof fn lemma_keys()
    ensures
        forall|i: int|
            0 <= i < 9 ==> #[trigger] key_of(i).len() > 0 && (forall|j: int|
                0 <= j < key_of(i).len() ==> is_key_char(#[trigger] key_of(i)[j])),
        forall|i: int, j: int| 0 <= i < j < 9 ==> #[trigger] key_of(i) != #[trigger] key_of(j),
{
    reveal_strlit("device_name");
    reveal_strlit("sample_rate");
    reveal_strlit("input_channel");
    reveal_strlit("volume_pct");
    reveal_strlit("preroll_ms");
    reveal_strlit("latency_ms");
    reveal_strlit("max_loop_secs");
    reveal_strlit("max_layers");
    reveal_strlit("long_press_ms");
    assert forall|i: int| 0 <= i < 9 implies #[trigger] key_of(i).len() > 0 && (forall|j: int|
        0 <= j < key_of(i).len() ==> is_key_char(#[trigger] key_of(i)[j])) by {
        let k = key_of(i);
        assert forall|j: int| 0 <= j < k.len() implies is_key_char(#[trigger] k[j]) by {
            assert(k[j] == key_of(i)[j]);
        }
    }
    assert forall|i: int, j: int| 0 <= i < j < 9 implies #[trigger] key_of(i) != #[trigger] key_of(
        j,
    ) by {
        let a = key_of(i);
        let b = key_of(j);
        if a == b {
            assert(a.len() == b.len());
            assert(a[0] == b[0]);
        }
    }
}

/// The line a string setting is written on, newline aside.
pub open spec fn text_line(key: Seq<char>, s: Seq<char>) -> Seq<char> {
    key + seq![' ', '=', ' '] + (seq!['"'] + escape(s) + seq!['"'])
}

/// The line a number setting is written on, newline aside.
pub open spec fn number_line(key: Seq<char>, n: nat) -> Seq<char> {
    key + seq![' ', '=', ' '] + decimal(n)
}

proof fn lemma_text_entry(key: Seq<char>, s: Seq<char>, rest: Seq<char>)
    requires
        key.len() > 0,
        forall|j: int| 0 <= j < key.len() ==> is_key_char(#[trigger] key[j]),
    ensures
        text_lines(text_entry(key, s) + rest) == seq![text_line(key, s)] + text_lines(rest),
        parse_line(text_line(key, s)) == TomlLine::Pair(key, TomlValue::Str(s)),
{
    reveal_strlit(" = \"");
    reveal_strlit("\"\n");
    let line = text_line(key, s);
    let e = escape(s);
    assert(text_entry(key, s) + rest =~= line + seq!['\n'] + rest);
    lemma_escape_one_line(s);
    assert forall|i: int| 0 <= i < line.len() implies line[i] != '\n' by {
        if i < key.len() {
            assert(line[i] == key[i]);
            assert(is_key_char(key[i]));
        } else if key.len() + 4 <= i < key.len() + 4 + e.len() {
            assert(line[i] == e[i - key.len() - 4]);
        }
    }
    lemma_text_lines_cons(line, rest);
    let value_text = seq!['"'] + e + seq!['"'];
    lemma_parse_escaped(s, Seq::<char>::empty());
    assert(value_text.drop_first() =~= e + seq!['"'] + Seq::<char>::empty());
    assert(parse_value(value_text) == Some((TomlValue::Str(s), Seq::<char>::empty())));
    lemma_parse_pair(key, value_text, TomlValue::Str(s));
}

proof fn lemma_number_entry(key: Seq<char>, n: nat, rest: Seq<char>)
    requires
        key.len() > 0,
        forall|j: int| 0 <= j < key.len() ==> is_key_char(#[trigger] key[j]),
        n <= u32::MAX,
    ensures
        text_lines(number_entry(key, n) + rest) == seq![number_line(key, n)] + text_lines(rest),
        parse_line(number_line(key, n)) == TomlLine::Pair(key, TomlValue::Int(n as int)),
{
    reveal_strlit(" = ");
    reveal_strlit("\n");
    let line = number_line(key, n);
    let d = decimal(n);
    lemma_parse_decimal(n);
    assert(number_entry(key, n) + rest =~= line + seq!['\n'] + rest);
    assert forall|i: int| 0 <= i < line.len() implies line[i] != '\n' by {
        if i < key.len() {
            assert(line[i] == key[i]);
            assert(is_key_char(key[i]));
        } else if key.len() + 3 <= i {
            assert(line[i] == d[i - key.len() - 3]);
            assert(is_digit(d[i - key.len() - 3]));
        }
    }
    assert(line.last() == d.last());
    assert(is_digit(d[d.len() - 1]));
    lemma_text_lines_cons(line, rest);
    assert(!(d.len() >= 4 && d.take(4) == true_word())) by {
        if d.len() >= 4 && d.take(4) == true_word() {
            assert(d.take(4)[0] == d[0]);
        }
    }
    assert(!(d.len() >= 5 && d.take(5) == false_word())) by {
        if d.len() >= 5 && d.take(5) == false_word() {
            assert(d.take(5)[0] == d[0]);
        }
    }
    assert(parse_value(d) == Some((TomlValue::Int(n as int), Seq::<char>::empty())));
    lemma_parse_pair(key, d, TomlValue::Int(n as int));
}

proof fn lemma_table_of_pairs(lines: Seq<Seq<char>>, pairs: Seq<(Seq<char>, TomlValue)>)
    requires
        lines.len() == pairs.len(),
        forall|i: int|
            0 <= i < lines.len() ==> parse_line(#[trigger] lines[i]) == TomlLine::Pair(
                pairs[i].0,
                pairs[i].1,
            ),
    ensures
        doc_of(lines) == Some((DocState { in_table: false, open: None }, pairs)),
        table_of(lines) == Some(pairs),
    decreases lines.len(),
{
    if lines.len() > 0 {
        lemma_table_of_pairs(lines.drop_last(), pairs.drop_last());
        assert(parse_line(lines[lines.len() - 1]) == TomlLine::Pair(
            pairs[pairs.len() - 1].0,
            pairs[pairs.len() - 1].1,
        ));
        assert(pairs.drop_last().push(pairs.last()) =~= pairs);
    } else {
        assert(pairs =~= Seq::<(Seq<char>, TomlValue)>::empty());
    }
}

proof fn lemma_value_of_distinct(pairs: Seq<(Seq<char>, TomlValue)>, i: int)
    requires
        distinct_keys(pairs),
        0 <= i < pairs.len(),
    ensures
        value_of(pairs, pairs[i].0) == Some(pairs[i].1),
    decreases pairs.len(),
{
    if i < pairs.len() - 1 {
        assert(pairs[i].0 != pairs[pairs.len() - 1].0);
        lemma_value_of_distinct(pairs.drop_last(), i);
    }
}

pub open spec fn written_lines(m: ConfigModel) -> Seq<Seq<char>> {
    seq![
        text_line(key_of(0), m.device_name),
        number_line(key_of(1), m.sample_rate as nat),
        number_line(key_of(2), m.input_channel as nat),
        number_line(key_of(3), m.volume_pct as nat),
        number_line(key_of(4), m.preroll_ms as nat),
        number_line(key_of(5), m.latency_ms as nat),
        number_line(key_of(6), m.max_loop_secs as nat),
        number_line(key_of(7), m.max_layers as nat),
        number_line(key_of(8), m.long_press_ms as nat),
    ]
}

pub open spec fn written_pairs(m: ConfigModel) -> Seq<(Seq<char>, TomlValue)> {
    seq![
        (key_of(0), TomlValue::Str(m.device_name)),
        (key_of(1), TomlValue::Int(m.sample_rate as int)),
        (key_of(2), TomlValue::Int(m.input_channel as int)),
        (key_of(3), TomlValue::Int(m.volume_pct as int)),
        (key_of(4), TomlValue::Int(m.preroll_ms as int)),
        (key_of(5), TomlValue::Int(m.latency_ms as int)),
        (key_of(6), TomlValue::Int(m.max_loop_secs as int)),
        (key_of(7), TomlValue::Int(m.max_layers as int)),
        (key_of(8), TomlValue::Int(m.long_press_ms as int)),
    ]
}

proof fn lemma_key_facts(i: int)
    requires
        0 <= i < 9,
    ensures
        key_of(i).len() > 0,
        forall|j: int| 0 <= j < key_of(i).len() ==> is_key_char(#[trigger] key_of(i)[j]),
{
    lemma_keys();
}

#[verifier::spinoff_prover]
#[verifier::rlimit(100)]
proof fn lemma_written_lines(m: ConfigModel)
    ensures
        text_lines(toml_text(m)) == written_lines(m),
        forall|i: int|
            0 <= i < 9 ==> parse_line(#[trigger] written_lines(m)[i]) == TomlLine::Pair(
                written_pairs(m)[i].0,
                written_pairs(m)[i].1,
            ),
{
    let e0 = text_entry(key_of(0), m.device_name);
    let e1 = number_entry(key_of(1), m.sample_rate as nat);
    let e2 = number_entry(key_of(2), m.input_channel as nat);
    let e3 = number_entry(key_of(3), m.volume_pct as nat);
    let e4 = number_entry(key_of(4), m.preroll_ms as nat);
    let e5 = number_entry(key_of(5), m.latency_ms as nat);
    let e6 = number_entry(key_of(6), m.max_loop_secs as nat);
    let e7 = number_entry(key_of(7), m.max_layers as nat);
    let e8 = number_entry(key_of(8), m.long_press_ms as nat);
    let empty = Seq::<char>::empty();
    let t8 = e8 + empty;
    let t7 = e7 + t8;
    let t6 = e6 + t7;
    let t5 = e5 + t6;
    let t4 = e4 + t5;
    let t3 = e3 + t4;
    let t2 = e2 + t3;
    let t1 = e1 + t2;
    let t0 = e0 + t1;
    assert(toml_text(m) =~= t0);
    lemma_key_facts(0);
    lemma_key_facts(1);
    lemma_key_facts(2);
    lemma_key_facts(3);
    lemma_key_facts(4);
    lemma_key_facts(5);
    lemma_key_facts(6);
    lemma_key_facts(7);
    lemma_key_facts(8);
    lemma_text_entry(key_of(0), m.device_name, t1);
    lemma_number_entry(key_of(1), m.sample_rate as nat, t2);
    lemma_number_entry(key_of(2), m.input_channel as nat, t3);
    lemma_number_entry(key_of(3), m.volume_pct as nat, t4);
    lemma_number_entry(key_of(4), m.preroll_ms as nat, t5);
    lemma_number_entry(key_of(5), m.latency_ms as nat, t6);
    lemma_number_entry(key_of(6), m.max_loop_secs as nat, t7);
    lemma_number_entry(key_of(7), m.max_layers as nat, t8);
    lemma_number_entry(key_of(8), m.long_press_ms as nat, empty);
    assert(text_lines(empty) == Seq::<Seq<char>>::empty());
    assert(text_lines(toml_text(m)) =~= written_lines(m));
}

#[verifier::spinoff_prover]
proof fn lemma_written_pairs(m: ConfigModel)
    ensures
        distinct_keys(written_pairs(m)),
        forall|i: int|
            0 <= i < 9 ==> value_of(written_pairs(m), key_of(i)) == Some(
                #[trigger] written_pairs(m)[i].1,
            ),
{
    let pairs = written_pairs(m);
    lemma_keys();
    assert forall|i: int, j: int| 0 <= i < j < pairs.len() implies pairs[i].0 != pairs[j].0 by {
        assert(pairs[i].0 == key_of(i));
        assert(pairs[j].0 == key_of(j));
    }
    assert forall|i: int| 0 <= i < 9 implies value_of(pairs, key_of(i)) == Some(
        #[trigger] pairs[i].1,
    ) by {
        assert(pairs[i].0 == key_of(i));
        lemma_value_of_distinct(pairs, i);
    }
}

/// What `to_toml` writes, `from_toml` reads back: the same settings, held
/// to their ranges.
#[verifier::rlimit(60)]
pub proof fn lemma_toml_round_trip(m: ConfigModel)
    ensures
        config_from_toml(toml_text(m)) == Some(clamped(m)),
{
    let lines = written_lines(m);
    let pairs = written_pairs(m);
    lemma_written_lines(m);
    assert forall|i: int| 0 <= i < lines.len() implies parse_line(#[trigger] lines[i])
        == TomlLine::Pair(pairs[i].0, pairs[i].1) by {}
    lemma_table_of_pairs(lines, pairs);
    lemma_written_pairs(m);
    assert(value_of(pairs, key_of(0)) == Some(pairs[0].1));
    assert(value_of(pairs, key_of(1)) == Some(pairs[1].1));
    assert(value_of(pairs, key_of(2)) == Some(pairs[2].1));
    assert(value_of(pairs, key_of(3)) == Some(pairs[3].1));
    assert(value_of(pairs, key_of(4)) == Some(pairs[4].1));
    assert(value_of(pairs, key_of(5)) == Some(pairs[5].1));
    assert(value_of(pairs, key_of(6)) == Some(pairs[6].1));
    assert(value_of(pairs, key_of(7)) == Some(pairs[7].1));
    assert(value_of(pairs, key_of(8)) == Some(pairs[8].1));
}

/// Whatever a settings file says, what is loaded from it lies within the
/// supported ranges.
pub proof fn lemma_loaded_settings_in_range(text: Seq<char>)
    ensures
        config_from_text(text) matches Some(m) ==> in_range(m),
{
}


/// A key that no setting has.
pub open spec fn unknown_key(k: Seq<char>) -> bool {
    forall|i: int| 0 <= i < 9 ==> k != #[trigger] key_of(i)
}

/// Once a table header has been read, no line gives a top-level pair,
/// and reading stays inside a table: what stands under a header is never
/// a setting.
pub proof fn lemma_nothing_top_level_after_a_header(st: DocState, l: Seq<char>)
    requires
        st.in_table,
    ensures
        doc_line(st, l) matches Some((next, pair)) ==> next.in_table && pair is None,
{
}

/// Unknown keys are ignored: a line that gives no setting - a blank line
/// or a comment, a table header, a pair whose key no setting has, a pair
/// under a header, a line of a value running on - leaves the settings
/// that a file's lines give as they were.
pub proof fn lemma_line_without_a_setting(lines: Seq<Seq<char>>, l: Seq<char>)
    requires
        doc_of(lines) is Some,
        doc_line((doc_of(lines)->0).0, l) is Some,
        (doc_line((doc_of(lines)->0).0, l)->0).1 matches Some(p) ==> unknown_key(p.0),
    ensures
        doc_of(lines.push(l)) is Some,
        config_from_table((doc_of(lines.push(l))->0).1) == config_from_table((doc_of(lines)->0).1),
{
    let longer = lines.push(l);
    assert(longer.drop_last() =~= lines);
    assert(longer.last() == l);
    let pairs = (doc_of(lines)->0).1;
    match (doc_line((doc_of(lines)->0).0, l)->0).1 {
        Some(p) => {
            let more = pairs.push(p);
            assert(more.drop_last() =~= pairs);
            assert(more.last() == p);
            assert(p.0 != key_of(0));
            assert(p.0 != key_of(1));
            assert(p.0 != key_of(2));
            assert(p.0 != key_of(3));
            assert(p.0 != key_of(4));
            assert(p.0 != key_of(5));
            assert(p.0 != key_of(6));
            assert(p.0 != key_of(7));
            assert(p.0 != key_of(8));
            assert(value_of(more, key_device_name()) == value_of(pairs, key_device_name()));
            assert(value_of(more, key_sample_rate()) == value_of(pairs, key_sample_rate()));
            assert(value_of(more, key_input_channel()) == value_of(pairs, key_input_channel()));
            assert(value_of(more, key_volume_pct()) == value_of(pairs, key_volume_pct()));
            assert(value_of(more, key_preroll_ms()) == value_of(pairs, key_preroll_ms()));
            assert(value_of(more, key_latency_ms()) == value_of(pairs, key_latency_ms()));
            assert(value_of(more, key_max_loop_secs()) == value_of(pairs, key_max_loop_secs()));
            assert(value_of(more, key_max_layers()) == value_of(pairs, key_max_layers()));
            assert(value_of(more, key_long_press_ms()) == value_of(pairs, key_long_press_ms()));
        },
        None => {},
    }
}

} // verus!
