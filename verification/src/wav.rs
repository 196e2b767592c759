// Mono 32-bit PCM WAV, by hand: a header is 44 bytes of little-endian
// fields, which is cheaper than a dependency and leaves the saved loop as
// something any audio editor can open.

use vstd::prelude::*;

verus! {

/// Bytes of header after the RIFF size field, the data chunk's own
/// header included.
pub const HEADER_BYTES: u32 = 36;

pub const FMT_CHUNK_BYTES: u32 = 16;

pub const PCM: u16 = 1;

pub const MONO: u16 = 1;

pub const BITS: u16 = 32;

pub const BYTES_PER_SAMPLE: u32 = 4;

// ---------------------------------------------------------------------
// Little-endian fields
// ---------------------------------------------------------------------

/// The four bytes of `x`, least significant first.
pub open spec fn le32(x: u32) -> Seq<u8> {
    seq![
        (x & 0xff) as u8,
        ((x >> 8u32) & 0xff) as u8,
        ((x >> 16u32) & 0xff) as u8,
        ((x >> 24u32) & 0xff) as u8,
    ]
}

/// The two bytes of `x`, least significant first.
pub open spec fn le16(x: u16) -> Seq<u8> {
    seq![(x & 0xff) as u8, ((x >> 8u16) & 0xff) as u8]
}

/// The `u32` whose little-endian bytes are these.
pub open spec fn from_le32(b0: u8, b1: u8, b2: u8, b3: u8) -> u32 {
    (b0 as u32) | ((b1 as u32) << 8u32) | ((b2 as u32) << 16u32) | ((b3 as u32) << 24u32)
}

/// The `u16` whose little-endian bytes are these.
pub open spec fn from_le16(b0: u8, b1: u8) -> u16 {
    (b0 as u16) | ((b1 as u16) << 8u16)
}

/// The `u32` stored little-endian at `at`.
pub open spec fn u32_at(bytes: Seq<u8>, at: int) -> u32 {
    from_le32(bytes[at], bytes[at + 1], bytes[at + 2], bytes[at + 3])
}

/// The `u16` stored little-endian at `at`.
pub open spec fn u16_at(bytes: Seq<u8>, at: int) -> u16 {
    from_le16(bytes[at], bytes[at + 1])
}

/// A sample as the four bytes a 32-bit PCM file stores it in.
pub open spec fn sample_bytes(sample: i32) -> Seq<u8> {
    le32(sample as u32)
}

/// The samples stored one after another.
pub open spec fn samples_bytes(samples: Seq<i32>) -> Seq<u8>
    decreases samples.len(),
{
    if samples.len() == 0 {
        Seq::empty()
    } else {
        samples_bytes(samples.drop_last()) + sample_bytes(samples.last())
    }
}

/// Every whole sample in `body`, in order; a trailing partial one is
/// ignored.
pub open spec fn body_samples(body: Seq<u8>) -> Seq<i32> {
    Seq::new(
        body.len() / 4,
        |i: int| u32_at(body, 4 * i) as i32,
    )
}

pub open spec fn riff_tag() -> Seq<u8> {
    seq![0x52u8, 0x49u8, 0x46u8, 0x46u8]
}

pub open spec fn wave_tag() -> Seq<u8> {
    seq![0x57u8, 0x41u8, 0x56u8, 0x45u8]
}

pub open spec fn fmt_tag() -> Seq<u8> {
    seq![0x66u8, 0x6du8, 0x74u8, 0x20u8]
}

pub open spec fn data_tag() -> Seq<u8> {
    seq![0x64u8, 0x61u8, 0x74u8, 0x61u8]
}

/// The 44 bytes in front of `data_bytes` bytes of samples: a RIFF
/// header, a format chunk for mono 32-bit PCM at `sample_rate`, and the
/// data chunk's header.
pub open spec fn wav_header(data_bytes: u32, sample_rate: u32) -> Seq<u8> {
    let size = le32((36 + data_bytes) as u32);
    let rate = le32(sample_rate);
    let byte_rate = le32((sample_rate * 4) as u32);
    let data = le32(data_bytes);
    seq![
        0x52u8, 0x49u8, 0x46u8, 0x46u8, size[0], size[1], size[2], size[3],
        0x57u8, 0x41u8, 0x56u8, 0x45u8, 0x66u8, 0x6du8, 0x74u8, 0x20u8,
        16u8, 0u8, 0u8, 0u8, 1u8, 0u8, 1u8, 0u8,
        rate[0], rate[1], rate[2], rate[3], byte_rate[0], byte_rate[1], byte_rate[2], byte_rate[3],
        4u8, 0u8, 32u8, 0u8, 0x64u8, 0x61u8, 0x74u8, 0x61u8,
        data[0], data[1], data[2], data[3],
    ]
}

/// The file `encode` writes: the header, then every sample.
pub open spec fn wav_bytes(samples: Seq<i32>, sample_rate: u32) -> Seq<u8> {
    wav_header((samples.len() * 4) as u32, sample_rate) + samples_bytes(samples)
}

/// Walks the chunks from `at` on, keeping the last format and data chunks
/// seen, and gives back what they held once the chunks run out. Any chunk
/// that claims more bytes than are there, or a format chunk for anything
/// but mono 32-bit PCM, makes the whole file unreadable.
pub open spec fn walk_chunks(
    bytes: Seq<u8>,
    at: int,
    rate: Option<u32>,
    samples: Option<Seq<i32>>,
) -> Option<(Seq<i32>, u32)>
    decreases bytes.len() + 1 - at,
{
    if 0 <= at && at + 8 <= bytes.len() {
        let id = bytes.subrange(at, at + 4);
        let size = u32_at(bytes, at + 4) as int;
        let body = at + 8;
        let next = at + 8 + size + size % 2;
        if body + size > bytes.len() {
            None
        } else if id == fmt_tag() {
            if size < 16 {
                None
            } else if u16_at(bytes, body) != 1 || u16_at(bytes, body + 2) != 1 || u16_at(
                bytes,
                body + 14,
            ) != 32 {
                None
            } else {
                walk_chunks(bytes, next, Some(u32_at(bytes, body + 4)), samples)
            }
        } else if id == data_tag() {
            walk_chunks(bytes, next, rate, Some(body_samples(bytes.subrange(body, body + size))))
        } else {
            walk_chunks(bytes, next, rate, samples)
        }
    } else {
        match (samples, rate) {
            (Some(s), Some(r)) => Some((s, r)),
            _ => None,
        }
    }
}

/// The samples and rate of a mono 32-bit PCM WAV, or nothing if `bytes`
/// isn't one.
pub open spec fn decode_spec(bytes: Seq<u8>) -> Option<(Seq<i32>, u32)> {
    if bytes.len() < 12 || bytes.subrange(0, 4) != riff_tag() || bytes.subrange(8, 12)
        != wave_tag() {
        None
    } else {
        walk_chunks(bytes, 12, None, None)
    }
}

// ---------------------------------------------------------------------
// Writing
// ---------------------------------------------------------------------

fn push_u32(out: &mut Vec<u8>, x: u32)
    ensures
        final(out)@ == old(out)@ + le32(x),
{
    out.push((x & 0xff) as u8);
    out.push(((x >> 8u32) & 0xff) as u8);
    out.push(((x >> 16u32) & 0xff) as u8);
    out.push(((x >> 24u32) & 0xff) as u8);
    assert(final(out)@ =~= old(out)@ + le32(x));
}

fn push_u16(out: &mut Vec<u8>, x: u16)
    ensures
        final(out)@ == old(out)@ + le16(x),
{
    out.push((x & 0xff) as u8);
    out.push(((x >> 8u16) & 0xff) as u8);
    assert(final(out)@ =~= old(out)@ + le16(x));
}

fn push_tag(out: &mut Vec<u8>, a: u8, b: u8, c: u8, d: u8)
    ensures
        final(out)@ == old(out)@ + seq![a, b, c, d],
{
    out.push(a);
    out.push(b);
    out.push(c);
    out.push(d);
    assert(final(out)@ =~= old(out)@ + seq![a, b, c, d]);
}

/// A mono 32-bit PCM WAV holding `samples` at `sample_rate`. The sizes
/// it records have to fit the 32-bit fields the format gives them.
pub fn encode(samples: &[i32], sample_rate: u32) -> (wav: Vec<u8>)
    requires
        samples@.len() * 4 + 36 <= u32::MAX,
        sample_rate * 4 <= u32::MAX,
    ensures
        wav@ == wav_bytes(samples@, sample_rate),
{
    let n = samples.len();
    let data_bytes: u32 = (n * 4) as u32;
    let mut wav: Vec<u8> = Vec::new();
    push_tag(&mut wav, 0x52, 0x49, 0x46, 0x46);
    push_u32(&mut wav, HEADER_BYTES + data_bytes);
    push_tag(&mut wav, 0x57, 0x41, 0x56, 0x45);
    push_tag(&mut wav, 0x66, 0x6d, 0x74, 0x20);
    push_u32(&mut wav, FMT_CHUNK_BYTES);
    push_u16(&mut wav, PCM);
    push_u16(&mut wav, MONO);
    push_u32(&mut wav, sample_rate);
    push_u32(&mut wav, sample_rate * BYTES_PER_SAMPLE);
    push_u16(&mut wav, 4);
    push_u16(&mut wav, BITS);
    push_tag(&mut wav, 0x64, 0x61, 0x74, 0x61);
    push_u32(&mut wav, data_bytes);
    let ghost header = wav@;
    proof {
        lemma_fixed_fields();
    }
    assert(header =~= wav_header(data_bytes, sample_rate));
    let mut i: usize = 0;
    while i < n
        invariant
            i <= n,
            n == samples@.len(),
            header == wav_header(data_bytes, sample_rate),
            data_bytes == (samples@.len() * 4) as u32,
            wav@ == header + samples_bytes(samples@.take(i as int)),
        decreases n - i,
    {
        push_u32(&mut wav, samples[i] as u32);
        assert(samples@.take(i as int + 1).drop_last() =~= samples@.take(i as int));
        i = i + 1;
    }
    assert(samples@.take(n as int) =~= samples@);
    wav
}

// ---------------------------------------------------------------------
// Reading
// ---------------------------------------------------------------------

fn read_u32(bytes: &[u8], at: usize) -> (x: u32)
    requires
        at + 4 <= bytes@.len(),
    ensures
        x == u32_at(bytes@, at as int),
{
    (bytes[at] as u32) | ((bytes[at + 1] as u32) << 8u32) | ((bytes[at + 2] as u32) << 16u32) | ((
    bytes[at + 3] as u32) << 24u32)
}

fn read_u16(bytes: &[u8], at: usize) -> (x: u16)
    requires
        at + 2 <= bytes@.len(),
    ensures
        x == u16_at(bytes@, at as int),
{
    (bytes[at] as u16) | ((bytes[at + 1] as u16) << 8u16)
}

fn tag_at(bytes: &[u8], at: usize, a: u8, b: u8, c: u8, d: u8) -> (is: bool)
    requires
        at + 4 <= bytes@.len(),
    ensures
        is == (bytes@.subrange(at as int, at + 4) == seq![a, b, c, d]),
{
    let is = bytes[at] == a && bytes[at + 1] == b && bytes[at + 2] == c && bytes[at + 3] == d;
    if is {
        assert(bytes@.subrange(at as int, at + 4) =~= seq![a, b, c, d]);
    } else {
        proof {
            if bytes@.subrange(at as int, at + 4) == seq![a, b, c, d] {
                assert(bytes@.subrange(at as int, at + 4)[0] == a);
                assert(bytes@.subrange(at as int, at + 4)[1] == b);
                assert(bytes@.subrange(at as int, at + 4)[2] == c);
                assert(bytes@.subrange(at as int, at + 4)[3] == d);
            }
        }
    }
    is
}

fn read_samples(bytes: &[u8], from: usize, size: usize) -> (samples: Vec<i32>)
    requires
        from + size <= bytes@.len(),
    ensures
        samples@ == body_samples(bytes@.subrange(from as int, from + size)),
{
    let ghost body = bytes@.subrange(from as int, from + size);
    let count = size / 4;
    let mut samples: Vec<i32> = Vec::new();
    let mut i: usize = 0;
    while i < count
        invariant
            i <= count,
            count == size / 4,
            from + size <= bytes.len(),
            body == bytes@.subrange(from as int, from + size),
            samples@ == body_samples(body).take(i as int),
        decreases count - i,
    {
        assert(4 * i + 4 <= size) by (nonlinear_arith)
            requires
                i < count,
                count == size / 4,
        ;
        let x = read_u32(bytes, from + 4 * i);
        assert(u32_at(body, 4 * i) == u32_at(bytes@, from + 4 * i));
        samples.push(#[verifier::truncate] (x as i32));
        assert(samples@ =~= body_samples(body).take(i as int + 1));
        i = i + 1;
    }
    assert(body_samples(body).take(count as int) =~= body_samples(body));
    samples
}

spec fn seq_of(samples: Option<Vec<i32>>) -> Option<Seq<i32>> {
    match samples {
        Some(v) => Some(v@),
        None => None,
    }
}

/// The samples and the rate they were recorded at, or `None` if this
/// isn't a mono 32-bit PCM WAV.
///
/// Chunks can arrive in any order, and files often carry ones we don't
/// care about, so this walks them rather than assuming the layout
/// `encode` writes.
pub fn decode(bytes: &[u8]) -> (decoded: Option<(Vec<i32>, u32)>)
    ensures
        match decoded {
            Some((samples, rate)) => decode_spec(bytes@) == Some((samples@, rate)),
            None => decode_spec(bytes@).is_none(),
        },
{
    let len = bytes.len();
    if len < 12 || !tag_at(bytes, 0, 0x52, 0x49, 0x46, 0x46) || !tag_at(
        bytes,
        8,
        0x57,
        0x41,
        0x56,
        0x45,
    ) {
        return None;
    }
    let mut sample_rate: Option<u32> = None;
    let mut samples: Option<Vec<i32>> = None;
    let mut at: usize = 12;
    while at <= len && len - at >= 8
        invariant
            len == bytes@.len(),
            12 <= at,
            walk_chunks(bytes@, 12, None, None) == walk_chunks(
                bytes@,
                at as int,
                sample_rate,
                seq_of(samples),
            ),
        decreases len - at,
    {
        let ghost before_rate = sample_rate;
        let ghost before_samples = seq_of(samples);
        let size = read_u32(bytes, at + 4) as usize;
        let body = at + 8;
        if size > len - body {
            return None;
        }
        let padding: usize = size % 2;
        if tag_at(bytes, at, 0x66, 0x6d, 0x74, 0x20) {
            if size < 16 {
                return None;
            }
            let format = read_u16(bytes, body);
            let channels = read_u16(bytes, body + 2);
            let bits = read_u16(bytes, body + 14);
            if format != PCM || channels != MONO || bits != BITS {
                return None;
            }
            sample_rate = Some(read_u32(bytes, body + 4));
        } else if tag_at(bytes, at, 0x64, 0x61, 0x74, 0x61) {
            samples = Some(read_samples(bytes, body, size));
        }
        let ghost after_samples = seq_of(samples);
        let ghost next = (at + 8 + size + size % 2) as int;
        assert(walk_chunks(bytes@, at as int, before_rate, before_samples) == walk_chunks(
            bytes@,
            next,
            sample_rate,
            after_samples,
        ));
        if size + padding > len - body {
            assert(walk_chunks(bytes@, next, sample_rate, after_samples) == walk_chunks(
                bytes@,
                len as int,
                sample_rate,
                after_samples,
            ));
            at = len;
        } else {
            at = body + size + padding;
        }
    }
    match (samples, sample_rate) {
        (Some(samples), Some(rate)) => Some((samples, rate)),
        _ => None,
    }
}

// ---------------------------------------------------------------------
// The promise
// ---------------------------------------------------------------------

/// The fields whose value never changes, as bytes.
proof fn lemma_fixed_fields()
    ensures
        le32(16) == seq![16u8, 0u8, 0u8, 0u8],
        le16(1) == seq![1u8, 0u8],
        le16(4) == seq![4u8, 0u8],
        le16(32) == seq![32u8, 0u8],
        from_le32(16u8, 0u8, 0u8, 0u8) == 16u32,
        from_le16(1u8, 0u8) == 1u16,
        from_le16(32u8, 0u8) == 32u16,
{
    assert((16u32 & 0xff) as u8 == 16u8 && ((16u32 >> 8u32) & 0xff) as u8 == 0u8 && ((16u32
        >> 16u32) & 0xff) as u8 == 0u8 && ((16u32 >> 24u32) & 0xff) as u8 == 0u8) by (bit_vector);
    assert((1u16 & 0xff) as u8 == 1u8 && ((1u16 >> 8u16) & 0xff) as u8 == 0u8) by (bit_vector);
    assert((4u16 & 0xff) as u8 == 4u8 && ((4u16 >> 8u16) & 0xff) as u8 == 0u8) by (bit_vector);
    assert((32u16 & 0xff) as u8 == 32u8 && ((32u16 >> 8u16) & 0xff) as u8 == 0u8) by (bit_vector);
    assert(le32(16) =~= seq![16u8, 0u8, 0u8, 0u8]);
    assert(le16(1) =~= seq![1u8, 0u8]);
    assert(le16(4) =~= seq![4u8, 0u8]);
    assert(le16(32) =~= seq![32u8, 0u8]);
    assert(((16u8 as u32) | ((0u8 as u32) << 8u32) | ((0u8 as u32) << 16u32) | ((0u8 as u32)
        << 24u32)) == 16u32) by (bit_vector);
    assert(((1u8 as u16) | ((0u8 as u16) << 8u16)) == 1u16) by (bit_vector);
    assert(((32u8 as u16) | ((0u8 as u16) << 8u16)) == 32u16) by (bit_vector);
}

proof fn lemma_le32_round_trip(x: u32)
    ensures
        from_le32(le32(x)[0], le32(x)[1], le32(x)[2], le32(x)[3]) == x,
{
    let b0 = (x & 0xff) as u8;
    let b1 = ((x >> 8u32) & 0xff) as u8;
    let b2 = ((x >> 16u32) & 0xff) as u8;
    let b3 = ((x >> 24u32) & 0xff) as u8;
    assert(((b0 as u32) | ((b1 as u32) << 8u32) | ((b2 as u32) << 16u32) | ((b3 as u32) << 24u32))
        == x) by (bit_vector)
        requires
            b0 == (x & 0xff) as u8,
            b1 == ((x >> 8u32) & 0xff) as u8,
            b2 == ((x >> 16u32) & 0xff) as u8,
            b3 == ((x >> 24u32) & 0xff) as u8,
    ;
}

proof fn lemma_sample_round_trip(sample: i32)
    ensures
        (from_le32(
            sample_bytes(sample)[0],
            sample_bytes(sample)[1],
            sample_bytes(sample)[2],
            sample_bytes(sample)[3],
        ) as i32) == sample,
{
    lemma_le32_round_trip(sample as u32);
    assert(((sample as u32) as i32) == sample) by (bit_vector);
}

proof fn lemma_samples_bytes_len(samples: Seq<i32>)
    ensures
        samples_bytes(samples).len() == samples.len() * 4,
    decreases samples.len(),
{
    if samples.len() > 0 {
        lemma_samples_bytes_len(samples.drop_last());
    }
}

proof fn lemma_samples_bytes_read_back(samples: Seq<i32>)
    ensures
        body_samples(samples_bytes(samples)) == samples,
    decreases samples.len(),
{
    lemma_samples_bytes_len(samples);
    if samples.len() > 0 {
        let rest = samples.drop_last();
        lemma_samples_bytes_read_back(rest);
        lemma_samples_bytes_len(rest);
        let all = samples_bytes(samples);
        let front = samples_bytes(rest);
        assert forall|i: int| 0 <= i < samples.len() implies #[trigger] body_samples(all)[i]
            == samples[i] by {
            if i < rest.len() {
                assert(u32_at(all, 4 * i) == u32_at(front, 4 * i));
                assert(body_samples(front)[i] == rest[i]);
            } else {
                lemma_sample_round_trip(samples.last());
            }
        }
        assert(body_samples(all) =~= samples);
    }
}

/// What `encode` writes, `decode` reads back exactly: the same samples at
/// the same rate. This is the promise that a saved loop reloads bit for
/// bit.
#[verifier::rlimit(50)]
pub proof fn lemma_wav_round_trip(samples: Seq<i32>, sample_rate: u32)
    requires
        samples.len() * 4 + 36 <= u32::MAX,
        sample_rate * 4 <= u32::MAX,
    ensures
        decode_spec(wav_bytes(samples, sample_rate)) == Some((samples, sample_rate)),
{
    let data_bytes = (samples.len() * 4) as u32;
    let header = wav_header(data_bytes, sample_rate);
    let body = samples_bytes(samples);
    let b = header + body;
    lemma_samples_bytes_len(samples);
    lemma_samples_bytes_read_back(samples);
    lemma_le32_round_trip(data_bytes);
    lemma_le32_round_trip(sample_rate);
    assert(header.len() == 44);
    assert forall|i: int| 0 <= i < 44 implies #[trigger] b[i] == header[i] by {}
    assert(b.subrange(0, 4) =~= riff_tag());
    assert(b.subrange(8, 12) =~= wave_tag());
    assert(b.subrange(12, 16) =~= fmt_tag());
    assert(b.subrange(36, 40) =~= data_tag());
    lemma_fixed_fields();
    assert(u32_at(b, 16) == 16);
    assert(u16_at(b, 20) == 1);
    assert(u16_at(b, 22) == 1);
    assert(u16_at(b, 34) == 32);
    assert(u32_at(b, 24) == sample_rate);
    assert(u32_at(b, 40) == data_bytes);
    assert(b.subrange(44, 44 + data_bytes as int) =~= body);
    assert((data_bytes as int) % 2 == 0);

    assert(walk_chunks(b, 36, Some(sample_rate), None) == walk_chunks(
        b,
        b.len() as int,
        Some(sample_rate),
        Some(body_samples(body)),
    ));
}

/// Walking chunks reads only what lies at and after the walk's position,
/// so the same bytes behind two different prefixes walk the same way.
proof fn lemma_walk_shift(
    p1: Seq<u8>,
    p2: Seq<u8>,
    rest: Seq<u8>,
    i: int,
    rate: Option<u32>,
    samples: Option<Seq<i32>>,
)
    requires
        0 <= i,
    ensures
        walk_chunks(p1 + rest, p1.len() + i, rate, samples) == walk_chunks(
            p2 + rest,
            p2.len() + i,
            rate,
            samples,
        ),
    decreases rest.len() + 1 - i,
{
    let a = p1 + rest;
    let b = p2 + rest;
    let x = p1.len() + i;
    let y = p2.len() + i;
    if i + 8 <= rest.len() {
        assert(a.subrange(x, x + 4) =~= rest.subrange(i, i + 4));
        assert(b.subrange(y, y + 4) =~= rest.subrange(i, i + 4));
        assert(u32_at(a, x + 4) == u32_at(b, y + 4)) by {
            assert(a[x + 4] == b[y + 4] && a[x + 5] == b[y + 5] && a[x + 6] == b[y + 6] && a[x + 7]
                == b[y + 7]);
        }
        let size = u32_at(a, x + 4) as int;
        let next = i + 8 + size + size % 2;
        if i + 8 + size <= rest.len() {
            assert(a.subrange(x + 8, x + 8 + size) =~= b.subrange(y + 8, y + 8 + size));
            if size >= 16 {
                assert(u16_at(a, x + 8) == u16_at(b, y + 8));
                assert(u16_at(a, x + 10) == u16_at(b, y + 10));
                assert(u16_at(a, x + 22) == u16_at(b, y + 22));
                assert(u32_at(a, x + 12) == u32_at(b, y + 12)) by {
                    assert(a[x + 12] == b[y + 12] && a[x + 13] == b[y + 13] && a[x + 14] == b[y
                        + 14] && a[x + 15] == b[y + 15]);
                }
            }
            let fmt_rate = Some(u32_at(a, x + 12));
            let data = Some(body_samples(a.subrange(x + 8, x + 8 + size)));
            lemma_walk_shift(p1, p2, rest, next, fmt_rate, samples);
            lemma_walk_shift(p1, p2, rest, next, rate, data);
            lemma_walk_shift(p1, p2, rest, next, rate, samples);
        }
    }
}

/// A chunk of a kind the reader does not know, spliced in before the
/// samples, is stepped over: the file still reads back as what was
/// written, whatever its RIFF size field then says (grown to count the
/// chunk, or left as it was). The chunk's body is padded to an even
/// length, as RIFF asks.
pub proof fn lemma_unknown_chunk_is_skipped(
    samples: Seq<i32>,
    sample_rate: u32,
    id: Seq<u8>,
    body: Seq<u8>,
    riff_size: u32,
)
    requires
        samples.len() * 4 + 36 <= u32::MAX,
        sample_rate * 4 <= u32::MAX,
        id.len() == 4,
        id != fmt_tag(),
        id != data_tag(),
        body.len() <= u32::MAX,
    ensures
        ({
            let written = wav_bytes(samples, sample_rate);
            let pad = if body.len() % 2 == 1 {
                seq![0u8]
            } else {
                Seq::<u8>::empty()
            };
            let chunk = id + le32(body.len() as u32) + body + pad;
            let head = written.take(4) + le32(riff_size) + written.subrange(8, 36);
            decode_spec(head + chunk + written.skip(36)) == Some((samples, sample_rate))
        }),
{
    let written = wav_bytes(samples, sample_rate);
    let pad = if body.len() % 2 == 1 {
        seq![0u8]
    } else {
        Seq::<u8>::empty()
    };
    let size = le32(body.len() as u32);
    let chunk = id + size + body + pad;
    let head = written.take(4) + le32(riff_size) + written.subrange(8, 36);
    let rest = written.skip(36);
    let spliced = head + chunk + rest;
    lemma_wav_round_trip(samples, sample_rate);
    lemma_samples_bytes_len(samples);
    lemma_le32_round_trip(body.len() as u32);
    lemma_le32_round_trip(sample_rate);
    lemma_fixed_fields();
    let data_bytes = (samples.len() * 4) as u32;
    lemma_le32_round_trip(data_bytes);
    assert(written.len() >= 44);
    assert(written =~= written.take(36) + rest);
    // The format chunk reads the same from both.
    assert forall|k: int| 0 <= k < 36 && !(4 <= k < 8) implies #[trigger] spliced[k] == written[k] by {}
    assert(spliced.subrange(0, 4) =~= written.subrange(0, 4));
    assert(spliced.subrange(8, 12) =~= written.subrange(8, 12));
    assert(spliced.subrange(12, 16) =~= written.subrange(12, 16));
    assert(u32_at(spliced, 16) == u32_at(written, 16));
    assert(u16_at(spliced, 20) == u16_at(written, 20));
    assert(u16_at(spliced, 22) == u16_at(written, 22));
    assert(u16_at(spliced, 34) == u16_at(written, 34));
    assert(u32_at(spliced, 24) == u32_at(written, 24));
    assert(written.subrange(0, 4) =~= riff_tag());
    assert(written.subrange(8, 12) =~= wave_tag());
    assert(written.subrange(12, 16) =~= fmt_tag());
    assert(u32_at(written, 16) == 16);
    assert(u16_at(written, 20) == 1);
    assert(u16_at(written, 22) == 1);
    assert(u16_at(written, 34) == 32);
    assert(u32_at(written, 24) == sample_rate);
    // The spliced chunk is stepped over.
    assert(spliced.subrange(36, 40) =~= id);
    assert(u32_at(spliced, 40) == body.len());
    assert(chunk.len() == 8 + body.len() + body.len() % 2);
    assert(spliced =~= (head + chunk) + rest);
    lemma_walk_shift(head + chunk, written.take(36), rest, 0, Some(sample_rate), None);
    assert(walk_chunks(spliced, 36, Some(sample_rate), None) == walk_chunks(
        spliced,
        36 + chunk.len() as int,
        Some(sample_rate),
        None,
    ));
    assert(walk_chunks(spliced, 12, None, None) == walk_chunks(
        spliced,
        36,
        Some(sample_rate),
        None,
    ));
    assert(walk_chunks(written, 12, None, None) == walk_chunks(
        written,
        36,
        Some(sample_rate),
        None,
    ));
}

/// Every file `encode` writes is 44 bytes of header and four bytes a
/// sample, and its RIFF size counts everything after the size field
/// itself.
pub proof fn lemma_wav_layout(samples: Seq<i32>, sample_rate: u32)
    requires
        samples.len() * 4 + 36 <= u32::MAX,
    ensures
        wav_bytes(samples, sample_rate).len() == 44 + 4 * samples.len(),
        u32_at(wav_bytes(samples, sample_rate), 4) == wav_bytes(samples, sample_rate).len() - 8,
{
    let data_bytes = (samples.len() * 4) as u32;
    let b = wav_bytes(samples, sample_rate);
    lemma_samples_bytes_len(samples);
    lemma_le32_round_trip((36 + data_bytes) as u32);
    assert(b[4] == wav_header(data_bytes, sample_rate)[4]);
    assert(b[5] == wav_header(data_bytes, sample_rate)[5]);
    assert(b[6] == wav_header(data_bytes, sample_rate)[6]);
    assert(b[7] == wav_header(data_bytes, sample_rate)[7]);
}

} // verus!
