use vstd::prelude::*;

use crate::minify::MinifyError;
use vstd::string::StringSliceAdditionalSpecFns;

verus! {

/// Information about a previous minification, read back from the marker.
#[derive(Debug, Clone)]
pub struct MinificationInfo {
    pub quality: Option<u8>,
    pub lossless: bool,
    /// The recorded size reduction, in tenths of a percent.
    pub reduction_pct_tenths: u32,
    pub timestamp: Option<String>,
}

/// One round of the CRC-32 shift register (reflected polynomial).
pub open spec fn crc_round(c: u32) -> u32 {
    if c & 1 == 1 {
        0xEDB88320u32 ^ (c >> 1)
    } else {
        c >> 1
    }
}

/// `k` rounds of the CRC-32 shift register.
pub open spec fn crc_rounds(c: u32, k: int) -> u32
    decreases k when k >= 0
{
    if k <= 0 {
        c
    } else {
        crc_round(crc_rounds(c, k - 1))
    }
}

/// The register after absorbing one byte.
pub open spec fn crc_byte(c: u32, b: u8) -> u32 {
    crc_rounds(c ^ (b as u32), 8)
}

/// The register after absorbing `data[i ..]`.
pub open spec fn crc_from(c: u32, data: Seq<u8>, i: int) -> u32
    decreases data.len() - i when i >= 0
{
    if i < 0 || i >= data.len() {
        c
    } else {
        crc_from(crc_byte(c, data[i]), data, i + 1)
    }
}

/// The CRC-32 checksum of a byte sequence, as the PNG container uses it.
pub open spec fn spec_crc32(data: Seq<u8>) -> u32 {
    crc_from(0xFFFFFFFFu32, data, 0) ^ 0xFFFFFFFFu32
}

/// Compute the CRC-32 checksum of a byte sequence.
pub fn crc32(data: &Vec<u8>) -> (r: u32)
    ensures
        r == spec_crc32(data@),
{
    let n: usize = data.len();
    let mut c: u32 = 0xFFFFFFFF;
    let mut i: usize = 0;
    while i < n
        invariant
            n == data@.len(),
            i <= n,
            crc_from(c, data@, i as int) == crc_from(0xFFFFFFFFu32, data@, 0),
        decreases n - i,
    {
        let b: u8 = data[i];
        let mut cb: u32 = c ^ (b as u32);
        let mut k: usize = 0;
        while k < 8
            invariant
                k <= 8,
                crc_rounds(c ^ (b as u32), k as int) == cb,
            decreases 8 - k,
        {
            cb = if cb & 1 == 1 {
                0xEDB88320u32 ^ (cb >> 1)
            } else {
                cb >> 1
            };
            k = k + 1;
        }
        proof {
            assert(cb == crc_byte(c, data@[i as int]));
        }
        c = cb;
        i = i + 1;
    }
    c ^ 0xFFFFFFFF
}

/// The marker text that identifies files minified by this tool, with the
/// terminating NUL that PNG text chunks require.
pub open spec fn marker_bytes() -> Seq<u8> {
    seq![
        77u8, 105u8, 110u8, 105u8, 80u8, 78u8, 71u8, 32u8, 98u8, 121u8, 32u8, 80u8, 46u8, 32u8,
        65u8, 110u8, 100u8, 114u8, 105u8, 97u8, 110u8, 46u8, 0u8,
    ]
}

/// Push the marker text ("MiniPNG by P. Andrian." and a NUL) onto `v`.
fn push_marker_bytes(v: &mut Vec<u8>)
    ensures
        final(v)@ =~= old(v)@ + marker_bytes(),
{
    v.push(77);
    v.push(105);
    v.push(110);
    v.push(105);
    v.push(80);
    v.push(78);
    v.push(71);
    v.push(32);
    v.push(98);
    v.push(121);
    v.push(32);
    v.push(80);
    v.push(46);
    v.push(32);
    v.push(65);
    v.push(110);
    v.push(100);
    v.push(114);
    v.push(105);
    v.push(97);
    v.push(110);
    v.push(46);
    v.push(0);
}

/// The big-endian 32-bit value at offset `p`.
pub open spec fn be32_at(d: Seq<u8>, p: int) -> int {
    0x1000000 * d[p] + 0x10000 * d[p + 1] + 0x100 * d[p + 2] + d[p + 3]
}

/// The bytes start with the eight-byte PNG signature.
pub open spec fn is_png_signature(d: Seq<u8>) -> bool {
    &&& d.len() >= 8
    &&& d[0] == 137u8
    &&& d[1] == 80u8
    &&& d[2] == 78u8
    &&& d[3] == 71u8
    &&& d[4] == 13u8
    &&& d[5] == 10u8
    &&& d[6] == 26u8
    &&& d[7] == 10u8
}

/// Check the PNG signature.
fn has_png_signature(d: &Vec<u8>) -> (r: bool)
    ensures
        r == is_png_signature(d@),
{
    d.len() >= 8 && d[0] == 137 && d[1] == 80 && d[2] == 78 && d[3] == 71 && d[4] == 13 && d[5]
        == 10 && d[6] == 26 && d[7] == 10
}

/// The chunk at `pos` is a text chunk.
pub open spec fn is_text_chunk(d: Seq<u8>, pos: int) -> bool {
    d[pos + 4] == 116u8 && d[pos + 5] == 69u8 && d[pos + 6] == 88u8 && d[pos + 7] == 116u8
}

/// The chunk at `pos` is the image-end chunk.
pub open spec fn is_iend_chunk(d: Seq<u8>, pos: int) -> bool {
    d[pos + 4] == 73u8 && d[pos + 5] == 69u8 && d[pos + 6] == 78u8 && d[pos + 7] == 68u8
}

/// The chunk data at `pos` with length `len` starts with the marker text.
pub open spec fn has_marker_at(d: Seq<u8>, pos: int, len: int) -> bool {
    len >= 23 && d.subrange(pos, pos + 23) =~= marker_bytes()
}

/// Walk the chunks from `pos` looking for a text chunk that carries the
/// marker: the start of that chunk's data, or nothing. Walking stops at a
/// truncated container or at an implausibly large chunk.
pub open spec fn marker_scan(d: Seq<u8>, pos: int) -> Option<int>
    decreases d.len() + 10000012 - pos when pos >= 0
{
    if pos < 0 || pos + 12 > d.len() {
        Option::None
    } else {
        let length = be32_at(d, pos);
        if is_text_chunk(d, pos) && pos + 8 + length <= d.len() && has_marker_at(
            d,
            pos + 8,
            length,
        ) {
            Option::Some(pos + 8)
        } else if length > 10000000 {
            Option::None
        } else {
            marker_scan(d, pos + 12 + length)
        }
    }
}

/// Walk the chunks from `pos` looking for the image-end chunk: its
/// position, or -1 when the container ends without one, or -2 when a chunk
/// declares an implausibly large length.
pub open spec fn iend_scan(d: Seq<u8>, pos: int) -> int
    decreases d.len() + 10000012 - pos when pos >= 0
{
    if pos < 0 || pos + 12 > d.len() {
        -1int
    } else {
        let length = be32_at(d, pos);
        if is_iend_chunk(d, pos) {
            pos
        } else if length > 10000000 {
            -2int
        } else {
            iend_scan(d, pos + 12 + length)
        }
    }
}

/// Read the big-endian 32-bit length at `p`.
fn read_be32(d: &Vec<u8>, p: usize) -> (r: u64)
    requires
        p + 4 <= d@.len(),
    ensures
        r as int == be32_at(d@, p as int),
        r < 0x1_0000_0000,
{
    let _len: usize = d.len();
    0x1000000 * (d[p] as u64) + 0x10000 * (d[p + 1] as u64) + 0x100 * (d[p + 2] as u64) + (d[p + 3]
        as u64)
}

/// The marker text stands at position `at` of the data.
fn marker_at(d: &Vec<u8>, at: usize) -> (r: bool)
    requires
        at + 23 <= d@.len(),
    ensures
        r == (d@.subrange(at as int, at as int + 23) =~= marker_bytes()),
{
    let nu: usize = d.len();
    let mut m: Vec<u8> = Vec::new();
    push_marker_bytes(&mut m);
    let mut i: usize = 0;
    while i < 23
        invariant
            m@ =~= marker_bytes(),
            at + 23 <= d@.len(),
            d@.len() == nu,
            i <= 23,
            forall|j: int| 0 <= j < i ==> d@[at as int + j] == marker_bytes()[j],
        decreases 23 - i,
    {
        if d[at + i] != m[i] {
            proof {
                assert(d@.subrange(at as int, at as int + 23)[i as int] != marker_bytes()[i as int]);
            }
            return false;
        }
        i = i + 1;
    }
    proof {
        assert(d@.subrange(at as int, at as int + 23) =~= marker_bytes());
    }
    true
}

/// Find the marker's text-chunk data by walking the chunks of a PNG.
/// Returns the position of the marker chunk's data, if present.
fn find_marker(d: &Vec<u8>) -> (r: Option<usize>)
    ensures
        match r {
            Option::Some(p) => marker_scan(d@, 8) == Option::Some(p as int),
            Option::None => marker_scan(d@, 8) is None,
        },
{
    let nu: usize = d.len();
    let n: u128 = nu as u128;
    let mut pos: u128 = 8;
    while pos + 12 <= n
        invariant
            n == d@.len(),
            d@.len() == nu,
            8 <= pos <= n + 10000012,
            marker_scan(d@, 8) == marker_scan(d@, pos as int),
        decreases n + 10000012 - pos,
    {
        let p: usize = pos as usize;
        let length: u64 = read_be32(d, p);
        let is_text: bool = d[p + 4] == 116 && d[p + 5] == 69 && d[p + 6] == 88 && d[p + 7] == 116;
        if is_text && pos + 8 + (length as u128) <= n && length >= 23 {
            if marker_at(d, p + 8) {
                return Option::Some(p + 8);
            }
        }
        if length > 10000000 {
            return Option::None;
        }
        pos = pos + 12 + (length as u128);
    }
    Option::None
}

/// Find the image-end chunk by walking the chunks of a PNG. `Ok` carries
/// its position; the errors tell a missing image end from a chunk with an
/// implausibly large length.
fn find_iend(d: &Vec<u8>) -> (r: Result<usize, MinifyError>)
    ensures
        match r {
            Result::Ok(p) => iend_scan(d@, 8) == p as int && p + 12 <= d@.len(),
            Result::Err(e) => (e == MinifyError::MissingImageEnd && iend_scan(d@, 8) == -1) || (e
                == MinifyError::OversizedChunk && iend_scan(d@, 8) == -2),
        },
{
    let nu: usize = d.len();
    let n: u128 = nu as u128;
    let mut pos: u128 = 8;
    while pos + 12 <= n
        invariant
            n == d@.len(),
            d@.len() == nu,
            8 <= pos <= n + 10000012,
            iend_scan(d@, 8) == iend_scan(d@, pos as int),
        decreases n + 10000012 - pos,
    {
        let p: usize = pos as usize;
        let length: u64 = read_be32(d, p);
        let is_iend: bool = d[p + 4] == 73 && d[p + 5] == 69 && d[p + 6] == 78 && d[p + 7] == 68;
        if is_iend {
            return Result::Ok(p);
        }
        if length > 10000000 {
            return Result::Err(MinifyError::OversizedChunk);
        }
        pos = pos + 12 + (length as u128);
    }
    Result::Err(MinifyError::MissingImageEnd)
}

/// Relies on std::str::from_utf8: whether the bytes are valid UTF-8.
#[verifier::external_body]
fn is_valid_utf8(bytes: &Vec<u8>) -> (r: bool)
    ensures
        r == vstd::utf8::valid_utf8(bytes@),
{
    std::str::from_utf8(bytes).is_ok()
}

/// Relies on String::from_utf8: the string whose UTF-8 encoding is exactly
/// the given bytes, if they are valid UTF-8.
#[verifier::external_body]
fn utf8_to_string(bytes: Vec<u8>) -> (r: Option<String>)
    ensures
        (r is Some) == vstd::utf8::valid_utf8(bytes@),
        match r {
            Option::Some(s) => vstd::utf8::encode_utf8(s@) == bytes@,
            Option::None => true,
        },
{
    String::from_utf8(bytes).ok()
}

/// The bytes `d[from .. to]` equal the bytes of `lit`.
fn slice_is(d: &Vec<u8>, from: usize, to: usize, lit: &str) -> (r: bool)
    requires
        from <= to <= d@.len(),
{
    let lb: &[u8] = lit.as_bytes();
    if to - from != lb.len() {
        return false;
    }
    let mut i: usize = 0;
    while i < lb.len()
        invariant
            from <= to <= d@.len(),
            to - from == lb@.len(),
            i <= lb@.len(),
        decreases lb@.len() - i,
    {
        if d[from + i] != lb[i] {
            return false;
        }
        i = i + 1;
    }
    true
}

/// Parse a decimal byte value; anything but 1 to 3 digits in range is refused.
fn parse_u8_dec(d: &Vec<u8>, from: usize, to: usize) -> (r: Option<u8>)
    requires
        from <= to <= d@.len(),
{
    if from == to {
        return Option::None;
    }
    let mut v: u32 = 0;
    let mut i: usize = from;
    while i < to
        invariant
            from <= i <= to <= d@.len(),
            v <= 255,
        decreases to - i,
    {
        let b: u8 = d[i];
        if b < 48 || b > 57 {
            return Option::None;
        }
        let digit: u32 = (b - 48) as u32;
        if v > 25 || (v == 25 && digit > 5) {
            return Option::None;
        }
        v = v * 10 + digit;
        i = i + 1;
    }
    Option::Some(v as u8)
}

/// Parse a decimal number with an optional fraction into tenths, keeping
/// one fractional digit; unparseable text counts as zero.
fn parse_tenths(d: &Vec<u8>, from: usize, to: usize) -> (r: u32)
    requires
        from <= to <= d@.len(),
{
    let mut whole: u64 = 0;
    let mut i: usize = from;
    while i < to
        invariant
            from <= i <= to <= d@.len(),
            whole <= 0xFFFF_FFFF,
        decreases to - i,
    {
        let b: u8 = d[i];
        if b == 46 {
            break ;
        }
        if b < 48 || b > 57 {
            return 0;
        }
        if whole >= 429496729 {
            whole = 429496729;
        } else {
            whole = whole * 10 + ((b - 48) as u64);
        }
        i = i + 1;
    }
    let mut tenth: u64 = 0;
    if i < to {
        if d[i] == 46 && i + 1 < to {
            let b: u8 = d[i + 1];
            if b >= 48 && b <= 57 {
                tenth = (b - 48) as u64;
            }
        }
    }
    let v: u64 = whole * 10 + tenth;
    if v > 0xFFFF_FFFF {
        0xFFFF_FFFF
    } else {
        v as u32
    }
}

/// Copy the bytes `d[from .. to]` into a fresh vector.
fn copy_range(d: &Vec<u8>, from: usize, to: usize) -> (r: Vec<u8>)
    requires
        from <= to <= d@.len(),
    ensures
        r@ =~= d@.subrange(from as int, to as int),
{
    let mut out: Vec<u8> = Vec::new();
    let mut i: usize = from;
    while i < to
        invariant
            from <= i <= to <= d@.len(),
            out@ =~= d@.subrange(from as int, i as int),
        decreases to - i,
    {
        out.push(d[i]);
        proof {
            assert(out@ =~= d@.subrange(from as int, i as int + 1));
        }
        i = i + 1;
    }
    out
}

/// Parse the minification info that follows the marker text in a marker
/// chunk: comma-separated `key=value` pairs for the quality, whether the
/// pass was lossless, the recorded reduction and the timestamp. Chunk data
/// that is not valid UTF-8 or does not start with the marker is refused.
pub fn parse_minification_info(marker_data: &Vec<u8>) -> (r: Option<MinificationInfo>)
    ensures
        (r is Some) <==> (vstd::utf8::valid_utf8(marker_data@) && marker_data@.len() >= 23
            && marker_data@.subrange(0, 23) =~= marker_bytes()),
{
    if !is_valid_utf8(marker_data) {
        return Option::None;
    }
    let n: usize = marker_data.len();
    if n < 23 {
        return Option::None;
    }
    if !marker_at(marker_data, 0) {
        return Option::None;
    }
    let mut quality: Option<u8> = Option::None;
    let mut lossless: bool = false;
    let mut reduction_pct_tenths: u32 = 0;
    let mut timestamp: Option<String> = Option::None;
    let mut i: usize = 23;
    while i < n
        invariant
            23 <= i,
            n == marker_data@.len(),
        decreases n + 1 - i,
    {
        let mut j: usize = i;
        while j < n && marker_data[j] != 44
            invariant
                i <= j <= n,
                n == marker_data@.len(),
            decreases n - j,
        {
            j = j + 1;
        }
        let mut e: usize = i;
        while e < j && marker_data[e] != 61
            invariant
                i <= e <= j <= n,
                n == marker_data@.len(),
            decreases j - e,
        {
            e = e + 1;
        }
        if e < j {
            if slice_is(marker_data, i, e, "quality") {
                quality = parse_u8_dec(marker_data, e + 1, j);
            } else if slice_is(marker_data, i, e, "lossless") {
                lossless = slice_is(marker_data, e + 1, j, "true");
            } else if slice_is(marker_data, i, e, "reduction") {
                reduction_pct_tenths = parse_tenths(marker_data, e + 1, j);
            } else if slice_is(marker_data, i, e, "timestamp") {
                timestamp = utf8_to_string(copy_range(marker_data, e + 1, j));
            }
        }
        if j < n {
            i = j + 1;
        } else {
            i = n;
        }
    }
    Option::Some(MinificationInfo { quality, lossless, reduction_pct_tenths, timestamp })
}

/// Checks if a PNG was already minified by this tool: the bytes carry the
/// signature and a text chunk that starts with the marker. When they do,
/// the minification info parsed from that chunk comes back with the flag.
pub fn is_already_minified(png_data: &Vec<u8>) -> (r: (bool, Option<MinificationInfo>))
    ensures
        r.0 == (is_png_signature(png_data@) && marker_scan(png_data@, 8) is Some),
        !r.0 ==> r.1 is None,
        r.0 ==> match marker_scan(png_data@, 8) {
            Option::Some(p) => {
                let chunk = png_data@.subrange(p, p + be32_at(png_data@, p - 8));
                (r.1 is Some) <==> vstd::utf8::valid_utf8(chunk)
            },
            Option::None => false,
        },
{
    if !has_png_signature(png_data) {
        return (false, Option::None);
    }
    match find_marker(png_data) {
        Option::None => (false, Option::None),
        Option::Some(p) => {
            proof {
                lemma_marker_scan_some(png_data@, 8);
            }
            let nu: usize = png_data.len();
            let length: u64 = read_be32(png_data, p - 8);
            proof {
                assert(p + length <= nu);
            }
            let endp: usize = p + (length as usize);
            let chunk: Vec<u8> = copy_range(png_data, p, endp);
            let info: Option<MinificationInfo> = parse_minification_info(&chunk);
            proof {
                assert(chunk@.subrange(0, 23) =~= png_data@.subrange(p as int, p as int + 23));
                assert(chunk@.len() >= 23);
            }
            (true, info)
        },
    }
}

/// A found marker chunk lies inside the data: its length field is in
/// bounds and its declared data fits.
proof fn lemma_marker_scan_some(d: Seq<u8>, pos: int)
    requires
        pos >= 8,
    ensures
        match marker_scan(d, pos) {
            Option::Some(p) => p >= pos + 8 && p + 4 <= d.len() + 8 && p - 8 + 12 <= d.len() && p
                - 8 + 8 + be32_at(d, p - 8) <= d.len() && has_marker_at(d, p, be32_at(d, p - 8)),
            Option::None => true,
        },
    decreases d.len() + 10000012 - pos,
{
    if pos + 12 <= d.len() {
        let length = be32_at(d, pos);
        if is_text_chunk(d, pos) && pos + 8 + length <= d.len() && has_marker_at(
            d,
            pos + 8,
            length,
        ) {
        } else if length > 10000000 {
        } else {
            lemma_marker_scan_some(d, pos + 12 + length);
        }
    }
}

/// The four big-endian bytes of a 32-bit value.
pub open spec fn be32_bytes(v: int) -> Seq<u8> {
    seq![
        (v / 0x1000000 % 256) as u8,
        (v / 0x10000 % 256) as u8,
        (v / 0x100 % 256) as u8,
        (v % 256) as u8,
    ]
}

/// The chunk type of a PNG text chunk.
pub open spec fn text_chunk_type() -> Seq<u8> {
    seq![116u8, 69u8, 88u8, 116u8]
}

/// The PNG with a marker text chunk carrying `info` inserted before the
/// image-end chunk at `iend`: length, type, the marker text with the info,
/// and the checksum of type and text.
pub open spec fn spec_marked(d: Seq<u8>, iend: int, info: Seq<u8>) -> Seq<u8> {
    let text = marker_bytes() + info;
    d.take(iend) + be32_bytes(text.len() as int) + text_chunk_type() + text + be32_bytes(
        spec_crc32(text_chunk_type() + text) as int,
    ) + d.skip(iend)
}

/// Push the four big-endian bytes of `val`.
fn push_be32(v: &mut Vec<u8>, val: u32)
    ensures
        final(v)@ =~= old(v)@ + be32_bytes(val as int),
{
    v.push((val / 0x1000000 % 256) as u8);
    v.push((val / 0x10000 % 256) as u8);
    v.push((val / 0x100 % 256) as u8);
    v.push((val % 256) as u8);
}

/// Push the bytes of an ASCII keyword.
fn push_str_bytes(v: &mut Vec<u8>, s: &str)
    ensures
        final(v)@ =~= old(v)@ + s.spec_bytes(),
        final(v)@.len() == old(v)@.len() + s.spec_bytes().len(),
{
    let b: &[u8] = s.as_bytes();
    let n: usize = b.len();
    let mut i: usize = 0;
    while i < n
        invariant
            n == b@.len(),
            i <= n,
            v@ =~= old(v)@ + b@.take(i as int),
        decreases n - i,
    {
        v.push(b[i]);
        proof {
            assert(v@ =~= old(v)@ + b@.take(i as int + 1));
        }
        i = i + 1;
    }
    proof {
        assert(b@.take(n as int) =~= b@);
    }
}

/// The standard decimal digits of a nonnegative number, as ASCII bytes.
pub open spec fn dec_bytes(n: int) -> Seq<u8>
    decreases n when n >= 0
{
    if n < 10 {
        seq![(48 + n) as u8]
    } else {
        dec_bytes(n / 10) + seq![(48 + n % 10) as u8]
    }
}

/// A count of tenths written as a decimal with one fractional digit.
pub open spec fn tenths_bytes(t: int) -> Seq<u8> {
    dec_bytes(t / 10) + seq![46u8] + seq![(48 + t % 10) as u8]
}

/// The info text that follows the marker in the chunk: the quality (for
/// lossy passes), the lossless flag, the reduction in tenths, and the
/// timestamp bytes.
pub open spec fn spec_info_text(lossless: bool, quality: int, tenths: int, ts: Seq<u8>) -> Seq<u8> {
    (if lossless {
        "lossless=true,reduction=".spec_bytes()
    } else {
        "quality=".spec_bytes() + dec_bytes(quality) + ",lossless=false,reduction=".spec_bytes()
    }) + tenths_bytes(tenths) + ",timestamp=".spec_bytes() + ts
}

/// Ten to the `k`-th power.
pub open spec fn spec_pow10(k: nat) -> int
    decreases k,
{
    if k == 0 {
        1int
    } else {
        10 * spec_pow10((k - 1) as nat)
    }
}

proof fn lemma_dec_bytes_len(n: int, k: nat)
    requires
        0 <= n,
        1 <= k,
        n < spec_pow10(k),
    ensures
        1 <= dec_bytes(n).len() <= k,
    decreases k,
{
    if n >= 10 {
        assert(spec_pow10(k) == 10 * spec_pow10((k - 1) as nat));
        lemma_dec_bytes_len(n / 10, (k - 1) as nat);
    }
}

/// Push the decimal digits of a value, most significant first.
fn push_dec_u32(v: &mut Vec<u8>, n: u32)
    ensures
        final(v)@ =~= old(v)@ + dec_bytes(n as int),
        final(v)@.len() <= old(v)@.len() + 10,
    decreases n,
{
    proof {
        reveal_with_fuel(spec_pow10, 11);
        assert(spec_pow10(10) == 10_000_000_000);
        lemma_dec_bytes_len(n as int, 10);
    }
    if n >= 10 {
        push_dec_u32(v, n / 10);
        let ghost mid = v@;
        v.push(48 + (n % 10) as u8);
        proof {
            assert(v@ =~= mid + seq![(48 + n as int % 10) as u8]);
            assert(v@ =~= old(v)@ + dec_bytes(n as int));
        }
    } else {
        v.push(48 + (n % 10) as u8);
        proof {
            assert(v@ =~= old(v)@ + dec_bytes(n as int));
        }
    }
}

/// Push a count of tenths as a decimal with one fractional digit.
fn push_tenths_dec(v: &mut Vec<u8>, tenths: u32)
    ensures
        final(v)@ =~= old(v)@ + tenths_bytes(tenths as int),
        final(v)@.len() <= old(v)@.len() + 12,
{
    push_dec_u32(v, tenths / 10);
    v.push(46);
    v.push(48 + (tenths % 10) as u8);
    proof {
        assert(v@ =~= old(v)@ + tenths_bytes(tenths as int));
    }
}

/// Adds a text chunk with the marker and the minification info before the
/// image-end chunk: the info records the quality (for lossy passes),
/// whether the pass was lossless, the reduction achieved, and the current
/// timestamp. The chunk's checksum covers its type and text, as the PNG
/// container requires.
pub fn add_minification_marker_with_info(
    png_data: &Vec<u8>,
    lossless: bool,
    quality: u8,
    reduction_pct_tenths: u32,
) -> (r: Result<Vec<u8>, MinifyError>)
    ensures
        match r {
            Result::Ok(out) => {
                &&& is_png_signature(png_data@)
                &&& iend_scan(png_data@, 8) >= 0
                &&& exists|ts: Seq<u8>|
                    #![trigger spec_info_text(lossless, quality as int, reduction_pct_tenths as int, ts)]
                    ts.len() == 20 && out@ =~= spec_marked(
                        png_data@,
                        iend_scan(png_data@, 8),
                        spec_info_text(
                            lossless,
                            quality as int,
                            reduction_pct_tenths as int,
                            ts,
                        ),
                    )
            },
            Result::Err(e) => {
                ||| (e == MinifyError::InvalidSignature && !is_png_signature(png_data@))
                ||| (e == MinifyError::MissingImageEnd && is_png_signature(png_data@) && iend_scan(
                    png_data@,
                    8,
                ) == -1)
                ||| (e == MinifyError::OversizedChunk && is_png_signature(png_data@) && iend_scan(
                    png_data@,
                    8,
                ) == -2)
            },
        },
{
    if !has_png_signature(png_data) {
        return Result::Err(MinifyError::InvalidSignature);
    }
    let iend: usize = match find_iend(png_data) {
        Result::Ok(p) => p,
        Result::Err(e) => {
            return Result::Err(e);
        },
    };
    // the info text that follows the marker
    let ts: String = crate::time_utils::get_iso8601_timestamp();
    proof {
        reveal_strlit("quality=");
        reveal_strlit(",lossless=false,reduction=");
        reveal_strlit("lossless=true,reduction=");
        reveal_strlit(",timestamp=");
        assert(vstd::utf8::is_ascii_chars("quality="@));
        assert(vstd::utf8::is_ascii_chars(",lossless=false,reduction="@));
        assert(vstd::utf8::is_ascii_chars("lossless=true,reduction="@));
        assert(vstd::utf8::is_ascii_chars(",timestamp="@));
        vstd::utf8::is_ascii_chars_encode_utf8("quality="@);
        vstd::utf8::is_ascii_chars_encode_utf8(",lossless=false,reduction="@);
        vstd::utf8::is_ascii_chars_encode_utf8("lossless=true,reduction="@);
        vstd::utf8::is_ascii_chars_encode_utf8(",timestamp="@);
        vstd::utf8::is_ascii_chars_encode_utf8(ts@);
    }
    let mut info: Vec<u8> = Vec::new();
    if !lossless {
        push_str_bytes(&mut info, "quality=");
        push_dec_u32(&mut info, quality as u32);
        push_str_bytes(&mut info, ",lossless=false,reduction=");
    } else {
        push_str_bytes(&mut info, "lossless=true,reduction=");
    }
    push_tenths_dec(&mut info, reduction_pct_tenths);
    push_str_bytes(&mut info, ",timestamp=");
    let ghost info_head = info@;
    let tsb: Vec<u8> = ts.as_str().as_bytes_vec();
    proof {
        assert(tsb@.len() == 20);
    }
    let ntsb: usize = tsb.len();
    let mut i: usize = 0;
    while i < ntsb
        invariant
            ntsb == tsb@.len(),
            ntsb == 20,
            i <= ntsb,
            info_head.len() <= 80,
            info@ =~= info_head + tsb@.take(i as int),
        decreases ntsb - i,
    {
        info.push(tsb[i]);
        proof {
            assert(info@ =~= info_head + tsb@.take(i as int + 1));
        }
        i = i + 1;
    }
    proof {
        assert(tsb@.take(ntsb as int) =~= tsb@);
        assert(info@ =~= spec_info_text(
            lossless,
            quality as int,
            reduction_pct_tenths as int,
            tsb@,
        ));
    }
    // the chunk text: marker, then info
    let mut text: Vec<u8> = Vec::new();
    push_marker_bytes(&mut text);
    let ghost info0 = info@;
    text.append(&mut info);
    proof {
        assert(text@ =~= marker_bytes() + info0);
    }
    // checksum over the chunk type and text
    let mut crcbuf: Vec<u8> = Vec::new();
    crcbuf.push(116);
    crcbuf.push(69);
    crcbuf.push(88);
    crcbuf.push(116);
    let ntext: usize = text.len();
    let mut j: usize = 0;
    while j < ntext
        invariant
            ntext == text@.len(),
            j <= ntext,
            crcbuf@ =~= text_chunk_type() + text@.take(j as int),
        decreases ntext - j,
    {
        crcbuf.push(text[j]);
        proof {
            assert(crcbuf@ =~= text_chunk_type() + text@.take(j as int + 1));
        }
        j = j + 1;
    }
    proof {
        assert(text@.take(ntext as int) =~= text@);
    }
    let crc: u32 = crc32(&crcbuf);
    // assemble: everything before the image end, the marker chunk, the rest
    let n: usize = png_data.len();
    let mut out: Vec<u8> = Vec::new();
    let mut k: usize = 0;
    while k < iend
        invariant
            iend <= n,
            n == png_data@.len(),
            k <= iend,
            out@ =~= png_data@.take(k as int),
        decreases iend - k,
    {
        out.push(png_data[k]);
        proof {
            assert(out@ =~= png_data@.take(k as int + 1));
        }
        k = k + 1;
    }
    push_be32(&mut out, text.len() as u32);
    push_str_bytes(&mut out, "tEXt");
    let ghost text_snapshot = text@;
    out.append(&mut text);
    push_be32(&mut out, crc);
    let mut k2: usize = iend;
    let ghost out_before_tail = out@;
    while k2 < n
        invariant
            iend <= k2 <= n,
            n == png_data@.len(),
            out@ =~= out_before_tail + png_data@.subrange(iend as int, k2 as int),
        decreases n - k2,
    {
        out.push(png_data[k2]);
        proof {
            assert(out@ =~= out_before_tail + png_data@.subrange(iend as int, k2 as int + 1));
        }
        k2 = k2 + 1;
    }
    proof {
        reveal_strlit("tEXt");
        assert("tEXt"@.len() == 4);
        vstd::utf8::is_ascii_chars_encode_utf8("tEXt"@);
        assert("tEXt".spec_bytes() =~= text_chunk_type());
        assert(out@ =~= spec_marked(png_data@, iend as int, info0));
        assert(info0 =~= spec_info_text(
            lossless,
            quality as int,
            reduction_pct_tenths as int,
            tsb@,
        ));
        assert(out@ =~= spec_marked(
            png_data@,
            iend as int,
            spec_info_text(lossless, quality as int, reduction_pct_tenths as int, tsb@),
        ));
    }
    Result::Ok(out)
}

} // verus!