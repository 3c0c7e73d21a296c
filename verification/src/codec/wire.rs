//! Byte-level helpers: big-endian integer fields, the 8-bit wraparound
//! checksum, fixed-width text padding and trimming.

use vstd::bytes::{
    spec_u16_from_le_bytes, spec_u16_to_le_bytes, spec_u32_from_le_bytes, spec_u32_to_le_bytes,
    spec_u64_from_le_bytes, spec_u64_to_le_bytes, u16_from_le_bytes, u16_to_le_bytes,
    u32_from_le_bytes, u32_to_le_bytes, u64_from_le_bytes, u64_to_le_bytes,
};
use vstd::prelude::*;

verus! {

broadcast use vstd::seq_lib::group_seq_properties, vstd::slice::group_slice_axioms;

pub open spec fn spec_u16_to_be_bytes(x: u16) -> Seq<u8> {
    spec_u16_to_le_bytes(x).reverse()
}

pub open spec fn spec_u16_from_be_bytes(s: Seq<u8>) -> u16 {
    spec_u16_from_le_bytes(s.reverse())
}

pub open spec fn spec_u32_to_be_bytes(x: u32) -> Seq<u8> {
    spec_u32_to_le_bytes(x).reverse()
}

pub open spec fn spec_u32_from_be_bytes(s: Seq<u8>) -> u32 {
    spec_u32_from_le_bytes(s.reverse())
}

pub open spec fn spec_u64_to_be_bytes(x: u64) -> Seq<u8> {
    spec_u64_to_le_bytes(x).reverse()
}

pub open spec fn spec_u64_from_be_bytes(s: Seq<u8>) -> u64 {
    spec_u64_from_le_bytes(s.reverse())
}

/// The unsigned word holding the two's-complement bits of `x`.
pub open spec fn spec_i64_as_u64(x: i64) -> u64 {
    if x >= 0 {
        x as u64
    } else {
        (x + 0x1_0000_0000_0000_0000) as u64
    }
}

/// The signed reading of the two's-complement bits of `x`.
pub open spec fn spec_u64_as_i64(x: u64) -> i64 {
    if x <= 0x7fff_ffff_ffff_ffff {
        x as i64
    } else {
        (x - 0x1_0000_0000_0000_0000) as i64
    }
}

pub open spec fn spec_i64_to_be_bytes(x: i64) -> Seq<u8> {
    spec_u64_to_be_bytes(spec_i64_as_u64(x))
}

pub open spec fn spec_i64_from_be_bytes(s: Seq<u8>) -> i64 {
    spec_u64_as_i64(spec_u64_from_be_bytes(s))
}

/// Big-endian byte order round-trips: reading back what was written gives
/// the value, and rewriting what was read gives the bytes.
pub broadcast proof fn lemma_be_bytes_roundtrip()
    ensures
        forall|x: u16|
            {
                &&& (#[trigger] spec_u16_to_be_bytes(x)).len() == 2
                &&& spec_u16_from_be_bytes(spec_u16_to_be_bytes(x)) == x
            },
        forall|x: u32|
            {
                &&& (#[trigger] spec_u32_to_be_bytes(x)).len() == 4
                &&& spec_u32_from_be_bytes(spec_u32_to_be_bytes(x)) == x
            },
        forall|x: u64|
            {
                &&& (#[trigger] spec_u64_to_be_bytes(x)).len() == 8
                &&& spec_u64_from_be_bytes(spec_u64_to_be_bytes(x)) == x
            },
        forall|x: i64|
            {
                &&& (#[trigger] spec_i64_to_be_bytes(x)).len() == 8
                &&& spec_i64_from_be_bytes(spec_i64_to_be_bytes(x)) == x
            },
{
    vstd::bytes::lemma_auto_spec_u16_to_from_le_bytes();
    vstd::bytes::lemma_auto_spec_u32_to_from_le_bytes();
    vstd::bytes::lemma_auto_spec_u64_to_from_le_bytes();
    assert forall|x: u16| spec_u16_to_be_bytes(x).reverse() =~= spec_u16_to_le_bytes(x) by {}
    assert forall|x: u32| spec_u32_to_be_bytes(x).reverse() =~= spec_u32_to_le_bytes(x) by {}
    assert forall|x: u64| spec_u64_to_be_bytes(x).reverse() =~= spec_u64_to_le_bytes(x) by {}
    assert forall|x: i64|
        spec_u64_as_i64(spec_i64_as_u64(x)) == x by {}
}

/// Appends the two big-endian bytes of `x`.
pub fn push_u16_be(buf: &mut Vec<u8>, x: u16)
    ensures
        final(buf)@ == old(buf)@ + spec_u16_to_be_bytes(x),
{
    let le = u16_to_le_bytes(x);
    buf.push(le[1]);
    buf.push(le[0]);
    proof {
        assert(buf@ =~= old(buf)@ + spec_u16_to_be_bytes(x));
    }
}

/// Appends the four big-endian bytes of `x`.
pub fn push_u32_be(buf: &mut Vec<u8>, x: u32)
    ensures
        final(buf)@ == old(buf)@ + spec_u32_to_be_bytes(x),
{
    let le = u32_to_le_bytes(x);
    buf.push(le[3]);
    buf.push(le[2]);
    buf.push(le[1]);
    buf.push(le[0]);
    proof {
        assert(buf@ =~= old(buf)@ + spec_u32_to_be_bytes(x));
    }
}

/// Appends the eight big-endian bytes of `x`.
pub fn push_u64_be(buf: &mut Vec<u8>, x: u64)
    ensures
        final(buf)@ == old(buf)@ + spec_u64_to_be_bytes(x),
{
    let le = u64_to_le_bytes(x);
    buf.push(le[7]);
    buf.push(le[6]);
    buf.push(le[5]);
    buf.push(le[4]);
    buf.push(le[3]);
    buf.push(le[2]);
    buf.push(le[1]);
    buf.push(le[0]);
    proof {
        assert(buf@ =~= old(buf)@ + spec_u64_to_be_bytes(x));
    }
}

/// Appends the eight big-endian bytes of the two's-complement form of `x`.
pub fn push_i64_be(buf: &mut Vec<u8>, x: i64)
    ensures
        final(buf)@ == old(buf)@ + spec_i64_to_be_bytes(x),
{
    let u: u64 = if x >= 0 {
        x as u64
    } else {
        let pos = -(x + 1);
        u64::MAX - (pos as u64)
    };
    proof {
        assert(u == spec_i64_as_u64(x));
    }
    push_u64_be(buf, u);
}

/// Reads two big-endian bytes at `pos`.
pub fn read_u16_be(buf: &[u8], pos: usize) -> (r: u16)
    requires
        pos + 2 <= buf@.len(),
    ensures
        r == spec_u16_from_be_bytes(buf@.subrange(pos as int, pos + 2)),
{
    let blen = buf.len();
    proof {
        assert(blen == buf@.len());
    }
    let mut le: Vec<u8> = Vec::new();
    le.push(buf[pos + 1]);
    le.push(buf[pos]);
    let r = u16_from_le_bytes(le.as_slice());
    proof {
        assert(le@ =~= buf@.subrange(pos as int, pos + 2).reverse());
    }
    r
}

/// Reads four big-endian bytes at `pos`.
pub fn read_u32_be(buf: &[u8], pos: usize) -> (r: u32)
    requires
        pos + 4 <= buf@.len(),
    ensures
        r == spec_u32_from_be_bytes(buf@.subrange(pos as int, pos + 4)),
{
    let blen = buf.len();
    proof {
        assert(blen == buf@.len());
    }
    let mut le: Vec<u8> = Vec::new();
    le.push(buf[pos + 3]);
    le.push(buf[pos + 2]);
    le.push(buf[pos + 1]);
    le.push(buf[pos]);
    let r = u32_from_le_bytes(le.as_slice());
    proof {
        assert(le@ =~= buf@.subrange(pos as int, pos + 4).reverse());
    }
    r
}

/// Reads eight big-endian bytes at `pos`.
pub fn read_u64_be(buf: &[u8], pos: usize) -> (r: u64)
    requires
        pos + 8 <= buf@.len(),
    ensures
        r == spec_u64_from_be_bytes(buf@.subrange(pos as int, pos + 8)),
{
    let blen = buf.len();
    proof {
        assert(blen == buf@.len());
    }
    let mut le: Vec<u8> = Vec::new();
    le.push(buf[pos + 7]);
    le.push(buf[pos + 6]);
    le.push(buf[pos + 5]);
    le.push(buf[pos + 4]);
    le.push(buf[pos + 3]);
    le.push(buf[pos + 2]);
    le.push(buf[pos + 1]);
    le.push(buf[pos]);
    let r = u64_from_le_bytes(le.as_slice());
    proof {
        assert(le@ =~= buf@.subrange(pos as int, pos + 8).reverse());
    }
    r
}

/// Reads eight big-endian bytes at `pos` as a signed value.
pub fn read_i64_be(buf: &[u8], pos: usize) -> (r: i64)
    requires
        pos + 8 <= buf@.len(),
    ensures
        r == spec_i64_from_be_bytes(buf@.subrange(pos as int, pos + 8)),
{
    let u = read_u64_be(buf, pos);
    if u <= 0x7fff_ffff_ffff_ffff {
        u as i64
    } else {
        let pos_part = u64::MAX - u;
        -(pos_part as i64) - 1
    }
}

/// Overwrites the four bytes at `at` with the big-endian form of `x`.
pub fn set_u32_be(buf: &mut Vec<u8>, at: usize, x: u32)
    requires
        at + 4 <= old(buf)@.len(),
    ensures
        final(buf)@.len() == old(buf)@.len(),
        forall|i: int|
            0 <= i < old(buf)@.len() && !(at <= i < at + 4) ==> final(buf)@[i] == old(buf)@[i],
        final(buf)@.subrange(at as int, at + 4) == spec_u32_to_be_bytes(x),
{
    let blen = buf.len();
    proof {
        assert(blen == buf@.len());
    }
    let le = u32_to_le_bytes(x);
    buf[at] = le[3];
    buf[at + 1] = le[2];
    buf[at + 2] = le[1];
    buf[at + 3] = le[0];
    proof {
        assert(buf@.subrange(at as int, at + 4) =~= spec_u32_to_be_bytes(x));
    }
}

/// The 8-bit wraparound sum of `s`.
pub open spec fn sum8(s: Seq<u8>) -> u8
    decreases s.len(),
{
    if s.len() == 0 {
        0u8
    } else {
        ((sum8(s.drop_last()) + s.last()) % 256) as u8
    }
}

/// Computes the 8-bit wraparound sum of `buf[0 .. end)`.
pub fn checksum_prefix(buf: &[u8], end: usize) -> (r: u8)
    requires
        end <= buf@.len(),
    ensures
        r == sum8(buf@.take(end as int)),
{
    let mut acc: u8 = 0;
    let mut i: usize = 0;
    proof {
        assert(buf@.take(0) =~= Seq::<u8>::empty());
    }
    while i < end
        invariant
            end <= buf@.len(),
            i <= end,
            acc == sum8(buf@.take(i as int)),
        decreases end - i,
    {
        let t: u16 = (acc as u16) + (buf[i] as u16);
        acc = (t % 256) as u8;
        proof {
            assert(buf@.take(i + 1).drop_last() =~= buf@.take(i as int));
            assert(buf@.take(i + 1).last() == buf@[i as int]);
        }
        i = i + 1;
    }
    acc
}

/// Text bytes fitted to the fixed width `len`: truncated, or padded on the
/// right with spaces.
pub open spec fn pad_trunc(b: Seq<u8>, len: int) -> Seq<u8> {
    if b.len() >= len {
        b.take(len)
    } else {
        b + Seq::new((len - b.len()) as nat, |i: int| 32u8)
    }
}

/// Fits `bytes` to exactly `len` bytes, space-padding on the right.
pub fn fit_to_width(bytes: &mut Vec<u8>, len: usize)
    ensures
        final(bytes)@ == pad_trunc(old(bytes)@, len as int),
{
    if bytes.len() >= len {
        bytes.truncate(len);
        proof {
            assert(bytes@ =~= pad_trunc(old(bytes)@, len as int));
        }
    } else {
        bytes.resize(len, 32u8);
        proof {
            assert(bytes@ =~= pad_trunc(old(bytes)@, len as int));
        }
    }
}

/// A character with the Unicode White_Space property, as `char::is_whitespace`
/// documents the set.
pub open spec fn is_unicode_ws(c: char) -> bool {
    ||| c == '\u{9}'
    ||| c == '\u{a}'
    ||| c == '\u{b}'
    ||| c == '\u{c}'
    ||| c == '\u{d}'
    ||| c == ' '
    ||| c == '\u{85}'
    ||| c == '\u{a0}'
    ||| c == '\u{1680}'
    ||| ('\u{2000}' <= c && c <= '\u{200a}')
    ||| c == '\u{2028}'
    ||| c == '\u{2029}'
    ||| c == '\u{202f}'
    ||| c == '\u{205f}'
    ||| c == '\u{3000}'
}

/// How many whitespace characters `s` starts with.
pub open spec fn leading_ws(s: Seq<char>) -> int
    decreases s.len(),
{
    if s.len() == 0 || !is_unicode_ws(s[0]) {
        0
    } else {
        1 + leading_ws(s.drop_first())
    }
}

/// How many whitespace characters `s` ends with.
pub open spec fn trailing_ws(s: Seq<char>) -> int
    decreases s.len(),
{
    if s.len() == 0 || !is_unicode_ws(s.last()) {
        0
    } else {
        1 + trailing_ws(s.drop_last())
    }
}

/// `s` with whitespace characters removed from both ends.
pub open spec fn trim_chars(s: Seq<char>) -> Seq<char> {
    if leading_ws(s) == s.len() {
        Seq::empty()
    } else {
        s.subrange(leading_ws(s), s.len() - trailing_ws(s))
    }
}

pub proof fn lemma_leading_ws_bounds(s: Seq<char>)
    ensures
        0 <= leading_ws(s) <= s.len(),
        forall|i: int| 0 <= i < leading_ws(s) ==> is_unicode_ws(#[trigger] s[i]),
        leading_ws(s) < s.len() ==> !is_unicode_ws(s[leading_ws(s)]),
    decreases s.len(),
{
    if s.len() == 0 || !is_unicode_ws(s[0]) {
    } else {
        lemma_leading_ws_bounds(s.drop_first());
    }
}

pub proof fn lemma_trailing_ws_bounds(s: Seq<char>)
    ensures
        0 <= trailing_ws(s) <= s.len(),
        forall|i: int| s.len() - trailing_ws(s) <= i < s.len() ==> is_unicode_ws(#[trigger] s[i]),
        trailing_ws(s) < s.len() ==> !is_unicode_ws(s[s.len() - trailing_ws(s) - 1]),
    decreases s.len(),
{
    if s.len() == 0 || !is_unicode_ws(s.last()) {
    } else {
        lemma_trailing_ws_bounds(s.drop_last());
        let d = s.drop_last();
        assert forall|i: int| s.len() - trailing_ws(s) <= i < s.len() implies is_unicode_ws(
            #[trigger] s[i],
        ) by {
            if i < s.len() - 1 {
                assert(d[i] == s[i]);
            }
        }
    }
}

pub proof fn lemma_leading_ws_exact(s: Seq<char>, k: int)
    requires
        0 <= k < s.len(),
        forall|i: int| 0 <= i < k ==> is_unicode_ws(#[trigger] s[i]),
        !is_unicode_ws(s[k]),
    ensures
        leading_ws(s) == k,
    decreases k,
{
    if k == 0 {
    } else {
        lemma_leading_ws_exact(s.drop_first(), k - 1);
    }
}

pub proof fn lemma_leading_ws_exact_end(s: Seq<char>)
    requires
        forall|i: int| 0 <= i < s.len() ==> is_unicode_ws(#[trigger] s[i]),
    ensures
        leading_ws(s) == s.len(),
    decreases s.len(),
{
    if s.len() == 0 {
    } else {
        lemma_leading_ws_exact_end(s.drop_first());
    }
}

pub proof fn lemma_trailing_ws_exact(s: Seq<char>, k: int)
    requires
        0 <= k < s.len(),
        forall|i: int| s.len() - k <= i < s.len() ==> is_unicode_ws(#[trigger] s[i]),
        !is_unicode_ws(s[s.len() - k - 1]),
    ensures
        trailing_ws(s) == k,
    decreases k,
{
    if k == 0 {
    } else {
        let d = s.drop_last();
        lemma_trailing_ws_exact(d, k - 1);
    }
}

/// Relies on `str::trim`: it removes exactly the leading and trailing
/// characters with the Unicode White_Space property.
#[verifier::external_body]
pub fn trim_text(s: &str) -> (r: String)
    ensures
        r@ == trim_chars(s@),
{
    s.trim().to_owned()
}

/// Relies on `String::from_utf8`: it succeeds exactly on valid UTF-8 input
/// and then returns the string those bytes encode.
#[verifier::external_body]
pub fn bytes_to_string(v: Vec<u8>) -> (r: Option<String>)
    ensures
        (r is Some) == vstd::utf8::valid_utf8(v@),
        r matches Some(s) ==> s@ == vstd::utf8::decode_utf8(v@),
{
    String::from_utf8(v).ok()
}

} // verus!
