//! Characters and strings: UTF-8 lengths and encoding, lossy decoding,
//! character classes, terminal widths and grapheme clusters.

use vstd::prelude::*;
use vstd::utf8::*;
use unicode_segmentation::UnicodeSegmentation;
use unicode_width::{UnicodeWidthChar, UnicodeWidthStr};

verus! {

broadcast use vstd::utf8::char_is_scalar;

/// Number of bytes of the UTF-8 encoding of `c`.
pub open spec fn utf8_len(c: char) -> nat {
    encode_scalar(c as u32).len()
}

/// Number of bytes of the UTF-8 encoding of a character sequence.
pub open spec fn bytes_len(s: Seq<char>) -> nat {
    encode_utf8(s).len()
}

/// Length in bytes of the UTF-8 encoding of `c`.
pub fn len_utf8(c: char) -> (n: usize)
    ensures
        n == utf8_len(c),
        1 <= n <= 4,
{
    let v = c as u32;
    if v <= 0x7F {
        1
    } else if v <= 0x7FF {
        2
    } else if v <= 0xFFFF {
        3
    } else {
        4
    }
}

/// The UTF-8 encoding of `c`.
pub fn encode_char(c: char) -> (bytes: Vec<u8>)
    ensures
        bytes@ == encode_scalar(c as u32),
{
    let scalar = c as u32;
    if scalar <= 0x7F {
        vec![(scalar & 0x7F) as u8]
    } else if scalar <= 0x7FF {
        vec![0xC0 | ((scalar >> 6) & 0x1F) as u8, 0x80 | (scalar & 0x3F) as u8]
    } else if scalar <= 0xFFFF {
        vec![
            0xE0 | ((scalar >> 12) & 0x0F) as u8,
            0x80 | ((scalar >> 6) & 0x3F) as u8,
            0x80 | (scalar & 0x3F) as u8,
        ]
    } else {
        vec![
            0xF0 | ((scalar >> 18) & 0x7) as u8,
            0x80 | ((scalar >> 12) & 0x3F) as u8,
            0x80 | ((scalar >> 6) & 0x3F) as u8,
            0x80 | (scalar & 0x3F) as u8,
        ]
    }
}

/// Encoding a concatenation is concatenating the encodings.
pub proof fn lemma_encode_append(a: Seq<char>, b: Seq<char>)
    ensures
        encode_utf8(a + b) == encode_utf8(a) + encode_utf8(b),
    decreases a.len(),
{
    if a.len() == 0 {
        assert(a + b =~= b);
        assert(encode_utf8(a) =~= Seq::<u8>::empty());
        assert(encode_utf8(a) + encode_utf8(b) =~= encode_utf8(b));
    } else {
        lemma_encode_append(a.drop_first(), b);
        assert((a + b).drop_first() =~= a.drop_first() + b);
        assert(encode_utf8(a + b) =~= encode_scalar(a[0] as u32) + encode_utf8(a.drop_first() + b));
    }
}

/// Encoding one more character appends its encoding.
pub proof fn lemma_encode_push(a: Seq<char>, c: char)
    ensures
        encode_utf8(a.push(c)) == encode_utf8(a) + encode_scalar(c as u32),
{
    lemma_encode_append(a, seq![c]);
    assert(a.push(c) =~= a + seq![c]);
    assert(seq![c].drop_first() =~= Seq::<char>::empty());
    assert(encode_utf8(seq![c]) =~= encode_scalar(c as u32) + encode_utf8(Seq::<char>::empty()));
    assert(encode_utf8(seq![c]) =~= encode_scalar(c as u32));
}

/// The UTF-8 encoding of a character sequence.
pub fn encode_chars(s: &Vec<char>) -> (bytes: Vec<u8>)
    ensures
        bytes@ == encode_utf8(s@),
{
    let mut bytes: Vec<u8> = Vec::new();
    let mut i: usize = 0;
    while i < s.len()
        invariant
            i <= s.len(),
            bytes@ == encode_utf8(s@.take(i as int)),
        decreases s.len() - i,
    {
        let enc = encode_char(s[i]);
        let mut j: usize = 0;
        let ghost before = bytes@;
        while j < enc.len()
            invariant
                j <= enc.len(),
                bytes@ == before + enc@.take(j as int),
            decreases enc.len() - j,
        {
            bytes.push(enc[j]);
            j = j + 1;
            assert(enc@.take(j as int) =~= enc@.take(j - 1).push(enc@[j - 1]));
        }
        proof {
            assert(enc@.take(j as int) =~= enc@);
            lemma_encode_push(s@.take(i as int), s@[i as int]);
            assert(s@.take(i + 1) =~= s@.take(i as int).push(s@[i as int]));
        }
        i = i + 1;
    }
    assert(s@.take(i as int) =~= s@);
    bytes
}

/// A valid UTF-8 sequence decodes to at most as many characters as it has bytes.
pub proof fn lemma_decode_len(b: Seq<u8>)
    requires
        valid_utf8(b),
    ensures
        decode_utf8(b).len() <= b.len(),
    decreases b.len(),
{
    if b.len() > 0 {
        let rest = pop_first_scalar(b);
        assert(rest.len() < b.len());
        lemma_decode_len(rest);
    }
}

/// A valid sequence followed by more bytes is valid only if those bytes are,
/// and then it decodes to the decoding of the first, then of the rest.
pub proof fn lemma_valid_prefix_split(x: Seq<u8>, y: Seq<u8>)
    requires
        valid_utf8(x),
        valid_utf8(x + y),
    ensures
        valid_utf8(y),
        decode_utf8(x + y) == decode_utf8(x) + decode_utf8(y),
    decreases x.len(),
{
    if x.len() == 0 {
        assert(x + y =~= y);
        assert(decode_utf8(x) =~= Seq::<char>::empty());
        assert(decode_utf8(x) + decode_utf8(y) =~= decode_utf8(y));
    } else {
        let xy = x + y;
        assert(xy[0] == x[0]);
        if x.len() >= 2 {
            assert(xy[1] == x[1]);
        }
        if x.len() >= 3 {
            assert(xy[2] == x[2]);
        }
        if x.len() >= 4 {
            assert(xy[3] == x[3]);
        }
        assert(valid_first_scalar(x));
        assert(length_of_first_scalar(xy) == length_of_first_scalar(x));
        assert(decode_first_scalar(xy) == decode_first_scalar(x));
        let n = length_of_first_scalar(x);
        assert(n <= x.len());
        assert(pop_first_scalar(xy) =~= pop_first_scalar(x) + y);
        lemma_valid_prefix_split(pop_first_scalar(x), y);
        assert(decode_utf8(xy) =~= seq![decode_first_scalar(x) as char] + decode_utf8(pop_first_scalar(x) + y));
        assert(decode_utf8(x) =~= seq![decode_first_scalar(x) as char] + decode_utf8(pop_first_scalar(x)));
        assert(decode_utf8(xy) =~= decode_utf8(x) + decode_utf8(y));
    }
}

/// `i` is the length of the longest prefix of `b` that is valid UTF-8.
pub open spec fn is_valid_up_to(b: Seq<u8>, i: int) -> bool {
    &&& 0 <= i <= b.len()
    &&& valid_utf8(b.take(i))
    &&& forall|j: int| i < j <= b.len() ==> !valid_utf8(#[trigger] b.take(j))
}

/// Length of the longest prefix of `b` that is valid UTF-8.
pub open spec fn valid_up_to(b: Seq<u8>) -> int {
    choose|i: int| is_valid_up_to(b, i)
}

/// Among the first `j` prefixes of `b` there is a longest valid one.
proof fn lemma_longest_valid_prefix(b: Seq<u8>, j: int)
    requires
        0 <= j <= b.len(),
    ensures
        exists|i: int| 0 <= i <= j && valid_utf8(#[trigger] b.take(i)) && forall|k: int| i < k <= j ==> !valid_utf8(#[trigger] b.take(k)),
    decreases j,
{
    if j == 0 {
        assert(b.take(0) =~= Seq::<u8>::empty());
        assert(valid_utf8(b.take(0)));
    } else {
        lemma_longest_valid_prefix(b, j - 1);
        if !valid_utf8(b.take(j)) {
            let i = choose|i: int| 0 <= i <= j - 1 && valid_utf8(#[trigger] b.take(i)) && forall|k: int| i < k <= j - 1 ==> !valid_utf8(#[trigger] b.take(k));
            assert(forall|k: int| i < k <= j ==> !valid_utf8(#[trigger] b.take(k)));
        } else {
            assert(forall|k: int| j < k <= j ==> !valid_utf8(#[trigger] b.take(k)));
        }
    }
}

/// `valid_up_to` is the length of the longest valid prefix.
pub proof fn lemma_valid_up_to(b: Seq<u8>)
    ensures
        is_valid_up_to(b, valid_up_to(b)),
{
    lemma_longest_valid_prefix(b, b.len() as int);
    let i = choose|i: int| 0 <= i <= b.len() && valid_utf8(#[trigger] b.take(i)) && forall|k: int| i < k <= b.len() ==> !valid_utf8(#[trigger] b.take(k));
    assert(is_valid_up_to(b, i));
}

/// There is only one longest valid prefix.
pub proof fn lemma_valid_up_to_unique(b: Seq<u8>, i: int)
    requires
        is_valid_up_to(b, i),
    ensures
        valid_up_to(b) == i,
{
    let k = valid_up_to(b);
    assert(is_valid_up_to(b, k));
    if k < i {
        assert(!valid_utf8(b.take(i)));
    } else if i < k {
        assert(!valid_utf8(b.take(k)));
    }
}

/// Number of bytes of the UTF-8 character that the byte `b` opens: 2 for
/// `C2..DF`, 3 for `E0..EF`, 4 for `F0..F4`, and 0 for a byte that opens
/// none of more than one byte.
pub open spec fn lead_width(b: u8) -> nat {
    if 0xC2 <= b <= 0xDF {
        2
    } else if 0xE0 <= b <= 0xEF {
        3
    } else if 0xF0 <= b <= 0xF4 {
        4
    } else {
        0
    }
}

/// Whether `b1` may follow the lead byte `b0`: a continuation byte, narrowed
/// after `E0`, `ED`, `F0` and `F4` so as to rule out overlong encodings,
/// surrogates and values past U+10FFFF.
pub open spec fn second_ok(b0: u8, b1: u8) -> bool {
    if b0 == 0xE0 {
        0xA0 <= b1 <= 0xBF
    } else if b0 == 0xED {
        0x80 <= b1 <= 0x9F
    } else if b0 == 0xF0 {
        0x90 <= b1 <= 0xBF
    } else if b0 == 0xF4 {
        0x80 <= b1 <= 0x8F
    } else {
        0x80 <= b1 <= 0xBF
    }
}

/// The length of the invalid sequence at the start of `r`, which holds no
/// valid character there: the longest start of `r` that could still begin a
/// valid character, at least one byte (the maximal subpart); `None` when `r`
/// ends before that start could be completed or refuted.
pub open spec fn invalid_sequence_len(r: Seq<u8>) -> Option<usize> {
    if r.len() == 0 {
        None
    } else if lead_width(r[0]) == 0 {
        Some(1)
    } else if r.len() < 2 {
        None
    } else if !second_ok(r[0], r[1]) {
        Some(1)
    } else if lead_width(r[0]) == 2 {
        None
    } else if r.len() < 3 {
        None
    } else if !is_continuation_byte(r[2]) {
        Some(2)
    } else if lead_width(r[0]) == 3 {
        None
    } else if r.len() < 4 {
        None
    } else if !is_continuation_byte(r[3]) {
        Some(3)
    } else {
        None
    }
}

/// Length of the invalid byte sequence that starts where the longest valid
/// prefix of `b` ends (`None` when the input ends inside an incomplete sequence),
/// as `core::str::Utf8Error::error_len` reports it for `core::str::from_utf8(b)`.
pub open spec fn utf8_error_len(b: Seq<u8>) -> Option<usize> {
    invalid_sequence_len(b.skip(valid_up_to(b)))
}

/// Checks `bytes` with `core::str::from_utf8`. On success the decoded
/// characters come back; on failure the longest valid prefix length
/// (`Utf8Error::valid_up_to`) and the error length (`Utf8Error::error_len`).
/// Trusted, as the standard library documents these calls: `from_utf8`
/// succeeds exactly on valid UTF-8 and decodes it as UTF-8; `valid_up_to` is
/// the largest index with a valid prefix; `error_len`, when it is `Some`, is
/// the length of the invalid sequence that starts at `valid_up_to` and lies
/// within the input, and when it is `None` the input ends 1 to 3 bytes after
/// `valid_up_to`. The invalid sequence is the maximal subpart of the Unicode standard,
/// `utf8_error_len`: the bytes up to the first one that no valid character
/// could have there, which std's validator finds by the lead byte's width
/// and the narrowed range of the second byte.
#[verifier::external_body]
pub(crate) fn check_utf8(bytes: &[u8]) -> (r: Result<Vec<char>, (usize, Option<usize>)>)
    ensures
        match r {
            Ok(cs) => valid_utf8(bytes@) && cs@ == decode_utf8(bytes@),
            Err((up, el)) => {
                &&& !valid_utf8(bytes@)
                &&& is_valid_up_to(bytes@, up as int)
                &&& el == utf8_error_len(bytes@)
                &&& match el {
                    Some(n) => 1 <= n && up + n <= bytes@.len(),
                    None => up < bytes@.len() && bytes@.len() - up <= 3,
                }
            },
        },
{
    match core::str::from_utf8(bytes) {
        Ok(text) => Ok(text.chars().collect()),
        Err(error) => Err((error.valid_up_to(), error.error_len())),
    }
}

/// The replacement character U+FFFD.
pub open spec fn replacement() -> char {
    '\u{fffd}'
}

/// Lossy decoding of `b`: the characters of every valid run, one U+FFFD for
/// each invalid sequence, and the bytes of an incomplete sequence at the end
/// (left undecoded).
pub open spec fn lossy(b: Seq<u8>) -> (Seq<char>, Seq<u8>)
    decreases b.len(),
{
    if valid_utf8(b) {
        (decode_utf8(b), Seq::empty())
    } else {
        let up = valid_up_to(b);
        match utf8_error_len(b) {
            Some(n) => if 1 <= n && 0 <= up && up + n <= b.len() {
                let rest = lossy(b.skip(up + n));
                (decode_utf8(b.take(up)) + seq![replacement()] + rest.0, rest.1)
            } else {
                (decode_utf8(b.take(up)), b.skip(up))
            },
            None => (decode_utf8(b.take(up)), b.skip(up)),
        }
    }
}

/// After a valid prefix, the longest valid prefix lies in the rest.
proof fn lemma_valid_up_to_shift(v: Seq<u8>, w: Seq<u8>)
    requires
        valid_utf8(v),
    ensures
        valid_up_to(v + w) == v.len() + valid_up_to(w),
        (v + w).take(valid_up_to(v + w)) == v + w.take(valid_up_to(w)),
        (v + w).skip(valid_up_to(v + w)) == w.skip(valid_up_to(w)),
{
    let i = valid_up_to(w);
    lemma_valid_up_to(w);
    let vw = v + w;
    let k = v.len() + i;
    assert(vw.take(k) =~= v + w.take(i));
    vstd::utf8::valid_utf8_concat(v, w.take(i));
    assert forall|j: int| k < j <= vw.len() implies !valid_utf8(#[trigger] vw.take(j)) by {
        assert(vw.take(j) =~= v + w.take(j - v.len()));
        if valid_utf8(vw.take(j)) {
            lemma_valid_prefix_split(v, w.take(j - v.len()));
        }
    }
    assert(is_valid_up_to(vw, k));
    lemma_valid_up_to_unique(vw, k);
    assert(vw.skip(k) =~= w.skip(i));
}

/// After a valid prefix, the invalid sequence is the rest's.
proof fn lemma_error_len_shift(v: Seq<u8>, w: Seq<u8>)
    requires
        valid_utf8(v),
    ensures
        utf8_error_len(v + w) == utf8_error_len(w),
{
    lemma_valid_up_to_shift(v, w);
}

/// Whether `s` starts with a character that std's validator accepts: an
/// ASCII byte, or a lead byte with a second byte in its range and the
/// continuation bytes its width asks for.
pub open spec fn std_first_ok(s: Seq<u8>) -> bool {
    &&& s.len() >= 1
    &&& (s[0] < 0x80 || {
        let w = lead_width(s[0]);
        &&& w >= 2
        &&& s.len() >= w
        &&& second_ok(s[0], s[1])
        &&& (w >= 3 ==> is_continuation_byte(s[2]))
        &&& (w == 4 ==> is_continuation_byte(s[3]))
    })
}

/// A valid first character is one std's validator accepts: no overlong
/// encoding, surrogate or value past U+10FFFF gets through.
proof fn lemma_valid_first_std(s: Seq<u8>)
    requires
        valid_first_scalar(s),
    ensures
        std_first_ok(s),
{
    let b0 = s[0];
    if is_leading_byte_width_1(b0) {
    } else if is_leading_byte_width_2(b0) {
        let b1 = s[1];
        if b0 <= 0xC1 {
            assert((((b0 & 0x1F) as u32) << 6) | ((b1 & 0x3F) as u32) < 0x80) by (bit_vector)
                requires 0xC0 <= b0 <= 0xC1;
        }
    } else if is_leading_byte_width_3(b0) {
        let (b1, b2) = (s[1], s[2]);
        if b0 == 0xE0 && b1 < 0xA0 {
            assert((((b0 & 0x0F) as u32) << 12) | (((b1 & 0x3F) as u32) << 6) | ((b2 & 0x3F) as u32) < 0x800)
                by (bit_vector)
                requires b0 == 0xE0, 0x80 <= b1 < 0xA0;
        }
        if b0 == 0xED && b1 >= 0xA0 {
            assert({
                let c = (((b0 & 0x0F) as u32) << 12) | (((b1 & 0x3F) as u32) << 6) | ((b2 & 0x3F) as u32);
                0xD800 <= c <= 0xDFFF
            }) by (bit_vector)
                requires b0 == 0xED, 0xA0 <= b1 <= 0xBF;
        }
    } else {
        let (b1, b2, b3) = (s[1], s[2], s[3]);
        if b0 >= 0xF5 {
            assert((((b0 & 0x07) as u32) << 18) | (((b1 & 0x3F) as u32) << 12) | (((b2 & 0x3F) as u32) << 6)
                | ((b3 & 0x3F) as u32) > 0x10FFFF) by (bit_vector)
                requires 0xF5 <= b0 <= 0xF7;
        }
        if b0 == 0xF0 && b1 < 0x90 {
            assert((((b0 & 0x07) as u32) << 18) | (((b1 & 0x3F) as u32) << 12) | (((b2 & 0x3F) as u32) << 6)
                | ((b3 & 0x3F) as u32) < 0x10000) by (bit_vector)
                requires b0 == 0xF0, 0x80 <= b1 < 0x90;
        }
        if b0 == 0xF4 && b1 >= 0x90 {
            assert((((b0 & 0x07) as u32) << 18) | (((b1 & 0x3F) as u32) << 12) | (((b2 & 0x3F) as u32) << 6)
                | ((b3 & 0x3F) as u32) > 0x10FFFF) by (bit_vector)
                requires b0 == 0xF4, 0x90 <= b1 <= 0xBF;
        }
    }
}

/// At an invalid sequence, more bytes after it change nothing: the input
/// still has no valid prefix there, and the invalid sequence keeps its length.
proof fn lemma_invalid_stays(r: Seq<u8>, x: Seq<u8>)
    requires
        valid_up_to(r) == 0,
        invalid_sequence_len(r) is Some,
    ensures
        !valid_utf8(r + x),
        valid_up_to(r + x) == 0,
        invalid_sequence_len(r + x) == invalid_sequence_len(r),
{
    lemma_valid_up_to(r);
    let rx = r + x;
    let a = r[0];
    if a < 0x80 {
        assert(a & 0x7F == a) by (bit_vector)
            requires a < 0x80;
        assert(r.take(1) =~= seq![a]);
        assert(seq![a].subrange(1, 1) =~= Seq::<u8>::empty());
        reveal_with_fuel(valid_utf8, 2);
        assert(valid_utf8(r.take(1)));
        assert(false);
    }
    assert(rx[0] == r[0]);
    if r.len() >= 2 {
        assert(rx[1] == r[1]);
    }
    if r.len() >= 3 {
        assert(rx[2] == r[2]);
    }
    if r.len() >= 4 {
        assert(rx[3] == r[3]);
    }
    assert forall|j: int| 0 < j <= rx.len() implies !valid_utf8(#[trigger] rx.take(j)) by {
        let t = rx.take(j);
        if valid_utf8(t) {
            lemma_valid_first_std(t);
            assert(t[0] == r[0]);
            if t.len() >= 2 && r.len() >= 2 {
                assert(t[1] == r[1]);
            }
            if t.len() >= 3 && r.len() >= 3 {
                assert(t[2] == r[2]);
            }
            if t.len() >= 4 && r.len() >= 4 {
                assert(t[3] == r[3]);
            }
        }
    }
    assert(rx.take(0) =~= Seq::<u8>::empty());
    assert(valid_utf8(rx.take(0)));
    assert(is_valid_up_to(rx, 0));
    lemma_valid_up_to_unique(rx, 0);
    assert(rx.take(rx.len() as int) =~= rx);
}

/// After a valid prefix, lossy decoding decodes the prefix and goes on with
/// the rest.
proof fn lemma_lossy_after_valid(v: Seq<u8>, w: Seq<u8>)
    requires
        valid_utf8(v),
    ensures
        lossy(v + w) == (decode_utf8(v) + lossy(w).0, lossy(w).1),
{
    let vw = v + w;
    if valid_utf8(w) {
        vstd::utf8::valid_utf8_concat(v, w);
        lemma_valid_prefix_split(v, w);
    } else {
        if valid_utf8(vw) {
            lemma_valid_prefix_split(v, w);
        }
        lemma_valid_up_to_shift(v, w);
        lemma_error_len_shift(v, w);
        let uw = valid_up_to(w);
        lemma_valid_up_to(w);
        vstd::utf8::valid_utf8_concat(v, w.take(uw));
        lemma_valid_prefix_split(v, w.take(uw));
        match utf8_error_len(w) {
            Some(n) => {
                if 1 <= n && 0 <= uw && uw + n <= w.len() {
                    assert(vw.skip(valid_up_to(vw) + n) =~= w.skip(uw + n));
                    assert(decode_utf8(v) + decode_utf8(w.take(uw)) + seq![replacement()] + lossy(w.skip(uw + n)).0
                        =~= decode_utf8(v) + (decode_utf8(w.take(uw)) + seq![replacement()] + lossy(w.skip(uw + n)).0));
                }
            },
            None => {},
        }
    }
}

/// Lossy decoding in two reads is lossy decoding at once: decoding `p`,
/// then the bytes it left undecoded followed by `x`, gives what decoding
/// `p` followed by `x` gives, and leaves the same bytes undecoded.
pub proof fn lemma_lossy_split(p: Seq<u8>, x: Seq<u8>)
    ensures
        lossy(p).0 + lossy(lossy(p).1 + x).0 == lossy(p + x).0,
        lossy(lossy(p).1 + x).1 == lossy(p + x).1,
    decreases p.len(),
{
    if valid_utf8(p) {
        lemma_lossy_after_valid(p, x);
        assert(Seq::<u8>::empty() + x =~= x);
    } else {
        let up = valid_up_to(p);
        lemma_valid_up_to(p);
        let v = p.take(up);
        let r = p.skip(up);
        assert(v + r =~= p);
        assert(p + x =~= v + (r + x));
        lemma_valid_up_to_shift(v, r);
        lemma_error_len_shift(v, r);
        assert(r.skip(0) =~= r);
        lemma_lossy_after_valid(v, r + x);
        match utf8_error_len(p) {
            Some(n) => {
                if 1 <= n && 0 <= up && up + n <= p.len() {
                    let q = p.skip(up + n);
                    lemma_invalid_stays(r, x);
                    lemma_lossy_split(q, x);
                    assert((r + x).skip(0) =~= r + x);
                    assert((r + x).skip(n as int) =~= q + x);
                    assert((r + x).take(0) =~= Seq::<u8>::empty());
                    assert(decode_utf8(Seq::<u8>::empty()) =~= Seq::<char>::empty());
                    assert(decode_utf8(v) + seq![replacement()] + lossy(q).0 + lossy(lossy(q).1 + x).0
                        =~= decode_utf8(v) + (decode_utf8((r + x).take(0)) + seq![replacement()] + lossy(q + x).0));
                } else {
                    assert(p.skip(up) =~= r);
                }
            },
            None => {
                assert(p.skip(up) =~= r);
            },
        }
    }
}

/// Lossy decoding of a whole byte sequence, as `String::from_utf8_lossy`
/// gives it: an incomplete sequence at the end is one U+FFFD.
pub open spec fn lossy_string(b: Seq<u8>) -> Seq<char> {
    let d = lossy(b);
    if d.1.len() > 0 {
        d.0.push(replacement())
    } else {
        d.0
    }
}

/// Lossy decoding of `bytes`: the decoded characters, and the bytes of an
/// incomplete sequence at the end, which are left for the caller.
pub fn decode_lossy(bytes: &[u8]) -> (r: (Vec<char>, Vec<u8>))
    ensures
        r.0@ == lossy(bytes@).0,
        r.1@ == lossy(bytes@).1,
        r.0@.len() + r.1@.len() <= bytes@.len(),
        r.1@.len() <= 3,
{
    let mut out: Vec<char> = Vec::new();
    let mut start: usize = 0;
    let total = bytes.len();
    assert(bytes@.skip(0) =~= bytes@);
    loop
        invariant
            total == bytes@.len(),
            start <= bytes@.len(),
            out@ + lossy(bytes@.skip(start as int)).0 == lossy(bytes@).0,
            lossy(bytes@.skip(start as int)).1 == lossy(bytes@).1,
            out@.len() <= start,
        decreases bytes@.len() - start,
    {
        let remaining = slice_from(bytes, start);
        let ghost rem = remaining@;
        assert(rem.len() == bytes@.len() - start);
        match check_utf8(remaining) {
            Ok(cs) => {
                proof {
                    lemma_decode_len(rem);
                }
                append_chars(&mut out, &cs);
                assert(lossy(rem).1 =~= Seq::<u8>::empty());
                return (out, Vec::new());
            },
            Err((up, el)) => {
                assert(el matches Some(n) ==> up + n <= rem.len());
                proof {
                    lemma_valid_up_to_unique(rem, up as int);
                    lemma_decode_len(rem.take(up as int));
                }
                let prefix = slice_to(remaining, up);
                let ok = check_utf8(prefix);
                let cs = match ok {
                    Ok(cs) => cs,
                    Err(_) => {
                        assert(prefix@ =~= rem.take(up as int));
                        Vec::new()
                    },
                };
                assert(prefix@ =~= rem.take(up as int));
                append_chars(&mut out, &cs);
                match el {
                    Some(n) => {
                        out.push('\u{fffd}');
                        assert(bytes@.skip(start as int).skip(up + n) =~= bytes@.skip(start + up + n));
                        start = start + up + n;
                    },
                    None => {
                        let tail = slice_from(remaining, up);
                        assert(tail@ =~= rem.skip(up as int));
                        return (out, copy_bytes(tail));
                    },
                }
            },
        }
    }
}

/// `s[start..]`.
fn slice_from(s: &[u8], start: usize) -> (r: &[u8])
    requires
        start <= s@.len(),
    ensures
        r@ == s@.skip(start as int),
{
    let (_, r) = s.split_at(start);
    r
}

/// `s[..end]`.
fn slice_to(s: &[u8], end: usize) -> (r: &[u8])
    requires
        end <= s@.len(),
    ensures
        r@ == s@.take(end as int),
{
    let (r, _) = s.split_at(end);
    r
}

/// A vector holding the bytes of `s`.
pub fn copy_bytes(s: &[u8]) -> (r: Vec<u8>)
    ensures
        r@ == s@,
{
    let mut r: Vec<u8> = Vec::new();
    let mut i: usize = 0;
    while i < s.len()
        invariant
            i <= s@.len(),
            r@ == s@.take(i as int),
        decreases s@.len() - i,
    {
        r.push(s[i]);
        i = i + 1;
        assert(s@.take(i as int) =~= s@.take(i - 1).push(s@[i - 1]));
    }
    assert(s@.take(i as int) =~= s@);
    r
}

/// Appends the characters of `src` to `dst`.
pub fn append_chars(dst: &mut Vec<char>, src: &Vec<char>)
    ensures
        final(dst)@ == old(dst)@ + src@,
{
    let mut i: usize = 0;
    while i < src.len()
        invariant
            i <= src.len(),
            dst@ == old(dst)@ + src@.take(i as int),
        decreases src.len() - i,
    {
        dst.push(src[i]);
        i = i + 1;
        assert(src@.take(i as int) =~= src@.take(i - 1).push(src@[i - 1]));
    }
    assert(src@.take(i as int) =~= src@);
}

/// Whether `c` is a control character (general category Cc).
pub open spec fn is_control_char(c: char) -> bool {
    (c as u32) <= 0x1F || (0x7F <= (c as u32) && (c as u32) <= 0x9F)
}

/// Whether `c` is a control character (general category Cc), as `char::is_control`.
pub fn is_control(c: char) -> (b: bool)
    ensures
        b == is_control_char(c),
{
    let v = c as u32;
    v <= 0x1F || (0x7F <= v && v <= 0x9F)
}

/// Whether `c` has the Unicode `White_Space` property.
pub open spec fn is_white_space_char(c: char) -> bool {
    let v = c as u32;
    ||| 0x09 <= v <= 0x0D
    ||| v == 0x20
    ||| v == 0x85
    ||| v == 0xA0
    ||| v == 0x1680
    ||| 0x2000 <= v <= 0x200A
    ||| v == 0x2028
    ||| v == 0x2029
    ||| v == 0x202F
    ||| v == 0x205F
    ||| v == 0x3000
}

/// Whether `c` has the Unicode `White_Space` property, as `char::is_whitespace`.
pub fn is_whitespace(c: char) -> (b: bool)
    ensures
        b == is_white_space_char(c),
{
    let v = c as u32;
    (0x09 <= v && v <= 0x0D) || v == 0x20 || v == 0x85 || v == 0xA0 || v == 0x1680 || (0x2000
        <= v && v <= 0x200A) || v == 0x2028 || v == 0x2029 || v == 0x202F || v == 0x205F || v
        == 0x3000
}

/// Whether `c` is an ASCII letter or digit.
pub open spec fn is_ascii_alphanumeric_char(c: char) -> bool {
    let v = c as u32;
    (0x30 <= v <= 0x39) || (0x41 <= v <= 0x5A) || (0x61 <= v <= 0x7A)
}

/// Whether `c` is alphabetic or numeric, as `char::is_alphanumeric` decides.
pub uninterp spec fn char_is_alphanumeric(c: char) -> bool;

/// Calls `char::is_alphanumeric`. Trusted: the result is the named property,
/// and for ASCII characters it holds exactly of letters and digits (the
/// standard library tests those ranges directly).
#[verifier::external_body]
pub(crate) fn is_alphanumeric(c: char) -> (b: bool)
    ensures
        b == char_is_alphanumeric(c),
        (c as u32) < 0x80 ==> (b <==> is_ascii_alphanumeric_char(c)),
{
    c.is_alphanumeric()
}

/// Terminal width of a single character, as `unicode_width` assigns it
/// (`None` for control characters).
pub uninterp spec fn char_width(c: char) -> Option<usize>;

/// Calls `UnicodeWidthChar::width`. Trusted: the result is the named width;
/// it is `None` exactly for U+0000..U+001F and U+007F..U+009F, and `Some(1)`
/// for printable ASCII (`single_char_width` tests these ranges first).
#[verifier::external_body]
pub(crate) fn width_of_char(c: char) -> (w: Option<usize>)
    ensures
        w == char_width(c),
        w is None <==> ((c as u32) < 0x20 || (0x7F <= (c as u32) && (c as u32) < 0xA0)),
        (0x20 <= (c as u32) && (c as u32) < 0x7F) ==> w == Some(1usize),
{
    UnicodeWidthChar::width(c)
}

/// Terminal width of a string, as `unicode_width` assigns it.
pub uninterp spec fn str_width(s: Seq<char>) -> usize;

/// Calls `UnicodeWidthStr::width` on the string made of `s`. Trusted: the
/// result is the named width of the characters.
#[verifier::external_body]
pub(crate) fn width_of_chars(s: &Vec<char>) -> (w: usize)
    ensures
        w == str_width(s@),
{
    let text: String = s.iter().collect();
    UnicodeWidthStr::width(text.as_str())
}

/// Concatenation of a sequence of character sequences.
pub open spec fn concat(gs: Seq<Seq<char>>) -> Seq<char>
    decreases gs.len(),
{
    if gs.len() == 0 {
        Seq::empty()
    } else {
        concat(gs.drop_last()) + gs.last()
    }
}

/// The extended grapheme clusters of a string, as `unicode_segmentation` splits it.
pub uninterp spec fn grapheme_clusters(s: Seq<char>) -> Seq<Seq<char>>;

/// Calls `UnicodeSegmentation::graphemes(text, true)`, each cluster as its
/// characters. Trusted: the clusters are the named ones; they are non-empty
/// and, concatenated, give back `text` (the iterator walks the string from
/// boundary to next boundary).
#[verifier::external_body]
pub(crate) fn graphemes(text: &str) -> (r: Vec<Vec<char>>)
    ensures
        r@.map_values(|g: Vec<char>| g@) == grapheme_clusters(text@),
        concat(r@.map_values(|g: Vec<char>| g@)) == text@,
        forall|k: int| 0 <= k < r@.len() ==> #[trigger] r@[k]@.len() > 0,
{
    text.graphemes(true).map(|g| g.chars().collect()).collect()
}

/// The characters of `text`.
pub fn chars_of(text: &str) -> (r: Vec<char>)
    ensures
        r@ == text@,
{
    let mut r: Vec<char> = Vec::new();
    for c in it: text.chars()
        invariant
            r@ == it.seq().take(it.index() as int),
    {
        r.push(c);
    }
    r
}

/// Appends `c` to `s` (`String::push`).
#[verifier::external_body]
pub(crate) fn push_char(s: &mut String, c: char)
    ensures
        final(s)@ == old(s)@.push(c),
{
    s.push(c);
}

/// Appends `t` to `s`.
pub fn push_str(s: &mut String, t: &str)
    ensures
        final(s)@ == old(s)@ + t@,
{
    s.append(t);
}

/// Removes the last character of `s` (`String::pop`).
#[verifier::external_body]
pub(crate) fn pop_char(s: &mut String) -> (r: Option<char>)
    ensures
        old(s)@.len() > 0 ==> final(s)@ == old(s)@.drop_last() && r == Some(old(s)@.last()),
        old(s)@.len() == 0 ==> final(s)@ == old(s)@ && r is None,
{
    s.pop()
}

/// Number of bytes of the UTF-8 encoding of `s` (`str::len`).
pub fn string_bytes(s: &String) -> (n: usize)
    ensures
        n == bytes_len(s@) as usize,
{
    s.as_str().len()
}

/// Dropping the last character does not lengthen the encoding.
pub proof fn lemma_bytes_drop_last(s: Seq<char>)
    requires
        s.len() > 0,
    ensures
        bytes_len(s.drop_last()) + utf8_len(s.last()) == bytes_len(s),
{
    lemma_encode_push(s.drop_last(), s.last());
    assert(s.drop_last().push(s.last()) =~= s);
}

/// Whether two strings are equal.
pub fn str_eq(a: &str, b: &str) -> (r: bool)
    ensures
        r == (a@ == b@),
{
    let x = a.as_bytes();
    let y = b.as_bytes();
    proof {
        vstd::utf8::encode_utf8_decode_utf8(a@);
        vstd::utf8::encode_utf8_decode_utf8(b@);
    }
    assert(x@ == encode_utf8(a@));
    assert(y@ == encode_utf8(b@));
    if x.len() != y.len() {
        return false;
    }
    let mut k: usize = 0;
    while k < x.len()
        invariant
            k <= x@.len(),
            x@.len() == y@.len(),
            x@ == encode_utf8(a@),
            y@ == encode_utf8(b@),
            forall|j: int| 0 <= j < k ==> x@[j] == y@[j],
        decreases x@.len() - k,
    {
        if x[k] != y[k] {
            assert(x@[k as int] != y@[k as int]);
            assert(a@ != b@);
            return false;
        }
        k = k + 1;
    }
    assert(x@ =~= y@);
    true
}

/// Whether `s` starts with the character `c`.
pub fn starts_with_char(s: &str, c: char) -> (r: bool)
    ensures
        r == (s@.len() > 0 && s@[0] == c),
{
    let t = chars_of(s);
    t.len() > 0 && t[0] == c
}

} // verus!
