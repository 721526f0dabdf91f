//! Spec snapshots: each publication of a spec becomes a numbered, complete
//! JSON message `{"text": ...}` in the session's inbox.

use vstd::prelude::*;
use std::path::PathBuf;
use vstd::utf8::encode_scalar;
use crate::text::{is_white_space_char, is_whitespace, chars_of, push_char};

verus! {

#[verifier::external_type_specification]
#[verifier::external_body]
pub struct ExPathBuf(PathBuf);

#[verifier::external_type_specification]
#[verifier::external_body]
pub struct ExJsonError(serde_json::Error);

/// Largest message that is published, in bytes.
pub const MAX_MESSAGE_BYTES: usize = 8388608;

/// One editor's durable inbox.
pub struct SpecSession {
    /// Directory that receives the snapshots.
    pub directory: PathBuf,
    /// Number of the last published snapshot.
    pub sequence: u64,
}

/// Why a spec update is not published.
#[derive(Debug, PartialEq, Eq, Structural)]
pub enum PublishError {
    /// The spec holds nothing but white space.
    Empty,
    /// The JSON message would exceed `MAX_MESSAGE_BYTES`.
    TooLarge,
}

/// A snapshot ready to be written: its number, file name and message.
pub struct Snapshot {
    /// Number of the snapshot.
    pub sequence: u64,
    /// File name: the number in 20 decimal digits, then `.json`.
    pub file_name: String,
    /// The JSON message.
    pub message: Vec<u8>,
}

/// The lowercase hexadecimal digit of `d < 16`.
pub open spec fn hex_digit(d: nat) -> u8 {
    if d < 10 {
        (48 + d) as u8
    } else {
        (87 + d) as u8
    }
}

/// How `serde_json` writes one character inside a string: `"` and `\` and
/// the controls backspace, tab, newline, form feed and carriage return get a
/// two-character escape, other controls below U+0020 become `\u00xx`, and
/// every other character is its UTF-8 encoding.
pub open spec fn json_char(c: char) -> Seq<u8> {
    let v = c as u32;
    if c == '"' {
        seq![92u8, 34]
    } else if c == '\\' {
        seq![92u8, 92]
    } else if v == 8 {
        seq![92u8, 98]
    } else if v == 9 {
        seq![92u8, 116]
    } else if v == 10 {
        seq![92u8, 110]
    } else if v == 12 {
        seq![92u8, 102]
    } else if v == 13 {
        seq![92u8, 114]
    } else if v < 0x20 {
        seq![92u8, 117, 48, 48, hex_digit((v / 16) as nat), hex_digit((v % 16) as nat)]
    } else {
        encode_scalar(v)
    }
}

/// The escaped characters of a string.
pub open spec fn json_chars(s: Seq<char>) -> Seq<u8>
    decreases s.len(),
{
    if s.len() == 0 {
        Seq::empty()
    } else {
        json_chars(s.drop_last()) + json_char(s.last())
    }
}

/// The JSON encoding of a string, as `serde_json` writes it: the escaped
/// characters between double quotes.
pub open spec fn json_text(s: Seq<char>) -> Seq<u8> {
    seq![34u8] + json_chars(s) + seq![34u8]
}

/// Calls `serde_json::to_vec` on the string. Trusted: it succeeds, and the
/// bytes are the JSON encoding `json_text` of `text` (`format_escaped_str`
/// with the `ESCAPE` table and the compact formatter). `to_vec` fails only
/// when a `Serialize` impl fails or a map has non-string keys; a string is
/// written by `serialize_str` into a `Vec<u8>`, whose writes do not fail.
#[verifier::external_body]
fn json_string(text: &str) -> (r: Result<Vec<u8>, serde_json::Error>)
    ensures
        r is Ok,
        r matches Ok(v) ==> v@ == json_text(text@),
{
    serde_json::to_vec(text)
}

/// `{"text":`, the bytes that open a message.
pub open spec fn message_prefix() -> Seq<u8> {
    seq![123u8, 34, 116, 101, 120, 116, 34, 58]
}

/// The message for a JSON-encoded string: a one-field object `{"text":..}`.
pub open spec fn message_of(json: Seq<u8>) -> Seq<u8> {
    message_prefix() + json + seq![125u8]
}

/// Whether every character of `s` is white space (`s.trim()` is empty).
pub open spec fn is_blank(s: Seq<char>) -> bool {
    forall|i: int| 0 <= i < s.len() ==> is_white_space_char(#[trigger] s[i])
}

/// The decimal digit character of `d < 10`.
pub open spec fn digit_char(d: nat) -> char {
    ((48 + d) as u8) as char
}

/// The last `k` decimal digits of `n`, zero-padded.
pub open spec fn padded(n: nat, k: nat) -> Seq<char>
    decreases k,
{
    if k == 0 {
        Seq::empty()
    } else {
        padded(n / 10, (k - 1) as nat).push(digit_char(n % 10))
    }
}

/// The file name of snapshot `n`: 20 decimal digits, then `.json`.
pub open spec fn file_name_of(n: nat) -> Seq<char> {
    padded(n, 20) + seq!['.', 'j', 's', 'o', 'n']
}

/// The last `k` decimal digits of `n`, zero-padded.
fn padded_digits(n: u64, k: usize) -> (r: Vec<char>)
    ensures
        r@ == padded(n as nat, k as nat),
    decreases k,
{
    if k == 0 {
        Vec::new()
    } else {
        let mut r = padded_digits(n / 10, k - 1);
        let d = (n % 10) as u8;
        r.push((48 + d) as char);
        r
    }
}

/// The file name of snapshot `n`.
pub fn file_name(n: u64) -> (s: String)
    ensures
        s@ == file_name_of(n as nat),
{
    let mut s = String::new();
    push_chars(&mut s, &padded_digits(n, 20));
    push_char(&mut s, '.');
    push_char(&mut s, 'j');
    push_char(&mut s, 's');
    push_char(&mut s, 'o');
    push_char(&mut s, 'n');
    assert(s@ =~= file_name_of(n as nat));
    s
}

/// The decimal digits of `n`, without leading zeros.
pub open spec fn decimal(n: nat) -> Seq<char>
    decreases n,
{
    if n < 10 {
        seq![digit_char(n)]
    } else {
        decimal(n / 10).push(digit_char(n % 10))
    }
}

/// The name of a session's inbox: the process id and the creation time in
/// nanoseconds, in decimal, joined by `-`.
pub open spec fn session_name_of(pid: nat, nanos: nat) -> Seq<char> {
    decimal(pid) + seq!['-'] + decimal(nanos)
}

/// The decimal digits of `n`.
fn decimal_digits(n: u128) -> (r: Vec<char>)
    ensures
        r@ == decimal(n as nat),
    decreases n,
{
    let d = (n % 10) as u8;
    let c = (48 + d) as char;
    if n < 10 {
        vec![c]
    } else {
        let mut r = decimal_digits(n / 10);
        r.push(c);
        r
    }
}

/// Appends the characters of `cs` to `s`.
fn push_chars(s: &mut String, cs: &Vec<char>)
    ensures
        final(s)@ == old(s)@ + cs@,
{
    let mut k: usize = 0;
    while k < cs.len()
        invariant
            k <= cs@.len(),
            s@ == old(s)@ + cs@.take(k as int),
        decreases cs@.len() - k,
    {
        push_char(s, cs[k]);
        k = k + 1;
        assert(cs@.take(k as int) =~= cs@.take(k - 1).push(cs@[k - 1]));
    }
    assert(cs@.take(k as int) =~= cs@);
}

/// The name of the inbox of the session of process `pid` created `nanos`
/// nanoseconds after the epoch.
pub fn session_name(pid: u32, nanos: u128) -> (s: String)
    ensures
        s@ == session_name_of(pid as nat, nanos as nat),
{
    let mut s = String::new();
    push_chars(&mut s, &decimal_digits(pid as u128));
    push_char(&mut s, '-');
    push_chars(&mut s, &decimal_digits(nanos));
    assert(s@ =~= session_name_of(pid as nat, nanos as nat));
    s
}

/// The message for a JSON-encoded string.
pub fn frame_message(json: &[u8]) -> (m: Vec<u8>)
    ensures
        m@ == message_of(json@),
{
    let mut m: Vec<u8> = vec![123u8, 34, 116, 101, 120, 116, 34, 58];
    let mut k: usize = 0;
    while k < json.len()
        invariant
            k <= json@.len(),
            m@ == message_prefix() + json@.take(k as int),
        decreases json@.len() - k,
    {
        m.push(json[k]);
        k = k + 1;
        assert(json@.take(k as int) =~= json@.take(k - 1).push(json@[k - 1]));
    }
    assert(json@.take(k as int) =~= json@);
    m.push(125u8);
    assert(m@ =~= message_of(json@));
    m
}

/// Whether `text` is empty once white space is trimmed.
pub fn blank(text: &str) -> (b: bool)
    ensures
        b == is_blank(text@),
{
    let t = chars_of(text);
    let mut k: usize = 0;
    while k < t.len()
        invariant
            k <= t@.len(),
            t@ == text@,
            forall|j: int| 0 <= j < k ==> is_white_space_char(#[trigger] t@[j]),
        decreases t@.len() - k,
    {
        if !is_whitespace(t[k]) {
            return false;
        }
        k = k + 1;
    }
    true
}

impl SpecSession {
    /// The next snapshot for the JSON encoding `json` of a spec: refused when
    /// the message would exceed `MAX_MESSAGE_BYTES`, else numbered one after
    /// the last.
    pub fn snapshot_from_json(&mut self, json: &[u8]) -> (r: Result<Snapshot, PublishError>)
        requires
            message_of(json@).len() <= MAX_MESSAGE_BYTES ==> old(self).sequence < u64::MAX,
        ensures
            message_of(json@).len() > MAX_MESSAGE_BYTES ==> r == Err::<Snapshot, PublishError>(PublishError::TooLarge)
                && final(self).sequence == old(self).sequence,
            message_of(json@).len() <= MAX_MESSAGE_BYTES ==> r is Ok && final(self).sequence == old(self).sequence + 1,
            r matches Ok(s) ==> s.sequence == final(self).sequence && s.file_name@ == file_name_of(s.sequence as nat)
                && s.message@ == message_of(json@),
            final(self).directory == old(self).directory,
    {
        if json.len() > MAX_MESSAGE_BYTES - 9 {
            return Err(PublishError::TooLarge);
        }
        let message = frame_message(json);
        self.sequence = self.sequence + 1;
        let file_name = file_name(self.sequence);
        Ok(Snapshot { sequence: self.sequence, file_name, message })
    }

    /// The next snapshot for a spec's text: refused when the text is blank,
    /// or when the message would be too large. Only a published snapshot
    /// advances the sequence.
    pub fn prepare(&mut self, text: &str) -> (r: Result<Snapshot, PublishError>)
        requires
            !is_blank(text@) && message_of(json_text(text@)).len() <= MAX_MESSAGE_BYTES
                ==> old(self).sequence < u64::MAX,
        ensures
            is_blank(text@) ==> r == Err::<Snapshot, PublishError>(PublishError::Empty),
            !is_blank(text@) && message_of(json_text(text@)).len() > MAX_MESSAGE_BYTES
                ==> r == Err::<Snapshot, PublishError>(PublishError::TooLarge),
            !is_blank(text@) && message_of(json_text(text@)).len() <= MAX_MESSAGE_BYTES ==> r is Ok,
            r is Err ==> final(self).sequence == old(self).sequence,
            r matches Ok(s) ==> final(self).sequence == old(self).sequence + 1 && s.sequence == final(self).sequence
                && s.file_name@ == file_name_of(s.sequence as nat) && s.message@ == message_of(json_text(text@)),
            final(self).directory == old(self).directory,
    {
        if blank(text) {
            return Err(PublishError::Empty);
        }
        match json_string(text) {
            Ok(json) => self.snapshot_from_json(json.as_slice()),
            Err(_) => {
                proof {
                    assert(false);
                }
                Err(PublishError::Empty)
            },
        }
    }
}

/// `a` comes before `b` in character order: they agree up to some index
/// where `a` has the smaller character.
pub open spec fn lex_less(a: Seq<char>, b: Seq<char>) -> bool {
    exists|i: int| 0 <= i < a.len() && i < b.len() && a.take(i) == b.take(i) && (a[i] as u32) < (b[i] as u32)
}

/// `10` to the power `k`.
pub open spec fn pow10(k: nat) -> nat
    decreases k,
{
    if k == 0 {
        1
    } else {
        10 * pow10((k - 1) as nat)
    }
}

/// Zero-padded numbers have `k` digits and compare like the numbers.
proof fn lemma_padded_order(n1: nat, n2: nat, k: nat)
    requires
        n1 < n2 < pow10(k),
    ensures
        padded(n1, k).len() == k,
        padded(n2, k).len() == k,
        lex_less(padded(n1, k), padded(n2, k)),
    decreases k,
{
    lemma_padded_len(n1, k);
    lemma_padded_len(n2, k);
    if k == 0 {
        assert(false);
    } else {
        let p = pow10((k - 1) as nat);
        let (q1, q2) = (n1 / 10, n2 / 10);
        assert(q1 <= q2 && q2 < p) by (nonlinear_arith)
            requires n1 < n2, n2 < 10 * p, q1 == n1 / 10, q2 == n2 / 10;
        let a = padded(q1, (k - 1) as nat);
        let b = padded(q2, (k - 1) as nat);
        lemma_padded_len(q1, (k - 1) as nat);
        lemma_padded_len(q2, (k - 1) as nat);
        let x = a.push(digit_char(n1 % 10));
        let y = b.push(digit_char(n2 % 10));
        if q1 < q2 {
            lemma_padded_order(q1, q2, (k - 1) as nat);
            let i = choose|i: int| 0 <= i < a.len() && i < b.len() && a.take(i) == b.take(i) && (a[i] as u32) < (b[i] as u32);
            assert(x.take(i) =~= a.take(i));
            assert(y.take(i) =~= b.take(i));
            assert(x[i] == a[i] && y[i] == b[i]);
        } else {
            assert(n1 % 10 < n2 % 10) by (nonlinear_arith)
                requires n1 < n2, q1 == q2, q1 == n1 / 10, q2 == n2 / 10;
            let i = (k - 1) as int;
            assert(x.take(i) =~= a);
            assert(y.take(i) =~= b);
            assert((digit_char(n1 % 10) as u32) < (digit_char(n2 % 10) as u32));
        }
    }
}

/// Zero-padded numbers have `k` digits.
proof fn lemma_padded_len(n: nat, k: nat)
    ensures
        padded(n, k).len() == k,
    decreases k,
{
    if k > 0 {
        lemma_padded_len(n / 10, (k - 1) as nat);
    }
}

/// Snapshot file names sort like their numbers, so a later snapshot never
/// shares a name with, nor sorts before, an earlier one.
pub proof fn law_file_names_ordered(n1: u64, n2: u64)
    requires
        n1 < n2,
    ensures
        lex_less(file_name_of(n1 as nat), file_name_of(n2 as nat)),
        file_name_of(n1 as nat) != file_name_of(n2 as nat),
{
    assert(pow10(20) == 100000000000000000000) by {
        reveal_with_fuel(pow10, 21);
    }
    lemma_padded_order(n1 as nat, n2 as nat, 20);
    let a = padded(n1 as nat, 20);
    let b = padded(n2 as nat, 20);
    let suffix = seq!['.', 'j', 's', 'o', 'n'];
    let i = choose|i: int| 0 <= i < a.len() && i < b.len() && a.take(i) == b.take(i) && (a[i] as u32) < (b[i] as u32);
    let x = file_name_of(n1 as nat);
    let y = file_name_of(n2 as nat);
    assert(x.take(i) =~= a.take(i));
    assert(y.take(i) =~= b.take(i));
    assert(x[i] == a[i] && y[i] == b[i]);
    assert(x[i] != y[i]);
}

} // verus!
