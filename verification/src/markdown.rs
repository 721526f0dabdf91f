//! Lightweight, source-preserving Markdown highlighting of streamed output.

use vstd::prelude::*;
use vstd::utf8::*;
use crate::syntax::RESET;
use crate::text::{
    bytes_len, char_is_alphanumeric, chars_of, concat, grapheme_clusters, graphemes,
    is_alphanumeric, is_control, is_control_char, is_white_space_char, is_whitespace, len_utf8,
    lemma_encode_push, push_char, push_str, str_width, width_of_chars,
};

verus! {

broadcast use vstd::utf8::char_is_scalar;

/// Colour of a Markdown element.
#[derive(Clone, Copy, Debug, PartialEq, Eq, Structural)]
pub enum Color {
    /// No colour.
    Plain,
    /// Headings.
    Heading,
    /// Emphasis.
    Emphasis,
    /// Inline and fenced code.
    Code,
    /// Links.
    Link,
    /// List markers and block quotes.
    Marker,
}

impl Color {
    /// The escape sequence that selects this colour, as characters.
    pub open spec fn spec_escape(self) -> Seq<char> {
        match self {
            Color::Plain => ""@,
            Color::Heading => "\x1b[1;36m"@,
            Color::Emphasis => "\x1b[1;35m"@,
            Color::Code => "\x1b[33m"@,
            Color::Link => "\x1b[34m"@,
            Color::Marker => "\x1b[32m"@,
        }
    }

    /// The escape sequence that selects this colour.
    pub fn escape(&self) -> (s: &'static str)
        ensures
            s@ == self.spec_escape(),
    {
        match self {
            Color::Plain => "",
            Color::Heading => "\x1b[1;36m",
            Color::Emphasis => "\x1b[1;35m",
            Color::Code => "\x1b[33m",
            Color::Link => "\x1b[34m",
            Color::Marker => "\x1b[32m",
        }
    }
}

/// Number of consecutive `c` in `s` from index `i` on.
pub open spec fn run(s: Seq<char>, i: int, c: char) -> nat
    decreases s.len() - i,
{
    if 0 <= i < s.len() && s[i] == c {
        1 + run(s, i + 1, c)
    } else {
        0
    }
}

/// Number of leading characters of `s` that have the `White_Space` property.
pub open spec fn ws_run(s: Seq<char>, i: int) -> nat
    decreases s.len() - i,
{
    if 0 <= i < s.len() && is_white_space_char(s[i]) {
        1 + ws_run(s, i + 1)
    } else {
        0
    }
}

/// Number of leading ASCII digits of `s` from index `i` on.
pub open spec fn digit_run(s: Seq<char>, i: int) -> nat
    decreases s.len() - i,
{
    if 0 <= i < s.len() && '0' <= s[i] <= '9' {
        1 + digit_run(s, i + 1)
    } else {
        0
    }
}

/// Every character of `s` is white space.
pub open spec fn all_white_space(s: Seq<char>) -> bool {
    forall|i: int| 0 <= i < s.len() ==> is_white_space_char(#[trigger] s[i])
}

/// `pat` occurs in `s` at `i`.
pub open spec fn occurs(s: Seq<char>, i: int, pat: Seq<char>) -> bool {
    0 <= i && i + pat.len() <= s.len() && s.subrange(i, i + pat.len()) == pat
}

/// The first index at or after `i` where `pat` occurs in `s`.
pub open spec fn find_from(s: Seq<char>, pat: Seq<char>, i: int) -> Option<int>
    decreases s.len() + 1 - i,
{
    if i < 0 || i + pat.len() > s.len() {
        None
    } else if occurs(s, i, pat) {
        Some(i)
    } else {
        find_from(s, pat, i + 1)
    }
}

/// `s` starts with `pat`.
pub open spec fn starts(s: Seq<char>, pat: Seq<char>) -> bool {
    occurs(s, 0, pat)
}

/// The fence state after a line, and whether the line is inside a fence:
/// a line indented by at most three spaces that starts with at least three
/// backticks or tildes opens a fence (backticks only when no backtick
/// follows), and a line with at least as many of the opening character and
/// nothing else but white space closes it.
pub open spec fn advance_spec(fence: Option<(u8, usize)>, t: Seq<char>) -> (Option<(u8, usize)>, bool) {
    let indent = run(t, 0, ' ');
    let trimmed = t.skip(indent as int);
    let m = if trimmed.len() > 0 {
        trimmed[0]
    } else {
        '\0'
    };
    let count = run(trimmed, 0, m);
    let rest = trimmed.skip(count as int);
    let next = if indent <= 3 && (m == '`' || m == '~') && count >= 3 {
        match fence {
            Some(f) => if (m as u8) == f.0 && count >= f.1 && all_white_space(rest) {
                None
            } else {
                fence
            },
            None => if m != '`' || !rest.contains('`') {
                Some(((m as u8), count as usize))
            } else {
                None
            },
        }
    } else {
        fence
    };
    (next, fence is Some || next is Some)
}

/// `colors` with `[from, to)` set to `c`.
pub open spec fn fill(colors: Seq<Color>, from: int, to: int, c: Color) -> Seq<Color> {
    Seq::new(colors.len(), |j: int| if from <= j < to { c } else { colors[j] })
}

/// Length of the emphasis or code delimiter at `p`: a run of backticks, `**`
/// or `__`, a single `*` or `_`, or 0.
pub open spec fn delim_len(t: Seq<char>, p: int) -> nat {
    if t[p] == '`' {
        run(t, p, '`')
    } else if starts(t.skip(p), seq!['*', '*']) || starts(t.skip(p), seq!['_', '_']) {
        2
    } else if t[p] == '*' || t[p] == '_' {
        1
    } else {
        0
    }
}

/// Where the span that starts at `p` ends (exclusive), if one does: code or
/// emphasis closed by the same delimiter (emphasis must not open before white
/// space nor right after a letter or digit), else a link `[..](..)`.
pub open spec fn span_end(t: Seq<char>, p: int) -> Option<(int, Color)> {
    let dlen = delim_len(t, p) as int;
    let d = t.subrange(p, p + dlen);
    let inner = t.skip(p + dlen);
    let rest = t.skip(p);
    let emphasis_ok = t[p] == '`' || (!(inner.len() > 0 && is_white_space_char(inner[0])) && (p == 0
        || !char_is_alphanumeric(t[p - 1])));
    let close = find_from(inner, d, 0);
    let label = find_from(rest, seq![']', '('], 0);
    if dlen > 0 && close is Some && close->0 > 0 && emphasis_ok {
        Some(
            (
                p + 2 * dlen + close->0,
                if t[p] == '`' {
                    Color::Code
                } else {
                    Color::Emphasis
                },
            ),
        )
    } else if t[p] == '[' && label is Some && find_from(rest.skip(label->0 + 2), seq![')'], 0) is Some {
        Some((p + label->0 + 3 + find_from(rest.skip(label->0 + 2), seq![')'], 0)->0, Color::Link))
    } else {
        None
    }
}

/// Inline colours from `p` on: escapes skip the next character; code,
/// emphasis and links colour their whole span.
pub open spec fn scan(t: Seq<char>, p: int, colors: Seq<Color>) -> Seq<Color>
    decreases (if p < t.len() { t.len() - p } else { 0 }),
{
    if p < 0 || p >= t.len() {
        colors
    } else if t[p] == '\\' {
        scan(t, if p + 1 < t.len() { p + 2 } else { p + 1 }, colors)
    } else if span_end(t, p) is Some && (span_end(t, p)->0).0 > p {
        let e = span_end(t, p)->0;
        scan(t, e.0, fill(colors, p, e.0, e.1))
    } else {
        scan(t, p + 1, colors)
    }
}

/// Block colours of a line that is not in a fence: headings and block quotes
/// colour the whole line, list markers colour themselves.
pub open spec fn block_colors(t: Seq<char>) -> Seq<Color> {
    let plain = Seq::new(t.len(), |_j: int| Color::Plain);
    let ws = ws_run(t, 0) as int;
    let indent = bytes_len(t.take(ws));
    let trimmed = t.skip(ws);
    let hashes = run(trimmed, 0, '#');
    if indent <= 3 && 1 <= hashes <= 6 && (hashes == trimmed.len() || trimmed[hashes as int] == ' ') {
        Seq::new(t.len(), |_j: int| Color::Heading)
    } else if trimmed.len() > 0 && trimmed[0] == '>' {
        Seq::new(t.len(), |_j: int| Color::Marker)
    } else {
        let digits = digit_run(trimmed, 0) as int;
        let marker = if starts(trimmed, seq!['-', ' ']) || starts(trimmed, seq!['*', ' ']) || starts(
            trimmed,
            seq!['+', ' '],
        ) {
            1
        } else if 1 <= digits <= 9 && (starts(trimmed.skip(digits), seq!['.', ' ']) || starts(
            trimmed.skip(digits),
            seq![')', ' '],
        )) {
            digits + 1
        } else {
            0
        };
        fill(plain, ws, ws + marker, Color::Marker)
    }
}

/// The colour of each character of a line.
pub open spec fn line_colors(fenced: bool, t: Seq<char>) -> Seq<Color> {
    if fenced || starts(t, seq![' ', ' ', ' ', ' ']) {
        Seq::new(t.len(), |_j: int| Color::Code)
    } else {
        scan(t, 0, block_colors(t))
    }
}

/// Emission state: columns used, current colour, output, and whether the pane
/// is full.
pub type EmitState = (nat, Color, Seq<char>, bool);

/// Emitting the first `k` graphemes of `gs` within `width` columns: graphemes
/// with a control character are dropped, colour changes reset first.
pub open spec fn emit(gs: Seq<Seq<char>>, ws: Seq<nat>, colors: Seq<Color>, width: nat, k: int) -> EmitState
    decreases k,
{
    if k <= 0 {
        (0, Color::Plain, Seq::empty(), false)
    } else {
        let s = emit(gs, ws, colors, width, k - 1);
        let g = gs[k - 1];
        let start = concat(gs.take(k - 1)).len() as int;
        if s.3 || exists|i: int| 0 <= i < g.len() && is_control_char(#[trigger] g[i]) {
            s
        } else if s.0 + ws[k - 1] > width {
            (s.0, s.1, s.2, true)
        } else {
            let c = colors[start];
            let o = if c != s.1 {
                s.2 + RESET@ + c.spec_escape()
            } else {
                s.2
            };
            ((s.0 + ws[k - 1]) as nat, c, o + g, false)
        }
    }
}

/// The terminal widths of grapheme clusters.
pub open spec fn cluster_widths(gs: Seq<Seq<char>>) -> Seq<nat> {
    gs.map_values(|g: Seq<char>| str_width(g) as nat)
}

/// What emitting all of `gs`, with widths `ws`, appends (closing with a reset
/// when a colour is on), and the columns it uses.
pub open spec fn emitted(gs: Seq<Seq<char>>, ws: Seq<nat>, colors: Seq<Color>, width: nat) -> (Seq<char>, nat) {
    let s = emit(gs, ws, colors, width, gs.len() as int);
    (s.2 + if s.1 != Color::Plain {
        RESET@
    } else {
        Seq::empty()
    }, s.0)
}

/// What drawing a line appends, and the columns it uses.
pub open spec fn draw_line(fenced: bool, t: Seq<char>, width: nat) -> (Seq<char>, nat) {
    let gs = grapheme_clusters(t);
    emitted(gs, cluster_widths(gs), line_colors(fenced, t), width)
}

/// Lightweight, source-preserving Markdown highlighting for streamed output.
#[derive(Clone, Copy)]
pub struct Markdown {
    fence: Option<(u8, usize)>,
}

impl Default for Markdown {
    /// No fence is open.
    fn default() -> (m: Self)
        ensures
            m.fence() is None,
    {
        Markdown { fence: None }
    }
}

impl Markdown {
    /// The open fence, if any: its character and length.
    pub closed spec fn fence(self) -> Option<(u8, usize)> {
        self.fence
    }
}

/// `run` counts a run of equal characters.
proof fn lemma_run(s: Seq<char>, i: int, c: char)
    requires
        0 <= i,
    ensures
        i + run(s, i, c) <= s.len() || run(s, i, c) == 0,
        forall|j: int| i <= j < i + run(s, i, c) ==> s[j] == c,
        i + run(s, i, c) < s.len() ==> s[i + run(s, i, c)] != c,
    decreases s.len() - i,
{
    if 0 <= i < s.len() && s[i] == c {
        lemma_run(s, i + 1, c);
    }
}

/// Number of consecutive `c` in `t` from `i` on.
fn run_of(t: &Vec<char>, i: usize, c: char) -> (n: usize)
    requires
        i <= t@.len(),
    ensures
        n == run(t@, i as int, c),
        i + n <= t@.len(),
{
    let mut j = i;
    while j < t.len() && t[j] == c
        invariant
            i <= j <= t@.len(),
            run(t@, i as int, c) == (j - i) + run(t@, j as int, c),
        decreases t@.len() - j,
    {
        j = j + 1;
    }
    j - i
}

/// Number of leading white-space characters of `t`.
fn ws_run_of(t: &Vec<char>) -> (n: usize)
    ensures
        n == ws_run(t@, 0),
        n <= t@.len(),
{
    let mut j: usize = 0;
    while j < t.len() && is_whitespace(t[j])
        invariant
            j <= t@.len(),
            ws_run(t@, 0) == j + ws_run(t@, j as int),
        decreases t@.len() - j,
    {
        j = j + 1;
    }
    j
}

/// Number of leading ASCII digits of `t`.
fn digit_run_of(t: &Vec<char>) -> (n: usize)
    ensures
        n == digit_run(t@, 0),
        n <= t@.len(),
{
    let mut j: usize = 0;
    while j < t.len() && '0' <= t[j] && t[j] <= '9'
        invariant
            j <= t@.len(),
            digit_run(t@, 0) == j + digit_run(t@, j as int),
        decreases t@.len() - j,
    {
        j = j + 1;
    }
    j
}

/// `t[k..]`.
fn skip_chars(t: &Vec<char>, k: usize) -> (r: Vec<char>)
    requires
        k <= t@.len(),
    ensures
        r@ == t@.skip(k as int),
{
    let mut r: Vec<char> = Vec::new();
    let mut j = k;
    while j < t.len()
        invariant
            k <= j <= t@.len(),
            r@ == t@.subrange(k as int, j as int),
        decreases t@.len() - j,
    {
        r.push(t[j]);
        j = j + 1;
        assert(r@ =~= t@.subrange(k as int, j as int));
    }
    assert(r@ =~= t@.skip(k as int));
    r
}

/// Whether `t` starts with the two characters `a` and `b`.
fn starts2(t: &Vec<char>, a: char, b: char) -> (r: bool)
    ensures
        r == starts(t@, seq![a, b]),
{
    if t.len() >= 2 && t[0] == a && t[1] == b {
        assert(t@.subrange(0, 2) =~= seq![a, b]);
        true
    } else {
        if t.len() >= 2 {
            assert(t@.subrange(0, 2)[0] == t@[0]);
            assert(t@.subrange(0, 2)[1] == t@[1]);
        }
        false
    }
}

/// Whether `pat` occurs in `t` at `start + i`.
fn occurs_at(t: &Vec<char>, start: usize, i: usize, pat: &Vec<char>) -> (b: bool)
    requires
        start <= t@.len(),
    ensures
        b == occurs(t@.skip(start as int), i as int, pat@),
{
    let ghost sk = t@.skip(start as int);
    let n = t.len();
    if pat.len() > t.len() - start || i > t.len() - start - pat.len() {
        return false;
    }
    let mut k: usize = 0;
    while k < pat.len()
        invariant
            n == t@.len(),
            k <= pat@.len(),
            start + i + pat@.len() <= t@.len(),
            sk == t@.skip(start as int),
            forall|j: int| 0 <= j < k ==> sk[i + j] == pat@[j],
        decreases pat@.len() - k,
    {
        if t[start + i + k] != pat[k] {
            assert(sk.subrange(i as int, i + pat@.len())[k as int] != pat@[k as int]);
            return false;
        }
        k = k + 1;
    }
    assert(sk.subrange(i as int, i + pat@.len()) =~= pat@);
    true
}

/// `find_from` finds an occurrence.
proof fn lemma_find_from(s: Seq<char>, pat: Seq<char>, i: int)
    requires
        0 <= i,
    ensures
        find_from(s, pat, i) matches Some(e) ==> i <= e && occurs(s, e, pat),
    decreases s.len() + 1 - i,
{
    if i + pat.len() <= s.len() && !occurs(s, i, pat) {
        lemma_find_from(s, pat, i + 1);
    }
}

/// The first occurrence of `pat` in `t[start..]`, relative to `start`.
fn find_in(t: &Vec<char>, start: usize, pat: &Vec<char>) -> (r: Option<usize>)
    requires
        start <= t@.len(),
    ensures
        r is Some <==> find_from(t@.skip(start as int), pat@, 0) is Some,
        r matches Some(e) ==> find_from(t@.skip(start as int), pat@, 0) == Some(e as int) && start + e + pat@.len() <= t@.len(),
{
    let ghost sk = t@.skip(start as int);
    let n = t.len();
    if pat.len() == 0 {
        assert(sk.subrange(0, 0) =~= pat@);
        return Some(0);
    }
    let mut i: usize = 0;
    while pat.len() <= t.len() - start && i <= t.len() - start - pat.len()
        invariant
            n == t@.len(),
            pat@.len() >= 1,
            start <= t@.len(),
            sk == t@.skip(start as int),
            find_from(sk, pat@, 0) == find_from(sk, pat@, i as int),
        decreases t@.len() - start - i,
    {
        if occurs_at(t, start, i, pat) {
            return Some(i);
        }
        i = i + 1;
    }
    None
}

/// `n` copies of `c`.
fn repeat_char(c: char, n: usize) -> (r: Vec<char>)
    ensures
        r@ == Seq::new(n as nat, |_j: int| c),
{
    let mut r: Vec<char> = Vec::new();
    let mut k: usize = 0;
    while k < n
        invariant
            k <= n,
            r@ == Seq::new(k as nat, |_j: int| c),
        decreases n - k,
    {
        r.push(c);
        k = k + 1;
        assert(r@ =~= Seq::new(k as nat, |_j: int| c));
    }
    r
}

/// Sets `colors[from..to]` to `c`.
fn fill_colors(colors: &mut Vec<Color>, from: usize, to: usize, c: Color)
    requires
        to <= old(colors)@.len(),
    ensures
        final(colors)@ == fill(old(colors)@, from as int, to as int, c),
{
    let mut j = from;
    assert(fill(old(colors)@, from as int, from as int, c) =~= old(colors)@);
    while j < to
        invariant
            to <= colors@.len(),
            from <= j,
            j <= to || j == from,
            colors@ == fill(old(colors)@, from as int, j as int, c),
        decreases to - j,
    {
        colors.set(j, c);
        j = j + 1;
        assert(colors@ =~= fill(old(colors)@, from as int, j as int, c));
    }
    assert(colors@ =~= fill(old(colors)@, from as int, to as int, c));
}

/// The span that starts at `p`, on the executable side.
fn span_at(t: &Vec<char>, p: usize) -> (r: Option<(usize, Color)>)
    requires
        p < t@.len(),
    ensures
        r is Some <==> span_end(t@, p as int) is Some,
        r matches Some(e) ==> span_end(t@, p as int) == Some((e.0 as int, e.1)) && e.0 <= t@.len(),
{
    let ghost tv = t@;
    let n = t.len();
    let c = t[p];
    let dlen: usize = if c == '`' {
        run_of(t, p, '`')
    } else {
        let rest = skip_chars(t, p);
        if starts2(&rest, '*', '*') || starts2(&rest, '_', '_') {
            2
        } else if c == '*' || c == '_' {
            1
        } else {
            0
        }
    };
    assert(dlen == delim_len(tv, p as int));
    proof {
        lemma_run(tv, p as int, '`');
    }
    if dlen > 0 {
        assert(p + dlen <= tv.len()) by {
            if c != '`' {
                if dlen == 2 {
                    assert(tv.skip(p as int).len() >= 2);
                }
            }
        }
        let d = repeat_char(c, dlen);
        assert(d@ =~= tv.subrange(p as int, p + dlen)) by {
            if c != '`' && dlen == 2 {
                let r = tv.skip(p as int);
                assert(r.subrange(0, 2)[1] == r[1]);
                assert(r[1] == tv[p + 1]);
            }
        }
        let close = find_in(t, p + dlen, &d);
        if let Some(e) = close {
            let inner_ws = p + dlen < t.len() && is_whitespace(t[p + dlen]);
            let emphasis_ok = c == '`' || (!inner_ws && (p == 0 || !is_alphanumeric(t[p - 1])));
            proof {
                let inner = tv.skip(p + dlen);
                assert(inner.len() > 0 ==> inner[0] == tv[p + dlen]);
            }
            if e > 0 && emphasis_ok {
                let color = if c == '`' {
                    Color::Code
                } else {
                    Color::Emphasis
                };
                return Some((p + 2 * dlen + e, color));
            }
        }
    }
    if c == '[' {
        let open = vec![']', '('];
        assert(open@ =~= seq![']', '(']);
        if let Some(label) = find_in(t, p, &open) {
            let close = vec![')'];
            assert(close@ =~= seq![')']);
            assert(tv.skip(p as int).skip(label + 2) =~= tv.skip(p + label + 2));
            if let Some(e) = find_in(t, p + label + 2, &close) {
                return Some((p + label + 3 + e, Color::Link));
            }
        }
    }
    None
}

/// Block colours of a line, on the executable side.
fn block_colors_of(t: &Vec<char>) -> (r: Vec<Color>)
    ensures
        r@ == block_colors(t@),
{
    let n = t.len();
    let ws = ws_run_of(t);
    let mut indent: usize = 0;
    let mut j: usize = 0;
    while j < ws && indent <= 3
        invariant
            ws <= t@.len(),
            j <= ws,
            indent == bytes_len(t@.take(j as int)),
            indent <= 7,
        decreases ws - j,
    {
        proof {
            lemma_encode_push(t@.take(j as int), t@[j as int]);
            assert(t@.take(j as int).push(t@[j as int]) =~= t@.take(j + 1));
        }
        indent = indent + len_utf8(t[j]);
        j = j + 1;
    }
    proof {
        crate::text::lemma_encode_append(t@.take(j as int), t@.subrange(j as int, ws as int));
        assert(t@.take(j as int) + t@.subrange(j as int, ws as int) =~= t@.take(ws as int));
    }
    let trimmed = skip_chars(t, ws);
    let hashes = run_of(&trimmed, 0, '#');
    let mut colors: Vec<Color> = Vec::new();
    let mut k: usize = 0;
    while k < n
        invariant
            n == t@.len(),
            k <= n,
            colors@ == Seq::new(k as nat, |_j: int| Color::Plain),
        decreases n - k,
    {
        colors.push(Color::Plain);
        k = k + 1;
        assert(colors@ =~= Seq::new(k as nat, |_j: int| Color::Plain));
    }
    if indent <= 3 && 1 <= hashes && hashes <= 6 && (hashes == trimmed.len() || trimmed[hashes] == ' ') {
        fill_colors(&mut colors, 0, n, Color::Heading);
        assert(colors@ =~= Seq::new(t@.len(), |_j: int| Color::Heading));
    } else if trimmed.len() > 0 && trimmed[0] == '>' {
        fill_colors(&mut colors, 0, n, Color::Marker);
        assert(colors@ =~= Seq::new(t@.len(), |_j: int| Color::Marker));
    } else {
        let digits = digit_run_of(&trimmed);
        let marker: usize = if starts2(&trimmed, '-', ' ') || starts2(&trimmed, '*', ' ') || starts2(&trimmed, '+', ' ') {
            1
        } else if 1 <= digits && digits <= 9 {
            let after = skip_chars(&trimmed, digits);
            if starts2(&after, '.', ' ') || starts2(&after, ')', ' ') {
                digits + 1
            } else {
                0
            }
        } else {
            0
        };
        proof {
            if marker == 1 {
                assert(trimmed@.len() >= 2);
            } else if marker > 1 {
                assert(trimmed@.skip(digits as int).len() >= 2);
            }
        }
        fill_colors(&mut colors, ws, ws + marker, Color::Marker);
    }
    colors
}

/// Scanning keeps one colour per character.
proof fn lemma_scan_len(t: Seq<char>, p: int, colors: Seq<Color>)
    ensures
        scan(t, p, colors).len() == colors.len(),
    decreases (if p < t.len() { t.len() - p } else { 0 }),
{
    if p < 0 || p >= t.len() {
    } else if t[p] == '\\' {
        lemma_scan_len(t, if p + 1 < t.len() { p + 2 } else { p + 1 }, colors);
    } else if span_end(t, p) is Some && (span_end(t, p)->0).0 > p {
        let e = span_end(t, p)->0;
        lemma_scan_len(t, e.0, fill(colors, p, e.0, e.1));
    } else {
        lemma_scan_len(t, p + 1, colors);
    }
}

/// The colour of each character of a line.
pub fn line_colors_of(fenced: bool, t: &Vec<char>) -> (r: Vec<Color>)
    ensures
        r@ == line_colors(fenced, t@),
        r@.len() == t@.len(),
{
    proof {
        lemma_scan_len(t@, 0, block_colors(t@));
    }
    let n = t.len();
    let four = t.len() >= 4 && t[0] == ' ' && t[1] == ' ' && t[2] == ' ' && t[3] == ' ';
    proof {
        if t@.len() >= 4 {
            let sub = t@.subrange(0, 4);
            assert(sub[0] == t@[0] && sub[1] == t@[1] && sub[2] == t@[2] && sub[3] == t@[3]);
            if four {
                assert(sub =~= seq![' ', ' ', ' ', ' ']);
            }
        }
    }
    if fenced || four {
        let mut colors: Vec<Color> = Vec::new();
        let mut k: usize = 0;
        while k < n
            invariant
                n == t@.len(),
                k <= n,
                colors@ == Seq::new(k as nat, |_j: int| Color::Code),
            decreases n - k,
        {
            colors.push(Color::Code);
            k = k + 1;
            assert(colors@ =~= Seq::new(k as nat, |_j: int| Color::Code));
        }
        return colors;
    }
    let mut colors = block_colors_of(t);
    let mut p: usize = 0;
    while p < n
        invariant
            n == t@.len(),
            colors@.len() == n,
            scan(t@, p as int, colors@) == scan(t@, 0, block_colors(t@)),
        decreases n - p,
    {
        if t[p] == '\\' {
            p = if p + 1 < n {
                p + 2
            } else {
                p + 1
            };
        } else {
            match span_at(t, p) {
                Some((e, c)) => {
                    if e > p {
                        fill_colors(&mut colors, p, e, c);
                        p = e;
                    } else {
                        p = p + 1;
                    }
                },
                None => {
                    p = p + 1;
                },
            }
        }
    }
    colors
}

impl Markdown {
    /// Advance block state even for lines outside the visible scrollback.
    pub fn advance(&mut self, text: &str) -> (fenced: bool)
        ensures
            (final(self).fence(), fenced) == advance_spec(old(self).fence(), text@),
    {
        let t = chars_of(text);
        let indent = run_of(&t, 0, ' ');
        let trimmed = skip_chars(&t, indent);
        let marker = if trimmed.len() > 0 {
            trimmed[0]
        } else {
            '\0'
        };
        let count = run_of(&trimmed, 0, marker);
        let rest = skip_chars(&trimmed, count);
        let fenced = self.fence.is_some();
        if indent <= 3 && (marker == '`' || marker == '~') && count >= 3 {
            if let Some((opening, size)) = self.fence {
                if marker as u8 == opening && count >= size && all_ws(&rest) {
                    self.fence = None;
                }
            } else if marker != '`' || !contains_char(&rest, '`') {
                self.fence = Some((marker as u8, count));
            }
        }
        fenced || self.fence.is_some()
    }

    /// Emit only our own colour sequences, clipping complete graphemes to the pane.
    pub fn draw(&mut self, buffer: &mut String, text: &str, width: usize) -> (used: usize)
        ensures
            final(self).fence() == advance_spec(old(self).fence(), text@).0,
            final(buffer)@ == old(buffer)@ + draw_line(advance_spec(old(self).fence(), text@).1, text@, width as nat).0,
            used == draw_line(advance_spec(old(self).fence(), text@).1, text@, width as nat).1,
            used <= width,
    {
        let fenced = self.advance(text);
        let t = chars_of(text);
        let colors = line_colors_of(fenced, &t);
        let gs = graphemes(text);
        let ghost gv = gs@.map_values(|g: Vec<char>| g@);
        let mut ws: Vec<usize> = Vec::new();
        let mut k: usize = 0;
        while k < gs.len()
            invariant
                gv == gs@.map_values(|g: Vec<char>| g@),
                k <= gs@.len(),
                ws@.len() == k,
                forall|j: int| 0 <= j < k ==> ws@[j] == str_width(#[trigger] gv[j]),
            decreases gs@.len() - k,
        {
            let w = width_of_chars(&gs[k]);
            ws.push(w);
            k = k + 1;
        }
        proof {
            assert(ws@.map_values(|w: usize| w as nat) =~= cluster_widths(gv));
        }
        emit_graphemes(buffer, &gs, &ws, &colors, width)
    }
}

/// Emit the grapheme clusters `gs`, of terminal widths `ws`, in the colours
/// `colors` of their characters, within `width` columns: clusters with a
/// control character are dropped, a cluster that does not fit ends the line,
/// each change of colour resets first, and a colour still on is reset at the
/// end. Returns the columns used.
pub fn emit_graphemes(buffer: &mut String, gs: &Vec<Vec<char>>, ws: &Vec<usize>, colors: &Vec<Color>, width: usize) -> (used: usize)
    requires
        ws@.len() == gs@.len(),
        forall|x: int| 0 <= x < gs@.len() ==> #[trigger] gs@[x]@.len() > 0,
        concat(gs@.map_values(|g: Vec<char>| g@)).len() <= colors@.len(),
    ensures
        final(buffer)@ == old(buffer)@ + emitted(
            gs@.map_values(|g: Vec<char>| g@),
            ws@.map_values(|w: usize| w as nat),
            colors@,
            width as nat,
        ).0,
        used == emitted(gs@.map_values(|g: Vec<char>| g@), ws@.map_values(|w: usize| w as nat), colors@, width as nat).1,
        used <= width,
{
    let ghost gv = gs@.map_values(|g: Vec<char>| g@);
    let ghost wv = ws@.map_values(|w: usize| w as nat);
    let ghost base = buffer@;
    let mut used: usize = 0;
    let mut current = Color::Plain;
    let mut full = false;
    let mut pos: usize = 0;
    let mut k: usize = 0;
    let tn = colors.len();
    proof {
        assert(gv.take(0) =~= Seq::<Seq<char>>::empty());
        lemma_concat_prefix(gv, 0);
    }
    while k < gs.len()
        invariant
            gv == gs@.map_values(|g: Vec<char>| g@),
            wv == ws@.map_values(|w: usize| w as nat),
            ws@.len() == gs@.len(),
            tn == colors@.len(),
            concat(gv).len() <= tn,
            forall|x: int| 0 <= x < gs@.len() ==> #[trigger] gs@[x]@.len() > 0,
            k <= gs@.len(),
            pos == concat(gv.take(k as int)).len(),
            used <= width,
            buffer@.len() >= base.len(),
            buffer@.subrange(0, base.len() as int) == base,
            (used as nat, current, buffer@.subrange(base.len() as int, buffer@.len() as int), full)
                == emit(gv, wv, colors@, width as nat, k as int),
        decreases gs@.len() - k,
    {
        let g = &gs[k];
        let ghost before = buffer@;
        proof {
            lemma_concat_prefix(gv, k as int);
            assert(gv[k as int] == g@);
        }
        let mut has_control = false;
        let mut x: usize = 0;
        while x < g.len()
            invariant
                x <= g@.len(),
                has_control == exists|i: int| 0 <= i < x && is_control_char(#[trigger] g@[i]),
            decreases g@.len() - x,
        {
            if is_control(g[x]) {
                has_control = true;
            }
            x = x + 1;
        }
        if !full && !has_control {
            let columns = ws[k];
            if columns > width - used {
                full = true;
            } else {
                let c = colors[pos];
                if c != current {
                    push_str(buffer, RESET);
                    push_str(buffer, c.escape());
                    current = c;
                }
                push_all(buffer, g);
                used = used + columns;
            }
        }
        assert(pos + g@.len() <= tn);
        pos = pos + g.len();
        k = k + 1;
        proof {
            assert(gv.take(k as int).drop_last() =~= gv.take(k - 1));
            assert(buffer@.subrange(0, base.len() as int) =~= before.subrange(0, base.len() as int));
            assert(buffer@.subrange(base.len() as int, buffer@.len() as int) =~= emit(gv, wv, colors@, width as nat, k as int).2);
        }
    }
    let ghost out = buffer@.subrange(base.len() as int, buffer@.len() as int);
    assert(buffer@ =~= base + out);
    if current != Color::Plain {
        push_str(buffer, RESET);
    }
    used
}

/// Appends the characters of `g`.
fn push_all(buffer: &mut String, g: &Vec<char>)
    ensures
        final(buffer)@ == old(buffer)@ + g@,
{
    let mut k: usize = 0;
    while k < g.len()
        invariant
            k <= g@.len(),
            buffer@ == old(buffer)@ + g@.take(k as int),
        decreases g@.len() - k,
    {
        push_char(buffer, g[k]);
        k = k + 1;
        assert(g@.take(k as int) =~= g@.take(k - 1).push(g@[k - 1]));
    }
    assert(g@.take(k as int) =~= g@);
}

/// Whether every character of `t` is white space.
fn all_ws(t: &Vec<char>) -> (b: bool)
    ensures
        b == all_white_space(t@),
{
    let mut k: usize = 0;
    while k < t.len()
        invariant
            k <= t@.len(),
            forall|j: int| 0 <= j < k ==> is_white_space_char(#[trigger] t@[j]),
        decreases t@.len() - k,
    {
        if !is_whitespace(t[k]) {
            return false;
        }
        k = k + 1;
    }
    true
}

/// Whether `t` contains `c`.
fn contains_char(t: &Vec<char>, c: char) -> (b: bool)
    ensures
        b == t@.contains(c),
{
    let mut k: usize = 0;
    while k < t.len()
        invariant
            k <= t@.len(),
            forall|j: int| 0 <= j < k ==> t@[j] != c,
        decreases t@.len() - k,
    {
        if t[k] == c {
            return true;
        }
        k = k + 1;
    }
    false
}

/// The graphemes before `k` and the `k`-th one lie within the whole text.
proof fn lemma_concat_prefix(gs: Seq<Seq<char>>, k: int)
    requires
        0 <= k <= gs.len(),
    ensures
        concat(gs.take(k)).len() <= concat(gs).len(),
        k < gs.len() ==> concat(gs.take(k + 1)) == concat(gs.take(k)) + gs[k],
        k < gs.len() ==> concat(gs.take(k)).len() + gs[k].len() <= concat(gs).len(),
    decreases gs.len() - k,
{
    if k < gs.len() {
        assert(gs.take(k + 1).drop_last() =~= gs.take(k));
        assert(gs.take(k + 1).last() == gs[k]);
        lemma_concat_prefix(gs, k + 1);
        lemma_concat_prefix_of(gs, k + 1);
    } else {
        assert(gs.take(k) =~= gs);
    }
}

/// The concatenation of a prefix is a prefix of the concatenation.
proof fn lemma_concat_prefix_of(gs: Seq<Seq<char>>, k: int)
    requires
        0 <= k <= gs.len(),
    ensures
        concat(gs.take(k)) == concat(gs).take(concat(gs.take(k)).len() as int),
        concat(gs.take(k)).len() <= concat(gs).len(),
    decreases gs.len() - k,
{
    if k < gs.len() {
        lemma_concat_prefix_of(gs, k + 1);
        assert(gs.take(k + 1).drop_last() =~= gs.take(k));
        assert(concat(gs.take(k + 1)) == concat(gs.take(k)) + gs.take(k + 1).last());
        let a = concat(gs.take(k));
        let b = concat(gs.take(k + 1));
        assert(b.take(a.len() as int) =~= a);
        assert(concat(gs).take(a.len() as int) =~= concat(gs).take(b.len() as int).take(a.len() as int));
    } else {
        assert(gs.take(k) =~= gs);
        assert(concat(gs).take(concat(gs).len() as int) =~= concat(gs));
    }
}

/// A block of `c` followed by something that does not start with `c` runs
/// exactly to the end of the block.
proof fn lemma_run_block(k: nat, c: char, rest: Seq<char>, i: int)
    requires
        0 <= i <= k,
        rest.len() == 0 || rest[0] != c,
    ensures
        run(Seq::new(k, |_j: int| c) + rest, i, c) == k - i,
    decreases k - i,
{
    let s = Seq::new(k, |_j: int| c) + rest;
    if i < k {
        lemma_run_block(k, c, rest, i + 1);
    } else {
        assert(i < s.len() ==> s[i] == rest[0]);
    }
}

/// A line of `n >= 3` backticks or tildes opens a fence of that length, and
/// a later line of at least as many of the same character, with nothing but
/// white space after them, closes it; both lines count as fenced.
pub proof fn law_fence_opens_and_closes(m: char, n: nat, k: nat, trailing: Seq<char>)
    requires
        m == '`' || m == '~',
        3 <= n <= k,
        n <= usize::MAX,
        all_white_space(trailing),
    ensures
        advance_spec(None, Seq::new(n, |_j: int| m)) == (Some(((m as u8), n as usize)), true),
        advance_spec(Some(((m as u8), n as usize)), Seq::new(k, |_j: int| m) + trailing) == (
            None::<(u8, usize)>,
            true,
        ),
{
    let e = Seq::<char>::empty();
    let open = Seq::new(n, |_j: int| m);
    assert(open + e =~= open);
    lemma_run_block(n, m, e, 0);
    assert(open[0] == m);
    assert(run(open, 0, ' ') == 0);
    assert(open.skip(0) =~= open);
    assert(open.skip(n as int) =~= e);
    let close = Seq::new(k, |_j: int| m) + trailing;
    assert(trailing.len() > 0 ==> is_white_space_char(trailing[0]));
    lemma_run_block(k, m, trailing, 0);
    assert(close[0] == m);
    assert(run(close, 0, ' ') == 0);
    assert(close.skip(0) =~= close);
    assert(close.skip(k as int) =~= trailing);
}

/// An open fence closes exactly on a line indented by at most three spaces
/// that starts with at least as many of its own marker character, followed
/// by nothing but white space; any other line (another marker, a shorter run,
/// trailing text) leaves it open, and every line inside it counts as fenced.
pub proof fn law_fence_closes_only_on_its_marker(m: char, n: usize, t: Seq<char>)
    requires
        m == '`' || m == '~',
        n >= 3,
    ensures
        ({
            let indent = run(t, 0, ' ');
            let trimmed = t.skip(indent as int);
            let k = run(trimmed, 0, m);
            let closes = indent <= 3 && trimmed.len() > 0 && trimmed[0] == m && k >= n
                && all_white_space(trimmed.skip(k as int));
            advance_spec(Some(((m as u8), n)), t) == (
                if closes {
                    None::<(u8, usize)>
                } else {
                    Some(((m as u8), n))
                },
                true,
            )
        }),
{
    let indent = run(t, 0, ' ');
    let trimmed = t.skip(indent as int);
    if trimmed.len() > 0 {
        let c = trimmed[0];
        if c == '`' || c == '~' {
            assert((c as u8 == m as u8) == (c == m));
        }
        if c != m {
            if run(trimmed, 0, m) > 0 {
                assert(trimmed[0] == m);
            }
        }
    }
}

/// Reading `s` after state `st` (text so far, inside an escape sequence),
/// dropping every escape sequence `ESC ... m`.
pub open spec fn strip_from(st: (Seq<char>, bool), s: Seq<char>) -> (Seq<char>, bool)
    decreases s.len(),
{
    if s.len() == 0 {
        st
    } else {
        let p = strip_from(st, s.drop_last());
        let c = s.last();
        if c == '\x1b' {
            (p.0, true)
        } else if p.1 {
            (p.0, c != 'm')
        } else {
            (p.0.push(c), false)
        }
    }
}

/// `s` without the escape sequences `ESC ... m`.
pub open spec fn strip(s: Seq<char>) -> Seq<char> {
    strip_from((Seq::empty(), false), s).0
}

/// Text shown by the first `k` graphemes: those without control characters,
/// while they fit in `width` columns; with the columns used and whether the
/// pane is full.
pub open spec fn shown(gs: Seq<Seq<char>>, ws: Seq<nat>, width: nat, k: int) -> (nat, Seq<char>, bool)
    decreases k,
{
    if k <= 0 {
        (0, Seq::empty(), false)
    } else {
        let s = shown(gs, ws, width, k - 1);
        let g = gs[k - 1];
        if s.2 || exists|i: int| 0 <= i < g.len() && is_control_char(#[trigger] g[i]) {
            s
        } else if s.0 + ws[k - 1] > width {
            (s.0, s.1, true)
        } else {
            ((s.0 + ws[k - 1]) as nat, s.1 + g, false)
        }
    }
}

/// Reading in two parts is reading at once.
proof fn lemma_strip_split(st: (Seq<char>, bool), a: Seq<char>, b: Seq<char>)
    ensures
        strip_from(strip_from(st, a), b) == strip_from(st, a + b),
    decreases b.len(),
{
    if b.len() == 0 {
        assert(a + b =~= a);
    } else {
        lemma_strip_split(st, a, b.drop_last());
        assert((a + b).drop_last() =~= a + b.drop_last());
        assert((a + b).last() == b.last());
    }
}

/// Text without escape characters passes through unchanged.
proof fn lemma_strip_text(o: Seq<char>, g: Seq<char>)
    requires
        forall|i: int| 0 <= i < g.len() ==> g[i] != '\x1b',
    ensures
        strip_from((o, false), g) == (o + g, false),
    decreases g.len(),
{
    if g.len() == 0 {
        assert(o + g =~= o);
    } else {
        lemma_strip_text(o, g.drop_last());
        assert((o + g.drop_last()).push(g.last()) =~= o + g);
    }
}

/// Inside an escape sequence, characters other than `m` and ESC are dropped.
proof fn lemma_strip_inside(o: Seq<char>, mid: Seq<char>)
    requires
        forall|i: int| 0 <= i < mid.len() ==> mid[i] != '\x1b' && mid[i] != 'm',
    ensures
        strip_from((o, true), mid) == (o, true),
    decreases mid.len(),
{
    if mid.len() > 0 {
        lemma_strip_inside(o, mid.drop_last());
    }
}

/// A complete escape sequence `ESC mid m` is dropped.
proof fn lemma_strip_code(o: Seq<char>, code: Seq<char>)
    requires
        code.len() >= 2,
        code[0] == '\x1b',
        code.last() == 'm',
        forall|i: int| 1 <= i < code.len() - 1 ==> code[i] != '\x1b' && code[i] != 'm',
    ensures
        strip_from((o, false), code) == (o, false),
{
    let mid = code.subrange(1, code.len() - 1);
    lemma_strip_split((o, false), seq!['\x1b'], mid);
    assert(strip_from((o, false), seq!['\x1b']) == (o, true)) by {
        assert(seq!['\x1b'].drop_last() =~= Seq::<char>::empty());
        assert(strip_from((o, false), Seq::<char>::empty()) == (o, false));
        assert(seq!['\x1b'].last() == '\x1b');
    }
    lemma_strip_inside(o, mid);
    lemma_strip_split((o, false), seq!['\x1b'] + mid, seq!['m']);
    assert(strip_from((o, true), seq!['m']) == (o, false)) by {
        assert(seq!['m'].drop_last() =~= Seq::<char>::empty());
        assert(strip_from((o, true), Seq::<char>::empty()) == (o, true));
        assert(seq!['m'].last() == 'm');
    }
    assert(seq!['\x1b'] + mid + seq!['m'] =~= code);
}

/// The colour codes a line draws with are complete escape sequences.
proof fn lemma_color_codes(c: Color)
    ensures
        RESET@ == seq!['\x1b', '[', 'm'],
        c == Color::Plain ==> c.spec_escape() == Seq::<char>::empty(),
        c == Color::Heading ==> c.spec_escape() == seq!['\x1b', '[', '1', ';', '3', '6', 'm'],
        c == Color::Emphasis ==> c.spec_escape() == seq!['\x1b', '[', '1', ';', '3', '5', 'm'],
        c == Color::Code ==> c.spec_escape() == seq!['\x1b', '[', '3', '3', 'm'],
        c == Color::Link ==> c.spec_escape() == seq!['\x1b', '[', '3', '4', 'm'],
        c == Color::Marker ==> c.spec_escape() == seq!['\x1b', '[', '3', '2', 'm'],
{
    reveal_strlit("\x1b[m");
    reveal_strlit("");
    reveal_strlit("\x1b[1;36m");
    reveal_strlit("\x1b[1;35m");
    reveal_strlit("\x1b[33m");
    reveal_strlit("\x1b[34m");
    reveal_strlit("\x1b[32m");
    assert(RESET@ =~= seq!['\x1b', '[', 'm']);
    assert("\x1b[1;36m"@ =~= seq!['\x1b', '[', '1', ';', '3', '6', 'm']);
    assert("\x1b[1;35m"@ =~= seq!['\x1b', '[', '1', ';', '3', '5', 'm']);
    assert("\x1b[33m"@ =~= seq!['\x1b', '[', '3', '3', 'm']);
    assert("\x1b[34m"@ =~= seq!['\x1b', '[', '3', '4', 'm']);
    assert("\x1b[32m"@ =~= seq!['\x1b', '[', '3', '2', 'm']);
    assert(""@ =~= Seq::<char>::empty());
    lemma_strip_code(Seq::empty(), seq!['\x1b', '[', 'm']);
}

/// Switching colour (a reset, then the new colour's code) leaves no text.
proof fn lemma_strip_switch(o: Seq<char>, c: Color)
    ensures
        strip_from((o, false), RESET@ + c.spec_escape()) == (o, false),
{
    lemma_color_codes(c);
    lemma_strip_split((o, false), RESET@, c.spec_escape());
    lemma_strip_code(o, seq!['\x1b', '[', 'm']);
    if c != Color::Plain {
        let code = c.spec_escape();
        assert(code.len() >= 2 && code[0] == '\x1b' && code.last() == 'm');
        assert(forall|i: int| 1 <= i < code.len() - 1 ==> code[i] != '\x1b' && code[i] != 'm');
        lemma_strip_code(o, code);
    } else {
        assert(c.spec_escape().len() == 0);
    }
}

/// Emitting and showing go hand in hand: without its colour codes, the
/// output is the shown text.
proof fn lemma_emit_shown(gs: Seq<Seq<char>>, ws: Seq<nat>, colors: Seq<Color>, width: nat, k: int)
    requires
        0 <= k <= gs.len(),
    ensures
        strip_from((Seq::empty(), false), emit(gs, ws, colors, width, k).2) == (shown(gs, ws, width, k).1, false),
        emit(gs, ws, colors, width, k).0 == shown(gs, ws, width, k).0,
        emit(gs, ws, colors, width, k).3 == shown(gs, ws, width, k).2,
    decreases k,
{
    if k > 0 {
        lemma_emit_shown(gs, ws, colors, width, k - 1);
        let s = emit(gs, ws, colors, width, k - 1);
        let g = gs[k - 1];
        let start = concat(gs.take(k - 1)).len() as int;
        let e = Seq::<char>::empty();
        if s.3 || exists|i: int| 0 <= i < g.len() && is_control_char(#[trigger] g[i]) {
        } else if s.0 + ws[k - 1] > width {
        } else {
            let c = colors[start];
            let o = if c != s.1 {
                s.2 + RESET@ + c.spec_escape()
            } else {
                s.2
            };
            assert forall|i: int| 0 <= i < g.len() implies g[i] != '\x1b' by {
                assert(!is_control_char(g[i]));
            }
            if c != s.1 {
                lemma_strip_split((e, false), s.2, RESET@ + c.spec_escape());
                lemma_strip_switch(shown(gs, ws, width, k - 1).1, c);
                assert(s.2 + RESET@ + c.spec_escape() =~= s.2 + (RESET@ + c.spec_escape()));
            }
            lemma_strip_split((e, false), o, g);
            lemma_strip_text(shown(gs, ws, width, k - 1).1, g);
        }
    }
}

/// Highlighting never hides or alters the source: without the colour codes,
/// what a line draws is exactly the text of the graphemes it shows (those
/// without control characters, while they fit), and the columns it reports
/// are theirs.
pub proof fn law_colors_do_not_alter_text(fenced: bool, t: Seq<char>, width: nat)
    ensures
        strip(draw_line(fenced, t, width).0) == shown(
            grapheme_clusters(t),
            cluster_widths(grapheme_clusters(t)),
            width,
            grapheme_clusters(t).len() as int,
        ).1,
        draw_line(fenced, t, width).1 == shown(
            grapheme_clusters(t),
            cluster_widths(grapheme_clusters(t)),
            width,
            grapheme_clusters(t).len() as int,
        ).0,
{
    let gs = grapheme_clusters(t);
    let ws = cluster_widths(gs);
    let colors = line_colors(fenced, t);
    let n = gs.len() as int;
    lemma_emit_shown(gs, ws, colors, width, n);
    let s = emit(gs, ws, colors, width, n);
    let e = Seq::<char>::empty();
    if s.1 != Color::Plain {
        lemma_color_codes(s.1);
        lemma_strip_split((e, false), s.2, RESET@);
        lemma_strip_code(shown(gs, ws, width, n).1, seq!['\x1b', '[', 'm']);
    } else {
        assert(s.2 + Seq::<char>::empty() =~= s.2);
    }
}

/// Total width of the first `k` graphemes.
pub open spec fn widths(ws: Seq<nat>, k: int) -> nat
    decreases k,
{
    if k <= 0 {
        0
    } else {
        (widths(ws, k - 1) + ws[k - 1]) as nat
    }
}

/// When no grapheme holds a control character and all of them fit, a line
/// shows its whole text.
pub proof fn law_everything_fits(gs: Seq<Seq<char>>, ws: Seq<nat>, width: nat, k: int)
    requires
        0 <= k <= gs.len(),
        forall|j: int, i: int| 0 <= j < gs.len() && 0 <= i < gs[j].len() ==> !is_control_char(#[trigger] gs[j][i]),
        widths(ws, k) <= width,
    ensures
        shown(gs, ws, width, k) == (widths(ws, k), concat(gs.take(k)), false),
    decreases k,
{
    if k > 0 {
        law_everything_fits(gs, ws, width, k - 1);
        let g = gs[k - 1];
        assert(!(exists|i: int| 0 <= i < g.len() && is_control_char(#[trigger] g[i])));
        assert(gs.take(k).drop_last() =~= gs.take(k - 1));
        assert(gs.take(k).last() == g);
    } else {
        assert(gs.take(0) =~= Seq::<Seq<char>>::empty());
    }
}

/// Terminal colour state after reading `s` from state `st`: whether a colour
/// is active, and where the reader stands in an escape sequence (0 outside,
/// 1 after ESC, 2 right after `ESC [`, 3 inside its parameters). `ESC [ m`
/// resets the colour; any other `ESC [ .. m` sets one.
pub open spec fn colour_from(st: (bool, nat), s: Seq<char>) -> (bool, nat)
    decreases s.len(),
{
    if s.len() == 0 {
        st
    } else {
        let p = colour_from(st, s.drop_last());
        let c = s.last();
        if c == '\x1b' {
            (p.0, 1)
        } else if p.1 == 1 {
            (p.0, if c == '[' { 2 } else { 0 })
        } else if p.1 >= 2 && c == 'm' {
            (p.1 == 3, 0)
        } else if p.1 >= 2 {
            (p.0, 3)
        } else {
            p
        }
    }
}

/// Whether `s` leaves a colour active on the terminal.
pub open spec fn colour_active(s: Seq<char>) -> bool {
    colour_from((false, 0), s).0
}

/// Reading in two parts is reading at once.
proof fn lemma_colour_split(st: (bool, nat), a: Seq<char>, b: Seq<char>)
    ensures
        colour_from(colour_from(st, a), b) == colour_from(st, a + b),
    decreases b.len(),
{
    if b.len() == 0 {
        assert(a + b =~= a);
    } else {
        lemma_colour_split(st, a, b.drop_last());
        assert((a + b).drop_last() =~= a + b.drop_last());
        assert((a + b).last() == b.last());
    }
}

/// Text without escape characters does not touch the colour.
proof fn lemma_colour_text(active: bool, g: Seq<char>)
    requires
        forall|i: int| 0 <= i < g.len() ==> g[i] != '\x1b',
    ensures
        colour_from((active, 0), g) == (active, 0nat),
    decreases g.len(),
{
    if g.len() > 0 {
        lemma_colour_text(active, g.drop_last());
    }
}

/// A reset turns the colour off; a colour code turns it on.
proof fn lemma_colour_codes(active: bool, c: Color)
    ensures
        colour_from((active, 0), RESET@) == (false, 0nat),
        colour_from((active, 0), RESET@ + c.spec_escape()) == (c != Color::Plain, 0nat),
{
    lemma_color_codes(c);
    reveal_with_fuel(colour_from, 8);
    assert(colour_from((active, 0), seq!['\x1b', '[', 'm']) == (false, 0nat)) by {
        let s = seq!['\x1b', '[', 'm'];
        assert(s.drop_last() =~= seq!['\x1b', '[']);
        assert(s.drop_last().drop_last() =~= seq!['\x1b']);
        assert(s.drop_last().drop_last().drop_last() =~= Seq::<char>::empty());
    }
    lemma_colour_split((active, 0), RESET@, c.spec_escape());
    let e = c.spec_escape();
    if c != Color::Plain {
        if c == Color::Heading || c == Color::Emphasis {
            let s = e;
            assert(s.drop_last() =~= seq!['\x1b', '[', '1', ';', '3', s[5]]);
            assert(s.drop_last().drop_last() =~= seq!['\x1b', '[', '1', ';', '3']);
            assert(s.drop_last().drop_last().drop_last() =~= seq!['\x1b', '[', '1', ';']);
            assert(s.drop_last().drop_last().drop_last().drop_last() =~= seq!['\x1b', '[', '1']);
            assert(s.drop_last().drop_last().drop_last().drop_last().drop_last() =~= seq!['\x1b', '[']);
            assert(s.drop_last().drop_last().drop_last().drop_last().drop_last().drop_last() =~= seq!['\x1b']);
            assert(s.drop_last().drop_last().drop_last().drop_last().drop_last().drop_last().drop_last() =~= Seq::<char>::empty());
        } else {
            let s = e;
            assert(s.drop_last() =~= seq!['\x1b', '[', '3', s[3]]);
            assert(s.drop_last().drop_last() =~= seq!['\x1b', '[', '3']);
            assert(s.drop_last().drop_last().drop_last() =~= seq!['\x1b', '[']);
            assert(s.drop_last().drop_last().drop_last().drop_last() =~= seq!['\x1b']);
            assert(s.drop_last().drop_last().drop_last().drop_last().drop_last() =~= Seq::<char>::empty());
        }
    }
}

/// While emitting, the terminal colour is on exactly when the current colour
/// is not plain, and no escape sequence is left open.
proof fn lemma_emit_colour(gs: Seq<Seq<char>>, ws: Seq<nat>, colors: Seq<Color>, width: nat, k: int)
    requires
        0 <= k <= gs.len(),
    ensures
        colour_from((false, 0), emit(gs, ws, colors, width, k).2) == (emit(gs, ws, colors, width, k).1 != Color::Plain, 0nat),
    decreases k,
{
    if k > 0 {
        lemma_emit_colour(gs, ws, colors, width, k - 1);
        let s = emit(gs, ws, colors, width, k - 1);
        let g = gs[k - 1];
        let start = concat(gs.take(k - 1)).len() as int;
        if s.3 || exists|i: int| 0 <= i < g.len() && is_control_char(#[trigger] g[i]) {
        } else if s.0 + ws[k - 1] > width {
        } else {
            let c = colors[start];
            let o = if c != s.1 {
                s.2 + RESET@ + c.spec_escape()
            } else {
                s.2
            };
            assert forall|i: int| 0 <= i < g.len() implies g[i] != '\x1b' by {
                assert(!is_control_char(g[i]));
            }
            if c != s.1 {
                lemma_colour_split((false, 0), s.2, RESET@ + c.spec_escape());
                lemma_colour_codes(s.1 != Color::Plain, c);
                assert(s.2 + RESET@ + c.spec_escape() =~= s.2 + (RESET@ + c.spec_escape()));
            }
            lemma_colour_split((false, 0), o, g);
            lemma_colour_text(c != Color::Plain, g);
        }
    }
}

/// Colour resets before the pane ends: a drawn line never leaves a colour
/// active, so it cannot affect what is drawn after it.
pub proof fn law_no_colour_leaks(fenced: bool, t: Seq<char>, width: nat)
    ensures
        !colour_active(draw_line(fenced, t, width).0),
        colour_from((false, 0), draw_line(fenced, t, width).0).1 == 0,
{
    let gs = grapheme_clusters(t);
    let ws = cluster_widths(gs);
    let colors = line_colors(fenced, t);
    let n = gs.len() as int;
    lemma_emit_colour(gs, ws, colors, width, n);
    let s = emit(gs, ws, colors, width, n);
    if s.1 != Color::Plain {
        lemma_colour_split((false, 0), s.2, RESET@);
        lemma_colour_codes(true, Color::Plain);
    } else {
        assert(s.2 + Seq::<char>::empty() =~= s.2);
    }
}

/// `ws_run` counts a run of spaces.
proof fn lemma_ws_run_spaces(k: nat, rest: Seq<char>, i: int)
    requires
        0 <= i <= k,
        rest.len() == 0 || !is_white_space_char(rest[0]),
    ensures
        ws_run(Seq::new(k, |_j: int| ' ') + rest, i) == k - i,
    decreases k - i,
{
    let s = Seq::new(k, |_j: int| ' ') + rest;
    if i < k {
        lemma_ws_run_spaces(k, rest, i + 1);
    } else {
        assert(i < s.len() ==> s[i] == rest[0]);
    }
}

/// Spaces take one byte each.
proof fn lemma_spaces_bytes(k: nat)
    ensures
        bytes_len(Seq::new(k, |_j: int| ' ')) == k,
    decreases k,
{
    if k > 0 {
        lemma_spaces_bytes((k - 1) as nat);
        lemma_encode_push(Seq::new((k - 1) as nat, |_j: int| ' '), ' ');
        assert(Seq::new((k - 1) as nat, |_j: int| ' ').push(' ') =~= Seq::new(k, |_j: int| ' '));
        assert(encode_scalar(' ' as u32).len() == 1);
    }
}

/// Without escapes, code, emphasis or link characters, the inline scan
/// changes no colour.
proof fn lemma_scan_plain(t: Seq<char>, p: int, colors: Seq<Color>)
    requires
        forall|i: int| 0 <= p <= i < t.len() ==> {
            let c = #[trigger] t[i];
            c != '`' && c != '*' && c != '_' && c != '[' && c != '\\'
        },
    ensures
        scan(t, p, colors) == colors,
    decreases (if p < t.len() { t.len() - p } else { 0 }),
{
    if 0 <= p < t.len() {
        assert(t.skip(p)[0] == t[p]);
        assert(delim_len(t, p) == 0);
        assert(span_end(t, p) is None);
        lemma_scan_plain(t, p + 1, colors);
    }
}

/// Outside a fence, a line of at most three spaces, one to six `#` and then
/// a space or the end of the line is a heading: every character gets the
/// heading colour; inline spans are the only thing that may colour part of
/// it otherwise.
pub proof fn law_headings_are_coloured(k: nat, n: nat, rest: Seq<char>)
    requires
        k <= 3,
        1 <= n <= 6,
        rest.len() == 0 || rest[0] == ' ',
    ensures
        ({
            let t = Seq::new(k, |_j: int| ' ') + Seq::new(n, |_j: int| '#') + rest;
            &&& block_colors(t) == Seq::new(t.len(), |_j: int| Color::Heading)
            &&& (forall|i: int| 0 <= i < rest.len() ==> {
                let c = #[trigger] rest[i];
                c != '`' && c != '*' && c != '_' && c != '[' && c != '\\'
            }) ==> line_colors(false, t) == Seq::new(t.len(), |_j: int| Color::Heading)
        }),
{
    let sp = Seq::new(k, |_j: int| ' ');
    let h = Seq::new(n, |_j: int| '#');
    let t = sp + h + rest;
    let hr = h + rest;
    assert(t =~= sp + hr);
    assert(hr[0] == '#');
    lemma_ws_run_spaces(k, hr, 0);
    assert(t.take(k as int) =~= sp);
    lemma_spaces_bytes(k);
    assert(t.skip(k as int) =~= hr);
    lemma_run_block(n, '#', rest, 0);
    if rest.len() > 0 {
        assert(hr[n as int] == rest[0]);
    }
    assert(block_colors(t) =~= Seq::new(t.len(), |_j: int| Color::Heading));
    assert(t[k as int] == '#');
    assert(!starts(t, seq![' ', ' ', ' ', ' '])) by {
        if starts(t, seq![' ', ' ', ' ', ' ']) {
            assert(t.subrange(0, 4)[k as int] == t[k as int]);
        }
    }
    if forall|i: int| 0 <= i < rest.len() ==> {
        let c = #[trigger] rest[i];
        c != '`' && c != '*' && c != '_' && c != '[' && c != '\\'
    } {
        assert forall|i: int| 0 <= 0 <= i < t.len() implies {
            let c = #[trigger] t[i];
            c != '`' && c != '*' && c != '_' && c != '[' && c != '\\'
        } by {
            if i >= k + n {
                assert(t[i] == rest[i - k - n]);
            }
        }
        lemma_scan_plain(t, 0, block_colors(t));
    }
}

/// Outside a fence, block quotes colour the whole line as markers, a
/// bullet `-`, `*` or `+` followed by a space colours just itself, and a line
/// indented by four spaces is code throughout.
pub proof fn law_block_markers(k: nat, b: char, rest: Seq<char>)
    ensures
        ({
            let sp = Seq::new(k, |_j: int| ' ');
            let quote = sp + seq!['>'] + rest;
            quote.len() > 0 && block_colors(quote) == Seq::new(quote.len(), |_j: int| Color::Marker)
        }),
        (b == '-' || b == '*' || b == '+') ==> ({
            let sp = Seq::new(k, |_j: int| ' ');
            let item = sp + seq![b, ' '] + rest;
            block_colors(item) == Seq::new(
                item.len(),
                |j: int| if j == k { Color::Marker } else { Color::Plain },
            )
        }),
        ({
            let code = seq![' ', ' ', ' ', ' '] + rest;
            forall|fenced: bool| #[trigger] line_colors(fenced, code) == Seq::new(code.len(), |_j: int| Color::Code)
        }),
{
    let sp = Seq::new(k, |_j: int| ' ');
    let qr = seq!['>'] + rest;
    let quote = sp + seq!['>'] + rest;
    assert(quote =~= sp + qr);
    assert(qr[0] == '>');
    lemma_ws_run_spaces(k, qr, 0);
    assert(quote.skip(k as int) =~= qr);
    assert(run(qr, 0, '#') == 0);
    assert(block_colors(quote) =~= Seq::new(quote.len(), |_j: int| Color::Marker));
    if b == '-' || b == '*' || b == '+' {
        let ir = seq![b, ' '] + rest;
        let item = sp + seq![b, ' '] + rest;
        assert(item =~= sp + ir);
        assert(ir[0] == b && ir[1] == ' ');
        lemma_ws_run_spaces(k, ir, 0);
        assert(item.skip(k as int) =~= ir);
        assert(run(ir, 0, '#') == 0);
        assert(starts(ir, seq![b, ' '])) by {
            assert(ir.subrange(0, 2) =~= seq![b, ' ']);
        }
        assert(block_colors(item) =~= Seq::new(
            item.len(),
            |j: int| if j == k { Color::Marker } else { Color::Plain },
        ));
    }
    let code = seq![' ', ' ', ' ', ' '] + rest;
    assert(starts(code, seq![' ', ' ', ' ', ' '])) by {
        assert(code.subrange(0, 4) =~= seq![' ', ' ', ' ', ' ']);
    }
}

} // verus!
