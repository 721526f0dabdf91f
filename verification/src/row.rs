//! Rows of a file: the stored bytes, how they render on a terminal, and their
//! syntax highlighting.

use vstd::prelude::*;
use vstd::utf8::*;
use crate::syntax::{HlType, SyntaxConf, RESET, WBG};
use crate::text::{encode_chars, decode_lossy, lossy, lossy_string, utf8_len, bytes_len, len_utf8, char_width, width_of_char, lemma_encode_push, lemma_encode_append, push_char, push_str};

verus! {

broadcast use vstd::utf8::char_is_scalar;

/// The "highlight state" at the end of a row.
#[derive(Clone, Copy, Debug, PartialEq, Eq, Structural)]
pub enum HlState {
    /// Normal state.
    Normal,
    /// A multi-line comment has been opened, but not yet closed.
    MultiLineComment,
    /// A string has been opened with the given quote byte, but not yet closed.
    String(u8),
    /// A multi-line string has been opened, but not yet closed.
    MultiLineString,
}

impl Default for HlState {
    /// The normal state.
    fn default() -> (st: Self)
        ensures
            st == HlState::Normal,
    {
        HlState::Normal
    }
}

/// ASCII whitespace, as `u8::is_ascii_whitespace`.
pub open spec fn is_ascii_ws(c: u8) -> bool {
    c == 0x20 || c == 0x09 || c == 0x0A || c == 0x0C || c == 0x0D
}

/// ASCII punctuation, as `u8::is_ascii_punctuation`.
pub open spec fn is_ascii_punct(c: u8) -> bool {
    (33 <= c <= 47) || (58 <= c <= 64) || (91 <= c <= 96) || (123 <= c <= 126)
}

/// ASCII decimal digit.
pub open spec fn is_digit(c: u8) -> bool {
    48 <= c <= 57
}

/// Whether `c` separates words: ASCII whitespace, NUL, or ASCII punctuation
/// other than `_`.
pub open spec fn is_separator(c: u8) -> bool {
    is_ascii_ws(c) || c == 0 || (is_ascii_punct(c) && c != 95)
}

/// Return whether `c` is an ASCII separator.
pub fn is_sep(c: u8) -> (b: bool)
    ensures
        b == is_separator(c),
{
    c == 0x20 || c == 0x09 || c == 0x0A || c == 0x0C || c == 0x0D || c == 0 || (((33 <= c && c
        <= 47) || (58 <= c && c <= 64) || (91 <= c && c <= 96) || (123 <= c && c <= 126)) && c
        != 95)
}

/// The UTF-8 bytes of a string.
pub open spec fn sbytes(s: String) -> Seq<u8> {
    encode_utf8(s@)
}

/// `pat` occurs in `line` at byte index `i`.
pub open spec fn found(line: Seq<u8>, i: int, pat: Seq<u8>) -> bool {
    0 <= i && i + pat.len() <= line.len() && line.subrange(i, i + pat.len()) == pat
}

/// `n` copies of `t`.
pub open spec fn repeat(t: HlType, n: int) -> Seq<HlType> {
    Seq::new(n as nat, |_j: int| t)
}

/// One of `pats` occurs in `line` at `i`.
pub open spec fn any_found(pats: Seq<String>, line: Seq<u8>, i: int) -> bool {
    exists|k: int| 0 <= k < pats.len() && found(line, i, sbytes(#[trigger] pats[k]))
}

/// A keyword at `i` is followed by the end of the line or by a separator.
pub open spec fn kw_ends(line: Seq<u8>, i: int, kw: Seq<u8>) -> bool {
    i + kw.len() >= line.len() || is_separator(line[i + kw.len()])
}

/// Highlighting added at `i` by the keywords of one group.
pub open spec fn kw_group(t: HlType, kws: Seq<String>, line: Seq<u8>, i: int) -> Seq<HlType>
    decreases kws.len(),
{
    if kws.len() == 0 {
        Seq::empty()
    } else {
        let kw = sbytes(kws.last());
        kw_group(t, kws.drop_last(), line, i) + if found(line, i, kw) && kw_ends(line, i, kw) {
            repeat(t, kw.len() as int)
        } else {
            Seq::empty()
        }
    }
}

/// Highlighting added at `i` by all keyword groups, in order.
pub open spec fn kw_all(groups: Seq<(HlType, Vec<String>)>, line: Seq<u8>, i: int) -> Seq<HlType>
    decreases groups.len(),
{
    if groups.len() == 0 {
        Seq::empty()
    } else {
        kw_all(groups.drop_last(), line, i) + kw_group(groups.last().0, groups.last().1@, line, i)
    }
}

/// Delimiters of multi-line comments, as bytes.
pub open spec fn ml_comment_bytes(conf: SyntaxConf) -> Option<(Seq<u8>, Seq<u8>)> {
    match conf.ml_comment_delims {
        Some(d) => Some((sbytes(d.0), sbytes(d.1))),
        None => None,
    }
}

/// Delimiters of multi-line strings, as bytes.
pub open spec fn ml_string_bytes(conf: SyntaxConf) -> Option<(Seq<u8>, Seq<u8>)> {
    match conf.ml_string_delim {
        Some(d) => Some((sbytes(d), sbytes(d))),
        None => None,
    }
}

/// What a multi-line construct does at `i`, if anything: inside it, either
/// close it or highlight one byte; outside any construct, open it.
pub open spec fn ml_step(
    delims: Option<(Seq<u8>, Seq<u8>)>,
    mstate: HlState,
    mtype: HlType,
    line: Seq<u8>,
    hl: Seq<HlType>,
    st: HlState,
) -> Option<(Seq<HlType>, HlState)> {
    let i = hl.len() as int;
    match delims {
        None => None,
        Some(d) => if st == mstate {
            if found(line, i, d.1) {
                Some((hl + repeat(mtype, d.1.len() as int), HlState::Normal))
            } else {
                Some((hl.push(mtype), st))
            }
        } else if st == HlState::Normal && found(line, i, d.0) {
            Some((hl + repeat(mtype, d.0.len() as int), mstate))
        } else {
            None
        },
    }
}

/// One step of highlighting `line` at byte `hl.len()`, in state `st`: the
/// highlighting so far and the state afterwards.
pub open spec fn step(conf: SyntaxConf, line: Seq<u8>, hl: Seq<HlType>, st: HlState) -> (Seq<HlType>, HlState) {
    let i = hl.len() as int;
    if st == HlState::Normal && any_found(conf.sl_comment_start@, line, i) {
        (hl + repeat(HlType::Comment, line.len() - i), st)
    } else if ml_step(ml_comment_bytes(conf), HlState::MultiLineComment, HlType::MlComment, line, hl, st) is Some {
        ml_step(ml_comment_bytes(conf), HlState::MultiLineComment, HlType::MlComment, line, hl, st)->0
    } else if ml_step(ml_string_bytes(conf), HlState::MultiLineString, HlType::MlString, line, hl, st) is Some {
        ml_step(ml_string_bytes(conf), HlState::MultiLineString, HlType::MlString, line, hl, st)->0
    } else {
        let c = line[i];
        match st {
            HlState::String(q) => if c == q {
                (hl.push(HlType::String), HlState::Normal)
            } else if c == 92 && i != line.len() - 1 {
                (hl.push(HlType::String).push(HlType::String), st)
            } else {
                (hl.push(HlType::String), st)
            },
            _ => if conf.sl_string_quotes@.contains(c as char) {
                (hl.push(HlType::String), HlState::String(c))
            } else {
                let prev_sep = i == 0 || is_separator(line[i - 1]);
                if conf.highlight_numbers && ((is_digit(c) && prev_sep) || (i != 0 && hl[i - 1]
                    == HlType::Number && !prev_sep && !is_separator(c))) {
                    (hl.push(HlType::Number), st)
                } else {
                    let kws = if prev_sep {
                        kw_all(conf.keywords@, line, i)
                    } else {
                        Seq::empty()
                    };
                    ((hl + kws).push(HlType::Normal), st)
                }
            },
        }
    }
}

/// Bytes of `line` not yet highlighted.
pub open spec fn remaining(line: Seq<u8>, hl: Seq<HlType>) -> nat {
    if hl.len() < line.len() {
        (line.len() - hl.len()) as nat
    } else {
        0
    }
}

/// Rank of a state, for the steps that highlight no byte: with an empty
/// comment opening, the normal state opens a comment at once, so it ranks
/// above the comment state; with an empty comment closing, the comment state
/// closes at once, so it ranks above the normal state.
pub open spec fn ml_rank(conf: SyntaxConf, st: HlState) -> nat {
    match conf.ml_comment_delims {
        Some(d) => if st == HlState::Normal && d.0@.len() == 0 {
            1
        } else if st == HlState::MultiLineComment && d.1@.len() == 0 {
            1
        } else {
            0
        },
        None => 0,
    }
}

/// A step makes progress: it highlights at least one more byte, or it moves
/// to a state of lower rank.
pub open spec fn progress(conf: SyntaxConf, line: Seq<u8>, hl: Seq<HlType>, st: HlState, next: (Seq<HlType>, HlState)) -> bool {
    remaining(line, next.0) < remaining(line, hl) || (remaining(line, next.0) == remaining(line, hl)
        && ml_rank(conf, next.1) < ml_rank(conf, st))
}

/// Highlighting of `line` from byte `hl.len()` on, in state `st`, to the end
/// of the line: the highlight types and the final state.
pub open spec fn highlight(conf: SyntaxConf, line: Seq<u8>, hl: Seq<HlType>, st: HlState) -> (Seq<HlType>, HlState)
    decreases remaining(line, hl), ml_rank(conf, st),
{
    if hl.len() >= line.len() {
        (hl, st)
    } else {
        let next = step(conf, line, hl, st);
        if progress(conf, line, hl, st, next) {
            highlight(conf, line, next.0, next.1)
        } else {
            next
        }
    }
}

/// The state a row hands to the next: a single-line string does not
/// continue on the next row.
pub open spec fn carried(st: HlState) -> HlState {
    if st is String {
        HlState::Normal
    } else {
        st
    }
}

/// Whether `pat` occurs in `line` at `i`.
fn find_at(line: &Vec<u8>, i: usize, pat: &[u8]) -> (b: bool)
    ensures
        b == found(line@, i as int, pat@),
{
    if pat.len() > line.len() || i > line.len() - pat.len() {
        return false;
    }
    let n = line.len();
    let mut k: usize = 0;
    while k < pat.len()
        invariant
            k <= pat@.len(),
            n == line@.len(),
            i + pat@.len() <= n,
            forall|j: int| 0 <= j < k ==> line@[i + j] == pat@[j],
        decreases pat@.len() - k,
    {
        if line[i + k] != pat[k] {
            assert(line@.subrange(i as int, i + pat@.len())[k as int] != pat@[k as int]);
            return false;
        }
        k = k + 1;
    }
    assert(line@.subrange(i as int, i + pat@.len()) =~= pat@);
    true
}

/// Whether one of `pats` occurs in `line` at `i`.
fn any_found_at(pats: &Vec<String>, line: &Vec<u8>, i: usize) -> (b: bool)
    ensures
        b == any_found(pats@, line@, i as int),
{
    let mut k: usize = 0;
    while k < pats.len()
        invariant
            k <= pats@.len(),
            forall|j: int| 0 <= j < k ==> !found(line@, i as int, sbytes(#[trigger] pats@[j])),
        decreases pats@.len() - k,
    {
        if find_at(line, i, pats[k].as_str().as_bytes()) {
            return true;
        }
        k = k + 1;
    }
    false
}

/// Appends `n` copies of `t` to `hl`.
fn extend_hl(hl: &mut Vec<HlType>, t: HlType, n: usize)
    ensures
        final(hl)@ == old(hl)@ + repeat(t, n as int),
{
    let mut k: usize = 0;
    while k < n
        invariant
            k <= n,
            hl@ == old(hl)@ + repeat(t, k as int),
        decreases n - k,
    {
        hl.push(t);
        k = k + 1;
        assert(repeat(t, k as int) =~= repeat(t, k - 1).push(t));
    }
}

/// Appends the highlighting of the keywords that occur at `i`.
fn keywords_at(groups: &Vec<(HlType, Vec<String>)>, line: &Vec<u8>, i: usize, hl: &mut Vec<HlType>)
    requires
        i < line@.len(),
    ensures
        final(hl)@ == old(hl)@ + kw_all(groups@, line@, i as int),
{
    let mut g: usize = 0;
    while g < groups.len()
        invariant
            g <= groups@.len(),
            hl@ == old(hl)@ + kw_all(groups@.take(g as int), line@, i as int),
        decreases groups@.len() - g,
    {
        let t = groups[g].0;
        let kws = &groups[g].1;
        let ghost base = hl@;
        let mut k: usize = 0;
        while k < kws.len()
            invariant
                k <= kws@.len(),
                hl@ == base + kw_group(t, kws@.take(k as int), line@, i as int),
            decreases kws@.len() - k,
        {
            let kw = kws[k].as_str().as_bytes();
            let ghost before = hl@;
            proof {
                assert(kws@.take(k + 1).drop_last() =~= kws@.take(k as int));
                assert(kws@.take(k + 1).last() == kws@[k as int]);
            }
            if find_at(line, i, kw) && (kw.len() >= line.len() - i || is_sep(line[i + kw.len()])) {
                extend_hl(hl, t, kw.len());
            } else {
                assert(hl@ =~= before + Seq::<HlType>::empty());
            }
            k = k + 1;
            assert(hl@ =~= base + kw_group(t, kws@.take(k as int), line@, i as int));
        }
        proof {
            assert(kws@.take(k as int) =~= kws@);
            assert(groups@.take(g + 1).drop_last() =~= groups@.take(g as int));
            assert(groups@.take(g + 1).last() == groups@[g as int]);
        }
        g = g + 1;
        assert(hl@ =~= old(hl)@ + kw_all(groups@.take(g as int), line@, i as int));
    }
    assert(groups@.take(g as int) =~= groups@);
}

/// The multi-line construct step, on the executable side.
fn ml_step_at(
    start: &[u8],
    end: &[u8],
    mstate: HlState,
    mtype: HlType,
    line: &Vec<u8>,
    hl: &mut Vec<HlType>,
    st: HlState,
) -> (r: Option<HlState>)
    ensures
        ml_step(Some((start@, end@)), mstate, mtype, line@, old(hl)@, st) matches Some(n) ==> (r
            == Some(n.1) && final(hl)@ == n.0),
        ml_step(Some((start@, end@)), mstate, mtype, line@, old(hl)@, st) is None ==> (r is None
            && final(hl)@ == old(hl)@),
{
    let i = hl.len();
    if st == mstate {
        if find_at(line, i, end) {
            extend_hl(hl, mtype, end.len());
            Some(HlState::Normal)
        } else {
            hl.push(mtype);
            Some(st)
        }
    } else if st == HlState::Normal && find_at(line, i, start) {
        extend_hl(hl, mtype, start.len());
        Some(mstate)
    } else {
        None
    }
}

/// Whether `quotes` holds the character with code `c`.
fn is_quote(quotes: &Vec<char>, c: u8) -> (b: bool)
    ensures
        b == quotes@.contains(c as char),
{
    let mut k: usize = 0;
    while k < quotes.len()
        invariant
            k <= quotes@.len(),
            forall|j: int| 0 <= j < k ==> quotes@[j] != (c as char),
        decreases quotes@.len() - k,
    {
        if quotes[k] == (c as char) {
            return true;
        }
        k = k + 1;
    }
    false
}

/// One step of highlighting, on the executable side.
fn syntax_step(syntax: &SyntaxConf, line: &Vec<u8>, hl: &mut Vec<HlType>, st: HlState) -> (r: HlState)
    requires
        old(hl)@.len() < line@.len(),
    ensures
        (final(hl)@, r) == step(*syntax, line@, old(hl)@, st),
{
    let i = hl.len();
    if st == HlState::Normal && any_found_at(&syntax.sl_comment_start, line, i) {
        extend_hl(hl, HlType::Comment, line.len() - i);
        return st;
    }
    match &syntax.ml_comment_delims {
        Some(d) => {
            let r = ml_step_at(d.0.as_str().as_bytes(), d.1.as_str().as_bytes(), HlState::MultiLineComment, HlType::MlComment, line, hl, st);
            if let Some(next) = r {
                return next;
            }
        },
        None => {},
    }
    match &syntax.ml_string_delim {
        Some(d) => {
            let r = ml_step_at(d.as_str().as_bytes(), d.as_str().as_bytes(), HlState::MultiLineString, HlType::MlString, line, hl, st);
            if let Some(next) = r {
                return next;
            }
        },
        None => {},
    }
    let c = line[i];
    if let HlState::String(quote) = st {
        hl.push(HlType::String);
        if c == quote {
            return HlState::Normal;
        } else if c == 92 && i != line.len() - 1 {
            hl.push(HlType::String);
        }
        return st;
    } else if is_quote(&syntax.sl_string_quotes, c) {
        hl.push(HlType::String);
        return HlState::String(c);
    }
    let prev_sep = i == 0 || is_sep(line[i - 1]);
    if syntax.highlight_numbers && ((48 <= c && c <= 57 && prev_sep) || (i != 0 && hl[i - 1]
        == HlType::Number && !prev_sep && !is_sep(c))) {
        hl.push(HlType::Number);
        return st;
    }
    if prev_sep {
        keywords_at(&syntax.keywords, line, i, hl);
    }
    hl.push(HlType::Normal);
    st
}

/// Every step of a well-formed configuration makes progress.
pub proof fn lemma_step_progress(conf: SyntaxConf, line: Seq<u8>, hl: Seq<HlType>, st: HlState)
    requires
        conf.wf(),
        hl.len() < line.len(),
    ensures
        progress(conf, line, hl, st, step(conf, line, hl, st)),
{
    let i = hl.len() as int;
    let c = line[i];
    if st == HlState::Normal && any_found(conf.sl_comment_start@, line, i) {
    } else if ml_step(ml_comment_bytes(conf), HlState::MultiLineComment, HlType::MlComment, line, hl, st) is Some {
    } else if ml_step(ml_string_bytes(conf), HlState::MultiLineString, HlType::MlString, line, hl, st) is Some {
    } else {
        match st {
            HlState::String(q) => {},
            _ => if conf.sl_string_quotes@.contains(c as char) {
            } else {
                let prev_sep = i == 0 || is_separator(line[i - 1]);
                if conf.highlight_numbers && ((is_digit(c) && prev_sep) || (i != 0 && hl[i - 1]
                    == HlType::Number && !prev_sep && !is_separator(c))) {
                } else {
                    let kws = if prev_sep {
                        kw_all(conf.keywords@, line, i)
                    } else {
                        Seq::empty()
                    };
                    assert((hl + kws).push(HlType::Normal).len() >= hl.len() + 1);
                }
            },
        }
    }
}

/// Terminal columns of a character other than a tab, of `unicode_width`
/// width `w`: its width, or 1 when it has none.
pub open spec fn char_columns(w: Option<usize>) -> nat {
    match w {
        Some(n) => n as nat,
        None => 1,
    }
}

/// Terminal columns taken by `c`, of width `w`, when it starts at column
/// `rx`: a tab runs to the next tab stop, other characters take their columns.
pub open spec fn columns(c: char, w: Option<usize>, rx: nat, tab: nat) -> nat {
    if c == '\t' {
        (tab - rx % tab) as nat
    } else {
        char_columns(w)
    }
}

/// The `unicode_width` widths of the characters of `cs`.
pub open spec fn widths_of(cs: Seq<char>) -> Seq<Option<usize>> {
    cs.map_values(|c: char| char_width(c))
}

/// Terminal columns taken by the rendering of `cs`, the character at each
/// index having the width at that index of `ws`.
pub open spec fn cols(cs: Seq<char>, ws: Seq<Option<usize>>, tab: nat) -> nat
    decreases cs.len(),
{
    if cs.len() == 0 {
        0
    } else {
        let (p, q) = (cs.drop_last(), ws.drop_last());
        cols(p, q, tab) + columns(cs.last(), ws.last(), cols(p, q, tab), tab)
    }
}

/// The rendering of `cs`, of widths `ws`: tabs become spaces up to the next
/// tab stop.
pub open spec fn rendering(cs: Seq<char>, ws: Seq<Option<usize>>, tab: nat) -> Seq<char>
    decreases cs.len(),
{
    if cs.len() == 0 {
        Seq::empty()
    } else {
        let (p, q) = (cs.drop_last(), ws.drop_last());
        rendering(p, q, tab) + if cs.last() == '\t' {
            Seq::new(columns(cs.last(), ws.last(), cols(p, q, tab), tab), |_j: int| ' ')
        } else {
            seq![cs.last()]
        }
    }
}

/// `n` copies of `v`.
pub open spec fn repeat_index(v: int, n: nat) -> Seq<usize> {
    Seq::new(n, |_j: int| v as usize)
}

/// For each byte of `cs`, of widths `ws`, the column at which its character
/// is rendered.
pub open spec fn byte_columns(cs: Seq<char>, ws: Seq<Option<usize>>, tab: nat) -> Seq<usize>
    decreases cs.len(),
{
    if cs.len() == 0 {
        Seq::empty()
    } else {
        let (p, q) = (cs.drop_last(), ws.drop_last());
        byte_columns(p, q, tab) + repeat_index(cols(p, q, tab) as int, utf8_len(cs.last()))
    }
}

/// For each column of the rendering of `cs`, of widths `ws`, the byte index
/// of its character.
pub open spec fn column_bytes(cs: Seq<char>, ws: Seq<Option<usize>>, tab: nat) -> Seq<usize>
    decreases cs.len(),
{
    if cs.len() == 0 {
        Seq::empty()
    } else {
        let (p, q) = (cs.drop_last(), ws.drop_last());
        column_bytes(p, q, tab) + repeat_index(
            bytes_len(p) as int,
            columns(cs.last(), ws.last(), cols(p, q, tab), tab),
        )
    }
}

/// Represents a row of characters and how it is rendered.
pub struct Row {
    /// The characters of the row.
    pub chars: Vec<u8>,
    /// How the characters are rendered: tabs become spaces and the bytes are
    /// decoded as UTF-8.
    pub render: Vec<char>,
    /// Mapping from indices in `self.chars` to the corresponding indices in
    /// `self.render`.
    pub cx2rx: Vec<usize>,
    /// Mapping from indices in `self.render` to the corresponding indices in
    /// `self.chars`.
    pub rx2cx: Vec<usize>,
    /// The vector of `HlType` for each rendered byte.
    pub hl: Vec<HlType>,
    /// The final state of the row.
    pub hl_state: HlState,
    /// If not `None`, the range that is currently matched during a FIND
    /// operation.
    pub match_segment: Option<std::ops::Range<usize>>,
}

impl Row {
    /// The row can be drawn: every rendered byte has a highlight type, and the
    /// columns of the whole rendering can be counted in a `usize`.
    pub open spec fn inv(&self) -> bool {
        &&& self.hl@.len() >= encode_utf8(self.render@).len()
        &&& draw_cols(self.render@) <= usize::MAX
    }

    /// Create a new row, containing characters `chars`.
    pub fn new(chars: Vec<u8>) -> (row: Self)
        ensures
            row.chars@ == chars@,
            row.render@ == Seq::<char>::empty(),
            row.cx2rx@ == seq![0usize],
            row.rx2cx@.len() == 0,
            row.hl@.len() == 0,
            row.hl_state == HlState::Normal,
            row.match_segment is None,
            row.inv(),
    {
        Row {
            chars,
            render: Vec::new(),
            cx2rx: vec![0],
            rx2cx: Vec::new(),
            hl: Vec::new(),
            hl_state: HlState::Normal,
            match_segment: None,
        }
    }
}

impl Default for Row {
    /// An empty row with no mappings, in the normal highlight state.
    fn default() -> (row: Self)
        ensures
            row.chars@.len() == 0,
            row.render@.len() == 0,
            row.cx2rx@.len() == 0,
            row.rx2cx@.len() == 0,
            row.hl@.len() == 0,
            row.hl_state == HlState::Normal,
            row.match_segment is None,
    {
        Row {
            chars: Vec::new(),
            render: Vec::new(),
            cx2rx: Vec::new(),
            rx2cx: Vec::new(),
            hl: Vec::new(),
            hl_state: HlState::Normal,
            match_segment: None,
        }
    }
}

/// Highlighting a line runs until every byte has a highlight type.
pub proof fn lemma_highlight_len(conf: SyntaxConf, line: Seq<u8>, hl: Seq<HlType>, st: HlState)
    requires
        conf.wf(),
    ensures
        highlight(conf, line, hl, st).0.len() >= line.len(),
        highlight(conf, line, hl, st).0.len() >= hl.len(),
    decreases remaining(line, hl), ml_rank(conf, st),
{
    if hl.len() < line.len() {
        lemma_step_progress(conf, line, hl, st);
        let next = step(conf, line, hl, st);
        lemma_highlight_len(conf, line, next.0, next.1);
    }
}

/// Appends `n` copies of `x` to `v`.
fn push_repeat_index(v: &mut Vec<usize>, x: usize, n: usize)
    ensures
        final(v)@ == old(v)@ + repeat_index(x as int, n as nat),
{
    let mut k: usize = 0;
    while k < n
        invariant
            k <= n,
            v@ == old(v)@ + repeat_index(x as int, k as nat),
        decreases n - k,
    {
        v.push(x);
        k = k + 1;
        assert(repeat_index(x as int, k as nat) =~= repeat_index(x as int, (k - 1) as nat).push(x));
    }
}

/// Appends `n` spaces to `v`.
fn push_spaces(v: &mut Vec<char>, n: usize)
    ensures
        final(v)@ == old(v)@ + Seq::new(n as nat, |_j: int| ' '),
{
    let mut k: usize = 0;
    while k < n
        invariant
            k <= n,
            v@ == old(v)@ + Seq::new(k as nat, |_j: int| ' '),
        decreases n - k,
    {
        v.push(' ');
        k = k + 1;
        assert(Seq::new(k as nat, |_j: int| ' ') =~= Seq::new((k - 1) as nat, |_j: int| ' ').push(' '));
    }
}

/// The rendering of `chars` can be counted in a `usize`: its columns and
/// the bytes of its lossy decoding.
pub open spec fn fits(chars: Seq<u8>, tab: nat) -> bool {
    let cs = lossy_string(chars);
    cols(cs, widths_of(cs), tab) <= usize::MAX && bytes_len(cs) <= usize::MAX
}

/// `new` is `old` updated with `conf`, after a row ending in `hl_state`, with
/// tab stops every `tab` columns, and `r` is the state handed to the next
/// row: the rendering and index maps of the lossy decoding of the bytes, the
/// highlighting of the rendered bytes, and the bytes and match left alone.
pub open spec fn updated(old: Row, new: Row, conf: SyntaxConf, hl_state: HlState, tab: nat, r: HlState) -> bool {
    let cs = lossy_string(old.chars@);
    let ws = widths_of(cs);
    let hl = highlight(conf, encode_utf8(new.render@), Seq::empty(), hl_state);
    &&& new.render@ == rendering(cs, ws, tab)
    &&& new.cx2rx@ == byte_columns(cs, ws, tab).push(cols(cs, ws, tab) as usize)
    &&& new.rx2cx@ == column_bytes(cs, ws, tab).push(bytes_len(cs) as usize)
    &&& new.hl@ == hl.0
    &&& r == carried(hl.1)
    &&& new.hl_state == r
    &&& new.chars == old.chars
    &&& new.match_segment == old.match_segment
    &&& new.inv()
    &&& sorted(new.cx2rx@)
    &&& sorted(new.rx2cx@)
}

/// What `unicode_width` is known to give the characters of `cs`: no width
/// for ASCII controls and one column for printable ASCII.
pub open spec fn widths_known(cs: Seq<char>) -> bool {
    forall|i: int| 0 <= i < cs.len() ==> {
        &&& (is_ascii_control_char(#[trigger] cs[i]) ==> char_width(cs[i]) is None)
        &&& (0x20 <= (cs[i] as u32) < 0x7F ==> char_width(cs[i]) == Some(1usize))
    }
}

/// The characters of the lossy decoding of `chars`, and their widths.
fn decoded_with_widths(chars: &Vec<u8>) -> (r: (Vec<char>, Vec<Option<usize>>))
    ensures
        r.0@ == lossy_string(chars@),
        r.1@ == widths_of(r.0@),
        widths_known(r.0@),
{
    let (mut cs, tail) = decode_lossy(chars.as_slice());
    if tail.len() > 0 {
        cs.push('\u{fffd}');
    }
    let mut ws: Vec<Option<usize>> = Vec::new();
    let mut k: usize = 0;
    while k < cs.len()
        invariant
            k <= cs@.len(),
            ws@ == widths_of(cs@.take(k as int)),
            widths_known(cs@.take(k as int)),
        decreases cs@.len() - k,
    {
        assert(cs@.take(k + 1) =~= cs@.take(k as int).push(cs@[k as int]));
        ws.push(width_of_char(cs[k]));
        k = k + 1;
        assert(widths_of(cs@.take(k as int)) =~= widths_of(cs@.take(k - 1)).push(char_width(cs@[k - 1])));
    }
    assert(cs@.take(k as int) =~= cs@);
    (cs, ws)
}

/// Drawing the rendering of characters of their own widths takes as many
/// columns as the rendering has.
proof fn lemma_draw_cols_rendering(cs: Seq<char>, tab: nat)
    requires
        widths_known(cs),
    ensures
        draw_cols(rendering(cs, widths_of(cs), tab)) == cols(cs, widths_of(cs), tab),
    decreases cs.len(),
{
    if cs.len() > 0 {
        let p = cs.drop_last();
        assert(widths_of(cs).drop_last() =~= widths_of(p));
        assert(widths_known(p)) by {
            assert forall|i: int| 0 <= i < p.len() implies p[i] == cs[i] by {}
        }
        lemma_draw_cols_rendering(p, tab);
        let r = rendering(p, widths_of(p), tab);
        if cs.last() == '\t' {
            lemma_draw_cols_spaces(r, columns(cs.last(), widths_of(cs).last(), cols(p, widths_of(p), tab), tab));
        } else {
            assert((r + seq![cs.last()]).drop_last() =~= r);
        }
    }
}

/// The rendering of the characters `cs`, of terminal widths `ws`, with tab
/// stops every `tab` columns, and its two index maps: for each byte its
/// column, and for each column its byte, each closed by the end of the row.
pub fn render_row(cs: &Vec<char>, ws: &Vec<Option<usize>>, tab: usize) -> (r: (Vec<char>, Vec<usize>, Vec<usize>))
    requires
        tab > 0,
        ws@.len() == cs@.len(),
        cols(cs@, ws@, tab as nat) <= usize::MAX,
        bytes_len(cs@) <= usize::MAX,
    ensures
        r.0@ == rendering(cs@, ws@, tab as nat),
        r.1@ == byte_columns(cs@, ws@, tab as nat).push(cols(cs@, ws@, tab as nat) as usize),
        r.2@ == column_bytes(cs@, ws@, tab as nat).push(bytes_len(cs@) as usize),
{
    let mut render: Vec<char> = Vec::new();
    let mut cx2rx: Vec<usize> = Vec::new();
    let mut rx2cx: Vec<usize> = Vec::new();
    let mut rx: usize = 0;
    let mut cx: usize = 0;
    let mut k: usize = 0;
    assert(cs@.take(0) =~= Seq::<char>::empty());
    assert(cs@.take(cs@.len() as int) =~= cs@);
    assert(ws@.take(ws@.len() as int) =~= ws@);
    while k < cs.len()
        invariant
            tab > 0,
            ws@.len() == cs@.len(),
            cs@.take(cs@.len() as int) == cs@,
            ws@.take(ws@.len() as int) == ws@,
            cols(cs@, ws@, tab as nat) <= usize::MAX,
            bytes_len(cs@) <= usize::MAX,
            k <= cs@.len(),
            render@ == rendering(cs@.take(k as int), ws@.take(k as int), tab as nat),
            rx == cols(cs@.take(k as int), ws@.take(k as int), tab as nat),
            cx == bytes_len(cs@.take(k as int)),
            cx2rx@ == byte_columns(cs@.take(k as int), ws@.take(k as int), tab as nat),
            rx2cx@ == column_bytes(cs@.take(k as int), ws@.take(k as int), tab as nat),
        decreases cs@.len() - k,
    {
        let c = cs[k];
        let ghost p = cs@.take(k as int);
        proof {
            assert(cs@.take(k + 1).drop_last() =~= p);
            assert(ws@.take(k + 1).drop_last() =~= ws@.take(k as int));
            assert(cs@.take(k + 1).last() == c);
            assert(ws@.take(k + 1).last() == ws@[k as int]);
            lemma_encode_push(p, c);
            assert(cs@.take(k + 1) =~= p.push(c));
            lemma_prefix_growth(cs@, ws@, tab as nat, k + 1, cs@.len() as int);
        }
        let n: usize = if c == '\t' {
            tab - rx % tab
        } else {
            match ws[k] {
                Some(w) => w,
                None => 1,
            }
        };
        let bytes = len_utf8(c);
        if c == '\t' {
            push_spaces(&mut render, n);
        } else {
            render.push(c);
        }
        push_repeat_index(&mut cx2rx, rx, bytes);
        push_repeat_index(&mut rx2cx, cx, n);
        rx = rx + n;
        cx = cx + bytes;
        k = k + 1;
    }
    cx2rx.push(rx);
    rx2cx.push(cx);
    (render, cx2rx, rx2cx)
}

/// After an update every rendered byte has a highlight type, so the row can
/// be drawn, and the state handed to the next row is the row's own state and
/// never an open single-line string.
pub proof fn law_update_highlights_all(
    old: Row,
    new: Row,
    conf: SyntaxConf,
    hl_state: HlState,
    tab: nat,
    r: HlState,
)
    requires
        updated(old, new, conf, hl_state, tab, r),
    ensures
        new.hl@.len() >= encode_utf8(new.render@).len(),
        r == new.hl_state,
        !(r is String),
{
}

/// Updating a row again with the same arguments changes nothing: the same
/// state comes back, and the rendering, index maps and highlighting stay.
pub proof fn law_update_repeatable(
    r0: Row,
    r1: Row,
    r2: Row,
    conf: SyntaxConf,
    hl_state: HlState,
    tab: nat,
    a: HlState,
    b: HlState,
)
    requires
        updated(r0, r1, conf, hl_state, tab, a),
        updated(r1, r2, conf, hl_state, tab, b),
    ensures
        b == a,
        r2.render@ == r1.render@,
        r2.cx2rx@ == r1.cx2rx@,
        r2.rx2cx@ == r1.rx2cx@,
        r2.hl@ == r1.hl@,
        r2.hl_state == r1.hl_state,
        r2.chars == r0.chars,
        r2.match_segment == r0.match_segment,
{
}

impl Row {
    /// Update the row: convert tabs into spaces and compute highlight symbols.
    /// The `hl_state` argument is the `HlState` for the previous row.
    pub fn update(&mut self, syntax: &SyntaxConf, hl_state: HlState, tab: usize) -> (r: HlState)
        requires
            tab > 0,
            syntax.wf(),
            fits(old(self).chars@, tab as nat),
        ensures
            updated(*old(self), *final(self), *syntax, hl_state, tab as nat, r),
    {
        let (cs, ws) = decoded_with_widths(&self.chars);
        let (render, cx2rx, rx2cx) = render_row(&cs, &ws, tab);
        self.render = render;
        self.cx2rx = cx2rx;
        self.rx2cx = rx2cx;
        proof {
            lemma_update_maps_sorted(cs@, ws@, tab as nat);
            lemma_draw_cols_rendering(cs@, tab as nat);
        }
        self.update_syntax(syntax, hl_state)
    }

    /// Update the row as `update` does when its rendering can be counted in a
    /// `usize`; otherwise leave it unchanged and return `None`.
    pub fn update_checked(&mut self, syntax: &SyntaxConf, hl_state: HlState, tab: usize) -> (r: Option<HlState>)
        requires
            tab > 0,
            syntax.wf(),
        ensures
            r is Some <==> fits(old(self).chars@, tab as nat),
            r matches Some(st) ==> updated(*old(self), *final(self), *syntax, hl_state, tab as nat, st),
            r is None ==> *final(self) == *old(self),
    {
        let (cs, ws) = decoded_with_widths(&self.chars);
        let mut rx: usize = 0;
        let mut cx: usize = 0;
        let mut k: usize = 0;
        assert(cs@.take(0) =~= Seq::<char>::empty());
        assert(cs@.take(cs@.len() as int) =~= cs@);
        assert(ws@.take(ws@.len() as int) =~= ws@);
        while k < cs.len()
            invariant
                tab > 0,
                *self == *old(self),
                cs@ == lossy_string(old(self).chars@),
                ws@ == widths_of(cs@),
                ws@.len() == cs@.len(),
                k <= cs@.len(),
                cs@.take(cs@.len() as int) == cs@,
                ws@.take(ws@.len() as int) == ws@,
                rx == cols(cs@.take(k as int), ws@.take(k as int), tab as nat),
                cx == bytes_len(cs@.take(k as int)),
            decreases cs@.len() - k,
        {
            let c = cs[k];
            let ghost p = cs@.take(k as int);
            proof {
                assert(cs@.take(k + 1).drop_last() =~= p);
                assert(ws@.take(k + 1).drop_last() =~= ws@.take(k as int));
                assert(cs@.take(k + 1).last() == c);
                assert(ws@.take(k + 1).last() == ws@[k as int]);
                lemma_encode_push(p, c);
                assert(cs@.take(k + 1) =~= p.push(c));
                lemma_prefix_growth(cs@, ws@, tab as nat, k + 1, cs@.len() as int);
            }
            let n: usize = if c == '\t' {
                tab - rx % tab
            } else {
                match ws[k] {
                    Some(w) => w,
                    None => 1,
                }
            };
            match (rx.checked_add(n), cx.checked_add(len_utf8(c))) {
                (Some(r2), Some(c2)) => {
                    rx = r2;
                    cx = c2;
                },
                _ => {
                    return None;
                },
            }
            k = k + 1;
        }
        Some(self.update(syntax, hl_state, tab))
    }

    /// Update the syntax highlighting types of the row.
    fn update_syntax(&mut self, syntax: &SyntaxConf, hl_state: HlState) -> (r: HlState)
        requires
            syntax.wf(),
        ensures
            final(self).hl@ == highlight(*syntax, encode_utf8(old(self).render@), Seq::empty(), hl_state).0,
            r == carried(highlight(*syntax, encode_utf8(old(self).render@), Seq::empty(), hl_state).1),
            final(self).hl_state == r,
            final(self).hl@.len() >= encode_utf8(old(self).render@).len(),
            final(self).chars == old(self).chars,
            final(self).render == old(self).render,
            final(self).cx2rx == old(self).cx2rx,
            final(self).rx2cx == old(self).rx2cx,
            final(self).match_segment == old(self).match_segment,
    {
        self.hl.clear();
        let line = encode_chars(&self.render);
        let mut st = hl_state;
        proof {
            lemma_highlight_len(*syntax, line@, Seq::empty(), hl_state);
        }
        while self.hl.len() < line.len()
            invariant
                syntax.wf(),
                line@ == encode_utf8(old(self).render@),
                highlight(*syntax, line@, self.hl@, st) == highlight(*syntax, line@, Seq::empty(), hl_state),
                self.chars == old(self).chars,
                self.render == old(self).render,
                self.cx2rx == old(self).cx2rx,
                self.rx2cx == old(self).rx2cx,
                self.match_segment == old(self).match_segment,
            decreases remaining(line@, self.hl@), ml_rank(*syntax, st),
        {
            proof {
                lemma_step_progress(*syntax, line@, self.hl@, st);
            }
            st = syntax_step(syntax, &line, &mut self.hl, st);
        }
        self.hl_state = if let HlState::String(_) = st {
            HlState::Normal
        } else {
            st
        };
        self.hl_state
    }
}

/// Whether `c` is an ASCII control character.
pub open spec fn is_ascii_control_char(c: char) -> bool {
    (c as u32) <= 0x1F || (c as u32) == 0x7F
}

/// Terminal columns of a rendered character when drawing: ASCII controls
/// are drawn as one letter.
pub open spec fn draw_width(c: char) -> nat {
    if is_ascii_control_char(c) || (0x20 <= (c as u32) && (c as u32) < 0x7F) {
        1
    } else {
        char_columns(char_width(c))
    }
}

/// Terminal columns of drawing all of `s`.
pub open spec fn draw_cols(s: Seq<char>) -> nat
    decreases s.len(),
{
    if s.len() == 0 {
        0
    } else {
        draw_cols(s.drop_last()) + draw_width(s.last())
    }
}

/// Drawing a prefix takes no more columns than drawing the whole.
proof fn lemma_draw_cols_prefix(s: Seq<char>, i: int, j: int)
    requires
        0 <= i <= j <= s.len(),
    ensures
        draw_cols(s.take(i)) <= draw_cols(s.take(j)),
    decreases j - i,
{
    if i < j {
        lemma_draw_cols_prefix(s, i, j - 1);
        assert(s.take(j).drop_last() =~= s.take(j - 1));
    }
}

/// Each space takes one column.
proof fn lemma_draw_cols_spaces(s: Seq<char>, n: nat)
    ensures
        draw_cols(s + Seq::new(n, |_j: int| ' ')) == draw_cols(s) + n,
    decreases n,
{
    if n == 0 {
        assert(s + Seq::new(n, |_j: int| ' ') =~= s);
    } else {
        lemma_draw_cols_spaces(s, (n - 1) as nat);
        assert((s + Seq::new(n, |_j: int| ' ')).drop_last() =~= s + Seq::new((n - 1) as nat, |_j: int| ' '));
    }
}

/// How an ASCII control character is shown: `^@`-style letters up to 26, `?` otherwise.
pub open spec fn control_symbol(c: char) -> char {
    if (c as u32) <= 26 {
        ((64 + (c as u32)) as u8) as char
    } else {
        '?'
    }
}

/// `text` in `color` (then reset) when colours are on, plain otherwise.
pub open spec fn colored(color: Seq<char>, text: Seq<char>, use_color: bool) -> Seq<char> {
    if use_color {
        color + text + RESET@
    } else {
        text
    }
}

/// Drawing state after some characters: the column reached, whether the last
/// base character was drawn, the current highlight type, the output so far,
/// and whether drawing has stopped at the right edge.
pub type DrawState = (nat, bool, HlType, Seq<char>, bool);

/// Drawing one rendered character `c`, which starts at rendered byte `byte`.
pub open spec fn draw_step(
    hl: Seq<HlType>,
    match_segment: Option<std::ops::Range<usize>>,
    offset: nat,
    end: nat,
    use_color: bool,
    byte: int,
    c: char,
    s: DrawState,
) -> DrawState {
    let (rx0, visible0, current, out, stopped) = s;
    let width = draw_width(c);
    let start = rx0;
    let rx = rx0 + width;
    if stopped {
        s
    } else if width == 0 && !visible0 {
        (rx, visible0, current, out, false)
    } else if width != 0 && rx <= offset {
        (rx, false, current, out, false)
    } else if width != 0 && (start >= end || rx > end) {
        (rx, false, current, out, true)
    } else if width != 0 && start < offset {
        (rx, false, current, out + Seq::new((rx - offset) as nat, |_j: int| ' '), false)
    } else {
        let visible = visible0 || width != 0;
        let hl_type = hl[byte];
        if is_ascii_control_char(c) {
            let o = out + colored(WBG@, seq![control_symbol(c)], use_color) + if use_color
                && current != HlType::Normal {
                current.spec_escape()
            } else {
                Seq::empty()
            };
            (rx, visible, current, o, false)
        } else {
            let in_match = match match_segment {
                Some(m) => m.start <= start && start < m.end,
                None => false,
            };
            let t = if in_match {
                HlType::Match
            } else {
                hl_type
            };
            let reset = match_segment is Some && !in_match && use_color && current == HlType::Match;
            let o1 = if reset {
                out + RESET@
            } else {
                out
            };
            let o2 = if use_color && current != t {
                o1 + t.spec_escape()
            } else {
                o1
            };
            (rx, visible, t, o2.push(c), false)
        }
    }
}

/// Drawing state after the first `k` rendered characters.
pub open spec fn draw_state(row: Row, offset: nat, end: nat, use_color: bool, k: int) -> DrawState
    decreases k,
{
    if k <= 0 {
        (0, false, HlType::Normal, Seq::empty(), false)
    } else {
        draw_step(
            row.hl@,
            row.match_segment,
            offset,
            end,
            use_color,
            bytes_len(row.render@.take(k - 1)) as int,
            row.render@[k - 1],
            draw_state(row, offset, end, use_color, k - 1),
        )
    }
}

/// What drawing `row` from column `offset` over `max_len` columns appends.
pub open spec fn drawn(row: Row, offset: nat, max_len: nat, use_color: bool) -> Seq<char> {
    let end = if offset + max_len > usize::MAX {
        usize::MAX as nat
    } else {
        offset + max_len
    };
    draw_state(row, offset, end, use_color, row.render@.len() as int).3 + if use_color {
        RESET@
    } else {
        Seq::empty()
    }
}

/// Pushes `text` in `color` when colours are on, plain otherwise.
pub fn push_colored(buffer: &mut String, color: &str, text: &str, use_color: bool)
    ensures
        final(buffer)@ == old(buffer)@ + colored(color@, text@, use_color),
{
    if use_color {
        push_str(buffer, color);
        push_str(buffer, text);
        push_str(buffer, RESET);
        assert(buffer@ =~= old(buffer)@ + colored(color@, text@, use_color));
    } else {
        push_str(buffer, text);
    }
}

/// Pushes `n` spaces.
fn push_space_chars(buffer: &mut String, n: usize)
    ensures
        final(buffer)@ == old(buffer)@ + Seq::new(n as nat, |_j: int| ' '),
{
    let mut k: usize = 0;
    while k < n
        invariant
            k <= n,
            buffer@ == old(buffer)@ + Seq::new(k as nat, |_j: int| ' '),
        decreases n - k,
    {
        push_char(buffer, ' ');
        k = k + 1;
        assert(Seq::new(k as nat, |_j: int| ' ') =~= Seq::new((k - 1) as nat, |_j: int| ' ').push(' '));
    }
}

/// A prefix's encoding is no longer than the whole encoding.
proof fn lemma_prefix_bytes(s: Seq<char>, k: int)
    requires
        0 <= k < s.len(),
    ensures
        bytes_len(s.take(k)) + utf8_len(s[k]) <= bytes_len(s),
{
    lemma_encode_push(s.take(k), s[k]);
    assert(s.take(k).push(s[k]) =~= s.take(k + 1));
    lemma_encode_append(s.take(k + 1), s.skip(k + 1));
    assert(s.take(k + 1) + s.skip(k + 1) =~= s);
}

/// Once drawing has stopped, later characters change nothing.
proof fn lemma_draw_stopped(row: Row, offset: nat, end: nat, use_color: bool, k: int, n: int)
    requires
        0 <= k <= n,
        draw_state(row, offset, end, use_color, k).4,
    ensures
        draw_state(row, offset, end, use_color, n) == draw_state(row, offset, end, use_color, k),
    decreases n - k,
{
    if k < n {
        lemma_draw_stopped(row, offset, end, use_color, k, n - 1);
    }
}

impl Row {
    /// Draw the row into a buffer, with `offset` and `max_len` in terminal columns.
    pub fn draw(&self, offset: usize, max_len: usize, buffer: &mut String, use_color: bool)
        requires
            self.inv(),
        ensures
            final(buffer)@ == old(buffer)@ + drawn(*self, offset as nat, max_len as nat, use_color),
    {
        let mut current_hl_type = HlType::Normal;
        let end = offset.saturating_add(max_len);
        let mut rx: usize = 0;
        let mut visible = false;
        let mut stopped = false;
        let mut byte: usize = 0;
        let mut k: usize = 0;
        let ghost row = *self;
        let ghost base = buffer@;
        let hl_len = self.hl.len();
        while k < self.render.len() && !stopped
            invariant
                row == *self,
                hl_len == self.hl@.len(),
                self.inv(),
                end == if offset + max_len > usize::MAX {
                    usize::MAX as int
                } else {
                    offset + max_len
                },
                k <= self.render@.len(),
                byte == bytes_len(self.render@.take(k as int)),
                rx == draw_cols(self.render@.take(k as int)),
                base == old(buffer)@,
                buffer@.len() >= base.len(),
                buffer@.subrange(0, base.len() as int) == base,
                (rx as nat, visible, current_hl_type, buffer@.subrange(base.len() as int, buffer@.len() as int), stopped)
                    == draw_state(row, offset as nat, end as nat, use_color, k as int),
            decreases self.render@.len() - k,
        {
            let c = self.render[k];
            let ghost before = buffer@;
            proof {
                lemma_prefix_bytes(self.render@, k as int);
                lemma_encode_push(self.render@.take(k as int), c);
                assert(self.render@.take(k as int).push(c) =~= self.render@.take(k + 1));
                assert(self.render@.take(k + 1).drop_last() =~= self.render@.take(k as int));
                lemma_draw_cols_prefix(self.render@, k + 1, self.render@.len() as int);
                assert(self.render@.take(self.render@.len() as int) =~= self.render@);
            }
            let ascii_control = (c as u32) <= 0x1F || (c as u32) == 0x7F;
            let width: usize = if ascii_control {
                1
            } else {
                match width_of_char(c) {
                    Some(w) => w,
                    None => 1,
                }
            };
            let start = rx;
            rx = rx + width;
            let draw_it;
            if width == 0 {
                draw_it = visible;
            } else {
                visible = false;
                if rx <= offset {
                    draw_it = false;
                } else if start >= end || rx > end {
                    stopped = true;
                    draw_it = false;
                } else if start < offset {
                    push_space_chars(buffer, rx - offset);
                    draw_it = false;
                } else {
                    visible = true;
                    draw_it = true;
                }
            }
            if draw_it {
                let mut hl_type = self.hl[byte];
                if ascii_control {
                    let code = c as u32;
                    let rendered_char = if code <= 26 {
                        ((64 + code) as u8) as char
                    } else {
                        '?'
                    };
                    let mut one = String::new();
                    push_char(&mut one, rendered_char);
                    push_colored(buffer, WBG, one.as_str(), use_color);
                    if use_color && current_hl_type != HlType::Normal {
                        push_str(buffer, current_hl_type.escape());
                    }
                } else {
                    if let Some(match_segment) = &self.match_segment {
                        if match_segment.start <= start && start < match_segment.end {
                            hl_type = HlType::Match;
                        } else if use_color && current_hl_type == HlType::Match {
                            push_str(buffer, RESET);
                        }
                    }
                    if use_color && current_hl_type != hl_type {
                        push_str(buffer, hl_type.escape());
                    }
                    current_hl_type = hl_type;
                    push_char(buffer, c);
                }
            }
            byte = byte + len_utf8(c);
            k = k + 1;
            proof {
                assert(buffer@.subrange(0, base.len() as int) =~= before.subrange(0, base.len() as int));
                assert(buffer@.subrange(base.len() as int, buffer@.len() as int) =~= draw_state(row, offset as nat, end as nat, use_color, k as int).3);
            }
        }
        proof {
            if stopped {
                lemma_draw_stopped(row, offset as nat, end as nat, use_color, k as int, self.render@.len() as int);
            }
        }
        let ghost out = buffer@.subrange(base.len() as int, buffer@.len() as int);
        let ghost mid = buffer@;
        assert(mid =~= base + out);
        assert(out == draw_state(row, offset as nat, end as nat, use_color, self.render@.len() as int).3);
        if use_color {
            push_str(buffer, RESET);
        } else {
            proof {
                reveal_strlit("");
            }
            push_str(buffer, "");
        }
        assert(buffer@ =~= base + drawn(row, offset as nat, max_len as nat, use_color));
    }
}

/// The first positive difference `m[j] - m[rx]` for `j` from `from` on, or 1
/// when there is none.
pub open spec fn first_step(m: Seq<usize>, rx: int, from: int) -> int
    decreases m.len() - from,
{
    if from >= m.len() || from < 0 {
        1
    } else if m[from] > m[rx] {
        m[from] - m[rx]
    } else {
        first_step(m, rx, from + 1)
    }
}

/// A sequence of indices that never decreases.
pub open spec fn sorted(m: Seq<usize>) -> bool {
    forall|i: int, j: int| 0 <= i <= j < m.len() ==> m[i] <= m[j]
}

impl Row {
    /// Obtain the character size, in bytes, given its position in
    /// `self.render`: the difference between `self.rx2cx[rx]` and the byte
    /// index of the next character.
    pub fn get_char_size(&self, rx: usize) -> (n: usize)
        requires
            rx < usize::MAX,
            forall|j: int| rx < j < self.rx2cx@.len() ==> self.rx2cx@[j] >= self.rx2cx@[rx as int],
        ensures
            n == first_step(self.rx2cx@, rx as int, rx + 1),
            n >= 1,
    {
        let mut j = rx + 1;
        while j < self.rx2cx.len()
            invariant
                rx < j,
                forall|i: int| rx < i < self.rx2cx@.len() ==> self.rx2cx@[i] >= self.rx2cx@[rx as int],
                first_step(self.rx2cx@, rx as int, rx + 1) == first_step(self.rx2cx@, rx as int, j as int),
            decreases self.rx2cx@.len() - j,
        {
            let d = self.rx2cx[j] - self.rx2cx[rx];
            if d > 0 {
                return d;
            }
            j = j + 1;
        }
        1
    }
}

/// The column map of a rendering never decreases and stays below the byte
/// length of the row.
proof fn lemma_column_bytes(cs: Seq<char>, ws: Seq<Option<usize>>, tab: nat)
    requires
        bytes_len(cs) <= usize::MAX,
    ensures
        sorted(column_bytes(cs, ws, tab)),
        forall|i: int| 0 <= i < column_bytes(cs, ws, tab).len() ==> #[trigger] column_bytes(cs, ws, tab)[i] <= bytes_len(cs),
        column_bytes(cs, ws, tab).len() == cols(cs, ws, tab),
    decreases cs.len(),
{
    if cs.len() > 0 {
        let p = cs.drop_last();
        lemma_encode_push(p, cs.last());
        assert(p.push(cs.last()) =~= cs);
        lemma_column_bytes(p, ws.drop_last(), tab);
    }
}

/// The byte map of a rendering never decreases and stays below the number
/// of columns.
proof fn lemma_byte_columns(cs: Seq<char>, ws: Seq<Option<usize>>, tab: nat)
    requires
        cols(cs, ws, tab) <= usize::MAX,
    ensures
        sorted(byte_columns(cs, ws, tab)),
        forall|i: int| 0 <= i < byte_columns(cs, ws, tab).len() ==> #[trigger] byte_columns(cs, ws, tab)[i] <= cols(cs, ws, tab),
        byte_columns(cs, ws, tab).len() == bytes_len(cs),
    decreases cs.len(),
{
    if cs.len() > 0 {
        let p = cs.drop_last();
        lemma_encode_push(p, cs.last());
        assert(p.push(cs.last()) =~= cs);
        lemma_byte_columns(p, ws.drop_last(), tab);
    }
}

/// After an update, both index maps never decrease, so `get_char_size` may
/// be asked about any rendered column; they have one entry per byte (resp.
/// column) plus one for the end of the row.
pub proof fn lemma_update_maps_sorted(cs: Seq<char>, ws: Seq<Option<usize>>, tab: nat)
    requires
        bytes_len(cs) <= usize::MAX,
        cols(cs, ws, tab) <= usize::MAX,
    ensures
        sorted(column_bytes(cs, ws, tab).push(bytes_len(cs) as usize)),
        sorted(byte_columns(cs, ws, tab).push(cols(cs, ws, tab) as usize)),
        column_bytes(cs, ws, tab).push(bytes_len(cs) as usize).len() == cols(cs, ws, tab) + 1,
        byte_columns(cs, ws, tab).push(cols(cs, ws, tab) as usize).len() == bytes_len(cs) + 1,
{
    lemma_column_bytes(cs, ws, tab);
    lemma_byte_columns(cs, ws, tab);
    let a = column_bytes(cs, ws, tab).push(bytes_len(cs) as usize);
    assert forall|i: int, j: int| 0 <= i <= j < a.len() implies a[i] <= a[j] by {
        if j == a.len() - 1 {
            if i < j {
                assert(a[i] == column_bytes(cs, ws, tab)[i]);
            }
        } else {
            assert(a[i] == column_bytes(cs, ws, tab)[i]);
            assert(a[j] == column_bytes(cs, ws, tab)[j]);
        }
    }
    let b = byte_columns(cs, ws, tab).push(cols(cs, ws, tab) as usize);
    assert forall|i: int, j: int| 0 <= i <= j < b.len() implies b[i] <= b[j] by {
        if j == b.len() - 1 {
            if i < j {
                assert(b[i] == byte_columns(cs, ws, tab)[i]);
            }
        } else {
            assert(b[i] == byte_columns(cs, ws, tab)[i]);
            assert(b[j] == byte_columns(cs, ws, tab)[j]);
        }
    }
}

/// Columns and bytes only grow along a row.
proof fn lemma_prefix_growth(cs: Seq<char>, ws: Seq<Option<usize>>, tab: nat, i: int, j: int)
    requires
        0 <= i <= j <= cs.len(),
        ws.len() == cs.len(),
    ensures
        cols(cs.take(i), ws.take(i), tab) <= cols(cs.take(j), ws.take(j), tab),
        bytes_len(cs.take(i)) <= bytes_len(cs.take(j)),
    decreases j - i,
{
    if i < j {
        lemma_prefix_growth(cs, ws, tab, i, j - 1);
        let p = cs.take(j - 1);
        assert(cs.take(j).drop_last() =~= p);
        assert(ws.take(j).drop_last() =~= ws.take(j - 1));
        lemma_encode_push(p, cs[j - 1]);
        assert(p.push(cs[j - 1]) =~= cs.take(j));
    }
}

/// The index maps of a rendering agree at the start of every character: its
/// first byte maps to the column where it is drawn, and, when it takes any
/// columns, that column maps back to its first byte. The end of the row maps
/// to the end of the rendering and back.
pub proof fn law_index_maps_agree(cs: Seq<char>, ws: Seq<Option<usize>>, tab: nat, k: int)
    requires
        0 <= k <= cs.len(),
        ws.len() == cs.len(),
        bytes_len(cs) <= usize::MAX,
        cols(cs, ws, tab) <= usize::MAX,
    ensures
        byte_columns(cs, ws, tab).push(cols(cs, ws, tab) as usize)[bytes_len(cs.take(k)) as int] == cols(
            cs.take(k),
            ws.take(k),
            tab,
        ),
        (k == cs.len() || columns(cs[k], ws[k], cols(cs.take(k), ws.take(k), tab), tab) > 0)
            ==> column_bytes(cs, ws, tab).push(bytes_len(cs) as usize)[cols(cs.take(k), ws.take(k), tab) as int]
            == bytes_len(cs.take(k)),
    decreases cs.len(),
{
    lemma_byte_columns(cs, ws, tab);
    lemma_column_bytes(cs, ws, tab);
    if k == cs.len() {
        assert(cs.take(k) =~= cs);
        assert(ws.take(k) =~= ws);
    } else {
        let p = cs.drop_last();
        let pw = ws.drop_last();
        let c = cs.last();
        lemma_encode_push(p, c);
        assert(p.push(c) =~= cs);
        assert(cs.take(k) =~= p.take(k));
        assert(ws.take(k) =~= pw.take(k));
        lemma_byte_columns(p, pw, tab);
        lemma_column_bytes(p, pw, tab);
        lemma_prefix_growth(cs, ws, tab, k, cs.len() - 1);
        assert(cs.take(cs.len() - 1) =~= p);
        assert(ws.take(cs.len() - 1) =~= pw);
        assert(utf8_len(c) >= 1);
        if k == p.len() {
            assert(cs.take(k) =~= p);
            assert(ws.take(k) =~= pw);
            assert(byte_columns(cs, ws, tab)[bytes_len(p) as int] == cols(p, pw, tab) as usize);
            if columns(cs[k], ws[k], cols(cs.take(k), ws.take(k), tab), tab) > 0 {
                assert(column_bytes(cs, ws, tab)[cols(p, pw, tab) as int] == bytes_len(p) as usize);
            }
        } else {
            law_index_maps_agree(p, pw, tab, k);
            lemma_prefix_growth(p, pw, tab, k, k + 1);
            let q = p.take(k);
            let qw = pw.take(k);
            assert(p.take(k + 1).drop_last() =~= q);
            assert(pw.take(k + 1).drop_last() =~= qw);
            assert(p.take(k + 1).last() == p[k]);
            assert(pw.take(k + 1).last() == pw[k]);
            lemma_encode_push(q, p[k]);
            assert(q.push(p[k]) =~= p.take(k + 1));
            assert(utf8_len(p[k]) >= 1);
            lemma_prefix_growth(p, pw, tab, k + 1, p.len() as int);
            assert(p.take(p.len() as int) =~= p);
            assert(pw.take(p.len() as int) =~= pw);
            assert(bytes_len(q) < bytes_len(p));
            assert(byte_columns(cs, ws, tab)[bytes_len(q) as int] == byte_columns(p, pw, tab)[bytes_len(q) as int]);
            if columns(cs[k], ws[k], cols(q, qw, tab), tab) > 0 {
                assert(cs[k] == p[k]);
                assert(ws[k] == pw[k]);
                assert(cols(q, qw, tab) < cols(p, pw, tab));
                assert(column_bytes(cs, ws, tab)[cols(q, qw, tab) as int] == column_bytes(p, pw, tab)[cols(q, qw, tab) as int]);
            }
        }
    }
}

/// Every column of a rendering lies in a character that starts at or
/// before it: the column's byte lies in the row, and maps back to a column
/// no later.
proof fn lemma_columns_map_back(cs: Seq<char>, ws: Seq<Option<usize>>, tab: nat)
    requires
        bytes_len(cs) <= usize::MAX,
        cols(cs, ws, tab) <= usize::MAX,
    ensures
        forall|r: int| 0 <= r < cols(cs, ws, tab) ==> {
            &&& (#[trigger] column_bytes(cs, ws, tab)[r]) < bytes_len(cs)
            &&& byte_columns(cs, ws, tab)[column_bytes(cs, ws, tab)[r] as int] <= r
        },
    decreases cs.len(),
{
    lemma_column_bytes(cs, ws, tab);
    lemma_byte_columns(cs, ws, tab);
    if cs.len() > 0 {
        let p = cs.drop_last();
        let pw = ws.drop_last();
        let c = cs.last();
        lemma_encode_push(p, c);
        assert(p.push(c) =~= cs);
        assert(utf8_len(c) >= 1);
        lemma_column_bytes(p, pw, tab);
        lemma_byte_columns(p, pw, tab);
        lemma_columns_map_back(p, pw, tab);
        assert forall|r: int| 0 <= r < cols(cs, ws, tab) implies {
            &&& (#[trigger] column_bytes(cs, ws, tab)[r]) < bytes_len(cs)
            &&& byte_columns(cs, ws, tab)[column_bytes(cs, ws, tab)[r] as int] <= r
        } by {
            if r < cols(p, pw, tab) {
                let b = column_bytes(p, pw, tab)[r];
                assert(column_bytes(cs, ws, tab)[r] == b);
                assert(byte_columns(cs, ws, tab)[b as int] == byte_columns(p, pw, tab)[b as int]);
            } else {
                assert(column_bytes(cs, ws, tab)[r] == bytes_len(p) as usize);
                assert(byte_columns(cs, ws, tab)[bytes_len(p) as int] == cols(p, pw, tab) as usize);
            }
        }
    }
}

/// Mapping a column to its byte and back never moves right: the byte of
/// column `r` is the start of the character drawn there, whose column is at
/// most `r`.
pub proof fn law_columns_map_back(cs: Seq<char>, ws: Seq<Option<usize>>, tab: nat, r: int)
    requires
        0 <= r <= cols(cs, ws, tab),
        bytes_len(cs) <= usize::MAX,
        cols(cs, ws, tab) <= usize::MAX,
    ensures
        ({
            let cx2rx = byte_columns(cs, ws, tab).push(cols(cs, ws, tab) as usize);
            let rx2cx = column_bytes(cs, ws, tab).push(bytes_len(cs) as usize);
            &&& rx2cx[r] <= bytes_len(cs)
            &&& cx2rx[rx2cx[r] as int] <= r
        }),
{
    lemma_column_bytes(cs, ws, tab);
    lemma_byte_columns(cs, ws, tab);
    lemma_columns_map_back(cs, ws, tab);
    if r < cols(cs, ws, tab) {
        let b = column_bytes(cs, ws, tab)[r];
        assert(b < bytes_len(cs));
    }
}

/// The first character from index `j` on that takes any columns, or the
/// end of the row.
pub open spec fn next_visible(cs: Seq<char>, ws: Seq<Option<usize>>, tab: nat, j: int) -> int
    decreases cs.len() - j,
{
    if j < 0 || j >= cs.len() {
        cs.len() as int
    } else if columns(cs[j], ws[j], cols(cs.take(j), ws.take(j), tab), tab) > 0 {
        j
    } else {
        next_visible(cs, ws, tab, j + 1)
    }
}

/// The columns of character `k` all map to its first byte.
proof fn lemma_columns_of_char(cs: Seq<char>, ws: Seq<Option<usize>>, tab: nat, k: int, x: int)
    requires
        0 <= k < cs.len(),
        ws.len() == cs.len(),
        cols(cs.take(k), ws.take(k), tab) <= x < cols(cs.take(k + 1), ws.take(k + 1), tab),
        bytes_len(cs) <= usize::MAX,
    ensures
        column_bytes(cs, ws, tab)[x] == bytes_len(cs.take(k)),
    decreases cs.len(),
{
    let p = cs.drop_last();
    let pw = ws.drop_last();
    lemma_encode_push(p, cs.last());
    assert(p.push(cs.last()) =~= cs);
    lemma_column_bytes(p, pw, tab);
    if k == cs.len() - 1 {
        assert(cs.take(k) =~= p);
        assert(ws.take(k) =~= pw);
        assert(cs.take(k + 1) =~= cs);
        assert(ws.take(k + 1) =~= ws);
    } else {
        assert(cs.take(k) =~= p.take(k));
        assert(ws.take(k) =~= pw.take(k));
        assert(cs.take(k + 1) =~= p.take(k + 1));
        assert(ws.take(k + 1) =~= pw.take(k + 1));
        lemma_columns_of_char(p, pw, tab, k, x);
        lemma_prefix_growth(p, pw, tab, k + 1, p.len() as int);
        assert(p.take(p.len() as int) =~= p);
        assert(pw.take(p.len() as int) =~= pw);
    }
}

/// Characters that take no columns leave the column count unchanged.
proof fn lemma_zero_width_run(cs: Seq<char>, ws: Seq<Option<usize>>, tab: nat, k: int, m: int)
    requires
        0 <= k <= m <= cs.len(),
        ws.len() == cs.len(),
        forall|j: int| k <= j < m ==> columns(cs[j], ws[j], cols(cs.take(j), ws.take(j), tab), tab) == 0,
    ensures
        cols(cs.take(m), ws.take(m), tab) == cols(cs.take(k), ws.take(k), tab),
    decreases m - k,
{
    if k < m {
        lemma_zero_width_run(cs, ws, tab, k, m - 1);
        assert(cs.take(m).drop_last() =~= cs.take(m - 1));
        assert(ws.take(m).drop_last() =~= ws.take(m - 1));
        assert(cs.take(m).last() == cs[m - 1]);
        assert(ws.take(m).last() == ws[m - 1]);
    }
}

/// `next_visible` finds a character that takes columns, or the end, with
/// only characters of no columns before it.
proof fn lemma_next_visible(cs: Seq<char>, ws: Seq<Option<usize>>, tab: nat, j: int)
    requires
        0 <= j <= cs.len(),
    ensures
        j <= next_visible(cs, ws, tab, j) <= cs.len(),
        next_visible(cs, ws, tab, j) == cs.len() || columns(
            cs[next_visible(cs, ws, tab, j)],
            ws[next_visible(cs, ws, tab, j)],
            cols(cs.take(next_visible(cs, ws, tab, j)), ws.take(next_visible(cs, ws, tab, j)), tab),
            tab,
        ) > 0,
        forall|i: int| j <= i < next_visible(cs, ws, tab, j) ==> columns(cs[i], ws[i], cols(cs.take(i), ws.take(i), tab), tab) == 0,
    decreases cs.len() - j,
{
    if j < cs.len() && columns(cs[j], ws[j], cols(cs.take(j), ws.take(j), tab), tab) == 0 {
        lemma_next_visible(cs, ws, tab, j + 1);
    }
}

/// The first step of a map equal to its value at `rx` up to index `e`,
/// where it is larger.
proof fn lemma_first_step_at(m: Seq<usize>, rx: int, from: int, e: int)
    requires
        0 <= rx < from <= e < m.len(),
        forall|j: int| from <= j < e ==> m[j] == m[rx],
        m[e] > m[rx],
    ensures
        first_step(m, rx, from) == m[e] - m[rx],
    decreases e - from,
{
    if from < e {
        lemma_first_step_at(m, rx, from + 1, e);
    }
}

/// The size `get_char_size` gives at the first column of a character that
/// takes columns is the number of bytes up to the next such character (or
/// the end of the row): the character and the characters of no columns that
/// follow it, such as combining marks.
pub proof fn law_char_size(cs: Seq<char>, ws: Seq<Option<usize>>, tab: nat, k: int)
    requires
        0 <= k < cs.len(),
        ws.len() == cs.len(),
        columns(cs[k], ws[k], cols(cs.take(k), ws.take(k), tab), tab) > 0,
        bytes_len(cs) <= usize::MAX,
        cols(cs, ws, tab) <= usize::MAX,
    ensures
        ({
            let rx2cx = column_bytes(cs, ws, tab).push(bytes_len(cs) as usize);
            let r = cols(cs.take(k), ws.take(k), tab) as int;
            rx2cx[r] + first_step(rx2cx, r, r + 1) == bytes_len(cs.take(next_visible(cs, ws, tab, k + 1)))
        }),
{
    let c2 = column_bytes(cs, ws, tab).push(bytes_len(cs) as usize);
    let r = cols(cs.take(k), ws.take(k), tab) as int;
    let m = next_visible(cs, ws, tab, k + 1);
    let e = cols(cs.take(m), ws.take(m), tab) as int;
    lemma_next_visible(cs, ws, tab, k + 1);
    lemma_column_bytes(cs, ws, tab);
    assert(e == cols(cs.take(k + 1), ws.take(k + 1), tab)) by {
        lemma_zero_width_run(cs, ws, tab, k + 1, m);
    }
    assert(e > r) by {
        assert(cs.take(k + 1).drop_last() =~= cs.take(k));
        assert(ws.take(k + 1).drop_last() =~= ws.take(k));
        assert(cs.take(k + 1).last() == cs[k]);
        assert(ws.take(k + 1).last() == ws[k]);
    }
    assert(e <= cols(cs, ws, tab)) by {
        lemma_prefix_growth(cs, ws, tab, m, cs.len() as int);
        assert(cs.take(cs.len() as int) =~= cs);
        assert(ws.take(cs.len() as int) =~= ws);
    }
    assert(c2[r] == bytes_len(cs.take(k))) by {
        law_index_maps_agree(cs, ws, tab, k);
    }
    assert(c2[e] == bytes_len(cs.take(m))) by {
        law_index_maps_agree(cs, ws, tab, m);
    }
    assert forall|j: int| r + 1 <= j < e implies c2[j] == c2[r] by {
        lemma_columns_of_char(cs, ws, tab, k, j);
    }
    assert(bytes_len(cs.take(m)) > bytes_len(cs.take(k))) by {
        lemma_prefix_growth(cs, ws, tab, k + 1, m);
        lemma_encode_push(cs.take(k), cs[k]);
        assert(cs.take(k).push(cs[k]) =~= cs.take(k + 1));
        assert(utf8_len(cs[k]) >= 1);
    }
    lemma_first_step_at(c2, r, r + 1, e);
}

/// Terminal columns drawn by the first `k` rendered characters: padding for
/// a wide character cut by the left edge, and the width of each character drawn.
pub open spec fn drawn_cols(row: Row, offset: nat, end: nat, use_color: bool, k: int) -> nat
    decreases k,
{
    if k <= 0 {
        0
    } else {
        let s = draw_state(row, offset, end, use_color, k - 1);
        let c = row.render@[k - 1];
        let width = draw_width(c);
        let prev = drawn_cols(row, offset, end, use_color, k - 1);
        if s.4 || (width == 0) || s.0 + width <= offset || (s.0 >= end || s.0 + width > end) {
            prev
        } else if s.0 < offset {
            (prev + (s.0 + width - offset)) as nat
        } else {
            prev + width
        }
    }
}

/// Drawing accounts for the columns reached so far: everything right of
/// `offset`, and never past `end` while drawing goes on.
proof fn lemma_drawn_cols(row: Row, offset: nat, end: nat, use_color: bool, k: int)
    requires
        0 <= k <= row.render@.len(),
        offset <= end,
    ensures
        drawn_cols(row, offset, end, use_color, k) <= end - offset,
        !draw_state(row, offset, end, use_color, k).4 ==> {
            let rx = draw_state(row, offset, end, use_color, k).0;
            &&& drawn_cols(row, offset, end, use_color, k) == if rx >= offset { rx - offset } else { 0 }
            &&& rx <= end || rx <= offset
        },
    decreases k,
{
    if k > 0 {
        lemma_drawn_cols(row, offset, end, use_color, k - 1);
    }
}

/// Without colour, drawing emits no ASCII control character after `k`
/// rendered characters.
proof fn lemma_plain_draw_no_controls(row: Row, offset: nat, end: nat, k: int)
    ensures
        forall|i: int| 0 <= i < draw_state(row, offset, end, false, k).3.len()
            ==> !is_ascii_control_char(#[trigger] draw_state(row, offset, end, false, k).3[i]),
    decreases k,
{
    if k > 0 {
        lemma_plain_draw_no_controls(row, offset, end, k - 1);
        let s = draw_state(row, offset, end, false, k - 1);
        let c = row.render@[k - 1];
        let t = draw_state(row, offset, end, false, k);
        if (c as u32) <= 26 {
            let v = (c as u32) as u8;
            assert(64 + v < 128);
            assert(((64 + (c as u32)) as u8) as u32 == 64 + (c as u32));
        }
        assert forall|i: int| 0 <= i < t.3.len() implies !is_ascii_control_char(#[trigger] t.3[i]) by {
            if i < s.3.len() {
                assert(t.3[i] == s.3[i]);
            }
        }
    }
}

/// Drawing without colour never emits an ASCII control character, not even
/// ESC: control characters of the row are shown as `@`..`Z` or `?`. Drawing
/// with colour always ends with a reset, so neither a colour nor the match
/// background reaches past the row.
pub proof fn law_draw_is_terminal_safe(row: Row, offset: nat, max_len: nat)
    ensures
        forall|i: int| 0 <= i < drawn(row, offset, max_len, false).len()
            ==> !is_ascii_control_char(#[trigger] drawn(row, offset, max_len, false)[i]),
        drawn(row, offset, max_len, true).len() >= RESET@.len(),
        drawn(row, offset, max_len, true).subrange(
            drawn(row, offset, max_len, true).len() - RESET@.len(),
            drawn(row, offset, max_len, true).len() as int,
        ) == RESET@,
{
    let end: nat = if offset + max_len > usize::MAX { usize::MAX as nat } else { offset + max_len };
    lemma_plain_draw_no_controls(row, offset, end, row.render@.len() as int);
    let s = draw_state(row, offset, end, false, row.render@.len() as int);
    assert(drawn(row, offset, max_len, false) =~= s.3);
    let o = draw_state(row, offset, end, true, row.render@.len() as int).3;
    assert(drawn(row, offset, max_len, true).subrange(o.len() as int, (o.len() + RESET@.len()) as int) =~= RESET@);
}

/// Clipping uses terminal columns: a drawn row never takes more than
/// `max_len` columns of the terminal.
pub proof fn law_draw_fits(row: Row, offset: nat, max_len: nat, use_color: bool)
    ensures
        drawn_cols(
            row,
            offset,
            if offset + max_len > usize::MAX { usize::MAX as nat } else { offset + max_len },
            use_color,
            row.render@.len() as int,
        ) <= max_len,
{
    let end: nat = if offset + max_len > usize::MAX { usize::MAX as nat } else { offset + max_len };
    if offset <= end {
        lemma_drawn_cols(row, offset, end, use_color, row.render@.len() as int);
    } else {
        lemma_drawn_zero(row, offset, end, use_color, row.render@.len() as int);
    }
}

/// With the left edge past the right edge nothing is drawn.
proof fn lemma_drawn_zero(row: Row, offset: nat, end: nat, use_color: bool, k: int)
    requires
        offset > end,
    ensures
        drawn_cols(row, offset, end, use_color, k) == 0,
    decreases k,
{
    if k > 0 {
        lemma_drawn_zero(row, offset, end, use_color, k - 1);
    }
}

/// The characters of printable ASCII bytes.
pub open spec fn ascii_chars(b: Seq<u8>) -> Seq<char> {
    Seq::new(b.len(), |i: int| b[i] as char)
}

/// Every byte of `b` is printable ASCII (a space up to `~`).
pub open spec fn printable_ascii(b: Seq<u8>) -> bool {
    forall|i: int| 0 <= i < b.len() ==> 0x20 <= #[trigger] b[i] < 0x7F
}

/// ASCII bytes are valid UTF-8 and decode to themselves.
proof fn lemma_ascii_decode(b: Seq<u8>)
    requires
        forall|i: int| 0 <= i < b.len() ==> #[trigger] b[i] < 0x80,
    ensures
        valid_utf8(b),
        decode_utf8(b) == Seq::new(b.len(), |i: int| b[i] as char),
    decreases b.len(),
{
    if b.len() > 0 {
        let x = b[0];
        assert(x & 0x7F == x) by (bit_vector)
            requires x < 0x80;
        let rest = b.subrange(1, b.len() as int);
        assert forall|i: int| 0 <= i < rest.len() implies #[trigger] rest[i] < 0x80 by {
            assert(rest[i] == b[i + 1]);
        }
        lemma_ascii_decode(rest);
        assert(pop_first_scalar(b) =~= rest);
        assert(decode_utf8(b) =~= Seq::new(b.len(), |i: int| b[i] as char));
    }
}

/// Without tabs, the rendering is the characters themselves.
proof fn lemma_rendering_no_tabs(cs: Seq<char>, ws: Seq<Option<usize>>, tab: nat)
    requires
        forall|i: int| 0 <= i < cs.len() ==> #[trigger] cs[i] != '\t',
    ensures
        rendering(cs, ws, tab) == cs,
    decreases cs.len(),
{
    if cs.len() > 0 {
        lemma_rendering_no_tabs(cs.drop_last(), ws.drop_last(), tab);
        assert(cs.drop_last() + seq![cs.last()] =~= cs);
    }
}

/// A row of printable ASCII renders as its bytes, one column each.
pub proof fn law_ascii_rendering(chars: Seq<u8>, tab: nat)
    requires
        printable_ascii(chars),
    ensures
        lossy_string(chars) == ascii_chars(chars),
        rendering(lossy_string(chars), widths_of(lossy_string(chars)), tab) == ascii_chars(chars),
{
    lemma_ascii_decode(chars);
    assert(lossy(chars).1.len() == 0);
    lemma_rendering_no_tabs(ascii_chars(chars), widths_of(ascii_chars(chars)), tab);
}

/// Drawing printable characters without colour, after `k` of them.
proof fn lemma_ascii_draw_state(row: Row, offset: nat, end: nat, k: int)
    requires
        0 <= k <= row.render@.len(),
        offset <= end,
        forall|i: int| 0 <= i < row.render@.len() ==> 0x20 <= (#[trigger] row.render@[i] as u32) < 0x7F,
    ensures
        ({
            let s = draw_state(row, offset, end, false, k);
            &&& s.3 == row.render@.subrange(
                if k < offset { k } else { offset as int },
                if k < end { k } else { end as int },
            )
            &&& s.4 == (k > end)
            &&& !s.4 ==> s.0 == k
        }),
    decreases k,
{
    if k > 0 {
        lemma_ascii_draw_state(row, offset, end, k - 1);
        let c = row.render@[k - 1];
        assert(0x20 <= (c as u32) < 0x7F);
        assert(draw_width(c) == 1);
        let s = draw_state(row, offset, end, false, k - 1);
        if !s.4 && k > offset && k <= end {
            assert(row.render@.subrange(offset as int, k) =~= row.render@.subrange(offset as int, k - 1).push(c));
        }
    }
}

/// On printable ASCII, drawing without colour is the column slice
/// `[offset, offset + max_len)` of the rendering (cut at its end).
pub proof fn law_ascii_draw_is_slice(row: Row, offset: nat, max_len: nat)
    requires
        offset <= usize::MAX,
        forall|i: int| 0 <= i < row.render@.len() ==> 0x20 <= (#[trigger] row.render@[i] as u32) < 0x7F,
    ensures
        ({
            let n = row.render@.len() as int;
            let end = if offset + max_len > usize::MAX { usize::MAX as int } else { (offset + max_len) as int };
            drawn(row, offset, max_len, false) == row.render@.subrange(
                if n < offset { n } else { offset as int },
                if n < end { n } else { end },
            )
        }),
{
    let end: nat = if offset + max_len > usize::MAX { usize::MAX as nat } else { offset + max_len };
    lemma_ascii_draw_state(row, offset, end, row.render@.len() as int);
    let s = draw_state(row, offset, end, false, row.render@.len() as int);
    assert(s.3 + Seq::<char>::empty() =~= s.3);
}

/// Inside a single-line string opened by `q`, a byte other than `q` keeps
/// the string open: it is highlighted as string (with the byte after a
/// backslash), and the state stays the same.
pub proof fn law_string_closed_only_by_its_quote(conf: SyntaxConf, line: Seq<u8>, hl: Seq<HlType>, q: u8)
    requires
        hl.len() < line.len(),
        line[hl.len() as int] != q,
    ensures
        ({
            let next = step(conf, line, hl, HlState::String(q));
            &&& next.1 == HlState::String(q)
            &&& hl.len() < next.0.len() <= hl.len() + 2
            &&& next.0.take(hl.len() as int) == hl
            &&& forall|j: int| hl.len() <= j < next.0.len() ==> next.0[j] == HlType::String
        }),
{
    let next = step(conf, line, hl, HlState::String(q));
    assert(next.0.take(hl.len() as int) =~= hl);
}

/// Inside a single-line string opened by `q`, the byte `q` is string and
/// closes it.
pub proof fn law_string_closes_on_its_quote(conf: SyntaxConf, line: Seq<u8>, hl: Seq<HlType>, q: u8)
    requires
        hl.len() < line.len(),
        line[hl.len() as int] == q,
    ensures
        step(conf, line, hl, HlState::String(q)) == (hl.push(HlType::String), HlState::Normal),
{
}

/// From inside a single-line string opened by `q`, a line with no `q` left
/// is string to its end, and the string is still open after it.
pub proof fn law_string_runs_to_its_quote(conf: SyntaxConf, line: Seq<u8>, hl: Seq<HlType>, q: u8)
    requires
        forall|j: int| hl.len() <= j < line.len() ==> line[j] != q,
    ensures
        ({
            let r = highlight(conf, line, hl, HlState::String(q));
            &&& r.1 == HlState::String(q)
            &&& r.0.len() >= line.len()
            &&& r.0.take(hl.len() as int) == hl
            &&& forall|j: int| hl.len() <= j < r.0.len() ==> r.0[j] == HlType::String
        }),
    decreases remaining(line, hl),
{
    let r = highlight(conf, line, hl, HlState::String(q));
    if hl.len() >= line.len() {
        assert(r.0.take(hl.len() as int) =~= hl);
    } else {
        law_string_closed_only_by_its_quote(conf, line, hl, q);
        let next = step(conf, line, hl, HlState::String(q));
        law_string_runs_to_its_quote(conf, line, next.0, q);
        assert forall|j: int| hl.len() <= j < r.0.len() implies r.0[j] == HlType::String by {
            if j < next.0.len() {
                assert(r.0[j] == r.0.take(next.0.len() as int)[j]);
            }
        }
        assert(r.0.take(hl.len() as int) =~= next.0.take(hl.len() as int));
    }
}

/// The keyword `kw` occurs at byte `i` of `line` as a whole word: the byte
/// after it, if any, is a separator.
pub open spec fn whole_keyword_at(line: Seq<u8>, i: int, kw: Seq<u8>) -> bool {
    &&& 0 <= i
    &&& i + kw.len() <= line.len()
    &&& line.subrange(i, i + kw.len()) == kw
    &&& (i + kw.len() == line.len() || is_separator(line[i + kw.len()]))
}

/// Some keyword of a group of highlight type `t` occurs at `i` as a whole word.
pub open spec fn keyword_source(groups: Seq<(HlType, Vec<String>)>, line: Seq<u8>, i: int, t: HlType) -> bool {
    exists|g: int, k: int|
        #![trigger groups[g].1@[k]]
        0 <= g < groups.len() && groups[g].0 == t && 0 <= k < groups[g].1@.len() && whole_keyword_at(
            line,
            i,
            sbytes(groups[g].1@[k]),
        )
}

/// What one keyword group adds is its type, for whole keywords only.
proof fn lemma_kw_group_source(t: HlType, kws: Seq<String>, line: Seq<u8>, i: int, j: int)
    requires
        0 <= j < kw_group(t, kws, line, i).len(),
    ensures
        kw_group(t, kws, line, i)[j] == t,
        exists|k: int| 0 <= k < kws.len() && whole_keyword_at(line, i, sbytes(#[trigger] kws[k])),
    decreases kws.len(),
{
    let p = kws.drop_last();
    let head = kw_group(t, p, line, i);
    if j < head.len() {
        lemma_kw_group_source(t, p, line, i, j);
        let k = choose|k: int| 0 <= k < p.len() && whole_keyword_at(line, i, sbytes(#[trigger] p[k]));
        assert(kws[k] == p[k]);
    } else {
        let k = kws.len() - 1;
        assert(kws[k] == kws.last());
    }
}

/// What the keyword groups add at `i` comes from a whole keyword of a group
/// of the same type.
proof fn lemma_kw_all_source(groups: Seq<(HlType, Vec<String>)>, line: Seq<u8>, i: int, j: int)
    requires
        0 <= j < kw_all(groups, line, i).len(),
    ensures
        keyword_source(groups, line, i, kw_all(groups, line, i)[j]),
    decreases groups.len(),
{
    let p = groups.drop_last();
    let head = kw_all(p, line, i);
    if j < head.len() {
        lemma_kw_all_source(p, line, i, j);
        let (g, k) = choose|g: int, k: int|
            #![trigger p[g].1@[k]]
            0 <= g < p.len() && p[g].0 == head[j] && 0 <= k < p[g].1@.len() && whole_keyword_at(line, i, sbytes(p[g].1@[k]));
        assert(groups[g] == p[g]);
        assert(groups[g].1@[k] == p[g].1@[k]);
    } else {
        let g = groups.len() - 1;
        lemma_kw_group_source(groups.last().0, groups.last().1@, line, i, j - head.len());
        let k = choose|k: int| 0 <= k < groups.last().1@.len() && whole_keyword_at(line, i, sbytes(#[trigger] groups.last().1@[k]));
        assert(groups[g].1@[k] == groups.last().1@[k]);
    }
}

/// A keyword highlight type.
pub open spec fn is_keyword_type(t: HlType) -> bool {
    t == HlType::Keyword1 || t == HlType::Keyword2
}

/// Every keyword-typed highlight of `hl` comes from a whole keyword of a
/// group of that type, starting at or before it.
pub open spec fn keywords_sourced(conf: SyntaxConf, line: Seq<u8>, hl: Seq<HlType>) -> bool {
    forall|j: int| 0 <= j < hl.len() && is_keyword_type(#[trigger] hl[j]) ==> exists|i: int|
        0 <= i <= j && #[trigger] keyword_source(conf.keywords@, line, i, hl[j])
}

/// One step of highlighting keeps what came before, and what it adds of a
/// keyword type comes from a whole keyword where the step starts.
proof fn lemma_step_keywords(conf: SyntaxConf, line: Seq<u8>, hl: Seq<HlType>, st: HlState)
    requires
        hl.len() < line.len(),
    ensures
        step(conf, line, hl, st).0.len() >= hl.len(),
        step(conf, line, hl, st).0.take(hl.len() as int) == hl,
        forall|j: int| hl.len() <= j < step(conf, line, hl, st).0.len() && is_keyword_type(
            #[trigger] step(conf, line, hl, st).0[j],
        ) ==> keyword_source(conf.keywords@, line, hl.len() as int, step(conf, line, hl, st).0[j]),
{
    let i = hl.len() as int;
    let next = step(conf, line, hl, st);
    assert(next.0.take(hl.len() as int) =~= hl);
    assert forall|j: int| hl.len() <= j < next.0.len() && is_keyword_type(#[trigger] next.0[j])
        implies keyword_source(conf.keywords@, line, i, next.0[j]) by {
        let c = line[i];
        if st == HlState::Normal && any_found(conf.sl_comment_start@, line, i) {
        } else if ml_step(ml_comment_bytes(conf), HlState::MultiLineComment, HlType::MlComment, line, hl, st) is Some {
        } else if ml_step(ml_string_bytes(conf), HlState::MultiLineString, HlType::MlString, line, hl, st) is Some {
        } else if st is String {
        } else if conf.sl_string_quotes@.contains(c as char) {
        } else {
            let prev_sep = i == 0 || is_separator(line[i - 1]);
            if conf.highlight_numbers && ((is_digit(c) && prev_sep) || (i != 0 && hl[i - 1] == HlType::Number
                && !prev_sep && !is_separator(c))) {
            } else if prev_sep {
                let kws = kw_all(conf.keywords@, line, i);
                if j < hl.len() + kws.len() {
                    assert(next.0[j] == kws[j - hl.len()]);
                    lemma_kw_all_source(conf.keywords@, line, i, j - hl.len());
                }
            }
        }
    }
}

/// Highlighting keeps every keyword highlight sourced in a whole keyword.
proof fn lemma_highlight_keywords(conf: SyntaxConf, line: Seq<u8>, hl: Seq<HlType>, st: HlState)
    requires
        conf.wf(),
        keywords_sourced(conf, line, hl),
    ensures
        keywords_sourced(conf, line, highlight(conf, line, hl, st).0),
    decreases remaining(line, hl), ml_rank(conf, st),
{
    if hl.len() < line.len() {
        lemma_step_progress(conf, line, hl, st);
        lemma_step_keywords(conf, line, hl, st);
        let next = step(conf, line, hl, st);
        assert forall|j: int| 0 <= j < next.0.len() && is_keyword_type(#[trigger] next.0[j]) implies exists|i: int|
            0 <= i <= j && #[trigger] keyword_source(conf.keywords@, line, i, next.0[j]) by {
            if j < hl.len() {
                assert(next.0[j] == next.0.take(hl.len() as int)[j]);
                assert(is_keyword_type(hl[j]));
            } else {
                assert(keyword_source(conf.keywords@, line, hl.len() as int, next.0[j]));
            }
        }
        lemma_highlight_keywords(conf, line, next.0, next.1);
    }
}

/// Keywords are highlighted only as whole words: every keyword-typed byte of
/// a row's highlighting lies at or after the start of a keyword of a group
/// of that type whose next byte, if any, is a separator. A word that merely
/// starts with a keyword (`in` in `in_comment`) gets no keyword type from it.
pub proof fn law_keywords_are_whole_words(conf: SyntaxConf, line: Seq<u8>, st: HlState)
    requires
        conf.wf(),
    ensures
        keywords_sourced(conf, line, highlight(conf, line, Seq::empty(), st).0),
{
    lemma_highlight_keywords(conf, line, Seq::empty(), st);
}

/// A row that is exactly a keyword, with nothing else configured, is
/// highlighted as that keyword over its whole length.
pub proof fn law_whole_keyword_is_highlighted(conf: SyntaxConf, line: Seq<u8>)
    requires
        conf.sl_comment_start@.len() == 0,
        conf.ml_comment_delims is None,
        conf.ml_string_delim is None,
        conf.sl_string_quotes@.len() == 0,
        !conf.highlight_numbers,
        conf.keywords@.len() == 1,
        conf.keywords@[0].1@.len() == 1,
        line == sbytes(conf.keywords@[0].1@[0]),
        line.len() > 0,
    ensures
        highlight(conf, line, Seq::empty(), HlState::Normal).0.take(line.len() as int) == Seq::new(
            line.len(),
            |_j: int| conf.keywords@[0].0,
        ),
{
    let e = Seq::<HlType>::empty();
    let groups = conf.keywords@;
    let t = groups[0].0;
    let kws = groups[0].1@;
    assert(!any_found(conf.sl_comment_start@, line, 0));
    assert(!conf.sl_string_quotes@.contains(line[0] as char));
    assert(line.subrange(0, line.len() as int) =~= line);
    assert(groups.drop_last() =~= Seq::<(HlType, Vec<String>)>::empty());
    assert(kws.drop_last() =~= Seq::<String>::empty());
    assert(kws.last() == kws[0]);
    assert(found(line, 0, sbytes(kws.last())));
    assert(kw_ends(line, 0, sbytes(kws.last())));
    assert(kw_group(t, Seq::<String>::empty(), line, 0) == Seq::<HlType>::empty());
    assert(kw_group(t, kws, line, 0) =~= repeat(t, line.len() as int));
    assert(groups.last() == groups[0]);
    assert(kw_all(Seq::<(HlType, Vec<String>)>::empty(), line, 0) == Seq::<HlType>::empty());
    assert(kw_all(groups, line, 0) =~= repeat(t, line.len() as int));
    let next = step(conf, line, e, HlState::Normal);
    assert(next.0 =~= (e + repeat(t, line.len() as int)).push(HlType::Normal));
    assert(next.1 == HlState::Normal);
    assert(next.0.take(line.len() as int) =~= Seq::new(line.len(), |_j: int| t));
    assert(highlight(conf, line, next.0, next.1) == next);
    assert(progress(conf, line, e, HlState::Normal, next));
    assert(highlight(conf, line, e, HlState::Normal) == highlight(conf, line, next.0, next.1));
}

} // verus!
