//! Bounded, terminal-safe shell output: the decoding of a job's output bytes
//! into lines, with terminal escape sequences and controls removed.

use vstd::prelude::*;
use vstd::utf8::*;
use std::collections::VecDeque;
use crate::text::{
    bytes_len, decode_lossy, is_control, is_control_char, len_utf8,
    lemma_encode_push, lossy, push_char, push_str, replacement, utf8_len, pop_char, string_bytes,
    lemma_bytes_drop_last, copy_bytes, lemma_encode_append, lemma_lossy_split,
};

verus! {

broadcast use vstd::utf8::char_is_scalar;

/// Lines kept in the scrollback.
pub const MAX_LINES: usize = 1000;

/// Bytes kept per line.
pub const MAX_LINE_BYTES: usize = 8192;

/// Where the decoder stands within a terminal escape sequence.
#[derive(Clone, Copy, Debug, Default, PartialEq, Eq, Structural)]
pub enum Escape {
    /// Plain text.
    #[default]
    Text,
    /// After ESC.
    Start,
    /// Inside the intermediate bytes of an escape sequence.
    Intermediate,
    /// Inside a control sequence (CSI).
    Csi,
    /// Inside a string command (OSC, DCS, SOS, PM, APC).
    String,
    /// After ESC inside a string command.
    StringEnd,
}

/// Bounded, terminal-safe shell output. The last entry may be an unfinished line.
pub struct Output {
    /// The retained lines, oldest first; the last may be unfinished.
    pub lines: VecDeque<String>,
    /// A human-readable status of the job.
    pub status: String,
    /// Bytes of an incomplete UTF-8 sequence carried to the next read.
    pub utf8: Vec<u8>,
    /// The escape-sequence state carried across reads.
    pub escape: Escape,
    /// A carriage return is pending: the next text replaces the current line.
    pub carriage_return: bool,
}

/// The lines as character sequences.
pub open spec fn lines_view(lines: VecDeque<String>) -> Seq<Seq<char>> {
    lines@.map_values(|l: String| l@)
}

/// Decoder state: lines, escape state, pending carriage return.
pub type OutState = (Seq<Seq<char>>, Escape, bool);

/// The escape state after `c`, and whether `c` is text.
pub open spec fn next_escape(e: Escape, c: char) -> (Escape, bool) {
    let v = c as u32;
    if e == Escape::String && v == 0x1b {
        (Escape::StringEnd, false)
    } else if (e == Escape::String || e == Escape::StringEnd) && (v == 0x07 || v == 0x9c) {
        (Escape::Text, false)
    } else if e == Escape::StringEnd && c == '\\' {
        (Escape::Text, false)
    } else if e == Escape::String || e == Escape::StringEnd {
        (Escape::String, false)
    } else if v == 0x1b {
        (Escape::Start, false)
    } else if e == Escape::Start && c == '[' {
        (Escape::Csi, false)
    } else if e == Escape::Start && (c == ']' || c == 'P' || c == 'X' || c == '^' || c == '_') {
        (Escape::String, false)
    } else if (e == Escape::Start || e == Escape::Intermediate) && (0x20 <= v <= 0x2f) {
        (Escape::Intermediate, false)
    } else if e == Escape::Start || e == Escape::Intermediate {
        (Escape::Text, false)
    } else if e == Escape::Csi && (0x40 <= v <= 0x7e) {
        (Escape::Text, false)
    } else if e == Escape::Csi {
        (Escape::Csi, false)
    } else if v == 0x9b {
        (Escape::Csi, false)
    } else if v == 0x90 || v == 0x98 || (0x9d <= v <= 0x9f) {
        (Escape::String, false)
    } else {
        (Escape::Text, true)
    }
}

/// Four spaces: what a tab becomes.
pub open spec fn tab_spaces() -> Seq<char> {
    seq![' ', ' ', ' ', ' ']
}

/// The lines and carriage-return flag after the text character `c`: a
/// carriage return is remembered; other controls but newline, tab and
/// backspace are dropped; a newline starts a new line (dropping the oldest
/// beyond `MAX_LINES`); a pending carriage return clears the line first;
/// backspace removes the last character; a tab is four spaces; a line never
/// grows beyond `MAX_LINE_BYTES` bytes.
pub open spec fn text_step(lines: Seq<Seq<char>>, cr: bool, c: char) -> (Seq<Seq<char>>, bool) {
    if c == '\r' {
        (lines, true)
    } else if c != '\n' && c != '\t' && (c as u32) != 8 && is_control_char(c) {
        (lines, cr)
    } else {
        let l1 = if lines.len() == 0 {
            seq![Seq::<char>::empty()]
        } else {
            lines
        };
        if c == '\n' {
            let l2 = l1.push(Seq::<char>::empty());
            (if l2.len() > MAX_LINES {
                l2.drop_first()
            } else {
                l2
            }, false)
        } else {
            let last = if cr {
                Seq::<char>::empty()
            } else {
                l1.last()
            };
            let next = if (c as u32) == 8 {
                if last.len() > 0 {
                    last.drop_last()
                } else {
                    last
                }
            } else if c == '\t' {
                if bytes_len(last) + 4 <= MAX_LINE_BYTES {
                    last + tab_spaces()
                } else {
                    last
                }
            } else if bytes_len(last) + utf8_len(c) <= MAX_LINE_BYTES {
                last.push(c)
            } else {
                last
            };
            (l1.update(l1.len() - 1, next), false)
        }
    }
}

/// The decoder state after the character `c`.
pub open spec fn character_step(s: OutState, c: char) -> OutState {
    let (e, is_text) = next_escape(s.1, c);
    if is_text {
        let t = text_step(s.0, s.2, c);
        (t.0, e, t.1)
    } else {
        (s.0, e, s.2)
    }
}

/// The decoder state after the characters `cs`.
pub open spec fn feed(s: OutState, cs: Seq<char>) -> OutState
    decreases cs.len(),
{
    if cs.len() == 0 {
        s
    } else {
        character_step(feed(s, cs.drop_last()), cs.last())
    }
}

/// The characters that decoding `bytes` after the pending `utf8` bytes
/// yields: the lossy decoding, plus one U+FFFD for an incomplete sequence at
/// the end of the output.
pub open spec fn decoded_chars(utf8: Seq<u8>, bytes: Seq<u8>, eof: bool) -> Seq<char> {
    let d = lossy(utf8 + bytes);
    if eof && d.1.len() > 0 {
        d.0.push(replacement())
    } else {
        d.0
    }
}

/// The bytes carried to the next read.
pub open spec fn carried_bytes(utf8: Seq<u8>, bytes: Seq<u8>, eof: bool) -> Seq<u8> {
    if eof {
        Seq::empty()
    } else {
        lossy(utf8 + bytes).1
    }
}

/// Reading `bytes` after the pending bytes `utf8`, from decoder state `s`:
/// the decoder state and the bytes carried to the next read.
pub open spec fn read(s: OutState, utf8: Seq<u8>, bytes: Seq<u8>, eof: bool) -> (OutState, Seq<u8>) {
    (feed(s, decoded_chars(utf8, bytes, eof)), carried_bytes(utf8, bytes, eof))
}

/// Lines are bounded and terminal-safe: at most `MAX_LINES` lines, each of
/// at most `MAX_LINE_BYTES` bytes and free of control characters.
pub open spec fn lines_ok(lines: Seq<Seq<char>>) -> bool {
    &&& lines.len() <= MAX_LINES
    &&& forall|i: int| 0 <= i < lines.len() ==> bytes_len(#[trigger] lines[i]) <= MAX_LINE_BYTES
    &&& forall|i: int, j: int| 0 <= i < lines.len() && 0 <= j < lines[i].len() ==> !is_control_char(#[trigger] lines[i][j])
}

impl Output {
    /// The output is bounded and terminal-safe, and at most one incomplete
    /// UTF-8 sequence is pending.
    pub open spec fn wf(&self) -> bool {
        &&& lines_ok(lines_view(self.lines))
        &&& self.utf8@.len() <= 3
    }

    /// The decoder state of the output.
    pub open spec fn state(&self) -> OutState {
        (lines_view(self.lines), self.escape, self.carriage_return)
    }
}

impl Default for Output {
    fn default() -> (o: Self)
        ensures
            o.lines@.len() == 0,
            o.status@ == "Idle"@,
            o.utf8@.len() == 0,
            o.escape == Escape::Text,
            !o.carriage_return,
            o.wf(),
    {
        Output {
            lines: VecDeque::new(),
            status: String::from_str("Idle"),
            utf8: Vec::new(),
            escape: Escape::Text,
            carriage_return: false,
        }
    }
}

impl Output {
    /// Apply one character of text to the lines.
    fn text(&mut self, c: char)
        requires
            lines_ok(lines_view(old(self).lines)),
        ensures
            (lines_view(final(self).lines), final(self).carriage_return) == text_step(
                lines_view(old(self).lines),
                old(self).carriage_return,
                c,
            ),
            lines_ok(lines_view(final(self).lines)),
            final(self).status == old(self).status,
            final(self).utf8 == old(self).utf8,
            final(self).escape == old(self).escape,
    {
        let ghost l0 = lines_view(self.lines);
        if c == '\r' {
            self.carriage_return = true;
            return;
        }
        if c != '\n' && c != '\t' && c != '\u{8}' && is_control(c) {
            return;
        }
        if self.lines.len() == 0 {
            self.lines.push_back(String::new());
            assert(lines_view(self.lines) =~= seq![Seq::<char>::empty()]);
        }
        let ghost l1 = lines_view(self.lines);
        if c == '\n' {
            self.carriage_return = false;
            self.lines.push_back(String::new());
            assert(lines_view(self.lines) =~= l1.push(Seq::<char>::empty()));
            if self.lines.len() > MAX_LINES {
                let _ = self.lines.pop_front();
                assert(lines_view(self.lines) =~= l1.push(Seq::<char>::empty()).drop_first());
            }
            return;
        }
        let mut line = match self.lines.pop_back() {
            Some(line) => line,
            None => String::new(),
        };
        assert(lines_view(self.lines) =~= l1.drop_last());
        assert(line@ == l1.last());
        if self.carriage_return {
            line = String::new();
            self.carriage_return = false;
        }
        let ghost last = line@;
        assert(bytes_len(last) <= MAX_LINE_BYTES);
        if c == '\u{8}' {
            let _ = pop_char(&mut line);
            proof {
                if last.len() > 0 {
                    lemma_bytes_drop_last(last);
                }
            }
        } else if c == '\t' {
            if string_bytes(&line) + 4 <= MAX_LINE_BYTES {
                proof {
                    reveal_strlit("    ");
                    lemma_encode_append(last, tab_spaces());
                    assert(encode_utf8(tab_spaces()).len() == 4) by {
                        let e = Seq::<char>::empty();
                        lemma_encode_push(e, ' ');
                        lemma_encode_push(e.push(' '), ' ');
                        lemma_encode_push(e.push(' ').push(' '), ' ');
                        lemma_encode_push(e.push(' ').push(' ').push(' '), ' ');
                        assert(e.push(' ').push(' ').push(' ').push(' ') =~= tab_spaces());
                        assert(encode_utf8(e) =~= Seq::<u8>::empty());
                    }
                    assert("    "@ =~= tab_spaces());
                }
                push_str(&mut line, "    ");
            }
        } else if string_bytes(&line) + len_utf8(c) <= MAX_LINE_BYTES {
            proof {
                lemma_encode_push(last, c);
            }
            push_char(&mut line, c);
        }
        self.lines.push_back(line);
        assert(lines_view(self.lines) =~= l1.update(l1.len() - 1, line@));
    }

    /// Apply one decoded character: track escape sequences, pass text on.
    fn character(&mut self, c: char)
        requires
            lines_ok(lines_view(old(self).lines)),
        ensures
            final(self).state() == character_step(old(self).state(), c),
            lines_ok(lines_view(final(self).lines)),
            final(self).status == old(self).status,
            final(self).utf8 == old(self).utf8,
    {
        let v = c as u32;
        let e = self.escape;
        let next = if e == Escape::String && v == 0x1b {
            Escape::StringEnd
        } else if (e == Escape::String || e == Escape::StringEnd) && (v == 0x07 || v == 0x9c) {
            Escape::Text
        } else if e == Escape::StringEnd && c == '\\' {
            Escape::Text
        } else if e == Escape::String || e == Escape::StringEnd {
            Escape::String
        } else if v == 0x1b {
            Escape::Start
        } else if e == Escape::Start && c == '[' {
            Escape::Csi
        } else if e == Escape::Start && (c == ']' || c == 'P' || c == 'X' || c == '^' || c == '_') {
            Escape::String
        } else if (e == Escape::Start || e == Escape::Intermediate) && (0x20 <= v && v <= 0x2f) {
            Escape::Intermediate
        } else if e == Escape::Start || e == Escape::Intermediate {
            Escape::Text
        } else if e == Escape::Csi && (0x40 <= v && v <= 0x7e) {
            Escape::Text
        } else if e == Escape::Csi {
            Escape::Csi
        } else if v == 0x9b {
            Escape::Csi
        } else if v == 0x90 || v == 0x98 || (0x9d <= v && v <= 0x9f) {
            Escape::String
        } else {
            self.text(c);
            Escape::Text
        };
        self.escape = next;
    }

    /// Decode a chunk of output bytes (after the bytes of an incomplete
    /// sequence left by the previous chunk). At the end of the output an
    /// incomplete sequence becomes U+FFFD; otherwise it waits for the next chunk.
    pub fn decode(&mut self, bytes: &[u8], eof: bool)
        requires
            old(self).wf(),
        ensures
            final(self).state() == feed(old(self).state(), decoded_chars(old(self).utf8@, bytes@, eof)),
            final(self).utf8@ == carried_bytes(old(self).utf8@, bytes@, eof),
            final(self).status == old(self).status,
            final(self).wf(),
            !eof ==> forall|rest: Seq<u8>, end: bool| #![trigger read(final(self).state(), final(self).utf8@, rest, end)]
                read(final(self).state(), final(self).utf8@, rest, end)
                    == read(old(self).state(), old(self).utf8@, bytes@ + rest, end),
    {
        let mut pending = copy_bytes(self.utf8.as_slice());
        let mut i: usize = 0;
        while i < bytes.len()
            invariant
                i <= bytes@.len(),
                pending@ == old(self).utf8@ + bytes@.take(i as int),
            decreases bytes@.len() - i,
        {
            pending.push(bytes[i]);
            i = i + 1;
            assert(bytes@.take(i as int) =~= bytes@.take(i - 1).push(bytes@[i - 1]));
        }
        assert(bytes@.take(i as int) =~= bytes@);
        self.utf8 = Vec::new();
        let (cs, tail) = decode_lossy(pending.as_slice());
        let ghost s0 = old(self).state();
        let mut k: usize = 0;
        assert(cs@.take(0) =~= Seq::<char>::empty());
        while k < cs.len()
            invariant
                k <= cs@.len(),
                self.state() == feed(s0, cs@.take(k as int)),
                lines_ok(lines_view(self.lines)),
                self.status == old(self).status,
                self.utf8@.len() == 0,
            decreases cs@.len() - k,
        {
            self.character(cs[k]);
            k = k + 1;
            assert(cs@.take(k as int).drop_last() =~= cs@.take(k - 1));
        }
        assert(cs@.take(k as int) =~= cs@);
        if tail.len() > 0 {
            if eof {
                self.character('\u{fffd}');
                assert(cs@.push(replacement()).drop_last() =~= cs@);
            } else {
                self.utf8 = tail;
            }
        }
        proof {
            if !eof {
                let p = pending@;
                assert forall|rest: Seq<u8>, end: bool| #[trigger] read(self.state(), self.utf8@, rest, end) == read(
                    s0,
                    old(self).utf8@,
                    bytes@ + rest,
                    end,
                ) by {
                    lemma_split_stream(s0, p, rest, end);
                    assert(old(self).utf8@ + (bytes@ + rest) =~= p + rest);
                }
            }
        }
    }
}

/// The status string `prefix` followed by `description`.
fn status_text(prefix: &str, description: &str) -> (s: String)
    ensures
        s@ == prefix@ + description@,
{
    let mut s = String::new();
    push_str(&mut s, prefix);
    push_str(&mut s, description);
    s
}

impl Output {
    /// A job has started: the status is `Running`.
    pub fn running(&mut self)
        ensures
            final(self).status@ == "Running"@,
            final(self).state() == old(self).state(),
            final(self).utf8 == old(self).utf8,
    {
        self.status = String::from_str("Running");
    }

    /// Reading the output failed: the status reports it.
    pub fn output_error(&mut self, description: &str)
        ensures
            final(self).status@ == "Output error: "@ + description@,
            final(self).state() == old(self).state(),
            final(self).utf8 == old(self).utf8,
    {
        self.status = status_text("Output error: ", description);
    }

    /// The output has ended: decode what is pending as the end of the output.
    pub fn finish(&mut self)
        requires
            old(self).wf(),
        ensures
            final(self).state() == feed(old(self).state(), decoded_chars(old(self).utf8@, Seq::empty(), true)),
            final(self).utf8@.len() == 0,
            final(self).status == old(self).status,
            final(self).wf(),
    {
        let empty: [u8; 0] = [];
        self.decode(&empty, true);
        assert(empty@ =~= Seq::<u8>::empty());
    }

    /// The job has exited: the status reports how.
    pub fn exited(&mut self, description: &str)
        ensures
            final(self).status@ == "Exited: "@ + description@,
            final(self).state() == old(self).state(),
            final(self).utf8 == old(self).utf8,
    {
        self.status = status_text("Exited: ", description);
    }

    /// Waiting for the job failed: the status reports it; whether the status
    /// changed comes back.
    pub fn wait_error(&mut self, description: &str) -> (changed: bool)
        ensures
            final(self).status@ == "Wait error: "@ + description@,
            changed == (old(self).status@ != final(self).status@),
            final(self).state() == old(self).state(),
            final(self).utf8 == old(self).utf8,
    {
        let status = status_text("Wait error: ", description);
        let changed = !(self.status == status);
        self.status = status;
        changed
    }
}

/// What polling a running job can observe.
pub enum PollEvent {
    /// A chunk of output bytes was read.
    Chunk(Vec<u8>),
    /// Reading the output failed, as described.
    ReadError(String),
    /// The output has ended: the reader is gone.
    Disconnected,
    /// The job exited, with the given status.
    Exited(String),
    /// Waiting for the job failed, as described.
    WaitError(String),
}

impl Output {
    /// Apply one event observed while polling a job; whether the output or
    /// its status changed comes back. Every event changes it, except a wait
    /// error that repeats the status already shown.
    pub fn poll_event(&mut self, event: PollEvent) -> (changed: bool)
        requires
            old(self).wf(),
        ensures
            final(self).wf(),
            match event {
                PollEvent::Chunk(bytes) => {
                    &&& final(self).state() == feed(old(self).state(), decoded_chars(old(self).utf8@, bytes@, false))
                    &&& final(self).utf8@ == carried_bytes(old(self).utf8@, bytes@, false)
                    &&& final(self).status == old(self).status
                    &&& changed
                },
                PollEvent::ReadError(d) => {
                    &&& final(self).status@ == "Output error: "@ + d@
                    &&& final(self).state() == old(self).state()
                    &&& final(self).utf8 == old(self).utf8
                    &&& changed
                },
                PollEvent::Disconnected => {
                    &&& final(self).state() == feed(old(self).state(), decoded_chars(old(self).utf8@, Seq::empty(), true))
                    &&& final(self).utf8@.len() == 0
                    &&& final(self).status == old(self).status
                    &&& changed
                },
                PollEvent::Exited(d) => {
                    &&& final(self).status@ == "Exited: "@ + d@
                    &&& final(self).state() == old(self).state()
                    &&& final(self).utf8 == old(self).utf8
                    &&& changed
                },
                PollEvent::WaitError(d) => {
                    &&& final(self).status@ == "Wait error: "@ + d@
                    &&& final(self).state() == old(self).state()
                    &&& final(self).utf8 == old(self).utf8
                    &&& changed == (old(self).status@ != final(self).status@)
                },
            },
    {
        match event {
            PollEvent::Chunk(bytes) => {
                self.decode(bytes.as_slice(), false);
                true
            },
            PollEvent::ReadError(d) => {
                self.output_error(d.as_str());
                true
            },
            PollEvent::Disconnected => {
                self.finish();
                true
            },
            PollEvent::Exited(d) => {
                self.exited(d.as_str());
                true
            },
            PollEvent::WaitError(d) => self.wait_error(d.as_str()),
        }
    }
}

/// Feeding characters in two parts is feeding them at once: the decoder
/// carries its escape and line state across reads.
pub proof fn law_feed_split(s: OutState, x: Seq<char>, y: Seq<char>)
    ensures
        feed(feed(s, x), y) == feed(s, x + y),
    decreases y.len(),
{
    if y.len() == 0 {
        assert(x + y =~= x);
    } else {
        law_feed_split(s, x, y.drop_last());
        assert((x + y).drop_last() =~= x + y.drop_last());
        assert((x + y).last() == y.last());
    }
}

/// Reading pending bytes `p` and then `rest` is reading them at once: the
/// characters that reading `p` gives, followed by those of the bytes it left
/// undecoded and `rest`, are those of `p` and `rest`.
proof fn lemma_split_stream(s: OutState, p: Seq<u8>, rest: Seq<u8>, end: bool)
    ensures
        read(feed(s, lossy(p).0), lossy(p).1, rest, end) == read(s, Seq::empty(), p + rest, end),
{
    lemma_lossy_split(p, rest);
    assert(Seq::<u8>::empty() + (p + rest) =~= p + rest);
    let t = lossy(lossy(p).1 + rest);
    law_feed_split(s, lossy(p).0, decoded_chars(lossy(p).1, rest, end));
    if end && t.1.len() > 0 {
        assert(lossy(p).0 + t.0.push(replacement()) =~= (lossy(p).0 + t.0).push(replacement()));
    }
}

/// Inside a control sequence, parameter and intermediate characters
/// (U+0020..U+003F) keep it open and add nothing.
proof fn lemma_csi_parameters(s: OutState, params: Seq<char>)
    requires
        s.1 == Escape::Csi,
        forall|i: int| 0 <= i < params.len() ==> 0x20 <= (#[trigger] params[i] as u32) <= 0x3F,
    ensures
        feed(s, params) == s,
    decreases params.len(),
{
    if params.len() > 0 {
        lemma_csi_parameters(s, params.drop_last());
        assert(0x20 <= (params.last() as u32) <= 0x3F);
    }
}

/// A control sequence `ESC [`, parameters and intermediates (U+0020..U+003F,
/// such as digits, `;` and `?`), then a final character (U+0040..U+007E) is
/// dropped whole, outside a string command: the lines and a pending carriage
/// return stay as they were, and plain text follows.
pub proof fn law_csi_sequences_are_dropped(s: OutState, params: Seq<char>, fin: char)
    requires
        s.1 != Escape::String,
        s.1 != Escape::StringEnd,
        forall|i: int| 0 <= i < params.len() ==> 0x20 <= (#[trigger] params[i] as u32) <= 0x3F,
        0x40 <= (fin as u32) <= 0x7E,
    ensures
        feed(s, seq!['\x1b', '['] + params + seq![fin]) == (s.0, Escape::Text, s.2),
{
    let open = seq!['\x1b', '['];
    assert(open.drop_last() =~= seq!['\x1b']);
    assert(seq!['\x1b'].drop_last() =~= Seq::<char>::empty());
    let s0 = feed(s, seq!['\x1b']);
    assert(feed(s, Seq::<char>::empty()) == s);
    assert(s0 == character_step(s, '\x1b'));
    assert(next_escape(s.1, '\x1b') == (Escape::Start, false));
    assert(s0 == (s.0, Escape::Start, s.2));
    let s1 = feed(s, open);
    assert(s1 == character_step(s0, '['));
    assert(s1 == (s.0, Escape::Csi, s.2));
    lemma_csi_parameters(s1, params);
    law_feed_split(s, open, params);
    law_feed_split(s, open + params, seq![fin]);
    assert(seq![fin].drop_last() =~= Seq::<char>::empty());
    assert(feed(s1, Seq::<char>::empty()) == s1);
    assert(feed(s1, seq![fin]) == character_step(s1, fin));
    assert(next_escape(Escape::Csi, fin) == (Escape::Text, false));
}

/// Inside a string command, characters other than ESC, BEL and ST keep it
/// open and add nothing.
proof fn lemma_string_payload(s: OutState, payload: Seq<char>)
    requires
        s.1 == Escape::String,
        forall|i: int| 0 <= i < payload.len() ==> {
            let v = #[trigger] payload[i] as u32;
            v != 0x1b && v != 0x07 && v != 0x9c
        },
    ensures
        feed(s, payload) == s,
    decreases payload.len(),
{
    if payload.len() > 0 {
        lemma_string_payload(s, payload.drop_last());
        let v = payload.last() as u32;
        assert(v != 0x1b && v != 0x07 && v != 0x9c);
    }
}

/// A string command (OSC `ESC ]`, or DCS `ESC P`, SOS `ESC X`, PM `ESC ^`,
/// APC `ESC _`) is dropped whole, whatever it carries, up to its end, BEL or
/// `ESC \\`: outside a string command, the lines and a pending carriage return
/// stay as they were, and plain text follows.
pub proof fn law_string_commands_are_dropped(s: OutState, kind: char, payload: Seq<char>)
    requires
        s.1 != Escape::String,
        s.1 != Escape::StringEnd,
        kind == ']' || kind == 'P' || kind == 'X' || kind == '^' || kind == '_',
        forall|i: int| 0 <= i < payload.len() ==> {
            let v = #[trigger] payload[i] as u32;
            v != 0x1b && v != 0x07 && v != 0x9c
        },
    ensures
        feed(s, seq!['\x1b', kind] + payload + seq!['\x07']) == (s.0, Escape::Text, s.2),
        feed(s, seq!['\x1b', kind] + payload + seq!['\x1b', '\\']) == (s.0, Escape::Text, s.2),
        feed(s, seq!['\x1b', kind] + payload + seq!['\u{9c}']) == (s.0, Escape::Text, s.2),
{
    let open = seq!['\x1b', kind];
    assert(open.drop_last() =~= seq!['\x1b']);
    assert(seq!['\x1b'].drop_last() =~= Seq::<char>::empty());
    assert(feed(s, Seq::<char>::empty()) == s);
    let s0 = feed(s, seq!['\x1b']);
    assert(s0 == character_step(s, '\x1b'));
    assert(s0 == (s.0, Escape::Start, s.2));
    let s1 = feed(s, open);
    assert(s1 == character_step(s0, kind));
    assert(s1 == (s.0, Escape::String, s.2));
    lemma_string_payload(s1, payload);
    law_feed_split(s, open, payload);
    let bel = seq!['\x07'];
    law_feed_split(s, open + payload, bel);
    assert(bel.drop_last() =~= Seq::<char>::empty());
    assert(feed(s1, Seq::<char>::empty()) == s1);
    assert(feed(s1, bel) == character_step(s1, '\x07'));
    let st = seq!['\x1b', '\\'];
    law_feed_split(s, open + payload, st);
    assert(st.drop_last() =~= seq!['\x1b']);
    let s2 = feed(s1, seq!['\x1b']);
    assert(s2 == character_step(s1, '\x1b'));
    assert(s2 == (s.0, Escape::StringEnd, s.2));
    assert(feed(s1, st) == character_step(s2, '\\'));
    let stc = seq!['\u{9c}'];
    law_feed_split(s, open + payload, stc);
    assert(stc.drop_last() =~= Seq::<char>::empty());
    assert(feed(s1, stc) == character_step(s1, '\u{9c}'));
}

/// In plain text, a character that is not a control character is text: it
/// is added to the last line while the line has room for its bytes, and the
/// decoder stays in plain text.
pub proof fn law_printable_text_is_kept(lines: Seq<Seq<char>>, c: char)
    requires
        !is_control_char(c),
        lines.len() > 0,
        bytes_len(lines.last()) + utf8_len(c) <= MAX_LINE_BYTES,
    ensures
        character_step((lines, Escape::Text, false), c) == (
            lines.update(lines.len() - 1, lines.last().push(c)),
            Escape::Text,
            false,
        ),
{
}

} // verus!
