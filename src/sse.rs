//! Decoding a server-sent event stream into chunks of reply text.
use vstd::prelude::*;
use vstd::string::StrSliceExecFns;

use crate::chars::{from_chars, same_chars, to_chars};
use crate::document::{decode_lossy, utf8_lossy_of};
use crate::provider::{dialect, dialect_of, Dialect};
use crate::text::{append_chars, lemma_split_concat, lemma_split_last_plain, lemma_split_nonempty, lemma_split_plain_prefix, split_acc, split_chars, split_seq, sub_chars, trim, trim_chars, views};
use crate::types::StreamChunk;

verus! {

/// The string found at a JSON pointer in a JSON text, if the text parses and a
/// string is there.
pub uninterp spec fn json_str_at(text: Seq<char>, pointer: Seq<char>) -> Option<Seq<char>>;

/// Relies on `serde_json::from_str` and `Value::pointer`: the string at `pointer`
/// in the parsed text; nothing where the text is not JSON or holds no string there.
#[verifier::external_body]
fn json_str_field(text: &str, pointer: &str) -> (r: Option<String>)
    ensures
        r is Some <==> json_str_at(text@, pointer@) is Some,
        r matches Some(s) ==> json_str_at(text@, pointer@) == Some(s@),
{
    let v: serde_json::Value = match serde_json::from_str(text) {
        Ok(v) => v,
        Err(_) => return None,
    };
    match v.pointer(pointer) {
        Some(serde_json::Value::String(s)) => Some(s.clone()),
        _ => None,
    }
}

/// Where a provider's stream carries the text of each delta.
pub open spec fn delta_pointer(d: Dialect) -> Seq<char> {
    if d == Dialect::Anthropic {
        "/delta/text"@
    } else {
        "/choices/0/delta/content"@
    }
}

/// What one trimmed line of the stream says.
#[derive(Debug, Clone, PartialEq, Eq)]
pub enum SseLine {
    /// Not a data line, unparsable, or without text.
    Ignored,
    /// The terminal `[DONE]` marker.
    Done,
    /// A fragment of the reply.
    Content(String),
}

/// The view of what a line says: `None` where it is ignored, `Some((text, done))`.
pub open spec fn sse_line_of(line: Seq<char>, d: Dialect) -> Option<(Seq<char>, bool)> {
    if line.len() >= 6 && line.take(6) == "data: "@ {
        let data = line.skip(6);
        if data == "[DONE]"@ {
            Some((Seq::empty(), true))
        } else {
            match json_str_at(data, delta_pointer(d)) {
                Some(t) => Some((t, false)),
                None => None,
            }
        }
    } else {
        None
    }
}

/// The view of a parsed line.
pub open spec fn line_view(l: SseLine) -> Option<(Seq<char>, bool)> {
    match l {
        SseLine::Ignored => None,
        SseLine::Done => Some((Seq::empty(), true)),
        SseLine::Content(s) => Some((s@, false)),
    }
}

/// Reads one trimmed line of a stream in a provider's dialect.
pub fn parse_sse_line(provider: &str, line: &str) -> (r: SseLine)
    ensures
        line_view(r) == sse_line_of(line@, dialect_of(provider@)),
{
    parse_line_in(dialect(provider), line)
}

/// What a raw line of the stream gives: an event `(content, done)` for the marker
/// and for each non-empty fragment; nothing for empty and other lines.
pub open spec fn event_of_line(l: Seq<char>, d: Dialect) -> Option<(Seq<char>, bool)> {
    let t = trim(l);
    if t.len() == 0 {
        None
    } else {
        match sse_line_of(t, d) {
            Some((c, true)) => Some((Seq::empty(), true)),
            Some((c, false)) => if c.len() > 0 {
                Some((c, false))
            } else {
                None
            },
            None => None,
        }
    }
}

/// The events of complete lines, from a state that may already be finished, and
/// whether the stream is finished after them: after the marker, lines are ignored.
pub open spec fn process(lines: Seq<Seq<char>>, d: Dialect, finished: bool) -> (
    Seq<(Seq<char>, bool)>,
    bool,
)
    decreases lines.len(),
{
    if lines.len() == 0 {
        (Seq::empty(), finished)
    } else {
        let prev = process(lines.drop_last(), d, finished);
        if prev.1 {
            prev
        } else {
            match event_of_line(lines.last(), d) {
                Some(e) => (prev.0.push(e), e.1),
                None => prev,
            }
        }
    }
}

/// The view of an emitted event.
pub open spec fn event_view(c: StreamChunk) -> (Seq<char>, bool) {
    (c.content@, c.done)
}

/// The views of emitted events.
pub open spec fn event_views(cs: Seq<StreamChunk>) -> Seq<(Seq<char>, bool)> {
    cs.map_values(|c: StreamChunk| event_view(c))
}

/// Decodes a reply stream: bytes go in as they arrive, text and one terminal event
/// come out, in order.
pub struct StreamDecoder {
    session_id: String,
    message_id: String,
    dialect: Dialect,
    pending: Vec<char>,
    finished: bool,
}

impl StreamDecoder {
    /// The session the events belong to.
    pub closed spec fn session(&self) -> String {
        self.session_id
    }

    /// The message the events belong to.
    pub closed spec fn message(&self) -> String {
        self.message_id
    }

    /// The dialect of the stream.
    pub closed spec fn stream_dialect(&self) -> Dialect {
        self.dialect
    }

    /// The text received after the last line break.
    pub closed spec fn pending_view(&self) -> Seq<char> {
        self.pending@
    }

    /// Whether the terminal event was emitted.
    pub closed spec fn is_finished(&self) -> bool {
        self.finished
    }

    /// A decoder for a reply of `provider` to the given session and message.
    pub fn new(provider: &str, session_id: String, message_id: String) -> (r: StreamDecoder)
        ensures
            r.session() == session_id,
            r.message() == message_id,
            r.stream_dialect() == dialect_of(provider@),
            r.pending_view().len() == 0,
            !r.is_finished(),
    {
        StreamDecoder { session_id, message_id, dialect: dialect(provider), pending: Vec::new(), finished: false }
    }

    fn event(&self, content: String, done: bool) -> (r: StreamChunk)
        ensures
            r.session_id == self.session_id,
            r.message_id == self.message_id,
            r.content@ == content@,
            r.done == done,
    {
        StreamChunk {
            session_id: self.session_id.clone(),
            message_id: self.message_id.clone(),
            content,
            done,
        }
    }

    /// Takes in the next piece of decoded text and returns the events of the lines
    /// it completes.
    pub fn feed_text(&mut self, text: &str) -> (r: Vec<StreamChunk>)
        ensures
            final(self).session() == old(self).session(),
            final(self).message() == old(self).message(),
            final(self).stream_dialect() == old(self).stream_dialect(),
            final(self).pending_view() == split_seq(old(self).pending_view() + text@, seq!['\n']).last(),
            (event_views(r@), final(self).is_finished()) == process(
                split_seq(old(self).pending_view() + text@, seq!['\n']).drop_last(),
                old(self).stream_dialect(),
                old(self).is_finished(),
            ),
            forall|i: int| 0 <= i < r@.len() ==> r@[i].session_id == old(self).session()
                && r@[i].message_id == old(self).message(),
    {
        let incoming = to_chars(text);
        append_chars(&mut self.pending, &incoming);
        let mut nl: Vec<char> = Vec::new();
        nl.push('\n');
        proof {
            assert(nl@ =~= seq!['\n']);
            crate::text::lemma_split_nonempty(self.pending@, seq!['\n'], Seq::empty());
        }
        let pieces = split_chars(&self.pending, &nl);
        let ghost p = views(pieces@);
        let n = pieces.len();
        let mut out: Vec<StreamChunk> = Vec::new();
        let mut i: usize = 0;
        while i + 1 < n
            invariant
                n == pieces.len() >= 1,
                i + 1 <= n,
                p == views(pieces@),
                (event_views(out@), self.finished) == process(p.drop_last().take(i as int), self.dialect, old(self).finished),
                self.session_id == old(self).session(),
                self.message_id == old(self).message(),
                self.dialect == old(self).stream_dialect(),
                forall|j: int| 0 <= j < out@.len() ==> out@[j].session_id == old(self).session()
                    && out@[j].message_id == old(self).message(),
            decreases n - i,
        {
            proof {
                assert(p.drop_last().take(i as int + 1).drop_last() =~= p.drop_last().take(i as int));
                assert(p.drop_last().take(i as int + 1).last() == pieces@[i as int]@);
            }
            if !self.finished {
                let t = trim_chars(&pieces[i]);
                if t.len() > 0 {
                    let line = from_chars(&t);
                    let provider_dialect = self.dialect;
                    match parse_line_in(provider_dialect, line.as_str()) {
                        SseLine::Done => {
                            let e = self.event(String::new(), true);
                            proof { assert(event_views(out@.push(e)) =~= event_views(out@).push(event_view(e))); }
                            out.push(e);
                            self.finished = true;
                        },
                        SseLine::Content(c) => {
                            if c.unicode_len() > 0 {
                                let e = self.event(c, false);
                                proof { assert(event_views(out@.push(e)) =~= event_views(out@).push(event_view(e))); }
                                out.push(e);
                            }
                        },
                        SseLine::Ignored => {},
                    }
                }
            }
            i += 1;
        }
        proof { assert(p.drop_last().take(i as int) =~= p.drop_last()); }
        self.pending = pieces[n - 1].clone();
        proof { assert(self.pending@ =~= p.last()); }
        out
    }

    /// Takes in the next chunk of bytes, decoded leniently as UTF-8.
    pub fn feed(&mut self, chunk: &[u8]) -> (r: Vec<StreamChunk>)
        ensures
            final(self).session() == old(self).session(),
            final(self).message() == old(self).message(),
            final(self).stream_dialect() == old(self).stream_dialect(),
            final(self).pending_view() == split_seq(old(self).pending_view() + utf8_lossy_of(chunk@), seq!['\n']).last(),
            (event_views(r@), final(self).is_finished()) == process(
                split_seq(old(self).pending_view() + utf8_lossy_of(chunk@), seq!['\n']).drop_last(),
                old(self).stream_dialect(),
                old(self).is_finished(),
            ),
            forall|i: int| 0 <= i < r@.len() ==> r@[i].session_id == old(self).session()
                && r@[i].message_id == old(self).message(),
    {
        let text = decode_lossy(chunk);
        self.feed_text(text.as_str())
    }

    /// Ends the stream, whether its body ended or was cut off: the terminal event,
    /// unless the marker already gave it.
    pub fn finish(&mut self) -> (r: Option<StreamChunk>)
        ensures
            final(self).is_finished(),
            final(self).session() == old(self).session(),
            final(self).message() == old(self).message(),
            final(self).stream_dialect() == old(self).stream_dialect(),
            final(self).pending_view() == old(self).pending_view(),
            old(self).is_finished() ==> r is None,
            !old(self).is_finished() ==> (r matches Some(e) && event_view(e) == (Seq::<char>::empty(), true)
                && e.session_id == old(self).session() && e.message_id == old(self).message()),
    {
        if self.finished {
            None
        } else {
            self.finished = true;
            Some(self.event(String::new(), true))
        }
    }
}

/// Reads one trimmed line in a dialect.
fn parse_line_in(d: Dialect, line: &str) -> (r: SseLine)
    ensures
        line_view(r) == sse_line_of(line@, d),
{
    let cs = to_chars(line);
    proof { reveal_strlit("data: "); }
    if cs.len() < 6 {
        return SseLine::Ignored;
    }
    let head = from_chars(&sub_chars(&cs, 0, 6));
    if !same_chars(head.as_str(), "data: ") {
        return SseLine::Ignored;
    }
    let data_chars = sub_chars(&cs, 6, cs.len());
    proof { assert(data_chars@ =~= line@.skip(6)); }
    let data = from_chars(&data_chars);
    if same_chars(data.as_str(), "[DONE]") {
        return SseLine::Done;
    }
    let pointer = if d == Dialect::Anthropic {
        "/delta/text"
    } else {
        "/choices/0/delta/content"
    };
    match json_str_field(data.as_str(), pointer) {
        Some(t) => SseLine::Content(t),
        None => SseLine::Ignored,
    }
}

/// Processing lines in two runs, the second from the state the first left, is
/// processing them all at once.
pub proof fn lemma_process_concat(a: Seq<Seq<char>>, b: Seq<Seq<char>>, d: Dialect, finished: bool)
    ensures
        process(a + b, d, finished) == (
            process(a, d, finished).0 + process(b, d, process(a, d, finished).1).0,
            process(b, d, process(a, d, finished).1).1,
        ),
    decreases b.len(),
{
    let pa = process(a, d, finished);
    if b.len() == 0 {
        assert(a + b =~= a);
        assert(pa.0 + Seq::<(Seq<char>, bool)>::empty() =~= pa.0);
    } else {
        assert((a + b).drop_last() =~= a + b.drop_last());
        assert((a + b).last() == b.last());
        lemma_process_concat(a, b.drop_last(), d, finished);
        let pb = process(b.drop_last(), d, pa.1);
        if !pb.1 {
            match event_of_line(b.last(), d) {
                Some(e) => {
                    assert((pa.0 + pb.0).push(e) =~= pa.0 + pb.0.push(e));
                },
                None => {},
            }
        }
    }
}

/// How a stream is cut into pieces does not matter: feeding text `a` and then `b`
/// to a decoder gives, one run after the other, the same events and the same state
/// as feeding `a + b` at once. Each event is the text of a data line or the
/// terminal marker, in the order of the lines.
pub proof fn law_chunking_irrelevant(pending: Seq<char>, a: Seq<char>, b: Seq<char>, d: Dialect, finished: bool)
    ensures
        ({
            let nl = seq!['\n'];
            let first = process(split_seq(pending + a, nl).drop_last(), d, finished);
            let rest = split_seq(pending + a, nl).last();
            let second = process(split_seq(rest + b, nl).drop_last(), d, first.1);
            let whole = process(split_seq(pending + a + b, nl).drop_last(), d, finished);
            &&& first.0 + second.0 == whole.0
            &&& second.1 == whole.1
            &&& split_seq(rest + b, nl).last() == split_seq(pending + a + b, nl).last()
        }),
{
    let nl = seq!['\n'];
    let e: Seq<char> = Seq::empty();
    let x = pending + a;
    let sx = split_seq(x, nl);
    let rest = sx.last();
    lemma_split_nonempty(x, nl, e);
    lemma_split_concat(x, b, nl, e);
    lemma_split_last_plain(x, nl, e);
    lemma_split_plain_prefix(rest, b, nl, e);
    assert(e + rest =~= rest);
    let sb = split_acc(b, nl, rest);
    lemma_split_nonempty(b, nl, rest);
    assert(split_seq(rest + b, nl) == sb);
    assert((sx.drop_last() + sb).drop_last() =~= sx.drop_last() + sb.drop_last());
    assert((sx.drop_last() + sb).last() == sb.last());
    lemma_process_concat(sx.drop_last(), sb.drop_last(), d, finished);
}

/// A stream that was not finished emits the terminal event at most once, and only
/// as its last event; it is finished exactly when that event was emitted. With
/// `finish`, which emits it when the lines did not, every stream ends with exactly
/// one terminal event.
pub proof fn law_single_terminal_event(lines: Seq<Seq<char>>, d: Dialect)
    ensures
        ({
            let r = process(lines, d, false);
            &&& r.1 ==> r.0.len() > 0 && r.0.last().1
            &&& forall|i: int| 0 <= i < r.0.len() && (i < r.0.len() - 1 || !r.1) ==> !(#[trigger] r.0[i]).1
        }),
    decreases lines.len(),
{
    if lines.len() > 0 {
        law_single_terminal_event(lines.drop_last(), d);
        let prev = process(lines.drop_last(), d, false);
        if !prev.1 {
            match event_of_line(lines.last(), d) {
                Some(e) => {
                    let r = prev.0.push(e);
                    assert forall|i: int| 0 <= i < r.len() && (i < r.len() - 1 || !e.1) implies !(#[trigger] r[i]).1 by {
                        if i < prev.0.len() {
                            assert(r[i] == prev.0[i]);
                        }
                    }
                },
                None => {},
            }
        }
    }
}

/// The delta texts of a stream's data lines (at `delta_pointer`), joined in order up
/// to the terminal marker, and whether the marker came.
pub open spec fn stream_text(lines: Seq<Seq<char>>, d: Dialect) -> (Seq<char>, bool)
    decreases lines.len(),
{
    if lines.len() == 0 {
        (Seq::empty(), false)
    } else {
        let prev = stream_text(lines.drop_last(), d);
        if prev.1 {
            prev
        } else {
            match sse_line_of(trim(lines.last()), d) {
                Some((t, true)) => (prev.0, true),
                Some((t, false)) => (prev.0 + t, false),
                None => prev,
            }
        }
    }
}

/// The contents of events, joined in order.
pub open spec fn contents(evs: Seq<(Seq<char>, bool)>) -> Seq<char>
    decreases evs.len(),
{
    if evs.len() == 0 {
        Seq::empty()
    } else {
        contents(evs.drop_last()) + evs.last().0
    }
}

/// The text a reader sees is the text the server sent: the contents of the emitted
/// events, joined in order, are the delta fields of the data lines joined in order,
/// up to the terminal marker; and the stream is finished exactly when the marker came.
pub proof fn law_stream_text(lines: Seq<Seq<char>>, d: Dialect)
    ensures
        contents(process(lines, d, false).0) == stream_text(lines, d).0,
        process(lines, d, false).1 == stream_text(lines, d).1,
    decreases lines.len(),
{
    if lines.len() > 0 {
        law_stream_text(lines.drop_last(), d);
        let prev = process(lines.drop_last(), d, false);
        if !prev.1 {
            let t = trim(lines.last());
            match event_of_line(lines.last(), d) {
                Some(e) => {
                    assert(prev.0.push(e).drop_last() =~= prev.0);
                    if e.1 {
                        assert(contents(prev.0) + e.0 =~= contents(prev.0));
                    }
                },
                None => {
                    if t.len() > 0 {
                        match sse_line_of(t, d) {
                            Some((c, false)) => {
                                assert(stream_text(lines.drop_last(), d).0 + c =~= stream_text(lines.drop_last(), d).0);
                            },
                            _ => {},
                        }
                    }
                },
            }
        }
    }
}

} // verus!
