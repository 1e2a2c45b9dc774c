//! One generation's log file: an append-only text image with an independent
//! read position, the specification of parsing a whole log, and the law that
//! appending one framed record extends that parse by exactly one entry.

use vstd::prelude::*;

use crate::codec::{enc_rec, lemma_rec_complete, lemma_rec_sound, parse_rec, RecParse, RecordView};

verus! {

/// One parsed record with the half-open char range it occupies; `end` counts
/// the framing newline.
#[verifier::ext_equal]
pub struct PosRec {
    pub rec: RecordView,
    pub start: int,
    pub end: int,
}

/// How a log text ends: cleanly after its last record, in a truncated tail
/// that replay tolerates, or in malformed text that replay rejects.
#[verifier::ext_equal]
pub enum LogTail {
    Clean,
    Truncated,
    Malformed,
}

/// The records of a log text and how its tail ends.
#[verifier::ext_equal]
pub struct LogParse {
    pub recs: Seq<PosRec>,
    pub tail: LogTail,
}

/// Whitespace that a decoder skips after the last record.
pub open spec fn is_ws(c: char) -> bool {
    c == ' ' || c == '\t' || c == '\n' || c == '\r'
}

/// Everything from `i` on is whitespace.
pub open spec fn ws_only(s: Seq<char>, i: int) -> bool {
    forall|j: int| i <= j < s.len() ==> is_ws(s[j])
}

/// Parse a log text from position `i` to its end.
pub open spec fn log_parse_at(s: Seq<char>, i: int) -> LogParse
    decreases s.len() - i,
{
    if i < 0 || i >= s.len() {
        LogParse { recs: Seq::empty(), tail: LogTail::Clean }
    } else {
        match parse_rec(s, i) {
            RecParse::Parsed { rec, end } => {
                if i < end <= s.len() {
                    let rest = log_parse_at(s, end);
                    LogParse {
                        recs: seq![PosRec { rec, start: i, end }] + rest.recs,
                        tail: rest.tail,
                    }
                } else {
                    LogParse { recs: Seq::empty(), tail: LogTail::Malformed }
                }
            },
            RecParse::MoreNeeded => LogParse { recs: Seq::empty(), tail: LogTail::Truncated },
            RecParse::Mismatch => {
                if ws_only(s, i) {
                    LogParse { recs: Seq::empty(), tail: LogTail::Clean }
                } else {
                    LogParse { recs: Seq::empty(), tail: LogTail::Malformed }
                }
            },
        }
    }
}

/// Parse a whole log text.
pub open spec fn log_parse(s: Seq<char>) -> LogParse {
    log_parse_at(s, 0)
}

/// A log text that is exactly a sequence of framed records, with no
/// trailing partial record and no trailing whitespace.
pub open spec fn framed_to(s: Seq<char>, i: int) -> bool {
    &&& log_parse_at(s, i).tail == LogTail::Clean
    &&& (log_parse_at(s, i).recs.len() == 0 ==> i == s.len())
    &&& (log_parse_at(s, i).recs.len() > 0 ==> log_parse_at(s, i).recs.last().end == s.len())
}

/// A whole log text that is exactly a sequence of framed records.
pub open spec fn fully_framed(s: Seq<char>) -> bool {
    framed_to(s, 0)
}

/// The empty text is fully framed.
pub proof fn lemma_empty_framed()
    ensures
        fully_framed(Seq::<char>::empty()),
        log_parse(Seq::<char>::empty()).recs == Seq::<PosRec>::empty(),
{
}

/// Appending one encoded record to a fully framed text extends its parse by
/// exactly that record, placed at the old end of the text.
pub proof fn lemma_log_append_at(s: Seq<char>, t: Seq<char>, r: RecordView, i: int)
    requires
        0 <= i <= s.len(),
        t == s + enc_rec(r),
        framed_to(s, i),
    ensures
        log_parse_at(t, i).recs == log_parse_at(s, i).recs.push(
            PosRec { rec: r, start: s.len() as int, end: s.len() as int + enc_rec(r).len() as int },
        ),
        framed_to(t, i),
    decreases s.len() - i,
{
    let e = enc_rec(r);
    let new_pr = PosRec { rec: r, start: s.len() as int, end: s.len() as int + e.len() as int };
    if i == s.len() {
        assert(t.subrange(i, i + e.len()) =~= e);
        lemma_rec_complete(t, i, r);
        crate::codec::lemma_enc_newline(r);
        assert(parse_rec(t, i) == (RecParse::Parsed { rec: r, end: i + e.len() }));
        assert(log_parse_at(t, i + e.len()).recs =~= Seq::<PosRec>::empty());
        assert(log_parse_at(t, i).recs =~= seq![new_pr] + log_parse_at(t, i + e.len()).recs);
        assert(log_parse_at(t, i).recs =~= log_parse_at(s, i).recs.push(new_pr));
    } else {
        match parse_rec(s, i) {
            RecParse::Parsed { rec: rec0, end: end0 } => {
                lemma_rec_sound(s, i);
                assert(i < end0 <= s.len());
                assert(s.subrange(i, end0) == enc_rec(rec0));
                assert(t.subrange(i, end0) =~= s.subrange(i, end0));
                lemma_rec_complete(t, i, rec0);
                assert(parse_rec(t, i) == (RecParse::Parsed { rec: rec0, end: end0 }));
                let pr0 = PosRec { rec: rec0, start: i, end: end0 };
                let rest = log_parse_at(s, end0);
                assert(log_parse_at(s, i).recs == seq![pr0] + rest.recs);
                assert(framed_to(s, end0)) by {
                    if rest.recs.len() == 0 {
                        assert(log_parse_at(s, i).recs.last() == pr0);
                    } else {
                        assert(log_parse_at(s, i).recs.last() == rest.recs.last());
                    }
                }
                lemma_log_append_at(s, t, r, end0);
                assert(log_parse_at(t, i).recs =~= seq![pr0] + log_parse_at(t, end0).recs);
                assert(log_parse_at(t, i).recs =~= log_parse_at(s, i).recs.push(new_pr));
                assert(log_parse_at(t, i).recs.last() == new_pr);
            },
            RecParse::MoreNeeded => {
                assert(false);
            },
            RecParse::Mismatch => {
                assert(log_parse_at(s, i).recs.len() == 0);
                assert(false);
            },
        }
    }
}

/// Appending one encoded record to a fully framed log text.
pub proof fn lemma_log_append(s: Seq<char>, r: RecordView)
    ensures
        fully_framed(s) ==> {
            &&& fully_framed(s + enc_rec(r))
            &&& log_parse(s + enc_rec(r)).recs == log_parse(s).recs.push(
                PosRec { rec: r, start: s.len() as int, end: s.len() as int + enc_rec(r).len() as int },
            )
        },
{
    if fully_framed(s) {
        lemma_log_append_at(s, s + enc_rec(r), r, 0);
    }
}

/// The char position one past the first newline at or after `i`, or the end
/// of the text when no newline follows.
pub open spec fn line_end(s: Seq<char>, i: int) -> int
    decreases s.len() - i,
{
    if i < 0 || i >= s.len() {
        s.len() as int
    } else if s[i] == '\n' {
        i + 1
    } else {
        line_end(s, i + 1)
    }
}

/// A line that starts at the start of a stored record ends exactly at the
/// record's framing newline.
pub proof fn lemma_line_end_of_record(s: Seq<char>, i: int, e: int)
    requires
        0 <= i < e <= s.len(),
        forall|j: int| i <= j < e - 1 ==> s[j] != '\n',
        s[e - 1] == '\n',
    ensures
        line_end(s, i) == e,
    decreases e - i,
{
    if s[i] == '\n' {
        assert(i == e - 1);
    } else {
        lemma_line_end_of_record(s, i + 1, e);
    }
}

/// One generation's log file image: the text written so far and an
/// independent read position.
pub struct LogFile {
    /// The generation number, also the file's name stem.
    pub gen: u64,
    /// Every char appended so far, in order.
    pub content: Vec<char>,
    /// The read cursor, advanced by `read_line` and moved by `seek_to`.
    pub read_pos: usize,
}

impl LogFile {
    /// The read position always sits inside the text.
    pub open spec fn wf(&self) -> bool {
        self.read_pos <= self.content@.len()
    }

    /// A fresh, empty log file for generation `gen`.
    pub fn new(gen: u64) -> (r: LogFile)
        ensures
            r.wf(),
            r.gen == gen,
            r.content@ == Seq::<char>::empty(),
            r.read_pos == 0,
    {
        LogFile { gen, content: Vec::new(), read_pos: 0 }
    }

    /// Move the read cursor, as a seek on the underlying handle would.
    pub fn seek_to(&mut self, pos: usize)
        requires
            pos <= old(self).content@.len(),
        ensures
            final(self).wf(),
            final(self).gen == old(self).gen,
            final(self).content == old(self).content,
            final(self).read_pos == pos,
    {
        self.read_pos = pos;
    }

    /// Read one line from the cursor: the chars up to and including the next
    /// newline, or up to the end of the text.  The cursor advances by the
    /// number of chars delivered.
    pub fn read_line(&mut self) -> (line: Vec<char>)
        requires
            old(self).wf(),
        ensures
            final(self).wf(),
            final(self).gen == old(self).gen,
            final(self).content == old(self).content,
            final(self).read_pos == line_end(old(self).content@, old(self).read_pos as int),
            line@ == old(self).content@.subrange(
                old(self).read_pos as int,
                line_end(old(self).content@, old(self).read_pos as int),
            ),
    {
        let ghost s = self.content@;
        let ghost p0 = self.read_pos as int;
        let mut line: Vec<char> = Vec::new();
        let n = self.content.len();
        let mut i = self.read_pos;
        while i < n
            invariant
                p0 <= i <= n == s.len(),
                s == self.content@,
                self.gen == old(self).gen,
                self.content == old(self).content,
                self.read_pos == old(self).read_pos,
                p0 == old(self).read_pos as int,
                line@ == s.subrange(p0, i as int),
                line_end(s, p0) == line_end(s, i as int),
                forall|j: int| p0 <= j < i ==> s[j] != '\n',
            decreases n - i,
        {
            let c = self.content[i];
            line.push(c);
            i = i + 1;
            proof {
                assert(line@ =~= s.subrange(p0, i as int));
            }
            if c == '\n' {
                proof {
                    assert(line_end(s, i - 1) == i);
                }
                self.read_pos = i;
                return line;
            }
        }
        proof {
            assert(line_end(s, i as int) == s.len());
            assert(line@ =~= s.subrange(p0, line_end(s, p0)));
        }
        self.read_pos = i;
        line
    }

    /// Append text at the end of the file, as the active writer does.
    pub fn append_text(&mut self, text: &Vec<char>)
        requires
            old(self).wf(),
        ensures
            final(self).wf(),
            final(self).gen == old(self).gen,
            final(self).read_pos == old(self).read_pos,
            final(self).content@ == old(self).content@ + text@,
    {
        self.content.extend_from_slice(text.as_slice());
    }
}

} // verus!
