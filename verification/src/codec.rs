//! The record codec: each command record is one JSON object followed by a
//! single `'\n'`.  The encoder writes a canonical form (fixed field order,
//! a fixed escaping policy), and the decoder accepts exactly that canonical
//! form, which makes both round trips provable.

use vstd::prelude::*;

verus! {

/// The mathematical value of a command record.
#[verifier::ext_equal]
pub enum RecordView {
    Put { key: Seq<char>, value: Seq<char> },
    Remove { key: Seq<char> },
}

/// A command record: `Set` binds a key to a value, `Remove` deletes a key.
#[derive(Debug, Clone)]
pub enum Record {
    Put { key: String, value: String },
    Remove { key: String },
}

impl View for Record {
    type V = RecordView;

    open spec fn view(&self) -> RecordView {
        match self {
            Record::Put { key, value } => RecordView::Put { key: key@, value: value@ },
            Record::Remove { key } => RecordView::Remove { key: key@ },
        }
    }
}

/// The digit chars used by `\u00..` escapes, lower-case hex.
pub open spec fn hex_digit(v: int) -> char {
    if v == 0 { '0' } else if v == 1 { '1' } else if v == 2 { '2' } else if v == 3 { '3' }
    else if v == 4 { '4' } else if v == 5 { '5' } else if v == 6 { '6' } else if v == 7 { '7' }
    else if v == 8 { '8' } else if v == 9 { '9' } else if v == 10 { 'a' } else if v == 11 { 'b' }
    else if v == 12 { 'c' } else if v == 13 { 'd' } else if v == 14 { 'e' } else { 'f' }
}

/// The value of a lower-case hex digit char, or -1.
pub open spec fn hex_val(c: char) -> int {
    if c == '0' { 0 } else if c == '1' { 1 } else if c == '2' { 2 } else if c == '3' { 3 }
    else if c == '4' { 4 } else if c == '5' { 5 } else if c == '6' { 6 } else if c == '7' { 7 }
    else if c == '8' { 8 } else if c == '9' { 9 } else if c == 'a' { 10 } else if c == 'b' { 11 }
    else if c == 'c' { 12 } else if c == 'd' { 13 } else if c == 'e' { 14 } else if c == 'f' { 15 }
    else { -1 }
}

/// A char that may stand for itself inside a JSON string literal.
pub open spec fn is_raw(c: char) -> bool {
    (c as u32) >= 0x20 && c != '"' && c != '\\'
}

/// The control chars with a two-char escape of their own.
pub open spec fn short_escaped(v: int) -> bool {
    v == 0x08 || v == 0x09 || v == 0x0a || v == 0x0c || v == 0x0d
}

/// The letter of a control char's two-char escape.
pub open spec fn short_escape_letter(v: int) -> char {
    if v == 0x08 { 'b' } else if v == 0x09 { 't' } else if v == 0x0a { 'n' }
    else if v == 0x0c { 'f' } else { 'r' }
}

/// The canonical escape of one char inside a JSON string literal.
pub open spec fn esc_char(c: char) -> Seq<char> {
    if c == '"' {
        seq!['\\', '"']
    } else if c == '\\' {
        seq!['\\', '\\']
    } else if short_escaped((c as u32) as int) {
        seq!['\\', short_escape_letter((c as u32) as int)]
    } else if (c as u32) < 0x20 {
        seq!['\\', 'u', '0', '0', hex_digit((c as u32) as int / 16), hex_digit((c as u32) as int % 16)]
    } else {
        seq![c]
    }
}

/// The canonical escape of a whole string.
pub open spec fn esc(s: Seq<char>) -> Seq<char>
    decreases s.len(),
{
    if s.len() == 0 {
        Seq::empty()
    } else {
        esc_char(s[0]) + esc(s.drop_first())
    }
}

/// `{"Set":{"key":"`
pub open spec fn lit_set_pre() -> Seq<char> {
    seq!['{', '"', 'S', 'e', 't', '"', ':', '{', '"', 'k', 'e', 'y', '"', ':', '"']
}

/// `{"Remove":{"key":"`
pub open spec fn lit_remove_pre() -> Seq<char> {
    seq!['{', '"', 'R', 'e', 'm', 'o', 'v', 'e', '"', ':', '{', '"', 'k', 'e', 'y', '"', ':', '"']
}

/// `,"value":"` (the key's closing quote has already been consumed)
pub open spec fn lit_mid() -> Seq<char> {
    seq![',', '"', 'v', 'a', 'l', 'u', 'e', '"', ':', '"']
}

/// `}}` plus the framing newline (the closing quote has been consumed)
pub open spec fn lit_suf() -> Seq<char> {
    seq!['}', '}', '\n']
}

/// A JSON string body: the escaped text followed by its closing quote.
pub open spec fn body(s: Seq<char>) -> Seq<char> {
    esc(s).push('"')
}

/// The canonical encoding of a record, framing newline included.
pub open spec fn enc_rec(r: RecordView) -> Seq<char> {
    match r {
        RecordView::Put { key, value } => lit_set_pre() + body(key) + lit_mid() + body(value) + lit_suf(),
        RecordView::Remove { key } => lit_remove_pre() + body(key) + lit_suf(),
    }
}

/// Outcome of matching a fixed literal at position `i`.
#[verifier::ext_equal]
pub enum LitParse {
    Match(int),
    MoreNeeded,
    Mismatch,
}

/// All chars of `lit` that fall inside `s` agree with `s` at `i`.
pub open spec fn lit_agrees(s: Seq<char>, i: int, lit: Seq<char>) -> bool {
    forall|j: int| 0 <= j < lit.len() && i + j < s.len() ==> s[i + j] == lit[j]
}

/// Match a fixed literal at `i`: a disagreement within `s` is a mismatch,
/// agreement that runs off the end of `s` asks for more input.
pub open spec fn parse_lit(s: Seq<char>, i: int, lit: Seq<char>) -> LitParse {
    if !lit_agrees(s, i, lit) {
        LitParse::Mismatch
    } else if i + lit.len() > s.len() {
        LitParse::MoreNeeded
    } else {
        LitParse::Match(i + lit.len())
    }
}

/// Outcome of parsing a JSON string body at position `i`.
#[verifier::ext_equal]
pub enum BodyParse {
    Done { text: Seq<char>, end: int },
    MoreNeeded,
    Mismatch,
}

/// Prepend one decoded char to a body outcome.
pub open spec fn body_cons(c: char, b: BodyParse) -> BodyParse {
    match b {
        BodyParse::Done { text, end } => BodyParse::Done { text: seq![c] + text, end },
        other => other,
    }
}

/// Parse a canonical JSON string body starting at `i`; `end` points one past
/// the closing quote.
pub open spec fn parse_body(s: Seq<char>, i: int) -> BodyParse
    decreases s.len() - i,
{
    if i < 0 || i >= s.len() {
        BodyParse::MoreNeeded
    } else if s[i] == '"' {
        BodyParse::Done { text: Seq::empty(), end: i + 1 }
    } else if s[i] == '\\' {
        if i + 1 >= s.len() {
            BodyParse::MoreNeeded
        } else if s[i + 1] == '"' {
            body_cons('"', parse_body(s, i + 2))
        } else if s[i + 1] == '\\' {
            body_cons('\\', parse_body(s, i + 2))
        } else if s[i + 1] == 'b' {
            body_cons((0x08 as u32) as char, parse_body(s, i + 2))
        } else if s[i + 1] == 't' {
            body_cons((0x09 as u32) as char, parse_body(s, i + 2))
        } else if s[i + 1] == 'n' {
            body_cons((0x0a as u32) as char, parse_body(s, i + 2))
        } else if s[i + 1] == 'f' {
            body_cons((0x0c as u32) as char, parse_body(s, i + 2))
        } else if s[i + 1] == 'r' {
            body_cons((0x0d as u32) as char, parse_body(s, i + 2))
        } else if s[i + 1] == 'u' {
            if i + 6 > s.len() {
                BodyParse::MoreNeeded
            } else if s[i + 2] == '0' && s[i + 3] == '0' && hex_val(s[i + 4]) >= 0 && hex_val(
                s[i + 5],
            ) >= 0 && hex_val(s[i + 4]) * 16 + hex_val(s[i + 5]) < 0x20 && !short_escaped(
                hex_val(s[i + 4]) * 16 + hex_val(s[i + 5]),
            ) {
                body_cons(
                    ((hex_val(s[i + 4]) * 16 + hex_val(s[i + 5])) as u32) as char,
                    parse_body(s, i + 6),
                )
            } else {
                BodyParse::Mismatch
            }
        } else {
            BodyParse::Mismatch
        }
    } else if is_raw(s[i]) {
        body_cons(s[i], parse_body(s, i + 1))
    } else {
        BodyParse::Mismatch
    }
}

/// Outcome of parsing one framed record at position `i`.
#[verifier::ext_equal]
pub enum RecParse {
    Parsed { rec: RecordView, end: int },
    MoreNeeded,
    Mismatch,
}

/// Glue for the `Set` path after its prefix literal has matched at `j`.
pub open spec fn parse_set_tail(s: Seq<char>, j: int) -> RecParse {
    match parse_body(s, j) {
        BodyParse::MoreNeeded => RecParse::MoreNeeded,
        BodyParse::Mismatch => RecParse::Mismatch,
        BodyParse::Done { text: key, end: j2 } => match parse_lit(s, j2, lit_mid()) {
            LitParse::MoreNeeded => RecParse::MoreNeeded,
            LitParse::Mismatch => RecParse::Mismatch,
            LitParse::Match(j3) => match parse_body(s, j3) {
                BodyParse::MoreNeeded => RecParse::MoreNeeded,
                BodyParse::Mismatch => RecParse::Mismatch,
                BodyParse::Done { text: value, end: j4 } => match parse_lit(s, j4, lit_suf()) {
                    LitParse::MoreNeeded => RecParse::MoreNeeded,
                    LitParse::Mismatch => RecParse::Mismatch,
                    LitParse::Match(j5) => RecParse::Parsed {
                        rec: RecordView::Put { key, value },
                        end: j5,
                    },
                },
            },
        },
    }
}

/// Glue for the `Remove` path after its prefix literal has matched at `j`.
pub open spec fn parse_remove_tail(s: Seq<char>, j: int) -> RecParse {
    match parse_body(s, j) {
        BodyParse::MoreNeeded => RecParse::MoreNeeded,
        BodyParse::Mismatch => RecParse::Mismatch,
        BodyParse::Done { text: key, end: j2 } => match parse_lit(s, j2, lit_suf()) {
            LitParse::MoreNeeded => RecParse::MoreNeeded,
            LitParse::Mismatch => RecParse::Mismatch,
            LitParse::Match(j3) => RecParse::Parsed { rec: RecordView::Remove { key }, end: j3 },
        },
    }
}

/// Parse one framed record at `i`.  The variant is told apart by the char
/// after `{"`, as in the canonical encodings.
pub open spec fn parse_rec(s: Seq<char>, i: int) -> RecParse {
    if i < 0 {
        RecParse::Mismatch
    } else if i >= s.len() {
        RecParse::MoreNeeded
    } else if s[i] != '{' {
        RecParse::Mismatch
    } else if i + 1 >= s.len() {
        RecParse::MoreNeeded
    } else if s[i + 1] != '"' {
        RecParse::Mismatch
    } else if i + 2 >= s.len() {
        RecParse::MoreNeeded
    } else if s[i + 2] == 'S' {
        match parse_lit(s, i, lit_set_pre()) {
            LitParse::MoreNeeded => RecParse::MoreNeeded,
            LitParse::Mismatch => RecParse::Mismatch,
            LitParse::Match(j) => parse_set_tail(s, j),
        }
    } else if s[i + 2] == 'R' {
        match parse_lit(s, i, lit_remove_pre()) {
            LitParse::MoreNeeded => RecParse::MoreNeeded,
            LitParse::Mismatch => RecParse::Mismatch,
            LitParse::Match(j) => parse_remove_tail(s, j),
        }
    } else {
        RecParse::Mismatch
    }
}

// ------------------------------------------------------------------
// Laws of the escape map
// ------------------------------------------------------------------

/// Escaping distributes over appending one char at the end.
pub proof fn lemma_esc_snoc(s: Seq<char>, c: char)
    ensures
        esc(s.push(c)) == esc(s) + esc_char(c),
    decreases s.len(),
{
    if s.len() == 0 {
        assert(s.push(c).drop_first() =~= Seq::<char>::empty());
        assert(esc(Seq::<char>::empty()) =~= Seq::<char>::empty());
        assert(esc(s.push(c)) == esc_char(c) + esc(Seq::<char>::empty()));
        assert(esc(s.push(c)) =~= esc(s) + esc_char(c));
    } else {
        assert(s.push(c).drop_first() =~= s.drop_first().push(c));
        lemma_esc_snoc(s.drop_first(), c);
        assert(s.push(c)[0] == s[0]);
        assert(esc(s.push(c)) == esc_char(s[0]) + (esc(s.drop_first()) + esc_char(c)));
        vstd::seq_lib::lemma_concat_associative(esc_char(s[0]), esc(s.drop_first()), esc_char(c));
        assert(esc(s.push(c)) =~= esc(s) + esc_char(c));
    }
}

/// No escaped text contains a newline: raw chars sit at or above 0x20 and
/// every escape sequence is made of printable chars.
pub proof fn lemma_esc_no_newline(s: Seq<char>)
    ensures
        forall|j: int| 0 <= j < esc(s).len() ==> esc(s)[j] != '\n',
    decreases s.len(),
{
    if s.len() > 0 {
        lemma_esc_no_newline(s.drop_first());
        assert(forall|v: int| 0 <= v < 16 ==> hex_digit(v) != '\n');
        assert forall|j: int| 0 <= j < esc(s).len() implies esc(s)[j] != '\n' by {
            if j < esc_char(s[0]).len() {
                assert(esc(s)[j] == esc_char(s[0])[j]);
            } else {
                assert(esc(s)[j] == esc(s.drop_first())[j - esc_char(s[0]).len()]);
            }
        }
    }
}

// ------------------------------------------------------------------
// Soundness: whatever parses is the canonical encoding of its value
// ------------------------------------------------------------------

/// What soundness of the body parser at one position says.
pub open spec fn body_sound_at(s: Seq<char>, i: int) -> bool {
    match parse_body(s, i) {
        BodyParse::Done { text, end } => {
            &&& 0 <= i < end <= s.len()
            &&& end == i + esc(text).len() + 1
            &&& s.subrange(i, end) == body(text)
        },
        _ => true,
    }
}

/// A parsed string body is the canonical escape of its text.
pub proof fn lemma_body_sound(s: Seq<char>, i: int)
    ensures
        body_sound_at(s, i),
    decreases s.len() - i,
{
    if 0 <= i < s.len() {
        if s[i] == '"' {
            assert(s.subrange(i, i + 1) =~= body(Seq::<char>::empty()));
        } else if s[i] == '\\' {
            if i + 1 < s.len() {
                if s[i + 1] == '"' || s[i + 1] == '\\' {
                    let c = s[i + 1];
                    lemma_body_sound(s, i + 2);
                    if let BodyParse::Done { text, end } = parse_body(s, i + 2) {
                        assert(esc(seq![c] + text) =~= esc_char(c) + esc(text)) by {
                            assert((seq![c] + text).drop_first() =~= text);
                        }
                        assert(s.subrange(i, end) =~= body(seq![c] + text)) by {
                            assert(s.subrange(i + 2, end) == body(text));
                            assert(esc_char(c) =~= seq!['\\', c]);
                        }
                    }
                } else if s[i + 1] == 'b' || s[i + 1] == 't' || s[i + 1] == 'n' || s[i + 1] == 'f'
                    || s[i + 1] == 'r' {
                    let v: int = if s[i + 1] == 'b' { 0x08 } else if s[i + 1] == 't' { 0x09 }
                    else if s[i + 1] == 'n' { 0x0a } else if s[i + 1] == 'f' { 0x0c }
                    else { 0x0d };
                    let c = (v as u32) as char;
                    vstd::utf8::char_u32_cast(c, v as u32);
                    lemma_body_sound(s, i + 2);
                    if let BodyParse::Done { text, end } = parse_body(s, i + 2) {
                        assert(esc(seq![c] + text) =~= esc_char(c) + esc(text)) by {
                            assert((seq![c] + text).drop_first() =~= text);
                        }
                        assert(s.subrange(i, end) =~= body(seq![c] + text)) by {
                            assert(s.subrange(i + 2, end) == body(text));
                            assert(esc_char(c) =~= seq!['\\', s[i + 1]]) by {
                                assert(c as u32 == v as u32);
                            }
                        }
                    }
                } else if s[i + 1] == 'u' && i + 6 <= s.len() {
                    if s[i + 2] == '0' && s[i + 3] == '0' && hex_val(s[i + 4]) >= 0 && hex_val(
                        s[i + 5],
                    ) >= 0 && hex_val(s[i + 4]) * 16 + hex_val(s[i + 5]) < 0x20 && !short_escaped(
                        hex_val(s[i + 4]) * 16 + hex_val(s[i + 5]),
                    ) {
                        let v = hex_val(s[i + 4]) * 16 + hex_val(s[i + 5]);
                        let c = (v as u32) as char;
                        vstd::utf8::char_u32_cast(c, v as u32);
                        lemma_body_sound(s, i + 6);
                        if let BodyParse::Done { text, end } = parse_body(s, i + 6) {
                            assert(esc(seq![c] + text) =~= esc_char(c) + esc(text)) by {
                                assert((seq![c] + text).drop_first() =~= text);
                            }
                            assert(esc_char(c) =~= seq![
                                '\\',
                                'u',
                                '0',
                                '0',
                                hex_digit(v / 16),
                                hex_digit(v % 16),
                            ]) by {
                                assert(c as u32 == v as u32);
                            }
                            assert(hex_digit(v / 16) == s[i + 4] && hex_digit(v % 16) == s[i + 5])
                                by {
                                assert(v / 16 == hex_val(s[i + 4]) && v % 16 == hex_val(s[i + 5]));
                                assert(forall|d: int| 0 <= d < 16 ==> hex_val(hex_digit(d)) == d);
                            }
                            assert(s.subrange(i, end) =~= body(seq![c] + text)) by {
                                assert(s.subrange(i + 6, end) == body(text));
                            }
                        }
                    }
                }
            }
        } else if is_raw(s[i]) {
            let c = s[i];
            lemma_body_sound(s, i + 1);
            if let BodyParse::Done { text, end } = parse_body(s, i + 1) {
                assert(esc(seq![c] + text) =~= esc_char(c) + esc(text)) by {
                    assert((seq![c] + text).drop_first() =~= text);
                }
                assert(s.subrange(i, end) =~= body(seq![c] + text)) by {
                    assert(s.subrange(i + 1, end) == body(text));
                    assert(esc_char(c) =~= seq![c]);
                }
            }
        }
    }
}

/// What soundness of the record parser at one position says.
pub open spec fn rec_sound_at(s: Seq<char>, i: int) -> bool {
    match parse_rec(s, i) {
        RecParse::Parsed { rec, end } => {
            &&& 0 <= i < end <= s.len()
            &&& end == i + enc_rec(rec).len()
            &&& s.subrange(i, end) == enc_rec(rec)
        },
        _ => true,
    }
}

/// A parsed record occupies exactly its canonical encoding: re-encoding a
/// decoded record reproduces the text that was read.
#[verifier::rlimit(60)]
pub proof fn lemma_rec_sound(s: Seq<char>, i: int)
    ensures
        rec_sound_at(s, i),
{
    if let RecParse::Parsed { rec, end } = parse_rec(s, i) {
        if 0 <= i < s.len() && s[i] == '{' && i + 2 < s.len() && s[i + 1] == '"' {
            if s[i + 2] == 'S' {
                if let LitParse::Match(j) = parse_lit(s, i, lit_set_pre()) {
                    assert(s.subrange(i, j) =~= lit_set_pre());
                    lemma_body_sound(s, j);
                    if let BodyParse::Done { text: key, end: j2 } = parse_body(s, j) {
                        if let LitParse::Match(j3) = parse_lit(s, j2, lit_mid()) {
                            assert(s.subrange(j2, j3) =~= lit_mid());
                            lemma_body_sound(s, j3);
                            if let BodyParse::Done { text: value, end: j4 } = parse_body(s, j3) {
                                if let LitParse::Match(j5) = parse_lit(s, j4, lit_suf()) {
                                    assert(s.subrange(j4, j5) =~= lit_suf());
                                    assert(s.subrange(i, j5) =~= lit_set_pre() + body(key)
                                        + lit_mid() + body(value) + lit_suf());
                                }
                            }
                        }
                    }
                }
            } else if s[i + 2] == 'R' {
                if let LitParse::Match(j) = parse_lit(s, i, lit_remove_pre()) {
                    assert(s.subrange(i, j) =~= lit_remove_pre());
                    lemma_body_sound(s, j);
                    if let BodyParse::Done { text: key, end: j2 } = parse_body(s, j) {
                        if let LitParse::Match(j3) = parse_lit(s, j2, lit_suf()) {
                            assert(s.subrange(j2, j3) =~= lit_suf());
                            assert(s.subrange(i, j3) =~= lit_remove_pre() + body(key) + lit_suf());
                        }
                    }
                }
            }
        }
    }
}

// ------------------------------------------------------------------
// Completeness: the canonical encoding of any value parses back to it
// ------------------------------------------------------------------

/// A text that carries the canonical escape of `t` plus its closing quote
/// parses to exactly `t`.
pub proof fn lemma_body_complete(s: Seq<char>, i: int, t: Seq<char>)
    requires
        0 <= i,
        i + esc(t).len() + 1 <= s.len(),
        s.subrange(i, i + esc(t).len() + 1) == body(t),
    ensures
        parse_body(s, i) == (BodyParse::Done { text: t, end: i + esc(t).len() + 1 }),
    decreases t.len(),
{
    let sub = s.subrange(i, i + esc(t).len() + 1);
    if t.len() == 0 {
        assert(s[i] == sub[0]);
        assert(parse_body(s, i) =~= (BodyParse::Done { text: t, end: i + 1 }));
    } else {
        let c = t[0];
        let rest = t.drop_first();
        let w = esc_char(c).len() as int;
        assert(esc(t) == esc_char(c) + esc(rest));
        assert(body(t) =~= esc_char(c) + body(rest));
        assert forall|k: int| 0 <= k < body(rest).len() implies s.subrange(
            i + w,
            i + esc(t).len() + 1,
        )[k] == body(rest)[k] by {
            assert(sub[w + k] == body(t)[w + k]);
            assert((esc_char(c) + body(rest))[w + k] == body(rest)[k]);
        }
        assert(s.subrange(i + w, i + esc(t).len() + 1) =~= body(rest));
        assert forall|k: int| 0 <= k < w implies s[i + k] == #[trigger] esc_char(c)[k] by {
            assert(sub[k] == body(t)[k]);
            assert((esc_char(c) + body(rest))[k] == esc_char(c)[k]);
        }
        lemma_body_complete(s, i + w, rest);
        if c == '"' || c == '\\' {
            assert(s[i] == '\\' && s[i + 1] == c);
            assert(parse_body(s, i) =~= body_cons(c, parse_body(s, i + 2)));
            assert(seq![c] + rest =~= t);
        } else if short_escaped((c as u32) as int) {
            let v = (c as u32) as int;
            assert(s[i] == '\\' && s[i + 1] == short_escape_letter(v));
            vstd::utf8::char_u32_cast(c, c as u32);
            assert(parse_body(s, i) =~= body_cons(c, parse_body(s, i + 2)));
            assert(seq![c] + rest =~= t);
        } else if (c as u32) < 0x20 {
            let v = (c as u32) as int;
            assert(s[i] == '\\' && s[i + 1] == 'u' && s[i + 2] == '0' && s[i + 3] == '0');
            assert(s[i + 4] == hex_digit(v / 16) && s[i + 5] == hex_digit(v % 16));
            assert(forall|d: int| 0 <= d < 16 ==> hex_val(hex_digit(d)) == d);
            assert(hex_val(s[i + 4]) * 16 + hex_val(s[i + 5]) == v);
            vstd::utf8::char_u32_cast(c, c as u32);
            assert(parse_body(s, i) =~= body_cons(c, parse_body(s, i + 6)));
            assert(seq![c] + rest =~= t);
        } else {
            assert(is_raw(c));
            assert(esc_char(c)[0] == c);
            assert(s[i] == c);
            assert(parse_body(s, i) =~= body_cons(c, parse_body(s, i + 1)));
            assert(seq![c] + rest =~= t);
        }
    }
}

/// A literal that sits in the text parses as a match.
pub proof fn lemma_lit_complete(s: Seq<char>, i: int, lit: Seq<char>)
    requires
        0 <= i,
        i + lit.len() <= s.len(),
        s.subrange(i, i + lit.len()) == lit,
    ensures
        parse_lit(s, i, lit) == LitParse::Match(i + lit.len()),
{
    assert(forall|j: int| 0 <= j < lit.len() ==> s[i + j] == #[trigger] s.subrange(i, i + lit.len())[j]);
}

/// The canonical encoding of any record, wherever it sits in a text, parses
/// back to exactly that record: `decode` after `encode` is the identity.
#[verifier::rlimit(60)]
pub proof fn lemma_rec_complete(s: Seq<char>, i: int, r: RecordView)
    requires
        0 <= i,
        i + enc_rec(r).len() <= s.len(),
        s.subrange(i, i + enc_rec(r).len()) == enc_rec(r),
    ensures
        parse_rec(s, i) == (RecParse::Parsed { rec: r, end: i + enc_rec(r).len() }),
{
    let e = enc_rec(r);
    let sub = s.subrange(i, i + e.len());
    assert(forall|k: int| 0 <= k < e.len() ==> s[i + k] == e[k]);
    match r {
        RecordView::Put { key, value } => {
            let p = lit_set_pre().len() as int;
            let bk = esc(key).len() + 1;
            let m = lit_mid().len() as int;
            let bv = esc(value).len() + 1;
            assert(forall|k: int| 0 <= k < p ==> e[k] == lit_set_pre()[k]);
            assert(forall|k: int| 0 <= k < bk ==> e[p + k] == body(key)[k]);
            assert(forall|k: int| 0 <= k < m ==> e[p + bk + k] == lit_mid()[k]);
            assert(forall|k: int| 0 <= k < bv ==> e[p + bk + m + k] == body(value)[k]);
            assert(forall|k: int| 0 <= k < 3 ==> e[p + bk + m + bv + k] == lit_suf()[k]);
            assert(s.subrange(i, i + p) =~= lit_set_pre());
            lemma_lit_complete(s, i, lit_set_pre());
            assert(s.subrange(i + p, i + p + bk) =~= body(key));
            lemma_body_complete(s, i + p, key);
            assert(s.subrange(i + p + bk, i + p + bk + m) =~= lit_mid());
            lemma_lit_complete(s, i + p + bk, lit_mid());
            assert(s.subrange(i + p + bk + m, i + p + bk + m + bv) =~= body(value));
            lemma_body_complete(s, i + p + bk + m, value);
            assert(s.subrange(i + p + bk + m + bv, i + p + bk + m + bv + 3) =~= lit_suf());
            lemma_lit_complete(s, i + p + bk + m + bv, lit_suf());
            assert(parse_rec(s, i) =~= (RecParse::Parsed { rec: r, end: i + e.len() }));
        },
        RecordView::Remove { key } => {
            let p = lit_remove_pre().len() as int;
            let bk = esc(key).len() + 1;
            assert(forall|k: int| 0 <= k < p ==> e[k] == lit_remove_pre()[k]);
            assert(forall|k: int| 0 <= k < bk ==> e[p + k] == body(key)[k]);
            assert(forall|k: int| 0 <= k < 3 ==> e[p + bk + k] == lit_suf()[k]);
            assert(s.subrange(i, i + p) =~= lit_remove_pre());
            lemma_lit_complete(s, i, lit_remove_pre());
            assert(s.subrange(i + p, i + p + bk) =~= body(key));
            lemma_body_complete(s, i + p, key);
            assert(s.subrange(i + p + bk, i + p + bk + 3) =~= lit_suf());
            lemma_lit_complete(s, i + p + bk, lit_suf());
            assert(parse_rec(s, i) =~= (RecParse::Parsed { rec: r, end: i + e.len() }));
        },
    }
}

/// The canonical encoding is injective.
pub proof fn lemma_enc_injective(r1: RecordView, r2: RecordView)
    requires
        enc_rec(r1) == enc_rec(r2),
    ensures
        r1 == r2,
{
    let s = enc_rec(r1);
    assert(s.subrange(0, s.len() as int) =~= s);
    lemma_rec_complete(s, 0, r1);
    lemma_rec_complete(s, 0, r2);
}

/// Every encoded record ends with its framing newline and contains no other.
pub proof fn lemma_enc_newline(r: RecordView)
    ensures
        enc_rec(r).len() > 0,
        enc_rec(r)[enc_rec(r).len() - 1] == '\n',
        forall|j: int| 0 <= j < enc_rec(r).len() - 1 ==> enc_rec(r)[j] != '\n',
{
    let e = enc_rec(r);
    assert(forall|v: int| 0 <= v < 16 ==> hex_digit(v) != '\n');
    match r {
        RecordView::Put { key, value } => {
            lemma_esc_no_newline(key);
            lemma_esc_no_newline(value);
            let p = lit_set_pre().len() as int;
            let bk = esc(key).len() + 1;
            let m = lit_mid().len() as int;
            let bv = esc(value).len() + 1;
            assert forall|j: int| 0 <= j < e.len() - 1 implies e[j] != '\n' by {
                if j < p {
                    assert(e[j] == lit_set_pre()[j]);
                } else if j < p + bk {
                    assert(e[j] == body(key)[j - p]);
                } else if j < p + bk + m {
                    assert(e[j] == lit_mid()[j - p - bk]);
                } else if j < p + bk + m + bv {
                    assert(e[j] == body(value)[j - p - bk - m]);
                } else {
                    assert(e[j] == lit_suf()[j - p - bk - m - bv]);
                }
            }
            assert(e[e.len() - 1] == lit_suf()[2]);
        },
        RecordView::Remove { key } => {
            lemma_esc_no_newline(key);
            let p = lit_remove_pre().len() as int;
            let bk = esc(key).len() + 1;
            assert forall|j: int| 0 <= j < e.len() - 1 implies e[j] != '\n' by {
                if j < p {
                    assert(e[j] == lit_remove_pre()[j]);
                } else if j < p + bk {
                    assert(e[j] == body(key)[j - p]);
                } else {
                    assert(e[j] == lit_suf()[j - p - bk]);
                }
            }
            assert(e[e.len() - 1] == lit_suf()[2]);
        },
    }
}

// ------------------------------------------------------------------
// Executable codec
// ------------------------------------------------------------------

/// Outcome of the executable literal matcher.
pub enum LitOut {
    Match(usize),
    MoreNeeded,
    Mismatch,
}

/// The executable literal outcome agrees with the specification one.
pub open spec fn lit_out_ok(r: LitOut, sp: LitParse) -> bool {
    match r {
        LitOut::Match(e) => sp == LitParse::Match(e as int),
        LitOut::MoreNeeded => sp == LitParse::MoreNeeded,
        LitOut::Mismatch => sp == LitParse::Mismatch,
    }
}

/// Outcome of the executable string-body parser.
pub enum BodyOut {
    Done(Vec<char>, usize),
    MoreNeeded,
    Mismatch,
}

/// The executable body outcome agrees with the specification one.
pub open spec fn body_out_ok(r: BodyOut, sp: BodyParse) -> bool {
    match r {
        BodyOut::Done(t, e) => sp == (BodyParse::Done { text: t@, end: e as int }),
        BodyOut::MoreNeeded => sp == BodyParse::MoreNeeded,
        BodyOut::Mismatch => sp == BodyParse::Mismatch,
    }
}

/// Outcome of decoding one framed record.
pub enum DecodeOut {
    Parsed(Record, usize),
    MoreNeeded,
    Mismatch,
}

/// The executable record outcome agrees with the specification one.
pub open spec fn decode_out_ok(r: DecodeOut, sp: RecParse) -> bool {
    match r {
        DecodeOut::Parsed(rec, e) => sp == (RecParse::Parsed { rec: rec@, end: e as int }),
        DecodeOut::MoreNeeded => sp == RecParse::MoreNeeded,
        DecodeOut::Mismatch => sp == RecParse::Mismatch,
    }
}

/// The chars of `{"Set":{"key":"`.
pub fn lit_vec_set_pre() -> (r: Vec<char>)
    ensures
        r@ == lit_set_pre(),
{
    let mut v: Vec<char> = Vec::new();
    v.push('{'); v.push('"'); v.push('S'); v.push('e'); v.push('t'); v.push('"'); v.push(':');
    v.push('{'); v.push('"'); v.push('k'); v.push('e'); v.push('y'); v.push('"'); v.push(':');
    v.push('"');
    proof { assert(v@ =~= lit_set_pre()); }
    v
}

/// The chars of `{"Remove":{"key":"`.
pub fn lit_vec_remove_pre() -> (r: Vec<char>)
    ensures
        r@ == lit_remove_pre(),
{
    let mut v: Vec<char> = Vec::new();
    v.push('{'); v.push('"'); v.push('R'); v.push('e'); v.push('m'); v.push('o'); v.push('v');
    v.push('e'); v.push('"'); v.push(':'); v.push('{'); v.push('"'); v.push('k'); v.push('e');
    v.push('y'); v.push('"'); v.push(':'); v.push('"');
    proof { assert(v@ =~= lit_remove_pre()); }
    v
}

/// The chars of `,"value":"`.
pub fn lit_vec_mid() -> (r: Vec<char>)
    ensures
        r@ == lit_mid(),
{
    let mut v: Vec<char> = Vec::new();
    v.push(','); v.push('"'); v.push('v'); v.push('a'); v.push('l'); v.push('u'); v.push('e');
    v.push('"'); v.push(':'); v.push('"');
    proof { assert(v@ =~= lit_mid()); }
    v
}

/// The chars of `}}` plus the framing newline.
pub fn lit_vec_suf() -> (r: Vec<char>)
    ensures
        r@ == lit_suf(),
{
    let mut v: Vec<char> = Vec::new();
    v.push('}'); v.push('}'); v.push('\n');
    proof { assert(v@ =~= lit_suf()); }
    v
}

/// Match a fixed literal at position `i` of the text.
fn match_lit(s: &Vec<char>, i: usize, lit: &Vec<char>) -> (r: LitOut)
    requires
        i <= s@.len(),
    ensures
        lit_out_ok(r, parse_lit(s@, i as int, lit@)),
{
    let n = s.len();
    let mut j: usize = 0;
    while j < lit.len()
        invariant
            i <= n == s@.len(),
            0 <= j <= lit@.len(),
            i + j <= s@.len(),
            forall|j2: int| 0 <= j2 < j ==> i + j2 < s@.len() && s@[i + j2] == lit@[j2],
        decreases lit@.len() - j,
    {
        if j >= n - i {
            proof {
                assert(lit_agrees(s@, i as int, lit@));
            }
            return LitOut::MoreNeeded;
        }
        if s[i + j] != lit[j] {
            proof {
                assert(!lit_agrees(s@, i as int, lit@));
            }
            return LitOut::Mismatch;
        }
        j = j + 1;
    }
    proof {
        assert(lit_agrees(s@, i as int, lit@));
        assert(i + lit@.len() <= s@.len());
    }
    LitOut::Match(i + lit.len())
}

/// The value of a lower-case hex digit, or 99 for any other char.
pub(crate) fn hex_val_x(c: char) -> (v: u32)
    ensures
        hex_val(c) >= 0 ==> v as int == hex_val(c),
        hex_val(c) < 0 ==> v == 99,
{
    match c {
        '0' => 0, '1' => 1, '2' => 2, '3' => 3, '4' => 4, '5' => 5, '6' => 6, '7' => 7,
        '8' => 8, '9' => 9, 'a' => 10, 'b' => 11, 'c' => 12, 'd' => 13, 'e' => 14, 'f' => 15,
        _ => 99,
    }
}

/// The lower-case hex digit char of a value below 16.
pub(crate) fn hex_digit_x(v: u32) -> (c: char)
    requires
        v < 16,
    ensures
        c == hex_digit(v as int),
{
    match v {
        0 => '0', 1 => '1', 2 => '2', 3 => '3', 4 => '4', 5 => '5', 6 => '6', 7 => '7',
        8 => '8', 9 => '9', 10 => 'a', 11 => 'b', 12 => 'c', 13 => 'd', 14 => 'e', _ => 'f',
    }
}

/// Apply `body_cons_all` over an accumulated prefix.
pub open spec fn body_cons_all(pre: Seq<char>, b: BodyParse) -> BodyParse {
    match b {
        BodyParse::Done { text, end } => BodyParse::Done { text: pre + text, end },
        other => other,
    }
}

/// Parse a canonical JSON string body at position `i` of the text.
fn parse_body_x(s: &Vec<char>, start: usize) -> (r: BodyOut)
    requires
        start <= s@.len(),
    ensures
        body_out_ok(r, parse_body(s@, start as int)),
{
    let mut acc: Vec<char> = Vec::new();
    let mut i: usize = start;
    loop
        invariant
            start <= i <= s@.len(),
            parse_body(s@, start as int) == body_cons_all(acc@, parse_body(s@, i as int)),
        decreases s@.len() - i,
    {
        if i >= s.len() {
            return BodyOut::MoreNeeded;
        }
        let c = s[i];
        if c == '"' {
            proof {
                assert(parse_body(s@, i as int) == (BodyParse::Done {
                    text: Seq::<char>::empty(),
                    end: i + 1,
                }));
                assert(acc@ + Seq::<char>::empty() =~= acc@);
            }
            return BodyOut::Done(acc, i + 1);
        } else if c == '\\' {
            if s.len() - i < 2 {
                return BodyOut::MoreNeeded;
            }
            let c2 = s[i + 1];
            if c2 == '"' || c2 == '\\' {
                proof {
                    assert(parse_body(s@, i as int) == body_cons(c2, parse_body(s@, i + 2)));
                    assert(forall|b: BodyParse| body_cons_all(acc@, body_cons(c2, b))
                        =~= body_cons_all(acc@.push(c2), b)) by {
                        assert(forall|t: Seq<char>| acc@ + (seq![c2] + t) =~= acc@.push(c2) + t);
                    }
                }
                acc.push(c2);
                i = i + 2;
            } else if c2 == 'b' || c2 == 't' || c2 == 'n' || c2 == 'f' || c2 == 'r' {
                let v: u32 = if c2 == 'b' {
                    0x08
                } else if c2 == 't' {
                    0x09
                } else if c2 == 'n' {
                    0x0a
                } else if c2 == 'f' {
                    0x0c
                } else {
                    0x0d
                };
                let c3 = crate::strutil::char_of_u32(v);
                proof {
                    vstd::utf8::char_u32_cast(c3, v);
                    assert(parse_body(s@, i as int) == body_cons(c3, parse_body(s@, i + 2)));
                    assert(forall|b: BodyParse| body_cons_all(acc@, body_cons(c3, b))
                        =~= body_cons_all(acc@.push(c3), b)) by {
                        assert(forall|t: Seq<char>| acc@ + (seq![c3] + t) =~= acc@.push(c3) + t);
                    }
                }
                acc.push(c3);
                i = i + 2;
            } else if c2 == 'u' {
                if s.len() - i < 6 {
                    return BodyOut::MoreNeeded;
                }
                if s[i + 2] != '0' || s[i + 3] != '0' {
                    return BodyOut::Mismatch;
                }
                let h1 = hex_val_x(s[i + 4]);
                let h0 = hex_val_x(s[i + 5]);
                if h1 >= 16 || h0 >= 16 {
                    return BodyOut::Mismatch;
                }
                let v = h1 * 16 + h0;
                if v >= 0x20 {
                    return BodyOut::Mismatch;
                }
                if v == 0x08 || v == 0x09 || v == 0x0a || v == 0x0c || v == 0x0d {
                    return BodyOut::Mismatch;
                }
                let c3 = crate::strutil::char_of_u32(v);
                proof {
                    vstd::utf8::char_u32_cast(c3, v);
                    assert(parse_body(s@, i as int) == body_cons(c3, parse_body(s@, i + 6)));
                    assert(forall|b: BodyParse| body_cons_all(acc@, body_cons(c3, b))
                        =~= body_cons_all(acc@.push(c3), b)) by {
                        assert(forall|t: Seq<char>| acc@ + (seq![c3] + t) =~= acc@.push(c3) + t);
                    }
                }
                acc.push(c3);
                i = i + 6;
            } else {
                return BodyOut::Mismatch;
            }
        } else if c as u32 >= 0x20 {
            proof {
                assert(is_raw(c));
                assert(parse_body(s@, i as int) == body_cons(c, parse_body(s@, i + 1)));
                assert(forall|b: BodyParse| body_cons_all(acc@, body_cons(c, b)) =~= body_cons_all(
                    acc@.push(c),
                    b,
                )) by {
                    assert(forall|t: Seq<char>| acc@ + (seq![c] + t) =~= acc@.push(c) + t);
                }
            }
            acc.push(c);
            i = i + 1;
        } else {
            return BodyOut::Mismatch;
        }
    }
}

/// Decode one framed record at position `i` of the text.  The outcome mirrors
/// the specification parser exactly: a parse yields the record and the
/// position one past its framing newline; `MoreNeeded` marks a truncated
/// tail; `Mismatch` marks malformed text.
pub fn decode_rec(s: &Vec<char>, i: usize) -> (r: DecodeOut)
    requires
        i <= s@.len(),
    ensures
        decode_out_ok(r, parse_rec(s@, i as int)),
{
    if i >= s.len() {
        return DecodeOut::MoreNeeded;
    }
    if s[i] != '{' {
        return DecodeOut::Mismatch;
    }
    if s.len() - i < 2 {
        return DecodeOut::MoreNeeded;
    }
    if s[i + 1] != '"' {
        return DecodeOut::Mismatch;
    }
    if s.len() - i < 3 {
        return DecodeOut::MoreNeeded;
    }
    let tag = s[i + 2];
    if tag == 'S' {
        let pre = lit_vec_set_pre();
        match match_lit(s, i, &pre) {
            LitOut::MoreNeeded => DecodeOut::MoreNeeded,
            LitOut::Mismatch => DecodeOut::Mismatch,
            LitOut::Match(j) => {
                match parse_body_x(s, j) {
                    BodyOut::MoreNeeded => DecodeOut::MoreNeeded,
                    BodyOut::Mismatch => DecodeOut::Mismatch,
                    BodyOut::Done(kv, j2) => {
                        proof {
                            lemma_body_sound(s@, j as int);
                        }
                        let mid = lit_vec_mid();
                        match match_lit(s, j2, &mid) {
                            LitOut::MoreNeeded => DecodeOut::MoreNeeded,
                            LitOut::Mismatch => DecodeOut::Mismatch,
                            LitOut::Match(j3) => {
                                match parse_body_x(s, j3) {
                                    BodyOut::MoreNeeded => DecodeOut::MoreNeeded,
                                    BodyOut::Mismatch => DecodeOut::Mismatch,
                                    BodyOut::Done(vv, j4) => {
                                        proof {
                                            lemma_body_sound(s@, j3 as int);
                                        }
                                        let suf = lit_vec_suf();
                                        match match_lit(s, j4, &suf) {
                                            LitOut::MoreNeeded => DecodeOut::MoreNeeded,
                                            LitOut::Mismatch => DecodeOut::Mismatch,
                                            LitOut::Match(j5) => {
                                                let rec = Record::Put {
                                                    key: crate::strutil::string_of(&kv),
                                                    value: crate::strutil::string_of(&vv),
                                                };
                                                DecodeOut::Parsed(rec, j5)
                                            },
                                        }
                                    },
                                }
                            },
                        }
                    },
                }
            },
        }
    } else if tag == 'R' {
        let pre = lit_vec_remove_pre();
        match match_lit(s, i, &pre) {
            LitOut::MoreNeeded => DecodeOut::MoreNeeded,
            LitOut::Mismatch => DecodeOut::Mismatch,
            LitOut::Match(j) => {
                match parse_body_x(s, j) {
                    BodyOut::MoreNeeded => DecodeOut::MoreNeeded,
                    BodyOut::Mismatch => DecodeOut::Mismatch,
                    BodyOut::Done(kv, j2) => {
                        proof {
                            lemma_body_sound(s@, j as int);
                        }
                        let suf = lit_vec_suf();
                        match match_lit(s, j2, &suf) {
                            LitOut::MoreNeeded => DecodeOut::MoreNeeded,
                            LitOut::Mismatch => DecodeOut::Mismatch,
                            LitOut::Match(j3) => {
                                let rec = Record::Remove { key: crate::strutil::string_of(&kv) };
                                DecodeOut::Parsed(rec, j3)
                            },
                        }
                    },
                }
            },
        }
    } else {
        DecodeOut::Mismatch
    }
}

/// Append the canonical escape of `text` to `out`.
fn push_escaped(out: &mut Vec<char>, text: &str)
    ensures
        final(out)@ == old(out)@ + esc(text@),
{
    let cs = crate::strutil::chars_of(text);
    let ghost base = out@;
    let mut j: usize = 0;
    proof {
        assert(esc(cs@.subrange(0, 0)) =~= Seq::<char>::empty());
        assert(out@ =~= base + esc(cs@.subrange(0, 0)));
    }
    while j < cs.len()
        invariant
            0 <= j <= cs@.len(),
            cs@ == text@,
            out@ == base + esc(cs@.subrange(0, j as int)),
        decreases cs@.len() - j,
    {
        let c = cs[j];
        proof {
            lemma_esc_snoc(cs@.subrange(0, j as int), c);
            assert(cs@.subrange(0, j + 1) =~= cs@.subrange(0, j as int).push(c));
        }
        if c == '"' {
            out.push('\\');
            out.push('"');
            proof {
                assert(out@ =~= base + esc(cs@.subrange(0, j + 1)));
            }
        } else if c == '\\' {
            out.push('\\');
            out.push('\\');
            proof {
                assert(out@ =~= base + esc(cs@.subrange(0, j + 1)));
            }
        } else if (c as u32) < 0x20 {
            let v = c as u32;
            out.push('\\');
            if v == 0x08 {
                out.push('b');
            } else if v == 0x09 {
                out.push('t');
            } else if v == 0x0a {
                out.push('n');
            } else if v == 0x0c {
                out.push('f');
            } else if v == 0x0d {
                out.push('r');
            } else {
                out.push('u');
                out.push('0');
                out.push('0');
                out.push(hex_digit_x(v / 16));
                out.push(hex_digit_x(v % 16));
            }
            proof {
                assert(out@ =~= base + esc(cs@.subrange(0, j + 1)));
            }
        } else {
            out.push(c);
            proof {
                assert(esc_char(c) =~= seq![c]);
                assert(out@ =~= base + esc(cs@.subrange(0, j + 1)));
            }
        }
        j = j + 1;
    }
    proof {
        assert(cs@.subrange(0, cs@.len() as int) =~= text@);
    }
}

/// Encode a record into its canonical framed form, newline included.
pub fn encode_record(r: &Record) -> (out: Vec<char>)
    ensures
        out@ == enc_rec(r@),
{
    match r {
        Record::Put { key, value } => {
            let mut out = lit_vec_set_pre();
            push_escaped(&mut out, key.as_str());
            out.push('"');
            let mid = lit_vec_mid();
            out.extend_from_slice(mid.as_slice());
            push_escaped(&mut out, value.as_str());
            out.push('"');
            let suf = lit_vec_suf();
            out.extend_from_slice(suf.as_slice());
            proof {
                assert(out@ =~= lit_set_pre() + body(key@) + lit_mid() + body(value@) + lit_suf());
            }
            out
        },
        Record::Remove { key } => {
            let mut out = lit_vec_remove_pre();
            push_escaped(&mut out, key.as_str());
            out.push('"');
            let suf = lit_vec_suf();
            out.extend_from_slice(suf.as_slice());
            proof {
                assert(out@ =~= lit_remove_pre() + body(key@) + lit_suf());
            }
            out
        },
    }
}

} // verus!
