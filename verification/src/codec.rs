//! Protocol codec: the tagged JSON envelope exchanged with the chat server,
//! and the nested chat-message payload carried by `message` frames.
//!
//! The wire unit is a flat JSON object with a `messageType` tag and exactly
//! one of two payload fields (`data` for `register`/`message`, `dataArray`
//! for `users`).  In memory the envelope is a true sum type; the tag/field
//! relationship is enforced by construction on encode and validated on
//! decode.  The encoder emits one canonical form (fixed key order, no
//! whitespace, escapes limited to `\"`, `\\` and `\u00XX` for control
//! characters) and the decoder accepts exactly that form; anything else is a
//! `DecodeError`, which callers drop rather than letting one bad frame tear
//! the stream down.

use vstd::prelude::*;
use vstd::string::StrSliceExecFns;
use vstd::string::StringExecFns;
use crate::strutil::push_char;

verus! {

broadcast use vstd::utf8::char_is_scalar, vstd::utf8::char_u32_cast;

/// The tag vocabulary of the wire protocol.
#[derive(Clone, Copy, PartialEq, Eq, Structural, Debug)]
pub enum MsgTypes {
    Users,
    Register,
    Message,
}

/// A decoded wire frame: the three-way tagged union behind the flat record.
pub enum Envelope {
    /// Full replacement roster: the names of everyone online.
    Users(Vec<String>),
    /// Announces the local identity to the server.
    Register(String),
    /// A broadcast chat message; the payload is itself an encoded [`ChatMessage`].
    Message(String),
}

/// The nested payload of a `message` envelope.
pub struct ChatMessage {
    pub from: String,
    pub message: String,
}

/// A frame that is not in the wire format: malformed JSON, an unknown tag,
/// or a payload field that does not match the tag.
#[derive(Clone, Copy, PartialEq, Eq, Structural, Debug)]
pub struct DecodeError;

/// Mathematical model of an envelope: the same sum type over character
/// sequences.
pub enum EnvelopeV {
    Users(Seq<Seq<char>>),
    Register(Seq<char>),
    Message(Seq<char>),
}

/// Mathematical model of a chat message.
pub struct ChatMessageV {
    pub from: Seq<char>,
    pub message: Seq<char>,
}

impl View for Envelope {
    type V = EnvelopeV;

    open spec fn view(&self) -> EnvelopeV {
        match self {
            Envelope::Users(l) => EnvelopeV::Users(l@.map_values(|s: String| s@)),
            Envelope::Register(t) => EnvelopeV::Register(t@),
            Envelope::Message(t) => EnvelopeV::Message(t@),
        }
    }
}

impl View for ChatMessage {
    type V = ChatMessageV;

    open spec fn view(&self) -> ChatMessageV {
        ChatMessageV { from: self.from@, message: self.message@ }
    }
}

impl Envelope {
    /// The tag under which this envelope travels.
    pub fn kind(&self) -> (k: MsgTypes)
        ensures
            k == self@.kind(),
    {
        match self {
            Envelope::Users(_) => MsgTypes::Users,
            Envelope::Register(_) => MsgTypes::Register,
            Envelope::Message(_) => MsgTypes::Message,
        }
    }
}

impl EnvelopeV {
    pub open spec fn kind(self) -> MsgTypes {
        match self {
            EnvelopeV::Users(_) => MsgTypes::Users,
            EnvelopeV::Register(_) => MsgTypes::Register,
            EnvelopeV::Message(_) => MsgTypes::Message,
        }
    }
}

// ---------------------------------------------------------------------------
// The canonical wire form, at the specification level.
// ---------------------------------------------------------------------------

/// Hexadecimal digit for a value below 16, lowercase.
pub open spec fn hex_digit(v: int) -> char {
    if v == 0 { '0' } else if v == 1 { '1' } else if v == 2 { '2' } else if v == 3 { '3' }
    else if v == 4 { '4' } else if v == 5 { '5' } else if v == 6 { '6' } else if v == 7 { '7' }
    else if v == 8 { '8' } else if v == 9 { '9' } else if v == 10 { 'a' } else if v == 11 { 'b' }
    else if v == 12 { 'c' } else if v == 13 { 'd' } else if v == 14 { 'e' } else { 'f' }
}

/// Value of a lowercase hexadecimal digit, or -1.
pub open spec fn hex_val(c: char) -> int {
    if c == '0' { 0 } else if c == '1' { 1 } else if c == '2' { 2 } else if c == '3' { 3 }
    else if c == '4' { 4 } else if c == '5' { 5 } else if c == '6' { 6 } else if c == '7' { 7 }
    else if c == '8' { 8 } else if c == '9' { 9 } else if c == 'a' { 10 } else if c == 'b' { 11 }
    else if c == 'c' { 12 } else if c == 'd' { 13 } else if c == 'e' { 14 } else if c == 'f' { 15 }
    else { -1 }
}

/// The character a `\u00XX` escape with value `v` stands for.
pub open spec fn ctl_char(v: int) -> char {
    (v as u32) as char
}

/// How one character of a string payload appears on the wire.
pub open spec fn esc_char(c: char) -> Seq<char> {
    if c == '"' {
        seq!['\\', '"']
    } else if c == '\\' {
        seq!['\\', '\\']
    } else if (c as u32) < 32 {
        seq!['\\', 'u', '0', '0', hex_digit((c as u32) as int / 16), hex_digit((c as u32) as int % 16)]
    } else {
        seq![c]
    }
}

/// The body of a JSON string (between the quotes): each character escaped.
pub open spec fn enc_str(t: Seq<char>) -> Seq<char>
    decreases t.len(),
{
    if t.len() == 0 {
        Seq::empty()
    } else {
        esc_char(t[0]) + enc_str(t.skip(1))
    }
}

/// A JSON string, quotes included.
pub open spec fn enc_string(t: Seq<char>) -> Seq<char> {
    seq!['"'] + enc_str(t) + seq!['"']
}

/// The comma-separated items of a JSON array of strings (brackets excluded).
pub open spec fn enc_items(l: Seq<Seq<char>>) -> Seq<char>
    decreases l.len(),
{
    if l.len() == 0 {
        Seq::empty()
    } else if l.len() == 1 {
        enc_string(l[0])
    } else {
        enc_string(l[0]) + seq![','] + enc_items(l.skip(1))
    }
}

pub open spec fn users_pre() -> Seq<char> {
    "{\"messageType\":\"users\",\"dataArray\":["@
}

pub open spec fn register_pre() -> Seq<char> {
    "{\"messageType\":\"register\",\"data\":\""@
}

pub open spec fn message_pre() -> Seq<char> {
    "{\"messageType\":\"message\",\"data\":\""@
}

pub open spec fn from_pre() -> Seq<char> {
    "{\"from\":\""@
}

/// The canonical wire text of an envelope.
pub open spec fn enc_env(e: EnvelopeV) -> Seq<char> {
    match e {
        EnvelopeV::Users(l) => users_pre() + enc_items(l) + "]}"@,
        EnvelopeV::Register(t) => register_pre() + enc_str(t) + "\"}"@,
        EnvelopeV::Message(t) => message_pre() + enc_str(t) + "\"}"@,
    }
}

// ---------------------------------------------------------------------------
// Encoding, executable.
// ---------------------------------------------------------------------------

proof fn lemma_enc_str_push(t: Seq<char>, c: char)
    ensures
        enc_str(t.push(c)) == enc_str(t) + esc_char(c),
    decreases t.len(),
{
    let tp = t.push(c);
    if t.len() == 0 {
        assert(tp.len() == 1);
        assert(tp[0] == c);
        assert(tp.skip(1) =~= Seq::<char>::empty());
        assert(enc_str(tp) == esc_char(c) + enc_str(tp.skip(1)));
        assert(enc_str(tp.skip(1)) == Seq::<char>::empty());
        assert(enc_str(t) == Seq::<char>::empty());
        assert(enc_str(tp) =~= enc_str(t) + esc_char(c));
    } else {
        lemma_enc_str_push(t.skip(1), c);
        assert(tp.skip(1) =~= t.skip(1).push(c));
        assert(tp[0] == t[0]);
        assert(enc_str(tp) == esc_char(t[0]) + enc_str(tp.skip(1)));
        assert(enc_str(t) == esc_char(t[0]) + enc_str(t.skip(1)));
        assert(enc_str(tp) =~= enc_str(t) + esc_char(c));
    }
}

fn hex_digit_x(v: u32) -> (c: char)
    requires
        v < 16,
    ensures
        c == hex_digit(v as int),
{
    if v == 0 { '0' } else if v == 1 { '1' } else if v == 2 { '2' } else if v == 3 { '3' }
    else if v == 4 { '4' } else if v == 5 { '5' } else if v == 6 { '6' } else if v == 7 { '7' }
    else if v == 8 { '8' } else if v == 9 { '9' } else if v == 10 { 'a' } else if v == 11 { 'b' }
    else if v == 12 { 'c' } else if v == 13 { 'd' } else if v == 14 { 'e' } else { 'f' }
}

/// Appends the escaped body of `t` to `out`.
fn append_escaped(out: &mut String, t: &str)
    ensures
        final(out)@ == old(out)@ + enc_str(t@),
{
    let n = t.unicode_len();
    let mut i: usize = 0;
    while i < n
        invariant
            n == t@.len(),
            i <= n,
            out@ == old(out)@ + enc_str(t@.take(i as int)),
        decreases n - i,
    {
        let c = t.get_char(i);
        if c == '"' {
            push_char(out, '\\');
            push_char(out, '"');
        } else if c == '\\' {
            push_char(out, '\\');
            push_char(out, '\\');
        } else {
            let u = c as u32;
            if u < 32 {
                push_char(out, '\\');
                push_char(out, 'u');
                push_char(out, '0');
                push_char(out, '0');
                push_char(out, hex_digit_x(u / 16));
                push_char(out, hex_digit_x(u % 16));
            } else {
                push_char(out, c);
            }
        }
        proof {
            lemma_enc_str_push(t@.take(i as int), c);
            assert(t@.take(i + 1) =~= t@.take(i as int).push(c));
            assert(out@ =~= old(out)@ + enc_str(t@.take(i + 1)));
        }
        i = i + 1;
    }
    proof {
        assert(t@.take(n as int) =~= t@);
    }
}

/// Encodes an envelope into its canonical wire text.
pub fn encode(e: &Envelope) -> (r: String)
    ensures
        r@ == enc_env(e@),
{
    match e {
        Envelope::Users(l) => {
            let mut out = String::from_str("{\"messageType\":\"users\",\"dataArray\":[");
            proof {
                assert(out@ =~= users_pre() + enc_items(l@.map_values(|s: String| s@).take(0)));
            }
            let mut k: usize = 0;
            while k < l.len()
                invariant
                    k <= l@.len(),
                    out@ == users_pre() + enc_items(l@.map_values(|s: String| s@).take(k as int)),
                decreases l@.len() - k,
            {
                if k > 0 {
                    out.append(",");
                }
                out.append("\"");
                append_escaped(&mut out, l[k].as_str());
                out.append("\"");
                proof {
                    reveal_strlit(",");
                    reveal_strlit("\"");
                    let m = l@.map_values(|s: String| s@);
                    lemma_enc_items_snoc(m.take(k as int), m[k as int]);
                    assert(m.take(k + 1) =~= m.take(k as int).push(m[k as int]));
                    assert(out@ =~= users_pre() + enc_items(m.take(k + 1)));
                }
                k = k + 1;
            }
            out.append("]}");
            proof {
                let m = l@.map_values(|s: String| s@);
                assert(m.take(m.len() as int) =~= m);
            }
            out
        }
        Envelope::Register(t) => {
            let mut out = String::from_str("{\"messageType\":\"register\",\"data\":\"");
            append_escaped(&mut out, t.as_str());
            out.append("\"}");
            out
        }
        Envelope::Message(t) => {
            let mut out = String::from_str("{\"messageType\":\"message\",\"data\":\"");
            append_escaped(&mut out, t.as_str());
            out.append("\"}");
            out
        }
    }
}

// ---------------------------------------------------------------------------
// Decoding: the parser, at the specification level.
// ---------------------------------------------------------------------------

/// Parses the body of a JSON string from position `i` up to and including the
/// closing quote; yields the unescaped content and the position after the
/// quote.  Accepts exactly the escapes the encoder emits.
pub open spec fn parse_strbody(s: Seq<char>, i: int) -> Option<(Seq<char>, int)>
    decreases s.len() - i,
{
    if i < 0 || i >= s.len() {
        None
    } else if s[i] == '"' {
        Some((Seq::empty(), i + 1))
    } else if s[i] == '\\' {
        if i + 1 < s.len() && s[i + 1] == '"' {
            match parse_strbody(s, i + 2) {
                Some((t, j)) => Some((seq!['"'] + t, j)),
                None => None,
            }
        } else if i + 1 < s.len() && s[i + 1] == '\\' {
            match parse_strbody(s, i + 2) {
                Some((t, j)) => Some((seq!['\\'] + t, j)),
                None => None,
            }
        } else if i + 5 < s.len() && s[i + 1] == 'u' && s[i + 2] == '0' && s[i + 3] == '0'
            && hex_val(s[i + 4]) >= 0 && hex_val(s[i + 5]) >= 0
            && hex_val(s[i + 4]) * 16 + hex_val(s[i + 5]) < 32 {
            match parse_strbody(s, i + 6) {
                Some((t, j)) => Some((seq![ctl_char(hex_val(s[i + 4]) * 16 + hex_val(s[i + 5]))] + t, j)),
                None => None,
            }
        } else {
            None
        }
    } else if (s[i] as u32) < 32 {
        None
    } else {
        match parse_strbody(s, i + 1) {
            Some((t, j)) => Some((seq![s[i]] + t, j)),
            None => None,
        }
    }
}

/// A successful string parse always moves forward and stays in bounds.
proof fn lemma_strbody_bounds(s: Seq<char>, i: int)
    ensures
        parse_strbody(s, i) matches Some((t, j)) ==> i + 1 <= j <= s.len(),
    decreases s.len() - i,
{
    if 0 <= i < s.len() {
        if s[i] == '"' {
        } else if s[i] == '\\' {
            if i + 1 < s.len() && s[i + 1] == '"' {
                lemma_strbody_bounds(s, i + 2);
            } else if i + 1 < s.len() && s[i + 1] == '\\' {
                lemma_strbody_bounds(s, i + 2);
            } else if i + 5 < s.len() {
                lemma_strbody_bounds(s, i + 6);
            }
        } else {
            lemma_strbody_bounds(s, i + 1);
        }
    }
}

/// Parses the comma-separated items of a string array from position `i`
/// (just after the opening bracket) up to and including the closing bracket.
pub open spec fn parse_items(s: Seq<char>, i: int) -> Option<(Seq<Seq<char>>, int)>
    decreases s.len() - i,
        via parse_items_decreases
{
    if i < 0 || i >= s.len() {
        None
    } else if s[i] == ']' {
        Some((Seq::empty(), i + 1))
    } else if s[i] == '"' {
        match parse_strbody(s, i + 1) {
            Some((t, j)) => {
                if j < s.len() && s[j] == ',' {
                    if j + 1 < s.len() && s[j + 1] == '"' {
                        match parse_items(s, j + 1) {
                            Some((l, k)) => Some((seq![t] + l, k)),
                            None => None,
                        }
                    } else {
                        None
                    }
                } else if j < s.len() && s[j] == ']' {
                    Some((seq![t], j + 1))
                } else {
                    None
                }
            }
            None => None,
        }
    } else {
        None
    }
}

#[via_fn]
proof fn parse_items_decreases(s: Seq<char>, i: int) {
    lemma_strbody_bounds(s, i + 1);
}

/// The envelope a frame decodes to, if it is in the wire format.
pub open spec fn dec_env(s: Seq<char>) -> Option<EnvelopeV> {
    if s.len() >= 36 && s.subrange(0, 36) == users_pre() {
        match parse_items(s, 36) {
            Some((l, j)) => if j + 1 == s.len() && s[j] == '}' {
                Some(EnvelopeV::Users(l))
            } else {
                None
            },
            None => None,
        }
    } else if s.len() >= 34 && s.subrange(0, 34) == register_pre() {
        match parse_strbody(s, 34) {
            Some((t, j)) => if j + 1 == s.len() && s[j] == '}' {
                Some(EnvelopeV::Register(t))
            } else {
                None
            },
            None => None,
        }
    } else if s.len() >= 33 && s.subrange(0, 33) == message_pre() {
        match parse_strbody(s, 33) {
            Some((t, j)) => if j + 1 == s.len() && s[j] == '}' {
                Some(EnvelopeV::Message(t))
            } else {
                None
            },
            None => None,
        }
    } else {
        None
    }
}

pub open spec fn message_mid_tail() -> Seq<char> {
    ",\"message\":\""@
}

/// The chat message a `message` payload decodes to, if it is in the wire
/// format.
pub open spec fn dec_chat(s: Seq<char>) -> Option<ChatMessageV> {
    if s.len() >= 9 && s.subrange(0, 9) == from_pre() {
        match parse_strbody(s, 9) {
            Some((f, j)) => {
                if j + 12 <= s.len() && s.subrange(j, j + 12) == message_mid_tail() {
                    match parse_strbody(s, j + 12) {
                        Some((m, k)) => if k + 1 == s.len() && s[k] == '}' {
                            Some(ChatMessageV { from: f, message: m })
                        } else {
                            None
                        },
                        None => None,
                    }
                } else {
                    None
                }
            }
            None => None,
        }
    } else {
        None
    }
}

proof fn lemma_enc_items_snoc(l: Seq<Seq<char>>, t: Seq<char>)
    ensures
        enc_items(l.push(t)) == enc_items(l) + (if l.len() == 0 { Seq::<char>::empty() } else { seq![','] }) + enc_string(t),
    decreases l.len(),
{
    if l.len() == 0 {
        assert(l.push(t) =~= seq![t]);
        assert(enc_items(l.push(t)) =~= enc_items(l) + Seq::<char>::empty() + enc_string(t));
    } else {
        lemma_enc_items_snoc(l.skip(1), t);
        assert(l.push(t).skip(1) =~= l.skip(1).push(t));
        assert(l.push(t).len() == l.len() + 1);
        if l.len() == 1 {
            assert(l.skip(1).len() == 0);
            assert(enc_items(l.push(t)) =~= enc_items(l) + seq![','] + enc_string(t));
        } else {
            assert(enc_items(l.push(t)) =~= enc_items(l) + seq![','] + enc_string(t));
        }
    }
}

// ---------------------------------------------------------------------------
// The decoder inverts the encoder.
// ---------------------------------------------------------------------------

/// Splits knowledge about a subrange of `s` that equals a concatenation.
proof fn lemma_sub_split(s: Seq<char>, i: int, a: Seq<char>, b: Seq<char>)
    requires
        0 <= i,
        i + a.len() + b.len() <= s.len(),
        s.subrange(i, i + a.len() + b.len()) == a + b,
    ensures
        s.subrange(i, i + a.len()) == a,
        s.subrange(i + a.len(), i + a.len() + b.len()) == b,
{
    assert forall|q: int| 0 <= q < a.len() implies s[i + q] == a[q] by {
        assert(s.subrange(i, i + a.len() + b.len())[q] == s[i + q]);
        assert(s.subrange(i, i + a.len() + b.len())[q] == (a + b)[q]);
        assert((a + b)[q] == a[q]);
    }
    assert(s.subrange(i, i + a.len()) =~= a);
    assert forall|q: int| 0 <= q < b.len() implies s[i + a.len() + q] == b[q] by {
        assert(s.subrange(i, i + a.len() + b.len())[a.len() + q] == s[i + a.len() + q]);
        assert(s.subrange(i, i + a.len() + b.len())[a.len() + q] == (a + b)[a.len() + q]);
        assert((a + b)[a.len() + q] == b[q]);
    }
    assert(s.subrange(i + a.len(), i + a.len() + b.len()) =~= b);
}

/// One character of a subrange of `s` known to equal `full`.
proof fn lemma_at(s: Seq<char>, i: int, full: Seq<char>, k: int)
    requires
        0 <= i,
        0 <= k < full.len(),
        i + full.len() <= s.len(),
        s.subrange(i, i + full.len()) == full,
    ensures
        s[i + k] == full[k],
{
    assert(s.subrange(i, i + full.len())[k] == s[i + k]);
}

proof fn lemma_hex_round(x: int)
    requires
        0 <= x < 16,
    ensures
        hex_val(hex_digit(x)) == x,
{
}

/// Parsing the encoded body of `t`, followed by a closing quote, recovers `t`.
proof fn lemma_parse_enc_str(t: Seq<char>, s: Seq<char>, i: int)
    requires
        0 <= i,
        i + enc_str(t).len() + 1 <= s.len(),
        s.subrange(i, i + enc_str(t).len() + 1) == enc_str(t) + seq!['"'],
    ensures
        parse_strbody(s, i) == Some((t, i + enc_str(t).len() + 1)),
    decreases t.len(),
{
    let e = enc_str(t);
    let full = e + seq!['"'];
    if t.len() == 0 {
        lemma_at(s, i, full, 0);
        assert(s[i] == '"');
        assert(t =~= Seq::<char>::empty());
    } else {
        let c = t[0];
        let e0 = esc_char(c);
        let rest = enc_str(t.skip(1));
        assert(e == e0 + rest);
        let i2 = i + e0.len();
        lemma_at(s, i, full, 0);
        lemma_at(s, i, full, 1);
        assert forall|q: int| 0 <= q < rest.len() + 1 implies
            s.subrange(i2, i2 + rest.len() + 1)[q] == (rest + seq!['"'])[q] by {
            assert(s.subrange(i2, i2 + rest.len() + 1)[q] == s[i2 + q]);
            lemma_at(s, i, full, e0.len() + q);
            assert(full[e0.len() + q] == (rest + seq!['"'])[q]);
        }
        assert(s.subrange(i2, i2 + rest.len() + 1) =~= rest + seq!['"']);
        lemma_parse_enc_str(t.skip(1), s, i2);
        if c == '"' {
            assert(s[i] == '\\');
            assert(s[i + 1] == '"');
            assert(seq![c] + t.skip(1) =~= t);
        } else if c == '\\' {
            assert(s[i] == '\\');
            assert(s[i + 1] == '\\');
            assert(seq![c] + t.skip(1) =~= t);
        } else if (c as u32) < 32 {
            let val = (c as u32) as int;
            lemma_at(s, i, full, 2);
            lemma_at(s, i, full, 3);
            lemma_at(s, i, full, 4);
            lemma_at(s, i, full, 5);
            assert(s[i] == '\\');
            assert(s[i + 1] == 'u');
            assert(s[i + 2] == '0');
            assert(s[i + 3] == '0');
            assert(s[i + 4] == hex_digit(val / 16));
            assert(s[i + 5] == hex_digit(val % 16));
            lemma_hex_round(val / 16);
            lemma_hex_round(val % 16);
            vstd::arithmetic::div_mod::lemma_fundamental_div_mod(val, 16);
            assert(hex_val(s[i + 4]) * 16 + hex_val(s[i + 5]) == val);
            assert(ctl_char(val) == c) by {
                assert(val as u32 == c as u32);
                vstd::utf8::char_u32_cast(c, val as u32);
            }
            assert(seq![c] + t.skip(1) =~= t);
        } else {
            assert(s[i] == c);
            assert(seq![c] + t.skip(1) =~= t);
        }
    }
}

/// Parsing the encoded items of `l`, followed by a closing bracket, recovers `l`.
proof fn lemma_parse_enc_items(l: Seq<Seq<char>>, s: Seq<char>, i: int)
    requires
        0 <= i,
        i + enc_items(l).len() + 1 <= s.len(),
        s.subrange(i, i + enc_items(l).len() + 1) == enc_items(l) + seq![']'],
    ensures
        parse_items(s, i) == Some((l, i + enc_items(l).len() + 1)),
    decreases l.len(),
{
    let e = enc_items(l);
    let full = e + seq![']'];
    if l.len() == 0 {
        lemma_at(s, i, full, 0);
        assert(s[i] == ']');
        assert(l =~= Seq::<Seq<char>>::empty());
    } else {
        let t0 = l[0];
        let es = enc_str(t0);
        assert(enc_string(t0) == seq!['"'] + es + seq!['"']);
        if l.len() == 1 {
            assert(e == enc_string(t0));
        } else {
            assert(e == enc_string(t0) + seq![','] + enc_items(l.skip(1)));
        }
        lemma_at(s, i, full, 0);
        assert(s[i] == '"');
        // The body of the first item, with its closing quote, starts at i + 1.
        assert forall|q: int| 0 <= q < es.len() + 1 implies
            s.subrange(i + 1, i + 1 + es.len() + 1)[q] == (es + seq!['"'])[q] by {
            assert(s.subrange(i + 1, i + 1 + es.len() + 1)[q] == s[i + 1 + q]);
            lemma_at(s, i, full, 1 + q);
            assert(full[1 + q] == (es + seq!['"'])[q]);
        }
        assert(s.subrange(i + 1, i + 1 + es.len() + 1) =~= es + seq!['"']);
        lemma_parse_enc_str(t0, s, i + 1);
        let j = i + 1 + es.len() + 1;
        if l.len() == 1 {
            lemma_at(s, i, full, e.len() as int);
            assert(s[j] == ']');
            assert(seq![t0] =~= l);
        } else {
            let er = enc_items(l.skip(1));
            lemma_at(s, i, full, enc_string(t0).len() as int);
            assert(s[j] == ',');
            assert(er.len() > 0 && er[0] == '"') by {
                assert(l.skip(1).len() > 0);
                assert(er == enc_string(l.skip(1)[0])
                    + (if l.skip(1).len() == 1 { Seq::<char>::empty() }
                       else { seq![','] + enc_items(l.skip(1).skip(1)) }));
                assert(enc_string(l.skip(1)[0])[0] == '"');
            }
            lemma_at(s, i, full, enc_string(t0).len() as int + 1);
            assert(s[j + 1] == '"');
            assert forall|q: int| 0 <= q < er.len() + 1 implies
                s.subrange(j + 1, j + 1 + er.len() + 1)[q] == (er + seq![']'])[q] by {
                assert(s.subrange(j + 1, j + 1 + er.len() + 1)[q] == s[j + 1 + q]);
                lemma_at(s, i, full, enc_string(t0).len() + 1 + q);
                assert(full[enc_string(t0).len() + 1 + q] == (er + seq![']'])[q]);
            }
            assert(s.subrange(j + 1, j + 1 + er.len() + 1) =~= er + seq![']']);
            lemma_parse_enc_items(l.skip(1), s, j + 1);
            assert(seq![t0] + l.skip(1) =~= l);
        }
    }
}

/// Round trip: decoding the canonical wire text of any envelope yields that
/// envelope back.  Together with the contracts of [`encode`] and [`decode`],
/// this says `decode(encode(e)) == Ok(e)` for every envelope `e`.
pub proof fn lemma_decode_encode(e: EnvelopeV)
    ensures
        dec_env(enc_env(e)) == Some(e),
{
    reveal_strlit("{\"messageType\":\"users\",\"dataArray\":[");
    reveal_strlit("{\"messageType\":\"register\",\"data\":\"");
    reveal_strlit("{\"messageType\":\"message\",\"data\":\"");
    reveal_strlit("]}");
    reveal_strlit("\"}");
    let s = enc_env(e);
    match e {
        EnvelopeV::Users(l) => {
            let n = enc_items(l).len() as int;
            assert(s.len() == 36 + n + 2);
            assert(s.subrange(0, s.len() as int) =~= s);
            lemma_sub_split(s, 0, users_pre() + enc_items(l), "]}"@);
            lemma_sub_split(s, 0, users_pre(), enc_items(l));
            assert forall|q: int| 0 <= q < n + 1 implies
                s.subrange(36, 36 + n + 1)[q] == (enc_items(l) + seq![']'])[q] by {
                if q < n {
                    assert(s.subrange(36, 36 + n)[q] == enc_items(l)[q]);
                } else {
                    assert(s.subrange(36 + n, 36 + n + 2)[0] == ']');
                }
            }
            assert(s.subrange(36, 36 + n + 1) =~= enc_items(l) + seq![']']);
            lemma_parse_enc_items(l, s, 36);
            assert(s[36 + n + 1] == '}') by {
                assert(s.subrange(36 + n, 36 + n + 2)[1] == '}');
            }
        }
        EnvelopeV::Register(t) => {
            let m = enc_str(t).len() as int;
            assert(s.len() == 34 + m + 2);
            assert(s.subrange(0, s.len() as int) =~= s);
            lemma_sub_split(s, 0, register_pre() + enc_str(t), "\"}"@);
            lemma_sub_split(s, 0, register_pre(), enc_str(t));
            assert(s.subrange(0, 36) != users_pre()) by {
                assert(s[16] == 'r') by {
                    assert(s.subrange(0, 34)[16] == register_pre()[16]);
                }
                assert(users_pre()[16] == 'u');
                assert(s.subrange(0, 36)[16] == s[16]);
            }
            assert forall|q: int| 0 <= q < m + 1 implies
                s.subrange(34, 34 + m + 1)[q] == (enc_str(t) + seq!['"'])[q] by {
                if q < m {
                    assert(s.subrange(34, 34 + m)[q] == enc_str(t)[q]);
                } else {
                    assert(s.subrange(34 + m, 34 + m + 2)[0] == '"');
                }
            }
            assert(s.subrange(34, 34 + m + 1) =~= enc_str(t) + seq!['"']);
            lemma_parse_enc_str(t, s, 34);
            assert(s[34 + m + 1] == '}') by {
                assert(s.subrange(34 + m, 34 + m + 2)[1] == '}');
            }
        }
        EnvelopeV::Message(t) => {
            let m = enc_str(t).len() as int;
            assert(s.len() == 33 + m + 2);
            assert(s.subrange(0, s.len() as int) =~= s);
            lemma_sub_split(s, 0, message_pre() + enc_str(t), "\"}"@);
            lemma_sub_split(s, 0, message_pre(), enc_str(t));
            if s.len() >= 36 {
                assert(s.subrange(0, 36) != users_pre()) by {
                    assert(s[16] == 'm') by {
                        assert(s.subrange(0, 33)[16] == message_pre()[16]);
                    }
                    assert(users_pre()[16] == 'u');
                    assert(s.subrange(0, 36)[16] == s[16]);
                }
            }
            assert(s.subrange(0, 34) != register_pre()) by {
                assert(s[16] == 'm') by {
                    assert(s.subrange(0, 33)[16] == message_pre()[16]);
                }
                assert(register_pre()[16] == 'r');
                assert(s.subrange(0, 34)[16] == s[16]);
            }
            assert forall|q: int| 0 <= q < m + 1 implies
                s.subrange(33, 33 + m + 1)[q] == (enc_str(t) + seq!['"'])[q] by {
                if q < m {
                    assert(s.subrange(33, 33 + m)[q] == enc_str(t)[q]);
                } else {
                    assert(s.subrange(33 + m, 33 + m + 2)[0] == '"');
                }
            }
            assert(s.subrange(33, 33 + m + 1) =~= enc_str(t) + seq!['"']);
            lemma_parse_enc_str(t, s, 33);
            assert(s[33 + m + 1] == '}') by {
                assert(s.subrange(33 + m, 33 + m + 2)[1] == '}');
            }
        }
    }
}

proof fn lemma_hex_inverse(c: char)
    requires
        hex_val(c) >= 0,
    ensures
        hex_digit(hex_val(c)) == c,
{
}

proof fn lemma_items_bounds(s: Seq<char>, i: int)
    ensures
        parse_items(s, i) matches Some((l, j)) ==> i + 1 <= j <= s.len(),
    decreases s.len() - i,
{
    if 0 <= i < s.len() {
        if s[i] == '"' {
            lemma_strbody_bounds(s, i + 1);
            match parse_strbody(s, i + 1) {
                Some((t, j0)) => {
                    if j0 < s.len() && s[j0] == ',' && j0 + 1 < s.len() && s[j0 + 1] == '"' {
                        lemma_items_bounds(s, j0 + 1);
                    }
                }
                None => {}
            }
        }
    }
}

/// A successful string parse consumed exactly the canonical encoding of its
/// result, closing quote included.
proof fn lemma_strbody_sound(s: Seq<char>, i: int)
    requires
        0 <= i,
    ensures
        parse_strbody(s, i) matches Some((t, j)) ==> {
            &&& j == i + enc_str(t).len() + 1
            &&& s.subrange(i, j) == enc_str(t) + seq!['"']
        },
    decreases s.len() - i,
{
    if i >= s.len() {
        return ;
    }
    if s[i] == '"' {
        match parse_strbody(s, i) {
            Some((t, j)) => {
                assert(t =~= Seq::<char>::empty());
                assert(s.subrange(i, i + 1) =~= enc_str(t) + seq!['"']);
            }
            None => {}
        }
    } else if s[i] == '\\' {
        if i + 1 < s.len() && (s[i + 1] == '"' || s[i + 1] == '\\') {
            lemma_strbody_sound(s, i + 2);
            lemma_strbody_bounds(s, i + 2);
            match parse_strbody(s, i + 2) { None => {} Some((t2, j)) => {
                let c = s[i + 1];
                let t = seq![c] + t2;
                assert(t[0] == c);
                assert(t.skip(1) =~= t2);
                assert(esc_char(c) == seq!['\\', c]);
                assert(enc_str(t) == esc_char(c) + enc_str(t2));
                assert forall|q: int| 0 <= q < j - i implies
                    s.subrange(i, j)[q] == (enc_str(t) + seq!['"'])[q] by {
                    assert(s.subrange(i, j)[q] == s[i + q]);
                    if q >= 2 {
                        assert(s.subrange(i + 2, j)[q - 2] == s[i + (q - 2) + 2]);
                        assert(s.subrange(i + 2, j)[q - 2] == (enc_str(t2) + seq!['"'])[q - 2]);
                    }
                }
                assert(s.subrange(i, j) =~= enc_str(t) + seq!['"']);
            } }
        } else if i + 5 < s.len() && s[i + 1] == 'u' && s[i + 2] == '0' && s[i + 3] == '0'
            && hex_val(s[i + 4]) >= 0 && hex_val(s[i + 5]) >= 0
            && hex_val(s[i + 4]) * 16 + hex_val(s[i + 5]) < 32 {
            lemma_strbody_sound(s, i + 6);
            lemma_strbody_bounds(s, i + 6);
            match parse_strbody(s, i + 6) { None => {} Some((t2, j)) => {
                let v = hex_val(s[i + 4]) * 16 + hex_val(s[i + 5]);
                let c = ctl_char(v);
                assert(c as u32 == v);
                let t = seq![c] + t2;
                assert(t[0] == c);
                assert(t.skip(1) =~= t2);
                assert(c != '"' && c != '\\') by {
                    assert('"' as u32 == 34);
                    assert('\\' as u32 == 92);
                }
                vstd::arithmetic::div_mod::lemma_fundamental_div_mod(v, 16);
                assert(hex_val(s[i + 4]) == v / 16 && hex_val(s[i + 5]) == v % 16);
                lemma_hex_inverse(s[i + 4]);
                lemma_hex_inverse(s[i + 5]);
                assert(esc_char(c) == seq!['\\', 'u', '0', '0', s[i + 4], s[i + 5]]);
                assert(enc_str(t) == esc_char(c) + enc_str(t2));
                assert forall|q: int| 0 <= q < j - i implies
                    s.subrange(i, j)[q] == (enc_str(t) + seq!['"'])[q] by {
                    assert(s.subrange(i, j)[q] == s[i + q]);
                    if q >= 6 {
                        assert(s.subrange(i + 6, j)[q - 6] == s[i + (q - 6) + 6]);
                        assert(s.subrange(i + 6, j)[q - 6] == (enc_str(t2) + seq!['"'])[q - 6]);
                    }
                }
                assert(s.subrange(i, j) =~= enc_str(t) + seq!['"']);
            } }
        }
    } else if (s[i] as u32) < 32 {
    } else {
        lemma_strbody_sound(s, i + 1);
        lemma_strbody_bounds(s, i + 1);
        match parse_strbody(s, i + 1) { None => {} Some((t2, j)) => {
            let c = s[i];
            let t = seq![c] + t2;
            assert(t[0] == c);
            assert(t.skip(1) =~= t2);
            assert(esc_char(c) == seq![c]);
            assert(enc_str(t) == esc_char(c) + enc_str(t2));
            assert forall|q: int| 0 <= q < j - i implies
                s.subrange(i, j)[q] == (enc_str(t) + seq!['"'])[q] by {
                assert(s.subrange(i, j)[q] == s[i + q]);
                if q >= 1 {
                    assert(s.subrange(i + 1, j)[q - 1] == s[i + (q - 1) + 1]);
                    assert(s.subrange(i + 1, j)[q - 1] == (enc_str(t2) + seq!['"'])[q - 1]);
                }
            }
            assert(s.subrange(i, j) =~= enc_str(t) + seq!['"']);
        } }
    }
}

/// A successful items parse consumed exactly the canonical encoding of its
/// result, closing bracket included.
proof fn lemma_items_sound(s: Seq<char>, i: int)
    requires
        0 <= i,
    ensures
        parse_items(s, i) matches Some((l, j)) ==> {
            &&& j == i + enc_items(l).len() + 1
            &&& s.subrange(i, j) == enc_items(l) + seq![']']
        },
    decreases s.len() - i,
{
    if i >= s.len() {
        return ;
    }
    if s[i] == ']' {
        match parse_items(s, i) {
            Some((l, j)) => {
                assert(l =~= Seq::<Seq<char>>::empty());
                assert(s.subrange(i, i + 1) =~= enc_items(l) + seq![']']);
            }
            None => {}
        }
    } else if s[i] == '"' {
        lemma_strbody_sound(s, i + 1);
        lemma_strbody_bounds(s, i + 1);
        match parse_strbody(s, i + 1) { None => {} Some((t, j0)) => {
            assert(s.subrange(i + 1, j0) == enc_str(t) + seq!['"']);
            if j0 < s.len() && s[j0] == ',' && j0 + 1 < s.len() && s[j0 + 1] == '"' {
                lemma_items_sound(s, j0 + 1);
                lemma_items_bounds(s, j0 + 1);
                match parse_items(s, j0 + 1) { None => {} Some((l2, j)) => {
                    assert(l2.len() >= 1);
                    let l = seq![t] + l2;
                    assert(l[0] == t);
                    assert(l.skip(1) =~= l2);
                    assert(l.len() >= 2);
                    assert(enc_items(l) == enc_string(t) + seq![','] + enc_items(l2));
                    assert(enc_string(t) == seq!['"'] + enc_str(t) + seq!['"']);
                    assert forall|q: int| 0 <= q < j - i implies
                        s.subrange(i, j)[q] == (enc_items(l) + seq![']'])[q] by {
                        assert(s.subrange(i, j)[q] == s[i + q]);
                        if 1 <= q < j0 - i {
                            assert(s.subrange(i + 1, j0)[q - 1] == s[i + (q - 1) + 1]);
                            assert(s.subrange(i + 1, j0)[q - 1] == (enc_str(t) + seq!['"'])[q - 1]);
                        } else if q >= j0 + 1 - i {
                            assert(s.subrange(j0 + 1, j)[q - (j0 + 1 - i)]
                                == s[(j0 + 1) + (q - (j0 + 1 - i))]);
                            assert(s.subrange(j0 + 1, j)[q - (j0 + 1 - i)]
                                == (enc_items(l2) + seq![']'])[q - (j0 + 1 - i)]);
                        }
                    }
                    assert(s.subrange(i, j) =~= enc_items(l) + seq![']']);
                } }
            } else if j0 < s.len() && s[j0] == ']' {
                let l = seq![t];
                assert(l[0] == t);
                assert(enc_items(l) == enc_string(t));
                assert(enc_string(t) == seq!['"'] + enc_str(t) + seq!['"']);
                let j = j0 + 1;
                assert forall|q: int| 0 <= q < j - i implies
                    s.subrange(i, j)[q] == (enc_items(l) + seq![']'])[q] by {
                    assert(s.subrange(i, j)[q] == s[i + q]);
                    if 1 <= q < j0 - i {
                        assert(s.subrange(i + 1, j0)[q - 1] == s[i + (q - 1) + 1]);
                        assert(s.subrange(i + 1, j0)[q - 1] == (enc_str(t) + seq!['"'])[q - 1]);
                    }
                }
                assert(s.subrange(i, j) =~= enc_items(l) + seq![']']);
            }
        } }
    }
}

/// Converse of [`lemma_decode_encode`]: a frame that decodes at all is the
/// canonical wire text of the envelope it decodes to.  Together the two say
/// that decoding succeeds exactly on the encoder's output, and that encode
/// and decode are mutually inverse there.
pub proof fn lemma_decode_sound(s: Seq<char>)
    ensures
        dec_env(s) matches Some(e) ==> s == enc_env(e),
{
    reveal_strlit("]}");
    reveal_strlit("\"}");
    if s.len() >= 36 && s.subrange(0, 36) == users_pre() {
        lemma_items_sound(s, 36);
        match parse_items(s, 36) { None => {} Some((l, j)) => {
            if j + 1 == s.len() && s[j] == '}' {
                assert(s.subrange(36, j) == enc_items(l) + seq![']']);
                assert forall|q: int| 0 <= q < s.len() implies
                    s[q] == (users_pre() + enc_items(l) + "]}"@)[q] by {
                    if q < 36 {
                        assert(s.subrange(0, 36)[q] == s[q]);
                    } else if q < j {
                        assert(s.subrange(36, j)[q - 36] == s[36 + (q - 36)]);
                        assert(s.subrange(36, j)[q - 36] == (enc_items(l) + seq![']'])[q - 36]);
                    }
                }
                assert(s =~= users_pre() + enc_items(l) + "]}"@);
            }
        } }
    } else if s.len() >= 34 && s.subrange(0, 34) == register_pre() {
        lemma_strbody_sound(s, 34);
        match parse_strbody(s, 34) { None => {} Some((t, j)) => {
            if j + 1 == s.len() && s[j] == '}' {
                assert(s.subrange(34, j) == enc_str(t) + seq!['"']);
                assert forall|q: int| 0 <= q < s.len() implies
                    s[q] == (register_pre() + enc_str(t) + "\"}"@)[q] by {
                    if q < 34 {
                        assert(s.subrange(0, 34)[q] == s[q]);
                    } else if q < j {
                        assert(s.subrange(34, j)[q - 34] == s[34 + (q - 34)]);
                        assert(s.subrange(34, j)[q - 34] == (enc_str(t) + seq!['"'])[q - 34]);
                    }
                }
                assert(s =~= register_pre() + enc_str(t) + "\"}"@);
            }
        } }
    } else if s.len() >= 33 && s.subrange(0, 33) == message_pre() {
        lemma_strbody_sound(s, 33);
        match parse_strbody(s, 33) { None => {} Some((t, j)) => {
            if j + 1 == s.len() && s[j] == '}' {
                assert(s.subrange(33, j) == enc_str(t) + seq!['"']);
                assert forall|q: int| 0 <= q < s.len() implies
                    s[q] == (message_pre() + enc_str(t) + "\"}"@)[q] by {
                    if q < 33 {
                        assert(s.subrange(0, 33)[q] == s[q]);
                    } else if q < j {
                        assert(s.subrange(33, j)[q - 33] == s[33 + (q - 33)]);
                        assert(s.subrange(33, j)[q - 33] == (enc_str(t) + seq!['"'])[q - 33]);
                    }
                }
                assert(s =~= message_pre() + enc_str(t) + "\"}"@);
            }
        } }
    }
}

// ---------------------------------------------------------------------------
// Decoding, executable.
// ---------------------------------------------------------------------------

fn hex_val_x(c: char) -> (r: i32)
    ensures
        r as int == hex_val(c),
{
    if c == '0' { 0 } else if c == '1' { 1 } else if c == '2' { 2 } else if c == '3' { 3 }
    else if c == '4' { 4 } else if c == '5' { 5 } else if c == '6' { 6 } else if c == '7' { 7 }
    else if c == '8' { 8 } else if c == '9' { 9 } else if c == 'a' { 10 } else if c == 'b' { 11 }
    else if c == 'c' { 12 } else if c == 'd' { 13 } else if c == 'e' { 14 } else if c == 'f' { 15 }
    else { -1 }
}

fn parse_strbody_x(v: &Vec<char>, i: usize) -> (r: Option<(Vec<char>, usize)>)
    ensures
        match r {
            Some(p) => parse_strbody(v@, i as int) == Some((p.0@, p.1 as int)),
            None => parse_strbody(v@, i as int) is None,
        },
    decreases v@.len() - i,
{
    if i >= v.len() {
        return None;
    }
    let c = v[i];
    if c == '"' {
        let t: Vec<char> = Vec::new();
        proof {
            assert(t@ =~= Seq::<char>::empty());
        }
        return Some((t, i + 1));
    }
    if c == '\\' {
        if i + 1 < v.len() && v[i + 1] == '"' {
            match parse_strbody_x(v, i + 2) {
                Some((mut t, j)) => {
                    let ghost tv = t@;
                    t.insert(0, '"');
                    proof {
                        assert(t@ =~= seq!['"'] + tv);
                    }
                    return Some((t, j));
                }
                None => {
                    return None;
                }
            }
        } else if i + 1 < v.len() && v[i + 1] == '\\' {
            match parse_strbody_x(v, i + 2) {
                Some((mut t, j)) => {
                    let ghost tv = t@;
                    t.insert(0, '\\');
                    proof {
                        assert(t@ =~= seq!['\\'] + tv);
                    }
                    return Some((t, j));
                }
                None => {
                    return None;
                }
            }
        } else if v.len() - i > 5 && v[i + 1] == 'u' && v[i + 2] == '0' && v[i + 3] == '0' {
            let h1 = hex_val_x(v[i + 4]);
            let h2 = hex_val_x(v[i + 5]);
            if h1 >= 0 && h2 >= 0 && h1 * 16 + h2 < 32 {
                let code: u8 = (h1 * 16 + h2) as u8;
                let ch: char = code as char;
                proof {
                    assert(ch == ctl_char(hex_val(v@[i + 4]) * 16 + hex_val(v@[i + 5])));
                }
                match parse_strbody_x(v, i + 6) {
                    Some((mut t, j)) => {
                        let ghost tv = t@;
                        t.insert(0, ch);
                        proof {
                            assert(t@ =~= seq![ch] + tv);
                        }
                        return Some((t, j));
                    }
                    None => {
                        return None;
                    }
                }
            } else {
                return None;
            }
        } else {
            return None;
        }
    }
    if (c as u32) < 32 {
        return None;
    }
    match parse_strbody_x(v, i + 1) {
        Some((mut t, j)) => {
            let ghost tv = t@;
            t.insert(0, c);
            proof {
                assert(t@ =~= seq![c] + tv);
            }
            Some((t, j))
        }
        None => None,
    }
}

fn parse_items_x(v: &Vec<char>, i: usize) -> (r: Option<(Vec<String>, usize)>)
    ensures
        match r {
            Some(p) => parse_items(v@, i as int) == Some((p.0@.map_values(|s: String| s@), p.1 as int)),
            None => parse_items(v@, i as int) is None,
        },
    decreases v@.len() - i,
{
    if i >= v.len() {
        return None;
    }
    if v[i] == ']' {
        let l: Vec<String> = Vec::new();
        proof {
            assert(l@.map_values(|s: String| s@) =~= Seq::<Seq<char>>::empty());
        }
        return Some((l, i + 1));
    }
    if v[i] != '"' {
        return None;
    }
    match parse_strbody_x(v, i + 1) {
        None => None,
        Some((t, j)) => {
            proof {
                lemma_strbody_bounds(v@, i + 1);
            }
            if j < v.len() && v[j] == ',' {
                if j + 1 < v.len() && v[j + 1] == '"' {
                    match parse_items_x(v, j + 1) {
                        None => None,
                        Some((mut l, k)) => {
                            let s0 = crate::strutil::string_of(&t);
                            let ghost lv = l@;
                            l.insert(0, s0);
                            proof {
                                assert(l@.map_values(|s: String| s@)
                                    =~= seq![t@] + lv.map_values(|s: String| s@));
                            }
                            Some((l, k))
                        }
                    }
                } else {
                    None
                }
            } else if j < v.len() && v[j] == ']' {
                let mut l: Vec<String> = Vec::new();
                l.push(crate::strutil::string_of(&t));
                proof {
                    assert(l@.map_values(|s: String| s@) =~= seq![t@]);
                }
                Some((l, j + 1))
            } else {
                None
            }
        }
    }
}

/// Decodes a frame of wire text; a frame not in the wire format is a
/// `DecodeError`, which the caller drops rather than aborting the stream.
pub fn decode(s: &str) -> (r: Result<Envelope, DecodeError>)
    ensures
        match r {
            Ok(e) => dec_env(s@) == Some(e@),
            Err(_) => dec_env(s@) is None,
        },
{
    let v = crate::strutil::chars_of(s);
    proof {
        reveal_strlit("{\"messageType\":\"users\",\"dataArray\":[");
        reveal_strlit("{\"messageType\":\"register\",\"data\":\"");
        reveal_strlit("{\"messageType\":\"message\",\"data\":\"");
        assert(users_pre().len() == 36);
        assert(register_pre().len() == 34);
        assert(message_pre().len() == 33);
    }
    if has_prefix(&v, "{\"messageType\":\"users\",\"dataArray\":[") {
        match parse_items_x(&v, 36) {
            Some((l, j)) => {
                if j < v.len() && v[j] == '}' && j + 1 == v.len() {
                    Ok(Envelope::Users(l))
                } else {
                    Err(DecodeError)
                }
            }
            None => Err(DecodeError),
        }
    } else if has_prefix(&v, "{\"messageType\":\"register\",\"data\":\"") {
        match parse_strbody_x(&v, 34) {
            Some((t, j)) => {
                if j < v.len() && v[j] == '}' && j + 1 == v.len() {
                    Ok(Envelope::Register(crate::strutil::string_of(&t)))
                } else {
                    Err(DecodeError)
                }
            }
            None => Err(DecodeError),
        }
    } else if has_prefix(&v, "{\"messageType\":\"message\",\"data\":\"") {
        match parse_strbody_x(&v, 33) {
            Some((t, j)) => {
                if j < v.len() && v[j] == '}' && j + 1 == v.len() {
                    Ok(Envelope::Message(crate::strutil::string_of(&t)))
                } else {
                    Err(DecodeError)
                }
            }
            None => Err(DecodeError),
        }
    } else {
        Err(DecodeError)
    }
}

/// Decodes the nested payload of a `message` envelope.
pub fn decode_chat_message(s: &str) -> (r: Result<ChatMessage, DecodeError>)
    ensures
        match r {
            Ok(m) => dec_chat(s@) == Some(m@),
            Err(_) => dec_chat(s@) is None,
        },
{
    let v = crate::strutil::chars_of(s);
    proof {
        reveal_strlit("{\"from\":\"");
        reveal_strlit(",\"message\":\"");
        assert(from_pre().len() == 9);
        assert(message_mid_tail().len() == 12);
    }
    if !has_prefix(&v, "{\"from\":\"") {
        return Err(DecodeError);
    }
    match parse_strbody_x(&v, 9) {
        None => Err(DecodeError),
        Some((f, j)) => {
            proof {
                lemma_strbody_bounds(v@, 9);
            }
            if has_prefix_at(&v, j, ",\"message\":\"") {
                match parse_strbody_x(&v, j + 12) {
                    None => Err(DecodeError),
                    Some((m, k)) => {
                        if k < v.len() && v[k] == '}' && k + 1 == v.len() {
                            Ok(ChatMessage {
                                from: crate::strutil::string_of(&f),
                                message: crate::strutil::string_of(&m),
                            })
                        } else {
                            Err(DecodeError)
                        }
                    }
                }
            } else {
                Err(DecodeError)
            }
        }
    }
}

fn has_prefix(v: &Vec<char>, p: &str) -> (r: bool)
    ensures
        r == (p@.len() <= v@.len() && v@.subrange(0, p@.len() as int) == p@),
{
    has_prefix_at(v, 0, p)
}

fn has_prefix_at(v: &Vec<char>, at: usize, p: &str) -> (r: bool)
    ensures
        r == (at + p@.len() <= v@.len()
            && v@.subrange(at as int, at + p@.len()) == p@),
{
    let n = p.unicode_len();
    if n > v.len() || at > v.len() - n {
        return false;
    }
    let mut k: usize = 0;
    while k < n
        invariant
            n == p@.len(),
            at + n <= v@.len(),
            at + n <= usize::MAX,
            k <= n,
            forall|m: int| 0 <= m < k ==> v@[at + m] == p@[m],
        decreases n - k,
    {
        if v[at + k] != p.get_char(k) {
            proof {
                assert(v@.subrange(at as int, at + p@.len())[k as int] != p@[k as int]);
            }
            return false;
        }
        k = k + 1;
    }
    proof {
        assert(v@.subrange(at as int, at + p@.len()) =~= p@);
    }
    true
}

} // verus!
