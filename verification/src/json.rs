//! The voices file format: a pretty-printed JSON array of objects with
//! exactly the four string fields `id`, `name`, `voice_id` and `created_at`.
//! The parser accepts the four members in any order (each exactly once), any
//! whitespace between tokens, and the standard string escapes `\"  \\  \/
//! \n  \r  \t  \b  \f` and `\uXXXX` (with surrogate pairs). The encoder
//! escapes `"`, `\`, the short-escape control characters, and every other
//! control character as `\u00XX`. Parsing an encoded document gives the
//! collection back exactly (`lemma_voices_round_trip`).

use vstd::prelude::*;
use crate::errors::StoreError;
use crate::text::{char_from_u32, chars_string, str_chars};
use crate::voice::Voice;

verus! {

// ------------------------------------------------------------------
// The ghost view of a record, and of a collection
// ------------------------------------------------------------------

/// The four fields of a voice record, as character sequences.
#[verifier::ext_equal]
pub ghost struct VoiceView {
    pub id: Seq<char>,
    pub name: Seq<char>,
    pub voice_id: Seq<char>,
    pub created_at: Seq<char>,
}

pub open spec fn voice_view(v: Voice) -> VoiceView {
    VoiceView { id: v.id@, name: v.name@, voice_id: v.voice_id@, created_at: v.created_at@ }
}

pub open spec fn voice_views(s: Seq<Voice>) -> Seq<VoiceView> {
    s.map_values(|v: Voice| voice_view(v))
}

// ------------------------------------------------------------------
// The document text the encoder produces
// ------------------------------------------------------------------

pub open spec fn is_hex(c: char) -> bool {
    (48 <= c as int && c as int <= 57) || (97 <= c as int && c as int <= 102) || (65 <= c as int
        && c as int <= 70)
}

/// The value of one hexadecimal digit (either case).
pub open spec fn hex_val(c: char) -> int {
    if 48 <= c as int && c as int <= 57 {
        c as int - 48
    } else if 97 <= c as int && c as int <= 102 {
        c as int - 87
    } else {
        c as int - 55
    }
}

/// The lowercase hexadecimal digit for `d`.
pub open spec fn hex_digit(d: int) -> char {
    if d == 0 {
        '0'
    } else if d == 1 {
        '1'
    } else if d == 2 {
        '2'
    } else if d == 3 {
        '3'
    } else if d == 4 {
        '4'
    } else if d == 5 {
        '5'
    } else if d == 6 {
        '6'
    } else if d == 7 {
        '7'
    } else if d == 8 {
        '8'
    } else if d == 9 {
        '9'
    } else if d == 10 {
        'a'
    } else if d == 11 {
        'b'
    } else if d == 12 {
        'c'
    } else if d == 13 {
        'd'
    } else if d == 14 {
        'e'
    } else {
        'f'
    }
}

proof fn lemma_hex_digit(d: int)
    requires
        0 <= d < 16,
    ensures
        is_hex(hex_digit(d)),
        hex_val(hex_digit(d)) == d,
{
}

/// The escaped form of one character inside a JSON string literal.
pub open spec fn escape_char(c: char) -> Seq<char> {
    if c == '"' {
        seq!['\\', '"']
    } else if c == '\\' {
        seq!['\\', '\\']
    } else if c == '\n' {
        seq!['\\', 'n']
    } else if c == '\r' {
        seq!['\\', 'r']
    } else if c == '\t' {
        seq!['\\', 't']
    } else if c == '\u{8}' {
        seq!['\\', 'b']
    } else if c == '\u{c}' {
        seq!['\\', 'f']
    } else if (c as u32) < 32 {
        seq!['\\', 'u', '0', '0', hex_digit(((c as u32) / 16) as int), hex_digit(
            ((c as u32) % 16) as int,
        )]
    } else {
        seq![c]
    }
}

pub open spec fn escape_from(s: Seq<char>, from: int) -> Seq<char>
    decreases s.len() - from,
{
    if from < 0 || from >= s.len() {
        Seq::empty()
    } else {
        escape_char(s[from]) + escape_from(s, from + 1)
    }
}

/// The JSON string literal for `s`: quoted, with the escapes applied.
pub open spec fn quoted(s: Seq<char>) -> Seq<char> {
    seq!['"'] + escape_from(s, 0) + seq!['"']
}

pub open spec fn spec_key_id() -> Seq<char> {
    seq!['"', 'i', 'd', '"']
}

pub open spec fn spec_key_name() -> Seq<char> {
    seq!['"', 'n', 'a', 'm', 'e', '"']
}

pub open spec fn spec_key_voice_id() -> Seq<char> {
    seq!['"', 'v', 'o', 'i', 'c', 'e', '_', 'i', 'd', '"']
}

pub open spec fn spec_key_created_at() -> Seq<char> {
    seq!['"', 'c', 'r', 'e', 'a', 't', 'e', 'd', '_', 'a', 't', '"']
}

/// Newline plus the member indent of the pretty form.
pub open spec fn lit_member_ws() -> Seq<char> {
    seq!['\n', ' ', ' ', ' ', ' ']
}

/// The document text for one voice record in the pretty form.
pub open spec fn encode_voice(v: VoiceView) -> Seq<char> {
    seq!['{'] + lit_member_ws() + spec_key_id() + seq![':', ' '] + quoted(v.id) + seq![',']
        + lit_member_ws() + spec_key_name() + seq![':', ' '] + quoted(v.name) + seq![',']
        + lit_member_ws() + spec_key_voice_id() + seq![':', ' '] + quoted(v.voice_id) + seq![',']
        + lit_member_ws() + spec_key_created_at() + seq![':', ' '] + quoted(v.created_at) + seq![
        '\n',
        ' ',
        ' ',
        '}',
    ]
}

pub open spec fn encode_items_from(vs: Seq<VoiceView>, from: int) -> Seq<char>
    decreases vs.len() - from,
{
    if from < 0 || from >= vs.len() {
        Seq::empty()
    } else if from == vs.len() - 1 {
        encode_voice(vs[from])
    } else {
        encode_voice(vs[from]) + seq![',', '\n', ' ', ' '] + encode_items_from(vs, from + 1)
    }
}

/// The pretty-printed JSON document for a collection: `[]` when it is empty,
/// else the records each on their own indented lines.
pub open spec fn spec_encode_voices(vs: Seq<VoiceView>) -> Seq<char> {
    if vs.len() == 0 {
        seq!['[', ']']
    } else {
        seq!['[', '\n', ' ', ' '] + encode_items_from(vs, 0) + seq!['\n', ']']
    }
}

// ------------------------------------------------------------------
// The documents the parser accepts
// ------------------------------------------------------------------

pub open spec fn is_ws(c: char) -> bool {
    c == ' ' || c == '\n' || c == '\r' || c == '\t'
}

/// `s` with its leading whitespace removed.
pub open spec fn skip_ws(s: Seq<char>) -> Seq<char>
    decreases s.len(),
{
    if s.len() > 0 && is_ws(s[0]) {
        skip_ws(s.drop_first())
    } else {
        s
    }
}

/// The rest of `s` after one expected character.
pub open spec fn expect(s: Seq<char>, c: char) -> Option<Seq<char>> {
    if s.len() > 0 && s[0] == c {
        Some(s.drop_first())
    } else {
        None
    }
}

/// The rest of `s` after one expected literal.
pub open spec fn expect_lit(s: Seq<char>, lit: Seq<char>) -> Option<Seq<char>> {
    if lit.len() <= s.len() && s.take(lit.len() as int) == lit {
        Some(s.skip(lit.len() as int))
    } else {
        None
    }
}

/// The meaning of the character following a backslash in a string literal.
pub open spec fn unescape(c: char) -> Option<char> {
    if c == '"' {
        Some('"')
    } else if c == '\\' {
        Some('\\')
    } else if c == '/' {
        Some('/')
    } else if c == 'n' {
        Some('\n')
    } else if c == 'r' {
        Some('\r')
    } else if c == 't' {
        Some('\t')
    } else if c == 'b' {
        Some('\u{8}')
    } else if c == 'f' {
        Some('\u{c}')
    } else {
        None
    }
}

/// Parse the body of a string literal after its opening quote: the content,
/// and what follows the closing quote.
pub open spec fn parse_str_body(s: Seq<char>) -> Option<(Seq<char>, Seq<char>)>
    decreases s.len(),
{
    if s.len() == 0 {
        None
    } else if s[0] == '"' {
        Some((Seq::empty(), s.drop_first()))
    } else if s[0] == '\\' {
        if s.len() < 2 {
            None
        } else if s[1] == 'u' {
            if s.len() >= 6 && is_hex(s[2]) && is_hex(s[3]) && is_hex(s[4]) && is_hex(s[5]) {
                let v = hex_val(s[2]) * 4096 + hex_val(s[3]) * 256 + hex_val(s[4]) * 16 + hex_val(
                    s[5],
                );
                if v < 0xD800 || v >= 0xE000 {
                    match parse_str_body(s.skip(6)) {
                        Some(p) => Some((seq![(v as u32) as char] + p.0, p.1)),
                        None => None,
                    }
                } else if v < 0xDC00 {
                    // a high surrogate must be followed by a low-surrogate escape
                    if s.len() >= 12 && s[6] == '\\' && s[7] == 'u' && is_hex(s[8]) && is_hex(
                        s[9],
                    ) && is_hex(s[10]) && is_hex(s[11]) {
                        let w = hex_val(s[8]) * 4096 + hex_val(s[9]) * 256 + hex_val(s[10]) * 16
                            + hex_val(s[11]);
                        if 0xDC00 <= w && w < 0xE000 {
                            let code = 0x10000 + (v - 0xD800) * 1024 + (w - 0xDC00);
                            match parse_str_body(s.skip(12)) {
                                Some(p) => Some((seq![(code as u32) as char] + p.0, p.1)),
                                None => None,
                            }
                        } else {
                            None
                        }
                    } else {
                        None
                    }
                } else {
                    None
                }
            } else {
                None
            }
        } else {
            match unescape(s[1]) {
                Some(c) => match parse_str_body(s.skip(2)) {
                    Some(p) => Some((seq![c] + p.0, p.1)),
                    None => None,
                },
                None => None,
            }
        }
    } else {
        match parse_str_body(s.drop_first()) {
            Some(p) => Some((seq![s[0]] + p.0, p.1)),
            None => None,
        }
    }
}

pub open spec fn parse_string(s: Seq<char>) -> Option<(Seq<char>, Seq<char>)> {
    match expect(s, '"') {
        Some(r) => parse_str_body(r),
        None => None,
    }
}

/// Parse `<ws> <key> <ws> : <ws> <string literal>`.
pub open spec fn parse_member(s: Seq<char>, key: Seq<char>) -> Option<(Seq<char>, Seq<char>)> {
    match expect_lit(skip_ws(s), key) {
        Some(r1) => match expect(skip_ws(r1), ':') {
            Some(r2) => parse_string(skip_ws(r2)),
            None => None,
        },
        None => None,
    }
}

/// Which of the four member keys starts at `s` (the keys cannot prefix one
/// another, so at most one can match), with the member's value and the rest.
pub open spec fn parse_any_member(s: Seq<char>) -> Option<(int, Seq<char>, Seq<char>)> {
    match parse_member(s, spec_key_id()) {
        Some(p) => Some((0int, p.0, p.1)),
        None => match parse_member(s, spec_key_name()) {
            Some(p) => Some((1int, p.0, p.1)),
            None => match parse_member(s, spec_key_voice_id()) {
                Some(p) => Some((2int, p.0, p.1)),
                None => match parse_member(s, spec_key_created_at()) {
                    Some(p) => Some((3int, p.0, p.1)),
                    None => None,
                },
            },
        },
    }
}

/// The fields gathered so far while parsing one voice object.
#[verifier::ext_equal]
pub ghost struct PartialVoice {
    pub id: Option<Seq<char>>,
    pub name: Option<Seq<char>>,
    pub voice_id: Option<Seq<char>>,
    pub created_at: Option<Seq<char>>,
}

pub open spec fn empty_partial() -> PartialVoice {
    PartialVoice { id: None, name: None, voice_id: None, created_at: None }
}

/// Record member `k`'s value; a key seen twice makes the object malformed.
pub open spec fn set_field(p: PartialVoice, k: int, x: Seq<char>) -> Option<PartialVoice> {
    if k == 0 {
        if p.id is None {
            Some(PartialVoice { id: Some(x), ..p })
        } else {
            None
        }
    } else if k == 1 {
        if p.name is None {
            Some(PartialVoice { name: Some(x), ..p })
        } else {
            None
        }
    } else if k == 2 {
        if p.voice_id is None {
            Some(PartialVoice { voice_id: Some(x), ..p })
        } else {
            None
        }
    } else {
        if p.created_at is None {
            Some(PartialVoice { created_at: Some(x), ..p })
        } else {
            None
        }
    }
}

/// Parse `remaining` more members of a voice object, in any order, each key
/// at most once, then the closing brace; all four fields must be present.
pub open spec fn parse_members(s: Seq<char>, p: PartialVoice, remaining: nat) -> Option<
    (VoiceView, Seq<char>),
>
    decreases remaining,
{
    if remaining == 0 {
        None
    } else {
        match parse_any_member(s) {
            None => None,
            Some((k, x, r)) => match set_field(p, k, x) {
                None => None,
                Some(p2) => {
                    let r1 = skip_ws(r);
                    if remaining == 1 {
                        match expect(r1, '}') {
                            Some(r2) => match (p2.id, p2.name, p2.voice_id, p2.created_at) {
                                (Some(id), Some(nm), Some(vid), Some(ca)) => Some(
                                    (
                                        VoiceView {
                                            id: id,
                                            name: nm,
                                            voice_id: vid,
                                            created_at: ca,
                                        },
                                        r2,
                                    ),
                                ),
                                _ => None,
                            },
                            None => None,
                        }
                    } else {
                        match expect(r1, ',') {
                            Some(r2) => parse_members(r2, p2, (remaining - 1) as nat),
                            None => None,
                        }
                    }
                },
            },
        }
    }
}

/// Parse one voice object, `{` first: four members, any order, each once.
pub open spec fn parse_voice(s: Seq<char>) -> Option<(VoiceView, Seq<char>)> {
    match expect(s, '{') {
        Some(r0) => parse_members(r0, empty_partial(), 4),
        None => None,
    }
}

/// Parse a non-empty run of voice objects up to and over the closing `]`.
pub open spec fn parse_items(s: Seq<char>) -> Option<(Seq<VoiceView>, Seq<char>)>
    decreases s.len(),
    via parse_items_dec
{
    match parse_voice(s) {
        None => None,
        Some((v, r)) => {
            let r1 = skip_ws(r);
            if r1.len() > 0 && r1[0] == ',' {
                match parse_items(skip_ws(r1.drop_first())) {
                    Some((vs, rest)) => Some((seq![v] + vs, rest)),
                    None => None,
                }
            } else if r1.len() > 0 && r1[0] == ']' {
                Some((seq![v], r1.drop_first()))
            } else {
                None
            }
        },
    }
}

#[via_fn]
proof fn parse_items_dec(s: Seq<char>) {
    match parse_voice(s) {
        None => {},
        Some((v, r)) => {
            lemma_parse_voice_len(s);
            lemma_skip_ws_len(r);
            let r1 = skip_ws(r);
            if r1.len() > 0 && r1[0] == ',' {
                lemma_skip_ws_len(r1.drop_first());
            }
        },
    }
}

/// Parse a whole voices document: one JSON array of voice objects with
/// nothing but whitespace around it.
pub open spec fn spec_parse_voices(s: Seq<char>) -> Option<Seq<VoiceView>> {
    match expect(skip_ws(s), '[') {
        Some(r) => {
            let r1 = skip_ws(r);
            if r1.len() > 0 && r1[0] == ']' {
                if skip_ws(r1.drop_first()).len() == 0 {
                    Some(Seq::empty())
                } else {
                    None
                }
            } else {
                match parse_items(r1) {
                    Some((vs, rest)) => if skip_ws(rest).len() == 0 {
                        Some(vs)
                    } else {
                        None
                    },
                    None => None,
                }
            }
        },
        None => None,
    }
}

// ------------------------------------------------------------------
// How far each parsing step can reach
// ------------------------------------------------------------------

proof fn lemma_skip_ws_len(s: Seq<char>)
    ensures
        skip_ws(s).len() <= s.len(),
    decreases s.len(),
{
    if s.len() > 0 && is_ws(s[0]) {
        lemma_skip_ws_len(s.drop_first());
    }
}

proof fn lemma_parse_str_body_len(s: Seq<char>)
    ensures
        parse_str_body(s) matches Some(p) ==> p.1.len() < s.len(),
    decreases s.len(),
{
    if s.len() == 0 {
    } else if s[0] == '"' {
    } else if s[0] == '\\' {
        if s.len() >= 2 {
            if s[1] == 'u' {
                if s.len() >= 6 {
                    lemma_parse_str_body_len(s.skip(6));
                }
                if s.len() >= 12 {
                    lemma_parse_str_body_len(s.skip(12));
                }
            } else {
                lemma_parse_str_body_len(s.skip(2));
            }
        }
    } else {
        lemma_parse_str_body_len(s.drop_first());
    }
}

proof fn lemma_parse_member_len(s: Seq<char>, key: Seq<char>)
    ensures
        parse_member(s, key) matches Some(p) ==> p.1.len() < s.len(),
{
    lemma_skip_ws_len(s);
    match expect_lit(skip_ws(s), key) {
        Some(r1) => {
            lemma_skip_ws_len(r1);
            match expect(skip_ws(r1), ':') {
                Some(r2) => {
                    lemma_skip_ws_len(r2);
                    lemma_parse_str_body_len(skip_ws(r2).drop_first());
                },
                None => {},
            }
        },
        None => {},
    }
}

proof fn lemma_parse_any_member_len(s: Seq<char>)
    ensures
        parse_any_member(s) matches Some(p) ==> p.2.len() < s.len(),
{
    lemma_parse_member_len(s, spec_key_id());
    lemma_parse_member_len(s, spec_key_name());
    lemma_parse_member_len(s, spec_key_voice_id());
    lemma_parse_member_len(s, spec_key_created_at());
}

proof fn lemma_parse_members_len(s: Seq<char>, p: PartialVoice, remaining: nat)
    ensures
        parse_members(s, p, remaining) matches Some(q) ==> q.1.len() < s.len(),
    decreases remaining,
{
    if remaining == 0 {
    } else {
        lemma_parse_any_member_len(s);
        match parse_any_member(s) {
            None => {},
            Some((k, x, r)) => {
                lemma_skip_ws_len(r);
                match set_field(p, k, x) {
                    None => {},
                    Some(p2) => {
                        let r1 = skip_ws(r);
                        if remaining == 1 {
                        } else {
                            match expect(r1, ',') {
                                Some(r2) => {
                                    lemma_parse_members_len(r2, p2, (remaining - 1) as nat);
                                },
                                None => {},
                            }
                        }
                    },
                }
            },
        }
    }
}

proof fn lemma_parse_voice_len(s: Seq<char>)
    ensures
        parse_voice(s) matches Some(p) ==> p.1.len() < s.len(),
{
    match expect(s, '{') {
        Some(r0) => {
            lemma_parse_members_len(r0, empty_partial(), 4);
        },
        None => {},
    }
}

// ------------------------------------------------------------------
// The encoder
// ------------------------------------------------------------------

fn push_str(out: &mut Vec<char>, s: &str)
    ensures
        final(out)@ == old(out)@ + s@,
{
    let cs = str_chars(s);
    let ghost base = out@;
    proof {
        assert(base + cs@.take(0) =~= base);
    }
    let mut i: usize = 0;
    while i < cs.len()
        invariant
            cs@ == s@,
            0 <= i <= cs@.len(),
            out@ == base + cs@.take(i as int),
        decreases cs@.len() - i,
    {
        out.push(cs[i]);
        proof {
            assert(base + cs@.take((i + 1) as int) =~= (base + cs@.take(i as int)).push(
                cs@[i as int],
            ));
        }
        i += 1;
    }
    proof {
        assert(base + cs@.take(cs@.len() as int) =~= base + s@);
    }
}

fn push_quoted(out: &mut Vec<char>, s: &String)
    ensures
        final(out)@ == old(out)@ + quoted(s@),
{
    let cs = str_chars(s.as_str());
    let ghost base = out@;
    out.push('"');
    proof {
        assert(base.push('"') + escape_from(cs@, 0) =~= base + seq!['"'] + escape_from(cs@, 0));
    }
    let mut i: usize = 0;
    while i < cs.len()
        invariant
            cs@ == s@,
            0 <= i <= cs@.len(),
            out@ + escape_from(cs@, i as int) == base + seq!['"'] + escape_from(cs@, 0),
        decreases cs@.len() - i,
    {
        let ghost pre = out@;
        let c = cs[i];
        if c == '"' {
            out.push('\\');
            out.push('"');
        } else if c == '\\' {
            out.push('\\');
            out.push('\\');
        } else if c == '\n' {
            out.push('\\');
            out.push('n');
        } else if c == '\r' {
            out.push('\\');
            out.push('r');
        } else if c == '\t' {
            out.push('\\');
            out.push('t');
        } else if c == '\u{8}' {
            out.push('\\');
            out.push('b');
        } else if c == '\u{c}' {
            out.push('\\');
            out.push('f');
        } else if (c as u32) < 32 {
            let u = c as u32;
            out.push('\\');
            out.push('u');
            out.push('0');
            out.push('0');
            out.push(hex_digit_exec(u / 16));
            out.push(hex_digit_exec(u % 16));
        } else {
            out.push(c);
        }
        proof {
            assert(out@ =~= pre + escape_char(cs@[i as int]));
            assert(pre + escape_char(cs@[i as int]) + escape_from(cs@, (i + 1) as int) =~= pre
                + escape_from(cs@, i as int));
        }
        i += 1;
    }
    proof {
        assert(out@ =~= base + seq!['"'] + escape_from(cs@, 0)) by {
            assert(out@ + escape_from(cs@, cs@.len() as int) =~= out@);
        }
    }
    out.push('"');
    proof {
        assert(out@ =~= base + quoted(s@));
    }
}

fn push_voice(out: &mut Vec<char>, v: &Voice)
    ensures
        final(out)@ == old(out)@ + encode_voice(voice_view(*v)),
{
    let ghost base = out@;
    out.push('{');
    push_str(out, "\n    \"id\": ");
    push_quoted(out, &v.id);
    push_str(out, ",\n    \"name\": ");
    push_quoted(out, &v.name);
    push_str(out, ",\n    \"voice_id\": ");
    push_quoted(out, &v.voice_id);
    push_str(out, ",\n    \"created_at\": ");
    push_quoted(out, &v.created_at);
    push_str(out, "\n  }");
    proof {
        reveal_strlit("\n    \"id\": ");
        reveal_strlit(",\n    \"name\": ");
        reveal_strlit(",\n    \"voice_id\": ");
        reveal_strlit(",\n    \"created_at\": ");
        reveal_strlit("\n  }");
        assert("\n    \"id\": "@ =~= lit_member_ws() + spec_key_id() + seq![':', ' ']);
        assert(",\n    \"name\": "@ =~= seq![','] + lit_member_ws() + spec_key_name() + seq![
            ':',
            ' ',
        ]);
        assert(",\n    \"voice_id\": "@ =~= seq![','] + lit_member_ws() + spec_key_voice_id()
            + seq![':', ' ']);
        assert(",\n    \"created_at\": "@ =~= seq![','] + lit_member_ws() + spec_key_created_at()
            + seq![':', ' ']);
        assert("\n  }"@ =~= seq!['\n', ' ', ' ', '}']);
        assert(out@ =~= base + encode_voice(voice_view(*v)));
    }
}

/// Render the collection as its pretty-printed JSON document.
pub fn voices_to_json(voices: &Vec<Voice>) -> (r: String)
    ensures
        r@ == spec_encode_voices(voice_views(voices@)),
{
    let ghost views = voice_views(voices@);
    let mut out: Vec<char> = Vec::new();
    if voices.len() == 0 {
        out.push('[');
        out.push(']');
        proof {
            assert(out@ =~= spec_encode_voices(views));
        }
        return chars_string(&out);
    }
    push_str(&mut out, "[\n  ");
    proof {
        reveal_strlit("[\n  ");
        assert(out@ =~= seq!['[', '\n', ' ', ' ']);
        assert(out@ + encode_items_from(views, 0) =~= seq!['[', '\n', ' ', ' ']
            + encode_items_from(views, 0));
    }
    let mut i: usize = 0;
    while i < voices.len()
        invariant
            views == voice_views(voices@),
            views.len() == voices@.len(),
            0 < voices@.len(),
            0 <= i <= voices@.len(),
            out@ + encode_items_from(views, i as int) == seq!['[', '\n', ' ', ' ']
                + encode_items_from(views, 0),
        decreases voices@.len() - i,
    {
        let ghost pre = out@;
        push_voice(&mut out, &voices[i]);
        proof {
            assert(voice_view(voices@[i as int]) == views[i as int]);
        }
        if i + 1 < voices.len() {
            push_str(&mut out, ",\n  ");
            proof {
                reveal_strlit(",\n  ");
                assert(",\n  "@ =~= seq![',', '\n', ' ', ' ']);
                assert(out@ + encode_items_from(views, (i + 1) as int) =~= pre + encode_items_from(
                    views,
                    i as int,
                ));
            }
        } else {
            proof {
                assert(out@ + encode_items_from(views, (i + 1) as int) =~= pre + encode_items_from(
                    views,
                    i as int,
                ));
            }
        }
        i += 1;
    }
    proof {
        assert(out@ =~= seq!['[', '\n', ' ', ' '] + encode_items_from(views, 0)) by {
            assert(out@ + encode_items_from(views, views.len() as int) =~= out@);
        }
    }
    push_str(&mut out, "\n]");
    proof {
        reveal_strlit("\n]");
        assert("\n]"@ =~= seq!['\n', ']']);
        assert(out@ =~= spec_encode_voices(views));
    }
    chars_string(&out)
}

// ------------------------------------------------------------------
// The parser
// ------------------------------------------------------------------

fn is_ws_exec(c: char) -> (r: bool)
    ensures
        r == is_ws(c),
{
    c == ' ' || c == '\n' || c == '\r' || c == '\t'
}

fn skip_ws_exec(s: &Vec<char>, i: usize) -> (j: usize)
    requires
        i <= s@.len(),
    ensures
        i <= j <= s@.len(),
        skip_ws(s@.skip(i as int)) == s@.skip(j as int),
{
    let mut j = i;
    while j < s.len()
        invariant
            i <= j <= s@.len(),
            skip_ws(s@.skip(i as int)) == skip_ws(s@.skip(j as int)),
        decreases s@.len() - j,
    {
        if !is_ws_exec(s[j]) {
            proof {
                assert(s@.skip(j as int)[0] == s@[j as int]);
            }
            return j;
        }
        proof {
            assert(s@.skip(j as int)[0] == s@[j as int]);
            assert(s@.skip(j as int).drop_first() =~= s@.skip((j + 1) as int));
        }
        j += 1;
    }
    proof {
        assert(s@.skip(j as int) =~= Seq::<char>::empty());
    }
    j
}

fn expect_exec(s: &Vec<char>, i: usize, c: char) -> (r: Option<usize>)
    requires
        i <= s@.len(),
    ensures
        match r {
            Some(j) => i < j <= s@.len() && expect(s@.skip(i as int), c) == Some(
                s@.skip(j as int),
            ),
            None => expect(s@.skip(i as int), c) is None,
        },
{
    if i == s.len() {
        proof {
            assert(s@.skip(i as int) =~= Seq::<char>::empty());
        }
        return None;
    }
    proof {
        assert(s@.skip(i as int)[0] == s@[i as int]);
    }
    if s[i] == c {
        proof {
            assert(s@.skip(i as int).drop_first() =~= s@.skip((i + 1) as int));
        }
        Some(i + 1)
    } else {
        None
    }
}

fn expect_lit_exec(s: &Vec<char>, i: usize, lit: &Vec<char>) -> (r: Option<usize>)
    requires
        i <= s@.len(),
    ensures
        match r {
            Some(j) => i <= j <= s@.len() && expect_lit(s@.skip(i as int), lit@) == Some(
                s@.skip(j as int),
            ),
            None => expect_lit(s@.skip(i as int), lit@) is None,
        },
{
    let ghost ss = s@.skip(i as int);
    if s.len() - i < lit.len() {
        proof {
            assert(ss.len() == s@.len() - i);
        }
        return None;
    }
    let n = s.len();
    let mut k: usize = 0;
    while k < lit.len()
        invariant
            n == s@.len(),
            i <= s@.len(),
            0 <= k <= lit@.len(),
            lit@.len() <= s@.len() - i,
            ss == s@.skip(i as int),
            forall|m: int| 0 <= m < k ==> s@[i + m] == lit@[m],
        decreases lit@.len() - k,
    {
        if !(s[i + k] == lit[k]) {
            proof {
                assert(ss.take(lit@.len() as int)[k as int] == s@[i + k]);
                assert(ss.take(lit@.len() as int) != lit@);
            }
            return None;
        }
        k += 1;
    }
    proof {
        assert(ss.take(lit@.len() as int) =~= lit@);
        assert(ss.skip(lit@.len() as int) =~= s@.skip(i + lit@.len()));
    }
    Some(i + lit.len())
}

fn is_hex_exec(c: char) -> (r: bool)
    ensures
        r == is_hex(c),
{
    let u = c as u32;
    (48 <= u && u <= 57) || (97 <= u && u <= 102) || (65 <= u && u <= 70)
}

fn hex_val_exec(c: char) -> (r: u32)
    requires
        is_hex(c),
    ensures
        r == hex_val(c),
        r < 16,
{
    let u = c as u32;
    if 48 <= u && u <= 57 {
        u - 48
    } else if 97 <= u && u <= 102 {
        u - 87
    } else {
        u - 55
    }
}

fn hex_digit_exec(d: u32) -> (c: char)
    requires
        d < 16,
    ensures
        c == hex_digit(d as int),
{
    if d == 0 {
        '0'
    } else if d == 1 {
        '1'
    } else if d == 2 {
        '2'
    } else if d == 3 {
        '3'
    } else if d == 4 {
        '4'
    } else if d == 5 {
        '5'
    } else if d == 6 {
        '6'
    } else if d == 7 {
        '7'
    } else if d == 8 {
        '8'
    } else if d == 9 {
        '9'
    } else if d == 10 {
        'a'
    } else if d == 11 {
        'b'
    } else if d == 12 {
        'c'
    } else if d == 13 {
        'd'
    } else if d == 14 {
        'e'
    } else {
        'f'
    }
}

fn unescape_exec(c: char) -> (r: Option<char>)
    ensures
        r == unescape(c),
{
    if c == '"' {
        Some('"')
    } else if c == '\\' {
        Some('\\')
    } else if c == '/' {
        Some('/')
    } else if c == 'n' {
        Some('\n')
    } else if c == 'r' {
        Some('\r')
    } else if c == 't' {
        Some('\t')
    } else if c == 'b' {
        Some('\u{8}')
    } else if c == 'f' {
        Some('\u{c}')
    } else {
        None
    }
}

fn parse_str_body_exec(s: &Vec<char>, i: usize) -> (r: Option<(Vec<char>, usize)>)
    requires
        i <= s@.len(),
    ensures
        match r {
            Some(p) => i <= p.1 <= s@.len() && parse_str_body(s@.skip(i as int)) == Some(
                (p.0@, s@.skip(p.1 as int)),
            ),
            None => parse_str_body(s@.skip(i as int)) is None,
        },
    decreases s@.len() - i,
{
    let ghost ss = s@.skip(i as int);
    if i == s.len() {
        proof {
            assert(ss =~= Seq::<char>::empty());
        }
        return None;
    }
    proof {
        assert(ss[0] == s@[i as int]);
    }
    let c = s[i];
    if c == '"' {
        let content: Vec<char> = Vec::new();
        proof {
            assert(ss.drop_first() =~= s@.skip((i + 1) as int));
        }
        return Some((content, i + 1));
    }
    if c == '\\' {
        if i + 1 == s.len() {
            proof {
                assert(ss.len() < 2);
            }
            return None;
        }
        proof {
            assert(ss[1] == s@[i + 1]);
        }
        if s[i + 1] == 'u' {
            if s.len() - i < 6 {
                proof {
                    assert(ss.len() < 6);
                }
                return None;
            }
            proof {
                assert(ss[2] == s@[i + 2]);
                assert(ss[3] == s@[i + 3]);
                assert(ss[4] == s@[i + 4]);
                assert(ss[5] == s@[i + 5]);
            }
            if !(is_hex_exec(s[i + 2]) && is_hex_exec(s[i + 3]) && is_hex_exec(s[i + 4])
                && is_hex_exec(s[i + 5])) {
                return None;
            }
            let v: u32 = hex_val_exec(s[i + 2]) * 4096 + hex_val_exec(s[i + 3]) * 256
                + hex_val_exec(s[i + 4]) * 16 + hex_val_exec(s[i + 5]);
            if v < 0xD800 || v >= 0xE000 {
                let uc = match char_from_u32(v) {
                    Some(c) => c,
                    None => {
                        proof {
                            assert(false);
                        }
                        return None;
                    },
                };
                proof {
                    vstd::utf8::char_u32_cast(uc, v);
                    assert(ss.skip(6) =~= s@.skip((i + 6) as int));
                }
                match parse_str_body_exec(s, i + 6) {
                    None => return None,
                    Some((mut content, j)) => {
                        let ghost tail = content@;
                        content.insert(0, uc);
                        proof {
                            assert(content@ =~= seq![uc] + tail);
                        }
                        return Some((content, j));
                    },
                }
            } else if v < 0xDC00 {
                if s.len() - i < 12 {
                    proof {
                        assert(ss.len() < 12);
                    }
                    return None;
                }
                proof {
                    assert(ss[6] == s@[i + 6]);
                    assert(ss[7] == s@[i + 7]);
                    assert(ss[8] == s@[i + 8]);
                    assert(ss[9] == s@[i + 9]);
                    assert(ss[10] == s@[i + 10]);
                    assert(ss[11] == s@[i + 11]);
                }
                if !(s[i + 6] == '\\') {
                    return None;
                }
                if !(s[i + 7] == 'u') {
                    return None;
                }
                if !(is_hex_exec(s[i + 8]) && is_hex_exec(s[i + 9]) && is_hex_exec(s[i + 10])
                    && is_hex_exec(s[i + 11])) {
                    return None;
                }
                let w: u32 = hex_val_exec(s[i + 8]) * 4096 + hex_val_exec(s[i + 9]) * 256
                    + hex_val_exec(s[i + 10]) * 16 + hex_val_exec(s[i + 11]);
                if !(0xDC00 <= w && w < 0xE000) {
                    return None;
                }
                let code: u32 = 0x10000 + (v - 0xD800) * 1024 + (w - 0xDC00);
                let uc = match char_from_u32(code) {
                    Some(c) => c,
                    None => {
                        proof {
                            assert(false);
                        }
                        return None;
                    },
                };
                proof {
                    vstd::utf8::char_u32_cast(uc, code);
                    assert(ss.skip(12) =~= s@.skip((i + 12) as int));
                }
                match parse_str_body_exec(s, i + 12) {
                    None => return None,
                    Some((mut content, j)) => {
                        let ghost tail = content@;
                        content.insert(0, uc);
                        proof {
                            assert(content@ =~= seq![uc] + tail);
                        }
                        return Some((content, j));
                    },
                }
            } else {
                return None;
            }
        }
        match unescape_exec(s[i + 1]) {
            None => return None,
            Some(uc) => {
                proof {
                    assert(ss.skip(2) =~= s@.skip((i + 2) as int));
                }
                match parse_str_body_exec(s, i + 2) {
                    None => return None,
                    Some((mut content, j)) => {
                        let ghost tail = content@;
                        content.insert(0, uc);
                        proof {
                            assert(content@ =~= seq![uc] + tail);
                        }
                        return Some((content, j));
                    },
                }
            },
        }
    }
    proof {
        assert(ss.drop_first() =~= s@.skip((i + 1) as int));
    }
    match parse_str_body_exec(s, i + 1) {
        None => None,
        Some((mut content, j)) => {
            let ghost tail = content@;
            content.insert(0, c);
            proof {
                assert(content@ =~= seq![c] + tail);
            }
            Some((content, j))
        },
    }
}

fn parse_member_exec(s: &Vec<char>, i: usize, key: &Vec<char>) -> (r: Option<(Vec<char>, usize)>)
    requires
        i <= s@.len(),
    ensures
        match r {
            Some(p) => i <= p.1 <= s@.len() && parse_member(s@.skip(i as int), key@) == Some(
                (p.0@, s@.skip(p.1 as int)),
            ),
            None => parse_member(s@.skip(i as int), key@) is None,
        },
{
    let j0 = skip_ws_exec(s, i);
    let j1 = match expect_lit_exec(s, j0, key) {
        Some(j) => j,
        None => {
            return None;
        },
    };
    let j2 = skip_ws_exec(s, j1);
    let j3 = match expect_exec(s, j2, ':') {
        Some(j) => j,
        None => {
            return None;
        },
    };
    let j4 = skip_ws_exec(s, j3);
    let j5 = match expect_exec(s, j4, '"') {
        Some(j) => j,
        None => {
            return None;
        },
    };
    match parse_str_body_exec(s, j5) {
        Some((content, j6)) => Some((content, j6)),
        None => None,
    }
}

fn key_id() -> (v: Vec<char>)
    ensures
        v@ == spec_key_id(),
{
    let mut v: Vec<char> = Vec::new();
    v.push('"');
    v.push('i');
    v.push('d');
    v.push('"');
    proof {
        assert(v@ =~= spec_key_id());
    }
    v
}

fn key_name() -> (v: Vec<char>)
    ensures
        v@ == spec_key_name(),
{
    let mut v: Vec<char> = Vec::new();
    v.push('"');
    v.push('n');
    v.push('a');
    v.push('m');
    v.push('e');
    v.push('"');
    proof {
        assert(v@ =~= spec_key_name());
    }
    v
}

fn key_voice_id() -> (v: Vec<char>)
    ensures
        v@ == spec_key_voice_id(),
{
    let mut v: Vec<char> = Vec::new();
    v.push('"');
    v.push('v');
    v.push('o');
    v.push('i');
    v.push('c');
    v.push('e');
    v.push('_');
    v.push('i');
    v.push('d');
    v.push('"');
    proof {
        assert(v@ =~= spec_key_voice_id());
    }
    v
}

fn key_created_at() -> (v: Vec<char>)
    ensures
        v@ == spec_key_created_at(),
{
    let mut v: Vec<char> = Vec::new();
    v.push('"');
    v.push('c');
    v.push('r');
    v.push('e');
    v.push('a');
    v.push('t');
    v.push('e');
    v.push('d');
    v.push('_');
    v.push('a');
    v.push('t');
    v.push('"');
    proof {
        assert(v@ =~= spec_key_created_at());
    }
    v
}

fn parse_any_member_exec(s: &Vec<char>, i: usize) -> (r: Option<(u8, Vec<char>, usize)>)
    requires
        i <= s@.len(),
    ensures
        match r {
            Some(p) => i <= p.2 <= s@.len() && parse_any_member(s@.skip(i as int)) == Some(
                (p.0 as int, p.1@, s@.skip(p.2 as int)),
            ),
            None => parse_any_member(s@.skip(i as int)) is None,
        },
{
    if let Some((x, j)) = parse_member_exec(s, i, &key_id()) {
        return Some((0, x, j));
    }
    if let Some((x, j)) = parse_member_exec(s, i, &key_name()) {
        return Some((1, x, j));
    }
    if let Some((x, j)) = parse_member_exec(s, i, &key_voice_id()) {
        return Some((2, x, j));
    }
    if let Some((x, j)) = parse_member_exec(s, i, &key_created_at()) {
        return Some((3, x, j));
    }
    None
}

struct PartialFields {
    id: Option<Vec<char>>,
    name: Option<Vec<char>>,
    voice_id: Option<Vec<char>>,
    created_at: Option<Vec<char>>,
}

spec fn opt_chars_view(o: Option<Vec<char>>) -> Option<Seq<char>> {
    match o {
        Some(v) => Some(v@),
        None => None,
    }
}

spec fn partial_view(p: PartialFields) -> PartialVoice {
    PartialVoice {
        id: opt_chars_view(p.id),
        name: opt_chars_view(p.name),
        voice_id: opt_chars_view(p.voice_id),
        created_at: opt_chars_view(p.created_at),
    }
}

fn parse_members_exec(s: &Vec<char>, i: usize, p: PartialFields, remaining: u8) -> (r: Option<
    (Voice, usize),
>)
    requires
        i <= s@.len(),
        1 <= remaining,
    ensures
        match r {
            Some(q) => i <= q.1 <= s@.len() && parse_members(
                s@.skip(i as int),
                partial_view(p),
                remaining as nat,
            ) == Some((voice_view(q.0), s@.skip(q.1 as int))),
            None => parse_members(s@.skip(i as int), partial_view(p), remaining as nat) is None,
        },
    decreases remaining,
{
    let ghost pv = partial_view(p);
    let (k, x, j) = match parse_any_member_exec(s, i) {
        Some(t) => t,
        None => {
            return None;
        },
    };
    let ghost xs = x@;
    let p2 = if k == 0 {
        if p.id.is_none() {
            PartialFields {
                id: Some(x),
                name: p.name,
                voice_id: p.voice_id,
                created_at: p.created_at,
            }
        } else {
            return None;
        }
    } else if k == 1 {
        if p.name.is_none() {
            PartialFields { id: p.id, name: Some(x), voice_id: p.voice_id, created_at: p.created_at }
        } else {
            return None;
        }
    } else if k == 2 {
        if p.voice_id.is_none() {
            PartialFields { id: p.id, name: p.name, voice_id: Some(x), created_at: p.created_at }
        } else {
            return None;
        }
    } else {
        if p.created_at.is_none() {
            PartialFields { id: p.id, name: p.name, voice_id: p.voice_id, created_at: Some(x) }
        } else {
            return None;
        }
    };
    proof {
        assert(set_field(pv, k as int, xs) matches Some(q) && q =~= partial_view(p2));
    }
    let j1 = skip_ws_exec(s, j);
    if remaining == 1 {
        let j2 = match expect_exec(s, j1, '}') {
            Some(j2) => j2,
            None => {
                return None;
            },
        };
        match (p2.id, p2.name, p2.voice_id, p2.created_at) {
            (Some(idv), Some(nmv), Some(vidv), Some(cav)) => {
                let v = Voice {
                    id: chars_string(&idv),
                    name: chars_string(&nmv),
                    voice_id: chars_string(&vidv),
                    created_at: chars_string(&cav),
                };
                proof {
                    assert(voice_view(v) =~= VoiceView {
                        id: idv@,
                        name: nmv@,
                        voice_id: vidv@,
                        created_at: cav@,
                    });
                }
                Some((v, j2))
            },
            _ => None,
        }
    } else {
        let j2 = match expect_exec(s, j1, ',') {
            Some(j2) => j2,
            None => {
                return None;
            },
        };
        parse_members_exec(s, j2, p2, remaining - 1)
    }
}

fn parse_voice_exec(s: &Vec<char>, i: usize) -> (r: Option<(Voice, usize)>)
    requires
        i <= s@.len(),
    ensures
        match r {
            Some(p) => i < p.1 <= s@.len() && parse_voice(s@.skip(i as int)) == Some(
                (voice_view(p.0), s@.skip(p.1 as int)),
            ),
            None => parse_voice(s@.skip(i as int)) is None,
        },
{
    let j0 = match expect_exec(s, i, '{') {
        Some(j) => j,
        None => {
            return None;
        },
    };
    let p = PartialFields { id: None, name: None, voice_id: None, created_at: None };
    proof {
        assert(partial_view(p) =~= empty_partial());
    }
    parse_members_exec(s, j0, p, 4)
}

fn parse_items_exec(s: &Vec<char>, i: usize) -> (r: Option<(Vec<Voice>, usize)>)
    requires
        i <= s@.len(),
    ensures
        match r {
            Some(p) => i <= p.1 <= s@.len() && parse_items(s@.skip(i as int)) == Some(
                (voice_views(p.0@), s@.skip(p.1 as int)),
            ),
            None => parse_items(s@.skip(i as int)) is None,
        },
    decreases s@.len() - i,
{
    let (v, j) = match parse_voice_exec(s, i) {
        Some(p) => p,
        None => {
            return None;
        },
    };
    let j1 = skip_ws_exec(s, j);
    let ghost r1 = skip_ws(s@.skip(j as int));
    if j1 < s.len() {
        proof {
            assert(r1[0] == s@[j1 as int]);
        }
        let c = s[j1];
        if c == ',' {
            proof {
                assert(r1.drop_first() =~= s@.skip((j1 + 1) as int));
            }
            let m = skip_ws_exec(s, j1 + 1);
            match parse_items_exec(s, m) {
                Some((mut vs, rest)) => {
                    let ghost tail = vs@;
                    vs.insert(0, v);
                    proof {
                        assert(voice_views(vs@) =~= seq![voice_view(vs@[0])] + voice_views(tail));
                    }
                    return Some((vs, rest));
                },
                None => {
                    return None;
                },
            }
        } else if c == ']' {
            let mut vs: Vec<Voice> = Vec::new();
            vs.push(v);
            proof {
                assert(r1.drop_first() =~= s@.skip((j1 + 1) as int));
                assert(voice_views(vs@) =~= seq![voice_view(vs@[0])]);
            }
            return Some((vs, j1 + 1));
        } else {
            return None;
        }
    }
    proof {
        assert(r1.len() == 0);
    }
    None
}

/// Parse a voices JSON document; `Err(StoreError::Parse)` exactly when the
/// text is not a well-formed voices document.
pub fn voices_from_json(text: &str) -> (r: Result<Vec<Voice>, StoreError>)
    ensures
        match r {
            Ok(vs) => spec_parse_voices(text@) == Some(voice_views(vs@)),
            Err(e) => spec_parse_voices(text@) is None && e is Parse,
        },
{
    let s = str_chars(text);
    proof {
        assert(s@.skip(0) =~= text@);
    }
    let i0 = skip_ws_exec(&s, 0);
    let i1 = match expect_exec(&s, i0, '[') {
        Some(j) => j,
        None => {
            return Err(StoreError::Parse);
        },
    };
    let i2 = skip_ws_exec(&s, i1);
    let ghost r1 = skip_ws(s@.skip(i1 as int));
    if i2 < s.len() {
        proof {
            assert(r1[0] == s@[i2 as int]);
        }
        if s[i2] == ']' {
            proof {
                assert(r1.drop_first() =~= s@.skip((i2 + 1) as int));
            }
            let i3 = skip_ws_exec(&s, i2 + 1);
            if i3 == s.len() {
                let vs: Vec<Voice> = Vec::new();
                proof {
                    assert(s@.skip(i3 as int) =~= Seq::<char>::empty());
                    assert(voice_views(vs@) =~= Seq::<VoiceView>::empty());
                }
                return Ok(vs);
            }
            proof {
                assert(s@.skip(i3 as int).len() > 0);
            }
            return Err(StoreError::Parse);
        }
        match parse_items_exec(&s, i2) {
            Some((vs, rest)) => {
                let i4 = skip_ws_exec(&s, rest);
                if i4 == s.len() {
                    proof {
                        assert(s@.skip(i4 as int) =~= Seq::<char>::empty());
                    }
                    return Ok(vs);
                }
                proof {
                    assert(s@.skip(i4 as int).len() > 0);
                }
                return Err(StoreError::Parse);
            },
            None => {
                return Err(StoreError::Parse);
            },
        }
    }
    proof {
        assert(r1.len() == 0);
        assert(parse_items(r1) is None);
    }
    Err(StoreError::Parse)
}

// ------------------------------------------------------------------
// The round trip: parsing an encoded document gives the collection back
// ------------------------------------------------------------------

proof fn lemma_skip_ws_ws_prefix(w: Seq<char>, t: Seq<char>)
    requires
        forall|m: int| 0 <= m < w.len() ==> is_ws(w[m]),
        t.len() > 0 ==> !is_ws(t[0]),
    ensures
        skip_ws(w + t) == t,
    decreases w.len(),
{
    if w.len() == 0 {
        assert(w + t =~= t);
    } else {
        assert((w + t)[0] == w[0]);
        assert((w + t).drop_first() =~= w.drop_first() + t);
        assert(forall|m: int| 0 <= m < w.drop_first().len() ==> is_ws(w.drop_first()[m]));
        lemma_skip_ws_ws_prefix(w.drop_first(), t);
    }
}

#[verifier::rlimit(100)]
#[verifier::spinoff_prover]
proof fn lemma_rt_escape(x: Seq<char>, from: int, rest: Seq<char>)
    requires
        0 <= from <= x.len(),
    ensures
        parse_str_body(escape_from(x, from) + seq!['"'] + rest) == Some((x.skip(from), rest)),
    decreases x.len() - from,
{
    let s = escape_from(x, from) + seq!['"'] + rest;
    if from == x.len() {
        assert(escape_from(x, from) =~= Seq::<char>::empty());
        assert(s =~= seq!['"'] + rest);
        assert(s[0] == '"');
        assert(s.drop_first() =~= rest);
        assert(x.skip(from) =~= Seq::<char>::empty());
    } else {
        let c = x[from];
        let e = escape_char(c);
        let s2 = escape_from(x, from + 1) + seq!['"'] + rest;
        lemma_rt_escape(x, from + 1, rest);
        assert(escape_from(x, from) == e + escape_from(x, from + 1));
        if c == '"' || c == '\\' || c == '\n' || c == '\r' || c == '\t' || c == '\u{8}' || c
            == '\u{c}' {
            assert(e.len() == 2 && e[0] == '\\');
            assert(s[0] == '\\');
            assert(s.len() >= 2);
            assert(s[1] == e[1]);
            assert(s[1] != 'u');
            assert(unescape(e[1]) == Some(c));
            assert(s.skip(2) =~= s2);
            assert(seq![c] + x.skip(from + 1) =~= x.skip(from));
        } else if (c as u32) < 32 {
            let u = c as u32;
            let hi = ((u / 16) as int);
            let lo = ((u % 16) as int);
            lemma_hex_digit(hi);
            lemma_hex_digit(lo);
            assert(e.len() == 6);
            assert(s.len() >= 6);
            assert(s[0] == '\\');
            assert(s[1] == 'u');
            assert(s[2] == '0' && s[3] == '0');
            assert(s[4] == hex_digit(hi) && s[5] == hex_digit(lo));
            assert(is_hex('0') && hex_val('0') == 0);
            let v = hex_val(s[2]) * 4096 + hex_val(s[3]) * 256 + hex_val(s[4]) * 16 + hex_val(
                s[5],
            );
            assert(v == 16 * hi + lo);
            assert(v == u as int);
            assert(v < 0xD800);
            assert(v as u32 == c as u32);
            vstd::utf8::char_u32_cast(c, v as u32);
            assert((v as u32) as char == c);
            assert(s.skip(6) =~= s2);
            assert(seq![c] + x.skip(from + 1) =~= x.skip(from));
        } else {
            assert(s[0] == c);
            assert(c != '"' && c != '\\');
            assert(s.drop_first() =~= s2);
            assert(seq![c] + x.skip(from + 1) =~= x.skip(from));
        }
    }
}

proof fn lemma_rt_quoted(x: Seq<char>, rest: Seq<char>)
    ensures
        parse_string(quoted(x) + rest) == Some((x, rest)),
{
    let s = quoted(x) + rest;
    assert(s[0] == '"');
    assert(s.drop_first() =~= escape_from(x, 0) + seq!['"'] + rest);
    lemma_rt_escape(x, 0, rest);
    assert(x.skip(0) =~= x);
}

proof fn lemma_rt_member(w: Seq<char>, key: Seq<char>, x: Seq<char>, rest: Seq<char>)
    requires
        forall|m: int| 0 <= m < w.len() ==> is_ws(w[m]),
        key.len() > 0,
        !is_ws(key[0]),
    ensures
        parse_member(w + key + seq![':', ' '] + quoted(x) + rest, key) == Some((x, rest)),
{
    let s = w + key + seq![':', ' '] + quoted(x) + rest;
    let t = key + seq![':', ' '] + quoted(x) + rest;
    assert(s =~= w + t);
    assert(t[0] == key[0]);
    lemma_skip_ws_ws_prefix(w, t);
    assert(skip_ws(s) == t);
    assert(t.take(key.len() as int) =~= key);
    let u = seq![':', ' '] + quoted(x) + rest;
    assert(t.skip(key.len() as int) =~= u);
    assert(u[0] == ':');
    assert(!is_ws(':'));
    assert(skip_ws(u) == u);
    let w2 = seq![' '] + quoted(x) + rest;
    assert(u.drop_first() =~= w2);
    assert(w2 =~= seq![' '] + (quoted(x) + rest));
    assert((quoted(x) + rest)[0] == '"');
    assert(!is_ws('"'));
    lemma_skip_ws_ws_prefix(seq![' '], quoted(x) + rest);
    assert(skip_ws(w2) == quoted(x) + rest);
    lemma_rt_quoted(x, rest);
}

proof fn lemma_member_wrong_key(s: Seq<char>, key: Seq<char>, u: Seq<char>, wrong: Seq<char>)
    requires
        skip_ws(s) == key + u,
        key.len() >= 2,
        wrong.len() >= 2,
        key[1] != wrong[1],
    ensures
        parse_member(s, wrong) is None,
{
    let t = key + u;
    if wrong.len() <= t.len() {
        assert(t.take(wrong.len() as int)[1] == key[1]);
        assert(t.take(wrong.len() as int) != wrong);
    }
}

#[verifier::rlimit(100)]
#[verifier::spinoff_prover]
proof fn lemma_rt_voice_close(v: VoiceView, rest: Seq<char>)
    ensures
        parse_members(
            lit_member_ws() + spec_key_created_at() + seq![':', ' '] + quoted(v.created_at) + (seq![
                '\n',
                ' ',
                ' ',
                '}',
            ] + rest),
            PartialVoice {
                id: Some(v.id),
                name: Some(v.name),
                voice_id: Some(v.voice_id),
                created_at: None,
            },
            1,
        ) == Some((v, rest)),
{
    let rest4 = seq!['\n', ' ', ' ', '}'] + rest;
    let m3 = lit_member_ws() + spec_key_created_at() + seq![':', ' '] + quoted(v.created_at)
        + rest4;
    let u3 = seq![':', ' '] + quoted(v.created_at) + rest4;
    assert(m3 =~= lit_member_ws() + (spec_key_created_at() + u3));
    assert((spec_key_created_at() + u3)[0] == '"');
    assert(!is_ws('"'));
    lemma_skip_ws_ws_prefix(lit_member_ws(), spec_key_created_at() + u3);
    lemma_member_wrong_key(m3, spec_key_created_at(), u3, spec_key_id());
    lemma_member_wrong_key(m3, spec_key_created_at(), u3, spec_key_name());
    lemma_member_wrong_key(m3, spec_key_created_at(), u3, spec_key_voice_id());
    lemma_rt_member(lit_member_ws(), spec_key_created_at(), v.created_at, rest4);
    assert(parse_any_member(m3) == Some((3int, v.created_at, rest4)));
    assert(rest4 =~= seq!['\n', ' ', ' '] + (seq!['}'] + rest));
    assert((seq!['}'] + rest)[0] == '}');
    assert(!is_ws('}'));
    lemma_skip_ws_ws_prefix(seq!['\n', ' ', ' '], seq!['}'] + rest);
    assert(skip_ws(rest4) == seq!['}'] + rest);
    assert((seq!['}'] + rest).drop_first() =~= rest);
    assert(VoiceView {
        id: v.id,
        name: v.name,
        voice_id: v.voice_id,
        created_at: v.created_at,
    } =~= v);
}

#[verifier::rlimit(100)]
#[verifier::spinoff_prover]
proof fn lemma_rt_voice_m3(v: VoiceView, rest: Seq<char>)
    ensures
        parse_members(
            lit_member_ws() + spec_key_voice_id() + seq![':', ' '] + quoted(v.voice_id) + (seq![',']
                + lit_member_ws() + spec_key_created_at() + seq![':', ' '] + quoted(v.created_at)
                + (seq!['\n', ' ', ' ', '}'] + rest)),
            PartialVoice { id: Some(v.id), name: Some(v.name), voice_id: None, created_at: None },
            2,
        ) == Some((v, rest)),
{
    let rest4 = seq!['\n', ' ', ' ', '}'] + rest;
    let rest3 = seq![','] + lit_member_ws() + spec_key_created_at() + seq![':', ' '] + quoted(
        v.created_at,
    ) + rest4;
    let m2 = lit_member_ws() + spec_key_voice_id() + seq![':', ' '] + quoted(v.voice_id) + rest3;
    let u2 = seq![':', ' '] + quoted(v.voice_id) + rest3;
    assert(m2 =~= lit_member_ws() + (spec_key_voice_id() + u2));
    assert((spec_key_voice_id() + u2)[0] == '"');
    assert(!is_ws('"'));
    lemma_skip_ws_ws_prefix(lit_member_ws(), spec_key_voice_id() + u2);
    lemma_member_wrong_key(m2, spec_key_voice_id(), u2, spec_key_id());
    lemma_member_wrong_key(m2, spec_key_voice_id(), u2, spec_key_name());
    lemma_rt_member(lit_member_ws(), spec_key_voice_id(), v.voice_id, rest3);
    assert(parse_any_member(m2) == Some((2int, v.voice_id, rest3)));
    assert(rest3[0] == ',');
    assert(!is_ws(','));
    assert(skip_ws(rest3) == rest3);
    assert(rest3.drop_first() =~= lit_member_ws() + spec_key_created_at() + seq![':', ' ']
        + quoted(v.created_at) + (seq!['\n', ' ', ' ', '}'] + rest));
    lemma_rt_voice_close(v, rest);
}

#[verifier::rlimit(100)]
#[verifier::spinoff_prover]
proof fn lemma_rt_voice_m2(v: VoiceView, rest: Seq<char>)
    ensures
        parse_members(
            lit_member_ws() + spec_key_name() + seq![':', ' '] + quoted(v.name) + (seq![',']
                + lit_member_ws() + spec_key_voice_id() + seq![':', ' '] + quoted(v.voice_id)
                + seq![','] + lit_member_ws() + spec_key_created_at() + seq![':', ' '] + quoted(
                v.created_at,
            ) + (seq!['\n', ' ', ' ', '}'] + rest)),
            PartialVoice { id: Some(v.id), name: None, voice_id: None, created_at: None },
            3,
        ) == Some((v, rest)),
{
    let rest4 = seq!['\n', ' ', ' ', '}'] + rest;
    let rest2 = seq![','] + lit_member_ws() + spec_key_voice_id() + seq![':', ' '] + quoted(
        v.voice_id,
    ) + seq![','] + lit_member_ws() + spec_key_created_at() + seq![':', ' '] + quoted(
        v.created_at,
    ) + rest4;
    let m1 = lit_member_ws() + spec_key_name() + seq![':', ' '] + quoted(v.name) + rest2;
    let u1 = seq![':', ' '] + quoted(v.name) + rest2;
    assert(m1 =~= lit_member_ws() + (spec_key_name() + u1));
    assert((spec_key_name() + u1)[0] == '"');
    assert(!is_ws('"'));
    lemma_skip_ws_ws_prefix(lit_member_ws(), spec_key_name() + u1);
    lemma_member_wrong_key(m1, spec_key_name(), u1, spec_key_id());
    lemma_rt_member(lit_member_ws(), spec_key_name(), v.name, rest2);
    assert(parse_any_member(m1) == Some((1int, v.name, rest2)));
    assert(rest2[0] == ',');
    assert(!is_ws(','));
    assert(skip_ws(rest2) == rest2);
    assert(rest2.drop_first() =~= lit_member_ws() + spec_key_voice_id() + seq![':', ' '] + quoted(
        v.voice_id,
    ) + (seq![','] + lit_member_ws() + spec_key_created_at() + seq![':', ' '] + quoted(
        v.created_at,
    ) + (seq!['\n', ' ', ' ', '}'] + rest)));
    lemma_rt_voice_m3(v, rest);
}

#[verifier::rlimit(100)]
#[verifier::spinoff_prover]
proof fn lemma_rt_voice(v: VoiceView, rest: Seq<char>)
    ensures
        parse_voice(encode_voice(v) + rest) == Some((v, rest)),
{
    let s = encode_voice(v) + rest;
    let rest4 = seq!['\n', ' ', ' ', '}'] + rest;
    let rest1 = seq![','] + lit_member_ws() + spec_key_name() + seq![':', ' '] + quoted(v.name)
        + seq![','] + lit_member_ws() + spec_key_voice_id() + seq![':', ' '] + quoted(v.voice_id)
        + seq![','] + lit_member_ws() + spec_key_created_at() + seq![':', ' '] + quoted(
        v.created_at,
    ) + rest4;
    assert(s[0] == '{');
    let r0 = s.drop_first();
    assert(r0 =~= lit_member_ws() + spec_key_id() + seq![':', ' '] + quoted(v.id) + rest1);
    lemma_rt_member(lit_member_ws(), spec_key_id(), v.id, rest1);
    assert(parse_any_member(r0) == Some((0int, v.id, rest1)));
    assert(rest1[0] == ',');
    assert(!is_ws(','));
    assert(skip_ws(rest1) == rest1);
    assert(rest1.drop_first() =~= lit_member_ws() + spec_key_name() + seq![':', ' '] + quoted(
        v.name,
    ) + (seq![','] + lit_member_ws() + spec_key_voice_id() + seq![':', ' '] + quoted(v.voice_id)
        + seq![','] + lit_member_ws() + spec_key_created_at() + seq![':', ' '] + quoted(
        v.created_at,
    ) + (seq!['\n', ' ', ' ', '}'] + rest)));
    lemma_rt_voice_m2(v, rest);
    assert(parse_members(r0, empty_partial(), 4) == Some((v, rest)));
}

#[verifier::rlimit(100)]
#[verifier::spinoff_prover]
proof fn lemma_rt_items(vs: Seq<VoiceView>, from: int, rest: Seq<char>)
    requires
        0 <= from < vs.len(),
    ensures
        parse_items(encode_items_from(vs, from) + seq!['\n', ']'] + rest) == Some(
            (vs.skip(from), rest),
        ),
    decreases vs.len() - from,
{
    let v = vs[from];
    let s = encode_items_from(vs, from) + seq!['\n', ']'] + rest;
    if from == vs.len() - 1 {
        assert(s =~= encode_voice(v) + (seq!['\n', ']'] + rest));
        lemma_rt_voice(v, seq!['\n', ']'] + rest);
        let r = seq!['\n', ']'] + rest;
        assert(r =~= seq!['\n'] + (seq![']'] + rest));
        assert((seq![']'] + rest)[0] == ']');
        assert(!is_ws(']'));
        lemma_skip_ws_ws_prefix(seq!['\n'], seq![']'] + rest);
        assert(skip_ws(r) == seq![']'] + rest);
        assert((seq![']'] + rest).drop_first() =~= rest);
        assert(seq![v] =~= vs.skip(from));
    } else {
        let tail = encode_items_from(vs, from + 1) + seq!['\n', ']'] + rest;
        assert(s =~= encode_voice(v) + (seq![',', '\n', ' ', ' '] + tail));
        lemma_rt_voice(v, seq![',', '\n', ' ', ' '] + tail);
        let r = seq![',', '\n', ' ', ' '] + tail;
        assert(r[0] == ',');
        assert(!is_ws(','));
        assert(skip_ws(r) == r);
        assert(r.drop_first() =~= seq!['\n', ' ', ' '] + tail);
        assert(encode_voice(vs[from + 1])[0] == '{');
        assert(tail[0] == '{');
        assert(!is_ws('{'));
        lemma_skip_ws_ws_prefix(seq!['\n', ' ', ' '], tail);
        assert(skip_ws(r.drop_first()) == tail);
        lemma_rt_items(vs, from + 1, rest);
        assert(seq![v] + vs.skip(from + 1) =~= vs.skip(from));
    }
}

/// Round trip of the voices file format: parsing the encoded document of any
/// collection yields exactly that collection, contents and order alike.
pub proof fn lemma_voices_round_trip(vs: Seq<VoiceView>)
    ensures
        spec_parse_voices(spec_encode_voices(vs)) == Some(vs),
{
    if vs.len() == 0 {
        let s = seq!['[', ']'];
        assert(!is_ws('['));
        assert(skip_ws(s) == s);
        assert(s[0] == '[');
        let r = s.drop_first();
        assert(r =~= seq![']']);
        assert(!is_ws(']'));
        assert(skip_ws(r) == r);
        assert(r[0] == ']');
        assert(r.drop_first() =~= Seq::<char>::empty());
        assert(vs =~= Seq::<VoiceView>::empty());
    } else {
        let e = spec_encode_voices(vs);
        let items = encode_items_from(vs, 0);
        assert(e[0] == '[');
        assert(!is_ws('['));
        assert(skip_ws(e) == e);
        let r = e.drop_first();
        assert(r =~= seq!['\n', ' ', ' '] + (items + seq!['\n', ']']));
        assert(encode_voice(vs[0])[0] == '{');
        assert((items + seq!['\n', ']'])[0] == '{');
        assert(!is_ws('{'));
        lemma_skip_ws_ws_prefix(seq!['\n', ' ', ' '], items + seq!['\n', ']']);
        let r1 = items + seq!['\n', ']'];
        assert(skip_ws(r) == r1);
        assert(r1[0] == '{');
        assert(r1 =~= encode_items_from(vs, 0) + seq!['\n', ']'] + Seq::<char>::empty());
        lemma_rt_items(vs, 0, Seq::<char>::empty());
        assert(skip_ws(Seq::<char>::empty()).len() == 0);
        assert(vs.skip(0) =~= vs);
    }
}

} // verus!
