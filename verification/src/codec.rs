//! The protocol codec: the wire text form of an envelope and of the nested
//! chat payload, as executable `encode` / `decode` with a proved round trip.
//!
//! `encode` writes one canonical JSON text: the field names `messageType`,
//! `data` and `dataArray` in that order, absent options omitted, no extra
//! whitespace. `decode` accepts any JSON-object rendering of the envelope:
//! the fields in any order, insignificant whitespace, `null` for the two
//! optional fields, and the full set of JSON string escapes, surrogate pairs
//! included. A duplicated field, or a field this envelope does not have, is
//! malformed.

use vstd::prelude::*;
use vstd::string::StrSliceExecFns;
use vstd::string::StringExecFns;
use crate::protocol::{
    EnvelopeView, MsgTypeView, ChatMessageView, Envelope, MsgTypes, ChatMessage,
    str_register, str_users, str_message,
};

verus! {

/// Why a wire frame was rejected.
#[derive(Clone, Debug, PartialEq)]
pub enum DecodeError {
    /// The text is not a JSON rendering of a wire envelope.
    Malformed,
}

// ---------------------------------------------------------------------------
// Hexadecimal digits.
// ---------------------------------------------------------------------------

pub open spec fn hex_char(d: u32) -> char {
    if d == 0 {
        '0'
    } else if d == 1 {
        '1'
    } else if d == 2 {
        '2'
    } else if d == 3 {
        '3'
    } else if d == 4 {
        '4'
    } else if d == 5 {
        '5'
    } else if d == 6 {
        '6'
    } else if d == 7 {
        '7'
    } else if d == 8 {
        '8'
    } else if d == 9 {
        '9'
    } else if d == 10 {
        'A'
    } else if d == 11 {
        'B'
    } else if d == 12 {
        'C'
    } else if d == 13 {
        'D'
    } else if d == 14 {
        'E'
    } else {
        'F'
    }
}

/// The value of a hexadecimal digit, either case.
pub open spec fn hex_val(c: char) -> Option<int> {
    if c == '0' {
        Some(0int)
    } else if c == '1' {
        Some(1int)
    } else if c == '2' {
        Some(2int)
    } else if c == '3' {
        Some(3int)
    } else if c == '4' {
        Some(4int)
    } else if c == '5' {
        Some(5int)
    } else if c == '6' {
        Some(6int)
    } else if c == '7' {
        Some(7int)
    } else if c == '8' {
        Some(8int)
    } else if c == '9' {
        Some(9int)
    } else if c == 'a' || c == 'A' {
        Some(10int)
    } else if c == 'b' || c == 'B' {
        Some(11int)
    } else if c == 'c' || c == 'C' {
        Some(12int)
    } else if c == 'd' || c == 'D' {
        Some(13int)
    } else if c == 'e' || c == 'E' {
        Some(14int)
    } else if c == 'f' || c == 'F' {
        Some(15int)
    } else {
        None
    }
}

pub open spec fn has_code(c: char, n: int) -> bool {
    c as int == n
}

/// The character with scalar value `n` (meaningful only for valid values).
pub open spec fn char_of(n: int) -> char {
    choose|c: char| has_code(c, n)
}

/// A unicode scalar value. Every character of an executable string is one;
/// a ghost `Seq<char>` can hold arbitrary values of the type.
pub open spec fn scalar_char(c: char) -> bool {
    let n = c as int;
    (0 <= n && n < 0xD800) || (0xE000 <= n && n <= 0x10FFFF)
}

pub open spec fn scalar_text(s: Seq<char>) -> bool {
    forall|i: int| 0 <= i < s.len() ==> scalar_char(#[trigger] s[i])
}

/// All text carried by the envelope is made of unicode scalar values.
pub open spec fn env_scalar(e: EnvelopeView) -> bool {
    &&& scalar_text(tag_text(e.message_type))
    &&& (e.data matches Some(d) ==> scalar_text(d))
    &&& (e.data_array matches Some(a) ==> forall|i: int|
        0 <= i < a.len() ==> scalar_text(#[trigger] a[i]))
}

// ---------------------------------------------------------------------------
// String escaping inside a JSON string value.
// ---------------------------------------------------------------------------

/// Characters that may not stand raw inside a JSON string.
pub open spec fn is_escaped_char(c: char) -> bool {
    c == '"' || c == '\\' || (c as u32) < 32
}

/// The wire form `encode` writes for one character inside a quoted string:
/// the short escapes where JSON has them, `\u00XX` for the other control
/// characters, the character itself otherwise.
pub open spec fn esc_char(c: char) -> Seq<char> {
    if c == '"' {
        seq!['\\', '"']
    } else if c == '\\' {
        seq!['\\', '\\']
    } else if c == '\n' {
        seq!['\\', 'n']
    } else if c == '\r' {
        seq!['\\', 'r']
    } else if c == '\t' {
        seq!['\\', 't']
    } else if (c as u32) < 32 {
        seq!['\\', 'u', '0', '0', hex_char((c as u32) / 16), hex_char((c as u32) % 16)]
    } else {
        seq![c]
    }
}

/// The wire form of a whole string value (without the surrounding quotes).
pub open spec fn escape(s: Seq<char>) -> Seq<char>
    decreases s.len(),
{
    if s.len() == 0 {
        seq![]
    } else {
        esc_char(s[0]) + escape(s.skip(1))
    }
}

// ---------------------------------------------------------------------------
// The parsers, as spec functions over the whole text and a position in it.
// Each returns what it read and the position just past what it consumed.
// ---------------------------------------------------------------------------

/// JSON insignificant whitespace.
pub open spec fn is_ws(c: char) -> bool {
    c == ' ' || c == '\t' || c == '\n' || c == '\r'
}

/// The position of the first non-whitespace character at or after `i`.
pub open spec fn p_ws(s: Seq<char>, i: int) -> int
    decreases s.len() - i,
{
    if 0 <= i && i < s.len() && is_ws(s[i]) {
        p_ws(s, i + 1)
    } else {
        i
    }
}

pub proof fn lemma_p_ws_bounds(s: Seq<char>, i: int)
    ensures
        p_ws(s, i) >= i,
        i <= s.len() ==> p_ws(s, i) <= s.len(),
    decreases s.len() - i,
{
    if 0 <= i && i < s.len() && is_ws(s[i]) {
        lemma_p_ws_bounds(s, i + 1);
    }
}

/// Four hexadecimal digits at `i`.
pub open spec fn p_hex4(s: Seq<char>, i: int) -> Option<int> {
    if 0 <= i && i + 4 <= s.len() {
        match hex_val(s[i]) {
            Some(a) => match hex_val(s[i + 1]) {
                Some(b) => match hex_val(s[i + 2]) {
                    Some(c) => match hex_val(s[i + 3]) {
                        Some(d) => Some(a * 4096 + b * 256 + c * 16 + d),
                        None => None,
                    },
                    None => None,
                },
                None => None,
            },
            None => None,
        }
    } else {
        None
    }
}

/// A `\u` escape, `i` just after the `u`: one scalar value, or a surrogate
/// pair standing for one character beyond the basic plane; a lone surrogate
/// is malformed.
pub open spec fn p_unicode(s: Seq<char>, i: int) -> Option<(char, int)> {
    match p_hex4(s, i) {
        Some(n) => {
            if 0xD800 <= n < 0xDC00 {
                if i + 10 <= s.len() && s[i + 4] == '\\' && s[i + 5] == 'u' {
                    match p_hex4(s, i + 6) {
                        Some(lo) => {
                            if 0xDC00 <= lo < 0xE000 {
                                Some(
                                    (
                                        char_of(0x10000 + (n - 0xD800) * 1024 + (lo - 0xDC00)),
                                        i + 10,
                                    ),
                                )
                            } else {
                                None
                            }
                        },
                        None => None,
                    }
                } else {
                    None
                }
            } else if 0xDC00 <= n < 0xE000 {
                None
            } else {
                Some((char_of(n), i + 4))
            }
        },
        None => None,
    }
}

/// A backslash escape, `i` at the designator character.
pub open spec fn p_escape(s: Seq<char>, i: int) -> Option<(char, int)> {
    if i < 0 || i >= s.len() {
        None
    } else {
        let c = s[i];
        if c == '"' {
            Some(('"', i + 1))
        } else if c == '\\' {
            Some(('\\', i + 1))
        } else if c == '/' {
            Some(('/', i + 1))
        } else if c == 'b' {
            Some(('\u{8}', i + 1))
        } else if c == 'f' {
            Some(('\u{c}', i + 1))
        } else if c == 'n' {
            Some(('\n', i + 1))
        } else if c == 'r' {
            Some(('\r', i + 1))
        } else if c == 't' {
            Some(('\t', i + 1))
        } else if c == 'u' {
            p_unicode(s, i + 1)
        } else {
            None
        }
    }
}

pub proof fn lemma_p_escape_bounds(s: Seq<char>, i: int)
    ensures
        p_escape(s, i) matches Some(e) ==> i < e.1 <= s.len(),
{
}

/// Parses a quoted string value from just after its opening quote up to and
/// including its closing quote. A raw control character is malformed.
pub open spec fn p_string_body(s: Seq<char>, i: int) -> Option<(Seq<char>, int)>
    decreases s.len() - i,
{
    if i < 0 || i >= s.len() {
        None
    } else if s[i] == '"' {
        Some((seq![], i + 1))
    } else if s[i] == '\\' {
        match p_escape(s, i + 1) {
            Some(e) => {
                proof {
                    lemma_p_escape_bounds(s, i + 1);
                }
                match p_string_body(s, e.1) {
                    Some(r) => Some((seq![e.0] + r.0, r.1)),
                    None => None,
                }
            },
            None => None,
        }
    } else if (s[i] as u32) < 32 {
        None
    } else {
        match p_string_body(s, i + 1) {
            Some(r) => Some((seq![s[i]] + r.0, r.1)),
            None => None,
        }
    }
}

/// A successful string parse consumes at least its closing quote and stays
/// inside the text.
pub proof fn lemma_p_string_body_bounds(s: Seq<char>, i: int)
    ensures
        p_string_body(s, i) matches Some(r) ==> i < r.1 <= s.len(),
    decreases s.len() - i,
{
    if 0 <= i < s.len() {
        if s[i] == '\\' {
            lemma_p_escape_bounds(s, i + 1);
            let pe = p_escape(s, i + 1);
            if pe is Some {
                lemma_p_string_body_bounds(s, (pe->0).1);
            }
        } else {
            lemma_p_string_body_bounds(s, i + 1);
        }
    }
}

/// Parses the elements of an array of strings from just after the opening
/// bracket up to and including the closing bracket.
pub open spec fn p_elems(s: Seq<char>, i: int) -> Option<(Seq<Seq<char>>, int)>
    decreases s.len() - i,
{
    if i < 0 || i > s.len() {
        None
    } else {
        let j = p_ws(s, i);
        proof {
            lemma_p_ws_bounds(s, i);
        }
        if j < s.len() && s[j] == ']' {
            Some((seq![], j + 1))
        } else if j < s.len() && s[j] == '"' {
            match p_string_body(s, j + 1) {
                Some(r) => {
                    proof {
                        lemma_p_string_body_bounds(s, j + 1);
                    }
                    let m = p_ws(s, r.1);
                    proof {
                        lemma_p_ws_bounds(s, r.1);
                    }
                    if m < s.len() && s[m] == ',' {
                        match p_elems(s, m + 1) {
                            Some(rest) => Some((seq![r.0] + rest.0, rest.1)),
                            None => None,
                        }
                    } else if m < s.len() && s[m] == ']' {
                        Some((seq![r.0], m + 1))
                    } else {
                        None
                    }
                },
                None => None,
            }
        } else {
            None
        }
    }
}

pub proof fn lemma_p_elems_bounds(s: Seq<char>, i: int)
    ensures
        p_elems(s, i) matches Some(r) ==> i < r.1 <= s.len(),
    decreases s.len() - i,
{
    if 0 <= i <= s.len() {
        let j = p_ws(s, i);
        lemma_p_ws_bounds(s, i);
        if j < s.len() && s[j] != ']' && s[j] == '"' {
            lemma_p_string_body_bounds(s, j + 1);
            let pr = p_string_body(s, j + 1);
            if pr is Some {
                let m = p_ws(s, (pr->0).1);
                lemma_p_ws_bounds(s, (pr->0).1);
                if m < s.len() && s[m] == ',' {
                    lemma_p_elems_bounds(s, m + 1);
                }
            }
        }
    }
}

/// Whether the literal `lit` stands in `s` at position `i`.
pub open spec fn starts_with_at(s: Seq<char>, i: int, lit: Seq<char>) -> bool {
    0 <= i && i + lit.len() <= s.len() && s.subrange(i, i + lit.len()) == lit
}

/// Consumes the literal `lit` at position `i`.
pub open spec fn p_lit(s: Seq<char>, i: int, lit: Seq<char>) -> Option<int> {
    if starts_with_at(s, i, lit) {
        Some(i + lit.len())
    } else {
        None
    }
}

// The field names of the envelope and of the nested chat payload, and the
// null literal.
pub open spec fn key_message_type() -> Seq<char> {
    seq!['m', 'e', 's', 's', 'a', 'g', 'e', 'T', 'y', 'p', 'e']
}

pub open spec fn key_data() -> Seq<char> {
    seq!['d', 'a', 't', 'a']
}

pub open spec fn key_data_array() -> Seq<char> {
    seq!['d', 'a', 't', 'a', 'A', 'r', 'r', 'a', 'y']
}

pub open spec fn key_from() -> Seq<char> {
    seq!['f', 'r', 'o', 'm']
}

pub open spec fn key_message() -> Seq<char> {
    seq!['m', 'e', 's', 's', 'a', 'g', 'e']
}

pub open spec fn lit_null() -> Seq<char> {
    seq!['n', 'u', 'l', 'l']
}

/// Maps a tag text to the envelope kind it names.
pub open spec fn classify(tag: Seq<char>) -> MsgTypeView {
    if tag == str_register() {
        MsgTypeView::Register
    } else if tag == str_users() {
        MsgTypeView::Users
    } else if tag == str_message() {
        MsgTypeView::Message
    } else {
        MsgTypeView::Unknown(tag)
    }
}

pub open spec fn mk_env(tag: Seq<char>, data: Option<Seq<char>>, arr: Option<Seq<Seq<char>>>) -> EnvelopeView {
    EnvelopeView { message_type: classify(tag), data, data_array: arr }
}

/// One member of the envelope object, `i` at its opening quote. `mt`, `d`
/// and `a` carry what earlier members bound; `sd` and `sa` whether the two
/// optional fields were seen (a `null` binds nothing but counts as seen).
/// A field seen twice, or a field the envelope does not have, is malformed.
pub open spec fn p_members(
    s: Seq<char>,
    i: int,
    mt: Option<Seq<char>>,
    sd: bool,
    d: Option<Seq<char>>,
    sa: bool,
    a: Option<Seq<Seq<char>>>,
) -> Option<(EnvelopeView, int)>
    decreases s.len() - i, 1int,
{
    if i < 0 || i >= s.len() || s[i] != '"' {
        None
    } else {
        match p_string_body(s, i + 1) {
            Some(k) => {
                proof {
                    lemma_p_string_body_bounds(s, i + 1);
                }
                let j = p_ws(s, k.1);
                proof {
                    lemma_p_ws_bounds(s, k.1);
                }
                if j < s.len() && s[j] == ':' {
                    let v = p_ws(s, j + 1);
                    proof {
                        lemma_p_ws_bounds(s, j + 1);
                    }
                    if k.0 == key_message_type() {
                        if mt is Some {
                            None
                        } else if v < s.len() && s[v] == '"' {
                            match p_string_body(s, v + 1) {
                                Some(t) => {
                                    proof {
                                        lemma_p_string_body_bounds(s, v + 1);
                                    }
                                    p_members_after(s, t.1, Some(t.0), sd, d, sa, a)
                                },
                                None => None,
                            }
                        } else {
                            None
                        }
                    } else if k.0 == key_data() {
                        if sd {
                            None
                        } else if v < s.len() && s[v] == '"' {
                            match p_string_body(s, v + 1) {
                                Some(t) => {
                                    proof {
                                        lemma_p_string_body_bounds(s, v + 1);
                                    }
                                    p_members_after(s, t.1, mt, true, Some(t.0), sa, a)
                                },
                                None => None,
                            }
                        } else if starts_with_at(s, v, lit_null()) {
                            p_members_after(s, v + 4, mt, true, None, sa, a)
                        } else {
                            None
                        }
                    } else if k.0 == key_data_array() {
                        if sa {
                            None
                        } else if v < s.len() && s[v] == '[' {
                            match p_elems(s, v + 1) {
                                Some(r) => {
                                    proof {
                                        lemma_p_elems_bounds(s, v + 1);
                                    }
                                    p_members_after(s, r.1, mt, sd, d, true, Some(r.0))
                                },
                                None => None,
                            }
                        } else if starts_with_at(s, v, lit_null()) {
                            p_members_after(s, v + 4, mt, sd, d, true, None)
                        } else {
                            None
                        }
                    } else {
                        None
                    }
                } else {
                    None
                }
            },
            None => None,
        }
    }
}

/// After a member's value: a comma continues with the next member, a closing
/// brace ends the object — the tag field is then required.
pub open spec fn p_members_after(
    s: Seq<char>,
    i: int,
    mt: Option<Seq<char>>,
    sd: bool,
    d: Option<Seq<char>>,
    sa: bool,
    a: Option<Seq<Seq<char>>>,
) -> Option<(EnvelopeView, int)>
    decreases s.len() - i, 0int,
{
    if i < 0 || i > s.len() {
        None
    } else {
        let j = p_ws(s, i);
        proof {
            lemma_p_ws_bounds(s, i);
        }
        if j < s.len() && s[j] == ',' {
            let m = p_ws(s, j + 1);
            proof {
                lemma_p_ws_bounds(s, j + 1);
            }
            p_members(s, m, mt, sd, d, sa, a)
        } else if j < s.len() && s[j] == '}' {
            match mt {
                Some(t) => Some((mk_env(t, d, a), j + 1)),
                None => None,
            }
        } else {
            None
        }
    }
}

/// What `decode` returns on a given text: the envelope of any JSON-object
/// rendering, or nothing when the text is not one.
pub open spec fn spec_decode(s: Seq<char>) -> Option<EnvelopeView> {
    let i = p_ws(s, 0);
    if i < s.len() && s[i] == '{' {
        let j = p_ws(s, i + 1);
        match p_members(s, j, None, false, None, false, None) {
            Some(r) => {
                if p_ws(s, r.1) == s.len() {
                    Some(r.0)
                } else {
                    None
                }
            },
            None => None,
        }
    } else {
        None
    }
}

/// One member of the nested chat payload: `from` and `message`, both strings,
/// both required, neither twice, nothing else.
pub open spec fn p_chat_members(
    s: Seq<char>,
    i: int,
    f: Option<Seq<char>>,
    m: Option<Seq<char>>,
) -> Option<(ChatMessageView, int)>
    decreases s.len() - i, 1int,
{
    if i < 0 || i >= s.len() || s[i] != '"' {
        None
    } else {
        match p_string_body(s, i + 1) {
            Some(k) => {
                proof {
                    lemma_p_string_body_bounds(s, i + 1);
                }
                let j = p_ws(s, k.1);
                proof {
                    lemma_p_ws_bounds(s, k.1);
                }
                if j < s.len() && s[j] == ':' {
                    let v = p_ws(s, j + 1);
                    proof {
                        lemma_p_ws_bounds(s, j + 1);
                    }
                    if v < s.len() && s[v] == '"' {
                        match p_string_body(s, v + 1) {
                            Some(t) => {
                                proof {
                                    lemma_p_string_body_bounds(s, v + 1);
                                }
                                if k.0 == key_from() {
                                    if f is Some {
                                        None
                                    } else {
                                        p_chat_after(s, t.1, Some(t.0), m)
                                    }
                                } else if k.0 == key_message() {
                                    if m is Some {
                                        None
                                    } else {
                                        p_chat_after(s, t.1, f, Some(t.0))
                                    }
                                } else {
                                    None
                                }
                            },
                            None => None,
                        }
                    } else {
                        None
                    }
                } else {
                    None
                }
            },
            None => None,
        }
    }
}

pub open spec fn p_chat_after(
    s: Seq<char>,
    i: int,
    f: Option<Seq<char>>,
    m: Option<Seq<char>>,
) -> Option<(ChatMessageView, int)>
    decreases s.len() - i, 0int,
{
    if i < 0 || i > s.len() {
        None
    } else {
        let j = p_ws(s, i);
        proof {
            lemma_p_ws_bounds(s, i);
        }
        if j < s.len() && s[j] == ',' {
            let n = p_ws(s, j + 1);
            proof {
                lemma_p_ws_bounds(s, j + 1);
            }
            p_chat_members(s, n, f, m)
        } else if j < s.len() && s[j] == '}' {
            match (f, m) {
                (Some(fv), Some(mv)) => Some((ChatMessageView { from: fv, message: mv }, j + 1)),
                _ => None,
            }
        } else {
            None
        }
    }
}

/// What `decode_chat` returns on the nested payload text.
pub open spec fn spec_decode_chat(s: Seq<char>) -> Option<ChatMessageView> {
    let i = p_ws(s, 0);
    if i < s.len() && s[i] == '{' {
        let j = p_ws(s, i + 1);
        match p_chat_members(s, j, None, None) {
            Some(r) => {
                if p_ws(s, r.1) == s.len() {
                    Some(r.0)
                } else {
                    None
                }
            },
            None => None,
        }
    } else {
        None
    }
}

// ---------------------------------------------------------------------------
// The canonical wire text, as a spec function of the envelope.
// ---------------------------------------------------------------------------

// The fixed pieces of the canonical envelope text.
pub open spec fn lit_env_head() -> Seq<char> {
    seq!['{', '"', 'm', 'e', 's', 's', 'a', 'g', 'e', 'T', 'y', 'p', 'e', '"', ':', '"']
}

pub open spec fn lit_data() -> Seq<char> {
    seq![',', '"', 'd', 'a', 't', 'a', '"', ':', '"']
}

pub open spec fn lit_array() -> Seq<char> {
    seq![',', '"', 'd', 'a', 't', 'a', 'A', 'r', 'r', 'a', 'y', '"', ':', '[']
}

pub open spec fn tag_text(m: MsgTypeView) -> Seq<char> {
    match m {
        MsgTypeView::Register => str_register(),
        MsgTypeView::Users => str_users(),
        MsgTypeView::Message => str_message(),
        MsgTypeView::Unknown(t) => t,
    }
}

pub open spec fn enc_data(d: Option<Seq<char>>) -> Seq<char> {
    match d {
        Some(x) => lit_data() + escape(x) + seq!['"'],
        None => seq![],
    }
}

/// The element list of an array value, up to and including the closing bracket.
pub open spec fn enc_elems(a: Seq<Seq<char>>) -> Seq<char>
    decreases a.len(),
{
    if a.len() == 0 {
        seq![']']
    } else {
        seq!['"'] + escape(a[0]) + seq!['"'] + (if a.len() == 1 {
            seq![']']
        } else {
            seq![','] + enc_elems(a.skip(1))
        })
    }
}

pub open spec fn enc_array(a: Option<Seq<Seq<char>>>) -> Seq<char> {
    match a {
        Some(x) => lit_array() + enc_elems(x),
        None => seq![],
    }
}

/// The canonical wire text of an envelope.
pub open spec fn spec_encode(e: EnvelopeView) -> Seq<char> {
    lit_env_head() + escape(tag_text(e.message_type)) + seq!['"'] + enc_data(e.data)
        + enc_array(e.data_array) + seq!['}']
}

// ---------------------------------------------------------------------------
// Escaping lemmas.
// ---------------------------------------------------------------------------

/// Escaping distributes over concatenation.
pub proof fn lemma_escape_append(a: Seq<char>, b: Seq<char>)
    ensures
        escape(a + b) == escape(a) + escape(b),
    decreases a.len(),
{
    if a.len() == 0 {
        assert(a + b =~= b);
        assert(escape(a) + escape(b) =~= escape(b));
    } else {
        assert((a + b).skip(1) =~= a.skip(1) + b);
        lemma_escape_append(a.skip(1), b);
        assert(esc_char(a[0]) + (escape(a.skip(1)) + escape(b)) =~= (esc_char(a[0]) + escape(
            a.skip(1),
        )) + escape(b));
        assert((a + b)[0] == a[0]);
    }
}

/// A string with no character that needs escaping is its own wire form.
pub proof fn lemma_escape_identity(t: Seq<char>)
    requires
        forall|k: int| 0 <= k < t.len() ==> !is_escaped_char(t[k]),
    ensures
        escape(t) == t,
    decreases t.len(),
{
    if t.len() == 0 {
        assert(escape(t) =~= t);
    } else {
        lemma_escape_identity(t.skip(1));
        assert(esc_char(t[0]) =~= seq![t[0]]);
        assert(seq![t[0]] + t.skip(1) =~= t);
    }
}

// ---------------------------------------------------------------------------
// Inversion: the parsers recover what the encoder wrote.
// ---------------------------------------------------------------------------

/// One character of a matched piece of the text.
proof fn lemma_piece_index(u: Seq<char>, i: int, v: Seq<char>, k: int)
    requires
        0 <= i,
        i + v.len() <= u.len(),
        u.subrange(i, i + v.len()) == v,
        0 <= k < v.len(),
    ensures
        u[i + k] == v[k],
{
    assert(u.subrange(i, i + v.len() as int)[k] == u[i + k]);
}

/// A matched piece of the text matches on every sub-piece.
proof fn lemma_piece_sub(u: Seq<char>, i: int, v: Seq<char>, lo: int, hi: int)
    requires
        0 <= i,
        i + v.len() <= u.len(),
        u.subrange(i, i + v.len()) == v,
        0 <= lo <= hi <= v.len(),
    ensures
        u.subrange(i + lo, i + hi) == v.subrange(lo, hi),
{
    assert forall|k: int| 0 <= k < hi - lo implies u.subrange(i + lo, i + hi)[k] == v.subrange(
        lo,
        hi,
    )[k] by {
        lemma_piece_index(u, i, v, lo + k);
        assert(u.subrange(i + lo, i + hi)[k] == u[i + lo + k]);
        assert(v.subrange(lo, hi)[k] == v[lo + k]);
    }
    assert(u.subrange(i + lo, i + hi) =~= v.subrange(lo, hi));
}

/// Parsing a quoted string whose body is the escaped form of `t`, followed by
/// its closing quote, yields exactly `t`.
pub proof fn lemma_parse_escaped(u: Seq<char>, i: int, t: Seq<char>)
    requires
        scalar_text(t),
        0 <= i,
        i + escape(t).len() + 1 <= u.len(),
        u.subrange(i, i + escape(t).len()) == escape(t),
        u[i + escape(t).len()] == '"',
    ensures
        p_string_body(u, i) == Some((t, i + escape(t).len() + 1)),
    decreases t.len(),
{
    let le = escape(t).len() as int;
    if t.len() == 0 {
        assert(escape(t) =~= Seq::<char>::empty());
        assert(u[i] == '"');
        assert(t =~= Seq::<char>::empty());
    } else {
        let c = t[0];
        let rest = t.skip(1);
        assert(scalar_char(c));
        assert(scalar_text(rest)) by {
            assert(forall|k: int| 0 <= k < rest.len() ==> rest[k] == t[k + 1]);
        }
        assert(escape(t) == esc_char(c) + escape(rest));
        let lr = escape(rest).len() as int;
        if !is_escaped_char(c) {
            assert(esc_char(c) =~= seq![c]);
            assert(le == 1 + lr);
            lemma_piece_index(u, i, escape(t), 0);
            assert(u[i] == c);
            lemma_piece_sub(u, i, escape(t), 1, le);
            assert(escape(t).subrange(1, le) =~= escape(rest));
            lemma_parse_escaped(u, i + 1, rest);
            assert(u[i] != '"' && u[i] != '\\' && (u[i] as u32) >= 32);
            assert(seq![c] + rest =~= t);
        } else if c == '"' || c == '\\' || c == '\n' || c == '\r' || c == '\t' {
            assert(esc_char(c).len() == 2 && esc_char(c)[0] == '\\');
            assert(le == 2 + lr);
            lemma_piece_index(u, i, escape(t), 0);
            lemma_piece_index(u, i, escape(t), 1);
            assert(u[i] == '\\');
            assert(u[i + 1] == esc_char(c)[1]);
            assert(p_escape(u, i + 1) == Some((c, i + 2)));
            lemma_piece_sub(u, i, escape(t), 2, le);
            assert(escape(t).subrange(2, le) =~= escape(rest));
            lemma_parse_escaped(u, i + 2, rest);
            assert(seq![c] + rest =~= t);
        } else {
            // a control character, written as \u00XX
            let cu = c as u32;
            assert((c as int) < 0xD800);
            assert(cu as int == c as int);
            assert(cu < 32);
            assert(esc_char(c).len() == 6);
            assert(le == 6 + lr);
            lemma_piece_index(u, i, escape(t), 0);
            lemma_piece_index(u, i, escape(t), 1);
            lemma_piece_index(u, i, escape(t), 2);
            lemma_piece_index(u, i, escape(t), 3);
            lemma_piece_index(u, i, escape(t), 4);
            lemma_piece_index(u, i, escape(t), 5);
            assert(u[i] == '\\' && u[i + 1] == 'u' && u[i + 2] == '0' && u[i + 3] == '0');
            assert(u[i + 4] == hex_char(cu / 16) && u[i + 5] == hex_char(cu % 16));
            assert(hex_val(hex_char(cu / 16)) == Some((cu / 16) as int));
            assert(hex_val(hex_char(cu % 16)) == Some((cu % 16) as int));
            assert(p_hex4(u, i + 2) == Some((cu / 16) * 16 + (cu % 16) as int));
            assert((cu / 16) * 16 + (cu % 16) == cu as int);
            assert(char_of(cu as int) == c) by {
                assert(has_code(c, cu as int));
            }
            assert(p_unicode(u, i + 2) == Some((c, i + 6)));
            assert(p_escape(u, i + 1) == Some((c, i + 6)));
            lemma_piece_sub(u, i, escape(t), 6, le);
            assert(escape(t).subrange(6, le) =~= escape(rest));
            lemma_parse_escaped(u, i + 6, rest);
            assert(seq![c] + rest =~= t);
        }
    }
}

/// Parsing the encoded element list of `a` yields exactly `a`.
pub proof fn lemma_parse_elems(u: Seq<char>, i: int, a: Seq<Seq<char>>)
    requires
        forall|k: int| 0 <= k < a.len() ==> scalar_text(#[trigger] a[k]),
        0 <= i,
        i + enc_elems(a).len() <= u.len(),
        u.subrange(i, i + enc_elems(a).len()) == enc_elems(a),
    ensures
        p_elems(u, i) == Some((a, i + enc_elems(a).len())),
    decreases a.len(),
{
    let v = enc_elems(a);
    let le = v.len() as int;
    if a.len() == 0 {
        assert(v =~= seq![']']);
        lemma_piece_index(u, i, v, 0);
        assert(u[i] == ']');
        assert(p_ws(u, i) == i);
        assert(a =~= Seq::<Seq<char>>::empty());
    } else {
        let e0 = escape(a[0]);
        let l0 = e0.len() as int;
        let tail: Seq<char> = if a.len() == 1 {
            seq![']']
        } else {
            seq![','] + enc_elems(a.skip(1))
        };
        assert(v == seq!['"'] + e0 + seq!['"'] + tail);
        assert(le == l0 + 2 + tail.len());
        lemma_piece_index(u, i, v, 0);
        assert(u[i] == '"');
        assert(p_ws(u, i) == i);
        // the quoted first element
        lemma_piece_sub(u, i, v, 1, 1 + l0);
        assert(v.subrange(1, 1 + l0) =~= e0);
        lemma_piece_index(u, i, v, 1 + l0);
        assert(u[i + 1 + l0] == '"');
        lemma_parse_escaped(u, i + 1, a[0]);
        let j = i + 1 + l0 + 1;
        assert(p_string_body(u, i + 1) == Some((a[0], j)));
        lemma_piece_index(u, i, v, 2 + l0);
        assert(u[j] == tail[0]);
        assert(p_ws(u, j) == j);
        if a.len() == 1 {
            assert(u[j] == ']');
            assert(seq![a[0]] =~= a);
            assert(le == l0 + 3);
        } else {
            assert(u[j] == ',');
            let lr = enc_elems(a.skip(1)).len() as int;
            assert(le == l0 + 3 + lr);
            lemma_piece_sub(u, i, v, 3 + l0, le);
            assert(v.subrange(3 + l0, le) =~= enc_elems(a.skip(1)));
            assert(forall|k: int| 0 <= k < a.skip(1).len() ==> a.skip(1)[k] == a[k + 1]);
            lemma_parse_elems(u, j + 1, a.skip(1));
            assert(seq![a[0]] + a.skip(1) =~= a);
        }
    }
}

// Positions of the pieces of the canonical text: just past the tag's
// closing quote, just past the data member, and the closing brace.
spec fn off_tag_end(e: EnvelopeView) -> int {
    lit_env_head().len() + escape(tag_text(e.message_type)).len() + 1int
}

spec fn off_data_end(e: EnvelopeView) -> int {
    off_tag_end(e) + enc_data(e.data).len()
}

spec fn off_close(e: EnvelopeView) -> int {
    off_data_end(e) + enc_array(e.data_array).len()
}

/// The head of the canonical text parses to its tag member.
#[verifier::rlimit(100)]
proof fn lemma_rt_head(e: EnvelopeView)
    requires
        env_scalar(e),
    ensures
        p_members(spec_encode(e), 1, None, false, None, false, None) == p_members_after(
            spec_encode(e),
            off_tag_end(e),
            Some(tag_text(e.message_type)),
            false,
            None,
            false,
            None,
        ),
    decreases 0int,
{
    let u = spec_encode(e);
    let tag = tag_text(e.message_type);
    let et = escape(tag);
    let h = lit_env_head().len() as int;
    let j1 = off_tag_end(e);
    assert(u.len() == off_close(e) + 1);
    assert(u.subrange(0, h) =~= lit_env_head());
    lemma_piece_index(u, 0, lit_env_head(), 1);
    lemma_piece_index(u, 0, lit_env_head(), 13);
    lemma_piece_index(u, 0, lit_env_head(), 14);
    lemma_piece_index(u, 0, lit_env_head(), 15);
    assert(u[1] == '"' && u[13] == '"' && u[14] == ':' && u[15] == '"');
    assert(p_ws(u, 14) == 14 && p_ws(u, 15) == 15);
    lemma_piece_sub(u, 0, lit_env_head(), 2, 13);
    assert(lit_env_head().subrange(2, 13) =~= key_message_type());
    assert(scalar_text(key_message_type()));
    lemma_escape_identity(key_message_type());
    lemma_parse_escaped(u, 2, key_message_type());
    assert(p_string_body(u, 2) == Some((key_message_type(), 14int)));
    // the tag string
    assert(u.subrange(h, h + et.len()) =~= et);
    assert(u[h + et.len()] == '"');
    lemma_parse_escaped(u, h, tag);
    assert(p_string_body(u, h) == Some((tag, j1)));
}

/// The data member of the canonical text, if any, parses and binds `data`.
#[verifier::rlimit(100)]
proof fn lemma_rt_data(e: EnvelopeView)
    requires
        env_scalar(e),
    ensures
        p_members_after(spec_encode(e), off_tag_end(e), Some(tag_text(e.message_type)), false,
            None, false, None) == p_members_after(
            spec_encode(e),
            off_data_end(e),
            Some(tag_text(e.message_type)),
            e.data is Some,
            e.data,
            false,
            None,
        ),
    decreases 0int,
{
    let u = spec_encode(e);
    let tag = tag_text(e.message_type);
    let j1 = off_tag_end(e);
    let m1 = off_data_end(e);
    assert(u.len() == off_close(e) + 1);
    match e.data {
        Some(x) => {
            let d = enc_data(e.data);
            assert(d == lit_data() + escape(x) + seq!['"']);
            assert(u.subrange(j1, j1 + 9) =~= lit_data());
            lemma_piece_index(u, j1, lit_data(), 0);
            lemma_piece_index(u, j1, lit_data(), 1);
            lemma_piece_index(u, j1, lit_data(), 6);
            lemma_piece_index(u, j1, lit_data(), 7);
            lemma_piece_index(u, j1, lit_data(), 8);
            assert(u[j1] == ',' && u[j1 + 1] == '"' && u[j1 + 6] == '"' && u[j1 + 7] == ':' && u[j1
                + 8] == '"');
            assert(p_ws(u, j1) == j1 && p_ws(u, j1 + 1) == j1 + 1 && p_ws(u, j1 + 7) == j1 + 7
                && p_ws(u, j1 + 8) == j1 + 8);
            lemma_piece_sub(u, j1, lit_data(), 2, 6);
            assert(lit_data().subrange(2, 6) =~= key_data());
            assert(scalar_text(key_data()));
            lemma_escape_identity(key_data());
            lemma_parse_escaped(u, j1 + 2, key_data());
            assert(p_string_body(u, j1 + 2) == Some((key_data(), j1 + 7)));
            assert(key_data() != key_message_type());
            // the data value
            assert(u.subrange(j1 + 9, j1 + 9 + escape(x).len()) =~= escape(x));
            assert(u[j1 + 9 + escape(x).len()] == '"');
            lemma_parse_escaped(u, j1 + 9, x);
            assert(p_string_body(u, j1 + 9) == Some((x, m1)));
            assert(p_members_after(u, j1, Some(tag), false, None, false, None) == p_members(
                u,
                j1 + 1,
                Some(tag),
                false,
                None,
                false,
                None,
            ));
        },
        None => {
            assert(enc_data(e.data).len() == 0);
        },
    }
}

/// The array member of the canonical text, if any, parses, and the closing
/// brace delivers the envelope.
#[verifier::rlimit(100)]
proof fn lemma_rt_array(e: EnvelopeView, sd: bool)
    requires
        env_scalar(e),
    ensures
        p_members_after(spec_encode(e), off_data_end(e), Some(tag_text(e.message_type)), sd,
            e.data, false, None) == Some(
            (mk_env(tag_text(e.message_type), e.data, e.data_array), off_close(e) + 1),
        ),
    decreases 0int,
{
    let u = spec_encode(e);
    let tag = tag_text(e.message_type);
    let m1 = off_data_end(e);
    let n = off_close(e);
    assert(u.len() == n + 1);
    assert(u[n] == '}');
    assert(p_ws(u, n) == n);
    match e.data_array {
        Some(x2) => {
            let a = enc_array(e.data_array);
            assert(a == lit_array() + enc_elems(x2));
            assert(u.subrange(m1, m1 + 14) =~= lit_array());
            lemma_piece_index(u, m1, lit_array(), 0);
            lemma_piece_index(u, m1, lit_array(), 1);
            lemma_piece_index(u, m1, lit_array(), 11);
            lemma_piece_index(u, m1, lit_array(), 12);
            lemma_piece_index(u, m1, lit_array(), 13);
            assert(u[m1] == ',' && u[m1 + 1] == '"' && u[m1 + 11] == '"' && u[m1 + 12] == ':'
                && u[m1 + 13] == '[');
            assert(p_ws(u, m1) == m1 && p_ws(u, m1 + 1) == m1 + 1 && p_ws(u, m1 + 12) == m1 + 12
                && p_ws(u, m1 + 13) == m1 + 13);
            lemma_piece_sub(u, m1, lit_array(), 2, 11);
            assert(lit_array().subrange(2, 11) =~= key_data_array());
            assert(scalar_text(key_data_array()));
            lemma_escape_identity(key_data_array());
            lemma_parse_escaped(u, m1 + 2, key_data_array());
            assert(p_string_body(u, m1 + 2) == Some((key_data_array(), m1 + 12)));
            assert(key_data_array() != key_message_type());
            assert(key_data_array() != key_data());
            // the elements
            assert(u.subrange(m1 + 14, m1 + 14 + enc_elems(x2).len()) =~= enc_elems(x2));
            lemma_parse_elems(u, m1 + 14, x2);
            assert(p_elems(u, m1 + 14) == Some((x2, n)));
            assert(p_members_after(u, m1, Some(tag), sd, e.data, false, None) == p_members(
                u,
                m1 + 1,
                Some(tag),
                sd,
                e.data,
                false,
                None,
            ));
        },
        None => {
            assert(enc_array(e.data_array).len() == 0);
        },
    }
}

/// Round trip: decoding the canonical wire text of any well-formed envelope
/// made of unicode scalar text yields that envelope. (A ghost sequence can
/// hold values outside the scalar range, which no executable string carries;
/// those are left out.)
#[verifier::rlimit(100)]
pub proof fn lemma_round_trip(e: EnvelopeView)
    requires
        e.wf(),
        env_scalar(e),
    ensures
        spec_decode(spec_encode(e)) == Some(e),
{
    let u = spec_encode(e);
    let tag = tag_text(e.message_type);
    let n = off_close(e);
    assert(u.len() == n + 1);
    assert(u.subrange(0, lit_env_head().len() as int) =~= lit_env_head());
    lemma_piece_index(u, 0, lit_env_head(), 0);
    assert(u[0] == '{');
    assert(p_ws(u, 0) == 0 && p_ws(u, 1) == 1);
    lemma_rt_head(e);
    lemma_rt_data(e);
    lemma_rt_array(e, e.data is Some);
    assert(p_members(u, 1, None, false, None, false, None) == Some(
        (mk_env(tag, e.data, e.data_array), n + 1),
    ));
    assert(p_ws(u, n + 1) == n + 1);
    assert(classify(tag) == e.message_type) by {
        match e.message_type {
            MsgTypeView::Register => {},
            MsgTypeView::Users => {
                assert(str_users().len() != str_register().len());
            },
            MsgTypeView::Message => {
                assert(str_message().len() != str_register().len());
                assert(str_message().len() != str_users().len());
            },
            MsgTypeView::Unknown(t) => {},
        }
    }
    assert(mk_env(tag, e.data, e.data_array) =~= e);
}

// ---------------------------------------------------------------------------
// Trusted items.
// ---------------------------------------------------------------------------

/// Relies on std's String::push: appends exactly the one character at the end.
pub assume_specification[ String::push ](s: &mut String, c: char)
    ensures
        final(s)@ == old(s)@.push(c),
;

/// Relies on std's char::from_u32: `Some` exactly when `n` is a valid scalar
/// value (not a surrogate, at most 0x10FFFF), and then the character with
/// that value.
pub assume_specification[ char::from_u32 ](n: u32) -> (r: Option<char>)
    ensures
        r matches Some(c) ==> c as int == n as int,
        r is None <==> (0xD800 <= n < 0xE000 || n > 0x10FFFF),
;

// ---------------------------------------------------------------------------
// Executable encoding.
// ---------------------------------------------------------------------------

pub fn hex_char_exec(d: u32) -> (c: char)
    requires
        d < 16,
    ensures
        c == hex_char(d),
{
    if d == 0 {
        '0'
    } else if d == 1 {
        '1'
    } else if d == 2 {
        '2'
    } else if d == 3 {
        '3'
    } else if d == 4 {
        '4'
    } else if d == 5 {
        '5'
    } else if d == 6 {
        '6'
    } else if d == 7 {
        '7'
    } else if d == 8 {
        '8'
    } else if d == 9 {
        '9'
    } else if d == 10 {
        'A'
    } else if d == 11 {
        'B'
    } else if d == 12 {
        'C'
    } else if d == 13 {
        'D'
    } else if d == 14 {
        'E'
    } else {
        'F'
    }
}

/// Appends the escaped wire form of `s` to `out`.
fn escape_into(out: &mut String, s: &str)
    ensures
        final(out)@ == old(out)@ + escape(s@),
{
    let n = s.unicode_len();
    let mut k: usize = 0;
    proof {
        assert(s@.take(0) =~= Seq::<char>::empty());
        assert(escape(s@.take(0)) =~= Seq::<char>::empty());
        assert(out@ =~= old(out)@ + escape(s@.take(0)));
    }
    while k < n
        invariant
            k <= n,
            n == s@.len(),
            out@ == old(out)@ + escape(s@.take(k as int)),
        decreases n - k,
    {
        let c = s.get_char(k);
        let u = c as u32;
        if c == '"' {
            out.push('\\');
            out.push('"');
        } else if c == '\\' {
            out.push('\\');
            out.push('\\');
        } else if c == '\n' {
            out.push('\\');
            out.push('n');
        } else if c == '\r' {
            out.push('\\');
            out.push('r');
        } else if c == '\t' {
            out.push('\\');
            out.push('t');
        } else if u < 32 {
            out.push('\\');
            out.push('u');
            out.push('0');
            out.push('0');
            out.push(hex_char_exec(u / 16));
            out.push(hex_char_exec(u % 16));
        } else {
            out.push(c);
        }
        proof {
            lemma_escape_append(s@.take(k as int), seq![c]);
            assert(s@.take(k as int + 1) =~= s@.take(k as int) + seq![c]);
            assert(seq![c].skip(1) =~= Seq::<char>::empty());
            assert(escape(seq![c].skip(1)) =~= Seq::<char>::empty());
            assert(escape(seq![c]) =~= esc_char(c));
            assert(out@ =~= old(out)@ + escape(s@.take(k as int + 1)));
        }
        k = k + 1;
    }
    proof {
        assert(s@.take(n as int) =~= s@);
    }
}

/// Appends the encoded element list of `v` from `idx` on, closing bracket
/// included.
fn emit_elems(out: &mut String, v: &Vec<String>, idx: usize)
    requires
        idx <= v.len(),
    ensures
        final(out)@ == old(out)@ + enc_elems(v.deep_view().skip(idx as int)),
    decreases v.len() - idx,
{
    let ghost a = v.deep_view().skip(idx as int);
    if idx == v.len() {
        out.append("]");
        proof {
            reveal_strlit("]");
            assert(a =~= Seq::<Seq<char>>::empty());
            assert(enc_elems(a) =~= seq![']']);
            assert(out@ =~= old(out)@ + enc_elems(a));
        }
    } else {
        proof {
            assert(a[0] == v.deep_view()[idx as int]);
        }
        out.append("\"");
        escape_into(out, v[idx].as_str());
        out.append("\"");
        if idx + 1 == v.len() {
            out.append("]");
            proof {
                reveal_strlit("\"");
                reveal_strlit("]");
                assert(a.len() == 1);
                assert(out@ =~= old(out)@ + enc_elems(a));
            }
        } else {
            out.append(",");
            emit_elems(out, v, idx + 1);
            proof {
                reveal_strlit("\"");
                reveal_strlit(",");
                assert(a.skip(1) =~= v.deep_view().skip(idx as int + 1));
                assert(out@ =~= old(out)@ + enc_elems(a));
            }
        }
    }
}

/// Writes the canonical wire text of an envelope.
pub fn encode(e: &Envelope) -> (r: String)
    ensures
        r@ == spec_encode(e@),
{
    let mut out = String::new();
    out.append("{\"messageType\":\"");
    proof {
        reveal_strlit("{\"messageType\":\"");
        assert(out@ =~= lit_env_head());
    }
    match &e.message_type {
        MsgTypes::Register => {
            out.append("register");
            proof {
                reveal_strlit("register");
                assert("register"@ =~= str_register());
                lemma_escape_identity(str_register());
            }
        },
        MsgTypes::Users => {
            out.append("users");
            proof {
                reveal_strlit("users");
                assert("users"@ =~= str_users());
                lemma_escape_identity(str_users());
            }
        },
        MsgTypes::Message => {
            out.append("message");
            proof {
                reveal_strlit("message");
                assert("message"@ =~= str_message());
                lemma_escape_identity(str_message());
            }
        },
        MsgTypes::Unknown(t) => {
            escape_into(&mut out, t.as_str());
        },
    }
    out.append("\"");
    proof {
        reveal_strlit("\"");
        assert(out@ =~= lit_env_head() + escape(tag_text(e@.message_type)) + seq!['"']);
    }
    match &e.data {
        Some(d) => {
            out.append(",\"data\":\"");
            proof {
                reveal_strlit(",\"data\":\"");
                assert(",\"data\":\""@ =~= lit_data());
            }
            escape_into(&mut out, d.as_str());
            out.append("\"");
        },
        None => {},
    }
    proof {
        assert(out@ =~= lit_env_head() + escape(tag_text(e@.message_type)) + seq!['"'] + enc_data(
            e@.data,
        ));
    }
    match &e.data_array {
        Some(v) => {
            out.append(",\"dataArray\":[");
            proof {
                reveal_strlit(",\"dataArray\":[");
                assert(",\"dataArray\":["@ =~= lit_array());
            }
            emit_elems(&mut out, v, 0);
            proof {
                assert(v.deep_view().skip(0) =~= v.deep_view());
            }
        },
        None => {},
    }
    out.append("}");
    proof {
        reveal_strlit("}");
        assert(out@ =~= spec_encode(e@));
    }
    out
}

// ---------------------------------------------------------------------------
// Executable decoding.
// ---------------------------------------------------------------------------

/// Skips insignificant whitespace.
fn skip_ws(s: &str, i: usize) -> (r: usize)
    requires
        i <= s@.len(),
    ensures
        r as int == p_ws(s@, i as int),
        i <= r <= s@.len(),
        r as int == s@.len() || !is_ws(s@[r as int]),
{
    let n = s.unicode_len();
    let mut k = i;
    loop
        invariant
            i <= k <= n,
            n == s@.len(),
            p_ws(s@, i as int) == p_ws(s@, k as int),
        decreases n - k,
    {
        if k >= n {
            return k;
        }
        let c = s.get_char(k);
        if !(c == ' ' || c == '\t' || c == '\n' || c == '\r') {
            return k;
        }
        proof {
            assert(p_ws(s@, k as int) == p_ws(s@, k as int + 1));
        }
        k = k + 1;
    }
}

/// Consumes the literal `lit` at position `i`, if it stands there.
fn match_lit(s: &str, i: usize, lit: &str) -> (r: Option<usize>)
    ensures
        r matches Some(j) ==> p_lit(s@, i as int, lit@) == Some(j as int),
        r is None ==> p_lit(s@, i as int, lit@) is None,
{
    let n = s.unicode_len();
    let m = lit.unicode_len();
    if i > n || m > n - i {
        proof {
            assert(!starts_with_at(s@, i as int, lit@));
        }
        return None;
    }
    let mut k: usize = 0;
    while k < m
        invariant
            k <= m,
            m == lit@.len(),
            n == s@.len(),
            i + m <= n,
            forall|q: int| 0 <= q < k ==> s@[i + q] == lit@[q],
        decreases m - k,
    {
        if s.get_char(i + k) != lit.get_char(k) {
            proof {
                assert(!starts_with_at(s@, i as int, lit@)) by {
                    if starts_with_at(s@, i as int, lit@) {
                        lemma_piece_index(s@, i as int, lit@, k as int);
                    }
                }
            }
            return None;
        }
        k = k + 1;
    }
    proof {
        assert(s@.subrange(i as int, i + m) =~= lit@);
    }
    Some(i + m)
}

fn hex_val_exec(c: char) -> (r: Option<u32>)
    ensures
        r matches Some(v) ==> hex_val(c) == Some(v as int) && v < 16,
        r is None ==> hex_val(c) is None,
{
    if c == '0' {
        Some(0)
    } else if c == '1' {
        Some(1)
    } else if c == '2' {
        Some(2)
    } else if c == '3' {
        Some(3)
    } else if c == '4' {
        Some(4)
    } else if c == '5' {
        Some(5)
    } else if c == '6' {
        Some(6)
    } else if c == '7' {
        Some(7)
    } else if c == '8' {
        Some(8)
    } else if c == '9' {
        Some(9)
    } else if c == 'a' || c == 'A' {
        Some(10)
    } else if c == 'b' || c == 'B' {
        Some(11)
    } else if c == 'c' || c == 'C' {
        Some(12)
    } else if c == 'd' || c == 'D' {
        Some(13)
    } else if c == 'e' || c == 'E' {
        Some(14)
    } else if c == 'f' || c == 'F' {
        Some(15)
    } else {
        None
    }
}

/// Reads four hexadecimal digits.
fn parse_hex4(s: &str, i: usize) -> (r: Option<u32>)
    ensures
        r matches Some(v) ==> p_hex4(s@, i as int) == Some(v as int) && v < 0x10000,
        r is None ==> p_hex4(s@, i as int) is None,
{
    let n = s.unicode_len();
    if i > n || n - i < 4 {
        return None;
    }
    let a = match hex_val_exec(s.get_char(i)) {
        Some(v) => v,
        None => {
            return None;
        },
    };
    let b = match hex_val_exec(s.get_char(i + 1)) {
        Some(v) => v,
        None => {
            return None;
        },
    };
    let c = match hex_val_exec(s.get_char(i + 2)) {
        Some(v) => v,
        None => {
            return None;
        },
    };
    let d = match hex_val_exec(s.get_char(i + 3)) {
        Some(v) => v,
        None => {
            return None;
        },
    };
    Some(a * 4096 + b * 256 + c * 16 + d)
}

/// Reads a `\u` escape, `i` just after the `u`.
fn parse_unicode(s: &str, i: usize) -> (r: Option<(char, usize)>)
    ensures
        r matches Some(p) ==> p_unicode(s@, i as int) == Some((p.0, p.1 as int)),
        r is None ==> p_unicode(s@, i as int) is None,
{
    let n = s.unicode_len();
    let hi = match parse_hex4(s, i) {
        Some(v) => v,
        None => {
            return None;
        },
    };
    if 0xD800 <= hi && hi < 0xDC00 {
        if i <= n && n - i >= 10 && s.get_char(i + 4) == '\\' && s.get_char(i + 5) == 'u' {
            let lo = match parse_hex4(s, i + 6) {
                Some(v) => v,
                None => {
                    return None;
                },
            };
            if 0xDC00 <= lo && lo < 0xE000 {
                let code: u32 = 0x10000 + (hi - 0xD800) * 1024 + (lo - 0xDC00);
                match char::from_u32(code) {
                    Some(c) => {
                        proof {
                            assert(has_code(c, code as int));
                            assert(char_of(code as int) == c);
                        }
                        Some((c, i + 10))
                    },
                    None => None,
                }
            } else {
                None
            }
        } else {
            None
        }
    } else if 0xDC00 <= hi && hi < 0xE000 {
        None
    } else {
        proof {
            assert(i as int + 4 <= s@.len());
        }
        match char::from_u32(hi) {
            Some(c) => {
                proof {
                    assert(has_code(c, hi as int));
                    assert(char_of(hi as int) == c);
                }
                Some((c, i + 4))
            },
            None => None,
        }
    }
}

/// Reads a backslash escape, `i` at the designator character.
fn parse_escape(s: &str, i: usize) -> (r: Option<(char, usize)>)
    ensures
        r matches Some(p) ==> p_escape(s@, i as int) == Some((p.0, p.1 as int)),
        r is None ==> p_escape(s@, i as int) is None,
{
    let n = s.unicode_len();
    if i >= n {
        return None;
    }
    let c = s.get_char(i);
    if c == '"' {
        Some(('"', i + 1))
    } else if c == '\\' {
        Some(('\\', i + 1))
    } else if c == '/' {
        Some(('/', i + 1))
    } else if c == 'b' {
        Some(('\u{8}', i + 1))
    } else if c == 'f' {
        Some(('\u{c}', i + 1))
    } else if c == 'n' {
        Some(('\n', i + 1))
    } else if c == 'r' {
        Some(('\r', i + 1))
    } else if c == 't' {
        Some(('\t', i + 1))
    } else if c == 'u' {
        parse_unicode(s, i + 1)
    } else {
        None
    }
}

/// Reads a quoted string value from just after its opening quote, undoing the
/// escaping, up to and including its closing quote.
fn parse_string_body(s: &str, i: usize) -> (r: Option<(String, usize)>)
    ensures
        r matches Some(p) ==> p_string_body(s@, i as int) == Some((p.0@, p.1 as int)),
        r is None ==> p_string_body(s@, i as int) is None,
{
    let n = s.unicode_len();
    let mut out = String::new();
    let mut k = i;
    if i > n {
        return None;
    }
    loop
        invariant
            i <= k <= n,
            n == s@.len(),
            match p_string_body(s@, k as int) {
                Some(r) => p_string_body(s@, i as int) == Some((out@ + r.0, r.1)),
                None => p_string_body(s@, i as int) is None,
            },
        decreases n - k,
    {
        if k >= n {
            return None;
        }
        let ghost o0 = out@;
        let c = s.get_char(k);
        if c == '"' {
            proof {
                assert(p_string_body(s@, k as int) == Some((Seq::<char>::empty(), k as int + 1)));
                assert(o0 + Seq::<char>::empty() =~= o0);
            }
            return Some((out, k + 1));
        } else if c == '\\' {
            match parse_escape(s, k + 1) {
                Some((uc, j2)) => {
                    out.push(uc);
                    proof {
                        lemma_p_escape_bounds(s@, k as int + 1);
                        let pk2 = p_string_body(s@, j2 as int);
                        if pk2 is Some {
                            let r = pk2->0;
                            assert(o0 + (seq![uc] + r.0) =~= o0.push(uc) + r.0);
                        }
                    }
                    k = j2;
                },
                None => {
                    return None;
                },
            }
        } else if (c as u32) < 32 {
            return None;
        } else {
            out.push(c);
            proof {
                let pk1 = p_string_body(s@, k as int + 1);
                if pk1 is Some {
                    let r = pk1->0;
                    assert(o0 + (seq![c] + r.0) =~= o0.push(c) + r.0);
                }
            }
            k = k + 1;
        }
    }
}

/// Reads the elements of an array of strings from just after the opening
/// bracket, up to and including the closing bracket.
fn parse_elems(s: &str, i: usize) -> (r: Option<(Vec<String>, usize)>)
    requires
        i <= s@.len(),
    ensures
        r matches Some(p) ==> p_elems(s@, i as int) == Some((p.0.deep_view(), p.1 as int)) && p.1
            <= s@.len(),
        r is None ==> p_elems(s@, i as int) is None,
{
    let n = s.unicode_len();
    let mut acc: Vec<String> = Vec::new();
    let mut k = i;
    proof {
        assert(acc.deep_view() =~= Seq::<Seq<char>>::empty());
    }
    loop
        invariant
            i <= k <= n,
            n == s@.len(),
            match p_elems(s@, k as int) {
                Some(r) => p_elems(s@, i as int) == Some((acc.deep_view() + r.0, r.1)),
                None => p_elems(s@, i as int) is None,
            },
        decreases n - k,
    {
        let j = skip_ws(s, k);
        if j >= n {
            return None;
        }
        let ghost a0 = acc.deep_view();
        let c = s.get_char(j);
        if c == ']' {
            proof {
                assert(a0 + Seq::<Seq<char>>::empty() =~= a0);
            }
            return Some((acc, j + 1));
        } else if c == '"' {
            match parse_string_body(s, j + 1) {
                Some((v, m0)) => {
                    proof {
                        lemma_p_string_body_bounds(s@, j as int + 1);
                    }
                    let m = skip_ws(s, m0);
                    if m >= n {
                        return None;
                    }
                    let d = s.get_char(m);
                    if d == ',' {
                        acc.push(v);
                        proof {
                            assert(acc.deep_view() =~= a0.push(v@));
                            let pj = p_elems(s@, m as int + 1);
                            if pj is Some {
                                let r = pj->0;
                                assert(a0 + (seq![v@] + r.0) =~= a0.push(v@) + r.0);
                            }
                        }
                        k = m + 1;
                    } else if d == ']' {
                        acc.push(v);
                        proof {
                            assert(acc.deep_view() =~= a0.push(v@));
                            assert(a0 + seq![v@] =~= a0.push(v@));
                        }
                        return Some((acc, m + 1));
                    } else {
                        return None;
                    }
                },
                None => {
                    return None;
                },
            }
        } else {
            return None;
        }
    }
}

/// Maps a tag text to the envelope kind it names.
fn tag_of(tag: String) -> (m: MsgTypes)
    ensures
        m@ == classify(tag@),
{
    proof {
        reveal_strlit("register");
        reveal_strlit("users");
        reveal_strlit("message");
        assert("register"@ =~= str_register());
        assert("users"@ =~= str_users());
        assert("message"@ =~= str_message());
    }
    if tag == "register".to_owned() {
        MsgTypes::Register
    } else if tag == "users".to_owned() {
        MsgTypes::Users
    } else if tag == "message".to_owned() {
        MsgTypes::Message
    } else {
        MsgTypes::Unknown(tag)
    }
}

/// Reads one envelope member and all that follow it.
fn parse_members(
    s: &str,
    i: usize,
    mt: Option<String>,
    sd: bool,
    d: Option<String>,
    sa: bool,
    a: Option<Vec<String>>,
) -> (r: Option<(Envelope, usize)>)
    ensures
        r matches Some(p) ==> p_members(s@, i as int, mt.deep_view(), sd, d.deep_view(), sa,
            a.deep_view()) == Some((p.0@, p.1 as int)) && p.0@.wf() && p.1 <= s@.len(),
        r is None ==> p_members(s@, i as int, mt.deep_view(), sd, d.deep_view(), sa,
            a.deep_view()) is None,
    decreases s@.len() - i, 1int,
{
    proof {
        reveal_strlit("messageType");
        reveal_strlit("data");
        reveal_strlit("dataArray");
        reveal_strlit("null");
        assert("messageType"@ =~= key_message_type());
        assert("data"@ =~= key_data());
        assert("dataArray"@ =~= key_data_array());
        assert("null"@ =~= lit_null());
    }
    let n = s.unicode_len();
    if i >= n || s.get_char(i) != '"' {
        return None;
    }
    let (key, k1) = match parse_string_body(s, i + 1) {
        Some(p) => p,
        None => {
            return None;
        },
    };
    proof {
        lemma_p_string_body_bounds(s@, i as int + 1);
    }
    let j = skip_ws(s, k1);
    if j >= n || s.get_char(j) != ':' {
        return None;
    }
    let v = skip_ws(s, j + 1);
    if key == "messageType".to_owned() {
        if mt.is_some() {
            return None;
        }
        if v >= n || s.get_char(v) != '"' {
            return None;
        }
        match parse_string_body(s, v + 1) {
            Some((t, t1)) => {
                proof {
                    lemma_p_string_body_bounds(s@, v as int + 1);
                }
                parse_members_after(s, t1, Some(t), sd, d, sa, a)
            },
            None => None,
        }
    } else if key == "data".to_owned() {
        if sd {
            return None;
        }
        if v < n && s.get_char(v) == '"' {
            match parse_string_body(s, v + 1) {
                Some((t, t1)) => {
                    proof {
                        lemma_p_string_body_bounds(s@, v as int + 1);
                    }
                    parse_members_after(s, t1, mt, true, Some(t), sa, a)
                },
                None => None,
            }
        } else {
            match match_lit(s, v, "null") {
                Some(v4) => parse_members_after(s, v4, mt, true, None, sa, a),
                None => None,
            }
        }
    } else if key == "dataArray".to_owned() {
        if sa {
            return None;
        }
        if v < n && s.get_char(v) == '[' {
            match parse_elems(s, v + 1) {
                Some((arr, r1)) => {
                    proof {
                        lemma_p_elems_bounds(s@, v as int + 1);
                    }
                    parse_members_after(s, r1, mt, sd, d, true, Some(arr))
                },
                None => None,
            }
        } else {
            match match_lit(s, v, "null") {
                Some(v4) => parse_members_after(s, v4, mt, sd, d, true, None),
                None => None,
            }
        }
    } else {
        None
    }
}

/// After a member's value: a comma continues, a closing brace ends the object.
fn parse_members_after(
    s: &str,
    i: usize,
    mt: Option<String>,
    sd: bool,
    d: Option<String>,
    sa: bool,
    a: Option<Vec<String>>,
) -> (r: Option<(Envelope, usize)>)
    requires
        i <= s@.len(),
    ensures
        r matches Some(p) ==> p_members_after(s@, i as int, mt.deep_view(), sd, d.deep_view(), sa,
            a.deep_view()) == Some((p.0@, p.1 as int)) && p.0@.wf() && p.1 <= s@.len(),
        r is None ==> p_members_after(s@, i as int, mt.deep_view(), sd, d.deep_view(), sa,
            a.deep_view()) is None,
    decreases s@.len() - i, 0int,
{
    let n = s.unicode_len();
    let j = skip_ws(s, i);
    if j < n && s.get_char(j) == ',' {
        let m = skip_ws(s, j + 1);
        parse_members(s, m, mt, sd, d, sa, a)
    } else if j < n && s.get_char(j) == '}' {
        match mt {
            Some(t) => {
                let ghost tv = t@;
                let mtype = tag_of(t);
                let e = Envelope { message_type: mtype, data: d, data_array: a };
                proof {
                    assert(e@ =~= mk_env(tv, d.deep_view(), a.deep_view()));
                }
                Some((e, j + 1))
            },
            None => None,
        }
    } else {
        None
    }
}

/// Reads any JSON-object rendering of a wire envelope. An unrecognised tag is
/// not an error: it decodes into `MsgTypes::Unknown`, so the session can drop
/// the frame without failing.
pub fn decode(s: &str) -> (r: Result<Envelope, DecodeError>)
    ensures
        r matches Ok(e) ==> spec_decode(s@) == Some(e@) && e@.wf(),
        r is Err ==> spec_decode(s@) is None,
{
    let n = s.unicode_len();
    let i = skip_ws(s, 0);
    if i >= n || s.get_char(i) != '{' {
        return Err(DecodeError::Malformed);
    }
    let j = skip_ws(s, i + 1);
    match parse_members(s, j, None, false, None, false, None) {
        Some((e, k)) => {
            let fin = skip_ws(s, k);
            if fin == n {
                Ok(e)
            } else {
                Err(DecodeError::Malformed)
            }
        },
        None => Err(DecodeError::Malformed),
    }
}

/// Reads one chat payload member and all that follow it.
fn parse_chat_members(
    s: &str,
    i: usize,
    f: Option<String>,
    m: Option<String>,
) -> (r: Option<(ChatMessage, usize)>)
    ensures
        r matches Some(p) ==> p_chat_members(s@, i as int, f.deep_view(), m.deep_view()) == Some(
            (p.0@, p.1 as int),
        ) && p.1 <= s@.len(),
        r is None ==> p_chat_members(s@, i as int, f.deep_view(), m.deep_view()) is None,
    decreases s@.len() - i, 1int,
{
    proof {
        reveal_strlit("from");
        reveal_strlit("message");
        assert("from"@ =~= key_from());
        assert("message"@ =~= key_message());
    }
    let n = s.unicode_len();
    if i >= n || s.get_char(i) != '"' {
        return None;
    }
    let (key, k1) = match parse_string_body(s, i + 1) {
        Some(p) => p,
        None => {
            return None;
        },
    };
    proof {
        lemma_p_string_body_bounds(s@, i as int + 1);
    }
    let j = skip_ws(s, k1);
    if j >= n || s.get_char(j) != ':' {
        return None;
    }
    let v = skip_ws(s, j + 1);
    if v >= n || s.get_char(v) != '"' {
        return None;
    }
    match parse_string_body(s, v + 1) {
        Some((t, t1)) => {
            proof {
                lemma_p_string_body_bounds(s@, v as int + 1);
            }
            if key == "from".to_owned() {
                if f.is_some() {
                    None
                } else {
                    parse_chat_after(s, t1, Some(t), m)
                }
            } else if key == "message".to_owned() {
                if m.is_some() {
                    None
                } else {
                    parse_chat_after(s, t1, f, Some(t))
                }
            } else {
                None
            }
        },
        None => None,
    }
}

fn parse_chat_after(
    s: &str,
    i: usize,
    f: Option<String>,
    m: Option<String>,
) -> (r: Option<(ChatMessage, usize)>)
    requires
        i <= s@.len(),
    ensures
        r matches Some(p) ==> p_chat_after(s@, i as int, f.deep_view(), m.deep_view()) == Some(
            (p.0@, p.1 as int),
        ) && p.1 <= s@.len(),
        r is None ==> p_chat_after(s@, i as int, f.deep_view(), m.deep_view()) is None,
    decreases s@.len() - i, 0int,
{
    let n = s.unicode_len();
    let j = skip_ws(s, i);
    if j < n && s.get_char(j) == ',' {
        let k = skip_ws(s, j + 1);
        parse_chat_members(s, k, f, m)
    } else if j < n && s.get_char(j) == '}' {
        match (f, m) {
            (Some(fv), Some(mv)) => Some((ChatMessage { from: fv, message: mv }, j + 1)),
            _ => None,
        }
    } else {
        None
    }
}

/// Reads any JSON-object rendering of the nested chat payload carried in a
/// `Message` envelope.
pub fn decode_chat(s: &str) -> (r: Option<ChatMessage>)
    ensures
        r matches Some(m) ==> spec_decode_chat(s@) == Some(m@),
        r is None ==> spec_decode_chat(s@) is None,
{
    let n = s.unicode_len();
    let i = skip_ws(s, 0);
    if i >= n || s.get_char(i) != '{' {
        return None;
    }
    let j = skip_ws(s, i + 1);
    match parse_chat_members(s, j, None, None) {
        Some((m, k)) => {
            let fin = skip_ws(s, k);
            if fin == n {
                Some(m)
            } else {
                None
            }
        },
        None => None,
    }
}

} // verus!
