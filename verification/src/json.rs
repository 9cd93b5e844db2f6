//! The wire decoder of task statuses: a JSON object of the fixed
//! shape `{"taskId": ..., "status": ..., "result"?, "error"?,
//! "warnings"?, "metadata"?}`. The parser is defined here as a total
//! mathematical function on bytes and the executable decoder is
//! proved against it; the encoder and the proof that decoding an
//! encoded status gives the status back stand in their own modules.

use vstd::prelude::*;

use vstd::utf8::{valid_utf8, decode_utf8, encode_scalar};

use crate::error::JsonError;
use crate::types::{
    meta_seq_view, MetadataEntry, MetadataEntryView, SubmitTaskResponse, TaskStatus,
    TaskStatusValue, TaskStatusView,
};

verus! {

pub const QUOTE: u8 = 0x22;

pub const BACKSLASH: u8 = 0x5c;

pub const LBRACE: u8 = 0x7b;

pub const RBRACE: u8 = 0x7d;

pub const LBRACKET: u8 = 0x5b;

pub const RBRACKET: u8 = 0x5d;

pub const COMMA: u8 = 0x2c;

pub const COLON: u8 = 0x3a;

/// JSON insignificant whitespace.
pub open spec fn is_json_ws(b: u8) -> bool {
    b == 0x20 || b == 0x09 || b == 0x0a || b == 0x0d
}

/// The first position at or after `p` holding no whitespace.
pub open spec fn skip_ws(s: Seq<u8>, p: int) -> int
    decreases s.len() - p,
{
    if p < s.len() && p >= 0 && is_json_ws(s[p]) {
        skip_ws(s, p + 1)
    } else {
        p
    }
}

pub proof fn lemma_skip_ws_bounds(s: Seq<u8>, p: int)
    requires
        0 <= p <= s.len(),
    ensures
        p <= skip_ws(s, p) <= s.len(),
        skip_ws(s, p) < s.len() ==> !is_json_ws(s[skip_ws(s, p)]),
    decreases s.len() - p,
{
    if p < s.len() && is_json_ws(s[p]) {
        lemma_skip_ws_bounds(s, p + 1);
    }
}

/// A hexadecimal digit, lower or upper case.
pub open spec fn is_hex_digit(b: u8) -> bool {
    (0x30 <= b <= 0x39) || (0x61 <= b <= 0x66) || (0x41 <= b <= 0x46)
}

/// The value of a hexadecimal digit.
pub open spec fn hex_val(b: u8) -> nat {
    if 0x30 <= b <= 0x39 {
        (b - 0x30) as nat
    } else if 0x61 <= b <= 0x66 {
        (b - 0x61 + 10) as nat
    } else if 0x41 <= b <= 0x46 {
        (b - 0x41 + 10) as nat
    } else {
        0
    }
}

/// The code point the four hexadecimal digits at `p` denote.
pub open spec fn hex4_val(s: Seq<u8>, p: int) -> nat {
    hex_val(s[p]) * 4096 + hex_val(s[p + 1]) * 256 + hex_val(s[p + 2]) * 16 + hex_val(s[p + 3])
}

/// The byte a simple escape sequence `\x` stands for, if `x` is one of
/// the eight simple escape characters.
pub open spec fn unescape_byte(e: u8) -> Option<u8> {
    if e == QUOTE {
        Some(QUOTE)
    } else if e == BACKSLASH {
        Some(BACKSLASH)
    } else if e == 0x2f {
        Some(0x2f)
    } else if e == 0x62 {
        Some(0x08)
    } else if e == 0x66 {
        Some(0x0c)
    } else if e == 0x6e {
        Some(0x0a)
    } else if e == 0x72 {
        Some(0x0d)
    } else if e == 0x74 {
        Some(0x09)
    } else {
        None
    }
}

/// One `\u` escape at `p` (where `\u` occupies `p` and `p + 1`): the
/// UTF-8 bytes it contributes and the position after it. A surrogate
/// pair contributes the astral code point it names; an unpaired
/// surrogate or malformed digits contribute nothing.
#[verifier::opaque]
pub open spec fn u_escape_step(s: Seq<u8>, p: int) -> Option<(Seq<u8>, int)> {
    if p + 6 <= s.len() && is_hex_digit(s[p + 2]) && is_hex_digit(s[p + 3]) && is_hex_digit(
        s[p + 4],
    ) && is_hex_digit(s[p + 5]) {
        let cp = hex4_val(s, p + 2);
        if 0xd800 <= cp <= 0xdbff {
            // a high surrogate must be followed by a low one
            if p + 12 <= s.len() && s[p + 6] == BACKSLASH && s[p + 7] == 0x75 && is_hex_digit(
                s[p + 8],
            ) && is_hex_digit(s[p + 9]) && is_hex_digit(s[p + 10]) && is_hex_digit(s[p + 11])
                && 0xdc00 <= hex4_val(s, p + 8) <= 0xdfff {
                let astral = 0x10000 + (cp - 0xd800) * 0x400 + (hex4_val(s, p + 8) - 0xdc00);
                Some((encode_scalar(astral as u32), p + 12))
            } else {
                None
            }
        } else if 0xdc00 <= cp <= 0xdfff {
            None
        } else {
            Some((encode_scalar(cp as u32), p + 6))
        }
    } else {
        None
    }
}

/// Scans a JSON string from just after its opening quote: yields the
/// unescaped content bytes and the position after the closing quote.
/// Raw control bytes are refused; a `\u` escape contributes the UTF-8
/// bytes of its code point, a surrogate pair those of the astral code
/// point it names, and an unpaired surrogate is refused.
pub open spec fn parse_string_body(s: Seq<u8>, p: int) -> Option<(Seq<u8>, int)>
    decreases s.len() - p,
{
    if p < 0 || p >= s.len() {
        None
    } else if s[p] == QUOTE {
        Some((Seq::empty(), p + 1))
    } else if s[p] == BACKSLASH {
        if p + 1 >= s.len() {
            None
        } else if s[p + 1] == 0x75 {
            match u_escape_step(s, p) {
                Some((bytes, nxt)) => if (nxt == p + 6 || nxt == p + 12) && nxt <= s.len() {
                    match parse_string_body(s, nxt) {
                        Some((rest, q)) => Some((bytes + rest, q)),
                        None => None,
                    }
                } else {
                    None
                },
                None => None,
            }
        } else {
            match unescape_byte(s[p + 1]) {
                Some(b) => match parse_string_body(s, p + 2) {
                    Some((rest, q)) => Some((seq![b] + rest, q)),
                    None => None,
                },
                None => None,
            }
        }
    } else if s[p] < 0x20 {
        None
    } else {
        match parse_string_body(s, p + 1) {
            Some((rest, q)) => Some((seq![s[p]] + rest, q)),
            None => None,
        }
    }
}

pub proof fn lemma_parse_string_body_bounds(s: Seq<u8>, p: int)
    requires
        0 <= p <= s.len(),
    ensures
        parse_string_body(s, p) matches Some((c, q)) ==> p + 1 <= q <= s.len(),
    decreases s.len() - p,
{
    if p < s.len() {
        if s[p] == QUOTE {
        } else if s[p] == BACKSLASH {
            if p + 1 < s.len() {
                if s[p + 1] == 0x75 {
                    match u_escape_step(s, p) {
                        Some((bytes, nxt)) => {
                            if p < nxt <= s.len() {
                                lemma_parse_string_body_bounds(s, nxt);
                            }
                        },
                        None => {},
                    }
                } else {
                    if p + 2 <= s.len() {
                        lemma_parse_string_body_bounds(s, p + 2);
                    }
                }
            }
        } else {
            lemma_parse_string_body_bounds(s, p + 1);
        }
    }
}

/// Bytes that may continue a non-string scalar (a number, `true`,
/// `false` or `null`). The scan is deliberately lenient: scalar
/// metadata values are opaque and passed through, not validated.
pub open spec fn is_atom_byte(b: u8) -> bool {
    (0x30 <= b <= 0x39) || (0x61 <= b <= 0x7a) || (0x41 <= b <= 0x5a) || b == 0x2b || b == 0x2d
        || b == 0x2e
}

/// The first position at or after `p` holding no scalar byte.
pub open spec fn skip_atom(s: Seq<u8>, p: int) -> int
    decreases s.len() - p,
{
    if p < s.len() && p >= 0 && is_atom_byte(s[p]) {
        skip_atom(s, p + 1)
    } else {
        p
    }
}

pub proof fn lemma_skip_atom_bounds(s: Seq<u8>, p: int)
    requires
        0 <= p <= s.len(),
    ensures
        p <= skip_atom(s, p) <= s.len(),
        skip_atom(s, p) < s.len() ==> !is_atom_byte(s[skip_atom(s, p)]),
    decreases s.len() - p,
{
    if p < s.len() && is_atom_byte(s[p]) {
        lemma_skip_atom_bounds(s, p + 1);
    }
}

/// Scans a composite (object or array) value from just after its
/// opening bracket, tracking only nesting depth and string state:
/// the contents are opaque and only their extent matters.
pub open spec fn skip_composite(s: Seq<u8>, p: int, depth: nat, in_str: bool, esc: bool) -> Option<
    int,
>
    decreases s.len() - p,
{
    if p < 0 || p >= s.len() {
        None
    } else {
        let b = s[p];
        if in_str {
            if esc {
                skip_composite(s, p + 1, depth, true, false)
            } else if b == BACKSLASH {
                skip_composite(s, p + 1, depth, true, true)
            } else if b == QUOTE {
                skip_composite(s, p + 1, depth, false, false)
            } else {
                skip_composite(s, p + 1, depth, true, false)
            }
        } else if b == LBRACE || b == LBRACKET {
            skip_composite(s, p + 1, depth + 1, false, false)
        } else if b == RBRACE || b == RBRACKET {
            if depth == 1 {
                Some(p + 1)
            } else {
                skip_composite(s, p + 1, (depth - 1) as nat, false, false)
            }
        } else if b == QUOTE {
            skip_composite(s, p + 1, depth, true, false)
        } else {
            skip_composite(s, p + 1, depth, false, false)
        }
    }
}

pub proof fn lemma_skip_composite_bounds(s: Seq<u8>, p: int, depth: nat, in_str: bool, esc: bool)
    requires
        0 <= p <= s.len(),
    ensures
        skip_composite(s, p, depth, in_str, esc) matches Some(q) ==> p + 1 <= q <= s.len(),
    decreases s.len() - p,
{
    if p < s.len() {
        let b = s[p];
        if in_str {
            if esc {
                lemma_skip_composite_bounds(s, p + 1, depth, true, false);
            } else if b == BACKSLASH {
                lemma_skip_composite_bounds(s, p + 1, depth, true, true);
            } else if b == QUOTE {
                lemma_skip_composite_bounds(s, p + 1, depth, false, false);
            } else {
                lemma_skip_composite_bounds(s, p + 1, depth, true, false);
            }
        } else if b == LBRACE || b == LBRACKET {
            lemma_skip_composite_bounds(s, p + 1, depth + 1, false, false);
        } else if b == RBRACE || b == RBRACKET {
            if depth != 1 {
                lemma_skip_composite_bounds(s, p + 1, (depth - 1) as nat, false, false);
            }
        } else if b == QUOTE {
            lemma_skip_composite_bounds(s, p + 1, depth, true, false);
        } else {
            lemma_skip_composite_bounds(s, p + 1, depth, false, false);
        }
    }
}

/// Scans one JSON value of any kind, yielding the position after it.
/// String escapes are validated; composite and scalar contents are
/// only delimited, since such values are carried through opaquely.
pub open spec fn skip_value(s: Seq<u8>, p: int) -> Option<int> {
    if p < 0 || p >= s.len() {
        None
    } else if s[p] == QUOTE {
        match parse_string_body(s, p + 1) {
            Some((c, q)) => Some(q),
            None => None,
        }
    } else if s[p] == LBRACE || s[p] == LBRACKET {
        skip_composite(s, p + 1, 1, false, false)
    } else if is_atom_byte(s[p]) {
        Some(skip_atom(s, p))
    } else {
        None
    }
}

pub proof fn lemma_skip_value_bounds(s: Seq<u8>, p: int)
    requires
        0 <= p <= s.len(),
    ensures
        skip_value(s, p) matches Some(q) ==> p + 1 <= q <= s.len(),
{
    if 0 <= p < s.len() {
        if s[p] == QUOTE {
            lemma_parse_string_body_bounds(s, p + 1);
        } else if s[p] == LBRACE || s[p] == LBRACKET {
            lemma_skip_composite_bounds(s, p + 1, 1, false, false);
        } else if is_atom_byte(s[p]) {
            lemma_skip_atom_bounds(s, p);
        }
    }
}

/// Parses a JSON string value at `p` into its character content.
pub open spec fn parse_string_value(s: Seq<u8>, p: int) -> Result<(Seq<char>, int), JsonError> {
    if 0 <= p < s.len() && s[p] == QUOTE {
        match parse_string_body(s, p + 1) {
            Some((c, q)) => if valid_utf8(c) {
                Ok((decode_utf8(c), q))
            } else {
                Err(JsonError::InvalidUtf8)
            },
            None => Err(JsonError::Syntax),
        }
    } else {
        Err(JsonError::Syntax)
    }
}

pub proof fn lemma_parse_string_value_bounds(s: Seq<u8>, p: int)
    requires
        0 <= p <= s.len(),
    ensures
        parse_string_value(s, p) matches Ok((c, q)) ==> p + 2 <= q <= s.len(),
{
    if p < s.len() {
        lemma_parse_string_body_bounds(s, p + 1);
    }
}

/// The literal `null` at position `p`.
pub open spec fn at_null(s: Seq<u8>, p: int) -> bool {
    p >= 0 && p + 4 <= s.len() && s[p] == 0x6e && s[p + 1] == 0x75 && s[p + 2] == 0x6c && s[p + 3]
        == 0x6c
}

/// The status tag a wire string stands for, if any.
pub open spec fn tag_of(tag: Seq<char>) -> Option<TaskStatusValue> {
    if tag == "processing"@ {
        Some(TaskStatusValue::Processing)
    } else if tag == "completed"@ {
        Some(TaskStatusValue::Completed)
    } else if tag == "failed"@ {
        Some(TaskStatusValue::Failed)
    } else {
        None
    }
}

/// Parses the items of a non-empty warnings array, `p` standing at the
/// start of an item.
pub open spec fn parse_warn_items(s: Seq<u8>, p: int, acc: Seq<Seq<char>>) -> Result<
    (Seq<Seq<char>>, int),
    JsonError,
>
    decreases s.len() - p,
        via parse_warn_items_decreases
{
    if p < 0 {
        Err(JsonError::Syntax)
    } else {
        match parse_string_value(s, p) {
            Ok((w, q)) => {
                let q2 = skip_ws(s, q);
                if q2 < s.len() && s[q2] == COMMA {
                    parse_warn_items(s, skip_ws(s, q2 + 1), acc.push(w))
                } else if q2 < s.len() && s[q2] == RBRACKET {
                    Ok((acc.push(w), q2 + 1))
                } else {
                    Err(JsonError::Syntax)
                }
            },
            Err(e) => Err(e),
        }
    }
}

#[via_fn]
proof fn parse_warn_items_decreases(s: Seq<u8>, p: int, acc: Seq<Seq<char>>) {
    if 0 <= p <= s.len() {
        lemma_parse_string_value_bounds(s, p);
        match parse_string_value(s, p) {
            Ok((w, q)) => {
                lemma_skip_ws_bounds(s, q);
                let q2 = skip_ws(s, q);
                if q2 < s.len() {
                    lemma_skip_ws_bounds(s, q2 + 1);
                }
            },
            Err(e) => {},
        }
    }
}

/// Parses a warnings value: an array of strings, or `[]`.
pub open spec fn parse_warnings_value(s: Seq<u8>, p: int) -> Result<(Seq<Seq<char>>, int), JsonError> {
    if 0 <= p < s.len() && s[p] == LBRACKET {
        let q = skip_ws(s, p + 1);
        if q < s.len() && s[q] == RBRACKET {
            Ok((Seq::empty(), q + 1))
        } else {
            parse_warn_items(s, q, Seq::empty())
        }
    } else {
        Err(JsonError::Syntax)
    }
}

pub proof fn lemma_parse_warn_items_bounds(s: Seq<u8>, p: int, acc: Seq<Seq<char>>)
    requires
        0 <= p <= s.len(),
    ensures
        parse_warn_items(s, p, acc) matches Ok((w, q)) ==> p < q <= s.len(),
    decreases s.len() - p,
{
    lemma_parse_string_value_bounds(s, p);
    match parse_string_value(s, p) {
        Ok((w0, q0)) => {
            lemma_skip_ws_bounds(s, q0);
            let q2 = skip_ws(s, q0);
            if q2 < s.len() && s[q2] == COMMA {
                lemma_skip_ws_bounds(s, q2 + 1);
                lemma_parse_warn_items_bounds(s, skip_ws(s, q2 + 1), acc.push(w0));
            }
        },
        Err(e) => {},
    }
}

pub proof fn lemma_parse_warnings_value_bounds(s: Seq<u8>, p: int)
    requires
        0 <= p <= s.len(),
    ensures
        parse_warnings_value(s, p) matches Ok((w, q)) ==> p < q <= s.len(),
{
    if 0 <= p < s.len() && s[p] == LBRACKET {
        lemma_skip_ws_bounds(s, p + 1);
        let q = skip_ws(s, p + 1);
        if !(q < s.len() && s[q] == RBRACKET) {
            lemma_parse_warn_items_bounds(s, q, Seq::empty());
        }
    }
}

/// Parses the members of a non-empty metadata object, `p` standing at
/// the start of a key. The value is captured as its raw text.
pub open spec fn parse_meta_members(s: Seq<u8>, p: int, acc: Seq<MetadataEntryView>) -> Result<
    (Seq<MetadataEntryView>, int),
    JsonError,
>
    decreases s.len() - p,
        via parse_meta_members_decreases
{
    if !(0 <= p < s.len() && s[p] == QUOTE) {
        Err(JsonError::Syntax)
    } else {
        match parse_string_body(s, p + 1) {
            Some((kc, q1)) => if !valid_utf8(kc) {
                Err(JsonError::InvalidUtf8)
            } else {
                let q2 = skip_ws(s, q1);
                if q2 < s.len() && s[q2] == COLON {
                    let q3 = skip_ws(s, q2 + 1);
                    match skip_value(s, q3) {
                        Some(q4) => {
                            let raw = s.subrange(q3, q4);
                            if !valid_utf8(raw) {
                                Err(JsonError::InvalidUtf8)
                            } else {
                                let entry = MetadataEntryView {
                                    key: decode_utf8(kc),
                                    value: decode_utf8(raw),
                                };
                                let q5 = skip_ws(s, q4);
                                if q5 < s.len() && s[q5] == COMMA {
                                    parse_meta_members(s, skip_ws(s, q5 + 1), acc.push(entry))
                                } else if q5 < s.len() && s[q5] == RBRACE {
                                    Ok((acc.push(entry), q5 + 1))
                                } else {
                                    Err(JsonError::Syntax)
                                }
                            }
                        },
                        None => Err(JsonError::Syntax),
                    }
                } else {
                    Err(JsonError::Syntax)
                }
            },
            None => Err(JsonError::Syntax),
        }
    }
}

#[via_fn]
proof fn parse_meta_members_decreases(s: Seq<u8>, p: int, acc: Seq<MetadataEntryView>) {
    if 0 <= p < s.len() && s[p] == QUOTE {
        lemma_parse_string_body_bounds(s, p + 1);
        match parse_string_body(s, p + 1) {
            Some((kc, q1)) => {
                lemma_skip_ws_bounds(s, q1);
                let q2 = skip_ws(s, q1);
                if q2 < s.len() {
                    lemma_skip_ws_bounds(s, q2 + 1);
                    let q3 = skip_ws(s, q2 + 1);
                    lemma_skip_value_bounds(s, q3);
                    match skip_value(s, q3) {
                        Some(q4) => {
                            lemma_skip_ws_bounds(s, q4);
                            let q5 = skip_ws(s, q4);
                            if q5 < s.len() {
                                lemma_skip_ws_bounds(s, q5 + 1);
                            }
                        },
                        None => {},
                    }
                }
            },
            None => {},
        }
    }
}

/// Parses a metadata value: an object of opaque members, or `{}`.
pub open spec fn parse_metadata_value(s: Seq<u8>, p: int) -> Result<
    (Seq<MetadataEntryView>, int),
    JsonError,
> {
    if 0 <= p < s.len() && s[p] == LBRACE {
        let q = skip_ws(s, p + 1);
        if q < s.len() && s[q] == RBRACE {
            Ok((Seq::empty(), q + 1))
        } else {
            parse_meta_members(s, q, Seq::empty())
        }
    } else {
        Err(JsonError::Syntax)
    }
}

pub proof fn lemma_parse_meta_members_bounds(s: Seq<u8>, p: int, acc: Seq<MetadataEntryView>)
    requires
        0 <= p <= s.len(),
    ensures
        parse_meta_members(s, p, acc) matches Ok((m, q)) ==> p < q <= s.len(),
    decreases s.len() - p,
{
    if 0 <= p < s.len() && s[p] == QUOTE {
        lemma_parse_string_body_bounds(s, p + 1);
        match parse_string_body(s, p + 1) {
            Some((kc, q1)) => {
                lemma_skip_ws_bounds(s, q1);
                let q2 = skip_ws(s, q1);
                if q2 < s.len() {
                    lemma_skip_ws_bounds(s, q2 + 1);
                    let q3 = skip_ws(s, q2 + 1);
                    lemma_skip_value_bounds(s, q3);
                    match skip_value(s, q3) {
                        Some(q4) => {
                            lemma_skip_ws_bounds(s, q4);
                            let q5 = skip_ws(s, q4);
                            if q5 < s.len() && s[q5] == COMMA {
                                lemma_skip_ws_bounds(s, q5 + 1);
                                let raw = s.subrange(q3, q4);
                                if valid_utf8(raw) {
                                    let entry = MetadataEntryView {
                                        key: decode_utf8(kc),
                                        value: decode_utf8(raw),
                                    };
                                    lemma_parse_meta_members_bounds(
                                        s,
                                        skip_ws(s, q5 + 1),
                                        acc.push(entry),
                                    );
                                }
                            }
                        },
                        None => {},
                    }
                }
            },
            None => {},
        }
    }
}

pub proof fn lemma_parse_metadata_value_bounds(s: Seq<u8>, p: int)
    requires
        0 <= p <= s.len(),
    ensures
        parse_metadata_value(s, p) matches Ok((m, q)) ==> p < q <= s.len(),
{
    if 0 <= p < s.len() && s[p] == LBRACE {
        lemma_skip_ws_bounds(s, p + 1);
        let q = skip_ws(s, p + 1);
        if !(q < s.len() && s[q] == RBRACE) {
            lemma_parse_meta_members_bounds(s, q, Seq::empty());
        }
    }
}

/// The fields gathered while walking the members of a status object.
#[verifier::ext_equal]
pub ghost struct PartialStatus {
    pub task_id: Option<Seq<char>>,
    pub status: Option<TaskStatusValue>,
    pub result: Option<Seq<char>>,
    pub error: Option<Seq<char>>,
    pub warnings: Option<Seq<Seq<char>>>,
    pub metadata: Option<Seq<MetadataEntryView>>,
}

/// The state before any member has been seen.
pub open spec fn empty_partial() -> PartialStatus {
    PartialStatus {
        task_id: None,
        status: None,
        result: None,
        error: None,
        warnings: None,
        metadata: None,
    }
}

/// Parses the value of the member whose key content is `kc`, at `p`:
/// the known fields by their types, with duplicates refused; any other
/// member skipped opaquely. A known optional field may also be `null`,
/// which leaves it absent.
pub open spec fn parse_field(s: Seq<u8>, p: int, kc: Seq<u8>, acc: PartialStatus) -> Result<
    (PartialStatus, int),
    JsonError,
> {
    let known = valid_utf8(kc);
    let key = decode_utf8(kc);
    if known && key == "taskId"@ {
        if acc.task_id is Some {
            Err(JsonError::DuplicateField)
        } else {
            match parse_string_value(s, p) {
                Ok((v, q)) => Ok((PartialStatus { task_id: Some(v), ..acc }, q)),
                Err(e) => Err(e),
            }
        }
    } else if known && key == "status"@ {
        if acc.status is Some {
            Err(JsonError::DuplicateField)
        } else {
            match parse_string_value(s, p) {
                Ok((t, q)) => match tag_of(t) {
                    Some(sv) => Ok((PartialStatus { status: Some(sv), ..acc }, q)),
                    None => Err(JsonError::UnknownStatusTag),
                },
                Err(e) => Err(e),
            }
        }
    } else if known && key == "result"@ {
        if acc.result is Some {
            Err(JsonError::DuplicateField)
        } else if at_null(s, p) {
            Ok((acc, p + 4))
        } else {
            match parse_string_value(s, p) {
                Ok((v, q)) => Ok((PartialStatus { result: Some(v), ..acc }, q)),
                Err(e) => Err(e),
            }
        }
    } else if known && key == "error"@ {
        if acc.error is Some {
            Err(JsonError::DuplicateField)
        } else if at_null(s, p) {
            Ok((acc, p + 4))
        } else {
            match parse_string_value(s, p) {
                Ok((v, q)) => Ok((PartialStatus { error: Some(v), ..acc }, q)),
                Err(e) => Err(e),
            }
        }
    } else if known && key == "warnings"@ {
        if acc.warnings is Some {
            Err(JsonError::DuplicateField)
        } else if at_null(s, p) {
            Ok((acc, p + 4))
        } else {
            match parse_warnings_value(s, p) {
                Ok((v, q)) => Ok((PartialStatus { warnings: Some(v), ..acc }, q)),
                Err(e) => Err(e),
            }
        }
    } else if known && key == "metadata"@ {
        if acc.metadata is Some {
            Err(JsonError::DuplicateField)
        } else if at_null(s, p) {
            Ok((acc, p + 4))
        } else {
            match parse_metadata_value(s, p) {
                Ok((v, q)) => Ok((PartialStatus { metadata: Some(v), ..acc }, q)),
                Err(e) => Err(e),
            }
        }
    } else {
        match skip_value(s, p) {
            Some(q) => Ok((acc, q)),
            None => Err(JsonError::Syntax),
        }
    }
}

pub proof fn lemma_parse_field_bounds(s: Seq<u8>, p: int, kc: Seq<u8>, acc: PartialStatus)
    requires
        0 <= p <= s.len(),
    ensures
        parse_field(s, p, kc, acc) matches Ok((a, q)) ==> p < q <= s.len(),
{
    lemma_parse_string_value_bounds(s, p);
    lemma_parse_warnings_value_bounds(s, p);
    lemma_parse_metadata_value_bounds(s, p);
    lemma_skip_value_bounds(s, p);
}

/// Parses the members of a non-empty status object, `p` standing at
/// the start of a key.
pub open spec fn parse_members(s: Seq<u8>, p: int, acc: PartialStatus) -> Result<
    (PartialStatus, int),
    JsonError,
>
    decreases s.len() - p,
        via parse_members_decreases
{
    if !(0 <= p < s.len() && s[p] == QUOTE) {
        Err(JsonError::Syntax)
    } else {
        match parse_string_body(s, p + 1) {
            Some((kc, q1)) => {
                let q2 = skip_ws(s, q1);
                if q2 < s.len() && s[q2] == COLON {
                    let q3 = skip_ws(s, q2 + 1);
                    match parse_field(s, q3, kc, acc) {
                        Ok((acc2, q4)) => {
                            let q5 = skip_ws(s, q4);
                            if q5 < s.len() && s[q5] == COMMA {
                                parse_members(s, skip_ws(s, q5 + 1), acc2)
                            } else if q5 < s.len() && s[q5] == RBRACE {
                                Ok((acc2, q5 + 1))
                            } else {
                                Err(JsonError::Syntax)
                            }
                        },
                        Err(e) => Err(e),
                    }
                } else {
                    Err(JsonError::Syntax)
                }
            },
            None => Err(JsonError::Syntax),
        }
    }
}

#[via_fn]
proof fn parse_members_decreases(s: Seq<u8>, p: int, acc: PartialStatus) {
    if 0 <= p < s.len() && s[p] == QUOTE {
        lemma_parse_string_body_bounds(s, p + 1);
        match parse_string_body(s, p + 1) {
            Some((kc, q1)) => {
                lemma_skip_ws_bounds(s, q1);
                let q2 = skip_ws(s, q1);
                if q2 < s.len() {
                    lemma_skip_ws_bounds(s, q2 + 1);
                    let q3 = skip_ws(s, q2 + 1);
                    lemma_parse_field_bounds(s, q3, kc, acc);
                    match parse_field(s, q3, kc, acc) {
                        Ok((acc2, q4)) => {
                            lemma_skip_ws_bounds(s, q4);
                            let q5 = skip_ws(s, q4);
                            if q5 < s.len() {
                                lemma_skip_ws_bounds(s, q5 + 1);
                            }
                        },
                        Err(e) => {},
                    }
                }
            },
            None => {},
        }
    }
}

pub proof fn lemma_parse_members_bounds(s: Seq<u8>, p: int, acc: PartialStatus)
    requires
        0 <= p <= s.len(),
    ensures
        parse_members(s, p, acc) matches Ok((a, q)) ==> p < q <= s.len(),
    decreases s.len() - p,
{
    if 0 <= p < s.len() && s[p] == QUOTE {
        lemma_parse_string_body_bounds(s, p + 1);
        match parse_string_body(s, p + 1) {
            Some((kc, q1)) => {
                lemma_skip_ws_bounds(s, q1);
                let q2 = skip_ws(s, q1);
                if q2 < s.len() {
                    lemma_skip_ws_bounds(s, q2 + 1);
                    let q3 = skip_ws(s, q2 + 1);
                    lemma_parse_field_bounds(s, q3, kc, acc);
                    match parse_field(s, q3, kc, acc) {
                        Ok((acc2, q4)) => {
                            lemma_skip_ws_bounds(s, q4);
                            let q5 = skip_ws(s, q4);
                            if q5 < s.len() && s[q5] == COMMA {
                                lemma_skip_ws_bounds(s, q5 + 1);
                                lemma_parse_members_bounds(s, skip_ws(s, q5 + 1), acc2);
                            }
                        },
                        Err(e) => {},
                    }
                }
            },
            None => {},
        }
    }
}

/// Parses a complete wire payload into a status snapshot: one JSON
/// object carrying `taskId` and `status`, optionally `result`,
/// `error`, `warnings` and `metadata`, and nothing else around it.
/// This function is the authoritative meaning of the wire form.
pub open spec fn parse_status(s: Seq<u8>) -> Result<TaskStatusView, JsonError> {
    let p0 = skip_ws(s, 0);
    if p0 < s.len() && s[p0] == LBRACE {
        let p1 = skip_ws(s, p0 + 1);
        let inner = if p1 < s.len() && s[p1] == RBRACE {
            Ok((empty_partial(), p1 + 1))
        } else {
            parse_members(s, p1, empty_partial())
        };
        match inner {
            Ok((acc, q)) => if skip_ws(s, q) == s.len() {
                match (acc.task_id, acc.status) {
                    (Some(tid), Some(st)) => Ok(
                        TaskStatusView {
                            task_id: tid,
                            status: st,
                            result: acc.result,
                            error: acc.error,
                            warnings: acc.warnings,
                            metadata: acc.metadata,
                        },
                    ),
                    _ => Err(JsonError::MissingField),
                }
            } else {
                Err(JsonError::Syntax)
            },
            Err(e) => Err(e),
        }
    } else {
        Err(JsonError::Syntax)
    }
}

/// Relies on String::from_utf8: it returns Ok exactly on valid UTF-8
/// input, and the string then holds those bytes, i.e. their decoding.
#[verifier::external_body]
fn string_from_utf8(bytes: Vec<u8>) -> (r: Option<String>)
    ensures
        r is Some <==> valid_utf8(bytes@),
        r matches Some(s) ==> s@ == decode_utf8(bytes@),
{
    match String::from_utf8(bytes) {
        Ok(s) => Some(s),
        Err(_) => None,
    }
}

/// Copies the bytes of `v` between `from` and `to`.
pub(crate) fn vec_sub(v: &Vec<u8>, from: usize, to: usize) -> (r: Vec<u8>)
    requires
        from <= to <= v@.len(),
    ensures
        r@ == v@.subrange(from as int, to as int),
{
    let mut r: Vec<u8> = Vec::new();
    let mut i = from;
    proof {
        assert(r@ =~= v@.subrange(from as int, from as int));
    }
    while i < to
        invariant
            from <= i <= to <= v@.len(),
            r@ == v@.subrange(from as int, i as int),
        decreases to - i,
    {
        r.push(v[i]);
        proof {
            assert(r@ =~= v@.subrange(from as int, i + 1 as int));
        }
        i = i + 1;
    }
    r
}

/// Advances past JSON whitespace.
fn scan_ws(s: &Vec<u8>, p: usize) -> (q: usize)
    requires
        p <= s@.len(),
    ensures
        q as int == skip_ws(s@, p as int),
        p <= q <= s@.len(),
{
    let mut cur = p;
    while cur < s.len() && (s[cur] == 0x20 || s[cur] == 0x09 || s[cur] == 0x0a || s[cur] == 0x0d)
        invariant
            p <= cur <= s@.len(),
            skip_ws(s@, p as int) == skip_ws(s@, cur as int),
        decreases s@.len() - cur,
    {
        cur = cur + 1;
    }
    cur
}

fn is_hex_digit_b(b: u8) -> (r: bool)
    ensures
        r == is_hex_digit(b),
{
    (0x30 <= b && b <= 0x39) || (0x61 <= b && b <= 0x66) || (0x41 <= b && b <= 0x46)
}

fn hex_val_b(b: u8) -> (r: u8)
    requires
        is_hex_digit(b),
    ensures
        r as nat == hex_val(b),
        r < 16,
{
    if 0x30 <= b && b <= 0x39 {
        b - 0x30
    } else if 0x61 <= b && b <= 0x66 {
        b - 0x61 + 10
    } else {
        b - 0x41 + 10
    }
}

fn unescape_b(e: u8) -> (r: Option<u8>)
    ensures
        r == unescape_byte(e),
{
    if e == QUOTE {
        Some(QUOTE)
    } else if e == BACKSLASH {
        Some(BACKSLASH)
    } else if e == 0x2f {
        Some(0x2f)
    } else if e == 0x62 {
        Some(0x08)
    } else if e == 0x66 {
        Some(0x0c)
    } else if e == 0x6e {
        Some(0x0a)
    } else if e == 0x72 {
        Some(0x0d)
    } else if e == 0x74 {
        Some(0x09)
    } else {
        None
    }
}

/// Appends the UTF-8 encoding of one Unicode scalar.
fn push_scalar_utf8(acc: &mut Vec<u8>, cp: u32)
    requires
        cp <= 0x10ffff,
        !(0xd800 <= cp <= 0xdfff),
    ensures
        final(acc)@ == old(acc)@ + encode_scalar(cp),
{
    proof {
        assert(cp & 0x7f <= 0x7f && (cp >> 6) & 0x1f <= 0x1f && cp & 0x3f <= 0x3f && (cp >> 12)
            & 0x0f <= 0x0f && (cp >> 6) & 0x3f <= 0x3f && (cp >> 18) & 0x7 <= 0x7 && (cp >> 12)
            & 0x3f <= 0x3f) by (bit_vector);
    }
    if cp < 0x80 {
        acc.push((cp & 0x7f) as u8);
    } else if cp < 0x800 {
        acc.push(0xc0 | (((cp >> 6) & 0x1f) as u8));
        acc.push(0x80 | ((cp & 0x3f) as u8));
    } else if cp < 0x10000 {
        acc.push(0xe0 | (((cp >> 12) & 0x0f) as u8));
        acc.push(0x80 | (((cp >> 6) & 0x3f) as u8));
        acc.push(0x80 | ((cp & 0x3f) as u8));
    } else {
        acc.push(0xf0 | (((cp >> 18) & 0x7) as u8));
        acc.push(0x80 | (((cp >> 12) & 0x3f) as u8));
        acc.push(0x80 | (((cp >> 6) & 0x3f) as u8));
        acc.push(0x80 | ((cp & 0x3f) as u8));
    }
    proof {
        assert(acc@ =~= old(acc)@ + encode_scalar(cp));
    }
}

/// Reads one `\u` escape at `cur`, yielding the bytes it contributes
/// and the position after it.
fn scan_u_escape(s: &Vec<u8>, cur: usize) -> (r: Option<(Vec<u8>, usize)>)
    requires
        cur + 2 <= s@.len(),
    ensures
        match r {
            Some((bytes, nxt)) => u_escape_step(s@, cur as int) == Some(
                (bytes@, nxt as int),
            ) && (nxt == cur + 6 || nxt == cur + 12) && nxt <= s@.len(),
            None => u_escape_step(s@, cur as int) is None,
        },
{
    proof {
        reveal(u_escape_step);
    }
    if s.len() - cur >= 6 && is_hex_digit_b(s[cur + 2]) && is_hex_digit_b(s[cur + 3])
        && is_hex_digit_b(s[cur + 4]) && is_hex_digit_b(s[cur + 5]) {
        let cp: u32 = (hex_val_b(s[cur + 2]) as u32) * 4096 + (hex_val_b(s[cur + 3]) as u32) * 256
            + (hex_val_b(s[cur + 4]) as u32) * 16 + (hex_val_b(s[cur + 5]) as u32);
        proof {
            assert(cp as nat == hex4_val(s@, cur as int + 2));
        }
        if 0xd800 <= cp && cp <= 0xdbff {
            // a high surrogate: pair it with the low one
            if s.len() - cur >= 12 && s[cur + 6] == BACKSLASH && s[cur + 7] == 0x75
                && is_hex_digit_b(s[cur + 8]) && is_hex_digit_b(s[cur + 9]) && is_hex_digit_b(
                s[cur + 10],
            ) && is_hex_digit_b(s[cur + 11]) {
                let lo: u32 = (hex_val_b(s[cur + 8]) as u32) * 4096 + (hex_val_b(
                    s[cur + 9],
                ) as u32) * 256 + (hex_val_b(s[cur + 10]) as u32) * 16 + (hex_val_b(
                    s[cur + 11],
                ) as u32);
                proof {
                    assert(lo as nat == hex4_val(s@, cur as int + 8));
                }
                if !(0xdc00 <= lo && lo <= 0xdfff) {
                    return None;
                }
                let astral: u32 = 0x10000 + (cp - 0xd800) * 0x400 + (lo - 0xdc00);
                let mut bytes: Vec<u8> = Vec::new();
                push_scalar_utf8(&mut bytes, astral);
                proof {
                    assert(bytes@ =~= encode_scalar(astral));
                }
                Some((bytes, cur + 12))
            } else {
                None
            }
        } else if 0xdc00 <= cp && cp <= 0xdfff {
            None
        } else {
            let mut bytes: Vec<u8> = Vec::new();
            push_scalar_utf8(&mut bytes, cp);
            proof {
                assert(bytes@ =~= encode_scalar(cp));
            }
            Some((bytes, cur + 6))
        }
    } else {
        None
    }
}

/// Scans a string body, collecting its unescaped content.
#[verifier::rlimit(100)]
fn scan_string_body(s: &Vec<u8>, p: usize) -> (r: Option<(Vec<u8>, usize)>)
    requires
        p <= s@.len(),
    ensures
        match r {
            Some((c, q)) => parse_string_body(s@, p as int) == Some((c@, q as int)) && p < q
                <= s@.len(),
            None => parse_string_body(s@, p as int) is None,
        },
{
    proof {
        lemma_parse_string_body_bounds(s@, p as int);
    }
    let mut cur = p;
    let mut acc: Vec<u8> = Vec::new();
    loop
        invariant
            p <= cur <= s@.len(),
            (match parse_string_body(s@, cur as int) {
                Some((c, q)) => parse_string_body(s@, p as int) == Some((acc@ + c, q)),
                None => parse_string_body(s@, p as int) is None,
            }),
        decreases s@.len() - cur,
    {
        if cur >= s.len() {
            return None;
        }
        let b = s[cur];
        if b == QUOTE {
            proof {
                assert(acc@ + Seq::<u8>::empty() =~= acc@);
                lemma_parse_string_body_bounds(s@, p as int);
            }
            return Some((acc, cur + 1));
        }
        if b == BACKSLASH {
            if cur + 1 >= s.len() {
                return None;
            }
            let e = s[cur + 1];
            if e == 0x75 {
                match scan_u_escape(s, cur) {
                    Some((bytes, nxt)) => {
                        let ghost old_acc = acc@;
                        let ghost contributed = bytes@;
                        let mut bytes = bytes;
                        acc.append(&mut bytes);
                        proof {
                            let c0 = cur as int;
                            match parse_string_body(s@, nxt as int) {
                                Some((rest, q)) => {
                                    assert((old_acc + contributed) + rest =~= old_acc + (
                                    contributed + rest));
                                },
                                None => {},
                            }
                        }
                        cur = nxt;
                    },
                    None => {
                        return None;
                    },
                }
            } else {
                match unescape_b(e) {
                    Some(u) => {
                        proof {
                            let c0 = cur as int;
                            match parse_string_body(s@, c0 + 2) {
                                Some((rest, q)) => {
                                    assert((acc@ + seq![u]) + rest =~= acc@ + (seq![u] + rest));
                                },
                                None => {},
                            }
                        }
                        acc.push(u);
                        cur = cur + 2;
                    },
                    None => {
                        return None;
                    },
                }
            }
        } else if b < 0x20 {
            return None;
        } else {
            proof {
                let c0 = cur as int;
                match parse_string_body(s@, c0 + 1) {
                    Some((rest, q)) => {
                        assert((acc@ + seq![s@[c0]]) + rest =~= acc@ + (seq![s@[c0]] + rest));
                    },
                    None => {},
                }
            }
            acc.push(b);
            cur = cur + 1;
        }
    }
}

/// Advances past scalar bytes.
fn scan_atom(s: &Vec<u8>, p: usize) -> (q: usize)
    requires
        p <= s@.len(),
    ensures
        q as int == skip_atom(s@, p as int),
        p <= q <= s@.len(),
{
    let mut cur = p;
    while cur < s.len() && ((0x30 <= s[cur] && s[cur] <= 0x39) || (0x61 <= s[cur] && s[cur]
        <= 0x7a) || (0x41 <= s[cur] && s[cur] <= 0x5a) || s[cur] == 0x2b || s[cur] == 0x2d
        || s[cur] == 0x2e)
        invariant
            p <= cur <= s@.len(),
            skip_atom(s@, p as int) == skip_atom(s@, cur as int),
        decreases s@.len() - cur,
    {
        cur = cur + 1;
    }
    cur
}

/// Scans a composite value from just after its opening bracket.
fn scan_composite(s: &Vec<u8>, p: usize) -> (r: Option<usize>)
    requires
        1 <= p <= s@.len(),
    ensures
        match r {
            Some(q) => skip_composite(s@, p as int, 1, false, false) == Some(q as int) && p < q
                <= s@.len(),
            None => skip_composite(s@, p as int, 1, false, false) is None,
        },
{
    proof {
        lemma_skip_composite_bounds(s@, p as int, 1, false, false);
    }
    let mut cur = p;
    let mut depth: usize = 1;
    let mut in_str = false;
    let mut esc = false;
    loop
        invariant
            p <= cur <= s@.len(),
            1 <= p,
            1 <= depth,
            depth <= cur - p + 1,
            esc ==> in_str,
            skip_composite(s@, p as int, 1, false, false) == skip_composite(
                s@,
                cur as int,
                depth as nat,
                in_str,
                esc,
            ),
        decreases s@.len() - cur,
    {
        if cur >= s.len() {
            return None;
        }
        let b = s[cur];
        if in_str {
            if esc {
                esc = false;
            } else if b == BACKSLASH {
                esc = true;
            } else if b == QUOTE {
                in_str = false;
            }
            cur = cur + 1;
        } else if b == LBRACE || b == LBRACKET {
            depth = depth + 1;
            cur = cur + 1;
        } else if b == RBRACE || b == RBRACKET {
            if depth == 1 {
                proof {
                    lemma_skip_composite_bounds(s@, p as int, 1, false, false);
                }
                return Some(cur + 1);
            }
            depth = depth - 1;
            cur = cur + 1;
        } else if b == QUOTE {
            in_str = true;
            cur = cur + 1;
        } else {
            cur = cur + 1;
        }
    }
}

/// Scans one JSON value of any kind.
fn scan_value(s: &Vec<u8>, p: usize) -> (r: Option<usize>)
    requires
        p <= s@.len(),
    ensures
        match r {
            Some(q) => skip_value(s@, p as int) == Some(q as int) && p < q <= s@.len(),
            None => skip_value(s@, p as int) is None,
        },
{
    if p >= s.len() {
        return None;
    }
    let b = s[p];
    if b == QUOTE {
        match scan_string_body(s, p + 1) {
            Some((c, q)) => Some(q),
            None => None,
        }
    } else if b == LBRACE || b == LBRACKET {
        scan_composite(s, p + 1)
    } else if (0x30 <= b && b <= 0x39) || (0x61 <= b && b <= 0x7a) || (0x41 <= b && b <= 0x5a) || b
        == 0x2b || b == 0x2d || b == 0x2e {
        let q = scan_atom(s, p);
        proof {
            lemma_skip_atom_bounds(s@, p + 1 as int);
        }
        Some(q)
    } else {
        None
    }
}

/// The literal `null` at position `p`.
fn at_null_b(s: &Vec<u8>, p: usize) -> (r: bool)
    requires
        p <= s@.len(),
    ensures
        r == at_null(s@, p as int),
{
    s.len() >= 4 && p <= s.len() - 4 && s[p] == 0x6e && s[p + 1] == 0x75 && s[p + 2] == 0x6c && s[p
        + 3] == 0x6c
}

/// Reads a string value into an owned string.
fn read_string_value(s: &Vec<u8>, p: usize) -> (r: Result<(String, usize), JsonError>)
    requires
        p <= s@.len(),
    ensures
        match r {
            Ok((st, q)) => parse_string_value(s@, p as int) == Ok::<(Seq<char>, int), JsonError>(
                (st@, q as int),
            ) && p < q <= s@.len(),
            Err(e) => parse_string_value(s@, p as int) == Err::<(Seq<char>, int), JsonError>(e),
        },
{
    if p < s.len() && s[p] == QUOTE {
        match scan_string_body(s, p + 1) {
            Some((c, q)) => match string_from_utf8(c) {
                Some(st) => Ok((st, q)),
                None => Err(JsonError::InvalidUtf8),
            },
            None => Err(JsonError::Syntax),
        }
    } else {
        Err(JsonError::Syntax)
    }
}

/// Reads a warnings array into owned strings.
fn read_warnings_value(s: &Vec<u8>, p: usize) -> (r: Result<(Vec<String>, usize), JsonError>)
    requires
        p <= s@.len(),
    ensures
        match r {
            Ok((w, q)) => parse_warnings_value(s@, p as int) == Ok::<
                (Seq<Seq<char>>, int),
                JsonError,
            >((w.deep_view(), q as int)) && p < q <= s@.len(),
            Err(e) => parse_warnings_value(s@, p as int) == Err::<(Seq<Seq<char>>, int), JsonError>(
                e,
            ),
        },
{
    if !(p < s.len() && s[p] == LBRACKET) {
        return Err(JsonError::Syntax);
    }
    let q0 = scan_ws(s, p + 1);
    if q0 < s.len() && s[q0] == RBRACKET {
        let w: Vec<String> = Vec::new();
        proof {
            assert(w.deep_view() =~= Seq::<Seq<char>>::empty());
        }
        return Ok((w, q0 + 1));
    }
    let mut cur = q0;
    let mut acc: Vec<String> = Vec::new();
    proof {
        assert(acc.deep_view() =~= Seq::<Seq<char>>::empty());
    }
    loop
        invariant
            p < cur <= s@.len(),
            parse_warnings_value(s@, p as int) == parse_warn_items(
                s@,
                q0 as int,
                Seq::<Seq<char>>::empty(),
            ),
            parse_warn_items(s@, q0 as int, Seq::<Seq<char>>::empty()) == parse_warn_items(
                s@,
                cur as int,
                acc.deep_view(),
            ),
        decreases s@.len() - cur,
    {
        match read_string_value(s, cur) {
            Err(e) => {
                return Err(e);
            },
            Ok((w, q)) => {
                let q2 = scan_ws(s, q);
                if q2 < s.len() && s[q2] == COMMA {
                    let ghost old_dv = acc.deep_view();
                    acc.push(w);
                    proof {
                        assert(acc.deep_view() =~= old_dv.push(w@));
                    }
                    cur = scan_ws(s, q2 + 1);
                } else if q2 < s.len() && s[q2] == RBRACKET {
                    let ghost old_dv = acc.deep_view();
                    acc.push(w);
                    proof {
                        assert(acc.deep_view() =~= old_dv.push(w@));
                    }
                    return Ok((acc, q2 + 1));
                } else {
                    return Err(JsonError::Syntax);
                }
            },
        }
    }
}

/// Reads a metadata object, each value captured as its raw text.
fn read_metadata_value(s: &Vec<u8>, p: usize) -> (r: Result<(Vec<MetadataEntry>, usize), JsonError>)
    requires
        p <= s@.len(),
    ensures
        match r {
            Ok((m, q)) => parse_metadata_value(s@, p as int) == Ok::<
                (Seq<MetadataEntryView>, int),
                JsonError,
            >((meta_seq_view(m@), q as int)) && p < q <= s@.len(),
            Err(e) => parse_metadata_value(s@, p as int) == Err::<
                (Seq<MetadataEntryView>, int),
                JsonError,
            >(e),
        },
{
    if !(p < s.len() && s[p] == LBRACE) {
        return Err(JsonError::Syntax);
    }
    let q0 = scan_ws(s, p + 1);
    if q0 < s.len() && s[q0] == RBRACE {
        let m: Vec<MetadataEntry> = Vec::new();
        proof {
            assert(meta_seq_view(m@) =~= Seq::<MetadataEntryView>::empty());
        }
        return Ok((m, q0 + 1));
    }
    let mut cur = q0;
    let mut acc: Vec<MetadataEntry> = Vec::new();
    proof {
        assert(meta_seq_view(acc@) =~= Seq::<MetadataEntryView>::empty());
    }
    loop
        invariant
            p < cur <= s@.len(),
            parse_metadata_value(s@, p as int) == parse_meta_members(
                s@,
                q0 as int,
                Seq::<MetadataEntryView>::empty(),
            ),
            parse_meta_members(s@, q0 as int, Seq::<MetadataEntryView>::empty())
                == parse_meta_members(s@, cur as int, meta_seq_view(acc@)),
        decreases s@.len() - cur,
    {
        if !(cur < s.len() && s[cur] == QUOTE) {
            return Err(JsonError::Syntax);
        }
        match scan_string_body(s, cur + 1) {
            None => {
                return Err(JsonError::Syntax);
            },
            Some((kc, q1)) => {
                let ghost kc_view = kc@;
                let key = match string_from_utf8(kc) {
                    Some(k) => k,
                    None => {
                        return Err(JsonError::InvalidUtf8);
                    },
                };
                let q2 = scan_ws(s, q1);
                if !(q2 < s.len() && s[q2] == COLON) {
                    return Err(JsonError::Syntax);
                }
                let q3 = scan_ws(s, q2 + 1);
                match scan_value(s, q3) {
                    None => {
                        return Err(JsonError::Syntax);
                    },
                    Some(q4) => {
                        let raw = vec_sub(s, q3, q4);
                        let value = match string_from_utf8(raw) {
                            Some(v) => v,
                            None => {
                                return Err(JsonError::InvalidUtf8);
                            },
                        };
                        let entry = MetadataEntry { key, value };
                        let ghost entry_view = MetadataEntryView {
                            key: decode_utf8(kc_view),
                            value: decode_utf8(s@.subrange(q3 as int, q4 as int)),
                        };
                        proof {
                            assert(entry@ =~= entry_view);
                        }
                        let q5 = scan_ws(s, q4);
                        if q5 < s.len() && s[q5] == COMMA {
                            let ghost old_mv = meta_seq_view(acc@);
                            acc.push(entry);
                            proof {
                                assert(meta_seq_view(acc@) =~= old_mv.push(entry_view));
                            }
                            cur = scan_ws(s, q5 + 1);
                        } else if q5 < s.len() && s[q5] == RBRACE {
                            let ghost old_mv = meta_seq_view(acc@);
                            acc.push(entry);
                            proof {
                                assert(meta_seq_view(acc@) =~= old_mv.push(entry_view));
                            }
                            return Ok((acc, q5 + 1));
                        } else {
                            return Err(JsonError::Syntax);
                        }
                    },
                }
            },
        }
    }
}

/// Parses the members of a non-empty submission-response object, `p`
/// standing at the start of a key: only `taskId` is meaningful, any
/// other member is skipped.
pub open spec fn parse_submit_members(s: Seq<u8>, p: int, found: Option<Seq<char>>) -> Result<
    (Option<Seq<char>>, int),
    JsonError,
>
    decreases s.len() - p,
        via parse_submit_members_decreases
{
    if !(0 <= p < s.len() && s[p] == QUOTE) {
        Err(JsonError::Syntax)
    } else {
        match parse_string_body(s, p + 1) {
            Some((kc, q1)) => {
                let q2 = skip_ws(s, q1);
                if q2 < s.len() && s[q2] == COLON {
                    let q3 = skip_ws(s, q2 + 1);
                    let stepped = if valid_utf8(kc) && decode_utf8(kc) == "taskId"@ {
                        if found is Some {
                            Err(JsonError::DuplicateField)
                        } else {
                            match parse_string_value(s, q3) {
                                Ok((v, q)) => Ok((Some(v), q)),
                                Err(e) => Err(e),
                            }
                        }
                    } else {
                        match skip_value(s, q3) {
                            Some(q) => Ok((found, q)),
                            None => Err(JsonError::Syntax),
                        }
                    };
                    match stepped {
                        Ok((found2, q4)) => {
                            let q5 = skip_ws(s, q4);
                            if q5 < s.len() && s[q5] == COMMA {
                                parse_submit_members(s, skip_ws(s, q5 + 1), found2)
                            } else if q5 < s.len() && s[q5] == RBRACE {
                                Ok((found2, q5 + 1))
                            } else {
                                Err(JsonError::Syntax)
                            }
                        },
                        Err(e) => Err(e),
                    }
                } else {
                    Err(JsonError::Syntax)
                }
            },
            None => Err(JsonError::Syntax),
        }
    }
}

#[via_fn]
proof fn parse_submit_members_decreases(s: Seq<u8>, p: int, found: Option<Seq<char>>) {
    if 0 <= p < s.len() && s[p] == QUOTE {
        lemma_parse_string_body_bounds(s, p + 1);
        match parse_string_body(s, p + 1) {
            Some((kc, q1)) => {
                lemma_skip_ws_bounds(s, q1);
                let q2 = skip_ws(s, q1);
                if q2 < s.len() {
                    lemma_skip_ws_bounds(s, q2 + 1);
                    let q3 = skip_ws(s, q2 + 1);
                    lemma_parse_string_value_bounds(s, q3);
                    lemma_skip_value_bounds(s, q3);
                    lemma_skip_ws_bounds(s, q3);
                    match parse_string_value(s, q3) {
                        Ok((v, q)) => {
                            lemma_skip_ws_bounds(s, q);
                            let q5 = skip_ws(s, q);
                            if q5 < s.len() {
                                lemma_skip_ws_bounds(s, q5 + 1);
                            }
                        },
                        Err(e) => {},
                    }
                    match skip_value(s, q3) {
                        Some(q) => {
                            lemma_skip_ws_bounds(s, q);
                            let q5 = skip_ws(s, q);
                            if q5 < s.len() {
                                lemma_skip_ws_bounds(s, q5 + 1);
                            }
                        },
                        None => {},
                    }
                }
            },
            None => {},
        }
    }
}

/// Parses a submission response: one JSON object whose `taskId` member
/// carries the new task's identifier.
pub open spec fn parse_submit_response(s: Seq<u8>) -> Result<Seq<char>, JsonError> {
    let p0 = skip_ws(s, 0);
    if p0 < s.len() && s[p0] == LBRACE {
        let p1 = skip_ws(s, p0 + 1);
        let inner = if p1 < s.len() && s[p1] == RBRACE {
            Ok((None::<Seq<char>>, p1 + 1))
        } else {
            parse_submit_members(s, p1, None)
        };
        match inner {
            Ok((found, q)) => if skip_ws(s, q) == s.len() {
                match found {
                    Some(tid) => Ok(tid),
                    None => Err(JsonError::MissingField),
                }
            } else {
                Err(JsonError::Syntax)
            },
            Err(e) => Err(e),
        }
    } else {
        Err(JsonError::Syntax)
    }
}

/// Decodes a submission-response body into the task identifier it
/// carries, exactly as [`parse_submit_response`] describes it.
#[verifier::rlimit(100)]
pub fn decode_submit_response(s: &Vec<u8>) -> (r: Result<SubmitTaskResponse, JsonError>)
    ensures
        match parse_submit_response(s@) {
            Ok(tid) => r matches Ok(resp) && resp.task_id@ == tid,
            Err(e) => r matches Err(e2) && e2 == e,
        },
{
    let p0 = scan_ws(s, 0);
    if !(p0 < s.len() && s[p0] == LBRACE) {
        return Err(JsonError::Syntax);
    }
    let p1 = scan_ws(s, p0 + 1);
    if p1 < s.len() && s[p1] == RBRACE {
        let t = scan_ws(s, p1 + 1);
        if t != s.len() {
            return Err(JsonError::Syntax);
        }
        return Err(JsonError::MissingField);
    }
    let mut found: Option<String> = None;
    let mut cur = p1;
    loop
        invariant
            p1 <= cur <= s@.len(),
            skip_ws(s@, 0) == p0,
            p0 < s@.len() && s@[p0 as int] == LBRACE,
            skip_ws(s@, p0 + 1) == p1,
            !(p1 < s@.len() && s@[p1 as int] == RBRACE),
            parse_submit_members(s@, p1 as int, None) == parse_submit_members(
                s@,
                cur as int,
                match found {
                    Some(f) => Some(f@),
                    None => None,
                },
            ),
        decreases s@.len() - cur,
    {
        if !(cur < s.len() && s[cur] == QUOTE) {
            return Err(JsonError::Syntax);
        }
        let (kc, q1) = match scan_string_body(s, cur + 1) {
            Some(pair) => pair,
            None => {
                return Err(JsonError::Syntax);
            },
        };
        let ghost kc_view = kc@;
        let key_opt = string_from_utf8(kc);
        let q2 = scan_ws(s, q1);
        if !(q2 < s.len() && s[q2] == COLON) {
            return Err(JsonError::Syntax);
        }
        let q3 = scan_ws(s, q2 + 1);
        let is_task_id = match &key_opt {
            Some(k) => *k == String::from_str("taskId"),
            None => false,
        };
        let q4: usize;
        if is_task_id {
            if found.is_some() {
                return Err(JsonError::DuplicateField);
            }
            match read_string_value(s, q3) {
                Ok((v, qq)) => {
                    found = Some(v);
                    q4 = qq;
                },
                Err(e) => {
                    return Err(e);
                },
            }
        } else {
            match scan_value(s, q3) {
                Some(qq) => {
                    q4 = qq;
                },
                None => {
                    return Err(JsonError::Syntax);
                },
            }
        }
        let q5 = scan_ws(s, q4);
        if q5 < s.len() && s[q5] == COMMA {
            cur = scan_ws(s, q5 + 1);
        } else if q5 < s.len() && s[q5] == RBRACE {
            let trailing = scan_ws(s, q5 + 1);
            if trailing != s.len() {
                return Err(JsonError::Syntax);
            }
            return match found {
                Some(tid) => Ok(SubmitTaskResponse { task_id: tid }),
                None => Err(JsonError::MissingField),
            };
        } else {
            return Err(JsonError::Syntax);
        }
    }
}

/// The decoder's mutable gathering of the six fields.
struct FieldAcc {
    task_id: Option<String>,
    status: Option<TaskStatusValue>,
    result: Option<String>,
    error: Option<String>,
    warnings: Option<Vec<String>>,
    metadata: Option<Vec<MetadataEntry>>,
}

/// The partial state a gathering stands for.
spec fn acc_view(a: FieldAcc) -> PartialStatus {
    PartialStatus {
        task_id: match a.task_id {
            Some(x) => Some(x@),
            None => None,
        },
        status: a.status,
        result: match a.result {
            Some(x) => Some(x@),
            None => None,
        },
        error: match a.error {
            Some(x) => Some(x@),
            None => None,
        },
        warnings: match a.warnings {
            Some(x) => Some(x.deep_view()),
            None => None,
        },
        metadata: match a.metadata {
            Some(x) => Some(meta_seq_view(x@)),
            None => None,
        },
    }
}

/// Reads the value of the member whose key content is `kc` (already
/// decoded into `key_opt` where it is valid UTF-8), updating the
/// gathered fields.
#[verifier::rlimit(100)]
fn read_field(
    s: &Vec<u8>,
    p: usize,
    key_opt: Option<String>,
    Ghost(kc): Ghost<Seq<u8>>,
    acc: &mut FieldAcc,
) -> (r: Result<usize, JsonError>)
    requires
        p <= s@.len(),
        key_opt is Some <==> valid_utf8(kc),
        key_opt matches Some(k) ==> k@ == decode_utf8(kc),
    ensures
        match r {
            Ok(q) => parse_field(s@, p as int, kc, acc_view(*old(acc))) == Ok::<
                (PartialStatus, int),
                JsonError,
            >((acc_view(*final(acc)), q as int)) && p < q <= s@.len(),
            Err(e) => parse_field(s@, p as int, kc, acc_view(*old(acc))) == Err::<
                (PartialStatus, int),
                JsonError,
            >(e),
        },
{
    let key = match key_opt {
        Some(k) => k,
        None => {
            // The key is not valid UTF-8, so it is no known field:
            // its value is skipped opaquely.
            match scan_value(s, p) {
                Some(q) => {
                    return Ok(q);
                },
                None => {
                    return Err(JsonError::Syntax);
                },
            }
        },
    };
    if key == String::from_str("taskId") {
        if acc.task_id.is_some() {
            return Err(JsonError::DuplicateField);
        }
        match read_string_value(s, p) {
            Ok((v, q)) => {
                acc.task_id = Some(v);
                Ok(q)
            },
            Err(e) => Err(e),
        }
    } else if key == String::from_str("status") {
        if acc.status.is_some() {
            return Err(JsonError::DuplicateField);
        }
        match read_string_value(s, p) {
            Ok((t, q)) => {
                if t == String::from_str("processing") {
                    acc.status = Some(TaskStatusValue::Processing);
                } else if t == String::from_str("completed") {
                    acc.status = Some(TaskStatusValue::Completed);
                } else if t == String::from_str("failed") {
                    acc.status = Some(TaskStatusValue::Failed);
                } else {
                    return Err(JsonError::UnknownStatusTag);
                }
                Ok(q)
            },
            Err(e) => Err(e),
        }
    } else if key == String::from_str("result") {
        if acc.result.is_some() {
            return Err(JsonError::DuplicateField);
        }
        if at_null_b(s, p) {
            let n = s.len();
            proof {
                assert(p as int + 4 <= n as int);
            }
            return Ok(p + 4);
        }
        match read_string_value(s, p) {
            Ok((v, q)) => {
                acc.result = Some(v);
                Ok(q)
            },
            Err(e) => Err(e),
        }
    } else if key == String::from_str("error") {
        if acc.error.is_some() {
            return Err(JsonError::DuplicateField);
        }
        if at_null_b(s, p) {
            let n = s.len();
            proof {
                assert(p as int + 4 <= n as int);
            }
            return Ok(p + 4);
        }
        match read_string_value(s, p) {
            Ok((v, q)) => {
                acc.error = Some(v);
                Ok(q)
            },
            Err(e) => Err(e),
        }
    } else if key == String::from_str("warnings") {
        if acc.warnings.is_some() {
            return Err(JsonError::DuplicateField);
        }
        if at_null_b(s, p) {
            let n = s.len();
            proof {
                assert(p as int + 4 <= n as int);
            }
            return Ok(p + 4);
        }
        match read_warnings_value(s, p) {
            Ok((v, q)) => {
                acc.warnings = Some(v);
                Ok(q)
            },
            Err(e) => Err(e),
        }
    } else if key == String::from_str("metadata") {
        if acc.metadata.is_some() {
            return Err(JsonError::DuplicateField);
        }
        if at_null_b(s, p) {
            let n = s.len();
            proof {
                assert(p as int + 4 <= n as int);
            }
            return Ok(p + 4);
        }
        match read_metadata_value(s, p) {
            Ok((v, q)) => {
                acc.metadata = Some(v);
                Ok(q)
            },
            Err(e) => Err(e),
        }
    } else {
        // An unrecognized member: its value is skipped.
        match scan_value(s, p) {
            Some(q) => Ok(q),
            None => Err(JsonError::Syntax),
        }
    }
}

/// Decodes a wire payload into a status snapshot, exactly as
/// [`parse_status`] describes it.
#[verifier::rlimit(100)]
pub fn decode_status(s: &Vec<u8>) -> (r: Result<TaskStatus, JsonError>)
    ensures
        match parse_status(s@) {
            Ok(v) => r matches Ok(st) && st@ == v,
            Err(e) => r matches Err(e2) && e2 == e,
        },
{
    let p0 = scan_ws(s, 0);
    if !(p0 < s.len() && s[p0] == LBRACE) {
        return Err(JsonError::Syntax);
    }
    let p1 = scan_ws(s, p0 + 1);
    if p1 < s.len() && s[p1] == RBRACE {
        let t = scan_ws(s, p1 + 1);
        if t != s.len() {
            return Err(JsonError::Syntax);
        }
        return Err(JsonError::MissingField);
    }
    let mut acc = FieldAcc {
        task_id: None,
        status: None,
        result: None,
        error: None,
        warnings: None,
        metadata: None,
    };
    let mut cur = p1;
    proof {
        assert(acc_view(acc) =~= empty_partial());
    }
    loop
        invariant
            p1 <= cur <= s@.len(),
            skip_ws(s@, 0) == p0,
            p0 < s@.len() && s@[p0 as int] == LBRACE,
            skip_ws(s@, p0 + 1) == p1,
            !(p1 < s@.len() && s@[p1 as int] == RBRACE),
            parse_members(s@, p1 as int, empty_partial()) == parse_members(
                s@,
                cur as int,
                acc_view(acc),
            ),
        decreases s@.len() - cur,
    {
        if !(cur < s.len() && s[cur] == QUOTE) {
            return Err(JsonError::Syntax);
        }
        let (kc, q1) = match scan_string_body(s, cur + 1) {
            Some(pair) => pair,
            None => {
                return Err(JsonError::Syntax);
            },
        };
        let ghost kc_view = kc@;
        let key_opt = string_from_utf8(kc);
        let q2 = scan_ws(s, q1);
        if !(q2 < s.len() && s[q2] == COLON) {
            return Err(JsonError::Syntax);
        }
        let q3 = scan_ws(s, q2 + 1);
        let q4 = match read_field(s, q3, key_opt, Ghost(kc_view), &mut acc) {
            Ok(q) => q,
            Err(e) => {
                return Err(e);
            },
        };
        let q5 = scan_ws(s, q4);
        if q5 < s.len() && s[q5] == COMMA {
            cur = scan_ws(s, q5 + 1);
        } else if q5 < s.len() && s[q5] == RBRACE {
            let trailing = scan_ws(s, q5 + 1);
            if trailing != s.len() {
                return Err(JsonError::Syntax);
            }
            let task_id = match acc.task_id {
                Some(t) => t,
                None => {
                    return Err(JsonError::MissingField);
                },
            };
            let status = match acc.status {
                Some(st) => st,
                None => {
                    return Err(JsonError::MissingField);
                },
            };
            let out = TaskStatus {
                task_id,
                status,
                result: acc.result,
                error: acc.error,
                warnings: acc.warnings,
                metadata: acc.metadata,
            };
            proof {
                match parse_status(s@) {
                    Ok(v) => {
                        assert(out@ =~~= v);
                    },
                    Err(e) => {},
                }
            }
            return Ok(out);
        } else {
            return Err(JsonError::Syntax);
        }
    }
}

} // verus!
