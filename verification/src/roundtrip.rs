//! Decoding an encoded status yields the status back: the round-trip
//! law of the wire codec, proved field by field over the parser and
//! encoder definitions.

use vstd::prelude::*;

use vstd::utf8::{decode_utf8, encode_scalar, encode_utf8, valid_utf8};

use crate::encode::{
    enc_metadata, enc_meta_items, enc_str_chars, enc_warnings, enc_warn_items, encode_status,
    escape_byte, escape_bytes, hex_char, member_enc, member_present, members_after, tag_chars,
    wf_metadata_value, wf_status_view,
};
use crate::error::JsonError;
use crate::json::{
    at_null, empty_partial, hex4_val, hex_val, is_atom_byte, is_hex_digit, is_json_ws, parse_field,
    u_escape_step,
    parse_members, parse_metadata_value, parse_meta_members, parse_status, parse_string_body,
    parse_string_value, parse_warnings_value, parse_warn_items, skip_atom, skip_composite,
    skip_value, skip_ws, unescape_byte, PartialStatus, BACKSLASH, COLON, COMMA, LBRACE,
    LBRACKET, QUOTE, RBRACE, RBRACKET,
};
use crate::json::{
    lemma_parse_field_bounds, lemma_parse_string_body_bounds, lemma_skip_composite_bounds,
    lemma_skip_value_bounds, lemma_skip_ws_bounds,
};
use crate::types::{MetadataEntryView, TaskStatusValue, TaskStatusView};

verus! {

broadcast use vstd::utf8::group_utf8_lib;

/// `w` lies in `s` at position `p`.
pub open spec fn window(s: Seq<u8>, p: int, w: Seq<u8>) -> bool {
    0 <= p && p + w.len() <= s.len() && s.subrange(p, p + w.len() as int) == w
}

/// One byte of a window.
proof fn lemma_window_index(s: Seq<u8>, p: int, w: Seq<u8>, i: int)
    requires
        window(s, p, w),
        0 <= i < w.len(),
    ensures
        s[p + i] == w[i],
{
    assert(w[i] == s.subrange(p, p + w.len() as int)[i]);
}

/// A part of a window is itself a window.
proof fn lemma_window_sub(s: Seq<u8>, p: int, w: Seq<u8>, a: int, b: int)
    requires
        window(s, p, w),
        0 <= a <= b <= w.len(),
    ensures
        window(s, p + a, w.subrange(a, b)),
{
    assert(s.subrange(p + a, p + a + (b - a)) =~= w.subrange(a, b)) by {
        assert forall|i: int| 0 <= i < b - a implies s.subrange(p + a, p + a + (b - a))[i]
            == w.subrange(a, b)[i] by {
            assert(s.subrange(p + a, p + a + (b - a))[i] == s[p + a + i]);
            assert(w.subrange(a, b)[i] == w[a + i]);
            lemma_window_index(s, p, w, a + i);
        }
    }
}

/// A hexadecimal digit character denotes its digit.
proof fn lemma_hex_char(d: nat)
    requires
        d < 16,
    ensures
        is_hex_digit(hex_char(d)),
        hex_val(hex_char(d)) == d,
{
}

/// A string body consisting of the escaped form of `c` and the closing
/// quote parses back to exactly `c`, whatever follows the quote.
proof fn lemma_parse_escaped(s: Seq<u8>, p: int, c: Seq<u8>)
    requires
        window(s, p, escape_bytes(c) + seq![QUOTE]),
    ensures
        parse_string_body(s, p) == Some((c, p + escape_bytes(c).len() + 1)),
    decreases c.len(),
{
    let eb = escape_bytes(c);
    let w = eb + seq![QUOTE];
    if c.len() == 0 {
        assert(eb =~= Seq::<u8>::empty());
        lemma_window_index(s, p, w, 0);
        assert(s[p] == QUOTE);
    } else {
        let e0 = escape_byte(c[0]);
        let c1 = c.drop_first();
        assert(eb == e0 + escape_bytes(c1));
        let k = e0.len() as int;
        assert(w.subrange(k, w.len() as int) =~= escape_bytes(c1) + seq![QUOTE]) by {
            assert forall|i: int| 0 <= i < w.len() - k implies w.subrange(k, w.len() as int)[i]
                == (escape_bytes(c1) + seq![QUOTE])[i] by {
                assert(w.subrange(k, w.len() as int)[i] == w[k + i]);
            }
        }
        lemma_window_sub(s, p, w, k, w.len() as int);
        lemma_parse_escaped(s, p + k, c1);
        if c[0] == QUOTE {
            lemma_window_index(s, p, w, 0);
            lemma_window_index(s, p, w, 1);
            assert(s[p] == BACKSLASH && s[p + 1] == QUOTE);
            assert(unescape_byte(QUOTE) == Some(QUOTE));
            assert(seq![c[0]] + c1 =~= c);
        } else if c[0] == BACKSLASH {
            lemma_window_index(s, p, w, 0);
            lemma_window_index(s, p, w, 1);
            assert(s[p] == BACKSLASH && s[p + 1] == BACKSLASH);
            assert(seq![c[0]] + c1 =~= c);
        } else if c[0] < 0x20 {
            lemma_window_index(s, p, w, 0);
            lemma_window_index(s, p, w, 1);
            lemma_window_index(s, p, w, 2);
            lemma_window_index(s, p, w, 3);
            lemma_window_index(s, p, w, 4);
            lemma_window_index(s, p, w, 5);
            assert(s[p] == BACKSLASH && s[p + 1] == 0x75 && s[p + 2] == 0x30 && s[p + 3] == 0x30);
            assert(s[p + 4] == hex_char((c[0] / 16) as nat));
            assert(s[p + 5] == hex_char((c[0] % 16) as nat));
            lemma_hex_char(0);
            lemma_hex_char((c[0] / 16) as nat);
            lemma_hex_char((c[0] % 16) as nat);
            assert(hex4_val(s, p + 2) == c[0]);
            let cp = hex4_val(s, p + 2) as u32;
            assert(encode_scalar(cp) =~= seq![c[0]]) by {
                assert(((cp & 0x7F) as u8) == cp as u8) by (bit_vector)
                    requires
                        cp < 0x20,
                ;
            }
            assert(u_escape_step(s, p) == Some((encode_scalar(cp), p + 6))) by {
                reveal(u_escape_step);
            }
            assert(seq![c[0]] + c1 =~= c);
        } else {
            lemma_window_index(s, p, w, 0);
            assert(s[p] == c[0]);
            assert(seq![c[0]] + c1 =~= c);
        }
    }
}

/// An encoded JSON string parses back to exactly the characters it
/// carries, whatever follows it.
proof fn lemma_parse_string_value_enc(s: Seq<u8>, p: int, sc: Seq<char>)
    requires
        window(s, p, enc_str_chars(sc)),
    ensures
        parse_string_value(s, p) == Ok::<(Seq<char>, int), JsonError>(
            (sc, p + enc_str_chars(sc).len()),
        ),
{
    let e = enc_str_chars(sc);
    let eb = escape_bytes(encode_utf8(sc));
    lemma_window_index(s, p, e, 0);
    assert(s[p] == QUOTE);
    assert(e.subrange(1, e.len() as int) =~= eb + seq![QUOTE]) by {
        assert forall|i: int| 0 <= i < e.len() - 1 implies e.subrange(1, e.len() as int)[i] == (eb
            + seq![QUOTE])[i] by {
            assert(e.subrange(1, e.len() as int)[i] == e[1 + i]);
            assert(e[1 + i] == (seq![QUOTE] + (eb + seq![QUOTE]))[1 + i]) by {
                assert(e =~= seq![QUOTE] + (eb + seq![QUOTE]));
            }
        }
    }
    lemma_window_sub(s, p, e, 1, e.len() as int);
    lemma_parse_escaped(s, p + 1, encode_utf8(sc));
    assert(valid_utf8(encode_utf8(sc)));
    assert(decode_utf8(encode_utf8(sc)) == sc);
}

/// A read escape step transfers to any position where the same bytes
/// lie.
proof fn lemma_u_escape_transfer(
    s1: Seq<u8>,
    p1: int,
    s2: Seq<u8>,
    p2: int,
    w: Seq<u8>,
    bytes: Seq<u8>,
    k: int,
)
    requires
        window(s1, p1, w),
        window(s2, p2, w),
        u_escape_step(s1, p1) == Some((bytes, p1 + k)),
        k == 6 || k == 12,
        k < w.len(),
    ensures
        u_escape_step(s2, p2) == Some((bytes, p2 + k)),
{
    reveal(u_escape_step);
    lemma_window_index(s1, p1, w, 2);
    lemma_window_index(s2, p2, w, 2);
    lemma_window_index(s1, p1, w, 3);
    lemma_window_index(s2, p2, w, 3);
    lemma_window_index(s1, p1, w, 4);
    lemma_window_index(s2, p2, w, 4);
    lemma_window_index(s1, p1, w, 5);
    lemma_window_index(s2, p2, w, 5);
    assert(hex4_val(s2, p2 + 2) == hex4_val(s1, p1 + 2));
    if k == 12 {
        lemma_window_index(s1, p1, w, 6);
        lemma_window_index(s2, p2, w, 6);
        lemma_window_index(s1, p1, w, 7);
        lemma_window_index(s2, p2, w, 7);
        lemma_window_index(s1, p1, w, 8);
        lemma_window_index(s2, p2, w, 8);
        lemma_window_index(s1, p1, w, 9);
        lemma_window_index(s2, p2, w, 9);
        lemma_window_index(s1, p1, w, 10);
        lemma_window_index(s2, p2, w, 10);
        lemma_window_index(s1, p1, w, 11);
        lemma_window_index(s2, p2, w, 11);
        assert(hex4_val(s2, p2 + 8) == hex4_val(s1, p1 + 8));
    }
}

/// A parsed string body transfers to any position where the same
/// bytes lie.
proof fn lemma_psb_transfer(s1: Seq<u8>, p1: int, s2: Seq<u8>, p2: int, c: Seq<u8>, q1: int)
    requires
        0 <= p1 <= s1.len(),
        parse_string_body(s1, p1) == Some((c, q1)),
        window(s2, p2, s1.subrange(p1, q1)),
    ensures
        parse_string_body(s2, p2) == Some((c, p2 + (q1 - p1))),
    decreases s1.len() - p1,
{
    lemma_parse_string_body_bounds(s1, p1);
    let w = s1.subrange(p1, q1);
    assert(window(s1, p1, w));
    lemma_window_index(s1, p1, w, 0);
    lemma_window_index(s2, p2, w, 0);
    assert(s2[p2] == s1[p1]);
    let b = s1[p1];
    if b == QUOTE {
        assert(c =~= Seq::<u8>::empty());
    } else if b == BACKSLASH {
        let e = s1[p1 + 1];
        if e == 0x75 {
            match u_escape_step(s1, p1) {
                Some((bytes, nxt)) => {
                    if (nxt == p1 + 6 || nxt == p1 + 12) && nxt <= s1.len() {
                        match parse_string_body(s1, nxt) {
                            Some((rest, qq)) => {
                                assert(qq == q1);
                                lemma_parse_string_body_bounds(s1, nxt);
                                let k = nxt - p1;
                                lemma_window_index(s1, p1, w, 1);
                                lemma_window_index(s2, p2, w, 1);
                                lemma_u_escape_transfer(s1, p1, s2, p2, w, bytes, k);
                                assert(w.subrange(k, w.len() as int) =~= s1.subrange(nxt, q1)) by {
                                    assert forall|i: int| 0 <= i < w.len() - k implies w.subrange(
                                        k,
                                        w.len() as int,
                                    )[i] == s1.subrange(nxt, q1)[i] by {
                                        assert(w.subrange(k, w.len() as int)[i] == w[k + i]);
                                        lemma_window_index(s1, p1, w, k + i);
                                    }
                                }
                                lemma_window_sub(s2, p2, w, k, w.len() as int);
                                lemma_psb_transfer(s1, nxt, s2, p2 + k, rest, q1);
                            },
                            None => {
                                assert(false);
                            },
                        }
                    } else {
                        assert(false);
                    }
                },
                None => {
                    assert(false);
                },
            }
        } else {
            match parse_string_body(s1, p1 + 2) {
                Some((rest, qq)) => {
                    assert(qq == q1);
                    lemma_parse_string_body_bounds(s1, p1 + 2);
                    lemma_window_index(s1, p1, w, 1);
                    lemma_window_index(s2, p2, w, 1);
                    assert(w.subrange(2, w.len() as int) =~= s1.subrange(p1 + 2, q1)) by {
                        assert forall|i: int| 0 <= i < w.len() - 2 implies w.subrange(
                            2,
                            w.len() as int,
                        )[i] == s1.subrange(p1 + 2, q1)[i] by {
                            assert(w.subrange(2, w.len() as int)[i] == w[2 + i]);
                            lemma_window_index(s1, p1, w, 2 + i);
                        }
                    }
                    lemma_window_sub(s2, p2, w, 2, w.len() as int);
                    lemma_psb_transfer(s1, p1 + 2, s2, p2 + 2, rest, q1);
                },
                None => {
                    assert(false);
                },
            }
        }
    } else if b < 0x20 {
        assert(false);
    } else {
        match parse_string_body(s1, p1 + 1) {
            Some((rest, qq)) => {
                assert(qq == q1);
                lemma_parse_string_body_bounds(s1, p1 + 1);
                assert(w.subrange(1, w.len() as int) =~= s1.subrange(p1 + 1, q1)) by {
                    assert forall|i: int| 0 <= i < w.len() - 1 implies w.subrange(
                        1,
                        w.len() as int,
                    )[i] == s1.subrange(p1 + 1, q1)[i] by {
                        assert(w.subrange(1, w.len() as int)[i] == w[1 + i]);
                        lemma_window_index(s1, p1, w, 1 + i);
                    }
                }
                lemma_window_sub(s2, p2, w, 1, w.len() as int);
                lemma_psb_transfer(s1, p1 + 1, s2, p2 + 1, rest, q1);
            },
            None => {
                assert(false);
            },
        }
    }
}

/// A scanned composite transfers to any position where the same bytes
/// lie.
proof fn lemma_composite_transfer(
    s1: Seq<u8>,
    p1: int,
    s2: Seq<u8>,
    p2: int,
    depth: nat,
    in_str: bool,
    esc: bool,
    q1: int,
)
    requires
        0 <= p1 <= s1.len(),
        skip_composite(s1, p1, depth, in_str, esc) == Some(q1),
        window(s2, p2, s1.subrange(p1, q1)),
    ensures
        skip_composite(s2, p2, depth, in_str, esc) == Some(p2 + (q1 - p1)),
    decreases s1.len() - p1,
{
    lemma_skip_composite_bounds(s1, p1, depth, in_str, esc);
    let w = s1.subrange(p1, q1);
    assert(window(s1, p1, w));
    lemma_window_index(s1, p1, w, 0);
    lemma_window_index(s2, p2, w, 0);
    assert(s2[p2] == s1[p1]);
    let b = s1[p1];
    let fin = !in_str && (b == RBRACE || b == RBRACKET) && depth == 1;
    if !fin {
        let d2: nat = if in_str {
            depth
        } else if b == LBRACE || b == LBRACKET {
            depth + 1
        } else if b == RBRACE || b == RBRACKET {
            (depth - 1) as nat
        } else {
            depth
        };
        let i2 = if in_str {
            if esc {
                true
            } else if b == QUOTE {
                false
            } else {
                true
            }
        } else {
            b == QUOTE
        };
        let e2 = in_str && !esc && b == BACKSLASH;
        assert(skip_composite(s1, p1 + 1, d2, i2, e2) == Some(q1));
        lemma_skip_composite_bounds(s1, p1 + 1, d2, i2, e2);
        assert(w.subrange(1, w.len() as int) =~= s1.subrange(p1 + 1, q1)) by {
            assert forall|i: int| 0 <= i < w.len() - 1 implies w.subrange(1, w.len() as int)[i]
                == s1.subrange(p1 + 1, q1)[i] by {
                assert(w.subrange(1, w.len() as int)[i] == w[1 + i]);
                lemma_window_index(s1, p1, w, 1 + i);
            }
        }
        lemma_window_sub(s2, p2, w, 1, w.len() as int);
        lemma_composite_transfer(s1, p1 + 1, s2, p2 + 1, d2, i2, e2, q1);
    }
}

/// Every byte the scalar scan passed over is a scalar byte.
proof fn lemma_skip_atom_all(s: Seq<u8>, p: int)
    requires
        0 <= p <= s.len(),
    ensures
        forall|j: int| p <= j < skip_atom(s, p) ==> is_atom_byte(#[trigger] s[j]),
    decreases s.len() - p,
{
    if p < s.len() && is_atom_byte(s[p]) {
        lemma_skip_atom_all(s, p + 1);
    }
}

/// The scalar scan stops exactly at the first non-scalar byte.
proof fn lemma_skip_atom_range(s: Seq<u8>, p: int, q: int)
    requires
        0 <= p <= q <= s.len(),
        forall|j: int| p <= j < q ==> is_atom_byte(#[trigger] s[j]),
        q == s.len() || !is_atom_byte(s[q]),
    ensures
        skip_atom(s, p) == q,
    decreases q - p,
{
    if p < q {
        lemma_skip_atom_range(s, p + 1, q);
    }
}

/// A self-contained value text is recognized wherever it lies, as long
/// as a separator or closing brace follows it.
proof fn lemma_skip_value_embedded(s: Seq<u8>, p: int, t: Seq<u8>)
    requires
        window(s, p, t),
        skip_value(t, 0) == Some(t.len() as int),
        p + t.len() < s.len(),
        s[p + t.len()] == COMMA || s[p + t.len()] == RBRACE,
    ensures
        skip_value(s, p) == Some(p + t.len()),
{
    lemma_skip_value_bounds(t, 0);
    assert(t.len() >= 1);
    lemma_window_index(s, p, t, 0);
    assert(s[p] == t[0]);
    assert(t.subrange(0, t.len() as int) =~= t);
    if t[0] == QUOTE {
        match parse_string_body(t, 1) {
            Some((c, q)) => {
                assert(q == t.len());
                lemma_parse_string_body_bounds(t, 1);
                assert(t.subrange(1, t.len() as int) =~= t.subrange(1, q));
                lemma_window_sub(s, p, t, 1, t.len() as int);
                lemma_psb_transfer(t, 1, s, p + 1, c, q);
            },
            None => {
                assert(false);
            },
        }
    } else if t[0] == LBRACE || t[0] == LBRACKET {
        match skip_composite(t, 1, 1, false, false) {
            Some(q) => {
                assert(q == t.len());
                lemma_skip_composite_bounds(t, 1, 1, false, false);
                assert(t.subrange(1, t.len() as int) =~= t.subrange(1, q));
                lemma_window_sub(s, p, t, 1, t.len() as int);
                lemma_composite_transfer(t, 1, s, p + 1, 1, false, false, q);
            },
            None => {
                assert(false);
            },
        }
    } else {
        assert(is_atom_byte(t[0]));
        assert(skip_atom(t, 0) == t.len());
        lemma_skip_atom_all(t, 0);
        assert(forall|j: int| p <= j < p + t.len() ==> is_atom_byte(#[trigger] s[j])) by {
            assert forall|j: int| p <= j < p + t.len() implies is_atom_byte(#[trigger] s[j]) by {
                lemma_window_index(s, p, t, j - p);
            }
        }
        assert(!is_atom_byte(s[p + t.len()]));
        lemma_skip_atom_range(s, p, p + t.len());
    }
}

/// A window holding a concatenation splits into two windows.
proof fn lemma_window_concat(s: Seq<u8>, p: int, a: Seq<u8>, b: Seq<u8>)
    requires
        window(s, p, a + b),
    ensures
        window(s, p, a),
        window(s, p + a.len(), b),
{
    let w = a + b;
    assert(w.subrange(0, a.len() as int) =~= a);
    assert(w.subrange(a.len() as int, w.len() as int) =~= b);
    lemma_window_sub(s, p, w, 0, a.len() as int);
    lemma_window_sub(s, p, w, a.len() as int, w.len() as int);
}

/// An encoded JSON string begins with a quote.
proof fn lemma_enc_str_first(sc: Seq<char>)
    ensures
        enc_str_chars(sc).len() >= 2,
        enc_str_chars(sc)[0] == QUOTE,
{
    assert(enc_str_chars(sc)[0] == QUOTE);
}

/// Skipping whitespace at a non-whitespace byte stays put.
proof fn lemma_skip_ws_still(s: Seq<u8>, p: int)
    requires
        p >= s.len() || (0 <= p && !is_json_ws(s[p])),
    ensures
        skip_ws(s, p) == p,
{
}

/// The encoded warning items from `i` on, each followed by its comma
/// or the closing bracket.
pub open spec fn enc_warn_tail(w: Seq<Seq<char>>, i: int) -> Seq<u8>
    decreases w.len() - i,
{
    if i < 0 || i >= w.len() {
        seq![RBRACKET]
    } else if i == w.len() - 1 {
        enc_str_chars(w[i]) + seq![RBRACKET]
    } else {
        enc_str_chars(w[i]) + seq![COMMA] + enc_warn_tail(w, i + 1)
    }
}

/// The two spellings of the encoded items agree.
proof fn lemma_warn_items_tail(w: Seq<Seq<char>>, i: int)
    requires
        0 <= i < w.len(),
    ensures
        enc_warn_items(w, i) == if i == 0 {
            enc_warn_tail(w, 0)
        } else {
            seq![COMMA] + enc_warn_tail(w, i)
        },
    decreases w.len() - i,
{
    if i == w.len() - 1 {
        if i == 0 {
            assert(enc_warn_items(w, 1) == seq![RBRACKET]);
        } else {
            vstd::seq_lib::lemma_concat_associative(
                seq![COMMA],
                enc_str_chars(w[i]),
                seq![RBRACKET],
            );
            assert(enc_warn_items(w, i + 1) == seq![RBRACKET]);
        }
    } else {
        lemma_warn_items_tail(w, i + 1);
        if i == 0 {
            vstd::seq_lib::lemma_concat_associative(
                enc_str_chars(w[0]),
                seq![COMMA],
                enc_warn_tail(w, 1),
            );
        } else {
            vstd::seq_lib::lemma_concat_associative(
                enc_str_chars(w[i]),
                seq![COMMA],
                enc_warn_tail(w, i + 1),
            );
            vstd::seq_lib::lemma_concat_associative(
                seq![COMMA],
                enc_str_chars(w[i]),
                seq![COMMA] + enc_warn_tail(w, i + 1),
            );
            vstd::seq_lib::lemma_concat_associative(
                seq![COMMA] + enc_str_chars(w[i]),
                seq![COMMA],
                enc_warn_tail(w, i + 1),
            );
        }
    }
}

/// Encoded warning items parse back to exactly the warnings they
/// carry.
proof fn lemma_warn_tail_parse(s: Seq<u8>, p: int, w: Seq<Seq<char>>, i: int, acc: Seq<Seq<char>>)
    requires
        0 <= i < w.len(),
        window(s, p, enc_warn_tail(w, i)),
    ensures
        parse_warn_items(s, p, acc) == Ok::<(Seq<Seq<char>>, int), JsonError>(
            (acc + w.skip(i), p + enc_warn_tail(w, i).len()),
        ),
    decreases w.len() - i,
{
    let t = enc_warn_tail(w, i);
    let e = enc_str_chars(w[i]);
    let el = e.len() as int;
    let q = p + el;
    if i == w.len() - 1 {
        lemma_window_concat(s, p, e, seq![RBRACKET]);
        lemma_parse_string_value_enc(s, p, w[i]);
        lemma_window_index(s, q, seq![RBRACKET], 0);
        lemma_skip_ws_still(s, q);
        assert(parse_warn_items(s, p, acc) == Ok::<(Seq<Seq<char>>, int), JsonError>(
            (acc.push(w[i]), q + 1),
        ));
        assert(acc + w.skip(i) =~= acc.push(w[i]));
    } else {
        vstd::seq_lib::lemma_concat_associative(e, seq![COMMA], enc_warn_tail(w, i + 1));
        lemma_window_concat(s, p, e, seq![COMMA] + enc_warn_tail(w, i + 1));
        lemma_window_concat(s, q, seq![COMMA], enc_warn_tail(w, i + 1));
        lemma_parse_string_value_enc(s, p, w[i]);
        lemma_window_index(s, q, seq![COMMA], 0);
        lemma_skip_ws_still(s, q);
        lemma_enc_str_first(w[i + 1]);
        lemma_window_index(s, q + 1, enc_warn_tail(w, i + 1), 0);
        assert(enc_warn_tail(w, i + 1)[0] == QUOTE);
        lemma_skip_ws_still(s, q + 1);
        lemma_warn_tail_parse(s, q + 1, w, i + 1, acc.push(w[i]));
        assert(acc.push(w[i]) + w.skip(i + 1) =~= acc + w.skip(i));
    }
}

/// An encoded warnings array parses back to exactly its warnings.
proof fn lemma_parse_warnings_enc(s: Seq<u8>, p: int, w: Seq<Seq<char>>)
    requires
        window(s, p, enc_warnings(w)),
    ensures
        parse_warnings_value(s, p) == Ok::<(Seq<Seq<char>>, int), JsonError>(
            (w, p + enc_warnings(w).len()),
        ),
{
    let e = enc_warnings(w);
    lemma_window_concat(s, p, seq![LBRACKET], enc_warn_items(w, 0));
    lemma_window_index(s, p, seq![LBRACKET], 0);
    if w.len() == 0 {
        assert(enc_warn_items(w, 0) == seq![RBRACKET]);
        lemma_window_index(s, p + 1, seq![RBRACKET], 0);
        lemma_skip_ws_still(s, p + 1);
        assert(Seq::<Seq<char>>::empty() =~= w);
    } else {
        lemma_warn_items_tail(w, 0);
        lemma_enc_str_first(w[0]);
        lemma_window_index(s, p + 1, enc_warn_tail(w, 0), 0);
        assert(enc_warn_tail(w, 0)[0] == QUOTE);
        lemma_skip_ws_still(s, p + 1);
        lemma_warn_tail_parse(s, p + 1, w, 0, Seq::empty());
        assert(Seq::<Seq<char>>::empty() + w.skip(0) =~= w);
    }
}

/// An encoded key parses back to its characters.
proof fn lemma_parse_key_enc(s: Seq<u8>, p: int, k: Seq<char>)
    requires
        window(s, p, enc_str_chars(k)),
    ensures
        parse_string_body(s, p + 1) == Some(
            (encode_utf8(k), p + enc_str_chars(k).len() as int),
        ),
        valid_utf8(encode_utf8(k)),
        decode_utf8(encode_utf8(k)) == k,
{
    let e = enc_str_chars(k);
    let eb = escape_bytes(encode_utf8(k));
    vstd::seq_lib::lemma_concat_associative(seq![QUOTE], eb, seq![QUOTE]);
    lemma_window_concat(s, p, seq![QUOTE], eb + seq![QUOTE]);
    lemma_parse_escaped(s, p + 1, encode_utf8(k));
}

/// One encoded metadata entry: key, colon, raw value text.
pub open spec fn enc_meta_entry(e: MetadataEntryView) -> Seq<u8> {
    enc_str_chars(e.key) + seq![COLON] + encode_utf8(e.value)
}

/// The encoded metadata members from `i` on, each followed by its
/// comma or the closing brace.
pub open spec fn enc_meta_tail(m: Seq<MetadataEntryView>, i: int) -> Seq<u8>
    decreases m.len() - i,
{
    if i < 0 || i >= m.len() {
        seq![RBRACE]
    } else if i == m.len() - 1 {
        enc_meta_entry(m[i]) + seq![RBRACE]
    } else {
        enc_meta_entry(m[i]) + seq![COMMA] + enc_meta_tail(m, i + 1)
    }
}

/// The two spellings of the encoded members agree.
proof fn lemma_meta_items_tail(m: Seq<MetadataEntryView>, i: int)
    requires
        0 <= i < m.len(),
    ensures
        enc_meta_items(m, i) == if i == 0 {
            enc_meta_tail(m, 0)
        } else {
            seq![COMMA] + enc_meta_tail(m, i)
        },
    decreases m.len() - i,
{
    let e = enc_meta_entry(m[i]);
    assert(enc_str_chars(m[i].key) + seq![COLON] + encode_utf8(m[i].value) == e);
    if i == m.len() - 1 {
        assert(enc_meta_items(m, i + 1) == seq![RBRACE]);
        if i == 0 {
            assert(enc_meta_items(m, 0) == e + seq![RBRACE]);
        } else {
            vstd::seq_lib::lemma_concat_associative(seq![COMMA], e, seq![RBRACE]);
            assert(enc_meta_items(m, i) =~= seq![COMMA] + (e + seq![RBRACE]));
        }
    } else {
        lemma_meta_items_tail(m, i + 1);
        if i == 0 {
            vstd::seq_lib::lemma_concat_associative(e, seq![COMMA], enc_meta_tail(m, 1));
            assert(enc_meta_items(m, 0) =~= e + seq![COMMA] + enc_meta_tail(m, 1));
        } else {
            vstd::seq_lib::lemma_concat_associative(e, seq![COMMA], enc_meta_tail(m, i + 1));
            vstd::seq_lib::lemma_concat_associative(
                seq![COMMA],
                e,
                seq![COMMA] + enc_meta_tail(m, i + 1),
            );
            vstd::seq_lib::lemma_concat_associative(
                seq![COMMA] + e,
                seq![COMMA],
                enc_meta_tail(m, i + 1),
            );
            assert(enc_meta_items(m, i) =~= seq![COMMA] + (e + seq![COMMA] + enc_meta_tail(
                m,
                i + 1,
            )));
        }
    }
}

/// A self-contained raw value begins with a byte that is neither
/// whitespace nor `null`'s first letter that could shadow it wrongly.
proof fn lemma_raw_value_first(t: Seq<u8>)
    requires
        skip_value(t, 0) == Some(t.len() as int),
    ensures
        t.len() >= 1,
        !is_json_ws(t[0]),
    decreases t.len(),
{
    lemma_skip_value_bounds(t, 0);
}

/// Encoded metadata members parse back to exactly the entries they
/// carry.
#[verifier::rlimit(100)]
proof fn lemma_meta_tail_parse(
    s: Seq<u8>,
    p: int,
    m: Seq<MetadataEntryView>,
    i: int,
    acc: Seq<MetadataEntryView>,
)
    requires
        0 <= i < m.len(),
        window(s, p, enc_meta_tail(m, i)),
        forall|j: int| i <= j < m.len() ==> wf_metadata_value(#[trigger] m[j].value),
    ensures
        parse_meta_members(s, p, acc) == Ok::<(Seq<MetadataEntryView>, int), JsonError>(
            (acc + m.skip(i), p + enc_meta_tail(m, i).len()),
        ),
    decreases m.len() - i,
{
    let t = enc_meta_tail(m, i);
    let e = enc_meta_entry(m[i]);
    let ek = enc_str_chars(m[i].key);
    let tv = encode_utf8(m[i].value);
    let sep = if i == m.len() - 1 {
        seq![RBRACE]
    } else {
        seq![COMMA]
    };
    // Split the entry window into key, colon, value and the separator.
    if i == m.len() - 1 {
        lemma_window_concat(s, p, e, seq![RBRACE]);
    } else {
        vstd::seq_lib::lemma_concat_associative(e, seq![COMMA], enc_meta_tail(m, i + 1));
        lemma_window_concat(s, p, e, seq![COMMA] + enc_meta_tail(m, i + 1));
        lemma_window_concat(s, p + e.len(), seq![COMMA], enc_meta_tail(m, i + 1));
    }
    vstd::seq_lib::lemma_concat_associative(ek, seq![COLON], tv);
    lemma_window_concat(s, p, ek, seq![COLON] + tv);
    lemma_window_concat(s, p + ek.len(), seq![COLON], tv);
    lemma_window_index(s, p, ek, 0);
    assert(s[p] == QUOTE);
    lemma_parse_key_enc(s, p, m[i].key);
    let q1 = p + ek.len() as int;
    lemma_window_index(s, q1, seq![COLON], 0);
    lemma_skip_ws_still(s, q1);
    let q3 = q1 + 1;
    assert(wf_metadata_value(m[i].value));
    lemma_raw_value_first(tv);
    lemma_window_index(s, q3, tv, 0);
    lemma_skip_ws_still(s, q3);
    let q4 = q3 + tv.len() as int;
    lemma_window_index(s, q4, sep, 0);
    lemma_skip_value_embedded(s, q3, tv);
    assert(s.subrange(q3, q4) == tv);
    lemma_skip_ws_still(s, q4);
    let entry = MetadataEntryView { key: m[i].key, value: m[i].value };
    assert(entry =~= m[i]);
    if i == m.len() - 1 {
        assert(s[q4] == RBRACE);
        assert(parse_meta_members(s, p, acc) == Ok::<(Seq<MetadataEntryView>, int), JsonError>(
            (acc.push(m[i]), q4 + 1),
        ));
        assert(acc + m.skip(i) =~= acc.push(m[i]));
    } else {
        assert(s[q4] == COMMA);
        lemma_window_index(s, q4 + 1, enc_meta_tail(m, i + 1), 0);
        assert(enc_meta_tail(m, i + 1)[0] == QUOTE) by {
            lemma_enc_str_first(m[i + 1].key);
        }
        lemma_skip_ws_still(s, q4 + 1);
        lemma_meta_tail_parse(s, q4 + 1, m, i + 1, acc.push(m[i]));
        assert(acc.push(m[i]) + m.skip(i + 1) =~= acc + m.skip(i));
    }
}

/// An encoded metadata object parses back to exactly its entries.
proof fn lemma_parse_metadata_enc(s: Seq<u8>, p: int, m: Seq<MetadataEntryView>)
    requires
        window(s, p, enc_metadata(m)),
        forall|j: int| 0 <= j < m.len() ==> wf_metadata_value(#[trigger] m[j].value),
    ensures
        parse_metadata_value(s, p) == Ok::<(Seq<MetadataEntryView>, int), JsonError>(
            (m, p + enc_metadata(m).len()),
        ),
{
    lemma_window_concat(s, p, seq![LBRACE], enc_meta_items(m, 0));
    lemma_window_index(s, p, seq![LBRACE], 0);
    if m.len() == 0 {
        assert(enc_meta_items(m, 0) == seq![RBRACE]);
        lemma_window_index(s, p + 1, seq![RBRACE], 0);
        lemma_skip_ws_still(s, p + 1);
        assert(Seq::<MetadataEntryView>::empty() =~= m);
    } else {
        lemma_meta_items_tail(m, 0);
        lemma_window_index(s, p + 1, enc_meta_tail(m, 0), 0);
        assert(enc_meta_tail(m, 0)[0] == QUOTE) by {
            lemma_enc_str_first(m[0].key);
        }
        lemma_skip_ws_still(s, p + 1);
        lemma_meta_tail_parse(s, p + 1, m, 0, Seq::empty());
        assert(Seq::<MetadataEntryView>::empty() + m.skip(0) =~= m);
    }
}

/// A value scanned inside a larger buffer is self-contained on its
/// own: scanning the extracted text consumes exactly all of it.
proof fn lemma_skip_value_restrict(s: Seq<u8>, p: int, q: int)
    requires
        0 <= p <= s.len(),
        skip_value(s, p) == Some(q),
    ensures
        skip_value(s.subrange(p, q), 0) == Some((q - p) as int),
{
    lemma_skip_value_bounds(s, p);
    let t = s.subrange(p, q);
    assert(t[0] == s[p]);
    if s[p] == QUOTE {
        match parse_string_body(s, p + 1) {
            Some((c, qq)) => {
                assert(qq == q);
                lemma_parse_string_body_bounds(s, p + 1);
                assert(window(t, 1, s.subrange(p + 1, q))) by {
                    assert(t.subrange(1, t.len() as int) =~= s.subrange(p + 1, q));
                }
                lemma_psb_transfer(s, p + 1, t, 1, c, q);
            },
            None => {
                assert(false);
            },
        }
    } else if s[p] == LBRACE || s[p] == LBRACKET {
        match skip_composite(s, p + 1, 1, false, false) {
            Some(qq) => {
                assert(qq == q);
                lemma_skip_composite_bounds(s, p + 1, 1, false, false);
                assert(window(t, 1, s.subrange(p + 1, q))) by {
                    assert(t.subrange(1, t.len() as int) =~= s.subrange(p + 1, q));
                }
                lemma_composite_transfer(s, p + 1, t, 1, 1, false, false, q);
            },
            None => {
                assert(false);
            },
        }
    } else {
        assert(is_atom_byte(s[p]));
        assert(skip_atom(s, p) == q);
        lemma_skip_atom_all(s, p);
        assert(forall|j: int| 0 <= j < t.len() ==> is_atom_byte(#[trigger] t[j])) by {
            assert(forall|j: int| 0 <= j < t.len() ==> t[j] == s[p + j]);
        }
        lemma_skip_atom_range(t, 0, t.len() as int);
    }
}

/// The gathered metadata, if any, holds only self-contained values.
pub open spec fn wf_partial_meta(a: PartialStatus) -> bool {
    a.metadata matches Some(m) ==> forall|j: int|
        0 <= j < m.len() ==> wf_metadata_value(#[trigger] m[j].value)
}

/// Parsed metadata members carry only self-contained values.
proof fn lemma_meta_members_wf(s: Seq<u8>, p: int, acc: Seq<MetadataEntryView>)
    requires
        0 <= p <= s.len(),
        forall|j: int| 0 <= j < acc.len() ==> wf_metadata_value(#[trigger] acc[j].value),
    ensures
        parse_meta_members(s, p, acc) matches Ok((m, q)) ==> forall|j: int|
            0 <= j < m.len() ==> wf_metadata_value(#[trigger] m[j].value),
    decreases s.len() - p,
{
    broadcast use vstd::utf8::decode_utf8_encode_utf8;

    if 0 <= p < s.len() && s[p] == QUOTE {
        match parse_string_body(s, p + 1) {
            Some((kc, q1)) => {
                lemma_parse_string_body_bounds(s, p + 1);
                lemma_skip_ws_bounds(s, q1);
                let q2 = skip_ws(s, q1);
                if q2 < s.len() && s[q2] == COLON {
                    lemma_skip_ws_bounds(s, q2 + 1);
                    let q3 = skip_ws(s, q2 + 1);
                    lemma_skip_value_bounds(s, q3);
                    match skip_value(s, q3) {
                        Some(q4) => {
                            let raw = s.subrange(q3, q4);
                            if valid_utf8(raw) {
                                lemma_skip_value_restrict(s, q3, q4);
                                let entry = MetadataEntryView {
                                    key: decode_utf8(kc),
                                    value: decode_utf8(raw),
                                };
                                assert(encode_utf8(decode_utf8(raw)) == raw);
                                assert(wf_metadata_value(entry.value));
                                lemma_skip_ws_bounds(s, q4);
                                let q5 = skip_ws(s, q4);
                                if q5 < s.len() && s[q5] == COMMA {
                                    lemma_skip_ws_bounds(s, q5 + 1);
                                    lemma_meta_members_wf(s, skip_ws(s, q5 + 1), acc.push(entry));
                                }
                            }
                        },
                        None => {},
                    }
                }
            },
            None => {},
        }
    }
}

/// Whatever a payload decodes to satisfies the round-trip law's
/// premise: its metadata values are self-contained raw texts, so
/// re-encoding a decoded status is always parseable.
pub proof fn lemma_parse_status_wf(s: Seq<u8>)
    ensures
        parse_status(s) matches Ok(v) ==> wf_status_view(v),
{
    let p0 = skip_ws(s, 0);
    if p0 < s.len() && s[p0] == LBRACE {
        lemma_skip_ws_bounds(s, 0);
        lemma_skip_ws_bounds(s, p0 + 1);
        let p1 = skip_ws(s, p0 + 1);
        if !(p1 < s.len() && s[p1] == RBRACE) {
            lemma_members_wf(s, p1, empty_partial());
        }
    }
}

/// Walking the members can only gather self-contained metadata.
proof fn lemma_members_wf(s: Seq<u8>, p: int, acc: PartialStatus)
    requires
        0 <= p <= s.len(),
        wf_partial_meta(acc),
    ensures
        parse_members(s, p, acc) matches Ok((a, q)) ==> wf_partial_meta(a),
    decreases s.len() - p,
{
    if 0 <= p < s.len() && s[p] == QUOTE {
        match parse_string_body(s, p + 1) {
            Some((kc, q1)) => {
                lemma_parse_string_body_bounds(s, p + 1);
                lemma_skip_ws_bounds(s, q1);
                let q2 = skip_ws(s, q1);
                if q2 < s.len() && s[q2] == COLON {
                    lemma_skip_ws_bounds(s, q2 + 1);
                    let q3 = skip_ws(s, q2 + 1);
                    lemma_field_wf(s, q3, kc, acc);
                    match parse_field(s, q3, kc, acc) {
                        Ok((acc2, q4)) => {
                            lemma_parse_field_bounds(s, q3, kc, acc);
                            lemma_skip_ws_bounds(s, q4);
                            let q5 = skip_ws(s, q4);
                            if q5 < s.len() && s[q5] == COMMA {
                                lemma_skip_ws_bounds(s, q5 + 1);
                                lemma_members_wf(s, skip_ws(s, q5 + 1), acc2);
                            }
                        },
                        Err(e) => {},
                    }
                }
            },
            None => {},
        }
    }
}

/// Reading one member can only gather self-contained metadata.
proof fn lemma_field_wf(s: Seq<u8>, p: int, kc: Seq<u8>, acc: PartialStatus)
    requires
        0 <= p <= s.len(),
        wf_partial_meta(acc),
    ensures
        parse_field(s, p, kc, acc) matches Ok((a, q)) ==> wf_partial_meta(a),
{
    if valid_utf8(kc) && decode_utf8(kc) == "metadata"@ && acc.metadata is None && !at_null(s, p) {
        if 0 <= p < s.len() && s[p] == LBRACE {
            lemma_skip_ws_bounds(s, p + 1);
            let q = skip_ws(s, p + 1);
            if !(q < s.len() && s[q] == RBRACE) {
                lemma_meta_members_wf(s, q, Seq::empty());
            }
        }
    }
}

/// The key of the member of one stage.
pub open spec fn member_key(stage: int) -> Seq<char> {
    if stage == 0 {
        "taskId"@
    } else if stage == 1 {
        "status"@
    } else if stage == 2 {
        "result"@
    } else if stage == 3 {
        "error"@
    } else if stage == 4 {
        "warnings"@
    } else {
        "metadata"@
    }
}

/// The encoded value of the member of one stage.
pub open spec fn value_enc(v: TaskStatusView, stage: int) -> Seq<u8> {
    if stage == 0 {
        enc_str_chars(v.task_id)
    } else if stage == 1 {
        enc_str_chars(tag_chars(v.status))
    } else if stage == 2 {
        enc_str_chars(v.result->0)
    } else if stage == 3 {
        enc_str_chars(v.error->0)
    } else if stage == 4 {
        enc_warnings(v.warnings->0)
    } else {
        enc_metadata(v.metadata->0)
    }
}

/// The fields gathered once every member before `stage` was read.
pub open spec fn partial_before(v: TaskStatusView, stage: int) -> PartialStatus {
    PartialStatus {
        task_id: if stage > 0 {
            Some(v.task_id)
        } else {
            None
        },
        status: if stage > 1 {
            Some(v.status)
        } else {
            None
        },
        result: if stage > 2 {
            v.result
        } else {
            None
        },
        error: if stage > 3 {
            v.error
        } else {
            None
        },
        warnings: if stage > 4 {
            v.warnings
        } else {
            None
        },
        metadata: if stage > 5 {
            v.metadata
        } else {
            None
        },
    }
}

/// The first emitted member after `stage`, or 6 when none remains.
pub open spec fn next_present(v: TaskStatusView, stage: int) -> int
    decreases 6 - stage,
{
    if stage >= 5 {
        6
    } else if member_present(v, stage + 1) {
        stage + 1
    } else {
        next_present(v, stage + 1)
    }
}

/// What follows one member, flattened to its first emitted successor.
proof fn lemma_members_after_flat(v: TaskStatusView, stage: int)
    requires
        0 <= stage <= 5,
    ensures
        stage < next_present(v, stage) <= 6,
        next_present(v, stage) == 6 ==> members_after(v, stage) == seq![RBRACE],
        next_present(v, stage) <= 5 ==> member_present(v, next_present(v, stage))
            && members_after(v, stage) == seq![COMMA] + member_enc(v, next_present(v, stage))
            + members_after(v, next_present(v, stage)),
        forall|k: int| stage < k < next_present(v, stage) ==> !member_present(v, k),
    decreases 6 - stage,
{
    if stage < 5 && !member_present(v, stage + 1) {
        lemma_members_after_flat(v, stage + 1);
    }
}

/// Gathering skips unemitted members without change.
proof fn lemma_partial_gap(v: TaskStatusView, a: int, b: int)
    requires
        2 <= a <= b <= 6,
        forall|k: int| a <= k < b ==> !member_present(v, k),
    ensures
        partial_before(v, a) == partial_before(v, b),
{
    if a < b {
        assert(!member_present(v, a));
    }
    assert(partial_before(v, a) =~= partial_before(v, b)) by {
        if a <= 2 < b {
            assert(!member_present(v, 2));
        }
        if a <= 3 < b {
            assert(!member_present(v, 3));
        }
        if a <= 4 < b {
            assert(!member_present(v, 4));
        }
        if a <= 5 < b {
            assert(!member_present(v, 5));
        }
    }
}

/// One emitted member and everything after it parse back to the full
/// gathered state, ending exactly at the end of the payload.
#[verifier::rlimit(100)]
proof fn lemma_parse_members_enc(s: Seq<u8>, p: int, v: TaskStatusView, stage: int)
    requires
        0 <= stage <= 5,
        member_present(v, stage),
        wf_status_view(v),
        p + member_enc(v, stage).len() + members_after(v, stage).len() == s.len(),
        window(s, p, member_enc(v, stage) + members_after(v, stage)),
    ensures
        parse_members(s, p, partial_before(v, stage)) == Ok::<(PartialStatus, int), JsonError>(
            (partial_before(v, 6), s.len() as int),
        ),
    decreases 6 - stage,
{
    reveal_strlit("taskId");
    reveal_strlit("status");
    reveal_strlit("result");
    reveal_strlit("error");
    reveal_strlit("warnings");
    reveal_strlit("metadata");
    reveal_strlit("processing");
    reveal_strlit("completed");
    reveal_strlit("failed");
    let me = member_enc(v, stage);
    let ma = members_after(v, stage);
    let kch = member_key(stage);
    let ek = enc_str_chars(kch);
    let vw = value_enc(v, stage);
    assert(me == ek + seq![COLON] + vw);
    lemma_window_concat(s, p, me, ma);
    vstd::seq_lib::lemma_concat_associative(ek, seq![COLON], vw);
    lemma_window_concat(s, p, ek, seq![COLON] + vw);
    lemma_window_concat(s, p + ek.len(), seq![COLON], vw);
    lemma_enc_str_first(kch);
    lemma_window_index(s, p, ek, 0);
    assert(s[p] == QUOTE);
    lemma_parse_key_enc(s, p, kch);
    let kc = encode_utf8(kch);
    let q1 = p + ek.len() as int;
    lemma_window_index(s, q1, seq![COLON], 0);
    assert(s[q1] == COLON);
    lemma_skip_ws_still(s, q1);
    let q3 = q1 + 1;
    let acc = partial_before(v, stage);
    let q4 = q3 + vw.len() as int;
    // The member's value parses to its field, advancing to `q4`.
    if stage == 0 {
        lemma_enc_str_first(v.task_id);
        lemma_window_index(s, q3, vw, 0);
        lemma_skip_ws_still(s, q3);
        lemma_parse_string_value_enc(s, q3, v.task_id);
        assert(parse_field(s, q3, kc, acc) == Ok::<(PartialStatus, int), JsonError>(
            (PartialStatus { task_id: Some(v.task_id), ..acc }, q4),
        ));
    } else if stage == 1 {
        lemma_enc_str_first(tag_chars(v.status));
        lemma_window_index(s, q3, vw, 0);
        lemma_skip_ws_still(s, q3);
        lemma_parse_string_value_enc(s, q3, tag_chars(v.status));
        assert(kch != "taskId"@);
        assert(parse_field(s, q3, kc, acc) == Ok::<(PartialStatus, int), JsonError>(
            (PartialStatus { status: Some(v.status), ..acc }, q4),
        ));
    } else if stage == 2 {
        lemma_enc_str_first(v.result->0);
        lemma_window_index(s, q3, vw, 0);
        lemma_skip_ws_still(s, q3);
        assert(!at_null(s, q3));
        lemma_parse_string_value_enc(s, q3, v.result->0);
        assert(parse_field(s, q3, kc, acc) == Ok::<(PartialStatus, int), JsonError>(
            (PartialStatus { result: Some(v.result->0), ..acc }, q4),
        ));
    } else if stage == 3 {
        lemma_enc_str_first(v.error->0);
        lemma_window_index(s, q3, vw, 0);
        lemma_skip_ws_still(s, q3);
        assert(!at_null(s, q3));
        lemma_parse_string_value_enc(s, q3, v.error->0);
        assert(parse_field(s, q3, kc, acc) == Ok::<(PartialStatus, int), JsonError>(
            (PartialStatus { error: Some(v.error->0), ..acc }, q4),
        ));
    } else if stage == 4 {
        lemma_window_index(s, q3, vw, 0);
        assert(s[q3] == LBRACKET);
        lemma_skip_ws_still(s, q3);
        assert(!at_null(s, q3));
        lemma_parse_warnings_enc(s, q3, v.warnings->0);
        assert(parse_field(s, q3, kc, acc) == Ok::<(PartialStatus, int), JsonError>(
            (PartialStatus { warnings: Some(v.warnings->0), ..acc }, q4),
        ));
    } else {
        lemma_window_index(s, q3, vw, 0);
        assert(s[q3] == LBRACE);
        lemma_skip_ws_still(s, q3);
        assert(!at_null(s, q3));
        assert(forall|j: int|
            0 <= j < (v.metadata->0).len() ==> wf_metadata_value(
                #[trigger] (v.metadata->0)[j].value,
            ));
        lemma_parse_metadata_enc(s, q3, v.metadata->0);
        assert(parse_field(s, q3, kc, acc) == Ok::<(PartialStatus, int), JsonError>(
            (PartialStatus { metadata: Some(v.metadata->0), ..acc }, q4),
        ));
    }
    let acc2 = partial_before(v, stage + 1);
    assert(parse_field(s, q3, kc, acc) == Ok::<(PartialStatus, int), JsonError>((acc2, q4))) by {
        match parse_field(s, q3, kc, acc) {
            Ok((a2, qq)) => {
                assert(a2 =~= acc2);
            },
            Err(e) => {},
        }
    }
    // Then the separator decides: another member, or the close.
    lemma_members_after_flat(v, stage);
    let nxt = next_present(v, stage);
    if nxt == 6 {
        assert(ma == seq![RBRACE]);
        lemma_window_index(s, q4, ma, 0);
        assert(s[q4] == RBRACE);
        lemma_skip_ws_still(s, q4);
        assert(stage >= 1) by {
            if stage == 0 {
                assert(member_present(v, 1));
                assert(next_present(v, 0) == 1);
            }
        }
        lemma_partial_gap(v, stage + 1, 6);
        assert(parse_members(s, p, acc) == Ok::<(PartialStatus, int), JsonError>(
            (acc2, q4 + 1),
        ));
    } else {
        let me2 = member_enc(v, nxt);
        let ma2 = members_after(v, nxt);
        assert(ma == seq![COMMA] + me2 + ma2);
        vstd::seq_lib::lemma_concat_associative(seq![COMMA], me2, ma2);
        lemma_window_concat(s, q4, seq![COMMA], me2 + ma2);
        lemma_window_index(s, q4, seq![COMMA], 0);
        assert(s[q4] == COMMA);
        lemma_skip_ws_still(s, q4);
        lemma_enc_str_first(member_key(nxt));
        assert(me2 == enc_str_chars(member_key(nxt)) + seq![COLON] + value_enc(v, nxt));
        lemma_window_index(s, q4 + 1, me2 + ma2, 0);
        assert((me2 + ma2)[0] == QUOTE) by {
            assert(me2[0] == (enc_str_chars(member_key(nxt)) + seq![COLON])[0]);
        }
        lemma_skip_ws_still(s, q4 + 1);
        if nxt == stage + 1 {
        } else {
            lemma_partial_gap(v, stage + 1, nxt);
        }
        lemma_parse_members_enc(s, q4 + 1, v, nxt);
    }
}

/// Decoding the canonical wire form of a status snapshot yields an
/// equal snapshot: every field round-trips, optional fields present
/// or absent. This is the round-trip law of the codec.
pub proof fn lemma_status_round_trip(v: TaskStatusView)
    requires
        wf_status_view(v),
    ensures
        parse_status(encode_status(v)) == Ok::<TaskStatusView, JsonError>(v),
{
    let s = encode_status(v);
    let me = member_enc(v, 0);
    let ma = members_after(v, 0);
    vstd::seq_lib::lemma_concat_associative(seq![LBRACE], me, ma);
    assert(window(s, 0, seq![LBRACE] + (me + ma))) by {
        assert(s.subrange(0, s.len() as int) =~= s);
    }
    lemma_window_concat(s, 0, seq![LBRACE], me + ma);
    lemma_window_index(s, 0, seq![LBRACE], 0);
    assert(s[0] == LBRACE);
    lemma_skip_ws_still(s, 0);
    lemma_enc_str_first(member_key(0));
    assert(me == enc_str_chars(member_key(0)) + seq![COLON] + value_enc(v, 0));
    lemma_window_index(s, 1, me + ma, 0);
    assert((me + ma)[0] == QUOTE) by {
        assert(me[0] == (enc_str_chars(member_key(0)) + seq![COLON])[0]);
    }
    assert(s[1] == QUOTE);
    lemma_skip_ws_still(s, 1);
    assert(empty_partial() =~= partial_before(v, 0));
    lemma_parse_members_enc(s, 1, v, 0);
    lemma_skip_ws_still(s, s.len() as int);
    match parse_status(s) {
        Ok(out) => {
            assert(out =~~= v);
        },
        Err(e) => {
            assert(false);
        },
    }
}

} // verus!
