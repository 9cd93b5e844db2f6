//! The wire encoder of task statuses: produces the canonical JSON
//! form that [`crate::json::parse_status`] reads back, and proves that
//! it does — decoding an encoded status yields an equal value for
//! every field, optional fields present or absent.

use vstd::prelude::*;

use vstd::string::{StringSliceAdditionalSpecFns, StrSliceExecFns};
use vstd::utf8::encode_utf8;

use crate::json::{
    BACKSLASH, COLON, COMMA, LBRACE, LBRACKET, QUOTE, RBRACE, RBRACKET, skip_value,
};
use crate::types::{
    meta_seq_view, MetadataEntryView, TaskStatus, TaskStatusValue, TaskStatusView,
};

verus! {

/// The byte of one lower-case hexadecimal digit.
pub open spec fn hex_char(d: nat) -> u8 {
    if d < 10 {
        (0x30 + d) as u8
    } else {
        (0x61 + (d - 10)) as u8
    }
}

/// How one content byte appears inside an encoded JSON string: quote
/// and backslash escaped, control bytes written as `\u00..`, anything
/// else verbatim.
pub open spec fn escape_byte(b: u8) -> Seq<u8> {
    if b == QUOTE {
        seq![BACKSLASH, QUOTE]
    } else if b == BACKSLASH {
        seq![BACKSLASH, BACKSLASH]
    } else if b < 0x20 {
        seq![BACKSLASH, 0x75, 0x30, 0x30, hex_char((b / 16) as nat), hex_char((b % 16) as nat)]
    } else {
        seq![b]
    }
}

/// The escaped form of a whole content byte sequence.
pub open spec fn escape_bytes(bs: Seq<u8>) -> Seq<u8>
    decreases bs.len(),
{
    if bs.len() == 0 {
        Seq::empty()
    } else {
        escape_byte(bs[0]) + escape_bytes(bs.drop_first())
    }
}

/// The encoded JSON string carrying the characters `sc`.
pub open spec fn enc_str_chars(sc: Seq<char>) -> Seq<u8> {
    seq![QUOTE] + escape_bytes(encode_utf8(sc)) + seq![QUOTE]
}

/// The wire spelling of a status tag.
pub open spec fn tag_chars(v: TaskStatusValue) -> Seq<char> {
    match v {
        TaskStatusValue::Processing => "processing"@,
        TaskStatusValue::Completed => "completed"@,
        TaskStatusValue::Failed => "failed"@,
    }
}

/// The encoded items of a warnings array from index `i` on, closed by
/// the bracket.
pub open spec fn enc_warn_items(w: Seq<Seq<char>>, i: int) -> Seq<u8>
    decreases w.len() - i,
{
    if i < 0 || i >= w.len() {
        seq![RBRACKET]
    } else if i == 0 {
        enc_str_chars(w[0]) + enc_warn_items(w, 1)
    } else {
        seq![COMMA] + enc_str_chars(w[i]) + enc_warn_items(w, i + 1)
    }
}

/// The encoded warnings array.
pub open spec fn enc_warnings(w: Seq<Seq<char>>) -> Seq<u8> {
    seq![LBRACKET] + enc_warn_items(w, 0)
}

/// The encoded members of a metadata object from index `i` on, closed
/// by the brace; each value is emitted as its raw text.
pub open spec fn enc_meta_items(m: Seq<MetadataEntryView>, i: int) -> Seq<u8>
    decreases m.len() - i,
{
    if i < 0 || i >= m.len() {
        seq![RBRACE]
    } else if i == 0 {
        enc_str_chars(m[0].key) + seq![COLON] + encode_utf8(m[0].value) + enc_meta_items(m, 1)
    } else {
        seq![COMMA] + enc_str_chars(m[i].key) + seq![COLON] + encode_utf8(m[i].value)
            + enc_meta_items(m, i + 1)
    }
}

/// The encoded metadata object.
pub open spec fn enc_metadata(m: Seq<MetadataEntryView>) -> Seq<u8> {
    seq![LBRACE] + enc_meta_items(m, 0)
}

/// Whether the member of the given stage is emitted: the identifier
/// and the tag always, each optional field when present.
pub open spec fn member_present(v: TaskStatusView, stage: int) -> bool {
    if stage == 0 || stage == 1 {
        true
    } else if stage == 2 {
        v.result is Some
    } else if stage == 3 {
        v.error is Some
    } else if stage == 4 {
        v.warnings is Some
    } else if stage == 5 {
        v.metadata is Some
    } else {
        false
    }
}

/// The encoded member of one stage: its key, a colon, its value.
pub open spec fn member_enc(v: TaskStatusView, stage: int) -> Seq<u8> {
    if stage == 0 {
        enc_str_chars("taskId"@) + seq![COLON] + enc_str_chars(v.task_id)
    } else if stage == 1 {
        enc_str_chars("status"@) + seq![COLON] + enc_str_chars(tag_chars(v.status))
    } else if stage == 2 {
        enc_str_chars("result"@) + seq![COLON] + enc_str_chars(v.result->0)
    } else if stage == 3 {
        enc_str_chars("error"@) + seq![COLON] + enc_str_chars(v.error->0)
    } else if stage == 4 {
        enc_str_chars("warnings"@) + seq![COLON] + enc_warnings(v.warnings->0)
    } else {
        enc_str_chars("metadata"@) + seq![COLON] + enc_metadata(v.metadata->0)
    }
}

/// What follows the member of one stage: a comma and the next emitted
/// member for each remaining present stage, then the closing brace.
pub open spec fn members_after(v: TaskStatusView, stage: int) -> Seq<u8>
    decreases 5 - stage,
{
    if stage >= 5 {
        seq![RBRACE]
    } else if member_present(v, stage + 1) {
        seq![COMMA] + member_enc(v, stage + 1) + members_after(v, stage + 1)
    } else {
        members_after(v, stage + 1)
    }
}

/// The canonical wire form of a status snapshot.
pub open spec fn encode_status(v: TaskStatusView) -> Seq<u8> {
    seq![LBRACE] + member_enc(v, 0) + members_after(v, 0)
}

/// A raw metadata value text is self-contained: scanning one value
/// from its start consumes exactly the whole text. Decoded statuses
/// satisfy this by construction, and only such values re-encode into
/// a parseable object.
pub open spec fn wf_metadata_value(t: Seq<char>) -> bool {
    skip_value(encode_utf8(t), 0) == Some(encode_utf8(t).len() as int)
}

/// A status snapshot whose opaque metadata values are self-contained
/// raw texts.
pub open spec fn wf_status_view(v: TaskStatusView) -> bool {
    v.metadata matches Some(m) ==> forall|i: int|
        0 <= i < m.len() ==> wf_metadata_value(#[trigger] m[i].value)
}

/// Appending one more content byte appends its escaped form.
proof fn lemma_escape_bytes_push(bs: Seq<u8>, b: u8)
    ensures
        escape_bytes(bs.push(b)) == escape_bytes(bs) + escape_byte(b),
    decreases bs.len(),
{
    if bs.len() == 0 {
        assert(bs.push(b)[0] == b);
        assert(bs.push(b).drop_first() =~= Seq::<u8>::empty());
        assert(escape_bytes(Seq::<u8>::empty()) =~= Seq::<u8>::empty());
        assert(escape_bytes(bs.push(b)) =~= escape_byte(b));
        assert(escape_bytes(bs) + escape_byte(b) =~= escape_byte(b));
    } else {
        assert(bs.push(b).drop_first() =~= bs.drop_first().push(b));
        lemma_escape_bytes_push(bs.drop_first(), b);
        assert(bs.push(b)[0] == bs[0]);
        assert(escape_byte(bs[0]) + (escape_bytes(bs.drop_first()) + escape_byte(b)) =~= (
        escape_byte(bs[0]) + escape_bytes(bs.drop_first())) + escape_byte(b));
    }
}

/// Appends the escaped form of one content byte.
fn push_escaped(out: &mut Vec<u8>, b: u8)
    ensures
        final(out)@ == old(out)@ + escape_byte(b),
{
    if b == QUOTE {
        out.push(BACKSLASH);
        out.push(QUOTE);
        proof {
            assert(out@ =~= old(out)@ + escape_byte(b));
        }
    } else if b == BACKSLASH {
        out.push(BACKSLASH);
        out.push(BACKSLASH);
        proof {
            assert(out@ =~= old(out)@ + escape_byte(b));
        }
    } else if b < 0x20 {
        out.push(BACKSLASH);
        out.push(0x75);
        out.push(0x30);
        out.push(0x30);
        let hi = b / 16;
        let lo = b % 16;
        out.push(if hi < 10 { 0x30 + hi } else { 0x61 + (hi - 10) });
        out.push(if lo < 10 { 0x30 + lo } else { 0x61 + (lo - 10) });
        proof {
            assert(out@ =~= old(out)@ + escape_byte(b));
        }
    } else {
        out.push(b);
        proof {
            assert(out@ =~= old(out)@ + escape_byte(b));
        }
    }
}

/// Appends the encoded JSON string carrying the characters of `s`.
fn push_json_string(out: &mut Vec<u8>, s: &str)
    ensures
        final(out)@ == old(out)@ + enc_str_chars(s@),
{
    out.push(QUOTE);
    let bs = s.as_bytes_vec();
    let ghost base = out@;
    let mut i: usize = 0;
    proof {
        assert(escape_bytes(bs@.subrange(0, 0)) =~= Seq::<u8>::empty());
        assert(base + Seq::<u8>::empty() =~= base);
    }
    while i < bs.len()
        invariant
            i <= bs@.len(),
            bs@ == s.spec_bytes(),
            out@ == base + escape_bytes(bs@.subrange(0, i as int)),
        decreases bs@.len() - i,
    {
        push_escaped(out, bs[i]);
        proof {
            assert(bs@.subrange(0, i + 1 as int) =~= bs@.subrange(0, i as int).push(
                bs@[i as int],
            ));
            lemma_escape_bytes_push(bs@.subrange(0, i as int), bs@[i as int]);
            assert((base + escape_bytes(bs@.subrange(0, i as int))) + escape_byte(bs@[i as int])
                =~= base + (escape_bytes(bs@.subrange(0, i as int)) + escape_byte(bs@[i as int])));
        }
        i = i + 1;
    }
    proof {
        assert(bs@.subrange(0, bs@.len() as int) =~= bs@);
    }
    out.push(QUOTE);
    proof {
        assert(out@ =~= old(out)@ + enc_str_chars(s@));
    }
}

/// Appends the bytes of `s` verbatim (raw already-encoded JSON text).
fn push_raw_str(out: &mut Vec<u8>, s: &str)
    ensures
        final(out)@ == old(out)@ + encode_utf8(s@),
{
    let bs = s.as_bytes_vec();
    let ghost base = out@;
    let mut i: usize = 0;
    proof {
        assert(base + bs@.subrange(0, 0) =~= base);
    }
    while i < bs.len()
        invariant
            i <= bs@.len(),
            bs@ == s.spec_bytes(),
            out@ == base + bs@.subrange(0, i as int),
        decreases bs@.len() - i,
    {
        out.push(bs[i]);
        proof {
            assert(base + bs@.subrange(0, i + 1 as int) =~= (base + bs@.subrange(
                0,
                i as int,
            )).push(bs@[i as int]));
        }
        i = i + 1;
    }
    proof {
        assert(bs@.subrange(0, bs@.len() as int) =~= bs@);
    }
}

/// The first `i` encoded items of a warnings array, separators
/// included, closing bracket not.
pub open spec fn enc_warn_prefix(w: Seq<Seq<char>>, i: int) -> Seq<u8>
    decreases i,
{
    if i <= 0 {
        Seq::empty()
    } else if i == 1 {
        enc_str_chars(w[0])
    } else {
        enc_warn_prefix(w, i - 1) + seq![COMMA] + enc_str_chars(w[i - 1])
    }
}

/// All items followed by the bracket are the items-and-bracket form.
proof fn lemma_warn_prefix_items(w: Seq<Seq<char>>, i: int)
    requires
        0 <= i <= w.len(),
    ensures
        enc_warn_prefix(w, w.len() as int) + seq![RBRACKET] == enc_warn_prefix(w, i)
            + enc_warn_items(w, i),
    decreases w.len() - i,
{
    if i == w.len() {
        assert(enc_warn_prefix(w, i) + seq![RBRACKET] =~= enc_warn_prefix(w, i) + enc_warn_items(
            w,
            i,
        ));
    } else {
        lemma_warn_prefix_items(w, i + 1);
        if i == 0 {
            assert(enc_warn_prefix(w, 1) =~= enc_str_chars(w[0]) + Seq::<u8>::empty()) by {
                assert(enc_warn_prefix(w, 1) == enc_str_chars(w[0]));
                assert(enc_str_chars(w[0]) + Seq::<u8>::empty() =~= enc_str_chars(w[0]));
            }
            assert(enc_warn_prefix(w, 0) + enc_warn_items(w, 0) =~= enc_warn_prefix(w, 1)
                + enc_warn_items(w, 1));
        } else {
            assert(enc_warn_prefix(w, i) + enc_warn_items(w, i) =~= enc_warn_prefix(w, i + 1)
                + enc_warn_items(w, i + 1));
        }
    }
}

/// Appends the encoded warnings array.
fn push_warnings(out: &mut Vec<u8>, w: &Vec<String>)
    ensures
        final(out)@ == old(out)@ + enc_warnings(w.deep_view()),
{
    let ghost wv = w.deep_view();
    out.push(LBRACKET);
    let ghost base = out@;
    let mut i: usize = 0;
    while i < w.len()
        invariant
            i <= w@.len(),
            wv == w.deep_view(),
            wv.len() == w@.len(),
            out@ == base + enc_warn_prefix(wv, i as int),
        decreases w@.len() - i,
    {
        if i > 0 {
            out.push(COMMA);
        }
        push_json_string(out, w[i].as_str());
        proof {
            assert(w@[i as int]@ == wv[i as int]);
            if i == 0 {
                assert(base + enc_warn_prefix(wv, 0) =~= base);
                assert(out@ =~= base + enc_warn_prefix(wv, 1));
            } else {
                assert(out@ =~= base + enc_warn_prefix(wv, i + 1 as int));
            }
        }
        i = i + 1;
    }
    out.push(RBRACKET);
    proof {
        lemma_warn_prefix_items(wv, 0);
        assert(enc_warn_prefix(wv, 0) + enc_warn_items(wv, 0) =~= enc_warn_items(wv, 0));
        assert(out@ =~= old(out)@ + enc_warnings(wv));
    }
}

/// The first `i` encoded members of a metadata object, separators
/// included, closing brace not.
pub open spec fn enc_meta_prefix(m: Seq<MetadataEntryView>, i: int) -> Seq<u8>
    decreases i,
{
    if i <= 0 {
        Seq::empty()
    } else if i == 1 {
        enc_str_chars(m[0].key) + seq![COLON] + encode_utf8(m[0].value)
    } else {
        enc_meta_prefix(m, i - 1) + seq![COMMA] + enc_str_chars(m[i - 1].key) + seq![COLON]
            + encode_utf8(m[i - 1].value)
    }
}

/// All members followed by the brace are the members-and-brace form.
proof fn lemma_meta_prefix_items(m: Seq<MetadataEntryView>, i: int)
    requires
        0 <= i <= m.len(),
    ensures
        enc_meta_prefix(m, m.len() as int) + seq![RBRACE] == enc_meta_prefix(m, i)
            + enc_meta_items(m, i),
    decreases m.len() - i,
{
    if i == m.len() {
        assert(enc_meta_prefix(m, i) + seq![RBRACE] =~= enc_meta_prefix(m, i) + enc_meta_items(
            m,
            i,
        ));
    } else {
        lemma_meta_prefix_items(m, i + 1);
        if i == 0 {
            assert(enc_meta_prefix(m, 0) + enc_meta_items(m, 0) =~= enc_meta_prefix(m, 1)
                + enc_meta_items(m, 1));
        } else {
            assert(enc_meta_prefix(m, i) + enc_meta_items(m, i) =~= enc_meta_prefix(m, i + 1)
                + enc_meta_items(m, i + 1));
        }
    }
}

/// Appends the encoded metadata object, each value as its raw text.
fn push_metadata(out: &mut Vec<u8>, m: &Vec<crate::types::MetadataEntry>)
    ensures
        final(out)@ == old(out)@ + enc_metadata(meta_seq_view(m@)),
{
    let ghost mv = meta_seq_view(m@);
    out.push(LBRACE);
    let ghost base = out@;
    let mut i: usize = 0;
    while i < m.len()
        invariant
            i <= m@.len(),
            mv == meta_seq_view(m@),
            mv.len() == m@.len(),
            out@ == base + enc_meta_prefix(mv, i as int),
        decreases m@.len() - i,
    {
        if i > 0 {
            out.push(COMMA);
        }
        push_json_string(out, m[i].key.as_str());
        out.push(COLON);
        push_raw_str(out, m[i].value.as_str());
        proof {
            assert(m@[i as int]@ == mv[i as int]);
            if i == 0 {
                assert(base + enc_meta_prefix(mv, 0) =~= base);
                assert(out@ =~= base + enc_meta_prefix(mv, 1));
            } else {
                assert(out@ =~= base + enc_meta_prefix(mv, i + 1 as int));
            }
        }
        i = i + 1;
    }
    out.push(RBRACE);
    proof {
        lemma_meta_prefix_items(mv, 0);
        assert(enc_meta_prefix(mv, 0) + enc_meta_items(mv, 0) =~= enc_meta_items(mv, 0));
        assert(out@ =~= old(out)@ + enc_metadata(mv));
    }
}

/// Appends one string-valued member: key, colon, value.
fn push_string_member(out: &mut Vec<u8>, key: &str, val: &str)
    ensures
        final(out)@ == old(out)@ + (enc_str_chars(key@) + seq![COLON] + enc_str_chars(val@)),
{
    push_json_string(out, key);
    out.push(COLON);
    push_json_string(out, val);
    proof {
        assert(out@ =~= old(out)@ + (enc_str_chars(key@) + seq![COLON] + enc_str_chars(val@)));
    }
}

/// Appends the warnings member: key, colon, array.
fn push_warnings_member(out: &mut Vec<u8>, w: &Vec<String>)
    ensures
        final(out)@ == old(out)@ + (enc_str_chars("warnings"@) + seq![COLON] + enc_warnings(
            w.deep_view(),
        )),
{
    push_json_string(out, "warnings");
    out.push(COLON);
    push_warnings(out, w);
    proof {
        assert(out@ =~= old(out)@ + (enc_str_chars("warnings"@) + seq![COLON] + enc_warnings(
            w.deep_view(),
        )));
    }
}

/// Appends the metadata member: key, colon, object.
fn push_metadata_member(out: &mut Vec<u8>, m: &Vec<crate::types::MetadataEntry>)
    ensures
        final(out)@ == old(out)@ + (enc_str_chars("metadata"@) + seq![COLON] + enc_metadata(
            meta_seq_view(m@),
        )),
{
    push_json_string(out, "metadata");
    out.push(COLON);
    push_metadata(out, m);
    proof {
        assert(out@ =~= old(out)@ + (enc_str_chars("metadata"@) + seq![COLON] + enc_metadata(
            meta_seq_view(m@),
        )));
    }
}

/// The wire form laid out member by member, as the encoder emits it.
#[verifier::rlimit(100)]
proof fn lemma_encode_assemble(v: TaskStatusView)
    ensures
        encode_status(v) == seq![LBRACE] + member_enc(v, 0) + (seq![COMMA] + member_enc(v, 1)) + (
        if v.result is Some {
            seq![COMMA] + member_enc(v, 2)
        } else {
            Seq::<u8>::empty()
        }) + (if v.error is Some {
            seq![COMMA] + member_enc(v, 3)
        } else {
            Seq::<u8>::empty()
        }) + (if v.warnings is Some {
            seq![COMMA] + member_enc(v, 4)
        } else {
            Seq::<u8>::empty()
        }) + (if v.metadata is Some {
            seq![COMMA] + member_enc(v, 5)
        } else {
            Seq::<u8>::empty()
        }) + seq![RBRACE],
{
    let s1 = seq![COMMA] + member_enc(v, 1);
    let s2 = if v.result is Some { seq![COMMA] + member_enc(v, 2) } else { Seq::<u8>::empty() };
    let s3 = if v.error is Some { seq![COMMA] + member_enc(v, 3) } else { Seq::<u8>::empty() };
    let s4 = if v.warnings is Some { seq![COMMA] + member_enc(v, 4) } else { Seq::<u8>::empty() };
    let s5 = if v.metadata is Some { seq![COMMA] + member_enc(v, 5) } else { Seq::<u8>::empty() };
    let u5 = seq![RBRACE];
    assert(members_after(v, 5) == u5);
    let u4 = s5 + u5;
    assert(members_after(v, 4) == u4) by {
        if v.metadata is None {
            assert(Seq::<u8>::empty() + u5 =~= u5);
        }
    }
    let u3 = s4 + u4;
    assert(members_after(v, 3) == u3) by {
        if v.warnings is None {
            assert(Seq::<u8>::empty() + u4 =~= u4);
        }
    }
    let u2 = s3 + u3;
    assert(members_after(v, 2) == u2) by {
        if v.error is None {
            assert(Seq::<u8>::empty() + u3 =~= u3);
        }
    }
    let u1 = s2 + u2;
    assert(members_after(v, 1) == u1) by {
        if v.result is None {
            assert(Seq::<u8>::empty() + u2 =~= u2);
        }
    }
    let u0 = s1 + u1;
    assert(members_after(v, 0) == u0);
    let l0 = seq![LBRACE] + member_enc(v, 0);
    vstd::seq_lib::lemma_concat_associative(l0, s1, u1);
    vstd::seq_lib::lemma_concat_associative(l0 + s1, s2, u2);
    vstd::seq_lib::lemma_concat_associative(l0 + s1 + s2, s3, u3);
    vstd::seq_lib::lemma_concat_associative(l0 + s1 + s2 + s3, s4, u4);
    vstd::seq_lib::lemma_concat_associative(l0 + s1 + s2 + s3 + s4, s5, u5);
    assert(encode_status(v) == l0 + s1 + s2 + s3 + s4 + s5 + u5);
}

/// Encodes a status snapshot into its canonical wire form.
#[verifier::rlimit(100)]
pub fn encode_status_bytes(st: &TaskStatus) -> (out: Vec<u8>)
    ensures
        out@ == encode_status(st@),
{
    let ghost v = st@;
    let mut out: Vec<u8> = Vec::new();
    out.push(LBRACE);
    push_string_member(&mut out, "taskId", st.task_id.as_str());
    proof {
        assert(out@ =~= seq![LBRACE] + member_enc(v, 0));
    }
    let ghost mut cum = seq![LBRACE] + member_enc(v, 0);
    let ghost pre = cum;
    out.push(COMMA);
    match st.status {
        TaskStatusValue::Processing => push_string_member(&mut out, "status", "processing"),
        TaskStatusValue::Completed => push_string_member(&mut out, "status", "completed"),
        TaskStatusValue::Failed => push_string_member(&mut out, "status", "failed"),
    }
    proof {
        assert(pre.push(COMMA) =~= pre + seq![COMMA]);
        vstd::seq_lib::lemma_concat_associative(pre, seq![COMMA], member_enc(v, 1));
        cum = cum + (seq![COMMA] + member_enc(v, 1));
        assert(out@ == cum);
    }
    let ghost pre = cum;
    match &st.result {
        Some(r) => {
            out.push(COMMA);
            push_string_member(&mut out, "result", r.as_str());
        },
        None => {},
    }
    proof {
        if v.result is Some {
            assert(pre.push(COMMA) =~= pre + seq![COMMA]);
            vstd::seq_lib::lemma_concat_associative(pre, seq![COMMA], member_enc(v, 2));
        } else {
            assert(pre + Seq::<u8>::empty() =~= pre);
        }
        cum = cum + (if v.result is Some {
            seq![COMMA] + member_enc(v, 2)
        } else {
            Seq::<u8>::empty()
        });
        assert(out@ == cum);
    }
    let ghost pre = cum;
    match &st.error {
        Some(e) => {
            out.push(COMMA);
            push_string_member(&mut out, "error", e.as_str());
        },
        None => {},
    }
    proof {
        if v.error is Some {
            assert(pre.push(COMMA) =~= pre + seq![COMMA]);
            vstd::seq_lib::lemma_concat_associative(pre, seq![COMMA], member_enc(v, 3));
        } else {
            assert(pre + Seq::<u8>::empty() =~= pre);
        }
        cum = cum + (if v.error is Some {
            seq![COMMA] + member_enc(v, 3)
        } else {
            Seq::<u8>::empty()
        });
        assert(out@ == cum);
    }
    let ghost pre = cum;
    match &st.warnings {
        Some(w) => {
            out.push(COMMA);
            push_warnings_member(&mut out, w);
        },
        None => {},
    }
    proof {
        if v.warnings is Some {
            assert(pre.push(COMMA) =~= pre + seq![COMMA]);
            vstd::seq_lib::lemma_concat_associative(pre, seq![COMMA], member_enc(v, 4));
        } else {
            assert(pre + Seq::<u8>::empty() =~= pre);
        }
        cum = cum + (if v.warnings is Some {
            seq![COMMA] + member_enc(v, 4)
        } else {
            Seq::<u8>::empty()
        });
        assert(out@ == cum);
    }
    let ghost pre = cum;
    match &st.metadata {
        Some(m) => {
            out.push(COMMA);
            push_metadata_member(&mut out, m);
        },
        None => {},
    }
    proof {
        if v.metadata is Some {
            assert(pre.push(COMMA) =~= pre + seq![COMMA]);
            vstd::seq_lib::lemma_concat_associative(pre, seq![COMMA], member_enc(v, 5));
        } else {
            assert(pre + Seq::<u8>::empty() =~= pre);
        }
        cum = cum + (if v.metadata is Some {
            seq![COMMA] + member_enc(v, 5)
        } else {
            Seq::<u8>::empty()
        });
        assert(out@ == cum);
    }
    out.push(RBRACE);
    proof {
        assert(cum.push(RBRACE) =~= cum + seq![RBRACE]);
        lemma_encode_assemble(v);
        assert(out@ == encode_status(v));
    }
    out
}

} // verus!
