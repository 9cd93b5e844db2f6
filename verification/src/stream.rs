//! The event-stream parser: a stateful line-oriented decoder that
//! consumes arbitrary-sized byte chunks of one chunked response body
//! and yields the decoded status snapshots its `data:` lines carry.
//!
//! The meaning of a stream is fixed by [`events_final`], a function of
//! the concatenated bytes alone — so how the bytes were cut into
//! chunks can never change what is yielded.

use vstd::prelude::*;

use crate::error::JsonError;
use crate::json::{decode_status, parse_status, vec_sub};
use crate::types::{TaskStatus, TaskStatusView};

verus! {

pub const NL: u8 = 0x0a;

/// Whitespace as far as line trimming is concerned.
pub open spec fn is_trim_byte(b: u8) -> bool {
    b == 0x20 || (0x09 <= b <= 0x0d)
}

/// `s` with leading whitespace removed.
pub open spec fn trim_start(s: Seq<u8>) -> Seq<u8>
    decreases s.len(),
{
    if s.len() > 0 && is_trim_byte(s[0]) {
        trim_start(s.drop_first())
    } else {
        s
    }
}

/// `s` with trailing whitespace removed.
pub open spec fn trim_end(s: Seq<u8>) -> Seq<u8>
    decreases s.len(),
{
    if s.len() > 0 && is_trim_byte(s[s.len() - 1]) {
        trim_end(s.drop_last())
    } else {
        s
    }
}

/// `s` with whitespace removed from both ends.
pub open spec fn trim_bytes(s: Seq<u8>) -> Seq<u8> {
    trim_end(trim_start(s))
}

/// The literal prefix `data:`.
pub open spec fn data_prefixed(t: Seq<u8>) -> bool {
    t.len() >= 5 && t[0] == 0x64 && t[1] == 0x61 && t[2] == 0x74 && t[3] == 0x61 && t[4] == 0x3a
}

/// The item one line produces: a line whose trimmed content begins
/// with `data:` carries a status payload after that prefix; any other
/// line is silently discarded and produces nothing.
pub open spec fn line_item(line: Seq<u8>) -> Option<Result<TaskStatusView, JsonError>> {
    let t = trim_bytes(line);
    if data_prefixed(t) {
        Some(parse_status(trim_bytes(t.subrange(5, t.len() as int))))
    } else {
        None
    }
}

/// The first newline at or after `p`.
pub open spec fn find_nl_from(s: Seq<u8>, p: int) -> Option<int>
    decreases s.len() - p,
{
    if p < 0 || p >= s.len() {
        None
    } else if s[p] == NL {
        Some(p)
    } else {
        find_nl_from(s, p + 1)
    }
}

/// The first newline of `s`.
pub open spec fn find_nl(s: Seq<u8>) -> Option<int> {
    find_nl_from(s, 0)
}

pub proof fn lemma_find_nl_from(s: Seq<u8>, p: int)
    requires
        0 <= p <= s.len(),
    ensures
        match find_nl_from(s, p) {
            Some(i) => p <= i < s.len() && s[i] == NL && forall|j: int|
                p <= j < i ==> s[j] != NL,
            None => forall|j: int| p <= j < s.len() ==> s[j] != NL,
        },
    decreases s.len() - p,
{
    if p < s.len() && s[p] != NL {
        lemma_find_nl_from(s, p + 1);
    }
}

/// A position holding the first newline is what the search finds.
pub proof fn lemma_find_nl_characterize(s: Seq<u8>, i: int)
    requires
        0 <= i < s.len(),
        s[i] == NL,
        forall|j: int| 0 <= j < i ==> s[j] != NL,
    ensures
        find_nl(s) == Some(i),
{
    lemma_find_nl_from_characterize(s, 0, i);
}

proof fn lemma_find_nl_from_characterize(s: Seq<u8>, p: int, i: int)
    requires
        0 <= p <= i < s.len(),
        s[i] == NL,
        forall|j: int| p <= j < i ==> s[j] != NL,
    ensures
        find_nl_from(s, p) == Some(i),
    decreases i - p,
{
    if p < i {
        lemma_find_nl_from_characterize(s, p + 1, i);
    }
}

/// The items of every complete (newline-terminated) line of `s`, in
/// order; an unterminated tail contributes nothing here.
pub open spec fn events_complete(s: Seq<u8>) -> Seq<Result<TaskStatusView, JsonError>>
    decreases s.len(),
        via events_complete_decreases
{
    match find_nl(s) {
        Some(i) => {
            let line = s.subrange(0, i);
            let rest = s.subrange(i + 1, s.len() as int);
            match line_item(line) {
                Some(it) => seq![it] + events_complete(rest),
                None => events_complete(rest),
            }
        },
        None => Seq::empty(),
    }
}

#[via_fn]
proof fn events_complete_decreases(s: Seq<u8>) {
    lemma_find_nl_from(s, 0);
}

/// The unterminated tail of `s`: everything after its last newline.
pub open spec fn residue(s: Seq<u8>) -> Seq<u8>
    decreases s.len(),
        via residue_decreases
{
    match find_nl(s) {
        Some(i) => residue(s.subrange(i + 1, s.len() as int)),
        None => s,
    }
}

#[via_fn]
proof fn residue_decreases(s: Seq<u8>) {
    lemma_find_nl_from(s, 0);
}

/// All items of a finished stream: those of its complete lines, then
/// the one of a final unterminated `data:` fragment, if any. This is
/// the meaning of one streamed response body.
pub open spec fn events_final(s: Seq<u8>) -> Seq<Result<TaskStatusView, JsonError>> {
    events_complete(s) + match line_item(residue(s)) {
        Some(it) => seq![it],
        None => Seq::empty(),
    }
}

/// Empty, or ending on a line boundary.
pub open spec fn line_aligned(s: Seq<u8>) -> bool {
    s.len() == 0 || s[s.len() - 1] == NL
}

/// Complete-line events split over a concatenation whose first part is
/// line-aligned, and the unterminated tail lies wholly in the second.
pub proof fn lemma_events_aligned_concat(a: Seq<u8>, b: Seq<u8>)
    requires
        line_aligned(a),
    ensures
        events_complete(a + b) == events_complete(a) + events_complete(b),
        residue(a + b) == residue(b),
    decreases a.len(),
{
    if a.len() == 0 {
        assert(a + b =~= b);
        assert(events_complete(a) =~= Seq::<Result<TaskStatusView, JsonError>>::empty());
    } else {
        lemma_find_nl_from(a, 0);
        let i = match find_nl(a) {
            Some(i) => i,
            None => {
                assert(a[a.len() - 1] == NL);
                0
            },
        };
        assert(find_nl(a) == Some(i)) by {
            if find_nl(a) is None {
                lemma_find_nl_from(a, 0);
                assert(a[a.len() - 1] == NL);
                assert(false);
            }
        }
        let s = a + b;
        assert(s[i] == a[i]);
        assert(forall|j: int| 0 <= j < i ==> s[j] == a[j]);
        lemma_find_nl_characterize(s, i);
        let line_a = a.subrange(0, i);
        let rest_a = a.subrange(i + 1, a.len() as int);
        assert(s.subrange(0, i) =~= line_a);
        assert(s.subrange(i + 1, s.len() as int) =~= rest_a + b);
        assert(line_aligned(rest_a)) by {
            if rest_a.len() > 0 {
                assert(rest_a[rest_a.len() - 1] == a[a.len() - 1]);
            }
        }
        lemma_events_aligned_concat(rest_a, b);
        match line_item(line_a) {
            Some(it) => {
                assert(seq![it] + (events_complete(rest_a) + events_complete(b)) =~= (seq![it]
                    + events_complete(rest_a)) + events_complete(b));
            },
            None => {},
        }
    }
}

/// An aligned stream has no unterminated tail.
pub proof fn lemma_residue_aligned(s: Seq<u8>)
    requires
        line_aligned(s),
    ensures
        residue(s).len() == 0,
    decreases s.len(),
{
    if s.len() > 0 {
        lemma_find_nl_from(s, 0);
        match find_nl(s) {
            Some(i) => {
                let rest = s.subrange(i + 1, s.len() as int);
                assert(line_aligned(rest)) by {
                    if rest.len() > 0 {
                        assert(rest[rest.len() - 1] == s[s.len() - 1]);
                    }
                }
                lemma_residue_aligned(rest);
            },
            None => {
                assert(s[s.len() - 1] == NL);
                assert(false);
            },
        }
    }
}

/// A line without a newline of its own, whose trimmed content does not
/// begin with `data:`, can be inserted (newline-terminated) at any
/// line boundary of a stream — leading, trailing, or between events —
/// without changing what the stream yields, no matter its content.
pub proof fn lemma_discarded_line_ignored(s1: Seq<u8>, l: Seq<u8>, s2: Seq<u8>)
    requires
        line_aligned(s1),
        find_nl(l) is None,
        line_item(l) is None,
    ensures
        events_final(s1 + (l + seq![NL]) + s2) == events_final(s1 + s2),
{
    let m = l + seq![NL];
    assert(line_aligned(m));
    assert(line_aligned(s1 + m)) by {
        assert((s1 + m)[(s1 + m).len() - 1] == NL);
    }
    lemma_find_nl_from(l, 0);
    assert(m[l.len() as int] == NL);
    assert(forall|j: int| 0 <= j < l.len() ==> m[j] == l[j]);
    lemma_find_nl_characterize(m, l.len() as int);
    assert(m.subrange(0, l.len() as int) =~= l);
    let rest = m.subrange(l.len() as int + 1, m.len() as int);
    assert(rest =~= Seq::<u8>::empty());
    assert(events_complete(Seq::<u8>::empty()) =~= Seq::<
        Result<TaskStatusView, JsonError>,
    >::empty());
    assert(events_complete(m) == events_complete(rest));
    assert(events_complete(m) =~= Seq::<Result<TaskStatusView, JsonError>>::empty());
    lemma_events_aligned_concat(s1, m);
    assert(residue(m) =~= Seq::<u8>::empty()) by {
        lemma_residue_aligned(m);
    }
    lemma_events_aligned_concat(s1 + m, s2);
    lemma_events_aligned_concat(s1, s2);
    assert(s1 + m + s2 == (s1 + m) + s2);
    assert(events_complete((s1 + m) + s2) == events_complete(s1 + m) + events_complete(s2));
    assert(events_complete(s1 + m) == events_complete(s1) + events_complete(m));
    assert(events_complete(s1 + m) =~= events_complete(s1));
    assert(events_complete((s1 + m) + s2) =~= events_complete(s1 + s2));
    assert(residue((s1 + m) + s2) == residue(s2));
    assert(residue(s1 + s2) == residue(s2));
}

/// The items of one newline-terminated line are exactly what the line
/// alone produces.
pub proof fn lemma_events_single_line(l: Seq<u8>)
    requires
        find_nl(l) is None,
    ensures
        events_complete(l + seq![NL]) == match line_item(l) {
            Some(it) => seq![it],
            None => Seq::<Result<TaskStatusView, JsonError>>::empty(),
        },
        residue(l + seq![NL]).len() == 0,
{
    let m = l + seq![NL];
    lemma_find_nl_from(l, 0);
    assert(m[l.len() as int] == NL);
    assert(forall|j: int| 0 <= j < l.len() ==> m[j] == l[j]);
    lemma_find_nl_characterize(m, l.len() as int);
    assert(m.subrange(0, l.len() as int) =~= l);
    let rest = m.subrange(l.len() as int + 1, m.len() as int);
    assert(rest =~= Seq::<u8>::empty());
    assert(events_complete(Seq::<u8>::empty()) =~= Seq::<
        Result<TaskStatusView, JsonError>,
    >::empty());
    match line_item(l) {
        Some(it) => {
            assert(events_complete(m) =~= seq![it]);
        },
        None => {
            assert(events_complete(m) =~= Seq::<Result<TaskStatusView, JsonError>>::empty());
        },
    }
    assert(line_aligned(m));
    lemma_residue_aligned(m);
}

/// The concatenation of a sequence of chunks.
pub open spec fn concat_chunks(cs: Seq<Seq<u8>>) -> Seq<u8>
    decreases cs.len(),
{
    if cs.len() == 0 {
        Seq::empty()
    } else {
        cs[0] + concat_chunks(cs.drop_first())
    }
}

/// Appending one more chunk appends its bytes.
pub proof fn lemma_concat_chunks_push(cs: Seq<Seq<u8>>, c: Seq<u8>)
    ensures
        concat_chunks(cs.push(c)) == concat_chunks(cs) + c,
    decreases cs.len(),
{
    if cs.len() == 0 {
        assert(cs.push(c)[0] =~= c);
        assert(cs.push(c).drop_first() =~= Seq::<Seq<u8>>::empty());
        assert(concat_chunks(Seq::<Seq<u8>>::empty()) =~= Seq::<u8>::empty());
        assert(concat_chunks(cs.push(c)) =~= c);
        assert(concat_chunks(cs) + c =~= c);
    } else {
        assert(cs.push(c).drop_first() =~= cs.drop_first().push(c));
        lemma_concat_chunks_push(cs.drop_first(), c);
        assert(cs.push(c)[0] == cs[0]);
        assert(cs[0] + (concat_chunks(cs.drop_first()) + c) =~= (cs[0] + concat_chunks(
            cs.drop_first(),
        )) + c);
    }
}

/// What a stream yields is a function of the concatenated bytes alone:
/// any two chunkings of the same bytes yield the identical sequence of
/// items, whatever the chunk boundaries.
pub proof fn lemma_chunking_independent(c1: Seq<Seq<u8>>, c2: Seq<Seq<u8>>)
    requires
        concat_chunks(c1) == concat_chunks(c2),
    ensures
        events_final(concat_chunks(c1)) == events_final(concat_chunks(c2)),
{
}

/// The view of one yielded item.
pub open spec fn item_view(r: Result<TaskStatus, JsonError>) -> Result<TaskStatusView, JsonError> {
    match r {
        Ok(st) => Ok(st@),
        Err(e) => Err(e),
    }
}

/// The views of a sequence of yielded items.
pub open spec fn items_view(v: Seq<Result<TaskStatus, JsonError>>) -> Seq<
    Result<TaskStatusView, JsonError>,
> {
    Seq::new(v.len(), |i: int| item_view(v[i]))
}

/// Finds the first newline held in `v`.
fn find_nl_vec(v: &Vec<u8>) -> (r: Option<usize>)
    ensures
        match r {
            Some(i) => find_nl(v@) == Some(i as int) && i < v@.len(),
            None => find_nl(v@) is None,
        },
{
    let mut i: usize = 0;
    while i < v.len() && v[i] != NL
        invariant
            i <= v@.len(),
            find_nl_from(v@, 0) == find_nl_from(v@, i as int),
        decreases v@.len() - i,
    {
        i = i + 1;
    }
    if i < v.len() {
        Some(i)
    } else {
        None
    }
}

/// Removes whitespace from both ends of `v`.
fn trim_vec(v: &Vec<u8>) -> (r: Vec<u8>)
    ensures
        r@ == trim_bytes(v@),
{
    let n = v.len();
    let mut lo: usize = 0;
    proof {
        assert(v@.subrange(0, n as int) =~= v@);
    }
    while lo < n && (v[lo] == 0x20 || (0x09 <= v[lo] && v[lo] <= 0x0d))
        invariant
            lo <= n,
            n == v@.len(),
            trim_start(v@) == trim_start(v@.subrange(lo as int, n as int)),
        decreases n - lo,
    {
        proof {
            let part = v@.subrange(lo as int, n as int);
            assert(part[0] == v@[lo as int]);
            assert(part.drop_first() =~= v@.subrange(lo + 1 as int, n as int));
        }
        lo = lo + 1;
    }
    proof {
        let part = v@.subrange(lo as int, n as int);
        if lo < n {
            assert(part[0] == v@[lo as int]);
        }
        assert(trim_start(v@) == part);
    }
    let mut hi: usize = n;
    while hi > lo && (v[hi - 1] == 0x20 || (0x09 <= v[hi - 1] && v[hi - 1] <= 0x0d))
        invariant
            lo <= hi <= n,
            n == v@.len(),
            trim_start(v@) == v@.subrange(lo as int, n as int),
            trim_end(v@.subrange(lo as int, n as int)) == trim_end(
                v@.subrange(lo as int, hi as int),
            ),
        decreases hi,
    {
        proof {
            let part = v@.subrange(lo as int, hi as int);
            assert(part[part.len() - 1] == v@[hi - 1 as int]);
            assert(part.drop_last() =~= v@.subrange(lo as int, hi - 1 as int));
        }
        hi = hi - 1;
    }
    proof {
        let part = v@.subrange(lo as int, hi as int);
        if hi > lo {
            assert(part[part.len() - 1] == v@[hi - 1 as int]);
        }
        assert(trim_end(part) == part);
    }
    vec_sub(v, lo, hi)
}

/// Reports whether `t` begins with the literal `data:`.
fn data_prefixed_b(t: &Vec<u8>) -> (r: bool)
    ensures
        r == data_prefixed(t@),
{
    t.len() >= 5 && t[0] == 0x64 && t[1] == 0x61 && t[2] == 0x74 && t[3] == 0x61 && t[4] == 0x3a
}

/// Decodes one complete line that has no newline of its own: the item
/// it produces, if its trimmed content begins with `data:`.
fn decode_line(line: &Vec<u8>) -> (r: Option<Result<TaskStatus, JsonError>>)
    ensures
        match r {
            Some(it) => line_item(line@) == Some(item_view(it)),
            None => line_item(line@) is None,
        },
{
    let t = trim_vec(line);
    if data_prefixed_b(&t) {
        let raw = vec_sub(&t, 5, t.len());
        let payload = trim_vec(&raw);
        let item = decode_status(&payload);
        proof {
            match parse_status(payload@) {
                Ok(v) => {},
                Err(e) => {},
            }
        }
        Some(item)
    } else {
        None
    }
}

/// What one demand on the parser yields.
pub enum ParserStep {
    /// The next decoded item of the stream.
    Item(Result<TaskStatus, JsonError>),
    /// No complete line is buffered and the input has not ended: feed
    /// the next chunk, or signal the end of input.
    NeedInput,
    /// The stream is over: nothing further will ever be yielded.
    End,
}

/// The incremental event parser. It owns the decode buffer: bytes go
/// in through [`EventParser::feed`], decoded status snapshots come out
/// of [`EventParser::next_event`], and what comes out is exactly
/// [`events_final`] of all bytes fed, however they were chunked.
pub struct EventParser {
    buf: Vec<u8>,
    eof: bool,
    sealed: bool,
    consumed: Ghost<Seq<u8>>,
    given: Ghost<Seq<Result<TaskStatusView, JsonError>>>,
}

impl EventParser {
    /// All bytes this parser has been fed so far.
    pub closed spec fn fed(&self) -> Seq<u8> {
        self.consumed@ + self.buf@
    }

    /// The views of all items yielded so far, in order.
    pub closed spec fn emitted(&self) -> Seq<Result<TaskStatusView, JsonError>> {
        self.given@
    }

    /// Whether the end of input has been signalled.
    pub closed spec fn input_ended(&self) -> bool {
        self.eof
    }

    /// How many fed bytes are still undelivered in the buffer.
    pub closed spec fn pending(&self) -> nat {
        self.buf@.len()
    }

    /// The parser's invariant: what was yielded is exactly the items
    /// of the already-consumed part of the input.
    pub closed spec fn wf(&self) -> bool {
        if self.sealed {
            self.eof && self.buf@.len() == 0 && self.given@ == events_final(self.consumed@)
        } else {
            line_aligned(self.consumed@) && self.given@ == events_complete(self.consumed@)
        }
    }

    /// A fresh parser with an empty buffer.
    pub fn new() -> (p: EventParser)
        ensures
            p.wf(),
            p.fed() == Seq::<u8>::empty(),
            p.emitted() == Seq::<Result<TaskStatusView, JsonError>>::empty(),
            !p.input_ended(),
    {
        let p = EventParser {
            buf: Vec::new(),
            eof: false,
            sealed: false,
            consumed: Ghost(Seq::empty()),
            given: Ghost(Seq::empty()),
        };
        proof {
            assert(events_complete(Seq::<u8>::empty()) =~= Seq::<
                Result<TaskStatusView, JsonError>,
            >::empty());
            assert(p.fed() =~= Seq::<u8>::empty());
        }
        p
    }

    /// Appends one received chunk to the decode buffer.
    pub fn feed(&mut self, chunk: &Vec<u8>)
        requires
            old(self).wf(),
            !old(self).input_ended(),
        ensures
            final(self).wf(),
            final(self).fed() == old(self).fed() + chunk@,
            final(self).emitted() == old(self).emitted(),
            !final(self).input_ended(),
    {
        let mut i: usize = 0;
        proof {
            assert(self.buf@ + chunk@.subrange(0, 0) =~= self.buf@);
        }
        while i < chunk.len()
            invariant
                i <= chunk@.len(),
                self.buf@ == old(self).buf@ + chunk@.subrange(0, i as int),
                self.eof == old(self).eof,
                self.sealed == old(self).sealed,
                self.consumed == old(self).consumed,
                self.given == old(self).given,
            decreases chunk@.len() - i,
        {
            self.buf.push(chunk[i]);
            proof {
                assert(old(self).buf@ + chunk@.subrange(0, i + 1 as int) =~= (old(self).buf@
                    + chunk@.subrange(0, i as int)).push(chunk@[i as int]));
            }
            i = i + 1;
        }
        proof {
            assert(chunk@.subrange(0, chunk@.len() as int) =~= chunk@);
            assert(self.consumed@ + (old(self).buf@ + chunk@) =~= (self.consumed@ + old(
                self,
            ).buf@) + chunk@);
        }
    }

    /// Signals that the input source has ended: no more chunks come.
    pub fn end_input(&mut self)
        requires
            old(self).wf(),
        ensures
            final(self).wf(),
            final(self).fed() == old(self).fed(),
            final(self).emitted() == old(self).emitted(),
            final(self).pending() == old(self).pending(),
            final(self).input_ended(),
    {
        self.eof = true;
    }

    /// Produces the next item of the stream, if one can be determined
    /// from what has been fed: complete `data:` lines are decoded and
    /// yielded in order, other lines are discarded; once the input has
    /// ended, a final unterminated `data:` fragment is still honoured,
    /// and then the stream ends.
    #[verifier::rlimit(60)]
    pub fn next_event(&mut self) -> (r: ParserStep)
        requires
            old(self).wf(),
        ensures
            final(self).wf(),
            final(self).fed() == old(self).fed(),
            final(self).input_ended() == old(self).input_ended(),
            match r {
                ParserStep::Item(it) => final(self).emitted() == old(self).emitted() + seq![
                    item_view(it),
                ] && final(self).pending() < old(self).pending(),
                ParserStep::NeedInput => final(self).emitted() == old(self).emitted() && !old(
                    self,
                ).input_ended(),
                ParserStep::End => final(self).emitted() == old(self).emitted() && old(
                    self,
                ).input_ended() && final(self).emitted() == events_final(final(self).fed()),
            },
    {
        if self.sealed {
            proof {
                assert(self.consumed@ + self.buf@ =~= self.consumed@);
            }
            return ParserStep::End;
        }
        let ghost fed0 = self.fed();
        let ghost given0 = self.given@;
        let ghost pending0 = self.buf@.len();
        let ghost eof0 = self.eof;
        loop
            invariant
                !self.sealed,
                self.eof == eof0,
                fed0 == old(self).fed(),
                given0 == old(self).emitted(),
                eof0 == old(self).input_ended(),
                pending0 == old(self).pending(),
                line_aligned(self.consumed@),
                self.given@ == events_complete(self.consumed@),
                self.given@ == given0,
                self.consumed@ + self.buf@ == fed0,
                self.buf@.len() <= pending0,
            decreases self.buf@.len(),
        {
            match find_nl_vec(&self.buf) {
                Some(i) => {
                    let ghost old_buf = self.buf@;
                    let ghost old_consumed = self.consumed@;
                    let blen = self.buf.len();
                    let line = vec_sub(&self.buf, 0, i);
                    let rest = vec_sub(&self.buf, i + 1, blen);
                    self.buf = rest;
                    proof {
                        self.consumed@ = old_consumed + line@ + seq![NL];
                        lemma_find_nl_from(old_buf, 0);
                        assert(old_buf[i as int] == NL);
                        assert(old_buf =~= line@ + seq![NL] + self.buf@);
                        assert(line_aligned(self.consumed@)) by {
                            assert(self.consumed@[self.consumed@.len() - 1] == NL);
                        }
                        assert(self.consumed@ + self.buf@ =~= old_consumed + old_buf);
                        assert(old_consumed + old_buf =~= fed0);
                        assert(find_nl(line@) is None) by {
                            lemma_find_nl_from(old_buf, 0);
                            lemma_find_nl_from(line@, 0);
                            match find_nl(line@) {
                                Some(k) => {
                                    assert(line@[k] == old_buf[k]);
                                    assert(false);
                                },
                                None => {},
                            }
                        }
                        assert(old_consumed + (line@ + seq![NL]) =~= self.consumed@);
                        lemma_events_aligned_concat(old_consumed, line@ + seq![NL]);
                        lemma_events_single_line(line@);
                    }
                    match decode_line(&line) {
                        Some(item) => {
                            proof {
                                self.given@ = self.given@ + seq![item_view(item)];
                                assert(self.given@ =~= events_complete(self.consumed@));
                            }
                            return ParserStep::Item(item);
                        },
                        None => {
                            proof {
                                assert(self.given@ =~= events_complete(self.consumed@));
                            }
                        },
                    }
                },
                None => {
                    if !self.eof {
                        return ParserStep::NeedInput;
                    }
                    if self.buf.len() == 0 {
                        self.sealed = true;
                        proof {
                            lemma_residue_aligned(self.consumed@);
                            assert(residue(self.consumed@) =~= Seq::<u8>::empty());
                            assert(trim_start(Seq::<u8>::empty()) =~= Seq::<u8>::empty());
                            assert(trim_end(Seq::<u8>::empty()) =~= Seq::<u8>::empty());
                            assert(line_item(residue(self.consumed@)) is None);
                            assert(self.given@ =~= events_final(self.consumed@));
                            assert(self.consumed@ + self.buf@ =~= self.consumed@);
                        }
                        return ParserStep::End;
                    }
                    let ghost old_consumed = self.consumed@;
                    let ghost old_buf = self.buf@;
                    let line = vec_sub(&self.buf, 0, self.buf.len());
                    self.buf = Vec::new();
                    self.sealed = true;
                    proof {
                        self.consumed@ = old_consumed + line@;
                        assert(line@ =~= old_buf);
                        assert(find_nl(line@) is None);
                        assert(self.consumed@ + self.buf@ =~= self.consumed@);
                        assert(self.consumed@ =~= fed0);
                        lemma_events_aligned_concat(old_consumed, line@);
                        assert(events_complete(line@) =~= Seq::<
                            Result<TaskStatusView, JsonError>,
                        >::empty());
                        assert(events_complete(self.consumed@) =~= events_complete(old_consumed));
                        assert(residue(self.consumed@) == line@);
                    }
                    match decode_line(&line) {
                        Some(item) => {
                            proof {
                                self.given@ = self.given@ + seq![item_view(item)];
                                assert(self.given@ =~= events_final(self.consumed@));
                            }
                            return ParserStep::Item(item);
                        },
                        None => {
                            proof {
                                assert(self.given@ + Seq::<
                                    Result<TaskStatusView, JsonError>,
                                >::empty() =~= self.given@);
                                assert(self.given@ =~= events_final(self.consumed@));
                            }
                            return ParserStep::End;
                        },
                    }
                },
            }
        }
    }
}

/// Parses a finished stream given as a list of byte chunks: the items
/// are exactly [`events_final`] of the concatenated bytes, so any two
/// chunkings of the same bytes give the identical result.
pub fn parse_all(chunks: &Vec<Vec<u8>>) -> (items: Vec<Result<TaskStatus, JsonError>>)
    ensures
        items_view(items@) == events_final(concat_chunks(chunks.deep_view())),
{
    let mut parser = EventParser::new();
    let mut out: Vec<Result<TaskStatus, JsonError>> = Vec::new();
    proof {
        assert(items_view(out@) =~= parser.emitted());
        assert(concat_chunks(Seq::<Seq<u8>>::empty()) =~= Seq::<u8>::empty());
        assert(chunks.deep_view().take(0) =~= Seq::<Seq<u8>>::empty());
    }
    let mut ci: usize = 0;
    while ci < chunks.len()
        invariant
            ci <= chunks@.len(),
            parser.wf(),
            !parser.input_ended(),
            parser.fed() == concat_chunks(chunks.deep_view().take(ci as int)),
            items_view(out@) == parser.emitted(),
        decreases chunks@.len() - ci,
    {
        parser.feed(&chunks[ci]);
        proof {
            lemma_concat_chunks_push(chunks.deep_view().take(ci as int), chunks@[ci as int]@);
            assert(chunks.deep_view()[ci as int] =~= chunks@[ci as int]@);
            assert(chunks.deep_view().take(ci + 1 as int) =~= chunks.deep_view().take(
                ci as int,
            ).push(chunks.deep_view()[ci as int]));
        }
        loop
            invariant
                parser.wf(),
                !parser.input_ended(),
                parser.fed() == concat_chunks(chunks.deep_view().take(ci + 1 as int)),
                items_view(out@) == parser.emitted(),
            ensures
                parser.wf(),
                !parser.input_ended(),
                parser.fed() == concat_chunks(chunks.deep_view().take(ci + 1 as int)),
                items_view(out@) == parser.emitted(),
            decreases parser.pending(),
        {
            match parser.next_event() {
                ParserStep::Item(it) => {
                    let ghost old_items = items_view(out@);
                    out.push(it);
                    proof {
                        assert(items_view(out@) =~= old_items.push(item_view(it)));
                    }
                },
                ParserStep::NeedInput => {
                    break;
                },
                ParserStep::End => {
                    proof {
                        assert(false);
                    }
                    break;
                },
            }
        }
        ci = ci + 1;
    }
    proof {
        assert(chunks.deep_view().take(ci as int) =~= chunks.deep_view());
    }
    parser.end_input();
    loop
        invariant
            parser.wf(),
            parser.input_ended(),
            parser.fed() == concat_chunks(chunks.deep_view()),
            items_view(out@) == parser.emitted(),
        ensures
            items_view(out@) == parser.emitted(),
            parser.emitted() == events_final(concat_chunks(chunks.deep_view())),
        decreases parser.pending(),
    {
        match parser.next_event() {
            ParserStep::Item(it) => {
                let ghost old_items = items_view(out@);
                out.push(it);
                proof {
                    assert(items_view(out@) =~= old_items.push(item_view(it)));
                }
            },
            ParserStep::NeedInput => {
                proof {
                    assert(false);
                }
                break;
            },
            ParserStep::End => {
                break;
            },
        }
    }
    out
}

} // verus!
