//! Lines of a byte stream.
//!
//! A line is a maximal run of bytes that holds no line terminator, taken
//! without its terminator. A stream that ends in a terminator has no further,
//! empty line behind it; one that ends otherwise has a last line that no
//! terminator closes.
//!
//! [`LineScanner`] is a cursor over a stream that arrives in chunks. It hands
//! out one line per call and keeps only the bytes it has not handed out yet.

use crate::term::LINE_TERMINATOR;
use vstd::prelude::*;

verus! {

/// The byte whose presence marks a stream as binary.
pub const BINARY_MARKER: u8 = 0x00;

/// A stream is binary when the marker byte occurs anywhere in it, in
/// particular when it occurs before the first line terminator.
pub open spec fn is_binary(s: Seq<u8>) -> bool {
    s.contains(BINARY_MARKER)
}

/// `k` is where the first line of `s` ends: no terminator lies before `k`,
/// and `k` is the index of a terminator or the length of `s`.
pub open spec fn is_line_end(s: Seq<u8>, k: int) -> bool {
    &&& 0 <= k <= s.len()
    &&& forall|j: int| 0 <= j < k ==> s[j] != LINE_TERMINATOR
    &&& (k < s.len() ==> s[k] == LINE_TERMINATOR)
}

/// The index of the first terminator in `s`, or the length of `s` where it
/// holds none.
pub open spec fn line_end(s: Seq<u8>) -> int {
    choose|k: int| is_line_end(s, k)
}

/// The lines of `s`, in order.
pub open spec fn lines_of(s: Seq<u8>) -> Seq<Seq<u8>>
    decreases s.len(),
{
    if s.len() == 0 {
        Seq::empty()
    } else {
        let k = line_end(s);
        if 0 <= k < s.len() {
            seq![s.take(k)] + lines_of(s.skip(k + 1))
        } else {
            seq![s]
        }
    }
}

/// The last line of `s` has no terminator yet.
pub open spec fn ends_open(s: Seq<u8>) -> bool {
    s.len() > 0 && s.last() != LINE_TERMINATOR
}

/// The lines of `s` that a terminator closes.
pub open spec fn complete_lines(s: Seq<u8>) -> Seq<Seq<u8>> {
    if ends_open(s) {
        lines_of(s).drop_last()
    } else {
        lines_of(s)
    }
}

/// Nothing, or bytes that end in a terminator.
pub open spec fn is_terminated(s: Seq<u8>) -> bool {
    s.len() == 0 || s.last() == LINE_TERMINATOR
}

proof fn lemma_line_end_from(s: Seq<u8>, upto: int) -> (k: int)
    requires
        0 <= upto <= s.len(),
        forall|j: int| 0 <= j < upto ==> s[j] != LINE_TERMINATOR,
    ensures
        is_line_end(s, k),
    decreases s.len() - upto,
{
    if upto == s.len() || s[upto] == LINE_TERMINATOR {
        upto
    } else {
        lemma_line_end_from(s, upto + 1)
    }
}

/// Every stream has exactly one first line end.
pub proof fn lemma_line_end(s: Seq<u8>)
    ensures
        is_line_end(s, line_end(s)),
        forall|k: int| is_line_end(s, k) ==> k == line_end(s),
{
    let found = lemma_line_end_from(s, 0);
    assert(is_line_end(s, found));
    let e = line_end(s);
    assert forall|k: int| is_line_end(s, k) implies k == e by {
        if k < e {
            assert(s[k] == LINE_TERMINATOR);
        } else if e < k {
            assert(s[e] == LINE_TERMINATOR);
        }
    }
}

/// The first line of `head`, a terminator and `tail` is `head`, where `head`
/// holds no terminator; the other lines are those of `tail`.
pub proof fn lemma_lines_after_terminator(head: Seq<u8>, tail: Seq<u8>)
    requires
        !head.contains(LINE_TERMINATOR),
    ensures
        lines_of(head + seq![LINE_TERMINATOR] + tail) == seq![head] + lines_of(tail),
{
    let s = head + seq![LINE_TERMINATOR] + tail;
    let k = head.len() as int;
    assert forall|j: int| 0 <= j < k implies s[j] != LINE_TERMINATOR by {
        assert(s[j] == head[j]);
        assert(head.contains(head[j]));
    }
    assert(s[k] == LINE_TERMINATOR);
    assert(is_line_end(s, k));
    lemma_line_end(s);
    assert(s.take(k) =~= head);
    assert(s.skip(k + 1) =~= tail);
}

/// Bytes without a terminator are one line, or none where there are no
/// bytes.
pub proof fn lemma_lines_without_terminator(s: Seq<u8>)
    requires
        !s.contains(LINE_TERMINATOR),
    ensures
        lines_of(s) == if s.len() == 0 {
            Seq::<Seq<u8>>::empty()
        } else {
            seq![s]
        },
        complete_lines(s) == Seq::<Seq<u8>>::empty(),
{
    lemma_line_end(s);
    let k = line_end(s);
    if k < s.len() {
        assert(s.contains(s[k]));
    }
    if s.len() > 0 {
        assert(s.contains(s.last()));
        assert(seq![s].drop_last() =~= Seq::<Seq<u8>>::empty());
    }
}

/// Behind bytes that end in a terminator the lines start afresh.
pub proof fn lemma_lines_concat(p: Seq<u8>, r: Seq<u8>)
    requires
        is_terminated(p),
    ensures
        lines_of(p + r) == lines_of(p) + lines_of(r),
        complete_lines(p + r) == lines_of(p) + complete_lines(r),
    decreases p.len(),
{
    if p.len() == 0 {
        assert(p + r =~= r);
        assert(lines_of(p) + lines_of(r) =~= lines_of(r));
        assert(lines_of(p) + complete_lines(r) =~= complete_lines(r));
    } else {
        lemma_line_end(p);
        lemma_line_end(p + r);
        let k = line_end(p);
        assert(k < p.len());
        assert forall|j: int| 0 <= j < k implies (p + r)[j] != LINE_TERMINATOR by {
            assert((p + r)[j] == p[j]);
        }
        assert((p + r)[k] == p[k]);
        assert(is_line_end(p + r, k));
        let rest = p.skip(k + 1);
        assert((p + r).take(k) =~= p.take(k));
        assert((p + r).skip(k + 1) =~= rest + r);
        if rest.len() > 0 {
            assert(rest.last() == p.last());
        }
        lemma_lines_concat(rest, r);
        assert(lines_of(p) == seq![p.take(k)] + lines_of(rest));
        assert(lines_of(p + r) == seq![p.take(k)] + lines_of(rest + r));
        assert(lines_of(p + r) =~= lines_of(p) + lines_of(r));
        if r.len() == 0 {
            assert(p + r =~= p);
            assert(lines_of(p) + complete_lines(r) =~= lines_of(p));
        } else {
            assert((p + r).last() == r.last());
            lemma_lines_nonempty(r);
            assert((lines_of(p) + lines_of(r)).drop_last() =~= lines_of(p) + lines_of(
                r,
            ).drop_last());
        }
    }
}

/// There is a line exactly where there is a byte.
pub proof fn lemma_lines_nonempty(s: Seq<u8>)
    ensures
        lines_of(s).len() == 0 <==> s.len() == 0,
{
}

/// A terminator in `s` closes at least one line.
pub proof fn lemma_terminator_closes_line(s: Seq<u8>)
    requires
        s.contains(LINE_TERMINATOR),
    ensures
        complete_lines(s).len() >= 1,
        complete_lines(s)[0] == s.take(line_end(s)),
        0 <= line_end(s) < s.len(),
{
    lemma_line_end(s);
    let k = line_end(s);
    let at = choose|i: int| 0 <= i < s.len() && s[i] == LINE_TERMINATOR;
    assert(k <= at);
    let tail = s.skip(k + 1);
    lemma_lines_nonempty(tail);
    if ends_open(s) {
        assert(tail.len() > 0);
        assert(lines_of(s).drop_last()[0] == lines_of(s)[0]);
    }
}

/// Lines that a terminator has closed stay as they are, whatever bytes
/// follow.
pub proof fn lemma_complete_lines_stable(a: Seq<u8>, b: Seq<u8>)
    ensures
        complete_lines(a).is_prefix_of(complete_lines(a + b)),
        complete_lines(a).is_prefix_of(lines_of(a + b)),
    decreases a.len(),
{
    if !a.contains(LINE_TERMINATOR) {
        lemma_lines_without_terminator(a);
    } else {
        lemma_terminator_closes_line(a);
        lemma_line_end(a);
        let k = line_end(a);
        let head = a.take(k);
        let tail = a.skip(k + 1);
        assert(a =~= head + seq![LINE_TERMINATOR] + tail);
        assert(a + b =~= head + seq![LINE_TERMINATOR] + (tail + b));
        assert(!head.contains(LINE_TERMINATOR)) by {
            if head.contains(LINE_TERMINATOR) {
                let i = choose|i: int| 0 <= i < head.len() && head[i] == LINE_TERMINATOR;
                assert(a[i] == head[i]);
            }
        }
        let first = head + seq![LINE_TERMINATOR];
        assert(is_terminated(first)) by {
            assert(first.last() == LINE_TERMINATOR);
        }
        lemma_lines_after_terminator(head, Seq::<u8>::empty());
        assert(first + Seq::<u8>::empty() =~= first);
        assert(lines_of(first) =~= seq![head]);
        assert(a =~= first + tail);
        assert(a + b =~= first + (tail + b));
        lemma_lines_concat(first, tail);
        lemma_lines_concat(first, tail + b);
        lemma_complete_lines_stable(tail, b);
        let ca = complete_lines(tail);
        let cab = complete_lines(tail + b);
        let lab = lines_of(tail + b);
        assert((seq![head] + ca).is_prefix_of(seq![head] + cab)) by {
            assert((seq![head] + cab).subrange(0, (seq![head] + ca).len() as int) =~= seq![head]
                + ca);
        }
        assert((seq![head] + ca).is_prefix_of(seq![head] + lab)) by {
            assert((seq![head] + lab).subrange(0, (seq![head] + ca).len() as int) =~= seq![head]
                + ca);
        }
    }
}

/// The lines of `s` that can be handed out: all of them once the stream is
/// closed, before that only those that a terminator has closed.
pub open spec fn ready_lines(s: Seq<u8>, closed: bool) -> Seq<Seq<u8>> {
    if closed {
        lines_of(s)
    } else {
        complete_lines(s)
    }
}

/// Tells whether the binary marker occurs in `bytes`.
pub fn holds_marker(bytes: &[u8]) -> (r: bool)
    ensures
        r == is_binary(bytes@),
{
    let mut i: usize = 0;
    while i < bytes.len()
        invariant
            i <= bytes.len(),
            forall|j: int| 0 <= j < i ==> bytes@[j] != BINARY_MARKER,
        decreases bytes.len() - i,
    {
        if bytes[i] == BINARY_MARKER {
            return true;
        }
        i += 1;
    }
    false
}

/// A cursor over the lines of a stream that arrives in chunks.
///
/// The stream is what was fed so far. Each call of `next_line` hands out the
/// next line that is ready, in order and once. No line is handed out from a
/// stream that was found to be binary.
pub struct LineScanner {
    buf: Vec<u8>,
    pos: usize,
    scanned: usize,
    closed: bool,
    binary: bool,
    consumed: Ghost<Seq<u8>>,
    offset: Ghost<int>,
    emitted: Ghost<nat>,
}

impl LineScanner {
    /// All bytes fed so far.
    pub closed spec fn consumed(&self) -> Seq<u8> {
        self.consumed@
    }

    /// The number of lines handed out so far.
    pub closed spec fn emitted(&self) -> nat {
        self.emitted@
    }

    /// The end of the stream was announced.
    pub closed spec fn is_closed(&self) -> bool {
        self.closed
    }

    /// A further line can be handed out.
    pub open spec fn has_next(&self) -> bool {
        &&& !is_binary(self.consumed())
        &&& self.emitted() < ready_lines(self.consumed(), self.is_closed()).len()
    }

    spec fn done(&self) -> Seq<u8> {
        self.consumed@.take(self.offset@)
    }

    spec fn rest(&self) -> Seq<u8> {
        self.consumed@.skip(self.offset@)
    }

    /// The cursor is consistent: the bytes it keeps are those of the stream
    /// behind the lines it has handed out.
    pub closed spec fn wf(&self) -> bool {
        &&& self.pos <= self.scanned <= self.buf@.len()
        &&& self.binary == is_binary(self.consumed@)
        &&& 0 <= self.offset@ <= self.consumed@.len()
        &&& (is_terminated(self.done()) || (self.closed && self.offset@ == self.consumed@.len()))
        &&& self.emitted@ == lines_of(self.done()).len()
        &&& (!self.binary ==> self.buf@.skip(self.pos as int) == self.rest())
        &&& forall|j: int| self.pos <= j < self.scanned ==> self.buf@[j] != LINE_TERMINATOR
    }

    proof fn lemma_split(&self)
        requires
            self.wf(),
        ensures
            self.consumed@ == self.done() + self.rest(),
            lines_of(self.consumed@) == lines_of(self.done()) + lines_of(self.rest()),
            !self.closed ==> complete_lines(self.consumed@) == lines_of(self.done())
                + complete_lines(self.rest()),
    {
        assert(self.consumed@ =~= self.done() + self.rest());
        if is_terminated(self.done()) {
            lemma_lines_concat(self.done(), self.rest());
        } else {
            assert(self.done() =~= self.consumed@);
            assert(self.rest() =~= Seq::<u8>::empty());
            assert(lines_of(self.done()) + lines_of(self.rest()) =~= lines_of(self.done()));
        }
    }

    /// The lines handed out are the first of the lines that are ready.
    pub proof fn lemma_emitted_are_ready(&self)
        requires
            self.wf(),
        ensures
            self.emitted() <= ready_lines(self.consumed(), self.is_closed()).len(),
            self.emitted() <= lines_of(self.consumed()).len(),
    {
        self.lemma_split();
    }

    /// A cursor over the empty stream.
    pub fn new() -> (s: LineScanner)
        ensures
            s.wf(),
            s.consumed() == Seq::<u8>::empty(),
            s.emitted() == 0,
            !s.is_closed(),
    {
        let s = LineScanner {
            buf: Vec::new(),
            pos: 0,
            scanned: 0,
            closed: false,
            binary: false,
            consumed: Ghost(Seq::empty()),
            offset: Ghost(0),
            emitted: Ghost(0),
        };
        proof {
            assert(s.done() =~= Seq::<u8>::empty());
            assert(s.buf@.skip(0) =~= s.rest());
        }
        s
    }

    /// Tells whether the stream was found to be binary.
    pub fn found_binary(&self) -> (r: bool)
        requires
            self.wf(),
        ensures
            r == is_binary(self.consumed()),
    {
        self.binary
    }

    /// Adds `chunk` to the end of the stream. Bytes fed after `close` are
    /// dropped.
    pub fn feed(&mut self, chunk: &[u8])
        requires
            old(self).wf(),
        ensures
            final(self).wf(),
            final(self).consumed() == if old(self).is_closed() {
                old(self).consumed()
            } else {
                old(self).consumed() + chunk@
            },
            final(self).emitted() == old(self).emitted(),
            final(self).is_closed() == old(self).is_closed(),
    {
        if self.closed {
            return ;
        }
        let ghost before = self.consumed@;
        let ghost rest = self.rest();
        let ghost done = self.done();
        self.consumed = Ghost(before + chunk@);
        proof {
            assert(self.done() =~= done);
            assert(self.rest() =~= rest + chunk@);
            assert(is_binary(before + chunk@) == (is_binary(before) || is_binary(chunk@))) by {
                if is_binary(before) {
                    let i = choose|i: int| 0 <= i < before.len() && before[i] == BINARY_MARKER;
                    assert((before + chunk@)[i] == BINARY_MARKER);
                }
                if is_binary(chunk@) {
                    let i = choose|i: int| 0 <= i < chunk@.len() && chunk@[i] == BINARY_MARKER;
                    assert((before + chunk@)[before.len() + i] == BINARY_MARKER);
                }
                if is_binary(before + chunk@) {
                    let i = choose|i: int|
                        0 <= i < (before + chunk@).len() && (before + chunk@)[i] == BINARY_MARKER;
                    if i < before.len() {
                        assert(before[i] == BINARY_MARKER);
                    } else {
                        assert(chunk@[i - before.len()] == BINARY_MARKER);
                    }
                }
            }
        }
        if self.binary {
            return ;
        }
        if holds_marker(chunk) {
            self.binary = true;
            self.buf = Vec::new();
            self.pos = 0;
            self.scanned = 0;
            return ;
        }
        if self.pos > 0 {
            let ghost kept = self.buf@;
            let tail = self.buf.split_off(self.pos);
            self.buf = tail;
            self.scanned = self.scanned - self.pos;
            self.pos = 0;
            proof {
                assert(self.buf@ =~= kept.skip(old(self).pos as int));
                assert(self.buf@.skip(0) =~= self.buf@);
            }
        }
        let ghost kept = self.buf@;
        self.buf.extend_from_slice(chunk);
        proof {
            assert(self.buf@ =~= kept + chunk@);
            assert(kept.skip(0) =~= kept);
            assert(self.buf@.skip(0) =~= self.buf@);
        }
    }

    /// Announces the end of the stream: a last line without a terminator
    /// becomes ready.
    pub fn close(&mut self)
        requires
            old(self).wf(),
        ensures
            final(self).wf(),
            final(self).is_closed(),
            final(self).consumed() == old(self).consumed(),
            final(self).emitted() == old(self).emitted(),
    {
        self.closed = true;
    }

    /// Hands out the next line that is ready, without its terminator.
    pub fn next_line(&mut self) -> (r: Option<Vec<u8>>)
        requires
            old(self).wf(),
        ensures
            final(self).wf(),
            final(self).consumed() == old(self).consumed(),
            final(self).is_closed() == old(self).is_closed(),
            match r {
                Some(line) => {
                    &&& old(self).has_next()
                    &&& line@ == lines_of(old(self).consumed())[old(self).emitted() as int]
                    &&& final(self).emitted() == old(self).emitted() + 1
                },
                None => !old(self).has_next() && final(self).emitted() == old(self).emitted(),
            },
    {
        if self.binary {
            return None;
        }
        let mut k: usize = self.scanned;
        while k < self.buf.len() && self.buf[k] != LINE_TERMINATOR
            invariant
                self.pos <= k <= self.buf.len(),
                forall|j: int| self.pos <= j < k ==> self.buf@[j] != LINE_TERMINATOR,
            decreases self.buf.len() - k,
        {
            k += 1;
        }
        let ghost rest = self.rest();
        let ghost done = self.done();
        let ghost all = self.consumed@;
        proof {
            self.lemma_split();
            assert(rest.len() == self.buf@.len() - self.pos);
            assert forall|j: int| 0 <= j < k - self.pos implies rest[j] != LINE_TERMINATOR by {
                assert(rest[j] == self.buf@.skip(self.pos as int)[j]);
            }
        }
        if k < self.buf.len() {
            let line = vstd::slice::slice_to_vec(
                vstd::slice::slice_subrange(self.buf.as_slice(), self.pos, k),
            );
            let ghost n = (k - self.pos) as int;
            proof {
                assert(rest[n] == self.buf@.skip(self.pos as int)[n]);
                assert(is_line_end(rest, n));
                lemma_line_end(rest);
                let head = rest.take(n);
                assert(line@ =~= head);
                assert(rest.contains(rest[n]));
                lemma_terminator_closes_line(rest);
                assert(!head.contains(LINE_TERMINATOR)) by {
                    if head.contains(LINE_TERMINATOR) {
                        let i = choose|i: int| 0 <= i < head.len() && head[i] == LINE_TERMINATOR;
                        assert(rest[i] == head[i]);
                    }
                }
                let first = head + seq![LINE_TERMINATOR];
                lemma_lines_after_terminator(head, Seq::<u8>::empty());
                assert(first + Seq::<u8>::empty() =~= first);
                assert(lines_of(first) =~= seq![head]);
                assert(is_terminated(done));
                lemma_lines_concat(done, first);
                assert(all.take(self.offset@ + n + 1) =~= done + first);
                assert((done + first).last() == LINE_TERMINATOR);
                assert(all.skip(self.offset@ + n + 1) =~= self.buf@.skip(k + 1));
            }
            self.offset = Ghost(self.offset@ + n + 1);
            self.emitted = Ghost(self.emitted@ + 1);
            self.pos = k + 1;
            self.scanned = k + 1;
            Some(line)
        } else if self.closed && self.pos < self.buf.len() {
            let line = vstd::slice::slice_to_vec(
                vstd::slice::slice_subrange(self.buf.as_slice(), self.pos, self.buf.len()),
            );
            proof {
                assert(!rest.contains(LINE_TERMINATOR));
                lemma_lines_without_terminator(rest);
                assert(line@ =~= rest);
                assert(all.take(all.len() as int) =~= all);
                assert(all.skip(all.len() as int) =~= self.buf@.skip(self.buf@.len() as int));
            }
            self.offset = Ghost(all.len() as int);
            self.emitted = Ghost(self.emitted@ + 1);
            self.pos = self.buf.len();
            self.scanned = self.buf.len();
            Some(line)
        } else {
            self.scanned = k;
            proof {
                assert(!rest.contains(LINE_TERMINATOR));
                lemma_lines_without_terminator(rest);
            }
            None
        }
    }
}

} // verus!
