//! Cutting the device's byte stream into lines.
//!
//! A line ends with a line feed, with a carriage return, or with a carriage
//! return followed by a line feed. A carriage return that is the last byte
//! seen so far decides nothing yet: the byte after it tells whether the line
//! end is one byte long or two. Lines longer than `LINE_LEN` are dropped
//! whole. The framer keeps at most `LINE_LEN + 1` bytes between two reads,
//! and never holds more than `LINE_LEN + CHUNK_LEN`, however long the lines
//! and however large or small the reads.

use crate::buffers::{
    buf_as_slice, buf_clear, buf_contents, buf_extend_from_slice, buf_freeze, buf_len,
    buf_split_to, buf_with_capacity, bytes_contents, bytes_len,
};
use bytes::{Bytes, BytesMut};
use vstd::prelude::*;

verus! {

/// The longest line that is handed on.
pub const LINE_LEN: usize = 1024;

/// The most that one read asks for.
pub const CHUNK_LEN: usize = 4096;

pub const LINE_FEED: u8 = 0x0a;

pub const CARRIAGE_RETURN: u8 = 0x0d;

/// Whether a byte belongs to a line end.
pub open spec fn is_line_end(b: u8) -> bool {
    b == LINE_FEED || b == CARRIAGE_RETURN
}

/// The number of bytes at the front of `s` before the first line-end byte.
pub open spec fn content_len(s: Seq<u8>) -> int
    decreases s.len(),
{
    if s.len() == 0 || is_line_end(s[0]) {
        0
    } else {
        1 + content_len(s.skip(1))
    }
}

/// The length of the line end that follows the first `content_len(s)` bytes:
/// 0 when there is none, or when it is a carriage return at the very end
/// of `s`, which the next byte may still make part of a two-byte line end.
pub open spec fn line_end_len(s: Seq<u8>) -> int {
    let n = content_len(s);
    if n >= s.len() {
        0
    } else if s[n] == LINE_FEED {
        1
    } else if n + 1 >= s.len() {
        0
    } else if s[n + 1] == LINE_FEED {
        2
    } else {
        1
    }
}

/// Whether `s` starts with a complete line.
pub open spec fn has_line(s: Seq<u8>) -> bool {
    line_end_len(s) > 0
}

/// The first line of `s`, without its line end.
pub open spec fn first_line(s: Seq<u8>) -> Seq<u8> {
    s.take(content_len(s))
}

/// What follows the first line of `s` and its line end.
pub open spec fn after_line(s: Seq<u8>) -> Seq<u8> {
    s.skip(content_len(s) + line_end_len(s))
}

/// The complete lines of `s`, in order.
pub open spec fn lines(s: Seq<u8>) -> Seq<Seq<u8>>
    decreases s.len(),
    via lines_decreases
{
    if has_line(s) {
        seq![first_line(s)] + lines(after_line(s))
    } else {
        Seq::empty()
    }
}

#[via_fn]
proof fn lines_decreases(s: Seq<u8>) {
    lemma_content_len(s);
}

/// What is left of `s` after its complete lines: the start of a line that
/// has not ended yet.
pub open spec fn remainder(s: Seq<u8>) -> Seq<u8>
    decreases s.len(),
    via remainder_decreases
{
    if has_line(s) {
        remainder(after_line(s))
    } else {
        s
    }
}

#[via_fn]
proof fn remainder_decreases(s: Seq<u8>) {
    lemma_content_len(s);
}

/// The complete lines of `s` that are short enough to be handed on, in order.
pub open spec fn delivered(s: Seq<u8>) -> Seq<Seq<u8>> {
    lines(s).filter(|line: Seq<u8>| line.len() <= LINE_LEN)
}

/// `content_len` stops at the first line-end byte, or at the end.
pub proof fn lemma_content_len(s: Seq<u8>)
    ensures
        0 <= content_len(s) <= s.len(),
        forall|i: int| 0 <= i < content_len(s) ==> !is_line_end(#[trigger] s[i]),
        content_len(s) < s.len() ==> is_line_end(s[content_len(s)]),
    decreases s.len(),
{
    if s.len() == 0 || is_line_end(s[0]) {
    } else {
        let t = s.skip(1);
        lemma_content_len(t);
        assert forall|i: int| 0 <= i < content_len(s) implies !is_line_end(#[trigger] s[i]) by {
            if i > 0 {
                assert(s[i] == t[i - 1]);
            }
        }
        assert(content_len(s) < s.len() ==> s[content_len(s)] == t[content_len(t)]);
    }
}

/// A position with no line-end byte before it, and one at it or the end of
/// `s`, is `content_len(s)`.
pub proof fn lemma_content_len_is(s: Seq<u8>, n: int)
    requires
        0 <= n <= s.len(),
        forall|i: int| 0 <= i < n ==> !is_line_end(#[trigger] s[i]),
        n == s.len() || is_line_end(s[n]),
    ensures
        content_len(s) == n,
{
    lemma_content_len(s);
    let c = content_len(s);
    if c < n {
        assert(!is_line_end(s[c]));
    } else if c > n {
        assert(!is_line_end(s[n]));
    }
}


/// A complete first line stays what it is when more bytes arrive.
pub proof fn lemma_line_is_stable(s: Seq<u8>, t: Seq<u8>)
    requires
        has_line(s),
    ensures
        has_line(s + t),
        first_line(s + t) == first_line(s),
        after_line(s + t) == after_line(s) + t,
{
    lemma_content_len(s);
    let n = content_len(s);
    let st = s + t;
    assert forall|i: int| 0 <= i < n implies !is_line_end(#[trigger] st[i]) by {
        assert(st[i] == s[i]);
    }
    assert(st[n] == s[n]);
    lemma_content_len_is(st, n);
    if n + 1 < s.len() {
        assert(st[n + 1] == s[n + 1]);
    }
    assert(line_end_len(st) == line_end_len(s));
    assert(first_line(st) =~= first_line(s));
    assert(after_line(st) =~= after_line(s) + t);
}

/// Takes the first complete line off the front of the buffer, with its line
/// end, and gives the line without it. Where the buffer holds no complete
/// line it is left as it is.
pub fn split_line(buf: &mut BytesMut) -> (r: Option<Bytes>)
    ensures
        match r {
            Some(line) => has_line(buf_contents(*old(buf))) && bytes_contents(line) == first_line(
                buf_contents(*old(buf)),
            ) && buf_contents(*final(buf)) == after_line(buf_contents(*old(buf))),
            None => !has_line(buf_contents(*old(buf))) && buf_contents(*final(buf))
                == buf_contents(*old(buf)),
        },
{
    let ghost s = buf_contents(*buf);
    let view = buf_as_slice(buf);
    let len = view.len();
    let mut n: usize = 0;
    while n < len && view[n] != LINE_FEED && view[n] != CARRIAGE_RETURN
        invariant
            n <= len == view@.len(),
            forall|i: int| 0 <= i < n ==> !is_line_end(#[trigger] view@[i]),
        decreases len - n,
    {
        n += 1;
    }
    proof {
        lemma_content_len_is(s, n as int);
    }
    let m: usize = if n >= len {
        0
    } else if view[n] == LINE_FEED {
        1
    } else if n + 1 >= len {
        0
    } else if view[n + 1] == LINE_FEED {
        2
    } else {
        1
    };
    assert(m == line_end_len(s));
    if m == 0 {
        return None;
    }
    let line = buf_split_to(buf, n);
    let _ = buf_split_to(buf, m);
    assert(buf_contents(*buf) =~= after_line(s));
    Some(buf_freeze(line))
}


/// The contents of a list of lines.
pub open spec fn contents_of(lines: Seq<Bytes>) -> Seq<Seq<u8>> {
    lines.map_values(|line: Bytes| bytes_contents(line))
}

/// What is left after the complete lines holds no complete line.
pub proof fn lemma_remainder_has_no_line(s: Seq<u8>)
    ensures
        !has_line(remainder(s)),
        remainder(remainder(s)) == remainder(s),
    decreases s.len(),
{
    if has_line(s) {
        lemma_content_len(s);
        lemma_remainder_has_no_line(after_line(s));
    }
}

/// Reading `s` and then `t` gives the lines of `s`, then the lines of what
/// `s` left unfinished followed by `t`; and leaves unfinished what that
/// leaves unfinished.
pub proof fn lemma_lines_append(s: Seq<u8>, t: Seq<u8>)
    ensures
        lines(s + t) == lines(s) + lines(remainder(s) + t),
        delivered(s + t) == delivered(s) + delivered(remainder(s) + t),
        remainder(s + t) == remainder(remainder(s) + t),
    decreases s.len(),
{
    let short = |line: Seq<u8>| line.len() <= LINE_LEN;
    if has_line(s) {
        lemma_content_len(s);
        lemma_line_is_stable(s, t);
        let rest = after_line(s);
        lemma_lines_append(rest, t);
        assert(lines(s + t) =~= seq![first_line(s)] + lines(rest + t));
        assert(lines(s + t) =~= lines(s) + lines(remainder(s) + t));
    } else {
        assert(lines(s) + lines(s + t) =~= lines(s + t));
    }
    Seq::filter_distributes_over_add(lines(s), lines(remainder(s) + t), short);
}


/// Of a stream that starts with a complete line, that line is handed on if
/// it is short enough, and then what the rest of the stream gives.
pub proof fn lemma_delivered_step(s: Seq<u8>)
    requires
        has_line(s),
    ensures
        delivered(s) == if first_line(s).len() <= LINE_LEN {
            seq![first_line(s)] + delivered(after_line(s))
        } else {
            delivered(after_line(s))
        },
{
    let short = |line: Seq<u8>| line.len() <= LINE_LEN;
    let one = seq![first_line(s)];
    Seq::filter_distributes_over_add(one, lines(after_line(s)), short);
    assert(one.filter(short) =~= if short(first_line(s)) {
        one
    } else {
        Seq::empty()
    }) by {
        reveal_with_fuel(Seq::filter, 2);
        assert(one.drop_last() =~= Seq::<Seq<u8>>::empty());
    }
    assert(Seq::<Seq<u8>>::empty() + delivered(after_line(s)) =~= delivered(after_line(s)));
}

/// Takes every complete line off the front of the buffer, in order, and adds
/// those of at most `LINE_LEN` bytes to `out`. The buffer keeps the start of
/// the line that has not ended yet.
pub fn emit_lines(buf: &mut BytesMut, out: &mut Vec<Bytes>)
    ensures
        buf_contents(*final(buf)) == remainder(buf_contents(*old(buf))),
        contents_of(final(out)@) == contents_of(old(out)@) + delivered(buf_contents(*old(buf))),
{
    assert(contents_of(out@) + Seq::<Seq<u8>>::empty() =~= contents_of(out@));
    loop
        invariant
            remainder(buf_contents(*buf)) == remainder(buf_contents(*old(buf))),
            contents_of(out@) + delivered(buf_contents(*buf)) == contents_of(old(out)@)
                + delivered(buf_contents(*old(buf))),
        ensures
            buf_contents(*buf) == remainder(buf_contents(*old(buf))),
            contents_of(out@) == contents_of(old(out)@) + delivered(buf_contents(*old(buf))),
        decreases buf_contents(*buf).len(),
    {
        let ghost cur = buf_contents(*buf);
        let ghost had = contents_of(out@);
        proof {
            lemma_content_len(cur);
        }
        match split_line(buf) {
            Some(line) => {
                proof {
                    lemma_delivered_step(cur);
                }
                if bytes_len(&line) <= LINE_LEN {
                    out.push(line);
                    assert(contents_of(out@) =~= had.push(first_line(cur)));
                    assert(had.push(first_line(cur)) + delivered(after_line(cur)) =~= had + (
                    seq![first_line(cur)] + delivered(after_line(cur))));
                }
            },
            None => {
                assert(lines(cur) =~= Seq::<Seq<u8>>::empty());
                assert(delivered(cur) =~= Seq::<Seq<u8>>::empty());
                assert(had + delivered(cur) =~= had);
                break ;
            },
        }
    }
}


/// Why reading lines came to an end.
#[derive(PartialEq, Eq, Debug, Clone, Copy, Structural)]
pub enum ReadError {
    /// A read returned no bytes: the stream is over.
    UnexpectedEof,
}

/// Adds what one read returned to the buffer. A read that returned nothing
/// means that the stream is over.
pub fn read_more(buf: &mut BytesMut, fresh: &[u8]) -> (r: Result<(), ReadError>)
    requires
        buf_contents(*old(buf)).len() + fresh@.len() <= isize::MAX,
    ensures
        buf_contents(*final(buf)) == buf_contents(*old(buf)) + fresh@,
        r == if fresh@.len() > 0 {
            Ok::<(), ReadError>(())
        } else {
            Err::<(), ReadError>(ReadError::UnexpectedEof)
        },
{
    buf_extend_from_slice(buf, fresh);
    if fresh.len() > 0 {
        Ok(())
    } else {
        Err(ReadError::UnexpectedEof)
    }
}

/// What holds no complete line is the start of a line, and perhaps a
/// carriage return after it that the next byte has yet to decide.
pub proof fn lemma_unfinished(s: Seq<u8>)
    requires
        !has_line(s),
    ensures
        content_len(s) == s.len() || (content_len(s) == s.len() - 1 && s.last()
            == CARRIAGE_RETURN),
{
    lemma_content_len(s);
}

/// Takes the start of an unfinished line out of the buffer and tells how
/// long it was. A carriage return at the end of the buffer stays.
fn discard_unfinished(buf: &mut BytesMut) -> (count: usize)
    requires
        !has_line(buf_contents(*old(buf))),
    ensures
        count == content_len(buf_contents(*old(buf))),
        buf_contents(*final(buf)) == buf_contents(*old(buf)).skip(count as int),
{
    let ghost s = buf_contents(*buf);
    proof {
        lemma_unfinished(s);
        lemma_content_len(s);
    }
    let len = buf_len(buf);
    if len > 0 && buf_as_slice(buf)[len - 1] == CARRIAGE_RETURN {
        let _ = buf_split_to(buf, len - 1);
        len - 1
    } else {
        buf_clear(buf);
        assert(s.skip(len as int) =~= Seq::<u8>::empty());
        len
    }
}

/// Goes on dropping a line that is too long: adds what one read returned to
/// a buffer that holds nothing of the line but perhaps a carriage return
/// after it, and looks for the line's end. Tells whether the end was found.
/// If so, the buffer keeps what follows it; if not, the buffer keeps nothing
/// but, again, a carriage return at its end.
pub fn drop_long_line(buf: &mut BytesMut, fresh: &[u8]) -> (ended: bool)
    requires
        buf_contents(*old(buf)).len() + fresh@.len() <= isize::MAX,
    ensures
        ended == has_line(buf_contents(*old(buf)) + fresh@),
        buf_contents(*final(buf)) == if ended {
            after_line(buf_contents(*old(buf)) + fresh@)
        } else {
            (buf_contents(*old(buf)) + fresh@).skip(
                content_len(buf_contents(*old(buf)) + fresh@),
            )
        },
{
    let _ = read_more(buf, fresh);
    match split_line(buf) {
        Some(_) => true,
        None => {
            let _ = discard_unfinished(buf);
            false
        },
    }
}

/// Bytes without a line end in front of a stream only make its first line
/// longer.
pub proof fn lemma_line_start(head: Seq<u8>, s: Seq<u8>)
    requires
        content_len(head) == head.len(),
    ensures
        content_len(head + s) == head.len() + content_len(s),
        line_end_len(head + s) == line_end_len(s),
        has_line(head + s) == has_line(s),
        first_line(head + s) == head + first_line(s),
        has_line(s) ==> after_line(head + s) == after_line(s),
{
    lemma_content_len(head);
    lemma_content_len(s);
    let hs = head + s;
    let n = head.len() + content_len(s);
    assert forall|i: int| 0 <= i < n implies !is_line_end(#[trigger] hs[i]) by {
        if i < head.len() {
            assert(hs[i] == head[i]);
        } else {
            assert(hs[i] == s[i - head.len()]);
        }
    }
    if n < hs.len() {
        assert(hs[n] == s[content_len(s)]);
    }
    lemma_content_len_is(hs, n);
    if n + 1 < hs.len() {
        assert(hs[n + 1] == s[content_len(s) + 1]);
    }
    assert(first_line(hs) =~= head + first_line(s));
    if has_line(s) {
        assert(after_line(hs) =~= after_line(s));
    }
}

/// A line that is too long gives nothing: after it, the stream is read as
/// if it began there.
pub proof fn lemma_long_line_is_dropped(head: Seq<u8>, s: Seq<u8>)
    requires
        content_len(head) == head.len(),
        head.len() + content_len(s) > LINE_LEN,
    ensures
        has_line(s) ==> delivered(head + s) == delivered(after_line(s)) && remainder(head + s)
            == remainder(after_line(s)),
        !has_line(s) ==> delivered(head + s) == Seq::<Seq<u8>>::empty() && remainder(head + s)
            == head + s,
{
    lemma_line_start(head, s);
    lemma_content_len(s);
    if has_line(s) {
        lemma_delivered_step(head + s);
    } else {
        assert(lines(head + s) =~= Seq::<Seq<u8>>::empty());
    }
}


/// The state of line reading between two reads.
pub struct Framer {
    /// What is kept of the stream read so far.
    buf: BytesMut,
    /// Whether the line being read is already known to be too long.
    dropping: bool,
    /// The bytes of that line that were thrown away.
    dropped: Ghost<Seq<u8>>,
}

impl Framer {
    /// The start of the line that has not ended yet: everything read since
    /// the last line end.
    pub closed spec fn pending(&self) -> Seq<u8> {
        self.dropped@ + buf_contents(self.buf)
    }

    /// Whether the line being read is already known to be too long.
    pub closed spec fn dropping(&self) -> bool {
        self.dropping
    }

    /// The number of bytes kept.
    pub closed spec fn buffered(&self) -> nat {
        buf_contents(self.buf).len()
    }

    /// What holds between two reads: no complete line is waiting, and of a
    /// line that is too long nothing is kept.
    pub closed spec fn wf(&self) -> bool {
        &&& !has_line(self.pending())
        &&& self.dropping == (content_len(self.pending()) > LINE_LEN)
        &&& self.dropped@.len() == if self.dropping {
            content_len(self.pending())
        } else {
            0
        }
    }

    /// Between two reads at most `LINE_LEN + 1` bytes are kept, and while a
    /// long line is being dropped at most one.
    pub proof fn lemma_bounded(&self)
        requires
            self.wf(),
        ensures
            self.buffered() <= LINE_LEN + 1,
            self.dropping() ==> self.buffered() <= 1,
            self.dropping() == (content_len(self.pending()) > LINE_LEN),
            !has_line(self.pending()),
    {
        lemma_unfinished(self.pending());
    }

    /// A framer that has read nothing yet.
    pub fn new() -> (framer: Framer)
        ensures
            framer.wf(),
            framer.pending() == Seq::<u8>::empty(),
            !framer.dropping(),
    {
        let framer = Framer {
            buf: buf_with_capacity(LINE_LEN + CHUNK_LEN),
            dropping: false,
            dropped: Ghost(Seq::empty()),
        };
        assert(framer.pending() =~= Seq::<u8>::empty());
        framer
    }

    /// The number of bytes kept.
    pub fn buffered_len(&self) -> (n: usize)
        ensures
            n == self.buffered(),
    {
        buf_len(&self.buf)
    }

    /// Whether the line being read is already known to be too long.
    pub fn is_dropping(&self) -> (d: bool)
        ensures
            d == self.dropping(),
    {
        self.dropping
    }

    /// Takes in as much of what a read returned as the buffer has room for.
    fn accept(&mut self, fresh: &[u8], out: &mut Vec<Bytes>)
        requires
            old(self).wf(),
            old(self).buffered() + fresh@.len() <= LINE_LEN + CHUNK_LEN,
        ensures
            final(self).wf(),
            final(self).pending() == remainder(old(self).pending() + fresh@),
            contents_of(final(out)@) == contents_of(old(out)@) + delivered(
                old(self).pending() + fresh@,
            ),
    {
        let ghost before = self.pending();
        let ghost head = self.dropped@;
        let ghost held = buf_contents(self.buf);
        let ghost had = contents_of(out@);
        proof {
            self.lemma_bounded();
            lemma_content_len(before);
            lemma_content_len(head);
            lemma_content_len(held + fresh@);
            assert(before + fresh@ =~= head + (held + fresh@));
            assert(had + Seq::<Seq<u8>>::empty() =~= had);
            if self.dropping {
                assert(head =~= before.take(head.len() as int));
                lemma_content_len_is(head, head.len() as int);
                lemma_long_line_is_dropped(head, held + fresh@);
            } else {
                assert(head =~= Seq::<u8>::empty());
                assert(before + fresh@ =~= held + fresh@);
            }
        }
        if self.dropping {
            if !drop_long_line(&mut self.buf, fresh) {
                proof {
                    let s = held + fresh@;
                    lemma_content_len(s);
                    lemma_line_start(head, s);
                    self.dropped = Ghost(head + s.take(content_len(s)));
                    assert(self.pending() =~= head + s);
                }
                return ;
            }
            self.dropping = false;
            proof {
                self.dropped = Ghost(Seq::empty());
            }
        } else {
            let _ = read_more(&mut self.buf, fresh);
        }
        let ghost whole = buf_contents(self.buf);
        assert(whole.len() <= LINE_LEN + CHUNK_LEN) by {
            lemma_content_len(held + fresh@);
        }
        emit_lines(&mut self.buf, out);
        let ghost rest = buf_contents(self.buf);
        proof {
            lemma_remainder_has_no_line(whole);
            assert(self.pending() =~= rest);
            lemma_unfinished(rest);
            lemma_content_len(rest);
        }
        let len = buf_len(&self.buf);
        if len > LINE_LEN + 1 || (len == LINE_LEN + 1 && buf_as_slice(&self.buf)[len - 1]
            != CARRIAGE_RETURN) {
            let _ = discard_unfinished(&mut self.buf);
            self.dropping = true;
            proof {
                self.dropped = Ghost(rest.take(content_len(rest)));
                assert(self.pending() =~= rest);
            }
        }
    }

    /// Takes in what one read returned and gives the lines that this read
    /// completed, in order, without the ones longer than `LINE_LEN`. A read
    /// that returned nothing is the end of the stream.
    pub fn feed(&mut self, fresh: &[u8]) -> (r: Result<Vec<Bytes>, ReadError>)
        requires
            old(self).wf(),
        ensures
            final(self).wf(),
            final(self).pending() == remainder(old(self).pending() + fresh@),
            final(self).buffered() <= LINE_LEN + 1,
            match r {
                Ok(found) => fresh@.len() > 0 && contents_of(found@) == delivered(
                    old(self).pending() + fresh@,
                ),
                Err(end) => fresh@.len() == 0 && end == ReadError::UnexpectedEof,
            },
    {
        let ghost before = self.pending();
        proof {
            self.lemma_bounded();
            assert(before + fresh@.take(0) =~= before);
            assert(lines(before) =~= Seq::<Seq<u8>>::empty());
        }
        if fresh.len() == 0 {
            assert(before + fresh@ =~= before);
            return Err(ReadError::UnexpectedEof);
        }
        let mut out: Vec<Bytes> = Vec::new();
        let mut at: usize = 0;
        while at < fresh.len()
            invariant
                self.wf(),
                at <= fresh@.len(),
                self.pending() == remainder(before + fresh@.take(at as int)),
                contents_of(out@) == delivered(before + fresh@.take(at as int)),
            decreases fresh@.len() - at,
        {
            proof {
                self.lemma_bounded();
            }
            let room: usize = LINE_LEN + CHUNK_LEN - buf_len(&self.buf);
            let end: usize = if fresh.len() - at > room {
                at + room
            } else {
                fresh.len()
            };
            let piece = vstd::slice::slice_subrange(fresh, at, end);
            proof {
                let seen = before + fresh@.take(at as int);
                lemma_lines_append(seen, piece@);
                assert(seen + piece@ =~= before + fresh@.take(end as int));
            }
            self.accept(piece, &mut out);
            at = end;
        }
        proof {
            assert(fresh@.take(at as int) =~= fresh@);
            self.lemma_bounded();
        }
        Ok(out)
    }
}


/// No line that is handed on is longer than `LINE_LEN`.
pub proof fn lemma_delivered_are_short(s: Seq<u8>)
    ensures
        forall|i: int| 0 <= i < delivered(s).len() ==> (#[trigger] delivered(s)[i]).len() <= LINE_LEN,
{
    let short = |line: Seq<u8>| line.len() <= LINE_LEN;
    assert forall|i: int| 0 <= i < delivered(s).len() implies (#[trigger] delivered(s)[i]).len()
        <= LINE_LEN by {
        lines(s).lemma_filter_pred(short, i);
    }
}

/// Two reads give what one read of both gives: after the bytes `seen`,
/// reading `a` and then `b` hands on the same lines, and leaves the same
/// line unfinished, as reading `a + b` at once.
pub proof fn lemma_two_reads(seen: Seq<u8>, a: Seq<u8>, b: Seq<u8>)
    ensures
        delivered(seen + (a + b)) == delivered(seen + a) + delivered(remainder(seen + a) + b),
        remainder(seen + (a + b)) == remainder(remainder(seen + a) + b),
{
    lemma_lines_append(seen + a, b);
    assert(seen + (a + b) =~= (seen + a) + b);
}

/// The number of reads before the first one that returned nothing.
pub open spec fn reads_before_end(reads: Seq<Vec<u8>>) -> int
    decreases reads.len(),
{
    if reads.len() == 0 || reads[0]@.len() == 0 {
        0
    } else {
        1 + reads_before_end(reads.skip(1))
    }
}

/// The bytes of the first `count` reads, one after the other.
pub open spec fn joined(reads: Seq<Vec<u8>>, count: int) -> Seq<u8>
    decreases count,
{
    if count <= 0 {
        Seq::empty()
    } else {
        joined(reads, count - 1) + reads[count - 1]@
    }
}

/// The stream that a run of reads stands for: what was read before the
/// stream ended.
pub open spec fn stream_of(reads: Seq<Vec<u8>>) -> Seq<u8> {
    joined(reads, reads_before_end(reads))
}

/// `reads_before_end` stops at the first read that returned nothing, or when
/// the reads give out.
pub proof fn lemma_reads_before_end(reads: Seq<Vec<u8>>, count: int)
    requires
        0 <= count <= reads.len(),
        forall|i: int| 0 <= i < count ==> (#[trigger] reads[i])@.len() > 0,
        count == reads.len() || reads[count]@.len() == 0,
    ensures
        reads_before_end(reads) == count,
    decreases reads.len(),
{
    if reads.len() == 0 || reads[0]@.len() == 0 {
    } else {
        let rest = reads.skip(1);
        assert forall|i: int| 0 <= i < count - 1 implies (#[trigger] rest[i])@.len() > 0 by {
            assert(rest[i] == reads[i + 1]);
        }
        lemma_reads_before_end(rest, count - 1);
    }
}

/// Reads lines from what successive reads returned, and adds each complete
/// line of at most `LINE_LEN` bytes to `out`, in the order of the stream. A
/// read that returned nothing ends the stream: what follows it is not looked
/// at, and a line that had not ended is lost. Gives `Ok` when the reads gave
/// out before the stream ended.
pub fn read_lines(reads: &Vec<Vec<u8>>, out: &mut Vec<Bytes>) -> (r: Result<(), ReadError>)
    ensures
        contents_of(final(out)@) == contents_of(old(out)@) + delivered(stream_of(reads@)),
        r == if reads_before_end(reads@) < reads@.len() {
            Err::<(), ReadError>(ReadError::UnexpectedEof)
        } else {
            Ok::<(), ReadError>(())
        },
{
    let mut framer = Framer::new();
    let mut i: usize = 0;
    assert(lines(Seq::<u8>::empty()) =~= Seq::<Seq<u8>>::empty());
    assert(contents_of(out@) + Seq::<Seq<u8>>::empty() =~= contents_of(out@));
    while i < reads.len()
        invariant
            framer.wf(),
            i <= reads@.len(),
            forall|j: int| 0 <= j < i ==> (#[trigger] reads@[j])@.len() > 0,
            framer.pending() == remainder(joined(reads@, i as int)),
            contents_of(out@) == contents_of(old(out)@) + delivered(joined(reads@, i as int)),
        decreases reads@.len() - i,
    {
        let ghost seen = joined(reads@, i as int);
        let ghost had = contents_of(out@);
        match framer.feed(reads[i].as_slice()) {
            Ok(mut found) => {
                proof {
                    lemma_lines_append(seen, reads@[i as int]@);
                    assert(contents_of(out@ + found@) =~= had + contents_of(found@));
                    assert(had + contents_of(found@) =~= contents_of(old(out)@) + (delivered(seen)
                        + delivered(remainder(seen) + reads@[i as int]@)));
                }
                out.append(&mut found);
            },
            Err(end) => {
                proof {
                    lemma_reads_before_end(reads@, i as int);
                }
                return Err(end);
            },
        }
        i += 1;
    }
    proof {
        lemma_reads_before_end(reads@, i as int);
    }
    Ok(())
}

} // verus!
