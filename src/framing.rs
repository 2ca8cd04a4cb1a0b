//! Newline framing: a receive buffer that yields every complete line and keeps
//! the partial one that follows.
use vstd::prelude::*;
use vstd::slice::slice_subrange;
use crate::json::{parse_line, parsed_json};

verus! {

#[verifier::external_type_specification]
#[verifier::external_body]
pub struct ExBytesMut(bytes::BytesMut);

/// The bytes that a `BytesMut` holds.
pub uninterp spec fn buffered(b: bytes::BytesMut) -> Seq<u8>;

/// Relies on bytes::BytesMut::with_capacity: a new buffer holds no bytes.
#[verifier::external_body]
fn new_buffer(capacity: usize) -> (r: bytes::BytesMut)
    ensures
        buffered(r) == Seq::<u8>::empty(),
{
    bytes::BytesMut::with_capacity(capacity)
}

/// Relies on bytes::BytesMut::extend_from_slice: the slice is appended.
#[verifier::external_body]
fn append_bytes(b: &mut bytes::BytesMut, data: &[u8])
    ensures
        buffered(*final(b)) == buffered(*old(b)) + data@,
{
    b.extend_from_slice(data)
}

/// Relies on `AsRef<[u8]>` for bytes::BytesMut: the slice of the bytes held.
#[verifier::external_body]
fn buffer_contents(b: &bytes::BytesMut) -> (r: &[u8])
    ensures
        r@ == buffered(*b),
{
    b.as_ref()
}

/// Relies on bytes::BytesMut::advance: the first `n` bytes are dropped; it
/// panics when `n` exceeds the length.
#[verifier::external_body]
fn advance_buffer(b: &mut bytes::BytesMut, n: usize)
    requires
        n <= buffered(*old(b)).len(),
    ensures
        buffered(*final(b)) == buffered(*old(b)).skip(n as int),
{
    b.advance(n)
}

/// The newline byte that ends each frame.
pub const NEWLINE: u8 = 10;

/// The pieces of `s` between newlines, as `split` gives them: one more piece
/// than `s` has newlines, the last one being what follows the final newline.
pub open spec fn segments(s: Seq<u8>) -> Seq<Seq<u8>>
    decreases s.len(),
{
    if s.len() == 0 {
        seq![Seq::<u8>::empty()]
    } else {
        let init = segments(s.drop_last());
        if s.last() == NEWLINE {
            init.push(Seq::<u8>::empty())
        } else {
            init.update(init.len() - 1, init.last().push(s.last()))
        }
    }
}

/// The lines of `s` whose newline has been seen, without that newline.
pub open spec fn complete_lines(s: Seq<u8>) -> Seq<Seq<u8>> {
    segments(s).drop_last()
}

/// What follows the last newline of `s`: a line not yet complete.
pub open spec fn partial_line(s: Seq<u8>) -> Seq<u8> {
    segments(s).last()
}

/// The messages that a run of lines decodes to: empty lines are skipped, and
/// lines that are not JSON are dropped.
pub open spec fn decode_lines(lines: Seq<Seq<u8>>) -> Seq<serde_json::Value>
    decreases lines.len(),
{
    if lines.len() == 0 {
        Seq::empty()
    } else {
        let l = lines.last();
        let init = decode_lines(lines.drop_last());
        if l.len() > 0 && parsed_json(l) is Some {
            init.push(parsed_json(l)->0)
        } else {
            init
        }
    }
}

pub open spec fn newline_free(s: Seq<u8>) -> bool {
    forall|i: int| 0 <= i < s.len() ==> s[i] != NEWLINE
}

pub proof fn lemma_segments_nonempty(s: Seq<u8>)
    ensures
        segments(s).len() >= 1,
    decreases s.len(),
{
    if s.len() > 0 {
        lemma_segments_nonempty(s.drop_last());
    }
}

/// What follows the last newline holds no newline.
pub proof fn lemma_partial_line_newline_free(s: Seq<u8>)
    ensures
        newline_free(partial_line(s)),
    decreases s.len(),
{
    if s.len() > 0 {
        lemma_partial_line_newline_free(s.drop_last());
        lemma_segments_nonempty(s.drop_last());
    }
}

/// A piece without newlines is one segment.
pub proof fn lemma_segments_of_newline_free(s: Seq<u8>)
    requires
        newline_free(s),
    ensures
        segments(s) == seq![s],
    decreases s.len(),
{
    if s.len() > 0 {
        let s0 = s.drop_last();
        assert(newline_free(s0));
        lemma_segments_of_newline_free(s0);
        assert(s0.push(s.last()) == s);
        assert(seq![s0].update(0, s0.push(s.last())) == seq![s]);
    } else {
        assert(s == Seq::<u8>::empty());
    }
}

/// Appending bytes only extends the last segment: the complete lines before
/// it stay as they are.
pub proof fn lemma_segments_append(a: Seq<u8>, b: Seq<u8>)
    ensures
        segments(a + b) == segments(a).drop_last() + segments(partial_line(a) + b),
    decreases b.len(),
{
    lemma_segments_nonempty(a);
    if b.len() == 0 {
        assert(a + b == a);
        assert(partial_line(a) + b == partial_line(a));
        lemma_partial_line_newline_free(a);
        lemma_segments_of_newline_free(partial_line(a));
        assert(segments(a) == segments(a).drop_last() + seq![partial_line(a)]);
    } else {
        let b0 = b.drop_last();
        lemma_segments_append(a, b0);
        assert((a + b).drop_last() == a + b0);
        assert((partial_line(a) + b).drop_last() == partial_line(a) + b0);
        lemma_segments_nonempty(partial_line(a) + b0);
        let d = segments(a).drop_last();
        let t = segments(partial_line(a) + b0);
        if b.last() == NEWLINE {
            assert(segments(a + b) == (d + t).push(Seq::<u8>::empty()));
            assert((d + t).push(Seq::<u8>::empty()) == d + t.push(Seq::<u8>::empty()));
        } else {
            let x = b.last();
            assert(segments(a + b) == (d + t).update(d.len() + t.len() - 1, t.last().push(x)));
            assert((d + t).update(d.len() + t.len() - 1, t.last().push(x)) == d + t.update(
                t.len() - 1,
                t.last().push(x),
            ));
        }
    }
}

pub proof fn lemma_decode_lines_concat(p: Seq<Seq<u8>>, q: Seq<Seq<u8>>)
    ensures
        decode_lines(p + q) == decode_lines(p) + decode_lines(q),
    decreases q.len(),
{
    if q.len() == 0 {
        assert(p + q == p);
    } else {
        lemma_decode_lines_concat(p, q.drop_last());
        assert((p + q).drop_last() == p + q.drop_last());
    }
}

/// Decoding is the same however the stream is cut into reads: the messages of
/// `a` followed by those of what was left of `a` together with `b` are the
/// messages of `a + b`, and the line left over is the same.
pub proof fn lemma_decode_split(a: Seq<u8>, b: Seq<u8>)
    ensures
        decode_lines(complete_lines(a + b)) == decode_lines(complete_lines(a)) + decode_lines(
            complete_lines(partial_line(a) + b),
        ),
        partial_line(a + b) == partial_line(partial_line(a) + b),
{
    lemma_segments_append(a, b);
    lemma_segments_nonempty(partial_line(a) + b);
    let d = segments(a).drop_last();
    let t = segments(partial_line(a) + b);
    assert((d + t).drop_last() == d + t.drop_last());
    lemma_decode_lines_concat(d, t.drop_last());
}

/// Chunks of a stream, one after another.
pub open spec fn concat_chunks(chunks: Seq<Seq<u8>>) -> Seq<u8>
    decreases chunks.len(),
{
    if chunks.len() == 0 {
        Seq::empty()
    } else {
        concat_chunks(chunks.drop_last()) + chunks.last()
    }
}

/// The messages that come out, and the bytes left pending, when a channel
/// that starts empty receives the chunks in turn and is read after each. A
/// read that finds nothing pending yields no message.
pub open spec fn read_in_chunks(chunks: Seq<Seq<u8>>) -> (Seq<serde_json::Value>, Seq<u8>)
    decreases chunks.len(),
{
    if chunks.len() == 0 {
        (Seq::empty(), Seq::empty())
    } else {
        let prev = read_in_chunks(chunks.drop_last());
        let s = prev.1 + chunks.last();
        (prev.0 + decode_lines(complete_lines(s)), partial_line(s))
    }
}

/// However a stream is cut into reads, the messages decoded over all of them
/// are those of the whole stream, in order, and the same bytes stay pending.
pub proof fn lemma_read_in_chunks(chunks: Seq<Seq<u8>>)
    ensures
        read_in_chunks(chunks).0 == decode_lines(complete_lines(concat_chunks(chunks))),
        read_in_chunks(chunks).1 == partial_line(concat_chunks(chunks)),
    decreases chunks.len(),
{
    if chunks.len() == 0 {
        assert(segments(Seq::<u8>::empty()) == seq![Seq::<u8>::empty()]);
        assert(complete_lines(Seq::<u8>::empty()) =~= Seq::<Seq<u8>>::empty());
    } else {
        lemma_read_in_chunks(chunks.drop_last());
        lemma_decode_split(concat_chunks(chunks.drop_last()), chunks.last());
    }
}

/// Two cuttings of the same stream into reads decode alike: reading it one
/// byte at a time gives what reading it at once gives.
pub proof fn lemma_chunking_independent(a: Seq<Seq<u8>>, b: Seq<Seq<u8>>)
    requires
        concat_chunks(a) == concat_chunks(b),
    ensures
        read_in_chunks(a) == read_in_chunks(b),
{
    lemma_read_in_chunks(a);
    lemma_read_in_chunks(b);
}

/// Lines written one after another, each followed by a newline.
pub open spec fn joined(lines: Seq<Seq<u8>>) -> Seq<u8>
    decreases lines.len(),
{
    if lines.len() == 0 {
        Seq::empty()
    } else {
        joined(lines.drop_last()) + lines.last().push(NEWLINE)
    }
}

/// Lines without newlines, written with a newline after each, are read back
/// as exactly those lines in order, with nothing left over.
pub proof fn lemma_joined_round_trip(lines: Seq<Seq<u8>>)
    requires
        forall|k: int| 0 <= k < lines.len() ==> newline_free(#[trigger] lines[k]),
    ensures
        complete_lines(joined(lines)) == lines,
        partial_line(joined(lines)) == Seq::<u8>::empty(),
    decreases lines.len(),
{
    if lines.len() == 0 {
        assert(segments(Seq::<u8>::empty()) == seq![Seq::<u8>::empty()]);
        assert(seq![Seq::<u8>::empty()].drop_last() == Seq::<Seq<u8>>::empty());
    } else {
        let init = lines.drop_last();
        let l = lines.last();
        assert forall|k: int| 0 <= k < init.len() implies newline_free(#[trigger] init[k]) by {
            assert(init[k] == lines[k]);
        }
        lemma_joined_round_trip(init);
        lemma_segments_append(joined(init), l.push(NEWLINE));
        assert(Seq::<u8>::empty() + l.push(NEWLINE) == l.push(NEWLINE));
        assert(newline_free(l));
        lemma_segments_of_newline_free(l);
        assert(l.push(NEWLINE).drop_last() == l);
        assert(segments(l.push(NEWLINE)) == seq![l, Seq::<u8>::empty()]);
        let d = complete_lines(joined(init));
        assert((d + seq![l, Seq::<u8>::empty()]).drop_last() == lines);
    }
}

/// The messages of lines that all decode are those lines' values in order.
pub proof fn lemma_decode_all_valid(lines: Seq<Seq<u8>>)
    requires
        forall|k: int|
            0 <= k < lines.len() ==> (#[trigger] lines[k]).len() > 0 && parsed_json(lines[k]) is Some,
    ensures
        decode_lines(lines) == lines.map_values(|l: Seq<u8>| parsed_json(l)->0),
    decreases lines.len(),
{
    if lines.len() > 0 {
        let init = lines.drop_last();
        assert forall|k: int| 0 <= k < init.len() implies (#[trigger] init[k]).len() > 0 && parsed_json(
            init[k],
        ) is Some by {
            assert(init[k] == lines[k]);
        }
        lemma_decode_all_valid(init);
        assert(lines.map_values(|l: Seq<u8>| parsed_json(l)->0) =~= init.map_values(
            |l: Seq<u8>| parsed_json(l)->0,
        ).push(parsed_json(lines.last())->0));
    } else {
        assert(lines.map_values(|l: Seq<u8>| parsed_json(l)->0) =~= Seq::<serde_json::Value>::empty());
    }
}

/// Messages written one per line come back as those messages, in order, and
/// nothing is left pending: for JSON lines without newlines, decoding their
/// newline-joined bytes gives each line's value.
pub proof fn lemma_framing_round_trip(lines: Seq<Seq<u8>>)
    requires
        forall|k: int|
            0 <= k < lines.len() ==> newline_free(#[trigger] lines[k]) && lines[k].len() > 0
                && parsed_json(lines[k]) is Some,
    ensures
        decode_lines(complete_lines(joined(lines))) == lines.map_values(
            |l: Seq<u8>| parsed_json(l)->0,
        ),
        partial_line(joined(lines)) == Seq::<u8>::empty(),
{
    lemma_joined_round_trip(lines);
    lemma_decode_all_valid(lines);
}

/// One connection's receive side: bytes come in as they are read, and whole
/// lines go out as JSON messages.
pub struct Channel {
    in_buffer: bytes::BytesMut,
}

/// The receive buffer ran dry: the peer has closed the connection.
#[derive(Debug, Clone, Copy, PartialEq, Eq)]
pub struct PeerClosed;

/// Initial room of a channel's receive buffer.
pub const INITIAL_CAPACITY: usize = 2048;

impl Channel {
    /// The bytes received and not yet decoded.
    pub closed spec fn pending(&self) -> Seq<u8> {
        buffered(self.in_buffer)
    }

    pub fn new() -> (r: Channel)
        ensures
            r.pending() == Seq::<u8>::empty(),
    {
        Channel { in_buffer: new_buffer(INITIAL_CAPACITY) }
    }

    /// Appends bytes read from the socket.
    pub fn receive(&mut self, data: &[u8])
        ensures
            final(self).pending() == old(self).pending() + data@,
    {
        append_bytes(&mut self.in_buffer, data);
    }

    /// Decodes every complete line received so far, in order, and keeps the
    /// partial line that follows them. An empty buffer means the peer closed.
    pub fn read(&mut self) -> (r: Result<Vec<serde_json::Value>, PeerClosed>)
        ensures
            old(self).pending().len() == 0 ==> r is Err && final(self).pending() == old(
                self,
            ).pending(),
            r is Err ==> decode_lines(complete_lines(old(self).pending())) == Seq::<
                serde_json::Value,
            >::empty() && final(self).pending() == partial_line(old(self).pending()),
            old(self).pending().len() > 0 ==> r is Ok && r->Ok_0@ == decode_lines(
                complete_lines(old(self).pending()),
            ) && final(self).pending() == partial_line(old(self).pending()),
            newline_free(final(self).pending()),
    {
        let buf = buffer_contents(&self.in_buffer);
        let n = buf.len();
        if n == 0 {
            proof {
                assert(newline_free(Seq::<u8>::empty()));
                assert(buf@ == Seq::<u8>::empty());
                assert(segments(Seq::<u8>::empty()) == seq![Seq::<u8>::empty()]);
                assert(complete_lines(Seq::<u8>::empty()) =~= Seq::<Seq<u8>>::empty());
            }
            return Err(PeerClosed);
        }
        let ghost s = buf@;
        let mut result: Vec<serde_json::Value> = Vec::new();
        let mut start: usize = 0;
        let mut i: usize = 0;
        assert(s.take(0) == Seq::<u8>::empty());
        while i < n
            invariant
                n == s.len(),
                buf@ == s,
                start <= i <= n,
                result@ == decode_lines(complete_lines(s.take(i as int))),
                partial_line(s.take(i as int)) == s.subrange(start as int, i as int),
            decreases n - i,
        {
            let ghost pre = s.take(i as int);
            proof {
                lemma_segments_nonempty(pre);
                assert(s.take(i + 1).drop_last() == pre);
                assert(s.take(i + 1).last() == s[i as int]);
            }
            if buf[i] == NEWLINE {
                if i > start {
                    let line = slice_subrange(buf, start, i);
                    let parsed = parse_line(line);
                    match parsed {
                        Some(v) => {
                            result.push(v);
                        },
                        None => {},
                    }
                }
                proof {
                    let segs = segments(pre);
                    assert(complete_lines(s.take(i + 1)) == segs);
                    assert(segs == complete_lines(pre).push(partial_line(pre)));
                    assert(complete_lines(s.take(i + 1)).drop_last() == complete_lines(pre));
                    assert(s.subrange((i + 1) as int, (i + 1) as int) == Seq::<u8>::empty());
                }
                start = i + 1;
            } else {
                proof {
                    let segs = segments(pre);
                    let segs2 = segments(s.take(i + 1));
                    assert(segs2.drop_last() == segs.drop_last());
                    assert(s.subrange(start as int, i + 1) == s.subrange(start as int, i as int).push(
                        s[i as int],
                    ));
                }
            }
            i = i + 1;
        }
        proof {
            assert(s.take(n as int) == s);
            lemma_partial_line_newline_free(s);
            assert(s.skip(start as int) == s.subrange(start as int, n as int));
        }
        advance_buffer(&mut self.in_buffer, start);
        Ok(result)
    }
}

} // verus!
