//! What the framing codec guarantees across encoder and decoder: a frame
//! decodes to the payload it was made from, however it is cut into reads and
//! whatever is buffered behind it.

use crate::slip::{
    after_frame, body_len, escape_pending, frame, frame_body, has_frame, lemma_body_len,
    lemma_frame_len_bounds, stuffed, too_large, unstuffed, unstuffed_byte, END, ESC, ESC_END,
    ESC_ESC,
};
use vstd::prelude::*;

verus! {

/// Stuffed bytes hold no terminator and do not end in an escape introducer.
pub proof fn lemma_stuffed_wire(payload: Seq<u8>)
    ensures
        forall|j: int| 0 <= j < stuffed(payload).len() ==> stuffed(payload)[j] != END,
        !escape_pending(stuffed(payload)),
    decreases payload.len(),
{
    if payload.len() > 0 {
        lemma_stuffed_wire(payload.drop_last());
    }
}

/// Decoding a body with one more byte appends what that byte decodes to.
pub proof fn lemma_unstuffed_push(body: Seq<u8>, b: u8)
    ensures
        unstuffed(body.push(b)) == unstuffed(body) + unstuffed_byte(escape_pending(body), b),
{
    assert(body.push(b).drop_last() =~= body);
}

/// Unstuffing undoes stuffing.
pub proof fn lemma_unstuffed_stuffed(payload: Seq<u8>)
    ensures
        unstuffed(stuffed(payload)) == payload,
    decreases payload.len(),
{
    if payload.len() > 0 {
        let head = payload.drop_last();
        let b = payload.last();
        let wire = stuffed(head);
        lemma_unstuffed_stuffed(head);
        lemma_stuffed_wire(head);
        if b == END {
            lemma_unstuffed_push(wire, ESC);
            lemma_unstuffed_push(wire.push(ESC), ESC_END);
            assert(wire + seq![ESC, ESC_END] =~= wire.push(ESC).push(ESC_END));
        } else if b == ESC {
            lemma_unstuffed_push(wire, ESC);
            lemma_unstuffed_push(wire.push(ESC), ESC_ESC);
            assert(wire + seq![ESC, ESC_ESC] =~= wire.push(ESC).push(ESC_ESC));
        } else {
            lemma_unstuffed_push(wire, b);
            assert(wire + seq![b] =~= wire.push(b));
        }
        assert(unstuffed(stuffed(payload)) =~= head.push(b));
        assert(head.push(b) =~= payload);
    }
}

/// The first frame of a stream is found whatever follows it: with
/// `frame(payload)` at the front of the buffered bytes, the decoder sees a
/// terminated frame whose body decodes to `payload`, and `tail` is what
/// stays buffered.
pub proof fn lemma_first_frame(payload: Seq<u8>, tail: Seq<u8>)
    ensures
        has_frame(frame(payload) + tail),
        frame_body(frame(payload) + tail) == stuffed(payload),
        unstuffed(frame_body(frame(payload) + tail)) == payload,
        after_frame(frame(payload) + tail) == tail,
{
    let wire = frame(payload) + tail;
    let n = stuffed(payload).len() as int;
    lemma_stuffed_wire(payload);
    lemma_unstuffed_stuffed(payload);
    lemma_body_len(wire);
    assert(wire[n] == END);
    assert forall|j: int| 0 <= j < n implies wire[j] != END by {
        assert(wire[j] == stuffed(payload)[j]);
    }
    assert(body_len(wire) == n);
    assert(frame_body(wire) =~= stuffed(payload));
    assert(after_frame(wire) =~= tail);
}

/// A frame cut short holds no terminator: the decoder reports nothing and
/// keeps every byte.
pub proof fn lemma_partial_frame(payload: Seq<u8>, k: int)
    requires
        0 <= k < frame(payload).len(),
    ensures
        !has_frame(frame(payload).take(k)),
{
    let partial = frame(payload).take(k);
    lemma_stuffed_wire(payload);
    lemma_body_len(partial);
    if has_frame(partial) {
        let n = body_len(partial) as int;
        assert(partial[n] == stuffed(payload)[n]);
    }
}

/// Round trip: a decoder of capacity `max_len` with nothing buffered takes
/// the frame of any payload of at most `(max_len - 1) / 2` bytes, decodes
/// it to that payload, and is left with nothing buffered.
pub proof fn lemma_round_trip(payload: Seq<u8>, max_len: usize)
    requires
        payload.len() <= (max_len - 1) / 2,
    ensures
        !too_large(Seq::<u8>::empty() + frame(payload), max_len),
        has_frame(Seq::<u8>::empty() + frame(payload)),
        unstuffed(frame_body(Seq::<u8>::empty() + frame(payload))) == payload,
        after_frame(Seq::<u8>::empty() + frame(payload)) == Seq::<u8>::empty(),
{
    lemma_frame_len_bounds(payload);
    lemma_first_frame(payload, Seq::empty());
    assert(Seq::<u8>::empty() + frame(payload) =~= frame(payload) + Seq::<u8>::empty());
}

/// Compaction: with the start of a second frame buffered behind a complete
/// first one, decoding yields the first payload and leaves exactly that
/// start buffered; it holds no frame yet, and once the rest of the second
/// frame has arrived behind it, the second payload is decoded and nothing
/// is left.
pub proof fn lemma_compaction(first: Seq<u8>, second: Seq<u8>, k: int)
    requires
        0 <= k < frame(second).len(),
    ensures
        ({
            let partial = frame(second).take(k);
            let rest = frame(second).skip(k);
            &&& has_frame(frame(first) + partial)
            &&& unstuffed(frame_body(frame(first) + partial)) == first
            &&& after_frame(frame(first) + partial) == partial
            &&& !has_frame(partial)
            &&& has_frame(partial + rest)
            &&& unstuffed(frame_body(partial + rest)) == second
            &&& after_frame(partial + rest) == Seq::<u8>::empty()
        }),
{
    let partial = frame(second).take(k);
    let rest = frame(second).skip(k);
    lemma_first_frame(first, partial);
    lemma_partial_frame(second, k);
    lemma_first_frame(second, Seq::empty());
    assert(partial + rest =~= frame(second) + Seq::<u8>::empty());
}

/// The chunks of a stream, put end to end.
pub open spec fn joined(chunks: Seq<Seq<u8>>) -> Seq<u8>
    decreases chunks.len(),
{
    if chunks.len() == 0 {
        Seq::empty()
    } else {
        joined(chunks.drop_last()) + chunks.last()
    }
}

/// What a decoder holds after a read that found `wire` buffered.
pub open spec fn kept(wire: Seq<u8>) -> Seq<u8> {
    if has_frame(wire) {
        after_frame(wire)
    } else {
        wire
    }
}

/// What a decoder that held `buffered` holds after one read for each of
/// `chunks`, each read taking its chunk and decoding at most one frame.
pub open spec fn kept_after(buffered: Seq<u8>, chunks: Seq<Seq<u8>>) -> Seq<u8>
    decreases chunks.len(),
{
    if chunks.len() == 0 {
        buffered
    } else {
        kept(kept_after(buffered, chunks.drop_last()) + chunks.last())
    }
}

/// The first `n` chunks put end to end are the start of all of them.
pub proof fn lemma_joined_prefix(chunks: Seq<Seq<u8>>, n: int)
    requires
        0 <= n <= chunks.len(),
    ensures
        joined(chunks.take(n)).len() <= joined(chunks).len(),
        joined(chunks.take(n)) == joined(chunks).take(joined(chunks.take(n)).len() as int),
    decreases chunks.len() - n,
{
    if n == chunks.len() {
        assert(chunks.take(n) =~= chunks);
        assert(joined(chunks) =~= joined(chunks).take(joined(chunks).len() as int));
    } else {
        lemma_joined_prefix(chunks, n + 1);
        assert(chunks.take(n + 1).drop_last() =~= chunks.take(n));
        assert(joined(chunks.take(n)) =~= joined(chunks).take(
            joined(chunks.take(n)).len() as int,
        ));
    }
}

/// Resumability: let a frame arrive cut into any chunks, one read per
/// chunk, at a decoder of sufficient capacity with nothing buffered. While
/// the terminator has not been supplied, no read finds a frame (each
/// returns 0) and all bytes supplied so far stay buffered. The read that
/// supplies the terminator finds the whole frame buffered and decodes it to
/// the payload, as if the frame had arrived in one piece, and leaves
/// nothing.
pub proof fn lemma_chunked_frame(payload: Seq<u8>, chunks: Seq<Seq<u8>>, max_len: usize, n: int)
    requires
        joined(chunks) == frame(payload),
        frame(payload).len() <= max_len,
        0 <= n <= chunks.len(),
    ensures
        joined(chunks.take(n)).len() < frame(payload).len() ==> {
            &&& !too_large(joined(chunks.take(n)), max_len)
            &&& !has_frame(joined(chunks.take(n)))
            &&& kept_after(Seq::empty(), chunks.take(n)) == joined(chunks.take(n))
        },
        n > 0 && joined(chunks.take(n - 1)).len() < frame(payload).len() <= joined(
            chunks.take(n),
        ).len() ==> {
            let wire = kept_after(Seq::empty(), chunks.take(n - 1)) + chunks[n - 1];
            &&& wire == frame(payload)
            &&& !too_large(wire, max_len)
            &&& has_frame(wire)
            &&& unstuffed(frame_body(wire)) == payload
            &&& kept_after(Seq::empty(), chunks.take(n)) == Seq::<u8>::empty()
        },
    decreases n,
{
    let sofar = joined(chunks.take(n));
    lemma_joined_prefix(chunks, n);
    lemma_first_frame(payload, Seq::empty());
    assert(frame(payload) + Seq::<u8>::empty() =~= frame(payload));
    if n > 0 {
        lemma_chunked_frame(payload, chunks, max_len, n - 1);
        assert(chunks.take(n).drop_last() =~= chunks.take(n - 1));
        assert(chunks.take(n).last() == chunks[n - 1]);
        let before = joined(chunks.take(n - 1));
        assert(sofar == before + chunks[n - 1]);
        if sofar.len() < frame(payload).len() {
            lemma_partial_frame(payload, sofar.len() as int);
        } else if before.len() < frame(payload).len() {
            assert(sofar =~= frame(payload));
        }
    } else {
        assert(chunks.take(0) =~= Seq::<Seq<u8>>::empty());
        lemma_partial_frame(payload, 0);
        assert(frame(payload).take(0) =~= Seq::<u8>::empty());
    }
}

} // verus!
