//! Byte-stuffing framing codec.
//!
//! A frame is the stuffed payload followed by one unescaped [`END`] byte.
//! Inside the payload the two reserved bytes are replaced by two-byte escape
//! sequences, so an `END` on the wire always marks a frame boundary.

use vstd::prelude::*;

verus! {

/// Frame terminator.
pub const END: u8 = 0xC0;

/// Escape introducer.
pub const ESC: u8 = 0xDB;

/// Second byte of the escape sequence that stands for [`END`].
pub const ESC_END: u8 = 0xDC;

/// Second byte of the escape sequence that stands for [`ESC`].
pub const ESC_ESC: u8 = 0xDD;

/// Wire bytes that stand for one payload byte.
pub open spec fn stuffed_byte(b: u8) -> Seq<u8> {
    if b == END {
        seq![ESC, ESC_END]
    } else if b == ESC {
        seq![ESC, ESC_ESC]
    } else {
        seq![b]
    }
}

/// Wire bytes that stand for a payload, without the terminator.
pub open spec fn stuffed(payload: Seq<u8>) -> Seq<u8>
    decreases payload.len(),
{
    if payload.len() == 0 {
        Seq::empty()
    } else {
        stuffed(payload.drop_last()) + stuffed_byte(payload.last())
    }
}

/// The complete frame of a payload: its stuffed bytes, then one [`END`].
pub open spec fn frame(payload: Seq<u8>) -> Seq<u8> {
    stuffed(payload).push(END)
}

/// Stuffing a payload one byte longer appends the stuffing of that byte.
pub proof fn lemma_stuffed_step(payload: Seq<u8>, i: int)
    requires
        0 <= i < payload.len(),
    ensures
        stuffed(payload.take(i + 1)) == stuffed(payload.take(i)) + stuffed_byte(payload[i]),
{
    assert(payload.take(i + 1).drop_last() =~= payload.take(i));
}

/// A prefix of a payload never stuffs to more bytes than the payload itself.
pub proof fn lemma_stuffed_prefix_len(payload: Seq<u8>, i: int)
    requires
        0 <= i <= payload.len(),
    ensures
        stuffed(payload.take(i)).len() <= stuffed(payload).len(),
    decreases payload.len() - i,
{
    if i == payload.len() {
        assert(payload.take(i) =~= payload);
    } else {
        lemma_stuffed_step(payload, i);
        lemma_stuffed_prefix_len(payload, i + 1);
    }
}

/// Stuffing at most doubles a payload, so a frame of `n` payload bytes
/// never exceeds `2 * n + 1` bytes and never has fewer than `n + 1`.
pub proof fn lemma_frame_len_bounds(payload: Seq<u8>)
    ensures
        payload.len() + 1 <= frame(payload).len() <= 2 * payload.len() + 1,
    decreases payload.len(),
{
    if payload.len() > 0 {
        lemma_frame_len_bounds(payload.drop_last());
    }
}

/// Bytes that one wire byte of a frame body decodes to. `escaped` says that
/// the byte before it was [`ESC`]. An escape introducer yields nothing by
/// itself, and a byte behind `ESC` that completes no escape sequence is
/// dropped.
pub open spec fn unstuffed_byte(escaped: bool, b: u8) -> Seq<u8> {
    if b == ESC {
        Seq::empty()
    } else if escaped {
        if b == ESC_END {
            seq![END]
        } else if b == ESC_ESC {
            seq![ESC]
        } else {
            Seq::empty()
        }
    } else {
        seq![b]
    }
}

/// Whether a scan that has just consumed `scanned` has an escape pending.
pub open spec fn escape_pending(scanned: Seq<u8>) -> bool {
    scanned.len() > 0 && scanned.last() == ESC
}

/// Payload bytes that a frame body decodes to.
pub open spec fn unstuffed(body: Seq<u8>) -> Seq<u8>
    decreases body.len(),
{
    if body.len() == 0 {
        Seq::empty()
    } else {
        unstuffed(body.drop_last()) + unstuffed_byte(
            escape_pending(body.drop_last()),
            body.last(),
        )
    }
}

/// Number of wire bytes in front of the first [`END`]; the length of `wire`
/// if it holds none.
pub open spec fn body_len(wire: Seq<u8>) -> nat
    decreases wire.len(),
{
    if wire.len() == 0 || wire.first() == END {
        0
    } else {
        1 + body_len(wire.drop_first())
    }
}

/// Whether `wire` holds a terminated frame.
pub open spec fn has_frame(wire: Seq<u8>) -> bool {
    body_len(wire) < wire.len()
}

/// The body of the first frame in `wire`: everything in front of the first
/// [`END`], or all of `wire` while no terminator has arrived.
pub open spec fn frame_body(wire: Seq<u8>) -> Seq<u8> {
    wire.take(body_len(wire) as int)
}

/// What follows the first frame's terminator in `wire`.
pub open spec fn after_frame(wire: Seq<u8>) -> Seq<u8> {
    wire.skip(body_len(wire) as int + 1)
}

/// `body_len` is the position of the first terminator.
pub proof fn lemma_body_len(wire: Seq<u8>)
    ensures
        body_len(wire) <= wire.len(),
        forall|j: int| 0 <= j < body_len(wire) ==> wire[j] != END,
        has_frame(wire) ==> wire[body_len(wire) as int] == END,
    decreases wire.len(),
{
    if wire.len() != 0 && wire.first() != END {
        let rest = wire.drop_first();
        lemma_body_len(rest);
        assert forall|j: int| 0 <= j < body_len(wire) implies wire[j] != END by {
            if j > 0 {
                assert(wire[j] == rest[j - 1]);
            }
        }
        if has_frame(wire) {
            assert(wire[body_len(wire) as int] == rest[body_len(rest) as int]);
        }
    }
}

/// Decoding a body one byte longer appends what that byte decodes to.
pub proof fn lemma_unstuffed_step(body: Seq<u8>, i: int)
    requires
        0 <= i < body.len(),
    ensures
        unstuffed(body.take(i + 1)) == unstuffed(body.take(i)) + unstuffed_byte(
            i > 0 && body[i - 1] == ESC,
            body[i],
        ),
{
    assert(body.take(i + 1).drop_last() =~= body.take(i));
}

/// A prefix of a body never decodes to more bytes than the body itself, and
/// a body never decodes to more bytes than it has.
pub proof fn lemma_unstuffed_prefix_len(body: Seq<u8>, i: int)
    requires
        0 <= i <= body.len(),
    ensures
        unstuffed(body.take(i)).len() <= unstuffed(body).len() <= body.len(),
    decreases body.len() - i,
{
    if i == body.len() {
        assert(body.take(i) =~= body);
        lemma_unstuffed_len(body);
    } else {
        lemma_unstuffed_step(body, i);
        lemma_unstuffed_prefix_len(body, i + 1);
    }
}

/// A body never decodes to more bytes than it has.
pub proof fn lemma_unstuffed_len(body: Seq<u8>)
    ensures
        unstuffed(body).len() <= body.len(),
    decreases body.len(),
{
    if body.len() > 0 {
        lemma_unstuffed_len(body.drop_last());
    }
}

/// A scan never decodes more bytes than are buffered, so an output buffer
/// as long as the buffered bytes, or as the decoder's capacity, always
/// suffices.
pub proof fn lemma_scan_len(wire: Seq<u8>)
    ensures
        unstuffed(frame_body(wire)).len() <= wire.len(),
{
    lemma_body_len(wire);
    lemma_unstuffed_len(frame_body(wire));
}

/// A terminated frame is buffered exactly when a terminator is.
pub proof fn lemma_has_frame_contains(wire: Seq<u8>)
    ensures
        has_frame(wire) <==> wire.contains(END),
{
    lemma_body_len(wire);
    if has_frame(wire) {
        assert(wire[body_len(wire) as int] == END);
    }
}

/// Whether a decoder of capacity `max_len` cannot take `wire` as its
/// buffered bytes: it is longer than the buffer, or fills it without a
/// terminator, so that the frame could never be completed.
pub open spec fn too_large(wire: Seq<u8>, max_len: usize) -> bool {
    wire.len() > max_len || (wire.len() == max_len && !has_frame(wire))
}

/// Encodes `input` as one frame at the start of `output` and returns the
/// frame's length. Bytes of `output` behind the frame are left as they were.
///
/// The frame has to fit: a buffer of `2 * input.len() + 1` bytes always
/// suffices (see [`lemma_frame_len_bounds`]).
pub fn encode_slip(input: &[u8], output: &mut [u8]) -> (len: usize)
    requires
        frame(input@).len() <= old(output)@.len(),
    ensures
        len == frame(input@).len(),
        final(output)@.len() == old(output)@.len(),
        final(output)@.take(len as int) == frame(input@),
        final(output)@.skip(len as int) == old(output)@.skip(len as int),
{
    let mut offset: usize = 0;
    let mut i: usize = 0;
    while i < input.len()
        invariant
            i <= input.len(),
            output@.len() == old(output)@.len(),
            frame(input@).len() <= output@.len(),
            offset == stuffed(input@.take(i as int)).len(),
            output@.take(offset as int) == stuffed(input@.take(i as int)),
            forall|j: int| offset <= j < output@.len() ==> output@[j] == old(output)@[j],
        decreases input.len() - i,
    {
        let byte = input[i];
        proof {
            lemma_stuffed_step(input@, i as int);
            lemma_stuffed_prefix_len(input@, i + 1);
        }
        if byte == END {
            output[offset] = ESC;
            offset += 1;
            output[offset] = ESC_END;
            offset += 1;
        } else if byte == ESC {
            output[offset] = ESC;
            offset += 1;
            output[offset] = ESC_ESC;
            offset += 1;
        } else {
            output[offset] = byte;
            offset += 1;
        }
        i += 1;
        assert(output@.take(offset as int) =~= stuffed(input@.take(i as int)));
    }
    assert(input@.take(i as int) =~= input@);
    output[offset] = END;
    offset += 1;
    assert(output@.take(offset as int) =~= frame(input@));
    assert(output@.skip(offset as int) =~= old(output)@.skip(offset as int));
    offset
}

/// The incoming bytes do not fit the decoder's buffer, or fill it before a
/// terminator has arrived.
#[derive(Debug, Clone, Copy, PartialEq, Eq, Structural)]
pub struct FrameTooLarge;

/// Whether the first `len` bytes of `bytes` hold a terminator.
fn holds_end(bytes: &[u8], len: usize) -> (found: bool)
    requires
        len <= bytes@.len(),
    ensures
        found == has_frame(bytes@.take(len as int)),
{
    let mut i: usize = 0;
    while i < len
        invariant
            i <= len <= bytes@.len(),
            forall|j: int| 0 <= j < i ==> bytes@[j] != END,
        decreases len - i,
    {
        if bytes[i] == END {
            proof {
                lemma_has_frame_contains(bytes@.take(len as int));
                assert(bytes@.take(len as int)[i as int] == END);
            }
            return true;
        }
        i += 1;
    }
    proof {
        lemma_has_frame_contains(bytes@.take(len as int));
    }
    false
}

/// Streaming decoder: holds the unconsumed tail of the incoming wire stream
/// in a buffer of `MAX_LEN` bytes and hands out one decoded frame per call.
pub struct SLIPDecoder<const MAX_LEN: usize> {
    buf: [u8; MAX_LEN],
    buf_index: usize,
}

impl<const MAX_LEN: usize> View for SLIPDecoder<MAX_LEN> {
    type V = Seq<u8>;

    /// The buffered wire bytes, oldest first.
    closed spec fn view(&self) -> Seq<u8> {
        self.buf@.take(self.buf_index as int)
    }
}

impl<const MAX_LEN: usize> SLIPDecoder<MAX_LEN> {
    #[verifier::type_invariant]
    spec fn within_capacity(self) -> bool {
        self.buf_index <= MAX_LEN
    }

    /// A decoder with nothing buffered.
    pub fn new() -> (decoder: Self)
        ensures
            decoder@ == Seq::<u8>::empty(),
    {
        SLIPDecoder { buf: [0u8;MAX_LEN], buf_index: 0 }
    }

    /// Number of buffered bytes.
    pub fn len(&self) -> (n: usize)
        ensures
            n == self@.len(),
            n <= MAX_LEN,
    {
        proof {
            use_type_invariant(self);
        }
        self.buf_index
    }

    /// Number of bytes that the buffer can still take.
    pub fn free(&self) -> (n: usize)
        ensures
            n == MAX_LEN - self@.len(),
    {
        proof {
            use_type_invariant(self);
        }
        MAX_LEN - self.buf_index
    }

    /// Discards everything buffered, to start afresh at the next frame
    /// boundary of the stream.
    pub fn clear(&mut self)
        ensures
            final(self)@ == Seq::<u8>::empty(),
    {
        self.buf_index = 0;
    }

    /// Takes `incoming`, the bytes just pulled from the source (possibly
    /// none), behind what is buffered, then decodes one frame as
    /// [`read_sync`](Self::read_sync) does.
    ///
    /// Bytes that would overflow the buffer, or fill it without completing a
    /// frame, are refused with [`FrameTooLarge`]; the decoder and `res` then
    /// stay as they were, and [`clear`](Self::clear) resynchronizes.
    pub fn read(&mut self, incoming: &[u8], res: &mut [u8]) -> (result: Result<
        usize,
        FrameTooLarge,
    >)
        requires
            !too_large(old(self)@ + incoming@, MAX_LEN) ==> unstuffed(
                frame_body(old(self)@ + incoming@),
            ).len() <= old(res)@.len(),
        ensures
            final(res)@.len() == old(res)@.len(),
            result is Err <==> too_large(old(self)@ + incoming@, MAX_LEN),
            result is Err ==> final(self)@ == old(self)@ && final(res)@ == old(res)@,
            result matches Ok(len) ==> ({
                let wire = old(self)@ + incoming@;
                let payload = unstuffed(frame_body(wire));
                &&& final(res)@.take(payload.len() as int) == payload
                &&& final(res)@.skip(payload.len() as int) == old(res)@.skip(payload.len() as int)
                &&& has_frame(wire) ==> len == payload.len() && final(self)@ == after_frame(wire)
                &&& !has_frame(wire) ==> len == 0 && final(self)@ == wire
            }),
    {
        proof {
            use_type_invariant(&*self);
            lemma_has_frame_contains(self@);
            lemma_has_frame_contains(incoming@);
            lemma_has_frame_contains(self@ + incoming@);
            assert(incoming@.take(incoming@.len() as int) =~= incoming@);
            assert forall|b: u8| (self@ + incoming@).contains(b) <==> self@.contains(b)
                || incoming@.contains(b) by {
                if self@.contains(b) {
                    let j = choose|j: int| 0 <= j < self@.len() && self@[j] == b;
                    assert((self@ + incoming@)[j] == b);
                }
                if incoming@.contains(b) {
                    let j = choose|j: int| 0 <= j < incoming@.len() && incoming@[j] == b;
                    assert((self@ + incoming@)[self@.len() + j] == b);
                }
            }
        }
        let free = MAX_LEN - self.buf_index;
        if incoming.len() > free {
            return Err(FrameTooLarge);
        }
        if incoming.len() == free && !holds_end(&self.buf, self.buf_index) && !holds_end(
            incoming,
            incoming.len(),
        ) {
            return Err(FrameTooLarge);
        }
        let ghost wire = self@ + incoming@;
        let mut k: usize = 0;
        while k < incoming.len()
            invariant
                k <= incoming@.len(),
                self.buf_index == old(self)@.len() + k,
                old(self)@.len() + incoming@.len() <= MAX_LEN,
                wire == old(self)@ + incoming@,
                self@ == wire.take(self.buf_index as int),
            decreases incoming.len() - k,
        {
            self.buf[self.buf_index] = incoming[k];
            self.buf_index += 1;
            k += 1;
            assert(self@ =~= wire.take(self.buf_index as int));
        }
        assert(self@ =~= wire);
        Ok(self.read_sync(res))
    }

    /// Scans the buffered bytes for one frame and decodes it into `res`.
    ///
    /// With a terminated frame buffered, the frame's payload is written to
    /// the start of `res`, its length is returned, and the frame with its
    /// terminator leaves the buffer; what was buffered behind it moves to the
    /// front. Without one, 0 is returned and the buffer stays as it is.
    /// Either way the scan writes what it decodes on its way to `res`, so
    /// `res` has to hold the decoding of everything in front of the first
    /// terminator; `res.len() >= MAX_LEN` always suffices (see
    /// [`lemma_scan_len`]). An empty frame also returns 0, but consumes its
    /// terminator.
    pub fn read_sync(&mut self, res: &mut [u8]) -> (len: usize)
        requires
            unstuffed(frame_body(old(self)@)).len() <= old(res)@.len(),
        ensures
            final(res)@.len() == old(res)@.len(),
            ({
                let wire = old(self)@;
                let payload = unstuffed(frame_body(wire));
                &&& final(res)@.take(payload.len() as int) == payload
                &&& final(res)@.skip(payload.len() as int) == old(res)@.skip(payload.len() as int)
                &&& has_frame(wire) ==> len == payload.len() && final(self)@ == after_frame(wire)
                &&& !has_frame(wire) ==> len == 0 && final(self)@ == wire
            }),
    {
        proof {
            use_type_invariant(&*self);
            lemma_body_len(self@);
        }
        let ghost wire = self@;
        let mut esc = false;
        let mut ended = false;
        let mut read_amount: usize = 0;
        let mut write_amount: usize = 0;
        let mut copy_i: usize = 0;
        let mut i: usize = 0;
        while i < self.buf_index
            invariant
                self.buf_index == wire.len() <= MAX_LEN,
                i <= self.buf_index,
                wire == old(self)@,
                res@.len() == old(res)@.len(),
                unstuffed(frame_body(wire)).len() <= res@.len(),
                write_amount <= res@.len(),
                forall|j: int| write_amount <= j < res@.len() ==> res@[j] == old(res)@[j],
                forall|j: int| i <= j < wire.len() ==> self.buf@[j] == wire[j],
                !ended ==> {
                    &&& read_amount == i
                    &&& copy_i == 0
                    &&& i <= body_len(wire)
                    &&& esc == escape_pending(wire.take(i as int))
                    &&& self.buf@.take(self.buf_index as int) == wire
                    &&& write_amount == unstuffed(wire.take(i as int)).len()
                    &&& res@.take(write_amount as int) == unstuffed(wire.take(i as int))
                },
                ended ==> {
                    &&& has_frame(wire)
                    &&& read_amount == body_len(wire) + 1
                    &&& read_amount <= i
                    &&& copy_i == i - read_amount
                    &&& write_amount == unstuffed(frame_body(wire)).len()
                    &&& res@.take(write_amount as int) == unstuffed(frame_body(wire))
                    &&& forall|j: int| 0 <= j < copy_i ==> self.buf@[j] == wire[read_amount + j]
                },
            decreases self.buf_index - i,
        {
            let byte = self.buf[i];
            assert(byte == wire[i as int]);
            if ended {
                self.buf[copy_i] = byte;
                copy_i += 1;
            } else {
                proof {
                    lemma_body_len(wire);
                    lemma_unstuffed_step(wire, i as int);
                    assert(wire.take(i as int + 1).last() == byte);
                }
                read_amount += 1;
                if byte == END {
                    ended = true;
                    assert(body_len(wire) == i);
                    assert(frame_body(wire) == wire.take(i as int));
                } else {
                    proof {
                        assert(i < body_len(wire));
                        assert(frame_body(wire).take(i as int + 1) =~= wire.take(i as int + 1));
                        lemma_unstuffed_prefix_len(frame_body(wire), i as int + 1);
                    }
                    if byte == ESC {
                        esc = true;
                    } else {
                        if esc {
                            esc = false;
                            if byte == ESC_END {
                                res[write_amount] = END;
                                write_amount += 1;
                            } else if byte == ESC_ESC {
                                res[write_amount] = ESC;
                                write_amount += 1;
                            }
                        } else {
                            res[write_amount] = byte;
                            write_amount += 1;
                        }
                    }
                    assert(res@.take(write_amount as int) =~= unstuffed(wire.take(i as int + 1)));
                    assert(self.buf@.take(self.buf_index as int) =~= wire);
                }
            }
            i += 1;
        }

        if ended {
            self.buf_index -= read_amount;
            assert(self@ =~= after_frame(wire));
            assert(res@.skip(write_amount as int) =~= old(res)@.skip(write_amount as int));
            write_amount
        } else {
            assert(wire.take(i as int) =~= wire);
            assert(frame_body(wire) =~= wire);
            assert(res@.skip(write_amount as int) =~= old(res)@.skip(write_amount as int));
            0
        }
    }
}

} // verus!
