//! The messages of the lobby protocol and how they lie in the byte stream.
//!
//! A direction of the protocol opens with one lone byte. After it come
//! frames: a big-endian length of four bytes, then that many bytes. Those
//! open with two bytes and a major opcode of four bytes, big-endian; where
//! the major opcode is `0x20` a minor opcode of four bytes follows,
//! little-endian here. The bytes after the opcodes are the message body.

use crate::bytes::{be_at, be_bytes, le_at, lemma_bytes_of_u8, Bytes};
use crate::stream_model::{
    handle_all, handle_times, lemma_duplicates_change_nothing, lemma_extent_of_wf,
    lemma_order_does_not_matter, pairwise_disjoint, ChunkInfo, Datagram, StreamState,
};
use vstd::prelude::*;

verus! {

/// The direction of a message that no connection has stamped yet.
pub const DIR_UNKNOWN: u8 = 0xff;

/// The direction of a message from the client side to the server side.
pub const DIR_AB: u8 = 0;

/// The direction of a message from the server side to the client side.
pub const DIR_BA: u8 = 1;

/// The major opcode whose frames carry a minor opcode.
pub const MAJOR_WITH_MINOR: u32 = 0x20;

/// What is known of a message besides its body.
#[derive(Clone, Copy, Debug, PartialEq, Eq, Structural)]
pub struct MessageHeader {
    pub major: u8,
    pub minor: u8,
    /// [`DIR_AB`], [`DIR_BA`] or [`DIR_UNKNOWN`].
    pub dir: u8,
    /// The highest position of the opposite stream that the datagrams of
    /// this message acknowledged.
    pub ack: u32,
    /// The length of the body.
    pub len: u32,
}

/// One message of the lobby protocol.
#[derive(Debug)]
pub struct Message {
    pub header: MessageHeader,
    pub body: Vec<u8>,
}

/// A message as a value: its header and the bytes of its body.
pub struct MessageView {
    pub header: MessageHeader,
    pub body: Seq<u8>,
}

impl View for Message {
    type V = MessageView;

    open spec fn view(&self) -> MessageView {
        MessageView { header: self.header, body: self.body@ }
    }
}

impl MessageView {
    /// The same message with its direction set to `dir`.
    pub open spec fn stamped(self, dir: u8) -> MessageView {
        MessageView {
            header: MessageHeader {
                major: self.header.major,
                minor: self.header.minor,
                dir,
                ack: self.header.ack,
                len: self.header.len,
            },
            body: self.body,
        }
    }
}

/// The twelve bytes that stand for a message header in a log: major,
/// minor, direction, a zero byte, then acknowledgement and length, both
/// big-endian.
pub open spec fn header_bytes(h: MessageHeader) -> Seq<u8> {
    seq![h.major, h.minor, h.dir, 0u8] + be_bytes(h.ack as nat, 4) + be_bytes(h.len as nat, 4)
}

impl MessageHeader {
    /// The twelve bytes that stand for the header in a log.
    pub fn as_bytes(&self) -> (r: [u8; 12])
        ensures
            r@ == header_bytes(*self),
    {
        let mut v: Vec<u8> = Vec::new();
        let mut k: usize = 0;
        while k < 12
            invariant
                k <= 12,
                v@ == Seq::new(k as nat, |j: int| 0u8),
            decreases 12 - k,
        {
            v.push(0);
            k = k + 1;
            assert(v@ =~= Seq::new(k as nat, |j: int| 0u8));
        }
        let s = v.as_mut_slice();
        s.put_u8_be(0, self.major);
        s.put_u8_be(1, self.minor);
        s.put_u8_be(2, self.dir);
        s.put_u32_be(4, self.ack);
        s.put_u32_be(8, self.len);
        proof {
            lemma_bytes_of_u8(self.major);
            lemma_bytes_of_u8(self.minor);
            lemma_bytes_of_u8(self.dir);
        }
        assert(s@ =~= header_bytes(*self));
        let mut buf: [u8; 12] = [0u8; 12];
        let mut i: usize = 0;
        while i < 12
            invariant
                i <= 12,
                v@.len() == 12,
                forall|j: int| 0 <= j < i ==> buf@[j] == v@[j],
            decreases 12 - i,
        {
            buf[i] = v[i];
            i = i + 1;
        }
        assert(buf@ =~= v@);
        buf
    }
}

/// The length that the frame at the head of `buf` gives itself.
pub open spec fn frame_len(buf: Seq<u8>) -> nat {
    be_at(buf, 0, 4)
}

/// The number of bytes that the frame at the head of `buf` takes up, its
/// length prefix included.
pub open spec fn frame_total(buf: Seq<u8>) -> nat {
    4 + frame_len(buf)
}

/// The ten bytes after the length prefix, so far as the frame holds them;
/// what it does not hold is zero.
pub open spec fn raw_header(buf: Seq<u8>) -> Seq<u8> {
    Seq::new(
        10,
        |j: int|
            if j < frame_len(buf) {
                buf[4 + j]
            } else {
                0u8
            },
    )
}

/// The major opcode of the frame at the head of `buf`, as 32 bits.
pub open spec fn frame_major(buf: Seq<u8>) -> nat {
    be_at(raw_header(buf), 2, 4)
}

/// The minor opcode of the frame at the head of `buf`, as 32 bits: zero
/// where the major opcode has none.
pub open spec fn frame_minor(buf: Seq<u8>) -> nat {
    if frame_major(buf) == MAJOR_WITH_MINOR {
        le_at(raw_header(buf), 6, 4)
    } else {
        0
    }
}

/// Where the body of the frame at the head of `buf` begins.
pub open spec fn frame_body_start(buf: Seq<u8>) -> nat {
    if frame_major(buf) == MAJOR_WITH_MINOR {
        14
    } else {
        10
    }
}

/// The body of the frame at the head of `buf`: what the frame holds after
/// its opcodes, and nothing where the frame ends before them.
pub open spec fn frame_body(buf: Seq<u8>) -> Seq<u8> {
    if frame_body_start(buf) <= frame_total(buf) {
        buf.subrange(frame_body_start(buf) as int, frame_total(buf) as int)
    } else {
        Seq::empty()
    }
}

/// Taking the bytes before `end` looks at the chunk at `k`: it begins
/// before `end`, and no chunk before it reaches past `end`.
pub open spec fn swept(chunks: Map<nat, ChunkInfo>, end: nat, k: nat) -> bool {
    &&& chunks.contains_key(k)
    &&& k < end
    &&& forall|j: nat| #[trigger] chunks.contains_key(j) && j < k ==> j + chunks[j].len <= end
}

/// Taking the bytes before `end` drops the chunk at `k`: it is looked at
/// and does not reach past `end`.
pub open spec fn dropped(chunks: Map<nat, ChunkInfo>, end: nat, k: nat) -> bool {
    swept(chunks, end, k) && k + chunks[k].len <= end
}

/// `ack` is the highest acknowledgement among the chunks that taking the
/// bytes before `end` looks at, and zero where it looks at none.
pub open spec fn is_swept_ack(chunks: Map<nat, ChunkInfo>, end: nat, ack: nat) -> bool {
    &&& forall|k: nat| #[trigger] swept(chunks, end, k) ==> chunks[k].ack <= ack
    &&& ack == 0 || exists|k: nat| #[trigger] swept(chunks, end, k) && chunks[k].ack == ack
}

/// The chunks that are left when the bytes before `end` have been taken.
pub open spec fn after_sweep(chunks: Map<nat, ChunkInfo>, end: nat) -> Map<nat, ChunkInfo> {
    Map::new(|k: nat| chunks.contains_key(k) && !dropped(chunks, end, k), |k: nat| chunks[k])
}

impl StreamState {
    /// The lone byte that opens the stream is there to be handed out.
    pub open spec fn has_prologue(self) -> bool {
        self.start == 0 && self.avail() >= 1
    }

    /// A whole frame is there to be handed out.
    pub open spec fn has_frame(self) -> bool {
        &&& !self.has_prologue()
        &&& self.avail() >= 4
        &&& self.avail() >= frame_total(self.buf)
    }

    /// The state after the lone byte that opens the stream has been
    /// handed out.
    pub open spec fn after_prologue(self) -> StreamState {
        StreamState { start: 1, buf: self.buf.subrange(1, self.buf.len() as int), ..self }
    }

    /// The state after the frame at the head has been handed out: the
    /// start has moved on by the length of the frame.
    pub open spec fn after_frame(self) -> StreamState {
        StreamState {
            start: self.start + frame_total(self.buf),
            buf: self.buf.subrange(frame_total(self.buf) as int, self.buf.len() as int),
            chunks: after_sweep(self.chunks, self.start + frame_total(self.buf)),
            sync: self.sync,
        }
    }
}

/// The highest acknowledgement among the chunks that taking the bytes
/// before `end` looks at, and zero where it looks at none.
pub open spec fn swept_ack(chunks: Map<nat, ChunkInfo>, end: nat) -> nat {
    choose|a: nat| is_swept_ack(chunks, end, a)
}

impl StreamState {
    /// A message is there to be handed out.
    pub open spec fn ready(self) -> bool {
        self.has_prologue() || self.has_frame()
    }

    /// The message that is handed out next, where one is ready: the lone
    /// byte that opens the stream, or the frame at the head of the buffer.
    /// Opcodes are cut to their low eight bits.
    pub open spec fn next_message(self) -> MessageView {
        if self.has_prologue() {
            MessageView {
                header: MessageHeader { major: 0, minor: 0, dir: DIR_UNKNOWN, ack: 0, len: 1 },
                body: seq![self.buf[0]],
            }
        } else {
            MessageView {
                header: MessageHeader {
                    major: (frame_major(self.buf) % 256) as u8,
                    minor: (frame_minor(self.buf) % 256) as u8,
                    dir: DIR_UNKNOWN,
                    ack: swept_ack(self.chunks, self.start + frame_total(self.buf)) as u32,
                    len: frame_body(self.buf).len() as u32,
                },
                body: frame_body(self.buf),
            }
        }
    }

    /// The state after the next message has been handed out, and the same
    /// state where none is ready.
    pub open spec fn after_next(self) -> StreamState {
        if self.has_prologue() {
            self.after_prologue()
        } else if self.has_frame() {
            self.after_frame()
        } else {
            self
        }
    }

    /// The state when every message that is ready has been handed out.
    pub open spec fn drained(self) -> StreamState
        decreases self.buf.len(),
        when self.wf()
    {
        if self.ready() {
            proof {
                lemma_after_next(self);
            }
            self.after_next().drained()
        } else {
            self
        }
    }

    /// The frame that is handed out next has an opcode above 255, which
    /// a message cannot carry in full.
    pub open spec fn next_is_wide(self) -> bool {
        self.has_frame() && (frame_major(self.buf) > 255 || frame_minor(self.buf) > 255)
    }

    /// The opcodes, in full, of those frames with an opcode above 255
    /// that are handed out until no message is ready, in order: the major
    /// and the minor opcode of each.
    pub open spec fn wide(self) -> Seq<(nat, nat)>
        decreases self.buf.len(),
        when self.wf()
    {
        if self.ready() {
            proof {
                lemma_after_next(self);
            }
            (if self.next_is_wide() {
                seq![(frame_major(self.buf), frame_minor(self.buf))]
            } else {
                Seq::empty()
            }) + self.after_next().wide()
        } else {
            Seq::empty()
        }
    }

    /// The messages that are handed out until none is ready, in order.
    pub open spec fn pending(self) -> Seq<MessageView>
        decreases self.buf.len(),
        when self.wf()
    {
        if self.ready() {
            proof {
                lemma_after_next(self);
            }
            seq![self.next_message()] + self.after_next().pending()
        } else {
            Seq::empty()
        }
    }
}

/// Handing out a message keeps the state well-formed, takes bytes from the
/// head of the buffer, and moves the start on by exactly their number.
pub proof fn lemma_after_next(s: StreamState)
    requires
        s.wf(),
        s.ready(),
    ensures
        s.after_next().wf(),
        s.after_next().buf.len() < s.buf.len(),
        s.after_next().start == s.start + (s.buf.len() - s.after_next().buf.len()),
        s.after_next().buf == s.buf.subrange(
            s.buf.len() - s.after_next().buf.len(),
            s.buf.len() as int,
        ),
{
    if s.has_prologue() {
        lemma_after_prologue_wf(s);
    } else {
        lemma_after_frame_wf(s);
    }
}

/// A datagram that arrives any number of times in a row, at least once,
/// leads to the messages that it leads to when it arrives once.
pub proof fn lemma_duplicates_same_messages(s: StreamState, d: Datagram, n: nat)
    requires
        n >= 1,
    ensures
        handle_times(s, d, n).pending() == s.handle(d).pending(),
        handle_times(s, d, n).drained() == s.handle(d).drained(),
{
    lemma_duplicates_change_nothing(s, d, n);
}

/// Once a reassembler holds bytes or has seen the first byte of the stream,
/// datagrams without common stream positions lead to the same messages in
/// whatever order they arrive.
pub proof fn lemma_order_same_messages(s: StreamState, a: Seq<Datagram>, b: Seq<Datagram>)
    requires
        !s.adopts(),
        pairwise_disjoint(a),
        pairwise_disjoint(b),
        a.to_multiset() == b.to_multiset(),
    ensures
        handle_all(s, a).pending() == handle_all(s, b).pending(),
        handle_all(s, a).drained() == handle_all(s, b).drained(),
{
    lemma_order_does_not_matter(s, a, b);
}

/// At most one number is the acknowledgement of a sweep.
pub proof fn lemma_swept_ack_unique(chunks: Map<nat, ChunkInfo>, end: nat, a: nat, b: nat)
    requires
        is_swept_ack(chunks, end, a),
        is_swept_ack(chunks, end, b),
    ensures
        a == b,
{
}

/// Handing out the lone byte that opens the stream keeps the state
/// well-formed, and moves the start on by the one byte that leaves the
/// buffer.
pub proof fn lemma_after_prologue_wf(s: StreamState)
    requires
        s.wf(),
        s.has_prologue(),
    ensures
        s.after_prologue().wf(),
        s.buf.len() >= 1,
        s.after_prologue().start == s.start + (s.buf.len() - s.after_prologue().buf.len()),
{
    lemma_extent_of_wf(s);
}

/// Handing out a frame keeps the state well-formed, and moves the start on
/// by exactly the bytes that leave the buffer.
pub proof fn lemma_after_frame_wf(s: StreamState)
    requires
        s.wf(),
        s.has_frame(),
    ensures
        s.after_frame().wf(),
        frame_total(s.buf) <= s.buf.len(),
        s.after_frame().start == s.start + (s.buf.len() - s.after_frame().buf.len()),
        s.after_frame().start > s.start,
{
    lemma_extent_of_wf(s);
    let t = s.after_frame();
    let end = t.start;
    assert forall|k: nat| #[trigger] t.chunks.contains_key(k) implies s.chunks.contains_key(k)
        && t.chunks[k] == s.chunks[k] by {}
    if !t.sync && t.buf.len() == 0 {
        assert forall|k: nat| #[trigger] t.chunks.contains_key(k) implies t.chunks[k].len == 0 by {
            if s.chunks[k].len > 0 {
                assert(k + s.chunks[k].len <= end);
                assert(swept(s.chunks, end, k)) by {
                    assert forall|j: nat| #[trigger] s.chunks.contains_key(j) && j < k implies j
                        + s.chunks[j].len <= end by {
                        if s.chunks[j].len > 0 {
                        }
                    }
                }
                assert(dropped(s.chunks, end, k));
            }
        }
    }
}

} // verus!
