//! The mathematical model of one direction of a lobby stream: what the
//! reassembler holds, what a datagram does to it, and how many bytes from
//! its start on are there without a gap.

use vstd::prelude::*;

verus! {

/// The highest position of the 32-bit sequence space. The space is taken as
/// linear: a datagram that would reach past its end is not accepted.
pub const SEQ_MAX: u32 = 0xffff_ffff;

/// What is remembered of the datagrams that began at one stream position:
/// the longest length among them, and the highest position of the opposite
/// stream that they acknowledged.
pub struct ChunkInfo {
    pub len: nat,
    pub ack: nat,
}

/// The stream bytes that one datagram carries.
pub struct Datagram {
    /// The stream position of its first byte.
    pub seq: nat,
    /// The position of the opposite stream that it acknowledges.
    pub ack: nat,
    pub data: Seq<u8>,
}

/// The state of a reassembler.
pub struct StreamState {
    /// The stream position of the first byte of `buf`.
    pub start: nat,
    /// The bytes from `start` on; a byte that has not arrived yet and lies
    /// before one that has is zero.
    pub buf: Seq<u8>,
    /// The datagrams that are held, by the position at which they begin.
    pub chunks: Map<nat, ChunkInfo>,
    /// Whether the very first byte of the stream has been seen.
    pub sync: bool,
}

/// The larger of two numbers.
pub open spec fn larger(a: nat, b: nat) -> nat {
    if a >= b {
        a
    } else {
        b
    }
}

/// `buf` with `src` written over it from `offset` on. Where `buf` is too
/// short it grows, with zero bytes in any gap before `offset`.
pub open spec fn splice(buf: Seq<u8>, offset: nat, src: Seq<u8>) -> Seq<u8> {
    Seq::new(
        larger(buf.len(), offset + src.len()),
        |j: int|
            if offset <= j < offset + src.len() {
                src[j - offset]
            } else if j < buf.len() {
                buf[j]
            } else {
                0u8
            },
    )
}

/// No chunk that begins at or before `e` reaches past `e`.
pub open spec fn closed_at(chunks: Map<nat, ChunkInfo>, e: nat) -> bool {
    forall|k: nat| #[trigger] chunks.contains_key(k) && k <= e ==> k + chunks[k].len <= e
}

/// `e` is where the bytes that are there without a gap from `start` on
/// end: the least position from `start` on that no chunk before it or at it
/// reaches past.
pub open spec fn is_extent(chunks: Map<nat, ChunkInfo>, start: nat, e: nat) -> bool {
    &&& start <= e
    &&& closed_at(chunks, e)
    &&& forall|f: nat| start <= f && #[trigger] closed_at(chunks, f) ==> e <= f
}

impl Datagram {
    /// The position after the last byte of the datagram.
    pub open spec fn end(self) -> nat {
        self.seq + self.data.len()
    }
}

impl StreamState {
    /// What holds of every state that a reassembler reaches.
    pub open spec fn wf(self) -> bool {
        &&& self.start + self.buf.len() <= SEQ_MAX
        &&& forall|k: nat| #[trigger]
            self.chunks.contains_key(k) ==> k + self.chunks[k].len <= SEQ_MAX && self.chunks[k].ack
                <= SEQ_MAX
        &&& forall|k: nat| #[trigger]
            self.chunks.contains_key(k) && self.chunks[k].len > 0 ==> k + self.chunks[k].len
                <= self.start + self.buf.len()
        &&& !self.sync && self.buf.len() == 0 ==> forall|k: nat| #[trigger]
            self.chunks.contains_key(k) ==> self.chunks[k].len == 0
        &&& self.start == 0 && self.buf.len() > 0 ==> self.sync
    }

    /// Whether the next datagram sets the position of the stream: the
    /// reassembler holds nothing and has not seen the first byte.
    pub open spec fn adopts(self) -> bool {
        !self.sync && self.buf.len() == 0
    }

    /// Where the bytes that are there without a gap from `start` on end.
    pub open spec fn extent(self) -> nat {
        choose|e: nat| is_extent(self.chunks, self.start, e)
    }

    /// The number of bytes that are there without a gap from `start` on.
    pub open spec fn avail(self) -> nat {
        (self.extent() - self.start) as nat
    }

    /// The state after the datagram `d` has been handled.
    ///
    /// A datagram that reaches past the end of the sequence space, or that
    /// ends before `start`, changes nothing. Otherwise its bytes from
    /// `start` on are written into `buf`, and its length and
    /// acknowledgement are merged into `chunks`.
    pub open spec fn handle(self, d: Datagram) -> StreamState {
        let start = if self.adopts() {
            d.seq
        } else {
            self.start
        };
        if d.end() > SEQ_MAX || d.end() < start {
            self
        } else {
            let skip = if d.seq < start {
                start - d.seq
            } else {
                0
            };
            let offset = if d.seq < start {
                0
            } else {
                d.seq - start
            };
            let held = if self.chunks.contains_key(d.seq) {
                self.chunks[d.seq]
            } else {
                ChunkInfo { len: 0, ack: 0 }
            };
            StreamState {
                start,
                buf: splice(self.buf, offset as nat, d.data.subrange(skip, d.data.len() as int)),
                chunks: self.chunks.insert(
                    d.seq,
                    ChunkInfo { len: larger(held.len, d.data.len()), ack: larger(held.ack, d.ack) },
                ),
                sync: self.sync || start == 0,
            }
        }
    }
}

/// At most one position is the extent.
pub proof fn lemma_extent_unique(chunks: Map<nat, ChunkInfo>, start: nat, e1: nat, e2: nat)
    requires
        is_extent(chunks, start, e1),
        is_extent(chunks, start, e2),
    ensures
        e1 == e2,
{
}

/// Where some position from `start` on is closed, there is an extent.
pub proof fn lemma_extent_exists(chunks: Map<nat, ChunkInfo>, start: nat, e: nat)
    requires
        start <= e,
        closed_at(chunks, e),
    ensures
        exists|m: nat| is_extent(chunks, start, m),
    decreases e - start,
{
    if exists|f: nat| start <= f < e && closed_at(chunks, f) {
        let f = choose|f: nat| start <= f < e && closed_at(chunks, f);
        lemma_extent_exists(chunks, start, f);
    } else {
        assert(is_extent(chunks, start, e));
    }
}

/// The extent of a well-formed state is its extent, and lies within the
/// bytes that the state holds.
pub proof fn lemma_extent_of_wf(s: StreamState)
    requires
        s.wf(),
    ensures
        is_extent(s.chunks, s.start, s.extent()),
        s.start <= s.extent() <= s.start + s.buf.len(),
        s.avail() <= s.buf.len(),
{
    let top = (s.start + s.buf.len()) as nat;
    assert(closed_at(s.chunks, top)) by {
        assert forall|k: nat| #[trigger] s.chunks.contains_key(k) && k <= top implies k
            + s.chunks[k].len <= top by {
            if s.chunks[k].len > 0 {
            }
        }
    }
    lemma_extent_exists(s.chunks, s.start, top);
}

/// Handling a datagram keeps a state well-formed.
pub proof fn lemma_handle_wf(s: StreamState, d: Datagram)
    requires
        s.wf(),
        d.ack <= SEQ_MAX,
    ensures
        s.handle(d).wf(),
{
    let t = s.handle(d);
    if !(d.end() > SEQ_MAX || d.end() < t.start) {
        assert forall|k: nat| #[trigger] t.chunks.contains_key(k) implies k + t.chunks[k].len
            <= SEQ_MAX && t.chunks[k].ack <= SEQ_MAX by {
            if k != d.seq {
                assert(s.chunks.contains_key(k));
            } else if s.chunks.contains_key(k) {
            }
        }
        assert forall|k: nat| #[trigger]
            t.chunks.contains_key(k) && t.chunks[k].len > 0 implies k + t.chunks[k].len <= t.start
            + t.buf.len() by {
            if k != d.seq {
                assert(s.chunks.contains_key(k));
            } else if s.chunks.contains_key(k) {
            }
        }
        if !t.sync && t.buf.len() == 0 {
            assert forall|k: nat| #[trigger] t.chunks.contains_key(k) implies t.chunks[k].len
                == 0 by {
                if k != d.seq {
                    assert(s.chunks.contains_key(k));
                } else if s.chunks.contains_key(k) {
                }
            }
        }
    }
}

/// Once a reassembler holds bytes or has seen the first byte of the stream,
/// handling a datagram does not move its start.
pub proof fn lemma_handle_keeps_start(s: StreamState, d: Datagram)
    requires
        !s.adopts(),
    ensures
        s.handle(d).start == s.start,
        !s.handle(d).adopts(),
{
}

/// Once a reassembler holds bytes or has seen the first byte of the stream,
/// handling a datagram does not take away from the bytes that are there
/// without a gap.
pub proof fn lemma_handle_grows_avail(s: StreamState, d: Datagram)
    requires
        s.wf(),
        d.ack <= SEQ_MAX,
        !s.adopts(),
    ensures
        s.avail() <= s.handle(d).avail(),
{
    let t = s.handle(d);
    lemma_handle_wf(s, d);
    lemma_extent_of_wf(s);
    lemma_extent_of_wf(t);
    let e = t.extent();
    assert(closed_at(s.chunks, e)) by {
        assert forall|k: nat| #[trigger] s.chunks.contains_key(k) && k <= e implies k
            + s.chunks[k].len <= e by {
            assert(t.chunks.contains_key(k));
        }
    }
}

/// Handling the same datagram a second time changes nothing: however often
/// a datagram is handled in a row, the state is as after the first time.
pub proof fn lemma_handle_idempotent(s: StreamState, d: Datagram)
    ensures
        s.handle(d).handle(d) == s.handle(d),
{
    let t = s.handle(d);
    let u = t.handle(d);
    if !(d.end() > SEQ_MAX || d.end() < t.start) {
        assert(u.start == t.start);
        assert(u.sync == t.sync);
        assert(u.buf =~= t.buf);
        assert(u.chunks =~= t.chunks);
    }
}

/// The state after the datagram `d` has been handled `n` times in a row.
pub open spec fn handle_times(s: StreamState, d: Datagram, n: nat) -> StreamState
    decreases n,
{
    if n == 0 {
        s
    } else {
        handle_times(s, d, (n - 1) as nat).handle(d)
    }
}

/// A datagram that is handled any number of times, at least once, leaves
/// the state that it leaves when it is handled once.
pub proof fn lemma_duplicates_change_nothing(s: StreamState, d: Datagram, n: nat)
    requires
        n >= 1,
    ensures
        handle_times(s, d, n) == s.handle(d),
    decreases n,
{
    if n == 1 {
        assert(handle_times(s, d, 0) == s);
    } else {
        lemma_duplicates_change_nothing(s, d, (n - 1) as nat);
        lemma_handle_idempotent(s, d);
    }
}

/// The two datagrams have no stream position in common.
pub open spec fn disjoint(a: Datagram, b: Datagram) -> bool {
    a.end() <= b.seq || b.end() <= a.seq
}

/// Once a reassembler holds bytes or has seen the first byte of the stream,
/// two datagrams without a stream position in common leave the same state
/// in either order.
pub proof fn lemma_handle_commutes(s: StreamState, a: Datagram, b: Datagram)
    requires
        !s.adopts(),
        disjoint(a, b),
    ensures
        s.handle(a).handle(b) == s.handle(b).handle(a),
{
    let x = s.handle(a).handle(b);
    let y = s.handle(b).handle(a);
    lemma_handle_keeps_start(s, a);
    lemma_handle_keeps_start(s, b);
    assert(x.start == y.start);
    assert(x.sync == y.sync);
    assert(x.buf =~= y.buf);
    assert(x.chunks =~= y.chunks);
}

/// The state after the datagrams of `ds` have been handled in order.
pub open spec fn handle_all(s: StreamState, ds: Seq<Datagram>) -> StreamState
    decreases ds.len(),
{
    if ds.len() == 0 {
        s
    } else {
        handle_all(s, ds.drop_last()).handle(ds.last())
    }
}

/// No two datagrams of `ds` have a stream position in common.
pub open spec fn pairwise_disjoint(ds: Seq<Datagram>) -> bool {
    forall|i: int, j: int| 0 <= i < j < ds.len() ==> disjoint(#[trigger] ds[i], #[trigger] ds[j])
}

/// Every datagram of `ds` acknowledges a position of the sequence space.
pub open spec fn acks_in_space(ds: Seq<Datagram>) -> bool {
    forall|i: int| 0 <= i < ds.len() ==> (#[trigger] ds[i]).ack <= SEQ_MAX
}

/// A run of datagrams keeps a state well-formed.
pub proof fn lemma_handle_all_wf(s: StreamState, ds: Seq<Datagram>)
    requires
        s.wf(),
        acks_in_space(ds),
    ensures
        handle_all(s, ds).wf(),
    decreases ds.len(),
{
    if ds.len() > 0 {
        lemma_handle_all_wf(s, ds.drop_last());
        lemma_handle_wf(handle_all(s, ds.drop_last()), ds.last());
    }
}

/// Once a reassembler holds bytes or has seen the first byte of the stream,
/// no run of datagrams moves its start, and none takes away from the bytes
/// that are there without a gap.
pub proof fn lemma_handle_all_grows_avail(s: StreamState, ds: Seq<Datagram>)
    requires
        s.wf(),
        acks_in_space(ds),
        !s.adopts(),
    ensures
        handle_all(s, ds).start == s.start,
        s.avail() <= handle_all(s, ds).avail(),
    decreases ds.len(),
{
    if ds.len() > 0 {
        let front = ds.drop_last();
        lemma_handle_all_grows_avail(s, front);
        lemma_handle_all_wf(s, front);
        lemma_handle_all_keeps_start(s, front);
        lemma_handle_keeps_start(handle_all(s, front), ds.last());
        lemma_handle_grows_avail(handle_all(s, front), ds.last());
    }
}

/// Once a reassembler holds bytes or has seen the first byte of the stream,
/// no run of datagrams moves its start.
pub proof fn lemma_handle_all_keeps_start(s: StreamState, ds: Seq<Datagram>)
    requires
        !s.adopts(),
    ensures
        handle_all(s, ds).start == s.start,
        !handle_all(s, ds).adopts(),
    decreases ds.len(),
{
    if ds.len() > 0 {
        lemma_handle_all_keeps_start(s, ds.drop_last());
        lemma_handle_keeps_start(handle_all(s, ds.drop_last()), ds.last());
    }
}

/// A datagram of a run without common stream positions can as well be
/// handled last.
proof fn lemma_handle_last(s: StreamState, ds: Seq<Datagram>, i: int)
    requires
        !s.adopts(),
        pairwise_disjoint(ds),
        0 <= i < ds.len(),
    ensures
        handle_all(s, ds) == handle_all(s, ds.remove(i)).handle(ds[i]),
    decreases ds.len(),
{
    if i == ds.len() - 1 {
        assert(ds.remove(i) =~= ds.drop_last());
    } else {
        let front = ds.drop_last();
        lemma_handle_last(s, front, i);
        let rest = front.remove(i);
        lemma_handle_all_keeps_start(s, rest);
        lemma_handle_commutes(handle_all(s, rest), ds[i], ds.last());
        assert(ds.remove(i).drop_last() =~= rest);
        assert(ds.remove(i).last() == ds.last());
    }
}

/// Once a reassembler holds bytes or has seen the first byte of the stream,
/// the order in which datagrams without common stream positions arrive
/// does not matter: two runs of the same datagrams leave the same state,
/// and so the same messages.
pub proof fn lemma_order_does_not_matter(s: StreamState, a: Seq<Datagram>, b: Seq<Datagram>)
    requires
        !s.adopts(),
        pairwise_disjoint(a),
        pairwise_disjoint(b),
        a.to_multiset() == b.to_multiset(),
    ensures
        handle_all(s, a) == handle_all(s, b),
    decreases a.len(),
{
    a.to_multiset_ensures();
    b.to_multiset_ensures();
    if a.len() == 0 {
        assert(b.len() == 0);
    } else {
        let x = a.last();
        assert(a[a.len() - 1] == x);
        assert(a.contains(x));
        assert(a.to_multiset().count(x) > 0);
        assert(b.to_multiset().count(x) > 0);
        assert(b.contains(x));
        let i = choose|i: int| 0 <= i < b.len() && b[i] == x;
        let a1 = a.drop_last();
        let b1 = b.remove(i);
        assert(a1 =~= a.remove(a.len() - 1));
        assert(a1.to_multiset() =~= b1.to_multiset());
        assert(pairwise_disjoint(b1)) by {
            assert forall|p: int, q: int| 0 <= p < q < b1.len() implies disjoint(
                #[trigger] b1[p],
                #[trigger] b1[q],
            ) by {
                let from_p = if p < i {
                    p
                } else {
                    p + 1
                };
                let from_q = if q < i {
                    q
                } else {
                    q + 1
                };
                assert(disjoint(b[from_p], b[from_q]));
            }
        }
        lemma_order_does_not_matter(s, a1, b1);
        lemma_handle_last(s, b, i);
    }
}

} // verus!
