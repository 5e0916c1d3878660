//! One direction of a lobby stream: it takes the datagrams of that
//! direction as they arrive, in any order and with repeats, and hands out
//! the messages that the bytes received so far make up.

pub use crate::conns::{ConnTuple, StreamHandler, TfhStreamConns};
pub use crate::framing::{Message, MessageHeader};

use crate::bytes::{be_at, Bytes};
use crate::framing::{
    after_sweep, dropped, frame_body, frame_len, frame_major, frame_minor, is_swept_ack,
    lemma_after_frame_wf, lemma_after_prologue_wf, lemma_swept_ack_unique, raw_header, swept,
    swept_ack, DIR_UNKNOWN, MAJOR_WITH_MINOR,
};
use crate::packet::{has_tfh_header, ipv4_header_len, tfh_payload_start, Packet, UDP_HEADER_LEN};
use crate::stream_model::{
    closed_at, is_extent, larger, lemma_extent_of_wf, lemma_extent_unique, lemma_handle_wf,
    splice, ChunkInfo, Datagram, StreamState, SEQ_MAX,
};
use std::collections::{BTreeMap, VecDeque};
use vstd::prelude::*;
use vstd::std_specs::btree::{
    group_btree_axioms, increasing_seq, into_iter, key_obeys_cmp_spec, spec_btree_map_iter,
};
use vstd::std_specs::cmp::OrdSpec;
use vstd::std_specs::iter::IteratorSpec;

verus! {

/// The chunks that the map `m` holds, by the position at which they begin.
/// The map holds for each position the length and the acknowledgement.
spec fn chunks_of(m: Map<u32, (u32, u32)>) -> Map<nat, ChunkInfo> {
    Map::new(
        |k: nat| k <= SEQ_MAX && m.contains_key(k as u32),
        |k: nat| ChunkInfo { len: m[k as u32].0 as nat, ack: m[k as u32].1 as nat },
    )
}

/// The entries of the map `m` in the order in which a walk over it gives
/// them.
spec fn walk(m: &BTreeMap<u32, (u32, u32)>) -> Seq<(u32, (u32, u32))> {
    into_iter(spec_btree_map_iter(m))
}

/// `s` holds the entries of `m` in the order of their keys, each once.
spec fn lists(s: Seq<(u32, (u32, u32))>, m: Map<u32, (u32, u32)>) -> bool {
    &&& forall|i: int, j: int| 0 <= i < j < s.len() ==> (#[trigger] s[i]).0 < (#[trigger] s[j]).0
    &&& forall|i: int|
        0 <= i < s.len() ==> m.contains_key((#[trigger] s[i]).0) && m[s[i].0] == s[i].1
    &&& forall|k: u32| #[trigger]
        m.contains_key(k) ==> exists|i: int| 0 <= i < s.len() && (#[trigger] s[i]).0 == k
}

/// The order in which a map holds keys of 32 bits is the order of the
/// numbers.
proof fn lemma_keys_ascend(s: Seq<u32>)
    requires
        increasing_seq(s),
    ensures
        forall|i: int, j: int| 0 <= i < j < s.len() ==> s[i] < s[j],
{
    broadcast use vstd::laws_cmp::group_laws_cmp;

    vstd::std_specs::btree::axiom_increasing_seq_meaning::<u32>(s);
    assert forall|i: int, j: int| 0 <= i < j < s.len() implies s[i] < s[j] by {
        assert(s[i].cmp_spec(&s[j]) is Less);
    }
}

/// Numbers of 32 bits are keys that a map can order.
proof fn lemma_integer_keys()
    ensures
        vstd::laws_cmp::obeys_cmp::<u32>(),
        key_obeys_cmp_spec::<u32>(),
{
    broadcast use vstd::laws_cmp::group_laws_cmp;
    broadcast use group_btree_axioms;

}

/// A walk over a map gives its entries in the order of their keys.
proof fn lemma_walk_lists(m: &BTreeMap<u32, (u32, u32)>)
    requires
        walk(m) == spec_btree_map_iter(m).remaining().unref(),
        increasing_seq(
            spec_btree_map_iter(m).remaining().map_values(|kv: (&u32, &(u32, u32))| *kv.0),
        ),
    ensures
        lists(walk(m), m@),
{
    broadcast use group_btree_axioms;

    let s = walk(m);
    let keys = s.map_values(|e: (u32, (u32, u32))| e.0);
    assert(keys =~= spec_btree_map_iter(m).remaining().map_values(
        |kv: (&u32, &(u32, u32))| *kv.0,
    ));
    lemma_keys_ascend(keys);
    assert forall|i: int| 0 <= i < s.len() implies m@.contains_key((#[trigger] s[i]).0) && m@[s[i].0]
        == s[i].1 by {
        assert(m@.contains_key(*spec_btree_map_iter(m).remaining()[i].0));
    }
    assert forall|k: u32| #[trigger] m@.contains_key(k) implies exists|i: int|
        0 <= i < s.len() && (#[trigger] s[i]).0 == k by {
        assert(spec_btree_map_iter(m).remaining().contains((&k, &m@[k])));
        let i = choose|i: int|
            0 <= i < spec_btree_map_iter(m).remaining().len() && spec_btree_map_iter(
                m,
            ).remaining()[i] == (&k, &m@[k]);
        assert(s[i].0 == k);
    }
    assert forall|i: int, j: int| 0 <= i < j < s.len() implies (#[trigger] s[i]).0 < (
    #[trigger] s[j]).0 by {
        assert(keys[i] < keys[j]);
    }
}

/// The entry at the place `i` of a walk is a chunk of the map.
proof fn lemma_chunk_at(s: Seq<(u32, (u32, u32))>, m: Map<u32, (u32, u32)>, i: int)
    requires
        lists(s, m),
        0 <= i < s.len(),
    ensures
        chunks_of(m).contains_key(s[i].0 as nat),
        chunks_of(m)[s[i].0 as nat] == (ChunkInfo {
            len: s[i].1.0 as nat,
            ack: s[i].1.1 as nat,
        }),
{
}

/// The place in a walk of the chunk that begins at `k`.
proof fn lemma_chunk_key(s: Seq<(u32, (u32, u32))>, m: Map<u32, (u32, u32)>, k: nat) -> (i: int)
    requires
        lists(s, m),
        chunks_of(m).contains_key(k),
    ensures
        0 <= i < s.len(),
        s[i].0 == k,
        chunks_of(m)[k] == (ChunkInfo { len: s[i].1.0 as nat, ack: s[i].1.1 as nat }),
{
    let i = choose|i: int| 0 <= i < s.len() && (#[trigger] s[i]).0 == k as u32;
    i
}

/// Writes `src` into `dest` from `offset` on. Where `dest` is too short it
/// grows, with zero bytes in any gap before `offset`.
pub fn copy_slice_into_vec_deque(dest: &mut VecDeque<u8>, src: &[u8], offset: usize)
    requires
        offset + src@.len() <= usize::MAX,
    ensures
        final(dest)@ == splice(old(dest)@, offset as nat, src@),
{
    let n: usize = src.len();
    let had: usize = dest.len();
    // What stood from `offset` on; the part of it behind the new bytes
    // goes back in after them.
    let tail: VecDeque<u8> = if had <= offset {
        // Fill the gap, if there is one.
        while dest.len() < offset
            invariant
                had == old(dest)@.len(),
                had <= dest@.len() <= larger(had as nat, offset as nat),
                forall|j: int| 0 <= j < had ==> dest@[j] == old(dest)@[j],
                forall|j: int| had <= j < dest@.len() ==> dest@[j] == 0u8,
            decreases offset - dest@.len(),
        {
            dest.push_back(0);
        }
        VecDeque::new()
    } else {
        dest.split_off(offset)
    };
    let ghost front = dest@;
    let mut i: usize = 0;
    while i < n
        invariant
            i <= n == src@.len(),
            dest@ == front + src@.subrange(0, i as int),
        decreases n - i,
    {
        dest.push_back(src[i]);
        i = i + 1;
        assert(dest@ =~= front + src@.subrange(0, i as int));
    }
    assert(src@.subrange(0, n as int) =~= src@);
    let kept: usize = tail.len();
    if n < kept {
        let mut k: usize = n;
        while k < kept
            invariant
                n <= k <= kept == tail@.len(),
                dest@ == front + src@ + tail@.subrange(n as int, k as int),
            decreases kept - k,
        {
            dest.push_back(tail[k]);
            k = k + 1;
            assert(dest@ =~= front + src@ + tail@.subrange(n as int, k as int));
        }
    }
    assert(dest@ =~= splice(old(dest)@, offset as nat, src@));
}

/// Fills `dest` with the bytes of `src` from `offset` on.
pub fn copy_vec_deque_into_slice(dest: &mut [u8], src: &VecDeque<u8>, offset: usize)
    requires
        offset + old(dest)@.len() <= src@.len(),
    ensures
        final(dest)@ == src@.subrange(offset as int, offset + old(dest)@.len()),
{
    let n: usize = dest.len();
    let total: usize = src.len();
    let mut i: usize = 0;
    while i < n
        invariant
            i <= n == dest@.len(),
            n == old(dest)@.len(),
            offset + n <= src@.len() == total,
            forall|j: int| 0 <= j < i ==> dest@[j] == src@[offset + j],
        decreases n - i,
    {
        dest[i] = src[offset + i];
        i = i + 1;
    }
    assert(dest@ =~= src@.subrange(offset as int, offset + n));
}

/// Merges a datagram that began at `seq` into the chunks: its length and
/// acknowledgement stand where they are larger than what is held.
fn upsert_chunk(chunks: &mut BTreeMap<u32, (u32, u32)>, seq: u32, len: u32, ack: u32)
    ensures
        chunks_of(final(chunks)@) == chunks_of(old(chunks)@).insert(
            seq as nat,
            ChunkInfo {
                len: larger(
                    if chunks_of(old(chunks)@).contains_key(seq as nat) {
                        chunks_of(old(chunks)@)[seq as nat].len
                    } else {
                        0
                    },
                    len as nat,
                ),
                ack: larger(
                    if chunks_of(old(chunks)@).contains_key(seq as nat) {
                        chunks_of(old(chunks)@)[seq as nat].ack
                    } else {
                        0
                    },
                    ack as nat,
                ),
            },
        ),
{
    broadcast use group_btree_axioms;

    proof {
        lemma_integer_keys();
    }
    let ghost before = chunks@;
    let merged: (u32, u32) = match chunks.get(&seq) {
        Some(held) => (
            if held.0 >= len {
                held.0
            } else {
                len
            },
            if held.1 >= ack {
                held.1
            } else {
                ack
            },
        ),
        None => (len, ack),
    };
    chunks.insert(seq, merged);
    proof {
        let want = chunks_of(before).insert(
            seq as nat,
            ChunkInfo { len: merged.0 as nat, ack: merged.1 as nat },
        );
        assert(chunks_of(chunks@) =~= want);
    }
}

/// A single direction of a lobby stream. It takes datagrams and from time
/// to time has a message to hand out.
pub struct TfhStream {
    start: u32,
    buf: VecDeque<u8>,
    /// For each datagram that has been written into `buf`, from the
    /// position where it began to its length and the position that it
    /// acknowledged. The acknowledged position is one of the opposite
    /// stream.
    chunks: BTreeMap<u32, (u32, u32)>,
    /// Whether the first byte of the stream has been seen. Until then the
    /// first datagram that arrives while nothing is held sets the position.
    sync: bool,
}

impl View for TfhStream {
    type V = StreamState;

    closed spec fn view(&self) -> StreamState {
        StreamState {
            start: self.start as nat,
            buf: self.buf@,
            chunks: chunks_of(self.chunks@),
            sync: self.sync,
        }
    }
}

/// The stream bytes that the stream datagram in the packet `p` carries.
pub open spec fn datagram_of(p: Seq<u8>) -> Datagram {
    let t = ipv4_header_len(p) + UDP_HEADER_LEN;
    Datagram {
        seq: be_at(p, t, 4),
        ack: be_at(p, t + 4, 4),
        data: p.subrange(tfh_payload_start(p), p.len() as int),
    }
}

impl StreamState {
    /// The state after the packet `p` has been taken: where it is a stream
    /// datagram with both of its sequence numbers, its stream bytes have
    /// been handled; any other packet changes nothing.
    pub open spec fn take(self, p: Seq<u8>) -> StreamState {
        if has_tfh_header(p) {
            self.handle(datagram_of(p))
        } else {
            self
        }
    }
}

impl TfhStream {
    /// The stream is in a state that it can have reached.
    pub closed spec fn wf(&self) -> bool {
        self@.wf()
    }

    /// A stream that has seen nothing.
    pub fn new() -> (s: TfhStream)
        ensures
            s.wf(),
            s@ == (StreamState {
                start: SEQ_MAX as nat,
                buf: Seq::empty(),
                chunks: Map::empty(),
                sync: false,
            }),
    {
        let s = TfhStream {
            start: SEQ_MAX,
            buf: VecDeque::new(),
            chunks: BTreeMap::new(),
            sync: false,
        };
        assert(chunks_of(s.chunks@) =~= Map::empty());
        s
    }

    /// The stream position of the first byte that is held.
    pub fn start(&self) -> (r: u32)
        ensures
            r == self@.start,
    {
        self.start
    }

    /// Whether the first byte of the stream has been seen.
    pub fn in_sync(&self) -> (r: bool)
        ensures
            r == self@.sync,
    {
        self.sync
    }

    /// The number of bytes that are held, gaps included.
    pub fn buffered(&self) -> (r: usize)
        ensures
            r == self@.buf.len(),
    {
        self.buf.len()
    }

    /// Takes the stream bytes `data` of a datagram that begins at the
    /// stream position `seq` and acknowledges the position `ack` of the
    /// opposite stream.
    pub fn handle_datagram(&mut self, seq: u32, ack: u32, data: &[u8])
        requires
            old(self).wf(),
        ensures
            final(self).wf(),
            final(self)@ == old(self)@.handle(
                Datagram { seq: seq as nat, ack: ack as nat, data: data@ },
            ),
    {
        let ghost d = Datagram { seq: seq as nat, ack: ack as nat, data: data@ };
        proof {
            lemma_handle_wf(self@, d);
        }
        let len: usize = data.len();
        if len > (SEQ_MAX - seq) as usize {
            return ;
        }
        let adopts: bool = !self.sync && self.buf.len() == 0;
        let start: u32 = if adopts {
            // Let the first datagram that arrives set the position.
            seq
        } else {
            self.start
        };
        let end: u32 = seq + len as u32;
        if end < start {
            return ;
        }
        self.start = start;
        let skip: usize = if seq < start {
            (start - seq) as usize
        } else {
            0
        };
        let offset: usize = if seq < start {
            0
        } else {
            (seq - start) as usize
        };
        copy_slice_into_vec_deque(&mut self.buf, &data[skip..len], offset);
        if start == 0 {
            // The start of the whole stream is in sight.
            self.sync = true;
        }
        upsert_chunk(&mut self.chunks, seq, len as u32, ack);
        assert(self@.chunks =~= old(self)@.handle(d).chunks);
    }

    /// Takes a packet. Where it is a stream datagram with both of its
    /// sequence numbers, its stream bytes are handled; any other packet
    /// changes nothing.
    pub fn handle_packet(&mut self, p: &Packet)
        requires
            old(self).wf(),
        ensures
            final(self).wf(),
            final(self)@ == old(self)@.take(p@),
    {
        if !p.has_tfh_header() {
            return ;
        }
        let tfh = p.tfh_stream();
        let data = p.tfh_stream_payload();
        proof {
            let t = ipv4_header_len(p@) + UDP_HEADER_LEN;
            crate::bytes::lemma_be_at_subrange(p@, t, t + 8, 0, 4);
            crate::bytes::lemma_be_at_subrange(p@, t, t + 8, 4, 4);
        }
        self.handle_datagram(tfh.my_seq(), tfh.your_seq(), data);
    }

    /// The number of bytes that are there without a gap from the start of
    /// what is held.
    pub fn count_avail(&self) -> (r: usize)
        requires
            self.wf(),
        ensures
            r == self@.avail(),
            r <= self@.buf.len(),
            is_extent(self@.chunks, self@.start, self@.start + r as nat),
    {
        broadcast use group_btree_axioms;

        proof {
            lemma_integer_keys();
            lemma_extent_of_wf(self@);
        }
        let ghost w = walk(&self.chunks);
        let ghost m = chunks_of(self.chunks@);
        let mut end: u32 = self.start;
        let ghost mut i: int = 0;
        let iter = self.chunks.iter();
        proof {
            lemma_walk_lists(&self.chunks);
        }
        for kv in it: iter
            invariant_except_break
                i == it.index(),
            invariant
                it.seq().unref() == w,
                lists(w, self.chunks@),
                m == chunks_of(self.chunks@),
                self@.wf(),
                0 <= i <= w.len(),
                self.start <= end,
                // The chunks looked at so far do not reach past `end`.
                forall|j: int| 0 <= j < i ==> (#[trigger] w[j]).0 + w[j].1.0 <= end,
                // No position from the start on that is closed lies before `end`.
                forall|f: nat| self.start <= f && #[trigger] closed_at(m, f) ==> end <= f,
            ensures
                i < w.len() ==> w[i].0 > end,
        {
            let (k, v) = kv;
            if *k > end {
                break ;
            }
            proof {
                lemma_chunk_at(w, self.chunks@, i);
                assert(self@.chunks == m);
                assert(m.contains_key(*k as nat));
                assert(m[*k as nat].len == v.0);
                assert(*k + v.0 <= SEQ_MAX);
                assert forall|f: nat| self.start <= f && #[trigger] closed_at(m, f) implies *k
                    + v.0 <= f by {
                    assert(end <= f);
                }
            }
            let reach: u32 = *k + v.0;
            if reach > end {
                end = reach;
            }
            proof {
                i = i + 1;
            }
        }
        proof {
            assert(closed_at(m, end as nat)) by {
                assert forall|k: nat| #[trigger] m.contains_key(k) && k <= end implies k + m[k].len
                    <= end by {
                    let j = lemma_chunk_key(w, self.chunks@, k);
                    if j >= i {
                        if j > i {
                            assert(w[i].0 < w[j].0);
                        }
                    }
                }
            }
            assert(is_extent(m, self.start as nat, end as nat));
            lemma_extent_unique(m, self.start as nat, end as nat, self@.extent());
        }
        (end - self.start) as usize
    }
}

/// A stream that can have been reached has a well-formed state.
pub proof fn lemma_wf_of_view(s: &TfhStream)
    requires
        s.wf(),
    ensures
        s@.wf(),
{
}

/// A vector of `n` zero bytes.
fn zeros(n: usize) -> (v: Vec<u8>)
    ensures
        v@ == Seq::new(n as nat, |j: int| 0u8),
{
    let mut v: Vec<u8> = Vec::new();
    let mut k: usize = 0;
    while k < n
        invariant
            k <= n,
            v@ == Seq::new(k as nat, |j: int| 0u8),
        decreases n - k,
    {
        v.push(0);
        k = k + 1;
        assert(v@ =~= Seq::new(k as nat, |j: int| 0u8));
    }
    v
}

/// The positions of the chunks that taking the bytes before `end` drops,
/// and the highest acknowledgement among the chunks that it looks at.
fn swept_keys(chunks: &BTreeMap<u32, (u32, u32)>, end: u32) -> (r: (Vec<u32>, u32))
    ensures
        is_swept_ack(chunks_of(chunks@), end as nat, r.1 as nat),
        forall|k: u32| r.0@.contains(k) <==> dropped(chunks_of(chunks@), end as nat, k as nat),
{
    broadcast use group_btree_axioms;

    proof {
        lemma_integer_keys();
    }
    let ghost w = walk(chunks);
    let ghost m = chunks_of(chunks@);
    let mut gone: Vec<u32> = Vec::new();
    let mut ack: u32 = 0;
    let ghost mut looked: int = 0;
    let iter = chunks.iter();
    proof {
        lemma_walk_lists(chunks);
    }
    for kv in it: iter
        invariant_except_break
            looked == it.index(),
            looked == gone@.len(),
        invariant
            it.seq().unref() == w,
            lists(w, chunks@),
            m == chunks_of(chunks@),
            gone@.len() <= looked <= gone@.len() + 1,
            looked <= w.len(),
            forall|j: int|
                0 <= j < gone@.len() ==> gone@[j] == (#[trigger] w[j]).0 && w[j].0 < end && w[j].0
                    + w[j].1.0 <= end,
            forall|j: int| 0 <= j < looked ==> (#[trigger] w[j]).1.1 <= ack,
            ack == 0 || exists|j: int| 0 <= j < looked && (#[trigger] w[j]).1.1 == ack,
            looked > gone@.len() ==> w[gone@.len() as int].0 < end && w[gone@.len() as int].0
                + w[gone@.len() as int].1.0 > end,
        ensures
            looked == gone@.len() ==> looked == w.len() || w[looked].0 >= end,
    {
        let (k, v) = kv;
        if *k >= end {
            break ;
        }
        if v.1 > ack {
            ack = v.1;
        }
        proof {
            looked = looked + 1;
        }
        if *k as u64 + v.0 as u64 <= end as u64 {
            gone.push(*k);
        } else {
            break ;
        }
    }
    proof {
        let d = gone@.len() as int;
        // A chunk is looked at exactly if it stands before `looked`.
        assert forall|j: int| 0 <= j < w.len() implies (swept(m, end as nat, (#[trigger] w[j]).0 as nat)
            <==> j < looked) by {
            let k = w[j].0 as nat;
            lemma_chunk_at(w, chunks@, j);
            if j < looked {
                assert forall|i: nat| #[trigger] m.contains_key(i) && i < k implies i + m[i].len
                    <= end by {
                    let x = lemma_chunk_key(w, chunks@, i);
                    if x >= j {
                        if x > j {
                            assert(w[j].0 < w[x].0);
                        }
                    }
                }
            } else {
                if looked > d {
                    lemma_chunk_at(w, chunks@, d);
                    assert(w[d].0 < w[j].0);
                } else if looked < w.len() {
                    if j > looked {
                        assert(w[looked].0 < w[j].0);
                    }
                }
            }
        }
        assert(is_swept_ack(m, end as nat, ack as nat)) by {
            assert forall|k: nat| #[trigger] swept(m, end as nat, k) implies m[k].ack <= ack by {
                let j = lemma_chunk_key(w, chunks@, k);
                assert(swept(m, end as nat, w[j].0 as nat));
            }
            if ack != 0 {
                let j = choose|j: int| 0 <= j < looked && (#[trigger] w[j]).1.1 == ack;
                lemma_chunk_at(w, chunks@, j);
                assert(swept(m, end as nat, w[j].0 as nat));
            }
        }
        assert forall|k: u32| gone@.contains(k) <==> dropped(m, end as nat, k as nat) by {
            if gone@.contains(k) {
                let j = choose|j: int| 0 <= j < gone@.len() && gone@[j] == k;
                lemma_chunk_at(w, chunks@, j);
                assert(swept(m, end as nat, w[j].0 as nat));
            }
            if dropped(m, end as nat, k as nat) {
                let j = lemma_chunk_key(w, chunks@, k as nat);
                assert(swept(m, end as nat, w[j].0 as nat) <==> j < looked);
                assert(gone@[j] == k);
            }
        }
    }
    (gone, ack)
}

/// Drops the chunks that taking the bytes before `end` drops, and gives
/// the highest acknowledgement among the chunks that it looks at.
fn sweep_chunks(chunks: &mut BTreeMap<u32, (u32, u32)>, end: u32) -> (ack: u32)
    ensures
        chunks_of(final(chunks)@) == after_sweep(chunks_of(old(chunks)@), end as nat),
        is_swept_ack(chunks_of(old(chunks)@), end as nat, ack as nat),
{
    broadcast use group_btree_axioms;

    proof {
        lemma_integer_keys();
    }
    let ghost before = chunks@;
    let (gone, ack) = swept_keys(chunks, end);
    let n: usize = gone.len();
    let mut g: usize = 0;
    while g < n
        invariant
            g <= n == gone@.len(),
            forall|k: u32| #[trigger]
                chunks@.contains_key(k) <==> before.contains_key(k) && forall|j: int|
                    0 <= j < g ==> gone@[j] != k,
            forall|k: u32| #[trigger] chunks@.contains_key(k) ==> chunks@[k] == before[k],
        decreases n - g,
    {
        chunks.remove(&gone[g]);
        g = g + 1;
    }
    proof {
        let want = after_sweep(chunks_of(before), end as nat);
        assert forall|k: nat| chunks_of(chunks@).contains_key(k) <==> want.contains_key(k) by {
            if k <= SEQ_MAX {
                let key = k as u32;
                if gone@.contains(key) {
                    let j = choose|j: int| 0 <= j < gone@.len() && gone@[j] == key;
                    assert(!chunks@.contains_key(key));
                } else {
                    assert(chunks@.contains_key(key) <==> before.contains_key(key));
                }
            }
        }
        assert(chunks_of(chunks@) =~= want);
    }
    ack
}

impl TfhStream {
    /// The length and the opcodes of the frame at the head, where a whole
    /// frame is there to be handed out. `avail` is the number of bytes
    /// that are there without a gap.
    fn frame_head(&self, avail: usize) -> (r: Option<(u32, u32, u32)>)
        requires
            self.wf(),
            avail == self@.avail(),
        ensures
            match r {
                Some((len, major, minor)) => {
                    &&& self@.has_frame()
                    &&& len == frame_len(self@.buf)
                    &&& major == frame_major(self@.buf)
                    &&& minor == frame_minor(self@.buf)
                },
                None => !self@.has_frame(),
            },
    {
        proof {
            lemma_extent_of_wf(self@);
        }
        if (self.start == 0 && avail >= 1) || avail < 4 {
            return None;
        }
        // The length of the frame, and whether all of it is there.
        let mut prefix: Vec<u8> = zeros(4);
        copy_vec_deque_into_slice(prefix.as_mut_slice(), &self.buf, 0);
        proof {
            crate::bytes::lemma_be_at_window(prefix@, self@.buf, 0, 4);
        }
        let len: u32 = prefix.as_slice().u32_be(0);
        if (avail as u64) < 4 + len as u64 {
            return None;
        }
        // The opcodes.
        let mut raw: Vec<u8> = zeros(10);
        let raw_len: usize = if len < 10 {
            len as usize
        } else {
            10
        };
        let (head, _tail) = raw.as_mut_slice().split_at_mut(raw_len);
        copy_vec_deque_into_slice(head, &self.buf, 4);
        assert(raw@ =~= raw_header(self@.buf));
        let major: u32 = raw.as_slice().u32_be(2);
        let minor: u32 = if major == MAJOR_WITH_MINOR {
            raw.as_slice().u32_le(6)
        } else {
            0
        };
        Some((len, major, minor))
    }

    /// The opcodes of the frame that is handed out next, in full: the
    /// major and the minor opcode as the 32 bits that the frame holds,
    /// where a whole frame is there to be handed out. A message carries
    /// the low eight bits of each only, so this is where a caller learns
    /// of an opcode above 255.
    pub fn next_opcodes(&self) -> (r: Option<(u32, u32)>)
        requires
            self.wf(),
        ensures
            match r {
                Some((major, minor)) => {
                    &&& self@.has_frame()
                    &&& major == frame_major(self@.buf)
                    &&& minor == frame_minor(self@.buf)
                },
                None => !self@.has_frame(),
            },
    {
        let avail: usize = self.count_avail();
        match self.frame_head(avail) {
            Some((_len, major, minor)) => Some((major, minor)),
            None => None,
        }
    }

    /// Whether the frame that is handed out next has an opcode above 255,
    /// which a message cannot carry in full.
    pub fn next_opcode_out_of_range(&self) -> (r: bool)
        requires
            self.wf(),
        ensures
            r == (self@.has_frame() && (frame_major(self@.buf) > 255 || frame_minor(self@.buf)
                > 255)),
    {
        match self.next_opcodes() {
            Some((major, minor)) => major > 255 || minor > 255,
            None => false,
        }
    }

    /// Hands out the next message, if the bytes that are there without a
    /// gap hold one.
    ///
    /// At the very start of the stream the message is the lone byte that
    /// opens it. After that it is the frame at the head of the buffer, as
    /// soon as the whole frame is there.
    pub fn next_message(&mut self) -> (r: Option<Message>)
        requires
            old(self).wf(),
        ensures
            final(self).wf(),
            final(self)@ == old(self)@.after_next(),
            old(self)@.ready() ==> (r matches Some(m) && m@ == old(self)@.next_message()),
            !old(self)@.ready() ==> r is None,
    {
        let avail: usize = self.count_avail();
        let ghost before = self@;

        // Each side sends one byte before it sends messages. That byte
        // is handed out as a message of its own.
        if self.start == 0 && avail >= 1 {
            proof {
                lemma_after_prologue_wf(before);
            }
            let first: u8 = self.buf[0];
            let rest: VecDeque<u8> = self.buf.split_off(1);
            self.buf = rest;
            self.start = 1;
            let mut body: Vec<u8> = Vec::new();
            body.push(first);
            assert(body@ =~= seq![before.buf[0]]);
            return Some(
                Message {
                    header: MessageHeader { major: 0, minor: 0, dir: DIR_UNKNOWN, ack: 0, len: 1 },
                    body,
                },
            );
        }
        let (len, major, minor) = match self.frame_head(avail) {
            Some(head) => head,
            None => {
                return None;
            },
        };
        proof {
            lemma_after_frame_wf(before);
        }
        let total: usize = 4 + len as usize;
        let end: u32 = self.start + total as u32;

        // The body.
        let body_start: usize = if major == MAJOR_WITH_MINOR {
            14
        } else {
            10
        };
        let body_len: usize = if total >= body_start {
            total - body_start
        } else {
            0
        };
        let mut body: Vec<u8> = zeros(body_len);
        if body_len > 0 {
            copy_vec_deque_into_slice(body.as_mut_slice(), &self.buf, body_start);
        }
        assert(body@ =~= frame_body(before.buf));

        // The chunks that the frame used up, and what they acknowledged.
        let ack: u32 = sweep_chunks(&mut self.chunks, end);
        proof {
            lemma_swept_ack_unique(
                before.chunks,
                end as nat,
                ack as nat,
                swept_ack(before.chunks, end as nat),
            );
        }

        let rest: VecDeque<u8> = self.buf.split_off(total);
        self.buf = rest;
        self.start = end;
        Some(
            Message {
                header: MessageHeader {
                    major: (major % 256) as u8,
                    minor: (minor % 256) as u8,
                    dir: DIR_UNKNOWN,
                    ack,
                    len: body_len as u32,
                },
                body,
            },
        )
    }
}

} // verus!
