//! A packet buffer of fixed capacity and the typed overlays of the IPv4 and
//! UDP headers that lie in it.
//!
//! A [`Packet`] is, to its callers, the sequence of its bytes (`p@`). The
//! header types hold a borrow of the bytes of one header and nothing else:
//! a field read is a read of the packet's own bytes, and a field write goes
//! into the packet.

pub use crate::checksum::ones_complement_add;

use crate::bytes::{be_at, be_bytes, lemma_be_at_window, overwrite, Bytes};
use crate::checksum::{
    complement, internet_sum, lemma_ones_sum_bound, lemma_ones_sum_prefix, ones_add, ones_sum,
    word_at, word_count,
};
use vstd::prelude::*;

verus! {

/// Capacity in bytes of a packet's buffer. The MTU of the tunnel device must
/// not exceed it.
pub const PACKET_CAP: usize = 1500;

/// The IPv4 protocol number of UDP.
pub const PROTOCOL_UDP: u8 = 17;

/// Length in bytes of a UDP header.
pub const UDP_HEADER_LEN: usize = 8;

/// Length in bytes of the sequence numbers that open the UDP payload of a
/// stream datagram.
pub const TFH_HEADER_LEN: usize = 8;

/// The lowest UDP port of the lobby protocol.
pub const TFH_PORT_MIN: u16 = 27010;

/// The highest UDP port of the lobby protocol.
pub const TFH_PORT_MAX: u16 = 27030;

/// The IP version that the first byte of a packet names.
pub open spec fn ip_version(p: Seq<u8>) -> u8 {
    p[0] >> 4
}

/// The header length that the first byte of an IPv4 packet names, in 32-bit
/// words.
pub open spec fn ipv4_ihl(p: Seq<u8>) -> u8 {
    p[0] & 0x0f
}

/// The length in bytes of the IPv4 header of `p`.
pub open spec fn ipv4_header_len(p: Seq<u8>) -> int {
    ipv4_ihl(p) as int * 4
}

/// `p` begins with the version nibble of IPv4.
pub open spec fn is_ipv4_bytes(p: Seq<u8>) -> bool {
    p.len() >= 1 && ip_version(p) == 4
}

/// `p` begins with the version nibble of IPv6.
pub open spec fn is_ipv6_bytes(p: Seq<u8>) -> bool {
    p.len() >= 1 && ip_version(p) == 6
}

/// `p` holds a whole IPv4 header of a lawful length.
pub open spec fn has_ipv4_header(p: Seq<u8>) -> bool {
    is_ipv4_bytes(p) && 20 <= ipv4_header_len(p) <= p.len()
}

/// `p` is an IPv4 packet whose header names UDP as its protocol.
pub open spec fn is_udp_bytes(p: Seq<u8>) -> bool {
    has_ipv4_header(p) && p[9] == PROTOCOL_UDP
}

/// `p` is an IPv4 packet that carries UDP and holds the whole UDP header.
pub open spec fn has_udp_header(p: Seq<u8>) -> bool {
    is_udp_bytes(p) && ipv4_header_len(p) + UDP_HEADER_LEN <= p.len()
}

/// The bytes of an IPv4 header with its checksum field taken as zero.
pub open spec fn zero_checksum(h: Seq<u8>) -> Seq<u8> {
    Seq::new(
        h.len(),
        |j: int|
            if j == 10 || j == 11 {
                0u8
            } else {
                h[j]
            },
    )
}

/// The checksum that belongs in the IPv4 header `h`: the complement of the
/// one's-complement sum of its words, its own field counting as zero.
pub open spec fn ipv4_checksum_of(h: Seq<u8>) -> int {
    0xffff - internet_sum(zero_checksum(h))
}

/// The pseudo header that the UDP checksum of a datagram starts from: the
/// addresses, a zero byte, the protocol, the length of payload plus UDP
/// header, then the UDP header itself with a zero checksum.
pub open spec fn udp_pseudo_header(
    source_ip: nat,
    dest_ip: nat,
    protocol: u8,
    data_len: nat,
    source_port: nat,
    dest_port: nat,
    udp_len: nat,
) -> Seq<u8> {
    be_bytes(source_ip, 4) + be_bytes(dest_ip, 4) + seq![0u8, protocol] + be_bytes(
        (data_len + 8) % 0x1_0000,
        2,
    ) + be_bytes(source_port, 2) + be_bytes(dest_port, 2) + be_bytes(udp_len, 2) + seq![0u8, 0u8]
}

/// The pseudo header of the UDP datagram in the packet `p`, for a payload of
/// `data_len` bytes.
pub open spec fn udp_pseudo_header_of(p: Seq<u8>, data_len: nat) -> Seq<u8> {
    let u = ipv4_header_len(p);
    udp_pseudo_header(
        be_at(p, 12, 4),
        be_at(p, 16, 4),
        p[9],
        data_len,
        be_at(p, u, 2),
        be_at(p, u + 2, 2),
        be_at(p, u + 4, 2),
    )
}

/// The UDP checksum of the datagram in `p` over the payload `data`: the
/// complement of the sum of pseudo header and payload, except that a sum of
/// all ones stays all ones, so that the field is never zero.
pub open spec fn udp_checksum_of(p: Seq<u8>, data: Seq<u8>) -> int {
    let sum = internet_sum(udp_pseudo_header_of(p, data.len()) + data);
    if sum == 0xffff {
        0xffff
    } else {
        0xffff - sum
    }
}

/// `port` lies in the range of the lobby protocol.
pub open spec fn is_tfh_port(port: nat) -> bool {
    TFH_PORT_MIN <= port <= TFH_PORT_MAX
}

/// `p` is a stream datagram of the lobby protocol: UDP over IPv4, with
/// one of its ports in the protocol's range.
pub open spec fn is_tfh_stream_bytes(p: Seq<u8>) -> bool {
    let u = ipv4_header_len(p);
    &&& has_udp_header(p)
    &&& is_tfh_port(be_at(p, u, 2)) || is_tfh_port(be_at(p, u + 2, 2))
}

/// `p` is a stream datagram that holds both of its sequence numbers.
pub open spec fn has_tfh_header(p: Seq<u8>) -> bool {
    is_tfh_stream_bytes(p) && tfh_payload_start(p) <= p.len()
}

/// Where the stream bytes of a stream datagram begin.
pub open spec fn tfh_payload_start(p: Seq<u8>) -> int {
    ipv4_header_len(p) + UDP_HEADER_LEN + TFH_HEADER_LEN
}

/// The header length of a packet is at most 60 bytes.
pub proof fn lemma_header_len_bound(p: Seq<u8>)
    ensures
        0 <= ipv4_header_len(p) <= 60,
        ipv4_header_len(p) % 4 == 0,
{
    let b = p[0];
    assert(b & 0x0f <= 15) by (bit_vector);
}

/// An overlay of the bytes of an IPv4 header. `B` is the borrow that it
/// holds: `&[u8]` to read, `&mut [u8]` to read and write.
pub struct Ipv4Header<B>(pub B);

/// An overlay of the eight bytes of a UDP header. `B` is the borrow that it
/// holds: `&[u8]` to read, `&mut [u8]` to read and write.
pub struct UdpHeader<B>(pub B);

/// An overlay of the two sequence numbers that open the UDP payload of a
/// stream datagram.
pub struct TfhHeader<B>(pub B);

impl<'a> Ipv4Header<&'a [u8]> {
    /// Lays the overlay over the bytes `x`.
    pub fn new(x: &'a [u8]) -> (h: Self)
        ensures
            h.0@ == x@,
    {
        Ipv4Header(x)
    }

    pub fn version(&self) -> (r: u8)
        requires
            self.0@.len() >= 1,
        ensures
            r == ip_version(self.0@),
    {
        self.0.u8_be(0) >> 4
    }

    pub fn ihl(&self) -> (r: u8)
        requires
            self.0@.len() >= 1,
        ensures
            r == ipv4_ihl(self.0@),
            r <= 15,
    {
        let b: u8 = self.0.u8_be(0);
        assert(b & 0x0f <= 15) by (bit_vector);
        b & 0x0f
    }

    pub fn total_len(&self) -> (r: u16)
        requires
            self.0@.len() >= 4,
        ensures
            r == be_at(self.0@, 2, 2),
    {
        self.0.u16_be(2)
    }

    pub fn ident(&self) -> (r: u16)
        requires
            self.0@.len() >= 6,
        ensures
            r == be_at(self.0@, 4, 2),
    {
        self.0.u16_be(4)
    }

    pub fn flags(&self) -> (r: u8)
        requires
            self.0@.len() >= 7,
        ensures
            r == self.0@[6] >> 5,
    {
        self.0.u8_be(6) >> 5
    }

    pub fn offset(&self) -> (r: u16)
        requires
            self.0@.len() >= 8,
        ensures
            r == (be_at(self.0@, 6, 2) as u16) & 0x1fff,
    {
        self.0.u16_be(6) & 0x1fff
    }

    pub fn protocol(&self) -> (r: u8)
        requires
            self.0@.len() >= 10,
        ensures
            r == self.0@[9],
    {
        self.0.u8_be(9)
    }

    pub fn checksum(&self) -> (r: u16)
        requires
            self.0@.len() >= 12,
        ensures
            r == be_at(self.0@, 10, 2),
    {
        self.0.u16_be(10)
    }

    pub fn source_ip(&self) -> (r: u32)
        requires
            self.0@.len() >= 16,
        ensures
            r == be_at(self.0@, 12, 4),
    {
        self.0.u32_be(12)
    }

    pub fn dest_ip(&self) -> (r: u32)
        requires
            self.0@.len() >= 20,
        ensures
            r == be_at(self.0@, 16, 4),
    {
        self.0.u32_be(16)
    }

    pub fn is_udp(&self) -> (r: bool)
        requires
            self.0@.len() >= 10,
        ensures
            r == (self.0@[9] == PROTOCOL_UDP),
    {
        self.protocol() == PROTOCOL_UDP
    }
}

impl<'a> Ipv4Header<&'a mut [u8]> {
    /// Lays the overlay over the bytes `x`, for writing.
    pub fn new_mut(x: &'a mut [u8]) -> (h: Self)
        ensures
            h.0@ == old(x)@,
            final(x)@ == final(h.0)@,
    {
        Ipv4Header(x)
    }

    /// The same header, to read.
    pub fn as_ref(&self) -> (h: Ipv4Header<&[u8]>)
        ensures
            h.0@ == old(self.0)@,
    {
        Ipv4Header(&*self.0)
    }

    pub fn set_total_len(&mut self, x: u16)
        requires
            old(self).0@.len() >= 4,
        ensures
            final(self).0@ == overwrite(old(self).0@, 2, be_bytes(x as nat, 2)),
            final(final(self).0)@ == final(old(self).0)@,
    {
        self.0.put_u16_be(2, x)
    }

    pub fn set_checksum(&mut self, x: u16)
        requires
            old(self).0@.len() >= 12,
        ensures
            final(self).0@ == overwrite(old(self).0@, 10, be_bytes(x as nat, 2)),
            final(final(self).0)@ == final(old(self).0)@,
    {
        self.0.put_u16_be(10, x)
    }
}

impl<'a> UdpHeader<&'a [u8]> {
    /// Lays the overlay over the bytes `x`.
    pub fn new(x: &'a [u8]) -> (h: Self)
        ensures
            h.0@ == x@,
    {
        UdpHeader(x)
    }

    pub fn source_port(&self) -> (r: u16)
        requires
            self.0@.len() >= 2,
        ensures
            r == be_at(self.0@, 0, 2),
    {
        self.0.u16_be(0)
    }

    pub fn dest_port(&self) -> (r: u16)
        requires
            self.0@.len() >= 4,
        ensures
            r == be_at(self.0@, 2, 2),
    {
        self.0.u16_be(2)
    }

    pub fn len(&self) -> (r: u16)
        requires
            self.0@.len() >= 6,
        ensures
            r == be_at(self.0@, 4, 2),
    {
        self.0.u16_be(4)
    }

    pub fn checksum(&self) -> (r: u16)
        requires
            self.0@.len() >= 8,
        ensures
            r == be_at(self.0@, 6, 2),
    {
        self.0.u16_be(6)
    }
}

impl<'a> UdpHeader<&'a mut [u8]> {
    /// Lays the overlay over the bytes `x`, for writing.
    pub fn new_mut(x: &'a mut [u8]) -> (h: Self)
        ensures
            h.0@ == old(x)@,
            final(x)@ == final(h.0)@,
    {
        UdpHeader(x)
    }

    /// The same header, to read.
    pub fn as_ref(&self) -> (h: UdpHeader<&[u8]>)
        ensures
            h.0@ == old(self.0)@,
    {
        UdpHeader(&*self.0)
    }

    pub fn set_len(&mut self, x: u16)
        requires
            old(self).0@.len() >= 6,
        ensures
            final(self).0@ == overwrite(old(self).0@, 4, be_bytes(x as nat, 2)),
            final(final(self).0)@ == final(old(self).0)@,
    {
        self.0.put_u16_be(4, x)
    }

    pub fn set_checksum(&mut self, x: u16)
        requires
            old(self).0@.len() >= 8,
        ensures
            final(self).0@ == overwrite(old(self).0@, 6, be_bytes(x as nat, 2)),
            final(final(self).0)@ == final(old(self).0)@,
    {
        self.0.put_u16_be(6, x)
    }
}

impl<'a> TfhHeader<&'a [u8]> {
    /// Lays the overlay over the bytes `x`.
    pub fn new(x: &'a [u8]) -> (h: Self)
        ensures
            h.0@ == x@,
    {
        TfhHeader(x)
    }

    /// The stream position of the first stream byte of this datagram.
    pub fn my_seq(&self) -> (r: u32)
        requires
            self.0@.len() >= 4,
        ensures
            r == be_at(self.0@, 0, 4),
    {
        self.0.u32_be(0)
    }

    /// The position in the opposite stream that the sender acknowledges.
    pub fn your_seq(&self) -> (r: u32)
        requires
            self.0@.len() >= 8,
        ensures
            r == be_at(self.0@, 4, 4),
    {
        self.0.u32_be(4)
    }
}

/// A buffer of at most [`PACKET_CAP`] bytes that holds one IP packet.
pub struct Packet {
    /// The bytes of the packet. No operation makes them more than
    /// [`PACKET_CAP`]; what a packet is never reaches past that number in
    /// any case.
    data: Vec<u8>,
}

impl View for Packet {
    type V = Seq<u8>;

    /// The bytes of the packet: what the buffer holds, up to its
    /// capacity.
    closed spec fn view(&self) -> Seq<u8> {
        capped(self.data@)
    }
}

/// The bytes of `s` up to the capacity of a packet.
pub open spec fn capped(s: Seq<u8>) -> Seq<u8> {
    if s.len() <= PACKET_CAP {
        s
    } else {
        s.subrange(0, PACKET_CAP as int)
    }
}

impl Default for Packet {
    /// An empty packet.
    fn default() -> (p: Packet)
        ensures
            p@ == Seq::<u8>::empty(),
            p.wf(),
    {
        Packet { data: Vec::new() }
    }
}

impl Packet {
    /// The packet is no longer than the capacity of its buffer. This holds
    /// of every packet: see [`Packet::lemma_within_capacity`].
    pub open spec fn wf(&self) -> bool {
        self@.len() <= PACKET_CAP
    }

    /// Every packet, whatever has been done to it, is no longer than the
    /// capacity of its buffer.
    pub proof fn lemma_within_capacity(&self)
        ensures
            self@.len() <= PACKET_CAP,
            self.wf(),
    {
    }

    /// A packet of `len` zero bytes.
    pub fn zeroed(len: usize) -> (p: Packet)
        requires
            len <= PACKET_CAP,
        ensures
            p@ == Seq::new(len as nat, |i: int| 0u8),
            p.wf(),
    {
        let mut data: Vec<u8> = Vec::new();
        let mut i: usize = 0;
        while i < len
            invariant
                i <= len,
                data@ == Seq::new(i as nat, |j: int| 0u8),
            decreases len - i,
        {
            data.push(0);
            i = i + 1;
            assert(data@ =~= Seq::new(i as nat, |j: int| 0u8));
        }
        Packet { data }
    }

    /// The number of bytes in the packet.
    pub fn len(&self) -> (r: usize)
        ensures
            r == self@.len(),
            r <= PACKET_CAP,
    {
        let n: usize = self.data.len();
        if n <= PACKET_CAP {
            n
        } else {
            PACKET_CAP
        }
    }

    /// Sets the length to `len`: the packet is cut there, or filled up to
    /// there with zero bytes.
    pub fn set_len(&mut self, len: usize)
        requires
            len <= PACKET_CAP,
        ensures
            len <= old(self)@.len() ==> final(self)@ == old(self)@.subrange(0, len as int),
            len > old(self)@.len() ==> final(self)@ == old(self)@ + Seq::new(
                (len - old(self)@.len()) as nat,
                |i: int| 0u8,
            ),
            final(self).wf(),
    {
        let n: usize = self.len();
        if len <= n {
            self.data.truncate(len);
            assert(self@ =~= old(self)@.subrange(0, len as int));
        } else {
            let mut i: usize = n;
            while i < len
                invariant
                    n <= i <= len,
                    n == old(self)@.len(),
                    len <= PACKET_CAP,
                    self.data@ == old(self)@ + Seq::new((i - n) as nat, |j: int| 0u8),
                decreases len - i,
            {
                self.data.push(0);
                i = i + 1;
                assert(self.data@ =~= old(self)@ + Seq::new((i - n) as nat, |j: int| 0u8));
            }
        }
    }

    /// Appends one byte. The packet must have room for it.
    pub fn push(&mut self, b: u8)
        requires
            old(self)@.len() < PACKET_CAP,
        ensures
            final(self)@ == old(self)@.push(b),
            final(self).wf(),
    {
        self.data.push(b);
    }

    /// Appends the bytes of `it`. The packet must have room for them.
    pub fn extend(&mut self, it: Vec<u8>)
        requires
            old(self)@.len() + it@.len() <= PACKET_CAP,
        ensures
            final(self)@ == old(self)@ + it@,
            final(self).wf(),
    {
        self.extend_from_slice(it.as_slice());
    }

    /// Appends the bytes of `bs`. The packet must have room for them.
    pub fn extend_from_slice(&mut self, bs: &[u8])
        requires
            old(self)@.len() + bs@.len() <= PACKET_CAP,
        ensures
            final(self)@ == old(self)@ + bs@,
            final(self).wf(),
    {
        let n: usize = bs.len();
        let mut i: usize = 0;
        while i < n
            invariant
                i <= n == bs@.len(),
                old(self)@.len() + n <= PACKET_CAP,
                self@ == old(self)@ + bs@.subrange(0, i as int),
            decreases n - i,
        {
            self.push(bs[i]);
            i = i + 1;
            assert(self@ =~= old(self)@ + bs@.subrange(0, i as int));
        }
        assert(bs@.subrange(0, n as int) =~= bs@);
    }

    /// Cuts the packet down to its first `len` bytes.
    pub fn truncate(&mut self, len: usize)
        requires
            len <= old(self)@.len(),
        ensures
            final(self)@ == old(self)@.subrange(0, len as int),
            final(self).wf(),
    {
        self.data.truncate(len);
        assert(self@ =~= old(self)@.subrange(0, len as int));
    }

    /// The bytes of the packet.
    pub fn as_slice(&self) -> (r: &[u8])
        ensures
            r@ == self@,
    {
        let n: usize = self.len();
        let s: &[u8] = self.data.as_slice();
        assert(s@.subrange(0, n as int) =~= self@);
        &s[0..n]
    }

    /// The bytes of the packet, to write. What is written is the packet's
    /// content when the borrow ends: a slice keeps its length, and with
    /// it the packet does.
    pub fn as_mut_slice(&mut self) -> (r: &mut [u8])
        ensures
            r@ == old(self)@,
            final(r)@.len() == r@.len() ==> final(self)@ == final(r)@,
            final(self).wf(),
    {
        let n: usize = self.len();
        let ghost all = self.data@;
        assert(all.subrange(0, n as int) =~= self@);
        let (head, _rest) = self.data.as_mut_slice().split_at_mut(n);
        proof {
            let spare = all.subrange(n as int, all.len() as int);
            assert forall|h: Seq<u8>| h.len() == n implies #[trigger] capped(h + spare) == h by {
                if all.len() <= PACKET_CAP {
                    assert(h + spare =~= h);
                } else {
                    assert((h + spare).subrange(0, PACKET_CAP as int) =~= h);
                }
            }
        }
        head
    }

    /// Whether the packet begins as an IPv4 packet does.
    pub fn is_ipv4(&self) -> (r: bool)
        ensures
            r == is_ipv4_bytes(self@),
    {
        self.len() >= 1 && Ipv4Header::new(self.as_slice()).version() == 4
    }

    /// Whether the packet begins as an IPv6 packet does.
    pub fn is_ipv6(&self) -> (r: bool)
        ensures
            r == is_ipv6_bytes(self@),
    {
        self.len() >= 1 && Ipv4Header::new(self.as_slice()).version() == 6
    }

    /// Where the IPv4 header begins.
    pub fn ipv4_start(&self) -> (r: usize)
        ensures
            r == 0,
    {
        0
    }

    /// The length of the IPv4 header, as its first byte gives it.
    pub fn ipv4_len(&self) -> (r: usize)
        requires
            self@.len() >= 1,
        ensures
            r == ipv4_header_len(self@),
            r <= 60,
    {
        Ipv4Header::new(self.as_slice()).ihl() as usize * 4
    }

    /// Where the IPv4 header ends and its payload begins.
    pub fn ipv4_end(&self) -> (r: usize)
        requires
            self@.len() >= 1,
        ensures
            r == ipv4_header_len(self@),
            r <= 60,
    {
        self.ipv4_start() + self.ipv4_len()
    }

    /// The IPv4 header, to read.
    pub fn ipv4(&self) -> (r: Ipv4Header<&[u8]>)
        requires
            self@.len() >= 1,
            ipv4_header_len(self@) <= self@.len(),
        ensures
            r.0@ == self@.subrange(0, ipv4_header_len(self@)),
    {
        let end: usize = self.ipv4_end();
        let s: &[u8] = self.as_slice();
        Ipv4Header::new(&s[0..end])
    }

    /// The IPv4 header, to write. What is written is in the packet when
    /// the borrow ends, the header keeping its length as a slice does; the
    /// bytes after the header stay.
    pub fn ipv4_mut(&mut self) -> (r: Ipv4Header<&mut [u8]>)
        requires
            old(self)@.len() >= 1,
            ipv4_header_len(old(self)@) <= old(self)@.len(),
        ensures
            r.0@ == old(self)@.subrange(0, ipv4_header_len(old(self)@)),
            final(r.0)@.len() == r.0@.len() ==> final(self)@ == final(r.0)@ + old(self)@.subrange(
                ipv4_header_len(old(self)@),
                old(self)@.len() as int,
            ),
            final(self).wf(),
    {
        let end: usize = self.ipv4_end();
        let (head, _rest) = self.as_mut_slice().split_at_mut(end);
        Ipv4Header::new_mut(head)
    }

    /// The bytes after the IPv4 header.
    pub fn ipv4_payload(&self) -> (r: &[u8])
        requires
            self@.len() >= 1,
            ipv4_header_len(self@) <= self@.len(),
        ensures
            r@ == self@.subrange(ipv4_header_len(self@), self@.len() as int),
    {
        let end: usize = self.ipv4_end();
        let s: &[u8] = self.as_slice();
        &s[end..s.len()]
    }

    /// The bytes after the IPv4 header, to write. What is written is in
    /// the packet when the borrow ends, the slice keeping its length; the
    /// header stays.
    pub fn ipv4_payload_mut(&mut self) -> (r: &mut [u8])
        requires
            old(self)@.len() >= 1,
            ipv4_header_len(old(self)@) <= old(self)@.len(),
        ensures
            r@ == old(self)@.subrange(ipv4_header_len(old(self)@), old(self)@.len() as int),
            final(r)@.len() == r@.len() ==> final(self)@ == old(self)@.subrange(
                0,
                ipv4_header_len(old(self)@),
            ) + final(r)@,
            final(self).wf(),
    {
        let end: usize = self.ipv4_end();
        let (_head, rest) = self.as_mut_slice().split_at_mut(end);
        rest
    }

    /// Where the UDP header begins: after the IPv4 header.
    pub fn udp_start(&self) -> (r: usize)
        requires
            is_ipv4_bytes(self@),
        ensures
            r == ipv4_header_len(self@),
            r <= 60,
    {
        self.ipv4_end()
    }

    /// The length of a UDP header.
    pub fn udp_len(&self) -> (r: usize)
        ensures
            r == UDP_HEADER_LEN,
    {
        UDP_HEADER_LEN
    }

    /// Where the UDP header ends and its payload begins.
    pub fn udp_end(&self) -> (r: usize)
        requires
            is_ipv4_bytes(self@),
        ensures
            r == ipv4_header_len(self@) + UDP_HEADER_LEN,
    {
        self.udp_start() + self.udp_len()
    }

    /// The UDP header, to read.
    pub fn udp(&self) -> (r: UdpHeader<&[u8]>)
        requires
            is_ipv4_bytes(self@),
            ipv4_header_len(self@) + UDP_HEADER_LEN <= self@.len(),
        ensures
            r.0@ == self@.subrange(
                ipv4_header_len(self@),
                ipv4_header_len(self@) + UDP_HEADER_LEN,
            ),
    {
        let start: usize = self.udp_start();
        let end: usize = self.udp_end();
        let s: &[u8] = self.as_slice();
        UdpHeader::new(&s[start..end])
    }

    /// The UDP header, to write. What is written is in the packet when the
    /// borrow ends, the header keeping its length as a slice does; the
    /// bytes before and after the header stay.
    pub fn udp_mut(&mut self) -> (r: UdpHeader<&mut [u8]>)
        requires
            is_ipv4_bytes(old(self)@),
            ipv4_header_len(old(self)@) + UDP_HEADER_LEN <= old(self)@.len(),
        ensures
            r.0@ == old(self)@.subrange(
                ipv4_header_len(old(self)@),
                ipv4_header_len(old(self)@) + UDP_HEADER_LEN,
            ),
            final(r.0)@.len() == r.0@.len() ==> final(self)@ == old(self)@.subrange(
                0,
                ipv4_header_len(old(self)@),
            ) + final(r.0)@ + old(self)@.subrange(
                ipv4_header_len(old(self)@) + UDP_HEADER_LEN,
                old(self)@.len() as int,
            ),
            final(self).wf(),
    {
        let start: usize = self.udp_start();
        let (_head, rest) = self.as_mut_slice().split_at_mut(start);
        let (header, _tail) = rest.split_at_mut(UDP_HEADER_LEN);
        UdpHeader::new_mut(header)
    }

    /// The bytes after the UDP header.
    pub fn udp_payload(&self) -> (r: &[u8])
        requires
            is_ipv4_bytes(self@),
            ipv4_header_len(self@) + UDP_HEADER_LEN <= self@.len(),
        ensures
            r@ == self@.subrange(ipv4_header_len(self@) + UDP_HEADER_LEN, self@.len() as int),
    {
        let end: usize = self.udp_end();
        let s: &[u8] = self.as_slice();
        &s[end..s.len()]
    }

    /// The bytes after the UDP header, to write. What is written is in the
    /// packet when the borrow ends, the slice keeping its length; the
    /// headers stay.
    pub fn udp_payload_mut(&mut self) -> (r: &mut [u8])
        requires
            is_ipv4_bytes(old(self)@),
            ipv4_header_len(old(self)@) + UDP_HEADER_LEN <= old(self)@.len(),
        ensures
            r@ == old(self)@.subrange(
                ipv4_header_len(old(self)@) + UDP_HEADER_LEN,
                old(self)@.len() as int,
            ),
            final(r)@.len() == r@.len() ==> final(self)@ == old(self)@.subrange(
                0,
                ipv4_header_len(old(self)@) + UDP_HEADER_LEN,
            ) + final(r)@,
            final(self).wf(),
    {
        let end: usize = self.udp_end();
        let (_head, rest) = self.as_mut_slice().split_at_mut(end);
        rest
    }

    /// Whether the packet is IPv4 and its header names UDP as its
    /// protocol.
    pub fn is_udp(&self) -> (r: bool)
        ensures
            r == is_udp_bytes(self@),
    {
        if !self.is_ipv4() {
            return false;
        }
        let hl: usize = self.ipv4_len();
        if hl < 20 || hl > self.len() {
            return false;
        }
        self.ipv4().is_udp()
    }

    /// Whether the packet is IPv4, carries UDP and holds the whole UDP
    /// header.
    pub fn has_udp_header(&self) -> (r: bool)
        ensures
            r == has_udp_header(self@),
    {
        self.is_udp() && self.len() - self.ipv4_len() >= UDP_HEADER_LEN
    }
}

impl core::ops::Deref for Packet {
    type Target = [u8];

    /// The bytes of the packet.
    fn deref(&self) -> (r: &[u8])
        ensures
            r@ == self@,
    {
        self.as_slice()
    }
}

impl core::ops::DerefMut for Packet {
    /// The bytes of the packet, to write.
    fn deref_mut(&mut self) -> (r: &mut [u8])
        ensures
            r@ == old(self)@,
            final(r)@.len() == r@.len() ==> final(self)@ == final(r)@,
            final(self).wf(),
    {
        self.as_mut_slice()
    }
}

/// The part of the packet `p` that is its IPv4 header.
pub open spec fn ipv4_header_of(p: Seq<u8>) -> Seq<u8> {
    p.subrange(0, ipv4_header_len(p))
}

/// The part of the packet `p` that follows its UDP header.
pub open spec fn udp_payload_of(p: Seq<u8>) -> Seq<u8> {
    p.subrange(ipv4_header_len(p) + UDP_HEADER_LEN, p.len() as int)
}

/// The checksum field of the IPv4 header of `p` holds the checksum of that
/// header.
pub open spec fn ipv4_checksum_ok(p: Seq<u8>) -> bool {
    be_at(p, 10, 2) == ipv4_checksum_of(ipv4_header_of(p))
}

/// The checksum field of the UDP header of `p` holds the checksum of the
/// datagram.
pub open spec fn udp_checksum_ok(p: Seq<u8>) -> bool {
    be_at(p, ipv4_header_len(p) + 6, 2) == udp_checksum_of(p, udp_payload_of(p))
}

impl Packet {
    /// The checksum that belongs in the packet's IPv4 header.
    pub fn compute_ipv4_checksum(&self) -> (r: u16)
        requires
            self@.len() >= 1,
            ipv4_header_len(self@) <= self@.len(),
        ensures
            r == ipv4_checksum_of(ipv4_header_of(self@)),
    {
        let header = self.ipv4();
        let n: usize = header.0.len();
        let ghost h = header.0@;
        let ghost z = zero_checksum(h);
        let mut acc: u16 = 0;
        let mut i: usize = 0;
        proof {
            lemma_header_len_bound(self@);
        }
        while i < n
            invariant
                i <= n == h.len() <= 60,
                n % 2 == 0,
                i % 2 == 0,
                h == header.0@,
                z == zero_checksum(h),
                acc == ones_sum(z, (i / 2) as nat),
            decreases n - i,
        {
            if i != 10 {
                proof {
                    crate::bytes::lemma_be_at_two(h, i as int);
                }
                acc = ones_complement_add(acc, header.0.u16_be(i));
            }
            assert(ones_sum(z, (i / 2 + 1) as nat) == ones_add(
                ones_sum(z, (i / 2) as nat),
                word_at(z, i as int / 2),
            ));
            i = i + 2;
        }
        complement(acc)
    }

    /// The UDP checksum of the packet's datagram over the payload `data`.
    pub fn compute_udp_checksum(&self, data: &[u8]) -> (r: u16)
        requires
            has_ipv4_header(self@),
            ipv4_header_len(self@) + UDP_HEADER_LEN <= self@.len(),
        ensures
            r == udp_checksum_of(self@, data@),
    {
        let ip = self.ipv4();
        let udp = self.udp();
        let n: usize = data.len();
        let ghost u = ipv4_header_len(self@);
        let ghost ph = udp_pseudo_header_of(self@, n as nat);
        let ghost all = ph + data@;

        let source_ip: u32 = ip.source_ip();
        let dest_ip: u32 = ip.dest_ip();
        let protocol: u8 = ip.protocol();
        let source_port: u16 = udp.source_port();
        let dest_port: u16 = udp.dest_port();
        let udp_len: u16 = udp.len();
        // The length of the payload plus the UDP header, as 16 bits.
        let data_len: u16 = ((n % 0x1_0000 + 8) % 0x1_0000) as u16;
        proof {
            lemma_header_len_bound(self@);
            crate::bytes::lemma_be_at_subrange(self@, 0, u, 12, 4);
            crate::bytes::lemma_be_at_subrange(self@, 0, u, 16, 4);
            crate::bytes::lemma_be_at_subrange(self@, u, u + 8, 0, 2);
            crate::bytes::lemma_be_at_subrange(self@, u, u + 8, 2, 2);
            crate::bytes::lemma_be_at_subrange(self@, u, u + 8, 4, 2);
            crate::bytes::lemma_bytes_of_u8(protocol);
        }

        let mut pseudo: Vec<u8> = Vec::new();
        let mut k: usize = 0;
        while k < 20
            invariant
                k <= 20,
                pseudo@ == Seq::new(k as nat, |j: int| 0u8),
            decreases 20 - k,
        {
            pseudo.push(0);
            k = k + 1;
            assert(pseudo@ =~= Seq::new(k as nat, |j: int| 0u8));
        }
        let pseudo_header = pseudo.as_mut_slice();
        pseudo_header.put_u32_be(0, source_ip);
        pseudo_header.put_u32_be(4, dest_ip);
        pseudo_header.put_u8_be(9, protocol);
        pseudo_header.put_u16_be(10, data_len);
        pseudo_header.put_u16_be(12, source_port);
        pseudo_header.put_u16_be(14, dest_port);
        pseudo_header.put_u16_be(16, udp_len);
        assert(pseudo_header@ =~= ph);

        let mut acc: u16 = 0;
        let mut i: usize = 0;
        while i < 20
            invariant
                i <= 20,
                i % 2 == 0,
                pseudo_header@ == ph,
                ph.len() == 20,
                acc == ones_sum(ph, (i / 2) as nat),
            decreases 20 - i,
        {
            proof {
                crate::bytes::lemma_be_at_two(ph, i as int);
            }
            assert(ones_sum(ph, (i / 2 + 1) as nat) == ones_add(
                ones_sum(ph, (i / 2) as nat),
                word_at(ph, i as int / 2),
            ));
            acc = ones_complement_add(acc, pseudo_header.u16_be(i));
            i = i + 2;
        }
        proof {
            lemma_ones_sum_prefix(ph, all, 10);
        }

        let words: usize = n / 2 + n % 2;
        let mut w: usize = 0;
        while w < words
            invariant
                w <= words,
                words == n / 2 + n % 2,
                n == data@.len(),
                ph.len() == 20,
                all == ph + data@,
                acc == ones_sum(all, (10 + w) as nat),
            decreases words - w,
        {
            let at: usize = 2 * w;
            assert(all[20 + at] == data@[at as int]);
            assert(ones_sum(all, (10 + w + 1) as nat) == ones_add(
                ones_sum(all, (10 + w) as nat),
                word_at(all, 10 + w),
            ));
            if at + 1 < n {
                proof {
                    crate::bytes::lemma_be_at_two(data@, at as int);
                }
                assert(all[20 + at + 1] == data@[at + 1]);
                acc = ones_complement_add(acc, data.u16_be(at));
            } else {
                // A lone last byte is the high half of its word.
                acc = ones_complement_add(acc, data.u8_be(at) as u16 * 256);
            }
            w = w + 1;
        }
        assert(word_count(all) == 10 + words);

        if acc == 0xffff {
            0xffff
        } else {
            complement(acc)
        }
    }

    /// Writes into the IPv4 header the checksum that belongs there.
    pub fn update_ipv4_checksum(&mut self)
        requires
            has_ipv4_header(old(self)@),
        ensures
            final(self)@ == overwrite(
                old(self)@,
                10,
                be_bytes(ipv4_checksum_of(ipv4_header_of(old(self)@)) as nat, 2),
            ),
            ipv4_checksum_ok(final(self)@),
            final(self).wf(),
    {
        let sum: u16 = self.compute_ipv4_checksum();
        let ghost before = self@;
        let mut header = self.ipv4_mut();
        header.set_checksum(sum);
        proof {
            let after = overwrite(before, 10, be_bytes(sum as nat, 2));
            assert(self@ =~= after);
            lemma_ipv4_checksum_stays(before, be_bytes(sum as nat, 2));
            crate::bytes::lemma_pow256_widths();
            crate::bytes::lemma_be_round_trip(before, 10, 2, sum as nat);
        }
    }

    /// Writes into the UDP header the checksum of the datagram as it
    /// stands.
    pub fn update_udp_checksum(&mut self)
        requires
            has_ipv4_header(old(self)@),
            ipv4_header_len(old(self)@) + UDP_HEADER_LEN <= old(self)@.len(),
        ensures
            final(self)@ == overwrite(
                old(self)@,
                ipv4_header_len(old(self)@) + 6,
                be_bytes(udp_checksum_of(old(self)@, udp_payload_of(old(self)@)) as nat, 2),
            ),
            udp_checksum_ok(final(self)@),
            final(self).wf(),
    {
        let sum: u16 = self.compute_udp_checksum(self.udp_payload());
        let ghost before = self@;
        let ghost u = ipv4_header_len(before);
        let mut header = self.udp_mut();
        header.set_checksum(sum);
        proof {
            let after = overwrite(before, u + 6, be_bytes(sum as nat, 2));
            assert(self@ =~= after);
            lemma_header_len_bound(before);
            lemma_udp_checksum_stays(before, be_bytes(sum as nat, 2));
            crate::bytes::lemma_pow256_widths();
            crate::bytes::lemma_be_round_trip(before, u + 6, 2, sum as nat);
        }
    }

    /// Whether the packet is a stream datagram of the lobby protocol.
    pub fn is_tfh_stream(&self) -> (r: bool)
        ensures
            r == is_tfh_stream_bytes(self@),
    {
        if !self.has_udp_header() {
            return false;
        }
        let udp = self.udp();
        let source: u16 = udp.source_port();
        let dest: u16 = udp.dest_port();
        proof {
            let u = ipv4_header_len(self@);
            crate::bytes::lemma_be_at_subrange(self@, u, u + 8, 0, 2);
            crate::bytes::lemma_be_at_subrange(self@, u, u + 8, 2, 2);
        }
        (TFH_PORT_MIN <= source && source <= TFH_PORT_MAX) || (TFH_PORT_MIN <= dest && dest
            <= TFH_PORT_MAX)
    }

    /// Whether the packet is a stream datagram that holds both of its
    /// sequence numbers.
    pub fn has_tfh_header(&self) -> (r: bool)
        ensures
            r == has_tfh_header(self@),
    {
        self.is_tfh_stream() && self.udp_payload().len() >= TFH_HEADER_LEN
    }

    /// The sequence numbers of a stream datagram.
    pub fn tfh_stream(&self) -> (r: TfhHeader<&[u8]>)
        requires
            has_tfh_header(self@),
        ensures
            r.0@ == self@.subrange(
                ipv4_header_len(self@) + UDP_HEADER_LEN,
                tfh_payload_start(self@),
            ),
    {
        let start: usize = self.udp_end();
        let s: &[u8] = self.as_slice();
        TfhHeader::new(&s[start..start + TFH_HEADER_LEN])
    }

    /// The stream bytes of a stream datagram: what follows the sequence
    /// numbers.
    pub fn tfh_stream_payload(&self) -> (r: &[u8])
        requires
            has_tfh_header(self@),
        ensures
            r@ == self@.subrange(tfh_payload_start(self@), self@.len() as int),
    {
        let start: usize = self.udp_end() + TFH_HEADER_LEN;
        let s: &[u8] = self.as_slice();
        &s[start..s.len()]
    }
}

/// The checksum of an IPv4 header does not depend on what its checksum
/// field holds.
pub proof fn lemma_ipv4_checksum_stays(p: Seq<u8>, field: Seq<u8>)
    requires
        has_ipv4_header(p),
        field.len() == 2,
    ensures
        ipv4_header_len(overwrite(p, 10, field)) == ipv4_header_len(p),
        ipv4_checksum_of(ipv4_header_of(overwrite(p, 10, field))) == ipv4_checksum_of(
            ipv4_header_of(p),
        ),
{
    let q = overwrite(p, 10, field);
    assert(q[0] == p[0]);
    assert(zero_checksum(ipv4_header_of(q)) =~= zero_checksum(ipv4_header_of(p)));
}

/// An IPv4 header whose checksum field holds its checksum sums to all
/// ones, field and all: it passes the check of a receiver.
pub proof fn lemma_ipv4_checksum_verifies(p: Seq<u8>)
    requires
        has_ipv4_header(p),
        ipv4_checksum_ok(p),
    ensures
        internet_sum(ipv4_header_of(p)) == 0xffff,
{
    let h = ipv4_header_of(p);
    lemma_header_len_bound(p);
    assert(crate::checksum::without_word(h, 5) =~= zero_checksum(h));
    crate::bytes::lemma_be_at_two(p, 10);
    assert(word_at(h, 5) == be_at(p, 10, 2));
    crate::checksum::lemma_complement_completes(h, 5);
}

/// The checksum round trip: an IPv4 header that sums to all ones, and
/// whose checksum field is not all ones itself, holds in that field the
/// checksum that is computed for it.
pub proof fn lemma_ipv4_checksum_round_trip(p: Seq<u8>)
    requires
        has_ipv4_header(p),
        internet_sum(ipv4_header_of(p)) == 0xffff,
        be_at(p, 10, 2) != 0xffff,
    ensures
        ipv4_checksum_ok(p),
{
    let h = ipv4_header_of(p);
    lemma_header_len_bound(p);
    assert(crate::checksum::without_word(h, 5) =~= zero_checksum(h));
    crate::bytes::lemma_be_at_two(p, 10);
    assert(word_at(h, 5) == be_at(p, 10, 2));
    crate::checksum::lemma_complete_has_complement(h, 5);
}

/// The pseudo header and payload of a datagram, summed together with the
/// UDP checksum that is computed for them, give all ones: the datagram
/// passes the check of a receiver.
pub proof fn lemma_udp_checksum_verifies(p: Seq<u8>, data: Seq<u8>)
    ensures
        ones_add(
            internet_sum(udp_pseudo_header_of(p, data.len()) + data),
            udp_checksum_of(p, data) as nat,
        ) == 0xffff,
        1 <= udp_checksum_of(p, data) <= 0xffff,
{
    let all = udp_pseudo_header_of(p, data.len()) + data;
    lemma_ones_sum_bound(all, word_count(all));
}

/// The UDP checksum of a datagram does not depend on what the checksum
/// field of its UDP header holds.
pub proof fn lemma_udp_checksum_stays(p: Seq<u8>, field: Seq<u8>)
    requires
        has_ipv4_header(p),
        ipv4_header_len(p) + UDP_HEADER_LEN <= p.len(),
        field.len() == 2,
    ensures
        ipv4_header_len(overwrite(p, ipv4_header_len(p) + 6, field)) == ipv4_header_len(p),
        udp_checksum_of(
            overwrite(p, ipv4_header_len(p) + 6, field),
            udp_payload_of(overwrite(p, ipv4_header_len(p) + 6, field)),
        ) == udp_checksum_of(p, udp_payload_of(p)),
{
    let u = ipv4_header_len(p);
    let q = overwrite(p, u + 6, field);
    assert(q[0] == p[0]);
    assert(q[9] == p[9]);
    assert(udp_payload_of(q) =~= udp_payload_of(p));
    lemma_be_at_window(p, q, 12, 4);
    lemma_be_at_window(p, q, 16, 4);
    lemma_be_at_window(p, q, u, 2);
    lemma_be_at_window(p, q, u + 2, 2);
    lemma_be_at_window(p, q, u + 4, 2);
}

} // verus!
