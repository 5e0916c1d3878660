//! Captures in the tcpdump file format, read for the IP packets in them.
//!
//! A capture opens with a header of 24 bytes whose first word is the magic
//! number `0xa1b2c3d4`, written in the byte order of the machine that made
//! the capture; that order holds for every later header. Then come the
//! records: a header of 16 bytes (seconds, microseconds, the number of
//! bytes captured, the number of bytes on the wire) and the captured bytes,
//! an Ethernet frame.

use crate::bytes::{be_at, le_at, Bytes};
use crate::packet::{Packet, PACKET_CAP};
use vstd::prelude::*;

verus! {

/// The first word of a capture.
pub const PCAP_MAGIC: u32 = 0xa1b2_c3d4;

/// The length of the header of a capture.
pub const GLOBAL_HEADER_LEN: usize = 24;

/// The length of the header of a record.
pub const RECORD_HEADER_LEN: usize = 16;

/// The length of an Ethernet header: two addresses and the type.
pub const ETHERNET_HEADER_LEN: usize = 14;

/// The Ethernet type of IPv4.
pub const ETHERTYPE_IPV4: u16 = 0x0800;

/// The Ethernet type of IPv6.
pub const ETHERTYPE_IPV6: u16 = 0x86dd;

/// When a packet was captured.
#[derive(Clone, Copy, PartialEq, Eq, PartialOrd, Ord, Debug, Default)]
pub struct Timestamp {
    pub sec: i32,
    pub usec: u32,
}

/// The byte order of the headers of a capture.
#[derive(Clone, Copy, PartialEq, Eq, Debug, Structural)]
pub enum ByteOrder {
    Little,
    Big,
}

/// Why a capture could not be read.
#[derive(Clone, Copy, PartialEq, Eq, Debug, Structural)]
pub enum PcapError {
    /// The bytes end before the header or record that was to be read.
    UnexpectedEof,
    /// The capture does not open with the magic number in either byte
    /// order.
    BadMagic,
}

/// The 32-bit word of `data` at `i`, read in the byte order `order`.
pub open spec fn word_at(data: Seq<u8>, i: int, order: ByteOrder) -> nat {
    match order {
        ByteOrder::Little => le_at(data, i, 4),
        ByteOrder::Big => be_at(data, i, 4),
    }
}

/// The byte order in which `data` opens with the magic number, if it does.
pub open spec fn byte_order_of(data: Seq<u8>) -> Option<ByteOrder> {
    if le_at(data, 0, 4) == PCAP_MAGIC {
        Some(ByteOrder::Little)
    } else if be_at(data, 0, 4) == PCAP_MAGIC {
        Some(ByteOrder::Big)
    } else {
        None
    }
}

/// A 32-bit word taken as a signed number.
pub open spec fn as_signed(w: nat) -> int {
    if w >= 0x8000_0000 {
        w - 0x1_0000_0000
    } else {
        w as int
    }
}

/// A capture and the place up to which it has been read.
pub struct PcapState {
    pub data: Seq<u8>,
    /// Where the next record begins.
    pub pos: nat,
    pub order: ByteOrder,
}

impl PcapState {
    /// The number of captured bytes that the record at `pos` says it has.
    pub open spec fn record_len(self) -> nat {
        word_at(self.data, (self.pos + 8) as int, self.order)
    }

    /// The header of the record at `pos` and all of its captured bytes are
    /// there.
    pub open spec fn record_whole(self) -> bool {
        &&& self.pos + RECORD_HEADER_LEN <= self.data.len()
        &&& self.pos + RECORD_HEADER_LEN + self.record_len() <= self.data.len()
    }

    /// Where the record at `pos` ends.
    pub open spec fn record_end(self) -> nat {
        (self.pos + RECORD_HEADER_LEN + self.record_len()) as nat
    }

    /// The Ethernet type of the frame in the record at `pos`.
    pub open spec fn record_ethertype(self) -> nat {
        be_at(self.data, self.pos + RECORD_HEADER_LEN + 12, 2)
    }

    /// The record at `pos` holds an IP packet that a packet buffer can
    /// take: a whole Ethernet header of type IPv4 or IPv6, and after it no
    /// more bytes than the capacity of a packet.
    pub open spec fn record_is_ip(self) -> bool {
        &&& self.record_len() >= ETHERNET_HEADER_LEN
        &&& self.record_ethertype() == ETHERTYPE_IPV4 || self.record_ethertype()
            == ETHERTYPE_IPV6
        &&& self.record_len() - ETHERNET_HEADER_LEN <= PACKET_CAP
    }

    /// The bytes of the IP packet in the record at `pos`.
    pub open spec fn record_packet(self) -> Seq<u8> {
        self.data.subrange(
            self.pos + RECORD_HEADER_LEN + ETHERNET_HEADER_LEN,
            self.record_end() as int,
        )
    }

    /// When the record at `pos` was captured.
    pub open spec fn record_time(self) -> Timestamp {
        Timestamp {
            sec: as_signed(word_at(self.data, self.pos as int, self.order)) as i32,
            usec: word_at(self.data, (self.pos + 4) as int, self.order) as u32,
        }
    }

    /// The capture with the record at `pos` read.
    pub open spec fn advanced(self) -> PcapState {
        PcapState { pos: self.record_end(), ..self }
    }

    /// The capture at the first record from `pos` on that holds an IP
    /// packet, if the records up to it are whole.
    pub open spec fn next_ip(self) -> Option<PcapState>
        decreases self.data.len() - self.pos,
    {
        if !self.record_whole() {
            None
        } else if self.record_is_ip() {
            Some(self)
        } else {
            self.advanced().next_ip()
        }
    }
}

/// A capture that is read record by record.
pub struct Pcap {
    data: Vec<u8>,
    pos: usize,
    order: ByteOrder,
    time: Timestamp,
}

impl View for Pcap {
    type V = PcapState;

    closed spec fn view(&self) -> PcapState {
        PcapState { data: self.data@, pos: self.pos as nat, order: self.order }
    }
}

impl Pcap {
    /// The place that has been read up to lies within the capture.
    pub closed spec fn wf(&self) -> bool {
        self.pos <= self.data@.len()
    }

    /// The time of the record that was read last.
    pub closed spec fn last_time(&self) -> Timestamp {
        self.time
    }

    /// Opens the capture `data`. It must hold the whole header and open
    /// with the magic number, in either byte order.
    pub fn new(data: Vec<u8>) -> (r: Result<Pcap, PcapError>)
        ensures
            match r {
                Ok(pcap) => {
                    &&& data@.len() >= GLOBAL_HEADER_LEN
                    &&& byte_order_of(data@) == Some(pcap@.order)
                    &&& pcap@.data == data@
                    &&& pcap@.pos == GLOBAL_HEADER_LEN
                    &&& pcap.wf()
                },
                Err(e) => if data@.len() < GLOBAL_HEADER_LEN {
                    e == PcapError::UnexpectedEof
                } else {
                    e == PcapError::BadMagic && byte_order_of(data@) is None
                },
            },
    {
        if data.len() < GLOBAL_HEADER_LEN {
            return Err(PcapError::UnexpectedEof);
        }
        let order: ByteOrder = if data.as_slice().u32_le(0) == PCAP_MAGIC {
            ByteOrder::Little
        } else if data.as_slice().u32_be(0) == PCAP_MAGIC {
            ByteOrder::Big
        } else {
            return Err(PcapError::BadMagic);
        };
        Ok(Pcap { data, pos: GLOBAL_HEADER_LEN, order, time: Timestamp { sec: 0, usec: 0 } })
    }

    /// The 32-bit word at `i`, in the byte order of the capture.
    fn word(&self, i: usize) -> (w: u32)
        requires
            i + 4 <= self.data@.len(),
        ensures
            w == word_at(self.data@, i as int, self.order),
    {
        match self.order {
            ByteOrder::Little => self.data.as_slice().u32_le(i),
            ByteOrder::Big => self.data.as_slice().u32_be(i),
        }
    }

    /// When the record that was read last was captured.
    pub fn time(&self) -> (t: Timestamp)
        ensures
            t == self.last_time(),
    {
        self.time
    }

    /// Reads the next record. It gives the IP packet in it, or nothing
    /// where the record holds none that a packet buffer can take. Where
    /// the capture ends before the record does, nothing is read.
    pub fn try_read(&mut self) -> (r: Result<Option<Packet>, PcapError>)
        requires
            old(self).wf(),
        ensures
            final(self).wf(),
            !old(self)@.record_whole() ==> r == Err::<Option<Packet>, PcapError>(
                PcapError::UnexpectedEof,
            ) && final(self)@ == old(self)@ && final(self).last_time() == old(self).last_time(),
            old(self)@.record_whole() ==> final(self)@ == old(self)@.advanced()
                && final(self).last_time() == old(self)@.record_time() && (match r {
                Ok(Some(p)) => old(self)@.record_is_ip() && p@ == old(self)@.record_packet()
                    && p.wf(),
                Ok(None) => !old(self)@.record_is_ip(),
                Err(_) => false,
            }),
    {
        let total: usize = self.data.len();
        if total - self.pos < RECORD_HEADER_LEN {
            return Err(PcapError::UnexpectedEof);
        }
        let at: usize = self.pos;
        let len: u32 = self.word(at + 8);
        if ((total - at - RECORD_HEADER_LEN) as u64) < len as u64 {
            return Err(PcapError::UnexpectedEof);
        }
        let len: usize = len as usize;
        let sec: u32 = self.word(at);
        let usec: u32 = self.word(at + 4);
        self.time = Timestamp {
            sec: if sec >= 0x8000_0000 {
                (sec as i64 - 0x1_0000_0000) as i32
            } else {
                sec as i32
            },
            usec,
        };
        let frame: usize = at + RECORD_HEADER_LEN;
        let end: usize = frame + len;
        self.pos = end;
        if len < ETHERNET_HEADER_LEN {
            return Ok(None);
        }
        let ethertype: u16 = self.data.as_slice().u16_be(frame + 12);
        // Only IPv4 and IPv6 packets are handed out.
        if ethertype != ETHERTYPE_IPV4 && ethertype != ETHERTYPE_IPV6 {
            return Ok(None);
        }
        if len - ETHERNET_HEADER_LEN > PACKET_CAP {
            return Ok(None);
        }
        let mut p: Packet = Packet::default();
        let s: &[u8] = self.data.as_slice();
        p.extend_from_slice(&s[frame + ETHERNET_HEADER_LEN..end]);
        assert(p@ =~= old(self)@.record_packet());
        Ok(Some(p))
    }

    /// Reads records up to the next one that holds an IP packet, and gives
    /// that packet. Where the capture ends first, the error says so.
    pub fn read(&mut self) -> (r: Result<Packet, PcapError>)
        requires
            old(self).wf(),
        ensures
            final(self).wf(),
            final(self)@.data == old(self)@.data,
            final(self)@.order == old(self)@.order,
            match r {
                Ok(p) => {
                    &&& old(self)@.next_ip() matches Some(at)
                    &&& p@ == at.record_packet()
                    &&& p.wf()
                    &&& final(self)@ == at.advanced()
                    &&& final(self).last_time() == at.record_time()
                },
                Err(e) => e == PcapError::UnexpectedEof && old(self)@.next_ip() is None,
            },
    {
        loop
            invariant
                self.wf(),
                self@.data == old(self)@.data,
                self@.order == old(self)@.order,
                self@.next_ip() == old(self)@.next_ip(),
            decreases self@.data.len() - self@.pos,
        {
            match self.try_read() {
                Ok(Some(x)) => {
                    return Ok(x);
                },
                Ok(None) => {},
                Err(e) => {
                    return Err(e);
                },
            }
        }
    }
}

} // verus!
