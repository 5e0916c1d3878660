//! One line of text for a header or a packet, for logs: the fields in
//! hexadecimal.

use crate::bytes::be_at;
use crate::dump::{all_ascii, ascii_chars, hex_number, lossy_text, push_hex_number, zero_padded};
use crate::packet::{
    has_ipv4_header, ip_version, ipv4_header_len, ipv4_header_of, ipv4_ihl, is_ipv6_bytes,
    has_udp_header, Ipv4Header, Packet, UdpHeader, UDP_HEADER_LEN,
};
use vstd::prelude::*;

verus! {

/// A field in hexadecimal, with zero digits before it up to `width`
/// characters.
pub open spec fn field(n: nat, width: nat) -> Seq<u8> {
    zero_padded(hex_number(n), width)
}

/// The text `prefix`, a space, and the field `n`.
pub open spec fn spaced(prefix: Seq<u8>, n: nat, width: nat) -> Seq<u8> {
    prefix + seq![0x20u8] + field(n, width)
}

/// The ASCII codes of the line for the IPv4 header `h`: the letter `I`,
/// then version, header length, total length, identification, flags,
/// fragment offset, protocol, and the two addresses, a space before each.
pub open spec fn ipv4_text(h: Seq<u8>) -> Seq<u8> {
    let t = seq![0x49u8];
    let t = spaced(t, ip_version(h) as nat, 1);
    let t = spaced(t, ipv4_ihl(h) as nat, 1);
    let t = spaced(t, be_at(h, 2, 2), 4);
    let t = spaced(t, be_at(h, 4, 2), 4);
    let t = spaced(t, (h[6] >> 5) as nat, 1);
    let t = spaced(t, ((be_at(h, 6, 2) as u16) & 0x1fff) as nat, 4);
    let t = spaced(t, h[9] as nat, 2);
    let t = spaced(t, be_at(h, 12, 4), 8);
    spaced(t, be_at(h, 16, 4), 8)
}

/// The ASCII codes of the line for the UDP header `h`: the letter `U`,
/// then the two ports, the length and the checksum, a space before each.
pub open spec fn udp_text(h: Seq<u8>) -> Seq<u8> {
    let t = seq![0x55u8];
    let t = spaced(t, be_at(h, 0, 2), 4);
    let t = spaced(t, be_at(h, 2, 2), 4);
    let t = spaced(t, be_at(h, 4, 2), 4);
    spaced(t, be_at(h, 6, 2), 4)
}

/// The ASCII codes of the line for the packet `p`: the word `Pkt`, then
/// the line of its IPv4 header if it has a whole one, then after a
/// semicolon the line of its UDP header if it has a whole one. An IPv6
/// packet is marked as such.
pub open spec fn packet_text(p: Seq<u8>) -> Seq<u8> {
    seq![0x50u8, 0x6bu8, 0x74u8] + (if has_ipv4_header(p) {
        seq![0x20u8] + ipv4_text(ipv4_header_of(p)) + (if has_udp_header(p) {
            seq![0x3bu8, 0x20u8] + udp_text(
                p.subrange(ipv4_header_len(p), ipv4_header_len(p) + UDP_HEADER_LEN),
            )
        } else {
            Seq::empty()
        })
    } else if is_ipv6_bytes(p) {
        seq![0x20u8, 0x49u8, 0x20u8, 0x36u8]
    } else {
        Seq::empty()
    })
}

/// Appends a space and the field `n`.
fn push_field(out: &mut Vec<u8>, n: u32, width: usize)
    requires
        all_ascii(old(out)@),
    ensures
        final(out)@ == spaced(old(out)@, n as nat, width as nat),
        all_ascii(final(out)@),
{
    out.push(0x20);
    push_hex_number(out, n, width);
    assert(out@ =~= spaced(old(out)@, n as nat, width as nat));
}

/// Appends the bytes of `more` to `out`.
fn append_text(out: &mut Vec<u8>, more: &Vec<u8>)
    requires
        all_ascii(old(out)@),
        all_ascii(more@),
    ensures
        final(out)@ == old(out)@ + more@,
        all_ascii(final(out)@),
{
    let n: usize = more.len();
    let mut i: usize = 0;
    while i < n
        invariant
            i <= n == more@.len(),
            all_ascii(more@),
            all_ascii(out@),
            out@ == old(out)@ + more@.subrange(0, i as int),
        decreases n - i,
    {
        out.push(more[i]);
        i = i + 1;
        assert(out@ =~= old(out)@ + more@.subrange(0, i as int));
    }
    assert(more@.subrange(0, n as int) =~= more@);
}

impl<'a> Ipv4Header<&'a [u8]> {
    /// The ASCII codes of the line for the header.
    fn describe(&self) -> (out: Vec<u8>)
        requires
            self.0@.len() >= 20,
        ensures
            out@ == ipv4_text(self.0@),
            all_ascii(out@),
    {
        let mut out: Vec<u8> = Vec::new();
        out.push(0x49);
        assert(out@ =~= seq![0x49u8]);
        push_field(&mut out, self.version() as u32, 1);
        push_field(&mut out, self.ihl() as u32, 1);
        push_field(&mut out, self.total_len() as u32, 4);
        push_field(&mut out, self.ident() as u32, 4);
        push_field(&mut out, self.flags() as u32, 1);
        push_field(&mut out, self.offset() as u32, 4);
        push_field(&mut out, self.protocol() as u32, 2);
        push_field(&mut out, self.source_ip(), 8);
        push_field(&mut out, self.dest_ip(), 8);
        out
    }

    /// The line for the header: the letter `I`, then version, header
    /// length, total length, identification, flags, fragment offset,
    /// protocol, and the two addresses, in hexadecimal.
    pub fn to_text(&self) -> (s: String)
        requires
            self.0@.len() >= 20,
        ensures
            s@ == ascii_chars(ipv4_text(self.0@)),
    {
        let out: Vec<u8> = self.describe();
        lossy_text(out.as_slice())
    }
}

impl<'a> UdpHeader<&'a [u8]> {
    /// The ASCII codes of the line for the header.
    fn describe(&self) -> (out: Vec<u8>)
        requires
            self.0@.len() >= 8,
        ensures
            out@ == udp_text(self.0@),
            all_ascii(out@),
    {
        let mut out: Vec<u8> = Vec::new();
        out.push(0x55);
        assert(out@ =~= seq![0x55u8]);
        push_field(&mut out, self.source_port() as u32, 4);
        push_field(&mut out, self.dest_port() as u32, 4);
        push_field(&mut out, self.len() as u32, 4);
        push_field(&mut out, self.checksum() as u32, 4);
        out
    }

    /// The line for the header: the letter `U`, then the two ports, the
    /// length and the checksum, in hexadecimal.
    pub fn to_text(&self) -> (s: String)
        requires
            self.0@.len() >= 8,
        ensures
            s@ == ascii_chars(udp_text(self.0@)),
    {
        let out: Vec<u8> = self.describe();
        lossy_text(out.as_slice())
    }
}

impl Packet {
    /// The line for the packet: the word `Pkt` and the lines of the
    /// headers that it holds whole.
    pub fn to_text(&self) -> (s: String)
        ensures
            s@ == ascii_chars(packet_text(self@)),
    {
        let mut out: Vec<u8> = Vec::new();
        out.push(0x50);
        out.push(0x6b);
        out.push(0x74);
        let ghost word = out@;
        assert(word =~= seq![0x50u8, 0x6bu8, 0x74u8]);
        if self.is_ipv4() {
            let hl: usize = self.ipv4_len();
            if hl >= 20 && hl <= self.len() {
                out.push(0x20);
                let ip: Vec<u8> = self.ipv4().describe();
                append_text(&mut out, &ip);
                let ghost with_ip = out@;
                assert(with_ip =~= word + seq![0x20u8] + ipv4_text(ipv4_header_of(self@)));
                if self.has_udp_header() {
                    out.push(0x3b);
                    out.push(0x20);
                    let udp: Vec<u8> = self.udp().describe();
                    append_text(&mut out, &udp);
                    assert(out@ =~= with_ip + (seq![0x3bu8, 0x20u8] + udp_text(
                        self@.subrange(
                            ipv4_header_len(self@),
                            ipv4_header_len(self@) + UDP_HEADER_LEN,
                        ),
                    )));
                }
            }
        } else if self.is_ipv6() {
            out.push(0x20);
            out.push(0x49);
            out.push(0x20);
            out.push(0x36);
            assert(out@ =~= word + seq![0x20u8, 0x49u8, 0x20u8, 0x36u8]);
        }
        assert(out@ =~= packet_text(self@));
        lossy_text(out.as_slice())
    }
}

} // verus!
