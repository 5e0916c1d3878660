//! What the middlebox does with one packet: it shows it to the table of
//! connections, edits it where it is a server status reply, and says which
//! side it goes out on.

pub use crate::dump::{dump_hex, dump_mixed, is_printable_ascii};

use crate::bytes::{be_at, be_bytes, overwrite};
use crate::conns::{
    conn_tuple_of, messages_after, table_after, told_messages, warnings_after, StreamHandler,
    TfhStreamConns, Warning,
};
use crate::packet::{
    has_ipv4_header, ipv4_checksum_of, ipv4_header_len, ipv4_header_of,
    has_tfh_header, has_udp_header, lemma_header_len_bound, tfh_payload_start, udp_checksum_of, udp_payload_of,
    Packet, PACKET_CAP, UDP_HEADER_LEN,
};
use vstd::prelude::*;

verus! {

/// A packet as it comes in, by the side it came from.
pub enum Input {
    /// From side A, the outside.
    FromA(Packet),
    /// From side B, where the server is.
    FromB(Packet),
}

/// A packet as it goes out, by the side it goes to.
pub enum Output {
    ToA(Packet),
    ToB(Packet),
}

impl Input {
    /// The bytes of the packet.
    pub open spec fn bytes(self) -> Seq<u8> {
        match self {
            Input::FromA(p) => p@,
            Input::FromB(p) => p@,
        }
    }
}

impl Output {
    /// The bytes of the packet.
    pub open spec fn bytes(self) -> Seq<u8> {
        match self {
            Output::ToA(p) => p@,
            Output::ToB(p) => p@,
        }
    }
}

/// The lowest source port of a server status reply.
pub const STATUS_PORT_MIN: u16 = 27010;

/// The highest source port of a server status reply.
pub const STATUS_PORT_MAX: u16 = 27030;

/// Where in a status reply the first of its strings begins.
pub const STATUS_STRINGS_AT: usize = 6;

/// The place after the string that begins at `i` and ends with a zero
/// byte. Where the bytes end before the string does, it is the place after
/// the end.
pub open spec fn skip_string(b: Seq<u8>, i: int) -> int
    decreases b.len() - i,
{
    if 0 <= i < b.len() && b[i] != 0 {
        skip_string(b, i + 1)
    } else {
        i + 1
    }
}

/// The place after `n` strings in a row, the first of which begins at `i`.
pub open spec fn skip_strings(b: Seq<u8>, i: int, n: nat) -> int
    decreases n,
{
    if n == 0 {
        i
    } else {
        skip_strings(b, skip_string(b, i), (n - 1) as nat)
    }
}

/// Where the payload `b` of a status reply holds the number of players:
/// two bytes after its four strings.
pub open spec fn player_count_at(b: Seq<u8>) -> int {
    skip_strings(b, STATUS_STRINGS_AT as int, 4) + 2
}

/// `p` is a UDP datagram whose payload holds four strings and at least
/// four bytes after them.
pub open spec fn status_editable(p: Seq<u8>) -> bool {
    has_udp_header(p) && player_count_at(udp_payload_of(p)) + 1 < udp_payload_of(p).len()
}

/// The packet `p` with the UDP checksum of the datagram as it stands
/// written into its UDP header.
pub open spec fn with_udp_checksum(p: Seq<u8>) -> Seq<u8> {
    overwrite(
        p,
        ipv4_header_len(p) + 6,
        be_bytes(udp_checksum_of(p, udp_payload_of(p)) as nat, 2),
    )
}

/// The status reply `p` with its number of players set to zero and its UDP
/// checksum set to match.
pub open spec fn status_edited(p: Seq<u8>) -> Seq<u8> {
    with_udp_checksum(
        p.update(ipv4_header_len(p) + UDP_HEADER_LEN + player_count_at(udp_payload_of(p)), 0u8),
    )
}

/// `p` is a UDP datagram from a port on which servers answer status
/// queries.
pub open spec fn is_status_reply(p: Seq<u8>) -> bool {
    has_udp_header(p) && STATUS_PORT_MIN <= be_at(p, ipv4_header_len(p), 2) <= STATUS_PORT_MAX
}

/// The bytes of the command that asks for a datagram to be dropped.
pub open spec fn drop_command() -> Seq<u8> {
    seq![0x64u8, 0x72u8, 0x6fu8, 0x70u8, 0x74u8, 0x68u8, 0x69u8, 0x73u8]
}

/// The bytes of `needle` stand in `hay` from `i` on.
pub open spec fn found_at(hay: Seq<u8>, needle: Seq<u8>, i: int) -> bool {
    0 <= i && i + needle.len() <= hay.len() && hay.subrange(i, i + needle.len()) == needle
}

/// A place after the string that begins at `i` lies after `i`, and at most
/// one past the end of the bytes where `i` lies within them.
pub proof fn lemma_skip_string(b: Seq<u8>, i: int)
    requires
        0 <= i,
    ensures
        i < skip_string(b, i),
        i <= b.len() ==> skip_string(b, i) <= b.len() + 1,
    decreases b.len() - i,
{
    if i < b.len() && b[i] != 0 {
        lemma_skip_string(b, i + 1);
    }
}

/// Sets the number of players in a server status reply to zero and brings
/// the UDP checksum up to date. A packet that is no UDP datagram, or whose
/// payload does not hold four strings from its seventh byte on and four
/// more bytes after them, is left as it is and reported as malformed.
pub fn edit_server_status(p: &mut Packet) -> (r: Result<(), &'static str>)
    ensures
        final(p).wf(),
        status_editable(old(p)@) ==> r is Ok && final(p)@ == status_edited(old(p)@),
        !status_editable(old(p)@) ==> r is Err && final(p)@ == old(p)@ && r->Err_0@
            == "malformed packet"@,
{
    proof {
        p.lemma_within_capacity();
    }
    if !p.has_udp_header() {
        return Err("malformed packet");
    }
    let ghost before = p@;
    let ghost payload = udp_payload_of(before);
    let ghost u = ipv4_header_len(before) + UDP_HEADER_LEN;
    proof {
        lemma_header_len_bound(before);
    }
    // From offset 6 on there are four strings, each ended by a zero
    // byte. The numbers of players follow them.
    let at: usize = {
        let b: &[u8] = p.udp_payload();
        let n: usize = b.len();
        let mut i: usize = STATUS_STRINGS_AT;
        let mut j: usize = 0;
        while j < 4
            invariant
                j <= 4,
                n == b@.len(),
                n <= PACKET_CAP,
                STATUS_STRINGS_AT <= i,
                i <= n + j || i <= STATUS_STRINGS_AT + j,
                skip_strings(b@, i as int, (4 - j) as nat) == skip_strings(
                    b@,
                    STATUS_STRINGS_AT as int,
                    4,
                ),
            decreases 4 - j,
        {
            let ghost from = i;
            while i < n && b[i] != 0
                invariant
                    from <= i,
                    i <= n || i == from,
                    n == b@.len(),
                    skip_string(b@, i as int) == skip_string(b@, from as int),
                decreases n - i,
            {
                i = i + 1;
            }
            i = i + 1;
            j = j + 1;
        }
        if n < 4 || i >= n - 3 {
            return Err("malformed packet");
        }
        i + 2
    };
    let b = p.udp_payload_mut();
    b[at] = 0;
    assert(p@ =~= before.update(u + at, 0u8));
    assert(p@[0] == before[0]);
    assert(p@[9] == before[9]);
    // A checksum of zero would say that there is none; some clients then
    // read the packet differently.
    p.update_udp_checksum();
    Ok(())
}

/// Where the first string of the payload `b` of a status reply ends: the
/// place of its zero byte, or the length of `b` where it has none.
pub open spec fn server_name_end(b: Seq<u8>) -> int {
    skip_string(b, STATUS_STRINGS_AT as int) - 1
}

/// `p` is a UDP datagram whose payload holds a first string that ends
/// within it.
pub open spec fn has_server_name(p: Seq<u8>) -> bool {
    let b = udp_payload_of(p);
    &&& has_udp_header(p)
    &&& STATUS_STRINGS_AT <= b.len()
    &&& server_name_end(b) < b.len()
}

/// The status reply `p` can take `name` as the name of its server: it has
/// a name, and with the new name the packet is no longer than a packet may
/// be.
pub open spec fn can_rename(p: Seq<u8>, name: Seq<u8>) -> bool {
    &&& has_server_name(p)
    &&& p.len() - (server_name_end(udp_payload_of(p)) - STATUS_STRINGS_AT) + name.len()
        <= PACKET_CAP
}

/// The status reply `p` with `name` in the place of its first string; the
/// zero byte that ends the string and all that follows it stay.
pub open spec fn with_server_name(p: Seq<u8>, name: Seq<u8>) -> Seq<u8> {
    let at = ipv4_header_len(p) + UDP_HEADER_LEN;
    p.subrange(0, at + STATUS_STRINGS_AT) + name + p.subrange(
        at + server_name_end(udp_payload_of(p)),
        p.len() as int,
    )
}

/// The packet `p` with the total length of its IPv4 header and the length
/// of its UDP header set to what the packet holds.
pub open spec fn with_lengths(p: Seq<u8>) -> Seq<u8> {
    overwrite(
        overwrite(p, 2, be_bytes(p.len(), 2)),
        ipv4_header_len(p) + 4,
        be_bytes((p.len() - ipv4_header_len(p)) as nat, 2),
    )
}

/// The packet `p` with the checksum of its IPv4 header written into the
/// header.
pub open spec fn with_ipv4_checksum(p: Seq<u8>) -> Seq<u8> {
    overwrite(p, 10, be_bytes(ipv4_checksum_of(ipv4_header_of(p)) as nat, 2))
}

/// The status reply `p` with `name` as the name of its server, and with
/// its lengths and both checksums brought up to date.
pub open spec fn renamed(p: Seq<u8>, name: Seq<u8>) -> Seq<u8> {
    with_udp_checksum(with_ipv4_checksum(with_lengths(with_server_name(p, name))))
}

/// Puts `name` in the place of the server's name in a status reply, which
/// is the first of its strings, and brings the lengths in both headers and
/// both checksums up to date. A packet that cannot take the name is left
/// as it is: one that is no UDP datagram or whose first string does not
/// end is reported as malformed, one that would grow past the capacity of
/// a packet as too long.
pub fn rename_server(p: &mut Packet, name: &[u8]) -> (r: Result<(), &'static str>)
    ensures
        final(p).wf(),
        can_rename(old(p)@, name@) ==> r is Ok && final(p)@ == renamed(old(p)@, name@),
        !can_rename(old(p)@, name@) ==> r is Err && final(p)@ == old(p)@,
        r is Err ==> r->Err_0@ == (if has_server_name(old(p)@) {
            "packet too long"@
        } else {
            "malformed packet"@
        }),
{
    proof {
        p.lemma_within_capacity();
    }
    if !p.has_udp_header() {
        return Err("malformed packet");
    }
    let ghost before = p@;
    let ghost payload = udp_payload_of(before);
    proof {
        lemma_header_len_bound(before);
    }
    let at: usize = p.udp_end();
    let total: usize = p.len();
    let end: usize = {
        let b: &[u8] = p.udp_payload();
        let n: usize = b.len();
        if n < STATUS_STRINGS_AT {
            return Err("malformed packet");
        }
        let mut i: usize = STATUS_STRINGS_AT;
        while i < n && b[i] != 0
            invariant
                STATUS_STRINGS_AT <= i <= n == b@.len(),
                skip_string(b@, i as int) == skip_string(b@, STATUS_STRINGS_AT as int),
            decreases n - i,
        {
            i = i + 1;
        }
        if i >= n {
            return Err("malformed packet");
        }
        i
    };
    let name_len: usize = name.len();
    if name_len > PACKET_CAP || total - (end - STATUS_STRINGS_AT) + name_len > PACKET_CAP {
        return Err("packet too long");
    }
    // The packet with the new name in the place of the old one.
    let mut bytes: Vec<u8> = Vec::new();
    {
        let s: &[u8] = p.as_slice();
        let mut i: usize = 0;
        while i < at + STATUS_STRINGS_AT
            invariant
                i <= at + STATUS_STRINGS_AT <= s@.len() == total,
                s@ == before,
                bytes@ == before.subrange(0, i as int),
            decreases at + STATUS_STRINGS_AT - i,
        {
            bytes.push(s[i]);
            i = i + 1;
            assert(bytes@ =~= before.subrange(0, i as int));
        }
        let mut j: usize = 0;
        while j < name_len
            invariant
                j <= name_len == name@.len(),
                at + STATUS_STRINGS_AT <= before.len() == total,
                bytes@ == before.subrange(0, at + STATUS_STRINGS_AT) + name@.subrange(0, j as int),
            decreases name_len - j,
        {
            bytes.push(name[j]);
            j = j + 1;
            assert(bytes@ =~= before.subrange(0, at + STATUS_STRINGS_AT) + name@.subrange(
                0,
                j as int,
            ));
        }
        assert(name@.subrange(0, name_len as int) =~= name@);
        let mut k: usize = at + end;
        while k < total
            invariant
                at + STATUS_STRINGS_AT <= at + end <= k <= total == s@.len(),
                s@ == before,
                bytes@ == before.subrange(0, at + STATUS_STRINGS_AT) + name@ + before.subrange(
                    at + end,
                    k as int,
                ),
            decreases total - k,
        {
            bytes.push(s[k]);
            k = k + 1;
            assert(bytes@ =~= before.subrange(0, at + STATUS_STRINGS_AT) + name@
                + before.subrange(at + end, k as int));
        }
    }
    assert(bytes@ == with_server_name(before, name@));
    let ghost resized = bytes@;
    p.truncate(0);
    p.extend_from_slice(bytes.as_slice());
    assert(p@ =~= resized);
    assert(p@[0] == before[0]);
    assert(p@[9] == before[9]);
    let new_total: usize = p.len();
    let hl: usize = p.ipv4_len();
    let mut ip = p.ipv4_mut();
    ip.set_total_len(new_total as u16);
    let ghost with_total = overwrite(resized, 2, be_bytes(new_total as nat, 2));
    assert(p@ =~= with_total);
    assert(p@[0] == before[0]);
    let mut udp = p.udp_mut();
    udp.set_len((new_total - hl) as u16);
    assert(p@ =~= with_lengths(resized));
    assert(p@[0] == before[0]);
    assert(p@[9] == before[9]);
    p.update_ipv4_checksum();
    assert(p@[0] == before[0]);
    assert(p@[9] == before[9]);
    p.update_udp_checksum();
    Ok(())
}

/// Whether the stream bytes of a stream datagram hold the drop command.
pub fn contains_drop_command(p: &Packet) -> (r: bool)
    ensures
        r == (has_tfh_header(p@) && exists|i: int|
            found_at(p@.subrange(tfh_payload_start(p@), p@.len() as int), drop_command(), i)),
{
    if !p.has_tfh_header() {
        return false;
    }
    let payload: &[u8] = p.tfh_stream_payload();
    let n: usize = payload.len();
    if n < 8 {
        assert forall|i: int| !found_at(payload@, drop_command(), i) by {}
        return false;
    }
    let mut i: usize = 0;
    while i <= n - 8
        invariant
            8 <= n == payload@.len(),
            i <= n - 8 + 1,
            has_tfh_header(p@),
            payload@ == p@.subrange(tfh_payload_start(p@), p@.len() as int),
            forall|k: int| 0 <= k < i ==> !found_at(payload@, drop_command(), k),
        decreases n - i,
    {
        if payload[i] == 0x64 && payload[i + 1] == 0x72 && payload[i + 2] == 0x6f && payload[i + 3]
            == 0x70 && payload[i + 4] == 0x74 && payload[i + 5] == 0x68 && payload[i + 6] == 0x69
            && payload[i + 7] == 0x73 {
            assert(payload@.subrange(i as int, i + 8) =~= drop_command());
            assert(found_at(
                p@.subrange(tfh_payload_start(p@), p@.len() as int),
                drop_command(),
                i as int,
            ));
            return true;
        }
        proof {
            let w = payload@.subrange(i as int, i + 8);
            if w == drop_command() {
                assert(w[0] == 0x64 && w[1] == 0x72 && w[2] == 0x6f && w[3] == 0x70 && w[4] == 0x74
                    && w[5] == 0x68 && w[6] == 0x69 && w[7] == 0x73);
            }
        }
        i = i + 1;
    }
    assert forall|k: int| !found_at(payload@, drop_command(), k) by {}
    false
}

/// Which way a packet of a capture travelled, seen from the server at
/// `server_ip`: towards the server it came from side A, from the server it
/// came from side B. A packet without a whole IPv4 header, or between
/// other hosts, is left out.
pub fn classify(p: Packet, server_ip: u32) -> (r: Option<Input>)
    ensures
        match r {
            Some(Input::FromA(q)) => q@ == p@ && has_ipv4_header(p@) && be_at(p@, 16, 4)
                == server_ip,
            Some(Input::FromB(q)) => q@ == p@ && has_ipv4_header(p@) && be_at(p@, 16, 4)
                != server_ip && be_at(p@, 12, 4) == server_ip,
            None => !has_ipv4_header(p@) || (be_at(p@, 16, 4) != server_ip && be_at(p@, 12, 4)
                != server_ip),
        },
{
    if !p.is_ipv4() {
        return None;
    }
    let hl: usize = p.ipv4_len();
    if hl < 20 || hl > p.len() {
        return None;
    }
    proof {
        crate::bytes::lemma_be_at_subrange(p@, 0, hl as int, 12, 4);
        crate::bytes::lemma_be_at_subrange(p@, 0, hl as int, 16, 4);
    }
    // Side A is the outside and side B the inside, so what is meant for
    // the server travels from A to B.
    let dest: u32 = p.ipv4().dest_ip();
    let source: u32 = p.ipv4().source_ip();
    if dest == server_ip {
        Some(Input::FromA(p))
    } else if source == server_ip {
        Some(Input::FromB(p))
    } else {
        None
    }
}

/// What became of one packet.
pub struct Processed {
    /// The packet, on its way to the other side.
    pub output: Output,
    /// A warning for each message that the packet completed with an
    /// opcode above 255, and any that the table still had.
    pub warnings: Vec<Warning>,
    /// For a packet from the port range of server status replies: whether
    /// it could be edited.
    pub status: Option<Result<(), &'static str>>,
}

/// Takes one packet at the time `now`.
///
/// The table of connections sees every packet, and its handler is told of
/// the messages that the packet completes. A packet from side A goes
/// out to side B as it is. A packet from side B goes out to side A; where
/// it is a UDP datagram from the port range of server status replies, its
/// number of players is set to zero on the way, or it goes out as it is
/// if it cannot be read.
pub fn process_input<H: StreamHandler>(
    conns: &mut TfhStreamConns<H>,
    inp: Input,
    now: u64,
) -> (r: Processed)
    requires
        old(conns).wf(),
    ensures
        final(conns).wf(),
        final(conns)@ == table_after(old(conns)@, inp.bytes(), inp is FromB, now as nat),
        final(conns).held().told() == old(conns).held().told() + told_messages(
            conn_tuple_of(inp.bytes(), inp is FromB),
            messages_after(old(conns)@, inp.bytes(), inp is FromB, now as nat),
        ),
        messages_after(old(conns)@, inp.bytes(), inp is FromB, now as nat).len() == 0
            ==> final(conns).held() == old(conns).held(),
        r.warnings@ == old(conns).noted() + warnings_after(
            old(conns)@,
            inp.bytes(),
            inp is FromB,
            now as nat,
        ),
        final(conns).noted() == Seq::<Warning>::empty(),
        inp is FromA ==> r.output is ToB && r.output.bytes() == inp.bytes() && r.status is None,
        inp is FromB ==> r.output is ToA && r.output.bytes() == (if is_status_reply(inp.bytes())
            && status_editable(inp.bytes()) {
            status_edited(inp.bytes())
        } else {
            inp.bytes()
        }),
        inp is FromB ==> (r.status is Some <==> is_status_reply(inp.bytes())),
        inp is FromB && is_status_reply(inp.bytes()) ==> (r.status->Some_0 is Ok
            <==> status_editable(inp.bytes())),
{
    match inp {
        Input::FromA(p) => {
            conns.handle_at(&p, false, now);
            let warnings: Vec<Warning> = conns.take_warnings();
            Processed { output: Output::ToB(p), warnings, status: None }
        },
        Input::FromB(p) => {
            let mut p = p;
            conns.handle_at(&p, true, now);
            let warnings: Vec<Warning> = conns.take_warnings();
            let mut status: Option<Result<(), &'static str>> = None;
            if p.has_udp_header() {
                proof {
                    let u = ipv4_header_len(p@);
                    crate::bytes::lemma_be_at_subrange(p@, u, u + 8, 0, 2);
                }
                let port: u16 = p.udp().source_port();
                if port >= STATUS_PORT_MIN && port <= STATUS_PORT_MAX {
                    status = Some(edit_server_status(&mut p));
                }
            }
            Processed { output: Output::ToA(p), warnings, status }
        },
    }
}

} // verus!
