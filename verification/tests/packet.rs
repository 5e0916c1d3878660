use tfh_mitm::bytes::Bytes;
use tfh_mitm::checksum::ones_complement_add;
use tfh_mitm::packet::{Ipv4Header, Packet, UdpHeader, PACKET_CAP};

fn packet_of(bytes: &[u8]) -> Packet {
    let mut p = Packet::default();
    p.extend_from_slice(bytes);
    p
}

const FIXTURE: [u8; 20] = [
    0x45, 0x00, 0x00, 0x28, 0x1c, 0x46, 0x40, 0x00, 0x40, 0x06, 0x00, 0x00, 0xac, 0x10, 0x0a,
    0x63, 0xac, 0x10, 0x0a, 0x0c,
];

/// An IPv4/UDP datagram from 10.0.0.1:27015 to 10.0.0.2:40000 with the
/// given UDP payload; both checksum fields are zero.
fn udp_packet(payload: &[u8]) -> Packet {
    let mut v: Vec<u8> = vec![
        0x45, 0x00, 0x00, 0x00, 0x00, 0x01, 0x00, 0x00, 0x40, 17, 0x00, 0x00, 10, 0, 0, 1, 10, 0,
        0, 2,
    ];
    let total = (28 + payload.len()) as u16;
    v[2] = (total >> 8) as u8;
    v[3] = total as u8;
    let udp_len = (8 + payload.len()) as u16;
    v.extend_from_slice(&[0x69, 0x87, 0x9c, 0x40, (udp_len >> 8) as u8, udp_len as u8, 0, 0]);
    v.extend_from_slice(payload);
    packet_of(&v)
}

#[test]
fn ipv4_checksum_fixture() {
    // 4500 + 0028 + 1c46 + 4000 + 4006 + ac10 + 0a63 + ac10 + 0a0c = 0x24e03,
    // which folds to 0x4e05, whose complement is 0xb1fa.
    let p = packet_of(&FIXTURE);
    assert_eq!(p.compute_ipv4_checksum(), 0xb1fa);
}

#[test]
fn ipv4_checksum_of_a_sixty_byte_datagram_header() {
    // The same header with a total length of 0x003c sums to 0x24e17, which
    // folds to 0x4e19, whose complement is 0xb1e6.
    let mut bytes = FIXTURE;
    bytes[3] = 0x3c;
    let p = packet_of(&bytes);
    assert_eq!(p.compute_ipv4_checksum(), 0xb1e6);
}

#[test]
fn ipv4_checksum_ignores_the_stored_field() {
    let mut bytes = FIXTURE;
    bytes[10] = 0x12;
    bytes[11] = 0x34;
    let p = packet_of(&bytes);
    assert_eq!(p.compute_ipv4_checksum(), 0xb1fa);
}

#[test]
fn update_ipv4_checksum_stores_the_computed_value() {
    let mut p = packet_of(&FIXTURE);
    p.update_ipv4_checksum();
    assert_eq!(p.ipv4().checksum(), 0xb1fa);
    assert_eq!(p.as_slice()[10], 0xb1);
    assert_eq!(p.as_slice()[11], 0xfa);
    assert_eq!(p.compute_ipv4_checksum(), p.ipv4().checksum());
    assert_eq!(p.len(), 20);
}

#[test]
fn ones_complement_add_wraps_the_carry() {
    assert_eq!(ones_complement_add(0xffff, 0x0001), 0x0001);
    assert_eq!(ones_complement_add(0x8000, 0x8000), 0x0001);
    assert_eq!(ones_complement_add(0x1234, 0x0101), 0x1335);
    assert_eq!(ones_complement_add(0xffff, 0xffff), 0xffff);
    assert_eq!(ones_complement_add(0, 0), 0);
}

#[test]
fn header_fields_are_read_at_their_offsets() {
    let p = packet_of(&FIXTURE);
    assert!(p.is_ipv4());
    assert!(!p.is_ipv6());
    assert!(!p.is_udp());
    let h = p.ipv4();
    assert_eq!(h.version(), 4);
    assert_eq!(h.ihl(), 5);
    assert_eq!(h.total_len(), 0x0028);
    assert_eq!(h.ident(), 0x1c46);
    assert_eq!(h.flags(), 2);
    assert_eq!(h.offset(), 0);
    assert_eq!(h.protocol(), 6);
    assert_eq!(h.checksum(), 0);
    assert_eq!(h.source_ip(), 0xac100a63);
    assert_eq!(h.dest_ip(), 0xac100a0c);
    assert!(!h.is_udp());
    assert_eq!(p.ipv4_start(), 0);
    assert_eq!(p.ipv4_len(), 20);
    assert_eq!(p.ipv4_end(), 20);
    assert_eq!(p.ipv4_payload().len(), 0);
}

#[test]
fn udp_fields_are_read_at_their_offsets() {
    let p = udp_packet(&[1, 2, 3]);
    assert!(p.is_udp());
    assert_eq!(p.udp_start(), 20);
    assert_eq!(p.udp_len(), 8);
    assert_eq!(p.udp_end(), 28);
    let u = p.udp();
    assert_eq!(u.source_port(), 27015);
    assert_eq!(u.dest_port(), 40000);
    assert_eq!(u.len(), 11);
    assert_eq!(u.checksum(), 0);
    assert_eq!(p.udp_payload(), &[1, 2, 3]);
    assert_eq!(p.ipv4_payload().len(), 11);
}

#[test]
fn udp_checksum_of_even_and_odd_payloads() {
    // pseudo header words: 0a00 0001 0a00 0002 0011 000c 6987 9c40 000c 0000
    // payload words: 0102 0304
    let p = udp_packet(&[1, 2, 3, 4]);
    let mut sum: u32 = 0x0a00 + 0x0001 + 0x0a00 + 0x0002 + 0x0011 + 0x000c + 0x6987 + 0x9c40
        + 0x000c + 0x0102 + 0x0304;
    while sum > 0xffff {
        sum = (sum & 0xffff) + (sum >> 16);
    }
    assert_eq!(p.compute_udp_checksum(p.udp_payload()), !(sum as u16));

    let q = udp_packet(&[1, 2, 3]);
    let mut sum: u32 = 0x0a00 + 0x0001 + 0x0a00 + 0x0002 + 0x0011 + 0x000b + 0x6987 + 0x9c40
        + 0x000b + 0x0102 + 0x0300;
    while sum > 0xffff {
        sum = (sum & 0xffff) + (sum >> 16);
    }
    assert_eq!(q.compute_udp_checksum(q.udp_payload()), !(sum as u16));
}

#[test]
fn udp_checksum_is_never_zero() {
    // Choose the payload so that the one's-complement sum is all ones.
    let p = udp_packet(&[0, 0]);
    let c = p.compute_udp_checksum(p.udp_payload());
    let fill = c; // adding the complement brings the sum to 0xffff
    let q = udp_packet(&[(fill >> 8) as u8, fill as u8]);
    assert_eq!(q.compute_udp_checksum(q.udp_payload()), 0xffff);
}

#[test]
fn update_udp_checksum_stores_the_computed_value() {
    let mut p = udp_packet(&[9, 8, 7, 6, 5]);
    let expect = p.compute_udp_checksum(p.udp_payload());
    p.update_udp_checksum();
    assert_eq!(p.udp().checksum(), expect);
    assert_eq!(p.compute_udp_checksum(p.udp_payload()), expect);
    assert_eq!(p.udp_payload(), &[9, 8, 7, 6, 5]);
}

#[test]
fn header_writes_go_into_the_packet() {
    let mut p = udp_packet(&[1, 2, 3]);
    p.ipv4_mut().set_total_len(0x1234);
    p.ipv4_mut().set_checksum(0xabcd);
    p.udp_mut().set_len(0x0102);
    p.udp_mut().set_checksum(0x0304);
    assert_eq!(&p.as_slice()[2..4], &[0x12, 0x34]);
    assert_eq!(&p.as_slice()[10..12], &[0xab, 0xcd]);
    assert_eq!(&p.as_slice()[24..28], &[0x01, 0x02, 0x03, 0x04]);
    assert_eq!(p.ipv4().total_len(), 0x1234);
    assert_eq!(p.udp().len(), 0x0102);
    assert_eq!(p.ipv4_mut().as_ref().checksum(), 0xabcd);
    assert_eq!(p.udp_mut().as_ref().checksum(), 0x0304);
    assert_eq!(p.len(), 31);
    p.udp_payload_mut()[0] = 0x77;
    p.ipv4_payload_mut()[1] = 0x66;
    p.as_mut_slice()[1] = 0x55;
    assert_eq!(p.as_slice()[28], 0x77);
    assert_eq!(p.as_slice()[21], 0x66);
    assert_eq!(p.as_slice()[1], 0x55);
}

#[test]
fn overlays_stand_on_plain_slices() {
    let mut bytes = FIXTURE;
    assert_eq!(Ipv4Header::new(&bytes).source_ip(), 0xac100a63);
    Ipv4Header::new_mut(&mut bytes).set_total_len(7);
    assert_eq!(bytes[3], 7);
    let mut udp = [0u8; 8];
    UdpHeader::new_mut(&mut udp).set_len(0x0809);
    assert_eq!(UdpHeader::new(&udp).len(), 0x0809);
}

#[test]
fn packet_length_operations() {
    let mut p = Packet::default();
    assert_eq!(p.len(), 0);
    p.push(1);
    p.push(2);
    p.extend(vec![3, 4]);
    p.extend_from_slice(&[5, 6, 7]);
    assert_eq!(p.as_slice(), &[1, 2, 3, 4, 5, 6, 7]);
    p.truncate(3);
    assert_eq!(p.as_slice(), &[1, 2, 3]);
    p.set_len(5);
    assert_eq!(p.as_slice(), &[1, 2, 3, 0, 0]);
    p.set_len(1);
    assert_eq!(p.as_slice(), &[1]);
    let z = Packet::zeroed(PACKET_CAP);
    assert_eq!(z.len(), 1500);
    assert!(z.as_slice().iter().all(|&b| b == 0));
    assert_eq!(Packet::zeroed(0).len(), 0);
}

#[test]
fn packet_fills_to_capacity() {
    let mut p = Packet::default();
    for i in 0..PACKET_CAP {
        p.push(i as u8);
    }
    assert_eq!(p.len(), PACKET_CAP);
    assert_eq!(p.as_slice()[1499], (1499 % 256) as u8);
}

#[test]
fn short_and_foreign_packets_are_not_ipv4() {
    assert!(!Packet::default().is_ipv4());
    assert!(!Packet::default().is_ipv6());
    assert!(!Packet::default().is_udp());
    assert!(!Packet::default().has_udp_header());
    assert!(!Packet::default().is_tfh_stream());
    let six = packet_of(&[0x60, 0, 0, 0]);
    assert!(six.is_ipv6());
    assert!(!six.is_ipv4());
    assert!(!six.is_udp());
    // An IPv4 first byte whose header does not fit.
    let cut = packet_of(&[0x45, 0, 0, 0]);
    assert!(cut.is_ipv4());
    assert!(!cut.is_udp());
    // A header length under five words.
    let mut bad = udp_packet(&[0; 16]);
    bad.as_mut_slice()[0] = 0x44;
    assert!(!bad.is_udp());
    // Neither version.
    let mut odd = udp_packet(&[0; 16]);
    odd.as_mut_slice()[0] = 0x55;
    assert!(!odd.is_udp());
}

#[test]
fn a_packet_is_udp_by_its_protocol_field() {
    let whole = udp_packet(&[1, 2, 3]);
    assert!(whole.is_udp());
    assert!(whole.has_udp_header());
    // The UDP header is cut short: the packet is UDP all the same, but
    // has no UDP header to read.
    let mut short = udp_packet(&[]);
    short.truncate(24);
    assert!(short.is_udp());
    assert!(!short.has_udp_header());
    assert!(!short.is_tfh_stream());
    let mut bare = udp_packet(&[]);
    bare.truncate(20);
    assert!(bare.is_udp());
    assert!(!bare.has_udp_header());
    let mut exact = udp_packet(&[]);
    exact.truncate(28);
    assert!(exact.has_udp_header());
    let mut tcp = udp_packet(&[1, 2, 3]);
    tcp.as_mut_slice()[9] = 6;
    assert!(!tcp.is_udp());
    assert!(!tcp.has_udp_header());
}

#[test]
fn stream_datagrams_are_recognised_by_port_and_length() {
    let mut payload = vec![0, 0, 0, 5, 0, 0, 0, 9];
    payload.extend_from_slice(b"abc");
    let p = udp_packet(&payload);
    assert!(p.is_tfh_stream());
    assert!(p.has_tfh_header());
    assert_eq!(p.tfh_stream().my_seq(), 5);
    assert_eq!(p.tfh_stream().your_seq(), 9);
    assert_eq!(p.tfh_stream_payload(), b"abc");
    // Too short for both sequence numbers: a stream datagram by its
    // ports, with nothing to read.
    assert!(udp_packet(&[0, 0, 0, 5, 0, 0, 0]).is_tfh_stream());
    assert!(!udp_packet(&[0, 0, 0, 5, 0, 0, 0]).has_tfh_header());
    assert!(udp_packet(&[0, 0, 0, 5, 0, 0, 0, 9]).has_tfh_header());
    // Neither port in the protocol's range.
    let mut other = udp_packet(&payload);
    other.as_mut_slice()[20] = 0x10;
    assert!(!other.is_tfh_stream());
    // The destination port alone is enough.
    let mut dest = udp_packet(&payload);
    dest.as_mut_slice()[20] = 0x10;
    dest.as_mut_slice()[22] = 0x69;
    dest.as_mut_slice()[23] = 0x96;
    assert!(dest.is_tfh_stream());
}

#[test]
fn typed_reads_in_both_byte_orders() {
    let b: [u8; 16] = [1, 2, 3, 4, 5, 6, 7, 8, 9, 10, 11, 12, 13, 14, 15, 16];
    let s: &[u8] = &b;
    assert_eq!(s.u8_be(3), 4);
    assert_eq!(s.u8_le(3), 4);
    assert_eq!(s.u8_ne(3), 4);
    assert_eq!(s.u16_be(1), 0x0203);
    assert_eq!(s.u16_le(1), 0x0302);
    assert_eq!(s.u32_be(2), 0x03040506);
    assert_eq!(s.u32_le(2), 0x06050403);
    assert_eq!(s.u64_be(0), 0x0102030405060708);
    assert_eq!(s.u64_le(8), 0x100f0e0d0c0b0a09);
    assert_eq!(s.u128_be(0), 0x0102030405060708090a0b0c0d0e0f10);
    assert_eq!(s.u128_le(0), 0x100f0e0d0c0b0a090807060504030201);
    assert_eq!(s.u16_ne(0), u16::from_ne_bytes([1, 2]));
    assert_eq!(s.u32_ne(4), u32::from_ne_bytes([5, 6, 7, 8]));
    assert_eq!(s.u64_ne(8), u64::from_ne_bytes([9, 10, 11, 12, 13, 14, 15, 16]));
    assert_eq!(s.u128_ne(0), u128::from_ne_bytes(b));
}

#[test]
fn typed_writes_in_both_byte_orders() {
    let mut b = [0xeeu8; 20];
    let s: &mut [u8] = &mut b;
    s.put_u8_be(0, 0x11);
    s.put_u16_be(1, 0x2233);
    s.put_u32_be(3, 0x44556677);
    s.put_u16_le(7, 0x2233);
    s.put_u32_le(9, 0x44556677);
    s.put_u8_le(13, 0x99);
    s.put_u8_ne(14, 0x98);
    assert_eq!(
        &s[..16],
        &[
            0x11, 0x22, 0x33, 0x44, 0x55, 0x66, 0x77, 0x33, 0x22, 0x77, 0x66, 0x55, 0x44, 0x99,
            0x98, 0xee
        ]
    );
    let mut w = [0u8; 16];
    let t: &mut [u8] = &mut w;
    t.put_u64_be(0, 0x0102030405060708);
    t.put_u64_le(8, 0x0102030405060708);
    assert_eq!(&t[..], &[1, 2, 3, 4, 5, 6, 7, 8, 8, 7, 6, 5, 4, 3, 2, 1]);
    t.put_u128_be(0, 0x0102030405060708090a0b0c0d0e0f10);
    assert_eq!(t.u128_be(0), 0x0102030405060708090a0b0c0d0e0f10);
    assert_eq!(t[15], 0x10);
    t.put_u128_le(0, 0x0102030405060708090a0b0c0d0e0f10);
    assert_eq!(t[0], 0x10);
    assert_eq!(t.u128_le(0), 0x0102030405060708090a0b0c0d0e0f10);
    t.put_u16_ne(0, 0xbeef);
    assert_eq!(&t[..2], &0xbeefu16.to_ne_bytes());
    t.put_u32_ne(0, 0xdeadbeef);
    assert_eq!(&t[..4], &0xdeadbeefu32.to_ne_bytes());
    t.put_u64_ne(0, 0x1122334455667788);
    assert_eq!(&t[..8], &0x1122334455667788u64.to_ne_bytes());
    t.put_u128_ne(0, 7);
    assert_eq!(&t[..], &7u128.to_ne_bytes());
}

#[test]
fn a_packet_reads_and_writes_as_its_bytes() {
    let mut p = packet_of(&[1, 2, 3, 4]);
    assert_eq!(p[2], 3);
    assert_eq!(&p[1..3], &[2, 3]);
    p[0] = 9;
    p[1..3].copy_from_slice(&[7, 8]);
    assert_eq!(p.as_slice(), &[9, 7, 8, 4]);
    assert_eq!(p.iter().map(|&b| b as u32).sum::<u32>(), 28);
}
