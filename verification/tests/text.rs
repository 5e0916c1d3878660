use tfh_mitm::packet::{Ipv4Header, Packet, UdpHeader, PACKET_CAP};
use tfh_mitm::process::rename_server;

fn packet_of(bytes: &[u8]) -> Packet {
    let mut p = Packet::default();
    p.extend_from_slice(bytes);
    p
}

fn udp_packet(payload: &[u8]) -> Packet {
    let mut v: Vec<u8> = vec![
        0x45, 0x00, 0x00, 0x00, 0x1c, 0x46, 0x40, 0x00, 0x40, 17, 0x00, 0x00, 10, 0, 0, 2, 192,
        168, 1, 7,
    ];
    v.extend_from_slice(&[0x69, 0x87, 0x9c, 0x40]);
    v.extend_from_slice(&((8 + payload.len()) as u16).to_be_bytes());
    v.extend_from_slice(&[0, 0]);
    v.extend_from_slice(payload);
    let total = v.len() as u16;
    v[2..4].copy_from_slice(&total.to_be_bytes());
    packet_of(&v)
}

fn status_payload(name: &[u8]) -> Vec<u8> {
    let mut v = vec![0xff, 0xff, 0xff, 0xff, 0x49, 0x11];
    v.extend_from_slice(name);
    v.extend_from_slice(b"\0map\0folder\0game\0");
    v.extend_from_slice(&[0x34, 0x12, 7, 16]);
    v
}

fn ones_sum(bytes: &[u8]) -> u32 {
    let mut sum: u32 = 0;
    for pair in bytes.chunks(2) {
        sum += (pair[0] as u32) << 8;
        if pair.len() == 2 {
            sum += pair[1] as u32;
        }
    }
    while sum > 0xffff {
        sum = (sum & 0xffff) + (sum >> 16);
    }
    sum
}

#[test]
fn header_lines() {
    let bytes = [
        0x45, 0x00, 0x00, 0x3c, 0x1c, 0x46, 0x40, 0x00, 0x40, 0x06, 0xb1, 0xe6, 0xac, 0x10, 0x0a,
        0x63, 0xac, 0x10, 0x0a, 0x0c,
    ];
    assert_eq!(
        Ipv4Header::new(&bytes).to_text(),
        "I 4 5 003c 1c46 2 0000 06 ac100a63 ac100a0c"
    );
    let udp = [0x69, 0x87, 0x00, 0x35, 0x00, 0x0b, 0xab, 0xcd];
    assert_eq!(UdpHeader::new(&udp).to_text(), "U 6987 0035 000b abcd");
    let zero = [0u8; 20];
    assert_eq!(Ipv4Header::new(&zero).to_text(), "I 0 0 0000 0000 0 0000 00 00000000 00000000");
    let ones = [0xffu8; 20];
    assert_eq!(Ipv4Header::new(&ones).to_text(), "I f f ffff ffff 7 1fff ff ffffffff ffffffff");
}

#[test]
fn packet_lines() {
    assert_eq!(Packet::default().to_text(), "Pkt");
    assert_eq!(packet_of(&[0x60, 0, 0, 0]).to_text(), "Pkt I 6");
    assert_eq!(packet_of(&[0x12, 0x34]).to_text(), "Pkt");
    // An IPv4 first byte without the rest of the header.
    assert_eq!(packet_of(&[0x45, 0, 0]).to_text(), "Pkt");
    let p = udp_packet(&[1, 2, 3]);
    assert_eq!(
        p.to_text(),
        "Pkt I 4 5 001f 1c46 2 0000 11 0a000002 c0a80107; U 6987 9c40 000b 0000"
    );
    let mut tcp = udp_packet(&[1, 2, 3]);
    tcp.as_mut_slice()[9] = 6;
    assert_eq!(tcp.to_text(), "Pkt I 4 5 001f 1c46 2 0000 06 0a000002 c0a80107");
}

#[test]
fn the_server_name_is_replaced() {
    let mut p = udp_packet(&status_payload(b"srv"));
    assert_eq!(rename_server(&mut p, b"a longer name"), Ok(()));
    let expect = status_payload(b"a longer name");
    assert_eq!(p.udp_payload(), &expect[..]);
    assert_eq!(p.len(), 28 + expect.len());
    assert_eq!(p.ipv4().total_len() as usize, p.len());
    assert_eq!(p.udp().len() as usize, 8 + expect.len());
    // Both checksums are those of the packet as it stands.
    assert_eq!(p.ipv4().checksum(), p.compute_ipv4_checksum());
    assert_eq!(ones_sum(&p.as_slice()[..20]), 0xffff);
    assert_eq!(p.udp().checksum(), p.compute_udp_checksum(p.udp_payload()));
    // The rest of the IP header stays.
    assert_eq!(p.ipv4().ident(), 0x1c46);
    assert_eq!(p.ipv4().source_ip(), 0x0a000002);

    // A shorter name, and none at all.
    assert_eq!(rename_server(&mut p, b"x"), Ok(()));
    assert_eq!(p.udp_payload(), &status_payload(b"x")[..]);
    assert_eq!(p.ipv4().total_len() as usize, p.len());
    assert_eq!(rename_server(&mut p, b""), Ok(()));
    assert_eq!(p.udp_payload(), &status_payload(b"")[..]);
    assert_eq!(p.udp().len() as usize, p.len() - 20);
}

#[test]
fn a_name_that_does_not_fit_changes_nothing() {
    let payload = status_payload(b"srv");
    let mut p = udp_packet(&payload);
    let before = p.as_slice().to_vec();
    let room = PACKET_CAP - before.len() + 3;
    assert_eq!(rename_server(&mut p, &vec![b'n'; room + 1]), Err("packet too long"));
    assert_eq!(p.as_slice(), &before[..]);
    assert_eq!(rename_server(&mut p, &vec![b'n'; room]), Ok(()));
    assert_eq!(p.len(), PACKET_CAP);
    assert_eq!(p.ipv4().total_len() as usize, PACKET_CAP);
}

#[test]
fn a_reply_without_a_name_cannot_be_renamed() {
    // No zero byte after the name.
    let mut payload = vec![0xff, 0xff, 0xff, 0xff, 0x49, 0x11];
    payload.extend_from_slice(b"srv");
    let mut p = udp_packet(&payload);
    let before = p.as_slice().to_vec();
    assert_eq!(rename_server(&mut p, b"x"), Err("malformed packet"));
    assert_eq!(p.as_slice(), &before[..]);
    // Too short for any string.
    let mut p = udp_packet(&[1, 2, 3, 4, 5]);
    assert_eq!(rename_server(&mut p, b"x"), Err("malformed packet"));
    let mut p = udp_packet(&[1, 2, 3, 4, 5, 6]);
    assert_eq!(rename_server(&mut p, b"x"), Err("malformed packet"));
    // The shortest reply that has a name: an empty one.
    let mut p = udp_packet(&[1, 2, 3, 4, 5, 6, 0]);
    assert_eq!(rename_server(&mut p, b"xy"), Ok(()));
    assert_eq!(p.udp_payload(), &[1, 2, 3, 4, 5, 6, b'x', b'y', 0]);
    let mut p = Packet::default();
    assert_eq!(rename_server(&mut p, b"x"), Err("malformed packet"));
}
