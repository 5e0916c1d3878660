use tfh_mitm::packet::PACKET_CAP;
use tfh_mitm::pcap::{Pcap, PcapError, Timestamp};
use tfh_mitm::process::{classify, Input};

fn global_header(little: bool) -> Vec<u8> {
    let mut v = Vec::new();
    let word = |x: u32| if little { x.to_le_bytes() } else { x.to_be_bytes() };
    let half = |x: u16| if little { x.to_le_bytes() } else { x.to_be_bytes() };
    v.extend_from_slice(&word(0xa1b2c3d4));
    v.extend_from_slice(&half(2));
    v.extend_from_slice(&half(4));
    v.extend_from_slice(&word(0));
    v.extend_from_slice(&word(0));
    v.extend_from_slice(&word(65535));
    v.extend_from_slice(&word(1));
    v
}

fn record(little: bool, sec: u32, usec: u32, frame: &[u8]) -> Vec<u8> {
    let word = |x: u32| if little { x.to_le_bytes() } else { x.to_be_bytes() };
    let mut v = Vec::new();
    v.extend_from_slice(&word(sec));
    v.extend_from_slice(&word(usec));
    v.extend_from_slice(&word(frame.len() as u32));
    v.extend_from_slice(&word(frame.len() as u32));
    v.extend_from_slice(frame);
    v
}

fn ethernet(ethertype: u16, payload: &[u8]) -> Vec<u8> {
    let mut v = vec![1, 2, 3, 4, 5, 6, 7, 8, 9, 10, 11, 12];
    v.extend_from_slice(&ethertype.to_be_bytes());
    v.extend_from_slice(payload);
    v
}

fn ipv4(src: [u8; 4], dst: [u8; 4]) -> Vec<u8> {
    let mut v = vec![0x45, 0, 0, 20, 0, 0, 0, 0, 64, 17, 0, 0];
    v.extend_from_slice(&src);
    v.extend_from_slice(&dst);
    v
}

#[test]
fn a_capture_opens_with_the_magic_number() {
    assert!(Pcap::new(global_header(true)).is_ok());
    assert!(Pcap::new(global_header(false)).is_ok());
    let mut bad = global_header(true);
    bad[0] = 0;
    assert_eq!(Pcap::new(bad).err(), Some(PcapError::BadMagic));
    let mut short = global_header(true);
    short.pop();
    assert_eq!(Pcap::new(short).err(), Some(PcapError::UnexpectedEof));
    assert_eq!(Pcap::new(Vec::new()).err(), Some(PcapError::UnexpectedEof));
}

#[test]
fn records_are_read_in_order() {
    for little in [true, false] {
        let first = ipv4([1, 1, 1, 1], [2, 2, 2, 2]);
        let mut second = ipv4([3, 3, 3, 3], [4, 4, 4, 4]);
        second.extend_from_slice(&[9, 9]);
        let mut data = global_header(little);
        data.extend_from_slice(&record(little, 100, 5, &ethernet(0x0800, &first)));
        data.extend_from_slice(&record(little, 0xffff_fffe, 999_999, &ethernet(0x86dd, &second)));
        let mut pcap = Pcap::new(data).unwrap();
        let p = pcap.try_read().unwrap().unwrap();
        assert_eq!(p.as_slice(), &first[..]);
        assert_eq!(pcap.time(), Timestamp { sec: 100, usec: 5 });
        let p = pcap.try_read().unwrap().unwrap();
        assert_eq!(p.as_slice(), &second[..]);
        assert_eq!(pcap.time(), Timestamp { sec: -2, usec: 999_999 });
        assert_eq!(pcap.try_read().err(), Some(PcapError::UnexpectedEof));
        assert_eq!(pcap.read().err(), Some(PcapError::UnexpectedEof));
    }
}

#[test]
fn frames_that_are_no_ip_are_skipped() {
    let ip = ipv4([1, 1, 1, 1], [2, 2, 2, 2]);
    let mut data = global_header(true);
    // ARP, a frame shorter than an Ethernet header, an empty frame, and
    // a frame longer than a packet buffer.
    data.extend_from_slice(&record(true, 1, 0, &ethernet(0x0806, &[0; 28])));
    data.extend_from_slice(&record(true, 2, 0, &[1, 2, 3]));
    data.extend_from_slice(&record(true, 3, 0, &[]));
    data.extend_from_slice(&record(true, 4, 0, &ethernet(0x0800, &vec![0x45; PACKET_CAP + 1])));
    data.extend_from_slice(&record(true, 5, 0, &ethernet(0x0800, &ip)));
    let mut pcap = Pcap::new(data.clone()).unwrap();
    for sec in 1..=4 {
        assert!(pcap.try_read().unwrap().is_none());
        assert_eq!(pcap.time().sec, sec);
    }
    assert_eq!(pcap.try_read().unwrap().unwrap().as_slice(), &ip[..]);

    let mut pcap = Pcap::new(data).unwrap();
    assert_eq!(pcap.read().unwrap().as_slice(), &ip[..]);
    assert_eq!(pcap.time().sec, 5);
    assert_eq!(pcap.read().err(), Some(PcapError::UnexpectedEof));
}

#[test]
fn a_packet_of_full_capacity_is_read() {
    let mut big = ipv4([1, 1, 1, 1], [2, 2, 2, 2]);
    big.resize(PACKET_CAP, 0xab);
    let mut data = global_header(true);
    data.extend_from_slice(&record(true, 1, 0, &ethernet(0x0800, &big)));
    let mut pcap = Pcap::new(data).unwrap();
    assert_eq!(pcap.read().unwrap().len(), PACKET_CAP);
}

#[test]
fn a_record_that_is_cut_short_is_not_read() {
    let ip = ipv4([1, 1, 1, 1], [2, 2, 2, 2]);
    let mut data = global_header(true);
    data.extend_from_slice(&record(true, 1, 0, &ethernet(0x0800, &ip)));
    data.pop();
    let mut pcap = Pcap::new(data.clone()).unwrap();
    assert_eq!(pcap.try_read().err(), Some(PcapError::UnexpectedEof));
    // The header alone is cut short.
    data.truncate(24 + 15);
    let mut pcap = Pcap::new(data).unwrap();
    assert_eq!(pcap.try_read().err(), Some(PcapError::UnexpectedEof));
}

#[test]
fn pcap_replay_classifier() {
    let server = [10, 0, 0, 2];
    let client = [192, 168, 1, 7];
    let mut data = global_header(true);
    data.extend_from_slice(&record(true, 1, 0, &ethernet(0x0800, &ipv4(client, server))));
    data.extend_from_slice(&record(true, 2, 0, &ethernet(0x0806, &[0; 28])));
    data.extend_from_slice(&record(true, 3, 0, &ethernet(0x0800, &ipv4(server, client))));
    data.extend_from_slice(&record(true, 4, 0, &ethernet(0x0800, &ipv4(client, [8, 8, 8, 8]))));
    let mut pcap = Pcap::new(data).unwrap();
    let server_ip = u32::from_be_bytes(server);
    let mut seen = Vec::new();
    while let Ok(p) = pcap.read() {
        match classify(p, server_ip) {
            Some(Input::FromA(_)) => seen.push('A'),
            Some(Input::FromB(_)) => seen.push('B'),
            None => seen.push('-'),
        }
    }
    // The ARP frame gives neither.
    assert_eq!(seen, vec!['A', 'B', '-']);
}
