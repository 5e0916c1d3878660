use tfh_mitm::conns::{ConnTuple, StreamHandler, TfhStreamConns};
use tfh_mitm::dump::{
    decimal_bytes, dump_hex, dump_hex_bytes, dump_mixed, dump_mixed_bytes, is_printable_ascii,
    signed_decimal_bytes,
};
use tfh_mitm::framing::{Message, MessageHeader, DIR_AB, DIR_BA};
use tfh_mitm::packet::Packet;
use tfh_mitm::process::{
    classify, contains_drop_command, edit_server_status, process_input, Input, Output,
};
use tfh_mitm::status::{log_file_name, log_record, player_name, status_of_names, Roster};
use tfh_mitm::{Error, ErrorAt};

fn packet_of(bytes: &[u8]) -> Packet {
    let mut p = Packet::default();
    p.extend_from_slice(bytes);
    p
}

/// An IPv4/UDP datagram with the given ends and payload, checksums zero.
fn udp_packet(src: ([u8; 4], u16), dst: ([u8; 4], u16), payload: &[u8]) -> Packet {
    let mut v: Vec<u8> = vec![0x45, 0, 0, 0, 0, 0, 0, 0, 64, 17, 0, 0];
    v.extend_from_slice(&src.0);
    v.extend_from_slice(&dst.0);
    v.extend_from_slice(&src.1.to_be_bytes());
    v.extend_from_slice(&dst.1.to_be_bytes());
    v.extend_from_slice(&((8 + payload.len()) as u16).to_be_bytes());
    v.extend_from_slice(&[0, 0]);
    v.extend_from_slice(payload);
    let total = v.len() as u16;
    v[2..4].copy_from_slice(&total.to_be_bytes());
    packet_of(&v)
}

const SERVER: ([u8; 4], u16) = ([10, 0, 0, 2], 27015);
const CLIENT: ([u8; 4], u16) = ([192, 168, 1, 7], 40000);

fn status_payload() -> Vec<u8> {
    let mut v = vec![0xff, 0xff, 0xff, 0xff, 0x49, 0x11];
    v.extend_from_slice(b"srv\0map\0folder\0game\0");
    v.extend_from_slice(&[0x34, 0x12, 7, 16, 0, b'd']);
    v
}

struct Quiet;

impl StreamHandler for Quiet {
    fn on_message(&mut self, _ct: ConnTuple, _msg: Message) {}

    fn on_timeout(&mut self, _ct: ConnTuple) {}
}

#[test]
fn udp_rewrite() {
    let payload = status_payload();
    let mut p = udp_packet(SERVER, CLIENT, &payload);
    let cur_at = 6 + 20 + 2;
    assert_eq!(p.udp_payload()[cur_at], 7);
    assert_eq!(edit_server_status(&mut p), Ok(()));
    let mut expect = payload.clone();
    expect[cur_at] = 0;
    assert_eq!(p.udp_payload(), &expect[..]);
    // The number of players that the server can take stays.
    assert_eq!(p.udp_payload()[cur_at + 1], 16);
    // The checksum is the one that belongs to the datagram as it stands.
    assert_ne!(p.udp().checksum(), 0);
    assert_eq!(p.udp().checksum(), p.compute_udp_checksum(p.udp_payload()));
    // The sum over pseudo header, checksum and payload is all ones.
    let mut sum: u32 = 0x0a00 + 0x0002 + 0xc0a8 + 0x0107 + 17 + (8 + expect.len() as u32);
    let udp_and_payload = &p.as_slice()[20..];
    for pair in udp_and_payload.chunks(2) {
        sum += (pair[0] as u32) << 8;
        if pair.len() == 2 {
            sum += pair[1] as u32;
        }
    }
    while sum > 0xffff {
        sum = (sum & 0xffff) + (sum >> 16);
    }
    assert_eq!(sum, 0xffff);
    // The IP header is untouched.
    assert_eq!(p.ipv4().total_len() as usize, p.len());
}

#[test]
fn a_status_reply_that_cannot_be_read_stays_as_it_is() {
    // Three strings only.
    let mut payload = vec![0xff, 0xff, 0xff, 0xff, 0x49, 0x11];
    payload.extend_from_slice(b"srv\0map\0folder\0game");
    let mut p = udp_packet(SERVER, CLIENT, &payload);
    let before = p.as_slice().to_vec();
    assert_eq!(edit_server_status(&mut p), Err("malformed packet"));
    assert_eq!(p.as_slice(), &before[..]);

    // Four strings, but only three bytes after them.
    let mut payload = vec![0xff, 0xff, 0xff, 0xff, 0x49, 0x11];
    payload.extend_from_slice(b"a\0b\0c\0d\0");
    payload.extend_from_slice(&[1, 2, 3]);
    let mut p = udp_packet(SERVER, CLIENT, &payload);
    assert_eq!(edit_server_status(&mut p), Err("malformed packet"));
    // With a fourth byte the packet can be edited.
    payload.push(4);
    let mut p = udp_packet(SERVER, CLIENT, &payload);
    assert_eq!(edit_server_status(&mut p), Ok(()));
    assert_eq!(&p.udp_payload()[14..], &[1, 2, 0, 4]);

    // A payload too short to hold any string, and a packet that is no
    // UDP datagram.
    let mut p = udp_packet(SERVER, CLIENT, &[1, 2, 3]);
    assert_eq!(edit_server_status(&mut p), Err("malformed packet"));
    let mut p = packet_of(&[0x45, 0, 0, 20, 0, 0, 0, 0, 64, 6, 0, 0, 1, 2, 3, 4, 5, 6, 7, 8]);
    assert_eq!(edit_server_status(&mut p), Err("malformed packet"));
    let mut p = Packet::default();
    assert_eq!(edit_server_status(&mut p), Err("malformed packet"));
}

#[test]
fn empty_strings_are_strings() {
    let mut payload = vec![0; 6];
    payload.extend_from_slice(&[0, 0, 0, 0, 9, 9, 9, 9]);
    let mut p = udp_packet(SERVER, CLIENT, &payload);
    assert_eq!(edit_server_status(&mut p), Ok(()));
    assert_eq!(&p.udp_payload()[10..], &[9, 9, 0, 9]);
}

#[test]
fn packets_from_a_go_to_b_unchanged() {
    let mut conns = TfhStreamConns::new(Quiet);
    let p = udp_packet(CLIENT, SERVER, &status_payload());
    let bytes = p.as_slice().to_vec();
    let r = process_input(&mut conns, Input::FromA(p), 0);
    assert!(r.status.is_none());
    assert!(r.warnings.is_empty());
    match r.output {
        Output::ToB(q) => assert_eq!(q.as_slice(), &bytes[..]),
        Output::ToA(_) => panic!("a packet from side A went back to side A"),
    }
}

#[test]
fn status_replies_from_b_are_edited_on_their_way_to_a() {
    let mut conns = TfhStreamConns::new(Quiet);
    let p = udp_packet(SERVER, CLIENT, &status_payload());
    let r = process_input(&mut conns, Input::FromB(p), 0);
    assert_eq!(r.status, Some(Ok(())));
    match r.output {
        Output::ToA(q) => assert_eq!(q.udp_payload()[28], 0),
        Output::ToB(_) => panic!("a packet from side B went back to side B"),
    }
    // From another port the packet is not looked at.
    let p = udp_packet(([10, 0, 0, 2], 27031), CLIENT, &status_payload());
    let bytes = p.as_slice().to_vec();
    let r = process_input(&mut conns, Input::FromB(p), 0);
    assert_eq!(r.status, None);
    match r.output {
        Output::ToA(q) => assert_eq!(q.as_slice(), &bytes[..]),
        Output::ToB(_) => panic!("a packet from side B went back to side B"),
    }
    // A reply that cannot be read goes out as it is.
    let p = udp_packet(SERVER, CLIENT, &[1, 2, 3]);
    let bytes = p.as_slice().to_vec();
    let r = process_input(&mut conns, Input::FromB(p), 0);
    assert_eq!(r.status, Some(Err("malformed packet")));
    match r.output {
        Output::ToA(q) => assert_eq!(q.as_slice(), &bytes[..]),
        Output::ToB(_) => panic!("a packet from side B went back to side B"),
    }
}

#[test]
fn the_table_sees_the_packets_of_both_sides() {
    let mut conns = TfhStreamConns::new(Quiet);
    let mut payload = vec![0, 0, 0, 0, 0, 0, 0, 0];
    payload.push(0x55);
    let up = udp_packet(CLIENT, SERVER, &payload);
    process_input(&mut conns, Input::FromA(up), 3_000_000_000);
    let ct = ConnTuple::Ipv4(0xc0a80107, 40000, 0x0a000002, 27015);
    assert!(conns.contains(ct));
    let down = udp_packet(SERVER, CLIENT, &payload);
    process_input(&mut conns, Input::FromB(down), 4_000_000_000);
    assert_eq!(conns.len(), 1);
    assert!(conns.expire(63_999_999_999).is_empty());
    assert_eq!(conns.expire(64_000_000_000), vec![ct]);
}

#[test]
fn drop_command_is_found_in_stream_bytes() {
    let mut payload = vec![0, 0, 0, 1, 0, 0, 0, 2];
    payload.extend_from_slice(b"xx dropthis yy");
    assert!(contains_drop_command(&udp_packet(CLIENT, SERVER, &payload)));
    let mut payload = vec![0, 0, 0, 1, 0, 0, 0, 2];
    payload.extend_from_slice(b"dropthis");
    assert!(contains_drop_command(&udp_packet(CLIENT, SERVER, &payload)));
    let mut payload = vec![0, 0, 0, 1, 0, 0, 0, 2];
    payload.extend_from_slice(b"dropthi");
    assert!(!contains_drop_command(&udp_packet(CLIENT, SERVER, &payload)));
    let mut payload = vec![0, 0, 0, 1, 0, 0, 0, 2];
    payload.extend_from_slice(b"drop this, dropthat");
    assert!(!contains_drop_command(&udp_packet(CLIENT, SERVER, &payload)));
    // The command in the sequence numbers does not count.
    assert!(!contains_drop_command(&udp_packet(CLIENT, SERVER, b"dropthis")));
    // Nor does it in a packet that is no stream datagram.
    let mut payload = vec![0, 0, 0, 1, 0, 0, 0, 2];
    payload.extend_from_slice(b"dropthis");
    assert!(!contains_drop_command(&udp_packet(([1, 1, 1, 1], 5), ([2, 2, 2, 2], 6), &payload)));
}

#[test]
fn replay_classifier() {
    let server_ip = 0x0a000002;
    let to_server = udp_packet(CLIENT, SERVER, &[1]);
    assert!(matches!(classify(to_server, server_ip), Some(Input::FromA(_))));
    let from_server = udp_packet(SERVER, CLIENT, &[1]);
    assert!(matches!(classify(from_server, server_ip), Some(Input::FromB(_))));
    let other = udp_packet(CLIENT, ([10, 0, 0, 3], 1), &[1]);
    assert!(classify(other, server_ip).is_none());
    assert!(classify(Packet::default(), server_ip).is_none());
    assert!(classify(packet_of(&[0x60, 0, 0, 0]), server_ip).is_none());
    assert!(classify(packet_of(&[0x45, 0, 0, 0]), server_ip).is_none());
    // A packet from the server to itself counts as sent to it.
    let both = udp_packet(SERVER, SERVER, &[1]);
    assert!(matches!(classify(both, server_ip), Some(Input::FromA(_))));
}

#[test]
fn hex_dump() {
    assert_eq!(dump_hex(&[]), "");
    assert_eq!(dump_hex(&[0x0a]), "0a");
    assert_eq!(dump_hex(&[0x00, 0xff, 0x1b, 0xa0]), "00 ff 1b a0");
    assert_eq!(dump_hex_bytes(&[0x9f, 0x60]), b"9f 60".to_vec());
    let all: Vec<u8> = (0..=255).collect();
    let expect: Vec<String> = all.iter().map(|x| format!("{:02x}", x)).collect();
    assert_eq!(dump_hex(&all), expect.join(" "));
}

#[test]
fn mixed_dump() {
    assert_eq!(dump_mixed(&[]), "");
    assert_eq!(dump_mixed(b"srv"), "\"srv\"");
    assert_eq!(dump_mixed(b"a"), "'a'");
    assert_eq!(dump_mixed(&[0xff, 0xff, b'I', 0x11]), "ff ff 'I' 11");
    assert_eq!(dump_mixed(b"srv\0map\0"), "\"srv\" 00 \"map\" 00");
    assert_eq!(dump_mixed(b"a\"b"), "\"a\\\"b\"");
    assert_eq!(dump_mixed(b"it's"), "\"it's\"");
    assert_eq!(dump_mixed(b"\x01'\x02"), "01 '\\'' 02");
    assert_eq!(dump_mixed(b"\x01\"\x02"), "01 '\"' 02");
    assert_eq!(dump_mixed(b"\\"), "'\\\\'");
    assert_eq!(dump_mixed(b"c:\\x"), "\"c:\\\\x\"");
    assert_eq!(dump_mixed(&[0x7f, b' ', b'~', 0x1f]), "7f \" ~\" 1f");
    assert_eq!(dump_mixed_bytes(b"ok\n"), b"\"ok\" 0a".to_vec());
}

#[test]
fn mixed_dump_quotes_as_the_debug_format_does() {
    for x in 0x20u8..0x7f {
        let one = [x];
        assert_eq!(dump_mixed(&one), format!("{:?}", x as char));
        let two = [x, b'z', x];
        let text = String::from_utf8(two.to_vec()).unwrap();
        assert_eq!(dump_mixed(&two), format!("{:?}", text));
    }
}

#[test]
fn printable_ascii() {
    assert!(!is_printable_ascii(0x1f));
    assert!(is_printable_ascii(0x20));
    assert!(is_printable_ascii(0x7e));
    assert!(!is_printable_ascii(0x7f));
    assert!(!is_printable_ascii(0xff));
    assert!(!is_printable_ascii(0));
}

#[test]
fn decimal_text() {
    assert_eq!(decimal_bytes(0), b"0".to_vec());
    assert_eq!(decimal_bytes(7), b"7".to_vec());
    assert_eq!(decimal_bytes(10), b"10".to_vec());
    assert_eq!(decimal_bytes(27015), b"27015".to_vec());
    assert_eq!(decimal_bytes(u64::MAX), u64::MAX.to_string().into_bytes());
    assert_eq!(signed_decimal_bytes(0), b"0".to_vec());
    assert_eq!(signed_decimal_bytes(-1), b"-1".to_vec());
    assert_eq!(signed_decimal_bytes(1234567890), b"1234567890".to_vec());
    assert_eq!(signed_decimal_bytes(i64::MIN), i64::MIN.to_string().into_bytes());
    assert_eq!(signed_decimal_bytes(i64::MAX), i64::MAX.to_string().into_bytes());
}

#[test]
fn log_file_names() {
    let ct = ConnTuple::Ipv4(0xc0a80107, 40000, 0x0a000002, 27015);
    assert_eq!(log_file_name(1700000000, ct), "logs/1700000000-192.168.1.7-40000-27015.tfhlog");
    let ct = ConnTuple::Ipv4(0, 0, 0xffffffff, 65535);
    assert_eq!(log_file_name(-5, ct), "logs/-5-0.0.0.0-0-65535.tfhlog");
    let ct = ConnTuple::Ipv4(0xff0a6401, 1, 2, 3);
    assert_eq!(log_file_name(0, ct), "logs/0-255.10.100.1-1-3.tfhlog");
}

fn login(dir: u8, major: u8, name: &[u8]) -> Message {
    let mut body = vec![0xee; 12];
    body.extend_from_slice(name);
    body.resize(76, 0);
    body.extend_from_slice(&[1, 2, 3]);
    Message {
        header: MessageHeader { major, minor: 0, dir, ack: 9, len: body.len() as u32 },
        body,
    }
}

#[test]
fn log_records_are_header_then_body() {
    let m = Message {
        header: MessageHeader { major: 1, minor: 2, dir: 0, ack: 0x0a0b0c0d, len: 3 },
        body: vec![7, 8, 9],
    };
    assert_eq!(log_record(&m), vec![1, 2, 0, 0, 0x0a, 0x0b, 0x0c, 0x0d, 0, 0, 0, 3, 7, 8, 9]);
}

#[test]
fn player_names_come_from_login_messages() {
    let name = player_name(&login(DIR_AB, 0x0a, b"alice")).unwrap();
    assert_eq!(name.len(), 64);
    assert!(name.starts_with("alice\0"));
    assert!(player_name(&login(DIR_BA, 0x0a, b"alice")).is_none());
    assert!(player_name(&login(DIR_AB, 0x0b, b"alice")).is_none());
    let mut short = login(DIR_AB, 0x0a, b"alice");
    short.body.truncate(75);
    assert!(player_name(&short).is_none());
    short.body.push(0);
    assert!(player_name(&short).is_some());
    // Bytes that are no UTF-8 are replaced.
    let odd = player_name(&login(DIR_AB, 0x0a, &[b'a', 0xff, b'b'])).unwrap();
    assert!(odd.starts_with("a\u{fffd}b"));
}

#[test]
fn status_file_text() {
    let a = ConnTuple::Ipv4(1, 1, 9, 9);
    let b = ConnTuple::Ipv4(2, 2, 9, 9);
    let c = ConnTuple::Ipv4(3, 3, 9, 9);
    let mut roster = Roster::new();
    assert_eq!(roster.status_text(), "0 players connected\n");
    roster.set_name(a, "zoe".to_string());
    assert_eq!(roster.status_text(), "1 player connected:\n- zoe\n");
    roster.set_name(b, "adam".to_string());
    roster.set_name(c, "Bob".to_string());
    assert_eq!(roster.status_text(), "3 players connected:\n- Bob\n- adam\n- zoe\n");
    // A second login on a connection changes the name.
    roster.set_name(a, "ada".to_string());
    assert_eq!(roster.len(), 3);
    assert_eq!(roster.status_text(), "3 players connected:\n- Bob\n- ada\n- adam\n");
    assert!(roster.forget(b));
    assert!(!roster.forget(b));
    assert_eq!(roster.status_text(), "2 players connected:\n- Bob\n- ada\n");
    assert!(roster.forget(a));
    assert!(roster.forget(c));
    assert_eq!(roster.len(), 0);
    assert_eq!(roster.status_text(), "0 players connected\n");
}

#[test]
fn status_text_for_names_in_a_given_order() {
    let names: Vec<String> = (0..12).map(|i| format!("player{}", i)).collect();
    let text = status_of_names(&names);
    assert!(text.starts_with("12 players connected:\n- player0\n- player1\n"));
    assert!(text.ends_with("- player11\n"));
    assert_eq!(text.lines().count(), 13);
}

#[test]
fn the_roster_notes_logins() {
    let a = ConnTuple::Ipv4(1, 1, 9, 9);
    let mut roster = Roster::new();
    assert!(!roster.note_message(a, &login(DIR_BA, 0x0a, b"eve")));
    assert_eq!(roster.len(), 0);
    assert!(roster.note_message(a, &login(DIR_AB, 0x0a, b"eve")));
    assert_eq!(roster.len(), 1);
    // The same name again still counts as a change.
    assert!(roster.note_message(a, &login(DIR_AB, 0x0a, b"eve")));
    assert_eq!(roster.len(), 1);
    assert!(roster.status_text().starts_with("1 player connected:\n- eve\0"));
}

#[test]
fn errors_carry_their_text() {
    let e: Error = "didn't receive a file descriptor".into();
    assert_eq!(e.message(), "didn't receive a file descriptor");
    let e = e.located("opening tun device");
    assert_eq!(e.0, "opening tun device: didn't receive a file descriptor");
    let ok: Result<u8, &str> = Ok(3);
    assert_eq!(ok.at("here").unwrap(), 3);
    let bad: Result<u8, &str> = Err("no");
    assert_eq!(bad.at("here").unwrap_err().0, "here: no");
    let io = std::io::Error::new(std::io::ErrorKind::Other, "boom");
    let bad: Result<u8, std::io::Error> = Err(io);
    assert_eq!(bad.at("reading").unwrap_err().0, "reading: boom");
    let already: Result<u8, Error> = Err(Error("x".to_string()));
    assert_eq!(already.at("y").unwrap_err().message(), "y: x");
}

#[test]
fn the_status_names_every_player_once_in_ascending_order() {
    let mut roster = Roster::new();
    let mut expected = Vec::new();
    for i in 0..25u16 {
        let ct = ConnTuple::Ipv4(0x0a00_0000 + (i as u32 % 5), 40000 + i, 0x0a00_0002, 27015);
        // Names that do not ascend with the connections.
        let name = format!("player{:02}", (i * 7) % 25);
        roster.set_name(ct, name.clone());
        expected.push(name);
    }
    assert_eq!(roster.len(), 25);
    expected.sort();
    let mut text = String::from("25 players connected:\n");
    for name in &expected {
        text.push_str("- ");
        text.push_str(name);
        text.push('\n');
    }
    assert_eq!(roster.status_text(), text);
    // A connection is told apart by each of its fields.
    assert!(!roster.forget(ConnTuple::Ipv4(0x0a00_0000, 40000, 0x0a00_0002, 27016)));
    assert!(!roster.forget(ConnTuple::Ipv4(0x0a00_0000, 40000, 0x0a00_0003, 27015)));
    assert!(roster.forget(ConnTuple::Ipv4(0x0a00_0000, 40000, 0x0a00_0002, 27015)));
    assert_eq!(roster.len(), 24);
}
