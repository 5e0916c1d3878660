use std::collections::BTreeMap;
use tfh_mitm::framing::MessageHeader;
use tfh_mitm::tfh_stream::TfhStream;

/// A plain reassembler, written down step by step from the rules of the
/// stream: adopt the first position, drop what is stale, splice with zero
/// fill, merge the chunk, sweep the chunks in key order.
struct Plain {
    start: u64,
    buf: Vec<u8>,
    chunks: BTreeMap<u64, (u64, u32)>,
    sync: bool,
}

impl Plain {
    fn new() -> Plain {
        Plain { start: u32::MAX as u64, buf: Vec::new(), chunks: BTreeMap::new(), sync: false }
    }

    fn handle(&mut self, seq: u32, ack: u32, data: &[u8]) {
        let seq = seq as u64;
        let end = seq + data.len() as u64;
        if end > u32::MAX as u64 {
            return;
        }
        if !self.sync && self.buf.is_empty() {
            self.start = seq;
        }
        if end < self.start {
            return;
        }
        let (src, offset) = if seq < self.start {
            (&data[(self.start - seq) as usize..], 0usize)
        } else {
            (data, (seq - self.start) as usize)
        };
        if self.buf.len() < offset + src.len() {
            self.buf.resize(offset + src.len(), 0);
        }
        self.buf[offset..offset + src.len()].copy_from_slice(src);
        if self.start == 0 {
            self.sync = true;
        }
        let held = self.chunks.entry(seq).or_insert((0, 0));
        held.0 = held.0.max(data.len() as u64);
        held.1 = held.1.max(ack);
    }

    fn avail(&self) -> usize {
        let mut end = self.start;
        for (&at, &(len, _)) in &self.chunks {
            if at > end {
                break;
            }
            end = end.max(at + len);
        }
        (end - self.start) as usize
    }

    fn next(&mut self) -> Option<(MessageHeader, Vec<u8>)> {
        let avail = self.avail();
        if self.start == 0 && avail >= 1 {
            let first = self.buf.remove(0);
            self.start = 1;
            let header = MessageHeader { major: 0, minor: 0, dir: 0xff, ack: 0, len: 1 };
            return Some((header, vec![first]));
        }
        if avail < 4 {
            return None;
        }
        let len = u32::from_be_bytes([self.buf[0], self.buf[1], self.buf[2], self.buf[3]]) as usize;
        if avail < 4 + len {
            return None;
        }
        let end = self.start + 4 + len as u64;
        let mut raw = [0u8; 10];
        let raw_len = len.min(10);
        raw[..raw_len].copy_from_slice(&self.buf[4..4 + raw_len]);
        let major = u32::from_be_bytes([raw[2], raw[3], raw[4], raw[5]]);
        let minor = if major == 0x20 {
            u32::from_le_bytes([raw[6], raw[7], raw[8], raw[9]])
        } else {
            0
        };
        let header_len = if major == 0x20 { 14 } else { 10 };
        let body = if 4 + len >= header_len {
            self.buf[header_len..4 + len].to_vec()
        } else {
            Vec::new()
        };
        let mut ack = 0;
        while let Some((&at, &(chunk_len, chunk_ack))) = self.chunks.iter().next() {
            if at >= end {
                break;
            }
            ack = ack.max(chunk_ack);
            if at + chunk_len <= end {
                self.chunks.remove(&at);
            } else {
                break;
            }
        }
        self.buf.drain(..4 + len);
        self.start = end;
        let header = MessageHeader {
            major: major as u8,
            minor: minor as u8,
            dir: 0xff,
            ack,
            len: body.len() as u32,
        };
        Some((header, body))
    }
}

/// A small generator of numbers that gives the same run every time.
struct Numbers(u64);

impl Numbers {
    fn next(&mut self, below: u64) -> u64 {
        self.0 = self.0.wrapping_mul(6364136223846793005).wrapping_add(1442695040888963407);
        (self.0 >> 33) % below
    }
}

fn stream_bytes(numbers: &mut Numbers, frames: usize) -> Vec<u8> {
    let mut bytes = vec![numbers.next(256) as u8];
    for _ in 0..frames {
        let len = numbers.next(40) as usize;
        bytes.extend_from_slice(&(len as u32).to_be_bytes());
        let mut content: Vec<u8> = (0..len).map(|_| numbers.next(256) as u8).collect();
        if len >= 6 && numbers.next(3) == 0 {
            content[2..6].copy_from_slice(&0x20u32.to_be_bytes());
        }
        bytes.extend_from_slice(&content);
    }
    bytes
}

fn run(seed: u64, from_the_first_byte: bool) {
    let mut numbers = Numbers(seed);
    let bytes = stream_bytes(&mut numbers, 12);
    let mut plain = Plain::new();
    let mut stream = TfhStream::new();
    if from_the_first_byte {
        plain.handle(0, 1, &bytes[..1]);
        stream.handle_datagram(0, 1, &bytes[..1]);
    }
    for step in 0..400 {
        // A datagram anywhere in the stream: it may repeat, overlap others
        // or lie before the start by now.
        let at = numbers.next(bytes.len() as u64) as usize;
        let len = numbers.next(30).min((bytes.len() - at) as u64) as usize;
        let ack = numbers.next(1000) as u32;
        plain.handle(at as u32, ack, &bytes[at..at + len]);
        stream.handle_datagram(at as u32, ack, &bytes[at..at + len]);
        assert_eq!(stream.start() as u64, plain.start, "seed {} step {}", seed, step);
        assert_eq!(stream.buffered(), plain.buf.len(), "seed {} step {}", seed, step);
        assert_eq!(stream.in_sync(), plain.sync);
        assert_eq!(stream.count_avail(), plain.avail(), "seed {} step {}", seed, step);
        if numbers.next(4) == 0 {
            loop {
                let expect = plain.next();
                let got = stream.next_message().map(|m| (m.header, m.body));
                assert_eq!(got, expect, "seed {} step {}", seed, step);
                assert_eq!(stream.start() as u64, plain.start);
                assert_eq!(stream.count_avail(), plain.avail());
                if expect.is_none() {
                    break;
                }
            }
        }
    }
}

#[test]
fn the_stream_agrees_with_a_plain_reassembler() {
    for seed in 1..40 {
        run(seed, true);
    }
}

#[test]
fn the_stream_agrees_with_a_plain_reassembler_out_of_sync() {
    for seed in 100..140 {
        run(seed, false);
    }
}
