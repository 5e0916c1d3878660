//! The table of live connections: each connection has a stream per
//! direction and the time of its last datagram. A connection is made when
//! its first datagram is seen and leaves when it has been silent for
//! [`CONN_TIMEOUT`] seconds.
//!
//! Time is a number of ticks, [`TICKS_PER_SECOND`] to the second.
//! [`TfhStreamConns::handle`] and [`TfhStreamConns::check_timeout`] read
//! it from a clock that does not run backwards;
//! [`TfhStreamConns::handle_at`] and [`TfhStreamConns::check_timeout_at`]
//! take it from the caller, and say exactly what they do with it.
//!
//! A handler keeps a record of what it has been told, for contracts to
//! speak of: [`StreamHandler::told`].

use crate::bytes::be_at;
use crate::framing::{frame_major, frame_minor, Message, MessageView, DIR_AB, DIR_BA};
use crate::keys::{key, key_of, lemma_key_unique, lemma_walk_walked, walk, walked};
use crate::packet::{
    has_ipv4_header, ipv4_header_len, is_tfh_stream_bytes, Packet, UDP_HEADER_LEN,
};
use crate::stream_model::{StreamState, SEQ_MAX};
use crate::tfh_stream::TfhStream;
use std::collections::HashMap;
use vstd::prelude::*;
use vstd::std_specs::hash::group_hash_axioms;

verus! {

/// The number of seconds of silence after which a connection leaves the
/// table.
pub const CONN_TIMEOUT: u64 = 60;

/// The number of ticks of the table's time in a second: a tick is a
/// nanosecond.
pub const TICKS_PER_SECOND: u64 = 1_000_000_000;

/// The number of ticks of silence after which a connection leaves the
/// table: [`CONN_TIMEOUT`] seconds.
pub const CONN_TIMEOUT_TICKS: u64 = 60_000_000_000;

/// The two ends of a connection, the client side first: its address and
/// port, then the address and port of the server side.
#[derive(Clone, Copy, PartialEq, Eq, Debug, Hash, Structural)]
pub enum ConnTuple {
    Ipv4(u32, u16, u32, u16),
}

/// The connection that the UDP datagram in `p` belongs to. With `flip` the
/// datagram travels from the server side to the client side, so its
/// destination is the client.
pub open spec fn conn_tuple_of(p: Seq<u8>, flip: bool) -> ConnTuple {
    let u = ipv4_header_len(p);
    let source_ip = be_at(p, 12, 4) as u32;
    let dest_ip = be_at(p, 16, 4) as u32;
    let source_port = be_at(p, u, 2) as u16;
    let dest_port = be_at(p, u + 2, 2) as u16;
    if !flip {
        ConnTuple::Ipv4(source_ip, source_port, dest_ip, dest_port)
    } else {
        ConnTuple::Ipv4(dest_ip, dest_port, source_ip, source_port)
    }
}

impl ConnTuple {
    /// The connection that the UDP datagram in `p` belongs to.
    pub fn from_udp_packet(p: &Packet, flip: bool) -> (ct: ConnTuple)
        requires
            has_ipv4_header(p@),
            ipv4_header_len(p@) + UDP_HEADER_LEN <= p@.len(),
        ensures
            ct == conn_tuple_of(p@, flip),
    {
        proof {
            let u = ipv4_header_len(p@);
            crate::packet::lemma_header_len_bound(p@);
            crate::bytes::lemma_be_at_subrange(p@, 0, u, 12, 4);
            crate::bytes::lemma_be_at_subrange(p@, 0, u, 16, 4);
            crate::bytes::lemma_be_at_subrange(p@, u, u + 8, 0, 2);
            crate::bytes::lemma_be_at_subrange(p@, u, u + 8, 2, 2);
        }
        let hdr = p.ipv4();
        let addr1: u32 = hdr.source_ip();
        let addr2: u32 = hdr.dest_ip();
        let hdr = p.udp();
        let port1: u16 = hdr.source_port();
        let port2: u16 = hdr.dest_port();
        if !flip {
            ConnTuple::Ipv4(addr1, port1, addr2, port2)
        } else {
            ConnTuple::Ipv4(addr2, port2, addr1, port1)
        }
    }
}

/// One thing that a handler has been told.
pub enum Told {
    /// A message was framed on a connection.
    Message(ConnTuple, MessageView),
    /// A connection left the table.
    Timeout(ConnTuple),
}

/// What a handler is told of the connections: each message as it is
/// framed, and each connection as it leaves the table.
pub trait StreamHandler {
    /// What the handler has been told so far, in order. It is a record for
    /// contracts to speak of; what a handler does with what it is told is
    /// its own affair. A handler that keeps no record of its own has the
    /// record that is given here, of which nothing is known.
    open spec fn told(&self) -> Seq<Told> {
        arbitrary()
    }

    fn on_message(&mut self, ct: ConnTuple, msg: Message)
        ensures
            final(self).told() == old(self).told().push(Told::Message(ct, msg@)),
    ;

    fn on_timeout(&mut self, ct: ConnTuple)
        ensures
            final(self).told() == old(self).told().push(Told::Timeout(ct)),
    ;
}

/// The messages `ms` as a handler is told of them on the connection `ct`.
pub open spec fn told_messages(ct: ConnTuple, ms: Seq<MessageView>) -> Seq<Told> {
    Seq::new(ms.len(), |i: int| Told::Message(ct, ms[i]))
}

/// The connections `cts` as a handler is told of their leaving.
pub open spec fn told_timeouts(cts: Seq<ConnTuple>) -> Seq<Told> {
    Seq::new(cts.len(), |i: int| Told::Timeout(cts[i]))
}

/// One thing that a [`Recorder`] has been told.
pub enum Event {
    Message(ConnTuple, Message),
    Timeout(ConnTuple),
}

impl View for Event {
    type V = Told;

    open spec fn view(&self) -> Told {
        match *self {
            Event::Message(ct, msg) => Told::Message(ct, msg@),
            Event::Timeout(ct) => Told::Timeout(ct),
        }
    }
}

/// A handler that keeps all that it is told.
pub struct Recorder {
    pub events: Vec<Event>,
}

impl Recorder {
    /// A recorder that has been told nothing.
    pub fn new() -> (r: Recorder)
        ensures
            r.told() == Seq::<Told>::empty(),
    {
        let r = Recorder { events: Vec::new() };
        assert(r.told() =~= Seq::<Told>::empty());
        r
    }
}

impl StreamHandler for Recorder {
    open spec fn told(&self) -> Seq<Told> {
        Seq::new(self.events@.len(), |i: int| self.events@[i]@)
    }

    fn on_message(&mut self, ct: ConnTuple, msg: Message) {
        let ghost m = msg@;
        self.events.push(Event::Message(ct, msg));
        assert(self.told() =~= old(self).told().push(Told::Message(ct, m)));
    }

    fn on_timeout(&mut self, ct: ConnTuple) {
        self.events.push(Event::Timeout(ct));
        assert(self.told() =~= old(self).told().push(Told::Timeout(ct)));
    }
}

/// Tells `handler` of the messages `msgs` on the connection `ct`, in
/// their order.
fn tell_messages<H: StreamHandler>(handler: &mut H, ct: ConnTuple, msgs: Vec<Message>)
    ensures
        final(handler).told() == old(handler).told() + told_messages(ct, message_views(msgs@)),
        msgs@.len() == 0 ==> *final(handler) == *old(handler),
{
    let ghost all = message_views(msgs@);
    let n: usize = msgs.len();
    let mut msgs = msgs;
    // The messages leave a list from its end, so the list is turned round
    // first.
    let mut rest: Vec<Message> = Vec::new();
    while msgs.len() > 0
        invariant
            all.len() == n,
            msgs@.len() + rest@.len() == n,
            message_views(msgs@) == all.subrange(0, msgs@.len() as int),
            forall|j: int| 0 <= j < rest@.len() ==> (#[trigger] rest@[j])@ == all[n - 1 - j],
            *handler == *old(handler),
        decreases msgs@.len(),
    {
        let ghost left = message_views(msgs@);
        match msgs.pop() {
            Some(msg) => {
                assert(msg@ == left[left.len() - 1]);
                rest.push(msg);
                assert(message_views(msgs@) =~= all.subrange(0, msgs@.len() as int));
            },
            None => {},
        }
    }
    assert(old(handler).told() + told_messages(ct, all.subrange(0, 0)) =~= old(handler).told());
    while rest.len() > 0
        invariant
            all.len() == n,
            rest@.len() <= n,
            forall|j: int| 0 <= j < rest@.len() ==> (#[trigger] rest@[j])@ == all[n - 1 - j],
            handler.told() == old(handler).told() + told_messages(
                ct,
                all.subrange(0, n - rest@.len()),
            ),
            n == 0 ==> *handler == *old(handler),
        decreases rest@.len(),
    {
        let ghost k = n - rest@.len();
        let ghost before = handler.told();
        match rest.pop() {
            Some(msg) => {
                assert(msg@ == all[k]);
                handler.on_message(ct, msg);
                assert(handler.told() =~= old(handler).told() + told_messages(
                    ct,
                    all.subrange(0, k + 1),
                ));
            },
            None => {},
        }
    }
    assert(all.subrange(0, n as int) =~= all);
}

/// Tells `handler` of the leaving of the connections `gone`, in their
/// order.
fn tell_timeouts<H: StreamHandler>(handler: &mut H, gone: &Vec<ConnTuple>)
    ensures
        final(handler).told() == old(handler).told() + told_timeouts(gone@),
        gone@.len() == 0 ==> *final(handler) == *old(handler),
{
    let n: usize = gone.len();
    let mut i: usize = 0;
    assert(old(handler).told() + told_timeouts(gone@.subrange(0, 0)) =~= old(handler).told());
    while i < n
        invariant
            i <= n == gone@.len(),
            handler.told() == old(handler).told() + told_timeouts(gone@.subrange(0, i as int)),
            n == 0 ==> *handler == *old(handler),
        decreases n - i,
    {
        handler.on_timeout(gone[i]);
        i = i + 1;
        assert(handler.told() =~= old(handler).told() + told_timeouts(
            gone@.subrange(0, i as int),
        ));
    }
    assert(gone@.subrange(0, n as int) =~= gone@);
}

/// A stream that has seen nothing.
pub open spec fn fresh_stream() -> StreamState {
    StreamState { start: SEQ_MAX as nat, buf: Seq::empty(), chunks: Map::empty(), sync: false }
}

/// The messages of `s`, each with its direction set to `dir`.
pub open spec fn stamp_all(s: Seq<MessageView>, dir: u8) -> Seq<MessageView> {
    Seq::new(s.len(), |i: int| s[i].stamped(dir))
}

/// A frame with an opcode above 255 was handed out as a message, which
/// carries the low eight bits of each opcode only.
#[derive(Clone, Copy, Debug, PartialEq, Eq, Structural)]
pub struct Warning {
    /// The connection of the message.
    pub tuple: ConnTuple,
    /// The direction of the message.
    pub dir: u8,
    /// The major opcode in full.
    pub major: u32,
    /// The minor opcode in full.
    pub minor: u32,
}

/// The warnings for the opcodes `wide` of frames on the connection `ct` in
/// the direction `dir`.
pub open spec fn warned(ct: ConnTuple, dir: u8, wide: Seq<(nat, nat)>) -> Seq<Warning> {
    Seq::new(
        wide.len(),
        |i: int| Warning { tuple: ct, dir, major: wide[i].0 as u32, minor: wide[i].1 as u32 },
    )
}

/// The messages of `s` as values.
pub open spec fn message_views(s: Seq<Message>) -> Seq<MessageView> {
    Seq::new(s.len(), |i: int| s[i]@)
}

/// The state of one connection.
pub struct ConnState {
    /// The stream from the client side to the server side.
    pub ab: StreamState,
    /// The stream from the server side to the client side.
    pub ba: StreamState,
    /// When the last datagram of the connection was seen.
    pub last_packet: nat,
}

impl ConnState {
    /// A connection that has seen nothing, made at the time `now`.
    pub open spec fn fresh(now: nat) -> ConnState {
        ConnState { ab: fresh_stream(), ba: fresh_stream(), last_packet: now }
    }

    /// Both streams are in a state that they can have reached.
    pub open spec fn wf(self) -> bool {
        self.ab.wf() && self.ba.wf()
    }

    /// The connection after the stream datagram `p` has been taken at the
    /// time `now`: the stream of its direction took it.
    pub open spec fn fed(self, p: Seq<u8>, flip: bool, now: nat) -> ConnState {
        ConnState {
            ab: if !flip {
                self.ab.take(p)
            } else {
                self.ab
            },
            ba: if flip {
                self.ba.take(p)
            } else {
                self.ba
            },
            last_packet: now,
        }
    }

    /// The connection when every message that is ready has been handed
    /// out.
    pub open spec fn drained(self) -> ConnState {
        ConnState { ab: self.ab.drained(), ba: self.ba.drained(), last_packet: self.last_packet }
    }

    /// The messages that are ready, in the order in which they are handed
    /// out: those from the client side first, each stamped with its
    /// direction.
    pub open spec fn pending(self) -> Seq<MessageView> {
        stamp_all(self.ab.pending(), DIR_AB) + stamp_all(self.ba.pending(), DIR_BA)
    }

    /// The warnings for the messages that are ready on the connection
    /// `ct`, in the order of the messages.
    pub open spec fn warnings(self, ct: ConnTuple) -> Seq<Warning> {
        warned(ct, DIR_AB, self.ab.wide()) + warned(ct, DIR_BA, self.ba.wide())
    }

    /// The connection has been silent for the timeout at the time `now`.
    pub open spec fn expired(self, now: nat) -> bool {
        now >= self.last_packet + CONN_TIMEOUT_TICKS
    }
}

/// The connection of `ct` as the table `t` holds it, or a fresh one.
pub open spec fn conn_before(t: Map<ConnTuple, ConnState>, ct: ConnTuple, now: nat) -> ConnState {
    if t.contains_key(ct) {
        t[ct]
    } else {
        ConnState::fresh(now)
    }
}

/// The table after the packet `p` has been taken at the time `now`. A
/// packet that is no stream datagram changes nothing.
pub open spec fn table_after(t: Map<ConnTuple, ConnState>, p: Seq<u8>, flip: bool, now: nat) -> Map<
    ConnTuple,
    ConnState,
> {
    if is_tfh_stream_bytes(p) {
        let ct = conn_tuple_of(p, flip);
        t.insert(ct, conn_before(t, ct, now).fed(p, flip, now).drained())
    } else {
        t
    }
}

/// The messages that taking the packet `p` at the time `now` hands out.
pub open spec fn messages_after(
    t: Map<ConnTuple, ConnState>,
    p: Seq<u8>,
    flip: bool,
    now: nat,
) -> Seq<MessageView> {
    if is_tfh_stream_bytes(p) {
        conn_before(t, conn_tuple_of(p, flip), now).fed(p, flip, now).pending()
    } else {
        Seq::empty()
    }
}

/// The warnings that taking the packet `p` at the time `now` gives rise
/// to.
pub open spec fn warnings_after(
    t: Map<ConnTuple, ConnState>,
    p: Seq<u8>,
    flip: bool,
    now: nat,
) -> Seq<Warning> {
    if is_tfh_stream_bytes(p) {
        let ct = conn_tuple_of(p, flip);
        conn_before(t, ct, now).fed(p, flip, now).warnings(ct)
    } else {
        Seq::empty()
    }
}

/// The table without the connections that have been silent for the
/// timeout at the time `now`.
pub open spec fn table_unexpired(t: Map<ConnTuple, ConnState>, now: nat) -> Map<
    ConnTuple,
    ConnState,
> {
    Map::new(|ct: ConnTuple| t.contains_key(ct) && !t[ct].expired(now), |ct: ConnTuple| t[ct])
}

/// A connection that has been silent for the timeout is taken from the
/// table by the next check. It is then gone, so that no later check finds
/// it there to take again.
pub proof fn lemma_silence_times_out(
    t: Map<ConnTuple, ConnState>,
    ct: ConnTuple,
    now: nat,
    later: nat,
)
    requires
        t.contains_key(ct),
        now >= t[ct].last_packet + CONN_TIMEOUT * TICKS_PER_SECOND,
    ensures
        t[ct].expired(now),
        !table_unexpired(t, now).contains_key(ct),
        !table_unexpired(table_unexpired(t, now), later).contains_key(ct),
{
}

/// A connection that a datagram has just been seen on stays in the table
/// until the timeout has passed.
pub proof fn lemma_traffic_keeps_alive(
    t: Map<ConnTuple, ConnState>,
    p: Seq<u8>,
    flip: bool,
    now: nat,
    later: nat,
)
    requires
        is_tfh_stream_bytes(p),
        now <= later < now + CONN_TIMEOUT * TICKS_PER_SECOND,
    ensures
        table_unexpired(table_after(t, p, flip, now), later).contains_key(conn_tuple_of(p, flip)),
{
}

/// One connection: the stream of each direction and the time of the last
/// datagram.
pub struct StreamConn {
    ab: TfhStream,
    ba: TfhStream,
    last_packet: u64,
}

impl View for StreamConn {
    type V = ConnState;

    closed spec fn view(&self) -> ConnState {
        ConnState { ab: self.ab@, ba: self.ba@, last_packet: self.last_packet as nat }
    }
}

impl StreamConn {
    /// Both streams are in a state that they can have reached.
    pub closed spec fn wf(&self) -> bool {
        self.ab.wf() && self.ba.wf()
    }

    /// A connection that has seen nothing, made at the time `now`.
    pub fn new(now: u64) -> (c: StreamConn)
        ensures
            c.wf(),
            c@ == ConnState::fresh(now as nat),
    {
        StreamConn { ab: TfhStream::new(), ba: TfhStream::new(), last_packet: now }
    }
}

/// Hands out every message of `stream` that is ready, stamped with `dir`,
/// onto the end of `out`, and puts a warning onto the end of `warnings`
/// for each that has an opcode above 255.
fn drain_into(
    stream: &mut TfhStream,
    ct: ConnTuple,
    dir: u8,
    out: &mut Vec<Message>,
    warnings: &mut Vec<Warning>,
)
    requires
        old(stream).wf(),
    ensures
        final(stream).wf(),
        final(stream)@ == old(stream)@.drained(),
        message_views(final(out)@) == message_views(old(out)@) + stamp_all(
            old(stream)@.pending(),
            dir,
        ),
        final(warnings)@ == old(warnings)@ + warned(ct, dir, old(stream)@.wide()),
{
    let ghost first = stream@;
    let ghost had = message_views(out@);
    let ghost noted = warnings@;
    proof {
        crate::tfh_stream::lemma_wf_of_view(stream);
        assert(message_views(out@) + stamp_all(stream@.pending(), dir) =~= had + stamp_all(
            first.pending(),
            dir,
        ));
    }
    loop
        invariant_except_break
            stream.wf(),
            stream@.wf(),
            stream@.drained() == first.drained(),
            message_views(out@) + stamp_all(stream@.pending(), dir) == had + stamp_all(
                first.pending(),
                dir,
            ),
            warnings@ + warned(ct, dir, stream@.wide()) == noted + warned(ct, dir, first.wide()),
        ensures
            stream.wf(),
            stream@ == first.drained(),
            message_views(out@) == had + stamp_all(first.pending(), dir),
            warnings@ == noted + warned(ct, dir, first.wide()),
        decreases stream@.buf.len(),
    {
        let ghost s = stream@;
        let ghost sent = message_views(out@);
        let ghost before = warnings@;
        proof {
            if s.ready() {
                crate::framing::lemma_after_next(s);
            }
        }
        match stream.next_opcodes() {
            Some((major, minor)) => {
                if major > 255 || minor > 255 {
                    warnings.push(Warning { tuple: ct, dir, major, minor });
                }
            },
            None => {},
        }
        proof {
            let head = if s.next_is_wide() {
                seq![(frame_major(s.buf), frame_minor(s.buf))]
            } else {
                Seq::<(nat, nat)>::empty()
            };
            assert(warnings@ =~= before + warned(ct, dir, head));
            if s.ready() {
                assert(warned(ct, dir, s.wide()) =~= warned(ct, dir, head) + warned(
                    ct,
                    dir,
                    s.after_next().wide(),
                ));
                assert(before + warned(ct, dir, head) + warned(ct, dir, s.after_next().wide())
                    =~= before + (warned(ct, dir, head) + warned(ct, dir, s.after_next().wide())));
            } else {
                assert(warned(ct, dir, s.wide()) =~= Seq::<Warning>::empty());
                assert(before + Seq::<Warning>::empty() =~= before);
            }
        }
        match stream.next_message() {
            Some(mut msg) => {
                msg.header.dir = dir;
                out.push(msg);
                proof {
                    crate::tfh_stream::lemma_wf_of_view(stream);
                    let m = s.next_message().stamped(dir);
                    assert(message_views(out@) =~= sent.push(m));
                    assert(stamp_all(s.pending(), dir) =~= seq![m] + stamp_all(
                        s.after_next().pending(),
                        dir,
                    ));
                    assert(sent.push(m) + stamp_all(s.after_next().pending(), dir) =~= sent + (
                    seq![m] + stamp_all(s.after_next().pending(), dir)));
                }
            },
            None => {
                proof {
                    assert(stamp_all(s.pending(), dir) =~= Seq::<MessageView>::empty());
                    assert(sent + Seq::<MessageView>::empty() =~= sent);
                }
                break ;
            },
        }
    }
}

/// A connection of the table with its tuple.
struct ConnEntry {
    tuple: ConnTuple,
    conn: StreamConn,
}

/// Each entry of `m` stands under the number of its tuple.
spec fn keyed(m: Map<u128, ConnEntry>) -> bool {
    forall|k: u128| #[trigger] m.contains_key(k) ==> key_of(m[k].tuple) == k
}

/// The connections of `m` by their tuples.
spec fn conn_map(m: Map<u128, ConnEntry>) -> Map<ConnTuple, ConnState> {
    Map::new(|ct: ConnTuple| m.contains_key(key_of(ct)), |ct: ConnTuple| m[key_of(ct)].conn@)
}

/// Taking the entry of the connection `ct` out of the map takes the
/// connection out of the table, and nothing else.
proof fn lemma_entry_removed(m: Map<u128, ConnEntry>, ct: ConnTuple)
    requires
        keyed(m),
    ensures
        keyed(m.remove(key_of(ct))),
        conn_map(m.remove(key_of(ct))) == conn_map(m).remove(ct),
{
    let r = m.remove(key_of(ct));
    assert forall|other: ConnTuple| conn_map(r).contains_key(other) <==> conn_map(m).remove(
        ct,
    ).contains_key(other) by {
        if key_of(other) == key_of(ct) {
            lemma_key_unique(other, ct);
        }
    }
    assert(conn_map(r) =~= conn_map(m).remove(ct));
}

/// Putting the entry `e` under the number of its tuple sets the
/// connection of that tuple, and nothing else.
proof fn lemma_entry_put(m: Map<u128, ConnEntry>, e: ConnEntry)
    requires
        keyed(m),
    ensures
        keyed(m.insert(key_of(e.tuple), e)),
        conn_map(m.insert(key_of(e.tuple), e)) == conn_map(m).insert(e.tuple, e.conn@),
{
    let r = m.insert(key_of(e.tuple), e);
    let want = conn_map(m).insert(e.tuple, e.conn@);
    assert forall|other: ConnTuple| conn_map(r).contains_key(other) <==> want.contains_key(
        other,
    ) by {
        if key_of(other) == key_of(e.tuple) {
            lemma_key_unique(other, e.tuple);
        }
    }
    assert forall|other: ConnTuple| conn_map(r).contains_key(other) implies conn_map(r)[other]
        == want[other] by {
        if key_of(other) == key_of(e.tuple) {
            lemma_key_unique(other, e.tuple);
        }
    }
    assert(conn_map(r) =~= want);
}

/// The entry under `k`, of the connection `ct`, stands in `w` before the
/// place `upto` and has been silent for the timeout at the time `t`.
spec fn leaves(w: Seq<(u128, ConnEntry)>, upto: int, t: nat, k: u128, ct: ConnTuple) -> bool {
    exists|x: int|
        0 <= x < upto && (#[trigger] w[x]).0 == k && w[x].1.tuple == ct && w[x].1.conn@.expired(t)
}

/// The connection `ct`, kept under `k`, is among those that leave.
spec fn listed(keys: Seq<u128>, gone: Seq<ConnTuple>, k: u128, ct: ConnTuple) -> bool {
    exists|y: int| 0 <= y < keys.len() && #[trigger] keys[y] == k && gone[y] == ct
}

/// A point in time on the clock of `std` that does not run backwards,
/// carried through as it is.
#[verifier::external_type_specification]
#[verifier::external_body]
pub struct ExInstant(std::time::Instant);

/// The time as `Instant::now` gives it.
#[verifier::external_body]
fn clock_now() -> (t: std::time::Instant) {
    std::time::Instant::now()
}

/// The time that has passed since `epoch`, as `Instant::elapsed` gives it.
#[verifier::external_body]
fn clock_elapsed(epoch: &std::time::Instant) -> (d: core::time::Duration) {
    epoch.elapsed()
}

/// The nanoseconds of `d`, as `Duration::as_nanos` gives them.
#[verifier::external_body]
fn nanoseconds(d: &core::time::Duration) -> (n: u128) {
    d.as_nanos()
}

/// The table of live connections, with the handler that is told of their
/// messages and of their leaving.
pub struct TfhStreamConns<H> {
    /// The connections, each under the number of its tuple.
    map: HashMap<u128, ConnEntry>,
    handler: H,
    /// The warnings that have not been taken yet.
    warnings: Vec<Warning>,
    /// When the table was made. The times of the table are ticks since
    /// then.
    epoch: std::time::Instant,
}

impl<H: StreamHandler> View for TfhStreamConns<H> {
    type V = Map<ConnTuple, ConnState>;

    closed spec fn view(&self) -> Map<ConnTuple, ConnState> {
        conn_map(self.map@)
    }
}

impl<H: StreamHandler> TfhStreamConns<H> {
    /// Every connection of the table is in a state that it can have
    /// reached, and stands where the table looks for it.
    pub closed spec fn wf(&self) -> bool {
        &&& keyed(self.map@)
        &&& forall|k: u128| #[trigger] self.map@.contains_key(k) ==> self.map@[k].conn.wf()
    }

    /// The handler of the table.
    pub closed spec fn held(&self) -> H {
        self.handler
    }

    /// The warnings that the table has for its caller, in the order in
    /// which they arose.
    pub closed spec fn noted(&self) -> Seq<Warning> {
        self.warnings@
    }

    /// An empty table with its handler.
    pub fn new(handler: H) -> (t: Self)
        ensures
            t.wf(),
            t@ == Map::<ConnTuple, ConnState>::empty(),
            t.held() == handler,
            t.noted() == Seq::<Warning>::empty(),
    {
        let t = TfhStreamConns {
            map: HashMap::new(),
            handler,
            warnings: Vec::new(),
            epoch: clock_now(),
        };
        assert(conn_map(t.map@) =~= Map::<ConnTuple, ConnState>::empty());
        t
    }

    /// The handler.
    pub fn handler(&self) -> (h: &H)
        ensures
            *h == self.held(),
    {
        &self.handler
    }

    /// The time on the clock of the table: the ticks since it was made,
    /// or the highest number of ticks where they are more than that.
    pub fn now(&self) -> (now: u64) {
        let passed = clock_elapsed(&self.epoch);
        let ticks: u128 = nanoseconds(&passed);
        if ticks > u64::MAX as u128 {
            u64::MAX
        } else {
            ticks as u64
        }
    }

    /// Takes the warnings that have arisen since they were last taken.
    pub fn take_warnings(&mut self) -> (r: Vec<Warning>)
        ensures
            r@ == old(self).noted(),
            final(self).noted() == Seq::<Warning>::empty(),
            final(self)@ == old(self)@,
            final(self).held() == old(self).held(),
            old(self).wf() ==> final(self).wf(),
    {
        let mut r: Vec<Warning> = Vec::new();
        core::mem::swap(&mut r, &mut self.warnings);
        r
    }

    /// The number of connections in the table.
    pub fn len(&self) -> (n: usize)
        requires
            self.wf(),
        ensures
            n == self@.dom().len(),
            self@.dom().finite(),
    {
        broadcast use group_hash_axioms;

        proof {
            lemma_table_size(self.map@);
        }
        self.map.len()
    }

    /// Whether the table holds the connection `ct`.
    pub fn contains(&self, ct: ConnTuple) -> (r: bool)
        requires
            self.wf(),
        ensures
            r == self@.contains_key(ct),
    {
        broadcast use group_hash_axioms;

        self.map.contains_key(&key(ct))
    }

    /// Takes a packet at the time `now` and gives the messages that it
    /// completes.
    ///
    /// Where the packet is a stream datagram, its connection is made if
    /// the table does not hold it, the time of its last datagram is set
    /// to `now`, and the stream bytes go to the stream of the datagram's
    /// direction: with `flip` that from the server side. Both streams then
    /// hand out what is ready.
    pub fn feed(&mut self, p: &Packet, flip: bool, now: u64) -> (out: Vec<Message>)
        requires
            old(self).wf(),
        ensures
            final(self).wf(),
            final(self)@ == table_after(old(self)@, p@, flip, now as nat),
            final(self).held() == old(self).held(),
            final(self).noted() == old(self).noted() + warnings_after(
                old(self)@,
                p@,
                flip,
                now as nat,
            ),
            message_views(out@) == messages_after(old(self)@, p@, flip, now as nat),
    {
        broadcast use group_hash_axioms;

        let mut out: Vec<Message> = Vec::new();
        if !p.is_tfh_stream() {
            assert(message_views(out@) =~= Seq::<MessageView>::empty());
            assert(self.noted() + Seq::<Warning>::empty() =~= self.noted());
            return out;
        }
        let ct: ConnTuple = ConnTuple::from_udp_packet(p, flip);
        let k: u128 = key(ct);
        let ghost before = self.map@;
        proof {
            lemma_entry_removed(before, ct);
        }
        let mut sc: StreamConn = match self.map.remove(&k) {
            Some(entry) => entry.conn,
            None => StreamConn::new(now),
        };
        let ghost others = self.map@;
        assert(others == before.remove(k));
        assert(sc@ == conn_before(conn_map(before), ct, now as nat) || (sc@.ab == conn_before(
            conn_map(before),
            ct,
            now as nat,
        ).ab && sc@.ba == conn_before(conn_map(before), ct, now as nat).ba));
        sc.last_packet = now;
        if !flip {
            sc.ab.handle_packet(p);
        } else {
            sc.ba.handle_packet(p);
        }
        assert(sc@ == conn_before(conn_map(before), ct, now as nat).fed(p@, flip, now as nat));
        let ghost fed = sc@;
        assert(message_views(out@) =~= Seq::<MessageView>::empty());
        let ghost noted = self.warnings@;
        drain_into(&mut sc.ab, ct, DIR_AB, &mut out, &mut self.warnings);
        drain_into(&mut sc.ba, ct, DIR_BA, &mut out, &mut self.warnings);
        assert(message_views(out@) =~= fed.pending());
        assert(self.warnings@ =~= noted + fed.warnings(ct));
        let entry = ConnEntry { tuple: ct, conn: sc };
        proof {
            lemma_entry_put(others, entry);
            assert(conn_map(others.insert(k, entry)) =~= conn_map(before).insert(
                ct,
                fed.drained(),
            ));
        }
        self.map.insert(k, entry);
        out
    }

    /// Taking the packet `p` at the time `now` led from the table `self`
    /// with its handler to the table `after` with its handler: the table
    /// took the packet, and the handler was told of each message that the
    /// packet completed, in order, and of nothing else. Where there was no
    /// message the handler is as it was. For each message with an opcode
    /// above 255 the table has a warning more.
    pub open spec fn handled(self, after: Self, p: Seq<u8>, flip: bool, now: nat) -> bool {
        &&& after@ == table_after(self@, p, flip, now)
        &&& after.held().told() == self.held().told() + told_messages(
            conn_tuple_of(p, flip),
            messages_after(self@, p, flip, now),
        )
        &&& messages_after(self@, p, flip, now).len() == 0 ==> after.held() == self.held()
        &&& after.noted() == self.noted() + warnings_after(self@, p, flip, now)
    }

    /// Checking for silent connections at the time `now` led from the
    /// table `self` with its handler to the table `after` with its
    /// handler: the connections that had been silent for the timeout
    /// left, and the handler was told of the leaving of each of them once,
    /// and of nothing else. Where none left the handler is as it was.
    pub open spec fn checked(self, after: Self, now: nat) -> bool {
        &&& after@ == table_unexpired(self@, now)
        &&& exists|gone: Seq<ConnTuple>|
            {
                &&& gone.no_duplicates()
                &&& forall|ct: ConnTuple|
                    gone.contains(ct) <==> self@.contains_key(ct) && self@[ct].expired(now)
                &&& after.held().told() == self.held().told() + #[trigger] told_timeouts(gone)
            }
        &&& (forall|ct: ConnTuple| self@.contains_key(ct) ==> !self@[ct].expired(now))
            ==> after.held() == self.held()
        &&& after.noted() == self.noted()
    }

    /// Takes a packet at the time that the clock of the table shows, and
    /// tells the handler each message that it completes, in order.
    pub fn handle(&mut self, p: &Packet, flip: bool)
        requires
            old(self).wf(),
        ensures
            final(self).wf(),
            exists|now: u64| #[trigger] old(self).handled(*final(self), p@, flip, now as nat),
            !is_tfh_stream_bytes(p@) ==> final(self)@ == old(self)@ && final(self).held() == old(
                self,
            ).held(),
    {
        let now: u64 = self.now();
        self.handle_at(p, flip, now);
    }

    /// Takes a packet at the time `now` and tells the handler each message
    /// that it completes, in order.
    ///
    /// Where the packet is a stream datagram, its connection is made if
    /// the table does not hold it, the time of its last datagram is set
    /// to `now`, and the stream of the datagram's direction takes it: with
    /// `flip` that from the server side. The handler is then told of what
    /// the stream from the client side has ready, and after that of what
    /// the stream from the server side has ready. Any other packet
    /// changes nothing.
    pub fn handle_at(&mut self, p: &Packet, flip: bool, now: u64)
        requires
            old(self).wf(),
        ensures
            final(self).wf(),
            old(self).handled(*final(self), p@, flip, now as nat),
            !is_tfh_stream_bytes(p@) ==> final(self)@ == old(self)@ && final(self).held() == old(
                self,
            ).held(),
    {
        if !p.is_tfh_stream() {
            assert(told_messages(conn_tuple_of(p@, flip), Seq::<MessageView>::empty())
                =~= Seq::<Told>::empty());
            assert(self.held().told() + Seq::<Told>::empty() =~= self.held().told());
            assert(self.noted() + Seq::<Warning>::empty() =~= self.noted());
            return ;
        }
        let ct: ConnTuple = ConnTuple::from_udp_packet(p, flip);
        let out: Vec<Message> = self.feed(p, flip, now);
        tell_messages(&mut self.handler, ct, out);
    }

    /// Takes from the table every connection that has been silent for the
    /// timeout at the time `now`, and gives their tuples, each once.
    pub fn expire(&mut self, now: u64) -> (gone: Vec<ConnTuple>)
        requires
            old(self).wf(),
        ensures
            final(self).wf(),
            final(self)@ == table_unexpired(old(self)@, now as nat),
            final(self).held() == old(self).held(),
            final(self).noted() == old(self).noted(),
            gone@.no_duplicates(),
            forall|ct: ConnTuple|
                gone@.contains(ct) <==> old(self)@.contains_key(ct) && old(self)@[ct].expired(
                    now as nat,
                ),
    {
        broadcast use group_hash_axioms;

        let ghost m = self.map@;
        let ghost t = now as nat;
        let ghost w = walk(&self.map);
        let mut gone: Vec<ConnTuple> = Vec::new();
        let mut keys: Vec<u128> = Vec::new();
        let iter = self.map.iter();
        proof {
            lemma_walk_walked(&self.map);
        }
        for kv in it: iter
            invariant
                it.seq().unref() == w,
                walked(w, m),
                keyed(m),
                t == now as nat,
                keys@.len() == gone@.len(),
                gone@.no_duplicates(),
                // Each list holds only what belongs in it.
                forall|y: int|
                    0 <= y < keys@.len() ==> leaves(w, it.index(), t, #[trigger] keys@[y], gone@[y]),
                // What has been looked at and leaves is in the lists.
                forall|x: int|
                    0 <= x < it.index() && (#[trigger] w[x]).1.conn@.expired(t) ==> listed(
                        keys@,
                        gone@,
                        w[x].0,
                        w[x].1.tuple,
                    ),
        {
            let (k, v) = kv;
            let ghost x = it.index();
            let ghost keys_before = keys@;
            let ghost gone_before = gone@;
            assert(w[x] == (*k, *v));
            if now >= v.conn.last_packet && now - v.conn.last_packet >= CONN_TIMEOUT_TICKS {
                proof {
                    if gone_before.contains(v.tuple) {
                        let y = choose|y: int| 0 <= y < gone_before.len() && gone_before[y] == v.tuple;
                        assert(leaves(w, x, t, keys_before[y], gone_before[y]));
                        let z = choose|z: int|
                            0 <= z < x && (#[trigger] w[z]).0 == keys_before[y] && w[z].1.tuple
                                == gone_before[y] && w[z].1.conn@.expired(t);
                        assert(m.contains_key(w[z].0));
                        assert(m.contains_key(w[x].0));
                        assert(w[z].0 != w[x].0);
                    }
                }
                gone.push(v.tuple);
                keys.push(*k);
                proof {
                    assert forall|y: int| 0 <= y < keys@.len() implies leaves(
                        w,
                        x + 1,
                        t,
                        #[trigger] keys@[y],
                        gone@[y],
                    ) by {
                        if y < keys_before.len() {
                            assert(leaves(w, x, t, keys_before[y], gone_before[y]));
                            let z = choose|z: int|
                                0 <= z < x && (#[trigger] w[z]).0 == keys_before[y] && w[z].1.tuple
                                    == gone_before[y] && w[z].1.conn@.expired(t);
                            assert(0 <= z < x + 1 && w[z].0 == keys@[y]);
                        } else {
                            assert(w[x].0 == keys@[y]);
                        }
                    }
                    assert forall|z: int|
                        0 <= z < x + 1 && (#[trigger] w[z]).1.conn@.expired(t) implies listed(
                        keys@,
                        gone@,
                        w[z].0,
                        w[z].1.tuple,
                    ) by {
                        if z < x {
                            assert(listed(keys_before, gone_before, w[z].0, w[z].1.tuple));
                            let y = choose|y: int|
                                0 <= y < keys_before.len() && #[trigger] keys_before[y] == w[z].0
                                    && gone_before[y] == w[z].1.tuple;
                            assert(keys@[y] == w[z].0);
                        } else {
                            assert(keys@[keys@.len() - 1] == w[z].0);
                        }
                    }
                }
            } else {
                proof {
                    assert forall|y: int| 0 <= y < keys@.len() implies leaves(
                        w,
                        x + 1,
                        t,
                        #[trigger] keys@[y],
                        gone@[y],
                    ) by {
                        assert(leaves(w, x, t, keys_before[y], gone_before[y]));
                        let z = choose|z: int|
                            0 <= z < x && (#[trigger] w[z]).0 == keys_before[y] && w[z].1.tuple
                                == gone_before[y] && w[z].1.conn@.expired(t);
                        assert(0 <= z < x + 1 && w[z].0 == keys@[y]);
                    }
                }
            }
        }
        let n: usize = keys.len();
        let mut g: usize = 0;
        while g < n
            invariant
                g <= n == keys@.len(),
                self.held() == old(self).held(),
                self.noted() == old(self).noted(),
                forall|k: u128| #[trigger]
                    self.map@.contains_key(k) <==> m.contains_key(k) && forall|j: int|
                        0 <= j < g ==> keys@[j] != k,
                forall|k: u128| #[trigger] self.map@.contains_key(k) ==> self.map@[k] == m[k],
            decreases n - g,
        {
            self.map.remove(&keys[g]);
            g = g + 1;
        }
        proof {
            let after = self.map@;
            let want = table_unexpired(conn_map(m), t);
            assert forall|ct: ConnTuple| conn_map(after).contains_key(ct) <==> want.contains_key(
                ct,
            ) by {
                let k = key_of(ct);
                if m.contains_key(k) {
                    let x = choose|x: int| 0 <= x < w.len() && (#[trigger] w[x]).0 == k;
                    if m[k].conn@.expired(t) {
                        assert(listed(keys@, gone@, w[x].0, w[x].1.tuple));
                        let y = choose|y: int|
                            0 <= y < keys@.len() && #[trigger] keys@[y] == w[x].0 && gone@[y]
                                == w[x].1.tuple;
                        assert(!after.contains_key(k));
                    } else {
                        assert forall|j: int| 0 <= j < n implies keys@[j] != k by {
                            if keys@[j] == k {
                                assert(leaves(w, w.len() as int, t, keys@[j], gone@[j]));
                                let z = choose|z: int|
                                    0 <= z < w.len() && (#[trigger] w[z]).0 == keys@[j]
                                        && w[z].1.tuple == gone@[j] && w[z].1.conn@.expired(t);
                                assert(m[w[z].0] == w[z].1);
                            }
                        }
                        assert(after.contains_key(k));
                    }
                }
            }
            assert(conn_map(after) =~= want);
            assert forall|ct: ConnTuple|
                gone@.contains(ct) <==> conn_map(m).contains_key(ct) && conn_map(m)[ct].expired(
                    t,
                ) by {
                if gone@.contains(ct) {
                    let y = choose|y: int| 0 <= y < gone@.len() && gone@[y] == ct;
                    assert(leaves(w, w.len() as int, t, keys@[y], gone@[y]));
                    let z = choose|z: int|
                        0 <= z < w.len() && (#[trigger] w[z]).0 == keys@[y] && w[z].1.tuple
                            == gone@[y] && w[z].1.conn@.expired(t);
                    assert(m.contains_key(w[z].0) && m[w[z].0] == w[z].1);
                }
                if conn_map(m).contains_key(ct) && conn_map(m)[ct].expired(t) {
                    let k = key_of(ct);
                    let x = choose|x: int| 0 <= x < w.len() && (#[trigger] w[x]).0 == k;
                    assert(m[w[x].0] == w[x].1);
                    assert(listed(keys@, gone@, w[x].0, w[x].1.tuple));
                    let y = choose|y: int|
                        0 <= y < keys@.len() && #[trigger] keys@[y] == w[x].0 && gone@[y]
                            == w[x].1.tuple;
                    lemma_key_unique(w[x].1.tuple, ct);
                    assert(gone@[y] == ct);
                }
            }
        }
        gone
    }

    /// Takes from the table every connection that has been silent for the
    /// timeout at the time that the clock of the table shows, and tells the
    /// handler of each, once.
    pub fn check_timeout(&mut self)
        requires
            old(self).wf(),
        ensures
            final(self).wf(),
            exists|now: u64| #[trigger] old(self).checked(*final(self), now as nat),
            old(self)@.dom() =~= Set::<ConnTuple>::empty() ==> final(self)@ == old(self)@
                && final(self).held() == old(self).held(),
    {
        let now: u64 = self.now();
        self.check_timeout_at(now);
        proof {
            if old(self)@.dom() =~= Set::<ConnTuple>::empty() {
                assert(self@ =~= old(self)@);
            }
        }
    }

    /// Takes from the table every connection that has been silent for the
    /// timeout at the time `now`, and tells the handler of each, once.
    pub fn check_timeout_at(&mut self, now: u64)
        requires
            old(self).wf(),
        ensures
            final(self).wf(),
            old(self).checked(*final(self), now as nat),
    {
        let gone: Vec<ConnTuple> = self.expire(now);
        proof {
            if forall|ct: ConnTuple| old(self)@.contains_key(ct) ==> !old(self)@[ct].expired(now as nat) {
                if gone@.len() > 0 {
                    assert(gone@.contains(gone@[0]));
                }
            }
        }
        tell_timeouts(&mut self.handler, &gone);
    }
}

/// A second check at the same time finds nothing to do: the table is as
/// the first check left it, and the handler is told nothing more.
pub proof fn lemma_second_check_is_idle<H: StreamHandler>(
    first: TfhStreamConns<H>,
    second: TfhStreamConns<H>,
    third: TfhStreamConns<H>,
    now: nat,
)
    requires
        first.checked(second, now),
        second.checked(third, now),
    ensures
        third@ == second@,
        third.held() == second.held(),
{
    assert(third@ =~= second@);
}

/// A table has as many connections as its map has entries.
proof fn lemma_table_size(m: Map<u128, ConnEntry>)
    requires
        keyed(m),
        m.dom().finite(),
    ensures
        conn_map(m).dom().finite(),
        conn_map(m).dom().len() == m.dom().len(),
{
    let tuple_at = |k: u128| m[k].tuple;
    assert(m.dom().map(tuple_at) =~= conn_map(m).dom()) by {
        assert forall|ct: ConnTuple| conn_map(m).dom().contains(ct) implies m.dom().map(
            tuple_at,
        ).contains(ct) by {
            let k = key_of(ct);
            lemma_key_unique(m[k].tuple, ct);
            assert(m.dom().contains(k) && tuple_at(k) == ct);
        }
    }
    vstd::set_lib::lemma_map_size(m.dom(), conn_map(m).dom(), tuple_at);
}

} // verus!
