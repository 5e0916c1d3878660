//! What the logging handler keeps and writes: the names of the players who
//! are logged in, the text of the status file, and the names and records of
//! the message logs. The handler itself opens and writes the files.

use crate::bytes::{be_bytes, Bytes};
use crate::conns::ConnTuple;
use crate::dump::{
    all_ascii, ascii_chars, decimal, decimal_bytes, lossy_text, signed_decimal,
    signed_decimal_bytes, utf8_lossy,
};
use crate::framing::{header_bytes, Message, MessageView, DIR_AB};
use crate::keys::{key, key_of, lemma_key_unique, lemma_walk_walked, walk, walked};
use std::collections::HashMap;
use vstd::prelude::*;
use vstd::std_specs::hash::group_hash_axioms;
use vstd::string::StringExecFns;

verus! {

/// The major opcode of the message with which a player logs in.
pub const LOGIN_MAJOR: u8 = 0x0a;

/// Where the body of a login message holds the name of the player.
pub const NAME_AT: usize = 12;

/// The number of bytes that the name takes up.
pub const NAME_LEN: usize = 64;

/// The bytes of the player's name in the message `m`: those of a message
/// from the client side with the login opcode whose body is long enough
/// to hold a name.
pub open spec fn login_name(m: MessageView) -> Option<Seq<u8>> {
    if m.header.dir == DIR_AB && m.header.major == LOGIN_MAJOR && m.body.len() >= NAME_AT
        + NAME_LEN {
        Some(m.body.subrange(NAME_AT as int, NAME_AT + NAME_LEN))
    } else {
        None
    }
}

/// The name with which the message logs a player in, if it does so: the
/// bytes of the name read as UTF-8, lossily.
pub fn player_name(msg: &Message) -> (r: Option<String>)
    ensures
        match r {
            Some(name) => login_name(msg@) matches Some(b) && name@ == utf8_lossy(b),
            None => login_name(msg@) is None,
        },
{
    if msg.header.dir == DIR_AB && msg.header.major == LOGIN_MAJOR && msg.body.len() >= NAME_AT
        + NAME_LEN {
        let body: &[u8] = msg.body.as_slice();
        Some(lossy_text(&body[NAME_AT..NAME_AT + NAME_LEN]))
    } else {
        None
    }
}

/// The bytes that the log of a connection takes for a message: the twelve
/// bytes of its header, then its body.
pub fn log_record(msg: &Message) -> (r: Vec<u8>)
    ensures
        r@ == header_bytes(msg.header) + msg.body@,
{
    let head: [u8; 12] = msg.header.as_bytes();
    let mut r: Vec<u8> = Vec::new();
    let mut i: usize = 0;
    while i < 12
        invariant
            i <= 12,
            head@.len() == 12,
            r@ == head@.subrange(0, i as int),
        decreases 12 - i,
    {
        r.push(head[i]);
        i = i + 1;
        assert(r@ =~= head@.subrange(0, i as int));
    }
    assert(head@.subrange(0, 12) =~= head@);
    append_bytes(&mut r, msg.body.as_slice());
    r
}

/// Appends the bytes of `more` to `out`.
fn append_bytes(out: &mut Vec<u8>, more: &[u8])
    ensures
        final(out)@ == old(out)@ + more@,
{
    let n: usize = more.len();
    let mut i: usize = 0;
    while i < n
        invariant
            i <= n == more@.len(),
            out@ == old(out)@ + more@.subrange(0, i as int),
        decreases n - i,
    {
        out.push(more[i]);
        i = i + 1;
        assert(out@ =~= old(out)@ + more@.subrange(0, i as int));
    }
    assert(more@.subrange(0, n as int) =~= more@);
}

/// The ASCII codes of the name of the log file of the connection `ct`
/// that was opened at the time `now`, in seconds since 1970:
/// `logs/<now>-<a>.<b>.<c>.<d>-<client port>-<server port>.tfhlog`, where
/// `a.b.c.d` is the address of the client.
pub open spec fn log_name_bytes(now: int, ct: ConnTuple) -> Seq<u8> {
    let ConnTuple::Ipv4(client_ip, client_port, _server_ip, server_port) = ct;
    let ip = be_bytes(client_ip as nat, 4);
    seq![0x6cu8, 0x6fu8, 0x67u8, 0x73u8, 0x2fu8] + signed_decimal(now) + seq![0x2du8] + decimal(
        ip[0] as nat,
    ) + seq![0x2eu8] + decimal(ip[1] as nat) + seq![0x2eu8] + decimal(ip[2] as nat) + seq![0x2eu8]
        + decimal(ip[3] as nat) + seq![0x2du8] + decimal(client_port as nat) + seq![0x2du8]
        + decimal(server_port as nat) + seq![
        0x2eu8,
        0x74u8,
        0x66u8,
        0x68u8,
        0x6cu8,
        0x6fu8,
        0x67u8,
    ]
}

/// The name of the log file of the connection `ct` that was opened at the
/// time `now`, in seconds since 1970.
pub fn log_file_name(now: i64, ct: ConnTuple) -> (name: String)
    ensures
        name@ == ascii_chars(log_name_bytes(now as int, ct)),
{
    let (client_ip, client_port, server_port) = match ct {
        ConnTuple::Ipv4(ci, cp, _si, sp) => (ci, cp, sp),
    };
    let mut ip: Vec<u8> = Vec::new();
    ip.push(0);
    ip.push(0);
    ip.push(0);
    ip.push(0);
    ip.as_mut_slice().put_u32_be(0, client_ip);
    assert(ip@ =~= be_bytes(client_ip as nat, 4));

    let mut out: Vec<u8> = Vec::new();
    out.push(0x6c);
    out.push(0x6f);
    out.push(0x67);
    out.push(0x73);
    out.push(0x2f);
    assert(out@ =~= seq![0x6cu8, 0x6fu8, 0x67u8, 0x73u8, 0x2fu8]);
    let t: Vec<u8> = signed_decimal_bytes(now);
    append_bytes(&mut out, t.as_slice());
    out.push(0x2d);
    let a: Vec<u8> = decimal_bytes(ip[0] as u64);
    append_bytes(&mut out, a.as_slice());
    out.push(0x2e);
    let b: Vec<u8> = decimal_bytes(ip[1] as u64);
    append_bytes(&mut out, b.as_slice());
    out.push(0x2e);
    let c: Vec<u8> = decimal_bytes(ip[2] as u64);
    append_bytes(&mut out, c.as_slice());
    out.push(0x2e);
    let d: Vec<u8> = decimal_bytes(ip[3] as u64);
    append_bytes(&mut out, d.as_slice());
    out.push(0x2d);
    let cp: Vec<u8> = decimal_bytes(client_port as u64);
    append_bytes(&mut out, cp.as_slice());
    out.push(0x2d);
    let sp: Vec<u8> = decimal_bytes(server_port as u64);
    append_bytes(&mut out, sp.as_slice());
    let ghost stem = out@;
    out.push(0x2e);
    out.push(0x74);
    out.push(0x66);
    out.push(0x68);
    out.push(0x6c);
    out.push(0x6f);
    out.push(0x67);
    assert(out@ =~= stem + seq![0x2eu8, 0x74u8, 0x66u8, 0x68u8, 0x6cu8, 0x6fu8, 0x67u8]);
    assert(out@ =~= log_name_bytes(now as int, ct));
    assert(all_ascii(out@));
    lossy_text(out.as_slice())
}

/// The texts of the strings of `s`.
pub open spec fn texts(s: Seq<String>) -> Seq<Seq<char>> {
    Seq::new(s.len(), |i: int| s[i]@)
}

/// `a` does not come after `b` in the order of strings: the order of
/// their first characters that differ, a string coming before its
/// extensions.
pub open spec fn text_le(a: Seq<char>, b: Seq<char>) -> bool
    decreases a.len(),
{
    if a.len() == 0 {
        true
    } else if b.len() == 0 {
        false
    } else if a[0] != b[0] {
        (a[0] as u32) < (b[0] as u32)
    } else {
        text_le(a.drop_first(), b.drop_first())
    }
}

/// No text of `s` comes after a later one.
pub open spec fn texts_ascend(s: Seq<Seq<char>>) -> bool {
    forall|i: int, j: int| 0 <= i < j < s.len() ==> text_le(#[trigger] s[i], #[trigger] s[j])
}

/// Sorts the strings of `v`.
///
/// The call is the `sort` of slices. It keeps the strings and puts them in
/// ascending order; `std` orders strings by their bytes, which is the
/// order of their characters.
#[verifier::external_body]
fn sort_texts(v: &mut Vec<String>)
    ensures
        texts(final(v)@).to_multiset() == texts(old(v)@).to_multiset(),
        texts_ascend(texts(final(v)@)),
{
    v.sort()
}

/// A player who is logged in: the connection and the name.
struct RosterEntry {
    tuple: ConnTuple,
    name: String,
}

/// The names of the players who are logged in, by their connections.
pub struct Roster {
    /// The players, each under the number of the connection.
    names: HashMap<u128, RosterEntry>,
}

/// The names that `m` holds for the connections `cts`, in their order.
pub open spec fn names_of(m: Map<ConnTuple, Seq<char>>, cts: Seq<ConnTuple>) -> Seq<Seq<char>> {
    Seq::new(cts.len(), |i: int| m[cts[i]])
}

/// `order` holds the names of `m` in some order, the name of each
/// connection once.
pub open spec fn holds_names(m: Map<ConnTuple, Seq<char>>, order: Seq<Seq<char>>) -> bool {
    exists|cts: Seq<ConnTuple>|
        {
            &&& cts.no_duplicates()
            &&& forall|ct: ConnTuple| cts.contains(ct) <==> m.contains_key(ct)
            &&& order.to_multiset() == #[trigger] names_of(m, cts).to_multiset()
        }
}

/// The lines of the status file that name the players.
pub open spec fn status_lines(order: Seq<Seq<char>>) -> Seq<char>
    decreases order.len(),
{
    if order.len() == 0 {
        Seq::empty()
    } else {
        status_lines(order.drop_last()) + "- "@ + order.last() + "\n"@
    }
}

/// The text of the status file for the names `order`: a line with their
/// number, then a line for each.
pub open spec fn status_of(order: Seq<Seq<char>>) -> Seq<char> {
    if order.len() == 0 {
        "0 players connected\n"@
    } else if order.len() == 1 {
        ascii_chars(decimal(1)) + " player connected:\n"@ + status_lines(order)
    } else {
        ascii_chars(decimal(order.len())) + " players connected:\n"@ + status_lines(order)
    }
}

impl View for Roster {
    type V = Map<ConnTuple, Seq<char>>;

    closed spec fn view(&self) -> Map<ConnTuple, Seq<char>> {
        Map::new(
            |ct: ConnTuple| self.names@.contains_key(key_of(ct)),
            |ct: ConnTuple| self.names@[key_of(ct)].name@,
        )
    }
}

impl Roster {
    /// Each player stands where the list looks for the connection.
    pub closed spec fn wf(&self) -> bool {
        forall|k: u128| #[trigger]
            self.names@.contains_key(k) ==> key_of(self.names@[k].tuple) == k
    }

    /// An empty list.
    pub fn new() -> (r: Roster)
        ensures
            r.wf(),
            r@ == Map::<ConnTuple, Seq<char>>::empty(),
    {
        let r = Roster { names: HashMap::new() };
        assert(r@ =~= Map::<ConnTuple, Seq<char>>::empty());
        r
    }

    /// The number of players who are logged in.
    pub fn len(&self) -> (n: usize)
        requires
            self.wf(),
        ensures
            n == self@.dom().len(),
            self@.dom().finite(),
    {
        broadcast use group_hash_axioms;

        proof {
            let m = self.names@;
            let tuple_at = |k: u128| m[k].tuple;
            assert(m.dom().map(tuple_at) =~= self@.dom()) by {
                assert forall|ct: ConnTuple| self@.dom().contains(ct) implies m.dom().map(
                    tuple_at,
                ).contains(ct) by {
                    let k = key_of(ct);
                    lemma_key_unique(m[k].tuple, ct);
                    assert(m.dom().contains(k) && tuple_at(k) == ct);
                }
            }
            vstd::set_lib::lemma_map_size(m.dom(), self@.dom(), tuple_at);
        }
        self.names.len()
    }

    /// Sets the name of the player on the connection `ct`.
    pub fn set_name(&mut self, ct: ConnTuple, name: String)
        requires
            old(self).wf(),
        ensures
            final(self).wf(),
            final(self)@ == old(self)@.insert(ct, name@),
    {
        broadcast use group_hash_axioms;

        let k: u128 = key(ct);
        self.names.insert(k, RosterEntry { tuple: ct, name });
        proof {
            let want = old(self)@.insert(ct, name@);
            assert forall|other: ConnTuple| self@.contains_key(other) <==> want.contains_key(
                other,
            ) by {
                if key_of(other) == k {
                    lemma_key_unique(other, ct);
                }
            }
            assert forall|other: ConnTuple| self@.contains_key(other) implies self@[other]
                == want[other] by {
                if key_of(other) == k {
                    lemma_key_unique(other, ct);
                }
            }
            assert(self@ =~= want);
        }
    }

    /// Takes the connection `ct` from the list, and says whether it was
    /// there.
    pub fn forget(&mut self, ct: ConnTuple) -> (had: bool)
        requires
            old(self).wf(),
        ensures
            final(self).wf(),
            final(self)@ == old(self)@.remove(ct),
            had == old(self)@.contains_key(ct),
    {
        broadcast use group_hash_axioms;

        let k: u128 = key(ct);
        let had: bool = self.names.remove(&k).is_some();
        proof {
            let want = old(self)@.remove(ct);
            assert forall|other: ConnTuple| self@.contains_key(other) <==> want.contains_key(
                other,
            ) by {
                if key_of(other) == k {
                    lemma_key_unique(other, ct);
                }
            }
            assert(self@ =~= want);
        }
        had
    }

    /// Takes note of a message on the connection `ct`: where it logs a
    /// player in, the name is set. It says whether it did so.
    pub fn note_message(&mut self, ct: ConnTuple, msg: &Message) -> (changed: bool)
        requires
            old(self).wf(),
        ensures
            final(self).wf(),
            changed == login_name(msg@) is Some,
            final(self)@ == match login_name(msg@) {
                Some(b) => old(self)@.insert(ct, utf8_lossy(b)),
                None => old(self)@,
            },
    {
        match player_name(msg) {
            Some(name) => {
                self.set_name(ct, name);
                true
            },
            None => false,
        }
    }

    /// The text of the status file: the number of players who are logged
    /// in and, one to a line, their names in ascending order.
    pub fn status_text(&self) -> (text: String)
        requires
            self.wf(),
        ensures
            exists|order: Seq<Seq<char>>|
                {
                    &&& holds_names(self@, order)
                    &&& texts_ascend(order)
                    &&& text@ == #[trigger] status_of(order)
                },
    {
        broadcast use group_hash_axioms;

        let ghost m = self.names@;
        let ghost w = walk(&self.names);
        let mut names: Vec<String> = Vec::new();
        let iter = self.names.iter();
        proof {
            lemma_walk_walked(&self.names);
        }
        for kv in it: iter
            invariant
                it.seq().unref() == w,
                names@.len() == it.index(),
                forall|i: int| 0 <= i < names@.len() ==> (#[trigger] names@[i])@ == w[i].1.name@,
        {
            let (_k, v) = kv;
            let name: String = v.name.clone();
            names.push(name);
        }
        let ghost cts = Seq::new(w.len(), |i: int| w[i].1.tuple);
        let ghost unsorted = texts(names@);
        proof {
            assert(unsorted =~= names_of(self@, cts));
            assert forall|i: int, j: int| 0 <= i < j < cts.len() implies cts[i] != cts[j] by {
                assert(m.contains_key(w[i].0) && m.contains_key(w[j].0));
            }
            assert forall|ct: ConnTuple| cts.contains(ct) <==> self@.contains_key(ct) by {
                if cts.contains(ct) {
                    let i = choose|i: int| 0 <= i < cts.len() && cts[i] == ct;
                    assert(m.contains_key(w[i].0));
                }
                if self@.contains_key(ct) {
                    let i = choose|i: int| 0 <= i < w.len() && (#[trigger] w[i]).0 == key_of(ct);
                    lemma_key_unique(w[i].1.tuple, ct);
                    assert(cts[i] == ct);
                }
            }
        }
        sort_texts(&mut names);
        let ghost order = texts(names@);
        let text: String = status_of_names(&names);
        proof {
            assert(order.to_multiset() == names_of(self@, cts).to_multiset());
            assert(holds_names(self@, order));
            assert(text@ == status_of(order));
        }
        text
    }
}

/// The text of the status file for the names `names`, in their order.
pub fn status_of_names(names: &Vec<String>) -> (text: String)
    ensures
        text@ == status_of(texts(names@)),
{
    let n: usize = names.len();
    let ghost order = texts(names@);
    if n == 0 {
        return String::from_str("0 players connected\n");
    }
    let digits: Vec<u8> = decimal_bytes(n as u64);
    let mut text: String = lossy_text(digits.as_slice());
    if n != 1 {
        text.append(" players connected:\n");
    } else {
        text.append(" player connected:\n");
    }
    let ghost head = text@;
    let mut i: usize = 0;
    while i < n
        invariant
            i <= n == names@.len(),
            order == texts(names@),
            text@ == head + status_lines(order.subrange(0, i as int)),
        decreases n - i,
    {
        let ghost done = order.subrange(0, i as int);
        let ghost next = order.subrange(0, i + 1);
        assert(next.drop_last() =~= done);
        assert(next.last() == names@[i as int]@);
        text.append("- ");
        text.append(names[i].as_str());
        text.append("\n");
        assert(text@ =~= head + status_lines(next));
        i = i + 1;
    }
    assert(order.subrange(0, n as int) =~= order);
    assert(head + Seq::<char>::empty() =~= head);
    text
}

} // verus!
