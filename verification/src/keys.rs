//! The numbers under which the tables of the library keep connections in
//! hash maps, and what a walk over such a map gives.

use crate::conns::ConnTuple;
use std::collections::HashMap;
use vstd::prelude::*;
use vstd::std_specs::hash::{group_hash_axioms, spec_hash_map_iter};
use vstd::std_specs::iter::IteratorSpec;

verus! {

/// The number under which a table keeps the connection `ct`: its two
/// addresses and ports side by side, the client side in the higher places.
pub open spec fn key_of(ct: ConnTuple) -> u128 {
    match ct {
        ConnTuple::Ipv4(a, ap, b, bp) => (((a as int * 0x1_0000 + ap as int) * 0x1_0000_0000
            + b as int) * 0x1_0000 + bp as int) as u128,
    }
}

/// The number under which a table keeps the connection `ct`.
pub fn key(ct: ConnTuple) -> (k: u128)
    ensures
        k == key_of(ct),
{
    match ct {
        ConnTuple::Ipv4(a, ap, b, bp) => {
            let client: u128 = a as u128 * 0x1_0000 + ap as u128;
            (client * 0x1_0000_0000 + b as u128) * 0x1_0000 + bp as u128
        },
    }
}

/// Two connections with the same number are the same connection.
pub proof fn lemma_key_unique(x: ConnTuple, y: ConnTuple)
    requires
        key_of(x) == key_of(y),
    ensures
        x == y,
{
}

/// `w` holds the entries of `m`, each once.
pub open spec fn walked<V>(w: Seq<(u128, V)>, m: Map<u128, V>) -> bool {
    &&& forall|i: int, j: int| 0 <= i < j < w.len() ==> (#[trigger] w[i]).0 != (#[trigger] w[j]).0
    &&& forall|i: int|
        0 <= i < w.len() ==> m.contains_key((#[trigger] w[i]).0) && m[w[i].0] == w[i].1
    &&& forall|k: u128| #[trigger]
        m.contains_key(k) ==> exists|i: int| 0 <= i < w.len() && (#[trigger] w[i]).0 == k
}

/// The entries of the map `m` in the order in which a walk over it gives
/// them.
pub open spec fn walk<V>(m: &HashMap<u128, V>) -> Seq<(u128, V)> {
    vstd::std_specs::hash::into_iter(spec_hash_map_iter(m))
}

/// A walk over a map gives each of its entries once.
pub proof fn lemma_walk_walked<V>(m: &HashMap<u128, V>)
    requires
        walk(m) == spec_hash_map_iter(m).remaining().unref(),
        spec_hash_map_iter(m).remaining().no_duplicates(),
    ensures
        walked(walk(m), m@),
{
    broadcast use group_hash_axioms;

    let w = walk(m);
    let v = spec_hash_map_iter(m).remaining();
    assert forall|i: int| 0 <= i < w.len() implies m@.contains_key((#[trigger] w[i]).0) && m@[w[i].0]
        == w[i].1 by {
        assert(m@.contains_key(*v[i].0));
    }
    assert forall|k: u128| #[trigger] m@.contains_key(k) implies exists|i: int|
        0 <= i < w.len() && (#[trigger] w[i]).0 == k by {
        assert(v.contains((&k, &m@[k])));
        let i = choose|i: int| 0 <= i < v.len() && v[i] == (&k, &m@[k]);
        assert(w[i].0 == k);
    }
    assert forall|i: int, j: int| 0 <= i < j < w.len() implies (#[trigger] w[i]).0 != (
    #[trigger] w[j]).0 by {
        if w[i].0 == w[j].0 {
            assert(m@[*v[i].0] == *v[i].1);
            assert(m@[*v[j].0] == *v[j].1);
            assert(v[i] == v[j]);
        }
    }
}

} // verus!
