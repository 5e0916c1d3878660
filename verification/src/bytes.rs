//! Endian-aware typed reads and writes over a range of bytes.
//!
//! The meaning of every accessor is given over the mathematical value of a
//! run of bytes: [`be_at`] reads the run most significant byte first,
//! [`le_at`] least significant byte first, and [`be_bytes`] / [`le_bytes`]
//! are the runs that hold a given number.

use vstd::arithmetic::div_mod::{lemma_basic_div, lemma_div_denominator};
use vstd::prelude::*;

verus! {

/// 256 to the power `n`: the number of values that `n` bytes can hold.
pub open spec fn pow256(n: nat) -> nat
    decreases n,
{
    if n == 0 {
        1
    } else {
        256 * pow256((n - 1) as nat)
    }
}

/// The number written in the `n` bytes of `s` from index `i` on, most
/// significant byte first.
pub open spec fn be_at(s: Seq<u8>, i: int, n: nat) -> nat
    decreases n,
{
    if n == 0 {
        0
    } else {
        be_at(s, i, (n - 1) as nat) * 256 + s[i + n - 1] as nat
    }
}

/// The number written in the `n` bytes of `s` from index `i` on, least
/// significant byte first.
pub open spec fn le_at(s: Seq<u8>, i: int, n: nat) -> nat
    decreases n,
{
    if n == 0 {
        0
    } else {
        s[i] as nat + 256 * le_at(s, i + 1, (n - 1) as nat)
    }
}

/// Digit `k` of `x` in base 256, digit 0 being the least significant.
pub open spec fn byte_of(x: nat, k: nat) -> u8 {
    ((x / pow256(k)) % 256) as u8
}

/// The `n` bytes that hold `x`, most significant byte first.
pub open spec fn be_bytes(x: nat, n: nat) -> Seq<u8> {
    Seq::new(n, |m: int| byte_of(x, (n - 1 - m) as nat))
}

/// The `n` bytes that hold `x`, least significant byte first.
pub open spec fn le_bytes(x: nat, n: nat) -> Seq<u8> {
    Seq::new(n, |m: int| byte_of(x, m as nat))
}

/// `s` with the bytes of `w` written over it from index `i` on.
pub open spec fn overwrite(s: Seq<u8>, i: int, w: Seq<u8>) -> Seq<u8> {
    Seq::new(
        s.len(),
        |j: int|
            if i <= j < i + w.len() {
                w[j - i]
            } else {
                s[j]
            },
    )
}

pub proof fn lemma_pow256_positive(n: nat)
    ensures
        pow256(n) > 0,
    decreases n,
{
    if n > 0 {
        lemma_pow256_positive((n - 1) as nat);
    }
}

pub proof fn lemma_pow256_monotonic(a: nat, b: nat)
    requires
        a <= b,
    ensures
        pow256(a) <= pow256(b),
    decreases b,
{
    if a < b {
        lemma_pow256_monotonic(a, (b - 1) as nat);
        lemma_pow256_positive((b - 1) as nat);
    }
}

/// The powers of 256 at the widths of the machine integers.
pub proof fn lemma_pow256_widths()
    ensures
        pow256(1) == 0x100,
        pow256(2) == 0x1_0000,
        pow256(4) == 0x1_0000_0000,
        pow256(8) == 0x1_0000_0000_0000_0000,
        pow256(16) == 0x1_0000_0000_0000_0000_0000_0000_0000_0000,
{
    reveal_with_fuel(pow256, 5);
    assert(pow256(4) == 0x1_0000_0000);
    assert(pow256(8) == pow256(4) * 0x1_0000_0000);
    assert(pow256(12) == pow256(8) * 0x1_0000_0000);
    assert(pow256(16) == pow256(12) * 0x1_0000_0000);
}

/// `n` bytes read most significant first make a number below `256^n`.
pub proof fn lemma_be_at_bound(s: Seq<u8>, i: int, n: nat)
    ensures
        be_at(s, i, n) < pow256(n),
    decreases n,
{
    if n > 0 {
        lemma_be_at_bound(s, i, (n - 1) as nat);
    }
}

/// `n` bytes read least significant first make a number below `256^n`.
pub proof fn lemma_le_at_bound(s: Seq<u8>, i: int, n: nat)
    ensures
        le_at(s, i, n) < pow256(n),
    decreases n,
{
    if n > 0 {
        lemma_le_at_bound(s, i + 1, (n - 1) as nat);
    }
}

/// One byte read either way is the byte itself.
pub proof fn lemma_single_byte(s: Seq<u8>, i: int)
    ensures
        be_at(s, i, 1) == s[i],
        le_at(s, i, 1) == s[i],
{
    reveal_with_fuel(be_at, 2);
    reveal_with_fuel(le_at, 2);
}

proof fn lemma_digit_step(x: nat, k: nat)
    ensures
        (x / pow256(k)) / 256 == x / pow256(k + 1),
        x / pow256(k) == 256 * (x / pow256(k + 1)) + byte_of(x, k),
{
    lemma_pow256_positive(k);
    lemma_div_denominator(x as int, pow256(k) as int, 256);
    assert(pow256(k + 1) == 256 * pow256(k));
    assert(pow256(k) * 256 == pow256(k + 1));
}

proof fn lemma_be_prefix(s: Seq<u8>, i: int, n: nat, x: nat, m: nat)
    requires
        m <= n,
        x < pow256(n),
        forall|j: int| i <= j < i + n ==> s[j] == byte_of(x, (i + n - 1 - j) as nat),
    ensures
        be_at(s, i, m) == x / pow256((n - m) as nat),
    decreases m,
{
    if m == 0 {
        lemma_basic_div(x as int, pow256(n) as int);
    } else {
        lemma_be_prefix(s, i, n, x, (m - 1) as nat);
        lemma_digit_step(x, (n - m) as nat);
        assert(s[i + m - 1] == byte_of(x, (n - m) as nat));
    }
}

proof fn lemma_le_suffix(s: Seq<u8>, i: int, n: nat, x: nat, m: nat)
    requires
        m <= n,
        x < pow256(n),
        forall|j: int| i <= j < i + n ==> s[j] == byte_of(x, (j - i) as nat),
    ensures
        le_at(s, i + m, (n - m) as nat) == x / pow256(m),
    decreases n - m,
{
    if m == n {
        lemma_basic_div(x as int, pow256(n) as int);
    } else {
        lemma_le_suffix(s, i, n, x, m + 1);
        lemma_digit_step(x, m);
        assert(s[i + m] == byte_of(x, m));
    }
}

/// Reading back, most significant byte first, the bytes that were written
/// for `x` gives `x`.
pub proof fn lemma_be_round_trip(s: Seq<u8>, i: int, n: nat, x: nat)
    requires
        0 <= i,
        i + n <= s.len(),
        x < pow256(n),
    ensures
        be_at(overwrite(s, i, be_bytes(x, n)), i, n) == x,
{
    let t = overwrite(s, i, be_bytes(x, n));
    assert forall|j: int| i <= j < i + n implies t[j] == byte_of(x, (i + n - 1 - j) as nat) by {
        assert(t[j] == be_bytes(x, n)[j - i]);
    }
    lemma_be_prefix(t, i, n, x, n);
    assert(x / pow256(0) == x) by {
        assert(pow256(0) == 1);
        assert(x / 1 == x);
    }
}

/// Reading back, least significant byte first, the bytes that were written
/// for `x` gives `x`.
pub proof fn lemma_le_round_trip(s: Seq<u8>, i: int, n: nat, x: nat)
    requires
        0 <= i,
        i + n <= s.len(),
        x < pow256(n),
    ensures
        le_at(overwrite(s, i, le_bytes(x, n)), i, n) == x,
{
    let t = overwrite(s, i, le_bytes(x, n));
    assert forall|j: int| i <= j < i + n implies t[j] == byte_of(x, (j - i) as nat) by {
        assert(t[j] == le_bytes(x, n)[j - i]);
    }
    lemma_le_suffix(t, i, n, x, 0);
    assert(x / pow256(0) == x) by {
        assert(pow256(0) == 1);
        assert(x / 1 == x);
    }
}

/// A read depends on the bytes of its window alone.
pub proof fn lemma_be_at_window(s: Seq<u8>, t: Seq<u8>, i: int, n: nat)
    requires
        forall|j: int| i <= j < i + n ==> s[j] == t[j],
    ensures
        be_at(s, i, n) == be_at(t, i, n),
    decreases n,
{
    if n > 0 {
        lemma_be_at_window(s, t, i, (n - 1) as nat);
    }
}

/// A read depends on the bytes of its window alone.
pub proof fn lemma_le_at_window(s: Seq<u8>, t: Seq<u8>, i: int, n: nat)
    requires
        forall|j: int| i <= j < i + n ==> s[j] == t[j],
    ensures
        le_at(s, i, n) == le_at(t, i, n),
    decreases n,
{
    if n > 0 {
        lemma_le_at_window(s, t, i + 1, (n - 1) as nat);
    }
}

/// A read inside a part of `s` is the read of `s` at the shifted place.
pub proof fn lemma_be_at_subrange(s: Seq<u8>, a: int, b: int, i: int, n: nat)
    requires
        0 <= a <= b <= s.len(),
        0 <= i,
        i + n <= b - a,
    ensures
        be_at(s.subrange(a, b), i, n) == be_at(s, a + i, n),
    decreases n,
{
    if n > 0 {
        lemma_be_at_subrange(s, a, b, i, (n - 1) as nat);
    }
}

/// A read inside a part of `s` is the read of `s` at the shifted place.
pub proof fn lemma_le_at_subrange(s: Seq<u8>, a: int, b: int, i: int, n: nat)
    requires
        0 <= a <= b <= s.len(),
        0 <= i,
        i + n <= b - a,
    ensures
        le_at(s.subrange(a, b), i, n) == le_at(s, a + i, n),
    decreases n,
{
    if n > 0 {
        lemma_le_at_subrange(s, a, b, i + 1, (n - 1) as nat);
    }
}

/// Two bytes read most significant first.
pub proof fn lemma_be_at_two(s: Seq<u8>, i: int)
    ensures
        be_at(s, i, 2) == s[i] as nat * 256 + s[i + 1] as nat,
{
    reveal_with_fuel(be_at, 3);
}

/// The one byte that holds a number below 256 is that number.
pub proof fn lemma_bytes_of_u8(x: u8)
    ensures
        be_bytes(x as nat, 1) == seq![x],
        le_bytes(x as nat, 1) == seq![x],
{
    assert(pow256(0) == 1);
    assert((x as nat) / 1 == x as nat);
    assert(byte_of(x as nat, 0) == x);
    assert(be_bytes(x as nat, 1) =~= seq![x]);
    assert(le_bytes(x as nat, 1) =~= seq![x]);
}

/// The bytes written for a number that was read from `n` bytes are those
/// bytes.
pub proof fn lemma_be_bytes_of_read(s: Seq<u8>, i: int, n: nat)
    requires
        0 <= i,
        i + n <= s.len(),
    ensures
        be_bytes(be_at(s, i, n), n) == s.subrange(i, i + n),
{
    let x = be_at(s, i, n);
    let w = be_bytes(x, n);
    let t = s.subrange(i, i + n);
    assert forall|m: int| 0 <= m < n implies #[trigger] w[m] == t[m] by {
        lemma_be_digit(s, i, n, (n - 1 - m) as nat);
    }
    assert(w =~= t);
}

proof fn lemma_be_digit(s: Seq<u8>, i: int, n: nat, k: nat)
    requires
        k < n,
    ensures
        byte_of(be_at(s, i, n), k) == s[i + n - 1 - k],
        be_at(s, i, n) / pow256(k) == be_at(s, i, (n - k) as nat),
    decreases k,
{
    let x = be_at(s, i, n);
    if k == 0 {
        assert(pow256(0) == 1);
        assert(x / 1 == x);
    } else {
        lemma_be_digit(s, i, n, (k - 1) as nat);
        lemma_digit_step(x, (k - 1) as nat);
        let y = be_at(s, i, (n - k + 1) as nat);
        assert(y == be_at(s, i, (n - k) as nat) * 256 + s[i + n - k] as nat);
        assert(x / pow256((k - 1) as nat) == y);
        assert(y / 256 == be_at(s, i, (n - k) as nat));
    }
    let z = be_at(s, i, (n - k) as nat);
    assert(z == be_at(s, i, (n - k - 1) as nat) * 256 + s[i + n - k - 1] as nat);
}

fn read_be(s: &[u8], i: usize, n: usize) -> (r: u128)
    requires
        n <= 16,
        i + n <= s@.len(),
    ensures
        r == be_at(s@, i as int, n as nat),
        r < pow256(n as nat),
{
    let total: usize = s.len();
    let mut acc: u128 = 0;
    let mut k: usize = 0;
    while k < n
        invariant
            k <= n <= 16,
            i + n <= s@.len() == total,
            acc == be_at(s@, i as int, k as nat),
            acc < pow256(k as nat),
        decreases n - k,
    {
        proof {
            lemma_pow256_monotonic((k + 1) as nat, 16);
            lemma_pow256_widths();
        }
        acc = acc * 256 + s[i + k] as u128;
        k = k + 1;
    }
    acc
}

fn read_le(s: &[u8], i: usize, n: usize) -> (r: u128)
    requires
        n <= 16,
        i + n <= s@.len(),
    ensures
        r == le_at(s@, i as int, n as nat),
        r < pow256(n as nat),
{
    let total: usize = s.len();
    let mut acc: u128 = 0;
    let mut k: usize = n;
    while k > 0
        invariant
            k <= n <= 16,
            i + n <= s@.len() == total,
            acc == le_at(s@, i + k, (n - k) as nat),
            acc < pow256((n - k) as nat),
        decreases k,
    {
        proof {
            lemma_pow256_monotonic((n - k + 1) as nat, 16);
            lemma_pow256_widths();
        }
        k = k - 1;
        acc = acc * 256 + s[i + k] as u128;
    }
    acc
}

fn write_be(s: &mut [u8], i: usize, n: usize, x: u128)
    requires
        n <= 16,
        i + n <= old(s)@.len(),
        x < pow256(n as nat),
    ensures
        final(s)@ == overwrite(old(s)@, i as int, be_bytes(x as nat, n as nat)),
{
    let total: usize = s.len();
    let mut rest: u128 = x;
    assert((x as nat) / pow256(0) == x) by {
        assert(pow256(0) == 1);
        assert((x as nat) / 1 == x);
    }
    let mut k: usize = 0;
    while k < n
        invariant
            k <= n <= 16,
            i + n <= s@.len() == total,
            s@.len() == old(s)@.len(),
            rest == x as nat / pow256(k as nat),
            forall|j: int| 0 <= j < s@.len() && !(i + n - k <= j < i + n) ==> s@[j] == old(s)@[j],
            forall|j: int|
                i + n - k <= j < i + n ==> s@[j] == byte_of(x as nat, (i + n - 1 - j) as nat),
        decreases n - k,
    {
        proof {
            lemma_digit_step(x as nat, k as nat);
        }
        s[i + n - 1 - k] = (rest % 256) as u8;
        rest = rest / 256;
        k = k + 1;
    }
    assert(s@ =~= overwrite(old(s)@, i as int, be_bytes(x as nat, n as nat)));
}

fn write_le(s: &mut [u8], i: usize, n: usize, x: u128)
    requires
        n <= 16,
        i + n <= old(s)@.len(),
        x < pow256(n as nat),
    ensures
        final(s)@ == overwrite(old(s)@, i as int, le_bytes(x as nat, n as nat)),
{
    let total: usize = s.len();
    let mut rest: u128 = x;
    assert((x as nat) / pow256(0) == x) by {
        assert(pow256(0) == 1);
        assert((x as nat) / 1 == x);
    }
    let mut k: usize = 0;
    while k < n
        invariant
            k <= n <= 16,
            i + n <= s@.len() == total,
            s@.len() == old(s)@.len(),
            rest == x as nat / pow256(k as nat),
            forall|j: int| 0 <= j < s@.len() && !(i <= j < i + k) ==> s@[j] == old(s)@[j],
            forall|j: int| i <= j < i + k ==> s@[j] == byte_of(x as nat, (j - i) as nat),
        decreases n - k,
    {
        proof {
            lemma_digit_step(x as nat, k as nat);
        }
        s[i + k] = (rest % 256) as u8;
        rest = rest / 256;
        k = k + 1;
    }
    assert(s@ =~= overwrite(old(s)@, i as int, le_bytes(x as nat, n as nat)));
}

/// The number that `core`'s `u16::from_ne_bytes` makes of two bytes: the
/// byte order of the machine is one of the two, so the result is the pair
/// read one way or the other.
#[verifier::external_body]
fn native_u16(a: u8, b: u8) -> (r: u16)
    ensures
        r == a as nat * 256 + b as nat || r == b as nat * 256 + a as nat,
{
    u16::from_ne_bytes([a, b])
}

/// Whether this machine keeps the least significant byte first.
fn native_is_little() -> bool {
    native_u16(1, 0) == 1
}

/// Typed access to the bytes of a buffer at a byte offset, in big-endian
/// (`_be`), little-endian (`_le`) or the machine's own (`_ne`) byte order.
///
/// Every accessor needs its whole window inside the buffer. A write changes
/// the bytes of its window and no others.
pub trait Bytes {
    /// The bytes of the buffer.
    spec fn octets(&self) -> Seq<u8>;

    fn u8_be(&self, i: usize) -> (r: u8)
        requires
            i + 1 <= self.octets().len(),
        ensures
            r == be_at(self.octets(), i as int, 1),
    ;

    fn u16_be(&self, i: usize) -> (r: u16)
        requires
            i + 2 <= self.octets().len(),
        ensures
            r == be_at(self.octets(), i as int, 2),
    ;

    fn u32_be(&self, i: usize) -> (r: u32)
        requires
            i + 4 <= self.octets().len(),
        ensures
            r == be_at(self.octets(), i as int, 4),
    ;

    fn u64_be(&self, i: usize) -> (r: u64)
        requires
            i + 8 <= self.octets().len(),
        ensures
            r == be_at(self.octets(), i as int, 8),
    ;

    fn u128_be(&self, i: usize) -> (r: u128)
        requires
            i + 16 <= self.octets().len(),
        ensures
            r == be_at(self.octets(), i as int, 16),
    ;

    fn u8_le(&self, i: usize) -> (r: u8)
        requires
            i + 1 <= self.octets().len(),
        ensures
            r == le_at(self.octets(), i as int, 1),
    ;

    fn u16_le(&self, i: usize) -> (r: u16)
        requires
            i + 2 <= self.octets().len(),
        ensures
            r == le_at(self.octets(), i as int, 2),
    ;

    fn u32_le(&self, i: usize) -> (r: u32)
        requires
            i + 4 <= self.octets().len(),
        ensures
            r == le_at(self.octets(), i as int, 4),
    ;

    fn u64_le(&self, i: usize) -> (r: u64)
        requires
            i + 8 <= self.octets().len(),
        ensures
            r == le_at(self.octets(), i as int, 8),
    ;

    fn u128_le(&self, i: usize) -> (r: u128)
        requires
            i + 16 <= self.octets().len(),
        ensures
            r == le_at(self.octets(), i as int, 16),
    ;

    fn u8_ne(&self, i: usize) -> (r: u8)
        requires
            i + 1 <= self.octets().len(),
        ensures
            r == self.octets()[i as int],
    ;

    fn u16_ne(&self, i: usize) -> (r: u16)
        requires
            i + 2 <= self.octets().len(),
        ensures
            r == be_at(self.octets(), i as int, 2) || r == le_at(self.octets(), i as int, 2),
    ;

    fn u32_ne(&self, i: usize) -> (r: u32)
        requires
            i + 4 <= self.octets().len(),
        ensures
            r == be_at(self.octets(), i as int, 4) || r == le_at(self.octets(), i as int, 4),
    ;

    fn u64_ne(&self, i: usize) -> (r: u64)
        requires
            i + 8 <= self.octets().len(),
        ensures
            r == be_at(self.octets(), i as int, 8) || r == le_at(self.octets(), i as int, 8),
    ;

    fn u128_ne(&self, i: usize) -> (r: u128)
        requires
            i + 16 <= self.octets().len(),
        ensures
            r == be_at(self.octets(), i as int, 16) || r == le_at(self.octets(), i as int, 16),
    ;

    fn put_u8_be(&mut self, i: usize, x: u8)
        requires
            i + 1 <= old(self).octets().len(),
        ensures
            final(self).octets() == overwrite(old(self).octets(), i as int, be_bytes(x as nat, 1)),
    ;

    fn put_u16_be(&mut self, i: usize, x: u16)
        requires
            i + 2 <= old(self).octets().len(),
        ensures
            final(self).octets() == overwrite(old(self).octets(), i as int, be_bytes(x as nat, 2)),
    ;

    fn put_u32_be(&mut self, i: usize, x: u32)
        requires
            i + 4 <= old(self).octets().len(),
        ensures
            final(self).octets() == overwrite(old(self).octets(), i as int, be_bytes(x as nat, 4)),
    ;

    fn put_u64_be(&mut self, i: usize, x: u64)
        requires
            i + 8 <= old(self).octets().len(),
        ensures
            final(self).octets() == overwrite(old(self).octets(), i as int, be_bytes(x as nat, 8)),
    ;

    fn put_u128_be(&mut self, i: usize, x: u128)
        requires
            i + 16 <= old(self).octets().len(),
        ensures
            final(self).octets() == overwrite(
                old(self).octets(),
                i as int,
                be_bytes(x as nat, 16),
            ),
    ;

    fn put_u8_le(&mut self, i: usize, x: u8)
        requires
            i + 1 <= old(self).octets().len(),
        ensures
            final(self).octets() == overwrite(old(self).octets(), i as int, le_bytes(x as nat, 1)),
    ;

    fn put_u16_le(&mut self, i: usize, x: u16)
        requires
            i + 2 <= old(self).octets().len(),
        ensures
            final(self).octets() == overwrite(old(self).octets(), i as int, le_bytes(x as nat, 2)),
    ;

    fn put_u32_le(&mut self, i: usize, x: u32)
        requires
            i + 4 <= old(self).octets().len(),
        ensures
            final(self).octets() == overwrite(old(self).octets(), i as int, le_bytes(x as nat, 4)),
    ;

    fn put_u64_le(&mut self, i: usize, x: u64)
        requires
            i + 8 <= old(self).octets().len(),
        ensures
            final(self).octets() == overwrite(old(self).octets(), i as int, le_bytes(x as nat, 8)),
    ;

    fn put_u128_le(&mut self, i: usize, x: u128)
        requires
            i + 16 <= old(self).octets().len(),
        ensures
            final(self).octets() == overwrite(
                old(self).octets(),
                i as int,
                le_bytes(x as nat, 16),
            ),
    ;

    fn put_u8_ne(&mut self, i: usize, x: u8)
        requires
            i + 1 <= old(self).octets().len(),
        ensures
            final(self).octets() == old(self).octets().update(i as int, x),
    ;

    fn put_u16_ne(&mut self, i: usize, x: u16)
        requires
            i + 2 <= old(self).octets().len(),
        ensures
            final(self).octets() == overwrite(old(self).octets(), i as int, be_bytes(x as nat, 2))
                || final(self).octets() == overwrite(
                old(self).octets(),
                i as int,
                le_bytes(x as nat, 2),
            ),
    ;

    fn put_u32_ne(&mut self, i: usize, x: u32)
        requires
            i + 4 <= old(self).octets().len(),
        ensures
            final(self).octets() == overwrite(old(self).octets(), i as int, be_bytes(x as nat, 4))
                || final(self).octets() == overwrite(
                old(self).octets(),
                i as int,
                le_bytes(x as nat, 4),
            ),
    ;

    fn put_u64_ne(&mut self, i: usize, x: u64)
        requires
            i + 8 <= old(self).octets().len(),
        ensures
            final(self).octets() == overwrite(old(self).octets(), i as int, be_bytes(x as nat, 8))
                || final(self).octets() == overwrite(
                old(self).octets(),
                i as int,
                le_bytes(x as nat, 8),
            ),
    ;

    fn put_u128_ne(&mut self, i: usize, x: u128)
        requires
            i + 16 <= old(self).octets().len(),
        ensures
            final(self).octets() == overwrite(
                old(self).octets(),
                i as int,
                be_bytes(x as nat, 16),
            ) || final(self).octets() == overwrite(
                old(self).octets(),
                i as int,
                le_bytes(x as nat, 16),
            ),
    ;
}

impl Bytes for [u8] {
    open spec fn octets(&self) -> Seq<u8> {
        self@
    }

    fn u8_be(&self, i: usize) -> (r: u8) {
        proof {
            lemma_single_byte(self@, i as int);
        }
        self[i]
    }

    fn u16_be(&self, i: usize) -> (r: u16) {
        proof {
            lemma_pow256_widths();
        }
        read_be(self, i, 2) as u16
    }

    fn u32_be(&self, i: usize) -> (r: u32) {
        proof {
            lemma_pow256_widths();
        }
        read_be(self, i, 4) as u32
    }

    fn u64_be(&self, i: usize) -> (r: u64) {
        proof {
            lemma_pow256_widths();
        }
        read_be(self, i, 8) as u64
    }

    fn u128_be(&self, i: usize) -> (r: u128) {
        read_be(self, i, 16)
    }

    fn u8_le(&self, i: usize) -> (r: u8) {
        proof {
            lemma_single_byte(self@, i as int);
        }
        self[i]
    }

    fn u16_le(&self, i: usize) -> (r: u16) {
        proof {
            lemma_pow256_widths();
        }
        read_le(self, i, 2) as u16
    }

    fn u32_le(&self, i: usize) -> (r: u32) {
        proof {
            lemma_pow256_widths();
        }
        read_le(self, i, 4) as u32
    }

    fn u64_le(&self, i: usize) -> (r: u64) {
        proof {
            lemma_pow256_widths();
        }
        read_le(self, i, 8) as u64
    }

    fn u128_le(&self, i: usize) -> (r: u128) {
        read_le(self, i, 16)
    }

    fn u8_ne(&self, i: usize) -> (r: u8) {
        self[i]
    }

    fn u16_ne(&self, i: usize) -> (r: u16) {
        if native_is_little() {
            self.u16_le(i)
        } else {
            self.u16_be(i)
        }
    }

    fn u32_ne(&self, i: usize) -> (r: u32) {
        if native_is_little() {
            self.u32_le(i)
        } else {
            self.u32_be(i)
        }
    }

    fn u64_ne(&self, i: usize) -> (r: u64) {
        if native_is_little() {
            self.u64_le(i)
        } else {
            self.u64_be(i)
        }
    }

    fn u128_ne(&self, i: usize) -> (r: u128) {
        if native_is_little() {
            self.u128_le(i)
        } else {
            self.u128_be(i)
        }
    }

    fn put_u8_be(&mut self, i: usize, x: u8) {
        proof {
            lemma_pow256_widths();
        }
        write_be(self, i, 1, x as u128);
    }

    fn put_u16_be(&mut self, i: usize, x: u16) {
        proof {
            lemma_pow256_widths();
        }
        write_be(self, i, 2, x as u128);
    }

    fn put_u32_be(&mut self, i: usize, x: u32) {
        proof {
            lemma_pow256_widths();
        }
        write_be(self, i, 4, x as u128);
    }

    fn put_u64_be(&mut self, i: usize, x: u64) {
        proof {
            lemma_pow256_widths();
        }
        write_be(self, i, 8, x as u128);
    }

    fn put_u128_be(&mut self, i: usize, x: u128) {
        proof {
            lemma_pow256_widths();
        }
        write_be(self, i, 16, x);
    }

    fn put_u8_le(&mut self, i: usize, x: u8) {
        proof {
            lemma_pow256_widths();
        }
        write_le(self, i, 1, x as u128);
    }

    fn put_u16_le(&mut self, i: usize, x: u16) {
        proof {
            lemma_pow256_widths();
        }
        write_le(self, i, 2, x as u128);
    }

    fn put_u32_le(&mut self, i: usize, x: u32) {
        proof {
            lemma_pow256_widths();
        }
        write_le(self, i, 4, x as u128);
    }

    fn put_u64_le(&mut self, i: usize, x: u64) {
        proof {
            lemma_pow256_widths();
        }
        write_le(self, i, 8, x as u128);
    }

    fn put_u128_le(&mut self, i: usize, x: u128) {
        proof {
            lemma_pow256_widths();
        }
        write_le(self, i, 16, x);
    }

    fn put_u8_ne(&mut self, i: usize, x: u8) {
        self[i] = x;
    }

    fn put_u16_ne(&mut self, i: usize, x: u16) {
        if native_is_little() {
            self.put_u16_le(i, x);
        } else {
            self.put_u16_be(i, x);
        }
    }

    fn put_u32_ne(&mut self, i: usize, x: u32) {
        if native_is_little() {
            self.put_u32_le(i, x);
        } else {
            self.put_u32_be(i, x);
        }
    }

    fn put_u64_ne(&mut self, i: usize, x: u64) {
        if native_is_little() {
            self.put_u64_le(i, x);
        } else {
            self.put_u64_be(i, x);
        }
    }

    fn put_u128_ne(&mut self, i: usize, x: u128) {
        if native_is_little() {
            self.put_u128_le(i, x);
        } else {
            self.put_u128_be(i, x);
        }
    }
}

} // verus!
