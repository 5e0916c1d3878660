//! Bytes as text for a person to read: in hexadecimal, or with the runs of
//! printable characters quoted.
//!
//! The text is specified as the sequence of its ASCII codes.

use vstd::prelude::*;

verus! {

/// The characters whose codes are the bytes of `s`.
pub open spec fn ascii_chars(s: Seq<u8>) -> Seq<char> {
    Seq::new(s.len(), |i: int| s[i] as char)
}

/// Every byte of `s` is an ASCII code.
pub open spec fn all_ascii(s: Seq<u8>) -> bool {
    forall|i: int| 0 <= i < s.len() ==> s[i] < 128
}

/// The text that a lossy reading of `bytes` as UTF-8 gives: the characters
/// that the bytes encode, with the replacement character wherever they
/// encode none.
pub uninterp spec fn utf8_lossy(bytes: Seq<u8>) -> Seq<char>;

/// The bytes `v` read as UTF-8, lossily.
///
/// The call is `String::from_utf8_lossy`. Its result is a function of the
/// bytes alone. Bytes below 128 are valid UTF-8, one character each, so for
/// such bytes the string has exactly the characters with these codes.
#[verifier::external_body]
pub(crate) fn lossy_text(v: &[u8]) -> (s: String)
    ensures
        s@ == utf8_lossy(v@),
        all_ascii(v@) ==> s@ == ascii_chars(v@),
{
    String::from_utf8_lossy(v).into_owned()
}

/// The lower-case hexadecimal digit for `n`.
pub open spec fn hex_digit(n: nat) -> u8 {
    if n < 10 {
        (0x30 + n) as u8
    } else {
        (0x57 + n) as u8
    }
}

/// The two hexadecimal digits of `x`.
pub open spec fn hex_byte(x: u8) -> Seq<u8> {
    seq![hex_digit(x as nat / 16), hex_digit(x as nat % 16)]
}

/// The bytes of `b` in hexadecimal, two digits each, with a space between
/// one byte and the next.
pub open spec fn hex_text(b: Seq<u8>) -> Seq<u8>
    decreases b.len(),
{
    if b.len() == 0 {
        Seq::empty()
    } else if b.len() == 1 {
        hex_byte(b[0])
    } else {
        hex_text(b.drop_last()) + seq![0x20u8] + hex_byte(b.last())
    }
}

/// `x` is the code of a printable ASCII character, the space included.
pub open spec fn printable(x: u8) -> bool {
    0x20 <= x < 0x7f
}

/// Where the run of printable bytes that begins at `i` ends: the first
/// place from `i` on that holds no printable byte.
pub open spec fn run_end(b: Seq<u8>, i: int) -> int
    decreases b.len() - i,
{
    if 0 <= i < b.len() && printable(b[i]) {
        run_end(b, i + 1)
    } else {
        i
    }
}

/// The character `x` as it stands inside quotes of the kind `quote`: a
/// backslash goes before a backslash and before the quote itself.
pub open spec fn escaped(x: u8, quote: u8) -> Seq<u8> {
    if x == 0x5c || x == quote {
        seq![0x5cu8, x]
    } else {
        seq![x]
    }
}

/// The bytes of `b` from `i` up to `j` as they stand inside double quotes.
pub open spec fn escaped_run(b: Seq<u8>, i: int, j: int) -> Seq<u8>
    decreases j - i,
{
    if i >= j {
        Seq::empty()
    } else {
        escaped_run(b, i, j - 1) + escaped(b[j - 1], 0x22)
    }
}

/// The piece of text that stands for what begins at `i`: a run of two or
/// more printable bytes in double quotes, a printable byte alone in single
/// quotes, any other byte as two hexadecimal digits.
pub open spec fn mixed_token(b: Seq<u8>, i: int) -> Seq<u8> {
    if printable(b[i]) {
        if run_end(b, i) >= i + 2 {
            seq![0x22u8] + escaped_run(b, i, run_end(b, i)) + seq![0x22u8]
        } else {
            seq![0x27u8] + escaped(b[i], 0x27) + seq![0x27u8]
        }
    } else {
        hex_byte(b[i])
    }
}

/// Where what begins at `i` ends.
pub open spec fn mixed_token_end(b: Seq<u8>, i: int) -> int {
    if printable(b[i]) {
        run_end(b, i)
    } else {
        i + 1
    }
}

/// The text for the bytes of `b` from `i` on, a space before each piece
/// but the first of `b`.
pub open spec fn mixed_text_from(b: Seq<u8>, i: int) -> Seq<u8>
    decreases b.len() - i,
{
    if 0 <= i < b.len() {
        proof {
            lemma_run_end(b, i);
        }
        (if i > 0 {
            seq![0x20u8]
        } else {
            Seq::empty()
        }) + mixed_token(b, i) + mixed_text_from(b, mixed_token_end(b, i))
    } else {
        Seq::empty()
    }
}

/// The bytes of `b` as text, the runs of printable characters quoted.
pub open spec fn mixed_text(b: Seq<u8>) -> Seq<u8> {
    mixed_text_from(b, 0)
}

/// A run ends within the bytes, after its first byte if that is printable,
/// and holds printable bytes only.
pub proof fn lemma_run_end(b: Seq<u8>, i: int)
    requires
        0 <= i <= b.len(),
    ensures
        i <= run_end(b, i) <= b.len(),
        i < b.len() && printable(b[i]) ==> run_end(b, i) > i,
        forall|k: int| i <= k < run_end(b, i) ==> printable(#[trigger] b[k]),
        run_end(b, i) < b.len() ==> !printable(b[run_end(b, i)]),
    decreases b.len() - i,
{
    if i < b.len() && printable(b[i]) {
        lemma_run_end(b, i + 1);
    }
}

/// The digits of `n` in base ten, without leading zeros.
pub open spec fn decimal(n: nat) -> Seq<u8>
    decreases n,
{
    if n < 10 {
        seq![(0x30 + n) as u8]
    } else {
        decimal(n / 10) + seq![(0x30 + n % 10) as u8]
    }
}

/// The digits of `n` in base ten, with a minus sign where `n` is negative.
pub open spec fn signed_decimal(n: int) -> Seq<u8> {
    if n < 0 {
        seq![0x2du8] + decimal((-n) as nat)
    } else {
        decimal(n as nat)
    }
}

/// Hexadecimal and decimal text is ASCII.
pub proof fn lemma_hex_text_ascii(b: Seq<u8>)
    ensures
        all_ascii(hex_text(b)),
    decreases b.len(),
{
    if b.len() > 1 {
        lemma_hex_text_ascii(b.drop_last());
    }
}

/// Decimal text is ASCII.
pub proof fn lemma_decimal_ascii(n: nat)
    ensures
        all_ascii(decimal(n)),
        decimal(n).len() >= 1,
    decreases n,
{
    if n >= 10 {
        lemma_decimal_ascii(n / 10);
    }
}

/// The digits of `n` in lower-case hexadecimal, without leading zeros.
pub open spec fn hex_number(n: nat) -> Seq<u8>
    decreases n,
{
    if n < 16 {
        seq![hex_digit(n)]
    } else {
        hex_number(n / 16) + seq![hex_digit(n % 16)]
    }
}

/// `s` with zero digits put before it until it has `width` characters.
pub open spec fn zero_padded(s: Seq<u8>, width: nat) -> Seq<u8> {
    if s.len() >= width {
        s
    } else {
        Seq::new((width - s.len()) as nat, |i: int| 0x30u8) + s
    }
}

/// Hexadecimal digits are ASCII.
pub proof fn lemma_hex_number_ascii(n: nat)
    ensures
        all_ascii(hex_number(n)),
        hex_number(n).len() >= 1,
    decreases n,
{
    if n >= 16 {
        lemma_hex_number_ascii(n / 16);
    }
}

/// Appends `n` in lower-case hexadecimal, with zero digits before it up to
/// `width` characters.
pub fn push_hex_number(out: &mut Vec<u8>, n: u32, width: usize)
    requires
        all_ascii(old(out)@),
    ensures
        final(out)@ == old(out)@ + zero_padded(hex_number(n as nat), width as nat),
        all_ascii(final(out)@),
{
    let mut digits: Vec<u8> = Vec::new();
    let mut rest: u32 = n;
    // The digits from the last to the first.
    while rest >= 16
        invariant
            hex_number(rest as nat) + digits@.reverse() == hex_number(n as nat),
        decreases rest,
    {
        let ghost had = digits@;
        digits.push(hex_digit_of((rest % 16) as u8));
        assert(digits@.reverse() =~= seq![hex_digit(rest as nat % 16)] + had.reverse());
        assert(hex_number(rest as nat) == hex_number(rest as nat / 16) + seq![
            hex_digit(rest as nat % 16),
        ]);
        assert(hex_number(rest as nat / 16) + digits@.reverse() =~= hex_number(rest as nat)
            + had.reverse());
        rest = rest / 16;
    }
    digits.push(hex_digit_of(rest as u8));
    assert(digits@.reverse() =~= hex_number(n as nat)) by {
        let had = digits@.drop_last();
        assert(digits@.reverse() =~= seq![hex_digit(rest as nat)] + had.reverse());
    }
    let ghost text = hex_number(n as nat);
    let ghost start = out@;
    proof {
        lemma_hex_number_ascii(n as nat);
    }
    let count: usize = digits.len();
    let mut pad: usize = count;
    while pad < width
        invariant
            count <= pad,
            pad <= width || pad == count,
            out@ == start + Seq::new((pad - count) as nat, |i: int| 0x30u8),
            all_ascii(out@),
        decreases width - pad,
    {
        out.push(0x30);
        pad = pad + 1;
        assert(out@ =~= start + Seq::new((pad - count) as nat, |i: int| 0x30u8));
    }
    let ghost padded = out@;
    let mut k: usize = count;
    while k > 0
        invariant
            k <= count == digits@.len(),
            text == digits@.reverse(),
            all_ascii(text),
            all_ascii(padded),
            out@ == padded + text.subrange(0, count - k),
        decreases k,
    {
        k = k - 1;
        out.push(digits[k]);
        assert(out@ =~= padded + text.subrange(0, count - k));
    }
    assert(text.subrange(0, count as int) =~= text);
    assert(out@ =~= start + zero_padded(text, width as nat));
}

/// Whether `x` is the code of a printable ASCII character.
pub fn is_printable_ascii(x: u8) -> (r: bool)
    ensures
        r == printable(x),
{
    x >= 0x20 && x < 0x7f
}

fn hex_digit_of(n: u8) -> (d: u8)
    requires
        n < 16,
    ensures
        d == hex_digit(n as nat),
{
    if n < 10 {
        0x30 + n
    } else {
        0x57 + n
    }
}

/// Appends the two hexadecimal digits of `x`.
fn push_hex(out: &mut Vec<u8>, x: u8)
    ensures
        final(out)@ == old(out)@ + hex_byte(x),
{
    out.push(hex_digit_of(x / 16));
    out.push(hex_digit_of(x % 16));
    assert(out@ =~= old(out)@ + hex_byte(x));
}

/// Appends `x` as it stands inside quotes of the kind `quote`.
fn push_escaped(out: &mut Vec<u8>, x: u8, quote: u8)
    ensures
        final(out)@ == old(out)@ + escaped(x, quote),
{
    if x == 0x5c || x == quote {
        out.push(0x5c);
    }
    out.push(x);
    assert(out@ =~= old(out)@ + escaped(x, quote));
}

/// The ASCII codes of the hexadecimal text of `b`.
pub fn dump_hex_bytes(b: &[u8]) -> (out: Vec<u8>)
    ensures
        out@ == hex_text(b@),
        all_ascii(out@),
{
    let mut out: Vec<u8> = Vec::new();
    let n: usize = b.len();
    let mut i: usize = 0;
    while i < n
        invariant
            i <= n == b@.len(),
            out@ == hex_text(b@.subrange(0, i as int)),
        decreases n - i,
    {
        let ghost done = b@.subrange(0, i as int);
        let ghost next = b@.subrange(0, i + 1);
        assert(next.drop_last() =~= done);
        if i > 0 {
            out.push(0x20);
        }
        push_hex(&mut out, b[i]);
        assert(out@ =~= hex_text(next));
        i = i + 1;
    }
    assert(b@.subrange(0, n as int) =~= b@);
    proof {
        lemma_hex_text_ascii(b@);
    }
    out
}

/// The bytes of `b` in hexadecimal, two digits each, with a space between
/// one byte and the next.
pub fn dump_hex(b: &[u8]) -> (s: String)
    ensures
        s@ == ascii_chars(hex_text(b@)),
{
    let out: Vec<u8> = dump_hex_bytes(b);
    lossy_text(out.as_slice())
}

/// The ASCII codes of the mixed text of `b`.
pub fn dump_mixed_bytes(b: &[u8]) -> (out: Vec<u8>)
    ensures
        out@ == mixed_text(b@),
        all_ascii(out@),
{
    let mut out: Vec<u8> = Vec::new();
    let n: usize = b.len();
    let mut i: usize = 0;
    while i < n
        invariant
            i <= n == b@.len(),
            out@ + mixed_text_from(b@, i as int) == mixed_text(b@),
            all_ascii(out@),
        decreases n - i,
    {
        let ghost before = out@;
        let ghost at = i;
        proof {
            lemma_run_end(b@, i as int);
        }
        if i > 0 {
            out.push(0x20);
        }
        let x: u8 = b[i];
        if is_printable_ascii(x) {
            // The end of the run of printable bytes.
            let mut j: usize = i + 1;
            while j < n && is_printable_ascii(b[j])
                invariant
                    i < j <= n == b@.len(),
                    run_end(b@, j as int) == run_end(b@, i as int),
                decreases n - j,
            {
                j = j + 1;
            }
            if j - i >= 2 {
                out.push(0x22);
                let ghost opened = out@;
                let mut k: usize = i;
                while k < j
                    invariant
                        i <= k <= j <= n == b@.len(),
                        out@ == opened + escaped_run(b@, i as int, k as int),
                        all_ascii(out@),
                        forall|t: int| i <= t < j ==> printable(#[trigger] b@[t]),
                    decreases j - k,
                {
                    push_escaped(&mut out, b[k], 0x22);
                    k = k + 1;
                    assert(out@ =~= opened + escaped_run(b@, i as int, k as int));
                }
                out.push(0x22);
            } else {
                out.push(0x27);
                push_escaped(&mut out, x, 0x27);
                out.push(0x27);
            }
            assert(out@ =~= before + (if i > 0 {
                seq![0x20u8]
            } else {
                Seq::empty()
            }) + mixed_token(b@, i as int));
            i = j;
        } else {
            push_hex(&mut out, x);
            assert(out@ =~= before + (if i > 0 {
                seq![0x20u8]
            } else {
                Seq::empty()
            }) + mixed_token(b@, i as int));
            i = i + 1;
        }
        assert(out@ + mixed_text_from(b@, i as int) =~= before + mixed_text_from(b@, at as int));
    }
    assert(out@ + Seq::<u8>::empty() =~= out@);
    out
}

/// The bytes of `b` as text: a run of two or more printable characters in
/// double quotes, a printable character alone in single quotes, any other
/// byte as two hexadecimal digits, and a space between one piece and the
/// next.
pub fn dump_mixed(b: &[u8]) -> (s: String)
    ensures
        s@ == ascii_chars(mixed_text(b@)),
{
    let out: Vec<u8> = dump_mixed_bytes(b);
    lossy_text(out.as_slice())
}

/// The ASCII codes of `n` in base ten.
pub fn decimal_bytes(n: u64) -> (out: Vec<u8>)
    ensures
        out@ == decimal(n as nat),
        all_ascii(out@),
{
    let mut digits: Vec<u8> = Vec::new();
    let mut rest: u64 = n;
    // The digits from the last to the first.
    while rest >= 10
        invariant
            decimal(rest as nat) + digits@.reverse() == decimal(n as nat),
        decreases rest,
    {
        let ghost had = digits@;
        digits.push(0x30 + (rest % 10) as u8);
        assert(digits@.reverse() =~= seq![(0x30 + rest % 10) as u8] + had.reverse());
        assert(decimal(rest as nat) == decimal(rest as nat / 10) + seq![
            (0x30 + rest as nat % 10) as u8,
        ]);
        assert(decimal(rest as nat / 10) + digits@.reverse() =~= decimal(rest as nat)
            + had.reverse());
        rest = rest / 10;
    }
    let mut out: Vec<u8> = Vec::new();
    out.push(0x30 + rest as u8);
    assert(out@ =~= decimal(rest as nat));
    let mut k: usize = digits.len();
    while k > 0
        invariant
            k <= digits@.len(),
            out@ == decimal(rest as nat) + digits@.reverse().subrange(0, digits@.len() - k),
        decreases k,
    {
        k = k - 1;
        out.push(digits[k]);
        assert(out@ =~= decimal(rest as nat) + digits@.reverse().subrange(
            0,
            digits@.len() - k,
        ));
    }
    assert(digits@.reverse().subrange(0, digits@.len() as int) =~= digits@.reverse());
    proof {
        lemma_decimal_ascii(n as nat);
    }
    out
}

/// The ASCII codes of `n` in base ten, with a minus sign where `n` is
/// negative.
pub fn signed_decimal_bytes(n: i64) -> (out: Vec<u8>)
    ensures
        out@ == signed_decimal(n as int),
        all_ascii(out@),
{
    if n < 0 {
        let magnitude: u64 = (-(n + 1)) as u64 + 1;
        let digits: Vec<u8> = decimal_bytes(magnitude);
        let mut out: Vec<u8> = Vec::new();
        out.push(0x2d);
        let mut k: usize = 0;
        while k < digits.len()
            invariant
                k <= digits@.len(),
                out@ == seq![0x2du8] + digits@.subrange(0, k as int),
            decreases digits@.len() - k,
        {
            out.push(digits[k]);
            k = k + 1;
            assert(out@ =~= seq![0x2du8] + digits@.subrange(0, k as int));
        }
        assert(digits@.subrange(0, digits@.len() as int) =~= digits@);
        out
    } else {
        decimal_bytes(n as u64)
    }
}

} // verus!
