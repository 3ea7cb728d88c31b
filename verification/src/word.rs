//! Big-endian numbers in byte strings: the arithmetic beneath every word of
//! the wire format.

use vstd::prelude::*;
use vstd::slice::slice_subrange;

verus! {

/// `256` to the power `n`: the number of values that `n` bytes can hold.
pub open spec fn pow256(n: nat) -> nat
    decreases n,
{
    if n == 0 {
        1
    } else {
        256 * pow256((n - 1) as nat)
    }
}

/// The number that a byte string denotes when read big-endian.
pub open spec fn be_value(bytes: Seq<u8>) -> nat
    decreases bytes.len(),
{
    if bytes.len() == 0 {
        0
    } else {
        be_value(bytes.drop_last()) * 256 + bytes.last() as nat
    }
}

/// The `width` low-order bytes of `value`, most significant first.
pub open spec fn be_bytes(value: nat, width: nat) -> Seq<u8>
    decreases width,
{
    if width == 0 {
        Seq::empty()
    } else {
        be_bytes(value / 256, (width - 1) as nat).push((value % 256) as u8)
    }
}

/// `n` zero bytes.
pub open spec fn zeros(n: nat) -> Seq<u8> {
    Seq::new(n, |i: int| 0u8)
}

/// The word that holds `value`: 32 bytes, big-endian, zero-padded on the left.
pub open spec fn word(value: nat) -> Seq<u8> {
    be_bytes(value, 32)
}

/// Number of zero bytes that follow `len` content bytes up to the next word
/// boundary.
pub open spec fn padding(len: nat) -> nat {
    ((32 - len % 32) % 32) as nat
}

/// The values of `a + b` bytes are those of `a` bytes times those of `b`
/// bytes.
pub proof fn lemma_pow256_adds(a: nat, b: nat)
    ensures
        pow256(a + b) == pow256(a) * pow256(b),
    decreases a,
{
    if a == 0 {
        assert(pow256(0) == 1);
        assert(1 * pow256(b) == pow256(b)) by (nonlinear_arith);
    } else {
        lemma_pow256_adds((a - 1) as nat, b);
        let x = pow256((a - 1) as nat);
        let y = pow256(b);
        assert(pow256(a + b) == 256 * pow256((a - 1 + b) as nat));
        assert(256 * (x * y) == (256 * x) * y) by (nonlinear_arith);
    }
}

/// More bytes hold at least as many values.
pub proof fn lemma_pow256_increases(a: nat, b: nat)
    requires
        a <= b,
    ensures
        pow256(a) <= pow256(b),
    decreases b,
{
    if a < b {
        lemma_pow256_increases(a, (b - 1) as nat);
    }
}

/// The powers that bound the integer types of the format.
pub proof fn lemma_pow256_values()
    ensures
        pow256(1) == 0x100,
        pow256(4) == 0x1_0000_0000,
        pow256(8) == 0x1_0000_0000_0000_0000,
        pow256(16) == 0x1_0000_0000_0000_0000_0000_0000_0000_0000,
{
    reveal_with_fuel(pow256, 5);
    assert(pow256(4) == 0x1_0000_0000);
    lemma_pow256_adds(4, 4);
    assert(pow256(8) == 0x1_0000_0000 * 0x1_0000_0000);
    lemma_pow256_adds(8, 8);
    assert(pow256(16) == 0x1_0000_0000_0000_0000 * 0x1_0000_0000_0000_0000);
}

/// A number written at a width takes that many bytes.
pub proof fn lemma_be_bytes_len(value: nat, width: nat)
    ensures
        be_bytes(value, width).len() == width,
    decreases width,
{
    if width > 0 {
        lemma_be_bytes_len(value / 256, (width - 1) as nat);
    }
}

/// A string of `n` bytes denotes a number below `256^n`.
pub proof fn lemma_be_value_bound(bytes: Seq<u8>)
    ensures
        be_value(bytes) < pow256(bytes.len()),
    decreases bytes.len(),
{
    if bytes.len() > 0 {
        lemma_be_value_bound(bytes.drop_last());
    }
}

/// Reading two strings one after the other shifts the first by the length
/// of the second.
pub proof fn lemma_be_value_append(a: Seq<u8>, b: Seq<u8>)
    ensures
        be_value(a + b) == be_value(a) * pow256(b.len()) + be_value(b),
    decreases b.len(),
{
    if b.len() == 0 {
        assert(a + b =~= a);
        assert(be_value(a) * 1 == be_value(a)) by (nonlinear_arith);
    } else {
        let init = b.drop_last();
        assert((a + b).drop_last() =~= a + init);
        assert((a + b).last() == b.last());
        lemma_be_value_append(a, init);
        let x = be_value(a);
        let p = pow256(init.len());
        let y = be_value(init);
        assert((x * p + y) * 256 == x * (256 * p) + y * 256) by (nonlinear_arith);
    }
}

/// Writing a number and reading it back gives the number, as far as it fits
/// the width.
pub proof fn lemma_be_value_of_bytes(value: nat, width: nat)
    requires
        value < pow256(width),
    ensures
        be_value(be_bytes(value, width)) == value,
    decreases width,
{
    if width > 0 {
        let rest = value / 256;
        assert(rest < pow256((width - 1) as nat)) by (nonlinear_arith)
            requires
                value < 256 * pow256((width - 1) as nat),
                rest == value / 256,
        ;
        lemma_be_value_of_bytes(rest, (width - 1) as nat);
        let s = be_bytes(value, width);
        assert(s.drop_last() =~= be_bytes(rest, (width - 1) as nat));
        assert(s.last() == (value % 256) as u8);
        assert(rest * 256 + value % 256 == value) by (nonlinear_arith)
            requires
                rest == value / 256,
        ;
    }
}

/// Reading a string and writing the number back at the same width gives the
/// string.
pub proof fn lemma_be_bytes_of_value(bytes: Seq<u8>)
    ensures
        be_bytes(be_value(bytes), bytes.len()) == bytes,
    decreases bytes.len(),
{
    if bytes.len() > 0 {
        let init = bytes.drop_last();
        let v = be_value(bytes);
        let last = bytes.last() as nat;
        assert(v == be_value(init) * 256 + last);
        assert(v / 256 == be_value(init) && v % 256 == last) by (nonlinear_arith)
            requires
                v == be_value(init) * 256 + last,
                last < 256,
        ;
        lemma_be_bytes_of_value(init);
        assert(be_bytes(v, bytes.len()) =~= init.push(bytes.last()));
        assert(init.push(bytes.last()) =~= bytes);
    } else {
        assert(be_bytes(0, 0) =~= bytes);
    }
}

/// Two strings of one length that denote the same number are the same
/// string.
pub proof fn lemma_be_value_injective(a: Seq<u8>, b: Seq<u8>)
    requires
        a.len() == b.len(),
        be_value(a) == be_value(b),
    ensures
        a == b,
{
    lemma_be_bytes_of_value(a);
    lemma_be_bytes_of_value(b);
}

/// Zero bytes denote zero.
pub proof fn lemma_be_value_zeros(n: nat)
    ensures
        be_value(zeros(n)) == 0,
    decreases n,
{
    if n > 0 {
        assert(zeros(n).drop_last() =~= zeros((n - 1) as nat));
        lemma_be_value_zeros((n - 1) as nat);
    }
}

/// A string denotes zero exactly when all of its bytes are zero.
pub proof fn lemma_be_value_zero_iff(bytes: Seq<u8>)
    ensures
        be_value(bytes) == 0 <==> bytes == zeros(bytes.len()),
{
    lemma_be_value_zeros(bytes.len());
    if be_value(bytes) == 0 {
        lemma_be_value_injective(bytes, zeros(bytes.len()));
    }
}

/// A number that fits `width` bytes fills a word with zeros on the left and
/// its own bytes, right-aligned, behind them.
pub proof fn lemma_word_is_left_padded(value: nat, width: nat)
    requires
        width <= 32,
        value < pow256(width),
    ensures
        word(value) == zeros((32 - width) as nat) + be_bytes(value, width),
{
    let padded = zeros((32 - width) as nat) + be_bytes(value, width);
    lemma_be_bytes_len(value, width);
    lemma_be_bytes_len(value, 32);
    lemma_be_value_append(zeros((32 - width) as nat), be_bytes(value, width));
    lemma_be_value_zeros((32 - width) as nat);
    lemma_be_value_of_bytes(value, width);
    lemma_pow256_increases(width, 32);
    lemma_be_value_of_bytes(value, 32);
    assert(0 * pow256(width) == 0) by (nonlinear_arith);
    lemma_be_value_injective(word(value), padded);
}

/// A word denotes a number that fits `width` bytes exactly when the bytes
/// in front of its last `width` are all zero.
pub proof fn lemma_narrow_iff_zero_prefix(bytes: Seq<u8>, width: nat)
    requires
        width <= bytes.len(),
    ensures
        be_value(bytes) < pow256(width) <==> be_value(bytes.take(bytes.len() - width)) == 0,
        be_value(bytes.take(bytes.len() - width)) == 0 ==> be_value(bytes) == be_value(
            bytes.skip(bytes.len() - width),
        ),
{
    let front = bytes.take(bytes.len() - width);
    let back = bytes.skip(bytes.len() - width);
    assert(front + back =~= bytes);
    lemma_be_value_append(front, back);
    lemma_be_value_bound(back);
    let f = be_value(front);
    let p = pow256(width);
    if f == 0 {
        assert(f * p == 0) by (nonlinear_arith)
            requires
                f == 0,
        ;
    } else {
        assert(f * p >= p) by (nonlinear_arith)
            requires
                f >= 1,
        ;
    }
}

/// Whether every byte of `bytes` is zero.
pub fn all_zero(bytes: &[u8]) -> (r: bool)
    ensures
        r == (be_value(bytes@) == 0),
{
    let mut i: usize = 0;
    while i < bytes.len()
        invariant
            i <= bytes@.len(),
            forall|j: int| 0 <= j < i ==> bytes@[j] == 0u8,
        decreases bytes@.len() - i,
    {
        if bytes[i] != 0 {
            proof {
                lemma_be_value_zero_iff(bytes@);
                assert(zeros(bytes@.len())[i as int] == 0u8);
            }
            return false;
        }
        i += 1;
    }
    proof {
        assert(bytes@ =~= zeros(bytes@.len()));
        lemma_be_value_zero_iff(bytes@);
    }
    true
}

/// Reads up to 16 bytes as one big-endian number.
pub fn be_decode(bytes: &[u8]) -> (value: u128)
    requires
        bytes@.len() <= 16,
    ensures
        value == be_value(bytes@),
{
    let mut acc: u128 = 0;
    let mut i: usize = 0;
    while i < bytes.len()
        invariant
            i <= bytes@.len() <= 16,
            acc == be_value(bytes@.take(i as int)),
        decreases bytes@.len() - i,
    {
        proof {
            lemma_be_value_bound(bytes@.take(i as int));
            lemma_pow256_increases(i as nat, 15);
            lemma_pow256_values();
            assert(pow256(16) == 256 * pow256(15));
            assert(bytes@.take(i + 1).drop_last() =~= bytes@.take(i as int));
        }
        acc = acc * 256 + bytes[i] as u128;
        i += 1;
    }
    proof {
        assert(bytes@.take(i as int) =~= bytes@);
    }
    acc
}

/// Writes a number as 16 big-endian bytes.
pub fn be_encode(value: u128) -> (out: [u8; 16])
    ensures
        out@ == be_bytes(value as nat, 16),
{
    let mut out = [0u8; 16];
    let mut rest: u128 = value;
    let mut i: usize = 0;
    proof {
        assert(out@.skip(16) =~= Seq::<u8>::empty());
        assert(rest * pow256(0) == rest) by (nonlinear_arith)
            requires
                pow256(0) == 1,
        ;
    }
    while i < 16
        invariant
            i <= 16,
            be_value(out@.skip(16 - i)) + rest * pow256(i as nat) == value,
        decreases 16 - i,
    {
        let digit: u8 = (rest % 256) as u8;
        let ghost before = out@.skip(16 - i);
        out[15 - i] = digit;
        proof {
            let after = out@.skip(15 - i);
            assert(after =~= seq![digit] + before);
            lemma_be_value_append(seq![digit], before);
            assert(seq![digit].drop_last() =~= Seq::<u8>::empty());
            assert(be_value(seq![digit]) == be_value(Seq::<u8>::empty()) * 256 + digit as nat);
            let p = pow256(i as nat);
            assert(pow256((i + 1) as nat) == 256 * p);
            assert((rest / 256) * (256 * p) + (rest % 256) * p == rest * p) by (nonlinear_arith);
        }
        rest = rest / 256;
        i += 1;
    }
    proof {
        lemma_pow256_values();
        assert(rest == 0) by (nonlinear_arith)
            requires
                rest * pow256(16) <= value,
                value < pow256(16),
                rest >= 0,
            ;
        assert(out@.skip(0) =~= out@);
        lemma_be_bytes_of_value(out@);
    }
    out
}

/// The number whose upper 128 bits are `hi` and whose lower 128 bits are
/// `lo`.
pub open spec fn join(hi: u128, lo: u128) -> nat {
    hi as nat * pow256(16) + lo as nat
}

/// A pair of halves joins to a number that fits one word.
pub proof fn lemma_join_bound(hi: u128, lo: u128)
    ensures
        join(hi, lo) < pow256(32),
{
    lemma_pow256_values();
    lemma_pow256_adds(16, 16);
    let p = pow256(16);
    assert((hi as nat) * p + (lo as nat) < p * p) by (nonlinear_arith)
        requires
            (hi as nat) < p,
            (lo as nat) < p,
    ;
}

/// Reads up to 32 bytes as one big-endian number, in two halves.
pub fn be_decode_halves(bytes: &[u8]) -> (r: (u128, u128))
    requires
        bytes@.len() <= 32,
    ensures
        join(r.0, r.1) == be_value(bytes@),
{
    let n = bytes.len();
    if n <= 16 {
        let lo = be_decode(bytes);
        assert(0 * pow256(16) == 0) by (nonlinear_arith);
        (0, lo)
    } else {
        let front = slice_subrange(bytes, 0, n - 16);
        let back = slice_subrange(bytes, n - 16, n);
        let hi = be_decode(front);
        let lo = be_decode(back);
        proof {
            assert(front@ + back@ =~= bytes@);
            lemma_be_value_append(front@, back@);
        }
        (hi, lo)
    }
}

/// Writes the word that holds the number with the given halves.
pub fn word_from_halves(hi: u128, lo: u128) -> (out: [u8; 32])
    ensures
        out@ == word(join(hi, lo)),
{
    let front = be_encode(hi);
    let back = be_encode(lo);
    let mut out = [0u8; 32];
    let mut i: usize = 0;
    while i < 16
        invariant
            i <= 16,
            forall|j: int| 0 <= j < i ==> out@[j] == front@[j],
            forall|j: int| 0 <= j < i ==> out@[16 + j] == back@[j],
        decreases 16 - i,
    {
        out[i] = front[i];
        out[16 + i] = back[i];
        i += 1;
    }
    proof {
        assert(out@ =~= front@ + back@);
        lemma_pow256_values();
        lemma_be_bytes_len(hi as nat, 16);
        lemma_be_bytes_len(lo as nat, 16);
        lemma_be_value_of_bytes(hi as nat, 16);
        lemma_be_value_of_bytes(lo as nat, 16);
        lemma_be_value_append(front@, back@);
        lemma_join_bound(hi, lo);
        lemma_be_value_of_bytes(join(hi, lo), 32);
        lemma_be_bytes_len(join(hi, lo), 32);
        lemma_be_value_injective(out@, word(join(hi, lo)));
    }
    out
}

} // verus!
