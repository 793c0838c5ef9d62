//! Fixed-width big-endian integers, the only integer encoding of both the wire
//! protocol and the log files.

use vstd::arithmetic::power::{lemma_pow0, lemma_pow1, lemma_pow_adds, lemma_pow_positive, pow};
use vstd::prelude::*;

verus! {

/// 256 to the power `k`: how many values `k` bytes can hold.
pub open spec fn pow256(k: nat) -> nat
    decreases k,
{
    if k == 0 {
        1
    } else {
        256 * pow256((k - 1) as nat)
    }
}

/// The `k` low-order bytes of `n`, most significant first.
pub open spec fn be_bytes(n: nat, k: nat) -> Seq<u8>
    decreases k,
{
    if k == 0 {
        Seq::empty()
    } else {
        be_bytes(n / 256, (k - 1) as nat).push((n % 256) as u8)
    }
}

/// The number that `s` spells, most significant byte first.
pub open spec fn be_value(s: Seq<u8>) -> nat
    decreases s.len(),
{
    if s.len() == 0 {
        0
    } else {
        be_value(s.drop_last()) * 256 + s.last() as nat
    }
}

/// An encoding has exactly as many bytes as were asked for.
pub proof fn lemma_be_bytes_len(n: nat, k: nat)
    ensures
        be_bytes(n, k).len() == k,
    decreases k,
{
    if k > 0 {
        lemma_be_bytes_len(n / 256, (k - 1) as nat);
    }
}

/// `k` bytes spell a number below 256 to the power `k`.
pub proof fn lemma_be_value_bound(s: Seq<u8>)
    ensures
        be_value(s) < pow256(s.len()),
    decreases s.len(),
{
    if s.len() > 0 {
        lemma_be_value_bound(s.drop_last());
    }
}

/// Decoding an encoding gives the number back, for every number that fits.
pub proof fn law_be_decode_encode(n: nat, k: nat)
    requires
        n < pow256(k),
    ensures
        be_value(be_bytes(n, k)) == n,
    decreases k,
{
    if k > 0 {
        law_be_decode_encode(n / 256, (k - 1) as nat);
        assert(be_bytes(n, k).drop_last() =~= be_bytes(n / 256, (k - 1) as nat));
    }
}

/// Encoding a decoded number gives the bytes back.
pub proof fn law_be_encode_decode(s: Seq<u8>)
    ensures
        be_bytes(be_value(s), s.len()) == s,
    decreases s.len(),
{
    if s.len() > 0 {
        law_be_encode_decode(s.drop_last());
        let n = be_value(s);
        assert(n / 256 == be_value(s.drop_last()));
        assert(n % 256 == s.last() as nat);
        assert(s.drop_last().push(s.last()) =~= s);
    }
}

/// Each byte of an encoding is the digit, to the base 256, of its place, the last byte
/// having the lowest.
pub proof fn law_be_digit(n: nat, k: nat, i: int)
    requires
        0 <= i < k,
    ensures
        be_bytes(n, k).len() == k,
        be_bytes(n, k)[i] as int == (n as int / pow(256, (k - 1 - i) as nat)) % 256,
    decreases k,
{
    lemma_be_bytes_len(n, k);
    let j = (k - 1) as nat;
    lemma_be_bytes_len(n / 256, j);
    if i == j {
        lemma_pow0(256);
        assert(n as int / 1 == n);
    } else {
        law_be_digit(n / 256, j, i);
        let e = (j - 1 - i) as nat;
        lemma_pow1(256);
        lemma_pow_adds(256, 1, e);
        lemma_pow_positive(256, e);
        vstd::arithmetic::div_mod::lemma_div_denominator(n as int, 256, pow(256, e));
    }
}

/// The number that bytes spell: of none it is zero, of one the byte itself, and bytes
/// in front count for 256 times as much with each byte behind them.
pub proof fn law_be_value(s: Seq<u8>, t: Seq<u8>, b: u8)
    ensures
        be_value(Seq::empty()) == 0,
        be_value(seq![b]) == b,
        be_value(s + t) as int == be_value(s) * pow(256, t.len()) + be_value(t),
    decreases t.len(),
{
    assert(seq![b].drop_last() =~= Seq::<u8>::empty());
    assert(be_value(seq![b].drop_last()) == 0);
    if t.len() == 0 {
        assert(s + t =~= s);
        lemma_pow0(256);
        assert(be_value(s) * 1 == be_value(s));
    } else {
        let u = t.drop_last();
        law_be_value(s, u, b);
        assert((s + t).drop_last() =~= s + u);
        assert((s + t).last() == t.last());
        lemma_pow1(256);
        lemma_pow_adds(256, u.len(), 1);
        let x = be_value(s) as int;
        let p = pow(256, u.len());
        assert(x * p * 256 == x * (p * 256)) by (nonlinear_arith);
    }
}

/// `k` bytes hold 256 to the power `k` values.
pub proof fn law_pow256(k: nat)
    ensures
        pow256(k) as int == pow(256, k),
    decreases k,
{
    if k == 0 {
        lemma_pow0(256);
    } else {
        law_pow256((k - 1) as nat);
        lemma_pow1(256);
        lemma_pow_adds(256, 1, (k - 1) as nat);
    }
}

/// The bounds of the three widths in use.
pub proof fn lemma_pow256_widths()
    ensures
        pow256(1) == 0x100,
        pow256(2) == 0x1_0000,
        pow256(4) == 0x1_0000_0000,
        pow256(8) == 0x1_0000_0000_0000_0000,
{
    reveal_with_fuel(pow256, 9);
}

/// More bytes hold more values.
pub proof fn lemma_pow256_monotonic(j: nat, k: nat)
    requires
        j <= k,
    ensures
        0 < pow256(j) <= pow256(k),
    decreases k,
{
    if j < k {
        lemma_pow256_monotonic(j, (k - 1) as nat);
    } else if k > 0 {
        lemma_pow256_monotonic((k - 1) as nat, (k - 1) as nat);
    }
}

/// Append the `k` low-order bytes of `v`, most significant first.
pub fn push_be(buf: &mut Vec<u8>, v: u64, k: usize)
    ensures
        final(buf)@ == old(buf)@ + be_bytes(v as nat, k as nat),
    decreases k,
{
    if k == 0 {
        assert(buf@ =~= old(buf)@ + be_bytes(v as nat, 0));
    } else {
        push_be(buf, v / 256, k - 1);
        buf.push((v % 256) as u8);
        assert(buf@ =~= old(buf)@ + be_bytes(v as nat, k as nat));
    }
}

/// The number that up to eight bytes spell, most significant first.
pub fn value_be(bytes: &[u8]) -> (v: u64)
    requires
        bytes@.len() <= 8,
    ensures
        v as nat == be_value(bytes@),
        (v as nat) < pow256(bytes@.len()),
{
    let mut v: u64 = 0;
    let mut i: usize = 0;
    assert(be_value(bytes@.take(0)) == 0);
    while i < bytes.len()
        invariant
            i <= bytes@.len() <= 8,
            v as nat == be_value(bytes@.take(i as int)),
        decreases bytes@.len() - i,
    {
        proof {
            let head = bytes@.take(i + 1);
            assert(head.drop_last() =~= bytes@.take(i as int));
            lemma_be_value_bound(head);
            lemma_pow256_monotonic((i + 1) as nat, 8);
            lemma_pow256_widths();
        }
        v = v * 256 + bytes[i] as u64;
        i = i + 1;
    }
    proof {
        assert(bytes@.take(i as int) =~= bytes@);
        lemma_be_value_bound(bytes@);
    }
    v
}

} // verus!
