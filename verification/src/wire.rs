//! Big-endian integers on the wire.
use vstd::prelude::*;

verus! {

/// The number whose big-endian base-256 digits are `s`.
pub open spec fn be_value(s: Seq<u8>) -> nat
    decreases s.len(),
{
    if s.len() == 0 {
        0
    } else {
        be_value(s.drop_last()) * 256 + s.last() as nat
    }
}

/// 256 to the power `n`.
pub open spec fn pow256(n: nat) -> nat
    decreases n,
{
    if n == 0 {
        1
    } else {
        pow256((n - 1) as nat) * 256
    }
}

/// A value with `n` big-endian digits is below `256^n`.
pub(crate) proof fn lemma_be_value_bound(s: Seq<u8>)
    ensures
        be_value(s) < pow256(s.len()),
    decreases s.len(),
{
    if s.len() > 0 {
        let p = s.drop_last();
        lemma_be_value_bound(p);
        let x = be_value(p);
        let b = s.last();
        let m = pow256(p.len());
        assert(x * 256 + b < m * 256) by (nonlinear_arith)
            requires
                x < m,
                b < 256,
        ;
    }
}

/// The 16-bit number with big-endian bytes `hi`, `lo`.
pub open spec fn be16(hi: u8, lo: u8) -> nat {
    hi as nat * 256 + lo as nat
}

/// Reads the big-endian `u16` at `at`.
pub fn read_be16(buf: &[u8], at: usize) -> (v: u16)
    requires
        at + 2 <= buf@.len(),
    ensures
        v == be16(buf@[at as int], buf@[at + 1]),
        v == be_value(buf@.subrange(at as int, at + 2)),
{
    let hi = buf[at] as u16;
    let lo = buf[at + 1] as u16;
    proof {
        let s = buf@.subrange(at as int, at + 2);
        assert(s.drop_last().drop_last() =~= Seq::<u8>::empty());
        assert(s.drop_last().last() == buf@[at as int]);
        reveal_with_fuel(be_value, 3);
    }
    hi * 256 + lo
}

/// The big-endian value of `bytes`, which has at most 16 entries.
pub fn be_u128(bytes: &[u8]) -> (v: u128)
    requires
        bytes@.len() <= 16,
    ensures
        v == be_value(bytes@),
{
    let mut acc: u128 = 0;
    let mut i: usize = 0;
    while i < bytes.len()
        invariant
            i <= bytes@.len() <= 16,
            acc == be_value(bytes@.subrange(0, i as int)),
        decreases bytes@.len() - i,
    {
        let ghost prefix = bytes@.subrange(0, i as int);
        proof {
            lemma_be_value_bound(prefix);
            lemma_pow256_mono(i as nat, 15);
            reveal_with_fuel(pow256, 17);
            assert(pow256(15) * 256 == pow256(16));
            assert(acc * 256 + bytes@[i as int] < pow256(16)) by (nonlinear_arith)
                requires
                    acc < pow256(i as nat),
                    pow256(i as nat) <= pow256(15),
                    pow256(15) * 256 == pow256(16),
                    bytes@[i as int] < 256,
            ;
            assert(bytes@.subrange(0, i + 1).drop_last() =~= prefix);
        }
        acc = acc * 256 + bytes[i] as u128;
        i = i + 1;
    }
    assert(bytes@.subrange(0, bytes@.len() as int) =~= bytes@);
    acc
}

/// The big-endian value of the four bytes at `at`.
pub fn read_be32(buf: &[u8], at: usize) -> (v: u32)
    requires
        at + 4 <= buf@.len(),
    ensures
        v == be_value(buf@.subrange(at as int, at + 4)),
{
    let len = buf.len();
    let part = &buf[at..at + 4];
    let wide = be_u128(part);
    proof {
        lemma_be_value_bound(part@);
        reveal_with_fuel(pow256, 5);
    }
    wide as u32
}

/// The big-endian value of the eight bytes at `at`.
pub fn read_be64(buf: &[u8], at: usize) -> (v: u64)
    requires
        at + 8 <= buf@.len(),
    ensures
        v == be_value(buf@.subrange(at as int, at + 8)),
{
    let len = buf.len();
    let part = &buf[at..at + 8];
    let wide = be_u128(part);
    proof {
        lemma_be_value_bound(part@);
        reveal_with_fuel(pow256, 9);
    }
    wide as u64
}

/// The last `n` big-endian base-256 digits of `x`.
pub open spec fn be_digits(x: nat, n: nat) -> Seq<u8>
    decreases n,
{
    if n == 0 {
        Seq::empty()
    } else {
        be_digits(x / 256, (n - 1) as nat).push((x % 256) as u8)
    }
}

/// The eight big-endian bytes of `x` (`u64::to_be_bytes`).
pub open spec fn be8(x: u64) -> Seq<u8> {
    be_digits(x as nat, 8)
}

/// Reading back `n` digits gives the number modulo `256^n`.
pub(crate) proof fn lemma_be_digits(x: nat, n: nat)
    ensures
        be_digits(x, n).len() == n,
        be_value(be_digits(x, n)) == x % pow256(n),
    decreases n,
{
    if n > 0 {
        let m = (n - 1) as nat;
        lemma_be_digits(x / 256, m);
        let d = be_digits(x, n);
        assert(d.drop_last() =~= be_digits(x / 256, m));
        let p = pow256(m);
        assert(p > 0) by {
            lemma_pow256_positive(m);
        }
        assert(((x / 256) % p) * 256 + x % 256 == x % (p * 256)) by (nonlinear_arith)
            requires
                p > 0,
        {
            vstd::arithmetic::div_mod::lemma_breakdown(x as int, 256, p as int);
        }
    }
}

proof fn lemma_pow256_positive(n: nat)
    ensures
        pow256(n) > 0,
    decreases n,
{
    if n > 0 {
        lemma_pow256_positive((n - 1) as nat);
    }
}

/// Eight bytes read back big-endian give the `u64` they encode.
pub(crate) proof fn lemma_be8_roundtrip(x: u64)
    ensures
        be8(x).len() == 8,
        be_value(be8(x)) == x,
{
    lemma_be_digits(x as nat, 8);
    reveal_with_fuel(pow256, 9);
    assert(pow256(8) == 0x1_0000_0000_0000_0000nat);
    vstd::arithmetic::div_mod::lemma_small_mod(x as nat, pow256(8));
}

/// Appends the last `n` big-endian digits of `x` to `out`.
pub fn push_be_digits(out: &mut Vec<u8>, x: u64, n: usize)
    ensures
        final(out)@ == old(out)@ + be_digits(x as nat, n as nat),
    decreases n,
{
    if n > 0 {
        push_be_digits(out, x / 256, n - 1);
        out.push((x % 256) as u8);
        assert(final(out)@ =~= old(out)@ + be_digits(x as nat, n as nat));
    } else {
        assert(out@ =~= old(out)@ + be_digits(x as nat, n as nat));
    }
}

proof fn lemma_pow256_mono(a: nat, b: nat)
    requires
        a <= b,
    ensures
        pow256(a) <= pow256(b),
    decreases b,
{
    if a < b {
        lemma_pow256_mono(a, (b - 1) as nat);
        assert(pow256(b) == pow256((b - 1) as nat) * 256);
    }
}

} // verus!
