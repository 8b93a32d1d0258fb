//! Little-endian integers as byte strings.

use vstd::prelude::*;

verus! {

/// `256` raised to the power `n`.
pub open spec fn pow256(n: nat) -> nat
    decreases n,
{
    if n == 0 {
        1
    } else {
        256 * pow256((n - 1) as nat)
    }
}

/// The number that the little-endian byte string `s` denotes.
pub open spec fn le_value(s: Seq<u8>) -> nat
    decreases s.len(),
{
    if s.len() == 0 {
        0
    } else {
        s[0] as nat + 256 * le_value(s.drop_first())
    }
}

/// The `n` least significant bytes of `v`, least significant first.
pub open spec fn le_bytes(v: nat, n: nat) -> Seq<u8>
    decreases n,
{
    if n == 0 {
        Seq::empty()
    } else {
        seq![(v % 256) as u8] + le_bytes(v / 256, (n - 1) as nat)
    }
}

pub proof fn lemma_pow256_positive(n: nat)
    ensures
        pow256(n) >= 1,
    decreases n,
{
    if n > 0 {
        lemma_pow256_positive((n - 1) as nat);
    }
}

pub proof fn lemma_pow256_monotone(a: nat, b: nat)
    requires
        a <= b,
    ensures
        pow256(a) <= pow256(b),
    decreases b,
{
    if a < b {
        lemma_pow256_monotone(a, (b - 1) as nat);
        lemma_pow256_positive((b - 1) as nat);
    }
}

pub proof fn lemma_pow256_values()
    ensures
        pow256(4) == 0x1_0000_0000,
        pow256(8) == 0x1_0000_0000_0000_0000,
        pow256(16) == 0x1_0000_0000_0000_0000_0000_0000_0000_0000,
{
    reveal_with_fuel(pow256, 17);
}

pub proof fn lemma_le_bytes_len(v: nat, n: nat)
    ensures
        le_bytes(v, n).len() == n,
    decreases n,
{
    if n > 0 {
        lemma_le_bytes_len(v / 256, (n - 1) as nat);
    }
}

pub proof fn lemma_le_value_bound(s: Seq<u8>)
    ensures
        le_value(s) < pow256(s.len()),
    decreases s.len(),
{
    if s.len() > 0 {
        lemma_le_value_bound(s.drop_first());
    }
}

/// Encoding a number that fits and reading it back gives the number.
pub proof fn lemma_le_value_of_bytes(v: nat, n: nat)
    requires
        v < pow256(n),
    ensures
        le_value(le_bytes(v, n)) == v,
    decreases n,
{
    if n > 0 {
        let s = le_bytes(v, n);
        assert(s.drop_first() =~= le_bytes(v / 256, (n - 1) as nat));
        lemma_le_value_of_bytes(v / 256, (n - 1) as nat);
    }
}

/// Reading a byte string and encoding the number again gives the byte string.
pub proof fn lemma_le_bytes_of_value(s: Seq<u8>)
    ensures
        le_bytes(le_value(s), s.len()) == s,
    decreases s.len(),
{
    if s.len() > 0 {
        let v = le_value(s);
        let r = le_value(s.drop_first());
        assert(v % 256 == s[0] as nat);
        assert(v / 256 == r);
        lemma_le_bytes_of_value(s.drop_first());
        assert(le_bytes(v, s.len()) =~= seq![s[0]] + s.drop_first());
        assert(seq![s[0]] + s.drop_first() =~= s);
    }
}

/// Reads the `n`-byte little-endian number that starts at `pos`.
pub fn read_le(bytes: &[u8], pos: usize, n: usize) -> (v: u128)
    requires
        n <= 16,
        pos + n <= bytes@.len(),
    ensures
        v == le_value(bytes@.subrange(pos as int, pos + n)),
        v < pow256(n as nat),
{
    let len = bytes.len();
    let mut acc: u128 = 0;
    let mut i: usize = n;
    proof {
        lemma_pow256_values();
    }
    while i > 0
        invariant
            i <= n <= 16,
            pos + n <= bytes@.len(),
            len == bytes@.len(),
            acc == le_value(bytes@.subrange(pos + i, pos + n)),
            acc < pow256((n - i) as nat),
            pow256(16) == 0x1_0000_0000_0000_0000_0000_0000_0000_0000,
        decreases i,
    {
        i = i - 1;
        let b = bytes[pos + i];
        proof {
            assert(bytes@.subrange(pos + i, pos + n).drop_first() =~= bytes@.subrange(
                pos + i + 1,
                pos + n,
            ));
            lemma_pow256_monotone((n - i) as nat, 16);
            assert(pow256((n - i) as nat) == 256 * pow256((n - i - 1) as nat));
        }
        acc = b as u128 + 256 * acc;
    }
    acc
}

/// Appends the `n` least significant bytes of `v`, least significant first.
pub fn write_le(out: &mut Vec<u8>, v: u128, n: usize)
    ensures
        final(out)@ == old(out)@ + le_bytes(v as nat, n as nat),
{
    let mut x: u128 = v;
    let mut i: usize = 0;
    while i < n
        invariant
            i <= n,
            old(out)@ + le_bytes(v as nat, n as nat) == out@ + le_bytes(x as nat, (n - i) as nat),
        decreases n - i,
    {
        let ghost before = out@;
        out.push((x % 256) as u8);
        proof {
            assert(le_bytes(x as nat, (n - i) as nat) == seq![(x % 256) as u8] + le_bytes(
                (x / 256) as nat,
                (n - i - 1) as nat,
            ));
            assert(before + le_bytes(x as nat, (n - i) as nat) =~= out@ + le_bytes(
                (x / 256) as nat,
                (n - i - 1) as nat,
            ));
        }
        x = x / 256;
        i = i + 1;
    }
    assert(le_bytes(x as nat, 0) =~= Seq::<u8>::empty());
    assert(out@ + le_bytes(x as nat, 0) =~= out@);
}

} // verus!
