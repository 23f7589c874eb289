//! Little-endian integers in byte sequences.

use vstd::prelude::*;
use vstd::arithmetic::power::*;
use vstd::arithmetic::div_mod::*;
use vstd::arithmetic::mul::*;

verus! {

/// The value of `s` read as a little-endian unsigned integer.
pub open spec fn le_value(s: Seq<u8>) -> nat
    decreases s.len(),
{
    if s.len() == 0 {
        0
    } else {
        s[0] as nat + 256 * le_value(s.drop_first())
    }
}

/// The `n` lowest bytes of `v`, least significant first.
pub open spec fn le_bytes(v: nat, n: nat) -> Seq<u8>
    decreases n,
{
    if n == 0 {
        Seq::empty()
    } else {
        seq![(v % 256) as u8] + le_bytes(v / 256, (n - 1) as nat)
    }
}

pub proof fn lemma_le_bytes_len(v: nat, n: nat)
    ensures
        le_bytes(v, n).len() == n,
    decreases n,
{
    if n > 0 {
        lemma_le_bytes_len(v / 256, (n - 1) as nat);
    }
}

/// A value read from `n` bytes is below `256^n`.
pub proof fn lemma_le_value_bound(s: Seq<u8>)
    ensures
        le_value(s) < pow(256, s.len()),
    decreases s.len(),
{
    reveal(pow);
    if s.len() > 0 {
        lemma_le_value_bound(s.drop_first());
        let r = le_value(s.drop_first());
        let p = pow(256, (s.len() - 1) as nat);
        assert(r + 1 <= p);
        assert(256 * r + 256 <= 256 * p) by (nonlinear_arith)
            requires r + 1 <= p;
    }
}

/// Reading back the `n` low bytes of `v` gives `v` modulo `256^n`.
pub proof fn lemma_le_value_of_bytes(v: nat, n: nat)
    ensures
        le_value(le_bytes(v, n)) == v % (pow(256, n) as nat),
    decreases n,
{
    reveal(pow);
    lemma_le_bytes_len(v, n);
    if n == 0 {
        assert(v % 1 == 0);
    } else {
        let b = le_bytes(v, n);
        let rest = le_bytes(v / 256, (n - 1) as nat);
        assert(b.drop_first() =~= rest);
        lemma_le_value_of_bytes(v / 256, (n - 1) as nat);
        let p = pow(256, (n - 1) as nat);
        lemma_pow_positive(256, (n - 1) as nat);
        lemma_mod_breakdown(v as int, 256, p);
        assert(256 * p == pow(256, n));
    }
}

/// The bytes of a value read from `s` are `s` again.
pub proof fn lemma_le_bytes_of_value(s: Seq<u8>)
    ensures
        le_bytes(le_value(s), s.len()) =~= s,
    decreases s.len(),
{
    if s.len() > 0 {
        let r = le_value(s.drop_first());
        let v = le_value(s);
        assert(v == s[0] as nat + 256 * r);
        assert(v % 256 == s[0] as nat && v / 256 == r) by {
            lemma_fundamental_div_mod_converse(v as int, 256, r as int, s[0] as int);
        }
        lemma_le_bytes_of_value(s.drop_first());
        lemma_le_bytes_len(r, (s.len() - 1) as nat);
        assert(le_bytes(v, s.len()) =~= seq![s[0]] + s.drop_first());
    }
}

/// Reads the `n`-byte little-endian integer that starts at `pos`.
pub fn read_le(data: &[u8], pos: usize, n: usize) -> (r: u64)
    requires
        n <= 8,
        pos + n <= data@.len(),
    ensures
        r as nat == le_value(data@.subrange(pos as int, pos + n)),
{
    let len = data.len();
    let mut v: u64 = 0;
    let mut i: usize = n;
    proof {
        assert(data@.subrange(pos + n, pos + n) =~= Seq::<u8>::empty());
    }
    while i > 0
        invariant
            n <= 8,
            pos + n <= data@.len(),
            len == data@.len(),
            i <= n,
            v as nat == le_value(data@.subrange(pos + i, pos + n)),
        decreases i,
    {
        let ghost prev = data@.subrange(pos + i, pos + n);
        i = i - 1;
        let ghost cur = data@.subrange(pos + i, pos + n);
        proof {
            assert(cur.drop_first() =~= prev);
            lemma_le_value_bound(prev);
            assert(prev.len() <= 7);
            lemma_pow_increases(256, prev.len(), 7);
            reveal_with_fuel(pow, 8);
            assert(pow(256, 7) == 0x100000000000000);
        }
        let b = data[pos + i];
        assert(v < 0x100000000000000);
        v = v * 256 + b as u64;
    }
    v
}

/// Appends the `n` low bytes of `v`, least significant first.
pub fn write_le(out: &mut Vec<u8>, v: u64, n: usize)
    requires
        n <= 8,
    ensures
        final(out)@ == old(out)@ + le_bytes(v as nat, n as nat),
{
    let mut x: u64 = v;
    let mut i: usize = 0;
    proof {
        lemma_le_bytes_len(v as nat, n as nat);
        assert(old(out)@ + le_bytes(v as nat, n as nat) =~= out@ + le_bytes(x as nat, (n - i) as nat));
    }
    while i < n
        invariant
            i <= n,
            old(out)@ + le_bytes(v as nat, n as nat) =~= out@ + le_bytes(x as nat, (n - i) as nat),
        decreases n - i,
    {
        let ghost tail = le_bytes(x as nat, (n - i) as nat);
        assert(tail =~= seq![(x % 256) as u8] + le_bytes((x / 256) as nat, (n - i - 1) as nat));
        out.push((x % 256) as u8);
        x = x / 256;
        i = i + 1;
    }
    proof {
        assert(le_bytes(x as nat, 0) =~= Seq::<u8>::empty());
    }
}

/// The powers of 256 that the integer widths of the format use.
pub proof fn lemma_pow256_values()
    ensures
        pow(256, 1) == 0x100,
        pow(256, 2) == 0x1_0000,
        pow(256, 4) == 0x1_0000_0000,
        pow(256, 8) == 0x1_0000_0000_0000_0000,
{
    reveal_with_fuel(pow, 9);
}

/// A value below `256^n` reads back from its `n` bytes unchanged.
pub proof fn lemma_le_round_trip(v: nat, n: nat)
    requires
        v < pow(256, n),
    ensures
        le_value(le_bytes(v, n)) == v,
        le_bytes(v, n).len() == n,
{
    lemma_le_bytes_len(v, n);
    lemma_le_value_of_bytes(v, n);
    lemma_small_mod(v, pow(256, n) as nat);
}

/// Appends the bytes of `b`.
pub fn append_bytes(out: &mut Vec<u8>, b: &[u8])
    ensures
        final(out)@ == old(out)@ + b@,
{
    let mut i: usize = 0;
    while i < b.len()
        invariant
            i <= b@.len(),
            out@ =~= old(out)@ + b@.subrange(0, i as int),
        decreases b@.len() - i,
    {
        out.push(b[i]);
        i = i + 1;
    }
    proof {
        assert(b@.subrange(0, i as int) =~= b@);
    }
}

/// The byte sequences, one after the other.
pub open spec fn flatten_bytes(cs: Seq<Seq<u8>>) -> Seq<u8>
    decreases cs.len(),
{
    if cs.len() == 0 {
        Seq::empty()
    } else {
        flatten_bytes(cs.drop_last()) + cs.last()
    }
}

pub proof fn lemma_flatten_concat(a: Seq<Seq<u8>>, b: Seq<Seq<u8>>)
    ensures
        flatten_bytes(a + b) == flatten_bytes(a) + flatten_bytes(b),
    decreases b.len(),
{
    if b.len() == 0 {
        assert(a + b =~= a);
        assert(flatten_bytes(a) + flatten_bytes(b) =~= flatten_bytes(a));
    } else {
        lemma_flatten_concat(a, b.drop_last());
        assert((a + b).drop_last() =~= a + b.drop_last());
        assert((a + b).last() == b.last());
        assert(flatten_bytes(a + b) =~= flatten_bytes(a) + flatten_bytes(b));
    }
}

/// The sequences before the `k`th, the `k`th, and those after it.
pub proof fn lemma_flatten_split(cs: Seq<Seq<u8>>, k: int)
    requires
        0 <= k < cs.len(),
    ensures
        flatten_bytes(cs) == flatten_bytes(cs.take(k)) + cs[k] + flatten_bytes(cs.skip(k + 1)),
        flatten_bytes(cs.take(k + 1)) == flatten_bytes(cs.take(k)) + cs[k],
{
    assert(cs.take(k + 1).drop_last() =~= cs.take(k));
    assert(cs.take(k + 1).last() == cs[k]);
    assert(cs =~= cs.take(k + 1) + cs.skip(k + 1));
    lemma_flatten_concat(cs.take(k + 1), cs.skip(k + 1));
}

} // verus!
