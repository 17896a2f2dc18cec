//! Little-endian integer encoding over byte sequences.
use vstd::prelude::*;

verus! {

/// `256` raised to `n`.
pub open spec fn pow256(n: nat) -> nat
    decreases n,
{
    if n == 0 {
        1
    } else {
        256 * pow256((n - 1) as nat)
    }
}

/// The unsigned value of `s`, read least significant byte first.
pub open spec fn le_value(s: Seq<u8>) -> nat
    decreases s.len(),
{
    if s.len() == 0 {
        0
    } else {
        s[0] as nat + 256 * le_value(s.drop_first())
    }
}

/// The `n` low bytes of `v`, least significant first.
pub open spec fn le_bytes(v: nat, n: nat) -> Seq<u8>
    decreases n,
{
    if n == 0 {
        Seq::empty()
    } else {
        seq![(v % 256) as u8] + le_bytes(v / 256, (n - 1) as nat)
    }
}

pub proof fn lemma_pow256_pos(n: nat)
    ensures
        pow256(n) >= 1,
    decreases n,
{
    if n > 0 {
        lemma_pow256_pos((n - 1) as nat);
    }
}

pub proof fn lemma_pow256_mono(a: nat, b: nat)
    requires
        a <= b,
    ensures
        pow256(a) <= pow256(b),
    decreases b,
{
    if a < b {
        lemma_pow256_mono(a, (b - 1) as nat);
        lemma_pow256_pos((b - 1) as nat);
    }
}

pub proof fn lemma_pow256_8()
    ensures
        pow256(8) == 0x1_0000_0000_0000_0000,
        pow256(4) == 0x1_0000_0000,
        pow256(2) == 0x1_0000,
{
    reveal_with_fuel(pow256, 9);
}

pub proof fn lemma_le_bytes_len(v: nat, n: nat)
    ensures
        le_bytes(v, n).len() == n,
    decreases n,
{
    if n > 0 {
        lemma_le_bytes_len(v / 256, (n - 1) as nat);
    }
}

pub proof fn lemma_le_value_bound(s: Seq<u8>)
    ensures
        le_value(s) < pow256(s.len()),
    decreases s.len(),
{
    if s.len() > 0 {
        let r = s.drop_first();
        lemma_le_value_bound(r);
        let a = s[0] as nat;
        let x = le_value(r);
        let p = pow256(r.len());
        assert(a + 256 * x < 256 * p) by (nonlinear_arith)
            requires
                a < 256,
                x < p,
        ;
    }
}

/// Reading back the `n` low bytes of a value that fits in them gives the value.
pub proof fn lemma_le_round_trip(v: nat, n: nat)
    requires
        v < pow256(n),
    ensures
        le_value(le_bytes(v, n)) == v,
    decreases n,
{
    if n > 0 {
        let q = v / 256;
        assert(q < pow256((n - 1) as nat)) by (nonlinear_arith)
            requires
                v < 256 * pow256((n - 1) as nat),
                q == v / 256,
        ;
        lemma_le_round_trip(q, (n - 1) as nat);
        assert(le_bytes(v, n).drop_first() =~= le_bytes(q, (n - 1) as nat));
    }
}

/// Appends the `n` low bytes of `v` to `out`, least significant first.
pub fn push_le(out: &mut Vec<u8>, v: u64, n: usize)
    ensures
        final(out)@ == old(out)@ + le_bytes(v as nat, n as nat),
{
    let mut x: u64 = v;
    let mut i: usize = 0;
    while i < n
        invariant
            i <= n,
            old(out)@ + le_bytes(v as nat, n as nat) == out@ + le_bytes(x as nat, (n - i) as nat),
        decreases n - i,
    {
        let b: u8 = (x % 256) as u8;
        let ghost before = out@;
        let ghost rest = le_bytes((x / 256) as nat, (n - i - 1) as nat);
        assert(le_bytes(x as nat, (n - i) as nat) == seq![b] + rest);
        out.push(b);
        assert(before + (seq![b] + rest) =~= out@ + rest);
        x = x / 256;
        i = i + 1;
    }
    assert(le_bytes(x as nat, 0) =~= Seq::<u8>::empty());
    assert(out@ + Seq::<u8>::empty() =~= out@);
}

/// Reads the `n`-byte little-endian value that starts at `pos`.
pub fn read_le(buf: &[u8], pos: usize, n: usize) -> (r: u64)
    requires
        n <= 8,
        pos + n <= buf.len(),
    ensures
        r as nat == le_value(buf@.subrange(pos as int, pos + n)),
{
    let mut r: u64 = 0;
    let mut i: usize = n;
    while i > 0
        invariant
            i <= n <= 8,
            pos + n <= buf.len(),
            r as nat == le_value(buf@.subrange(pos + i, pos + n)),
        decreases i,
    {
        i = i - 1;
        let ghost s = buf@.subrange(pos + i, pos + n);
        assert(s.drop_first() =~= buf@.subrange(pos + i + 1, pos + n));
        let b: u8 = buf[pos + i];
        proof {
            let t = s.drop_first();
            lemma_le_value_bound(t);
            lemma_pow256_mono(t.len(), 7);
            reveal_with_fuel(pow256, 8);
            assert(r as nat * 256 + b as nat <= 0xffff_ffff_ffff_ffff) by (nonlinear_arith)
                requires
                    r < 0x100_0000_0000_0000nat,
                    b < 256,
            ;
        }
        r = r * 256 + b as u64;
    }
    r
}

} // verus!
