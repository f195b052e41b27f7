use vstd::prelude::*;

verus! {

/// The number that a little-endian sequence of bytes denotes.
pub open spec fn le_value(s: Seq<u8>) -> nat
    decreases s.len(),
{
    if s.len() == 0 {
        0
    } else {
        s[0] as nat + 256 * le_value(s.drop_first())
    }
}

/// The `n` least significant bytes of `v`, least significant first.
pub open spec fn le_bytes(v: nat, n: nat) -> Seq<u8>
    decreases n,
{
    if n == 0 {
        Seq::empty()
    } else {
        seq![(v % 256) as u8] + le_bytes(v / 256, (n - 1) as nat)
    }
}

pub open spec fn pow256(n: nat) -> nat
    decreases n,
{
    if n == 0 {
        1
    } else {
        256 * pow256((n - 1) as nat)
    }
}

pub proof fn lemma_le_bytes_len(v: nat, n: nat)
    ensures
        le_bytes(v, n).len() == n,
    decreases n,
{
    if n > 0 {
        lemma_le_bytes_len(v / 256, (n - 1) as nat);
    }
}

/// Reading back the bytes of a number that fits in them gives the number.
pub proof fn lemma_le_round_trip(v: nat, n: nat)
    requires
        v < pow256(n),
    ensures
        le_value(le_bytes(v, n)) == v,
        le_bytes(v, n).len() == n,
    decreases n,
{
    lemma_le_bytes_len(v, n);
    if n > 0 {
        let rest = le_bytes(v / 256, (n - 1) as nat);
        assert(v / 256 < pow256((n - 1) as nat)) by (nonlinear_arith)
            requires
                v < 256 * pow256((n - 1) as nat),
        ;
        lemma_le_round_trip(v / 256, (n - 1) as nat);
        let s = le_bytes(v, n);
        assert(s.drop_first() =~= rest);
        assert(v == v % 256 + 256 * (v / 256)) by (nonlinear_arith);
    }
}

/// The eight little-endian bytes of `v`.
pub fn u64_to_le(v: u64) -> (r: Vec<u8>)
    ensures
        r@ == le_bytes(v as nat, 8),
        r@.len() == 8,
{
    let mut r: Vec<u8> = Vec::new();
    let mut rest: u64 = v;
    let mut i: usize = 0;
    while i < 8
        invariant
            i <= 8,
            r@ + le_bytes(rest as nat, (8 - i) as nat) == le_bytes(v as nat, 8),
        decreases 8 - i,
    {
        let ghost before = r@;
        let ghost tail = le_bytes(rest as nat, (8 - i) as nat);
        assert(tail == seq![(rest as nat % 256) as u8] + le_bytes(rest as nat / 256, (8 - i - 1) as nat));
        r.push((rest % 256) as u8);
        rest = rest / 256;
        assert(r@ + le_bytes(rest as nat, (8 - i - 1) as nat) =~= before + tail);
        i = i + 1;
    }
    proof {
        assert(r@ + le_bytes(rest as nat, 0) =~= r@);
        lemma_le_bytes_len(v as nat, 8);
    }
    r
}

proof fn lemma_le_value_bound(s: Seq<u8>)
    ensures
        le_value(s) < pow256(s.len()),
    decreases s.len(),
{
    if s.len() > 0 {
        lemma_le_value_bound(s.drop_first());
        let a = s[0] as nat;
        let b = le_value(s.drop_first());
        let p = pow256((s.len() - 1) as nat);
        assert(a + 256 * b < 256 * p) by (nonlinear_arith)
            requires
                a < 256,
                b < p,
        ;
    }
}

proof fn lemma_pow256_8()
    ensures
        pow256(8) == 0x1_0000_0000_0000_0000,
{
    reveal_with_fuel(pow256, 9);
}

/// The number that the eight bytes of `b` from `start` on denote, least
/// significant first.
pub fn u64_from_le(b: &[u8], start: usize) -> (r: u64)
    requires
        start + 8 <= b@.len(),
    ensures
        r as nat == le_value(b@.subrange(start as int, start + 8)),
{
    let ghost s = b@.subrange(start as int, start + 8);
    let mut acc: u64 = 0;
    let mut i: usize = 8;
    let n = b.len();
    proof {
        lemma_le_value_bound(s);
        lemma_pow256_8();
    }
    while i > 0
        invariant
            i <= 8,
            start + 8 <= b@.len(),
            n == b@.len(),
            s == b@.subrange(start as int, start + 8),
            acc as nat == le_value(s.subrange(i as int, 8)),
            acc < pow256((8 - i) as nat),
            pow256(8) == 0x1_0000_0000_0000_0000,
        decreases i,
    {
        let ghost old_acc = acc;
        i = i - 1;
        let byte = b[start + i];
        assert(s.subrange(i as int, 8).drop_first() =~= s.subrange(i + 1, 8));
        assert(s.subrange(i as int, 8)[0] == byte);
        proof {
            let p = pow256((8 - i - 1) as nat);
            assert(pow256((8 - i) as nat) == 256 * p);
            assert(p <= pow256(7)) by {
                lemma_pow256_mono((8 - i - 1) as nat, 7);
            }
            assert(pow256(7) == 0x100_0000_0000_0000) by {
                reveal_with_fuel(pow256, 8);
            }
            assert(byte as nat + 256 * (old_acc as nat) < 256 * p) by (nonlinear_arith)
                requires
                    old_acc < p,
                    byte < 256,
            ;
        }
        acc = byte as u64 + 256 * acc;
    }
    assert(s.subrange(0, 8) =~= s);
    acc
}

proof fn lemma_pow256_mono(a: nat, b: nat)
    requires
        a <= b,
    ensures
        pow256(a) <= pow256(b),
    decreases b - a,
{
    if a < b {
        lemma_pow256_mono(a, (b - 1) as nat);
        assert(pow256(b) == 256 * pow256((b - 1) as nat));
    }
}

} // verus!
