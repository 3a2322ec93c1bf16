//! Little-endian integer fields inside byte sequences.
use vstd::prelude::*;

verus! {

/// `256` to the power `n`.
pub open spec fn pow256(n: nat) -> nat
    decreases n,
{
    if n == 0 {
        1
    } else {
        256 * pow256((n - 1) as nat)
    }
}

/// The `n` least significant bytes of `v`, lowest first.
pub open spec fn le_bytes(v: nat, n: nat) -> Seq<u8> {
    Seq::new(n, |i: int| ((v / pow256(i as nat)) % 256) as u8)
}

/// The number that the bytes `s` spell, lowest first.
pub open spec fn le_value(s: Seq<u8>) -> nat
    decreases s.len(),
{
    if s.len() == 0 {
        0
    } else {
        s[0] as nat + 256 * le_value(s.drop_first())
    }
}

pub proof fn lemma_pow256_positive(n: nat)
    ensures
        pow256(n) > 0,
    decreases n,
{
    if n > 0 {
        lemma_pow256_positive((n - 1) as nat);
    }
}

pub proof fn lemma_pow256_monotonic(a: nat, b: nat)
    requires
        a <= b,
    ensures
        pow256(a) <= pow256(b),
    decreases b,
{
    if a < b {
        lemma_pow256_monotonic(a, (b - 1) as nat);
        lemma_pow256_positive((b - 1) as nat);
    }
}

pub proof fn lemma_pow256_eight()
    ensures
        pow256(8) == 0x1_0000_0000_0000_0000nat,
{
    reveal_with_fuel(pow256, 9);
}

pub proof fn lemma_le_value_bound(s: Seq<u8>)
    ensures
        le_value(s) < pow256(s.len()),
    decreases s.len(),
{
    if s.len() > 0 {
        let r = s.drop_first();
        lemma_le_value_bound(r);
        let a = s[0] as nat;
        let b = le_value(r);
        let p = pow256(r.len());
        assert(a + 256 * b < 256 * p) by (nonlinear_arith)
            requires
                a < 256,
                b < p,
        ;
    }
}

/// Reading back the bytes of `v` gives `v` modulo the width.
pub proof fn lemma_le_round_trip(v: nat, n: nat)
    ensures
        le_value(le_bytes(v, n)) == v % pow256(n),
    decreases n,
{
    let s = le_bytes(v, n);
    if n == 0 {
        assert(s.len() == 0);
    } else {
        let rest = le_bytes(v / 256, (n - 1) as nat);
        assert(pow256(0) == 1);
        assert(s[0] == ((v / pow256(0)) % 256) as u8);
        assert(v / 1 == v);
        assert(s[0] == (v % 256) as u8);
        assert(pow256(n) == 256 * pow256((n - 1) as nat));
        assert forall|i: int| 0 <= i < n - 1 implies #[trigger] s.drop_first()[i] == rest[i] by {
            lemma_pow256_positive(i as nat);
            vstd::arithmetic::div_mod::lemma_div_denominator(v as int, 256, pow256(i as nat) as int);
        }
        assert(s.drop_first() =~= rest);
        lemma_le_round_trip(v / 256, (n - 1) as nat);
        lemma_pow256_positive((n - 1) as nat);
        vstd::arithmetic::div_mod::lemma_breakdown(v as int, 256, pow256((n - 1) as nat) as int);
    }
}

/// Appends the `n` lowest bytes of `v` to `out`, lowest first.
pub fn push_le(out: &mut Vec<u8>, v: u64, n: usize)
    ensures
        final(out)@ == old(out)@ + le_bytes(v as nat, n as nat),
{
    let ghost start = out@;
    proof {
        assert(pow256(0) == 1);
        assert(le_bytes(v as nat, 0) =~= Seq::<u8>::empty());
    }
    let mut x: u64 = v;
    let mut i: usize = 0;
    while i < n
        invariant
            i <= n,
            out@ == start + le_bytes(v as nat, i as nat),
            x as nat == v as nat / pow256(i as nat),
        decreases n - i,
    {
        proof {
            lemma_pow256_positive(i as nat);
            vstd::arithmetic::div_mod::lemma_div_denominator(v as int, pow256(i as nat) as int, 256);
            assert(le_bytes(v as nat, (i + 1) as nat) =~= le_bytes(v as nat, i as nat).push(
                (x % 256) as u8,
            ));
        }
        out.push((x % 256) as u8);
        x = x / 256;
        i = i + 1;
    }
}

/// Reads the `n` bytes of `s` from `at` as a number, lowest first.
pub fn read_le(s: &Vec<u8>, at: usize, n: usize) -> (r: u64)
    requires
        n <= 8,
        at + n <= s@.len(),
    ensures
        r as nat == le_value(s@.subrange(at as int, at + n)),
{
    let len = s.len();
    assert(at + n <= len);
    let end = at + n;
    let mut acc: u64 = 0;
    let mut i: usize = end;
    proof {
        assert(s@.subrange(end as int, end as int).len() == 0);
    }
    while i > at
        invariant
            at <= i <= end,
            end == at + n,
            n <= 8,
            end <= s@.len(),
            acc as nat == le_value(s@.subrange(i as int, end as int)),
        decreases i - at,
    {
        let ghost sub = s@.subrange(i - 1, end as int);
        proof {
            assert(sub.drop_first() =~= s@.subrange(i as int, end as int));
            lemma_le_value_bound(sub);
            lemma_pow256_monotonic(sub.len(), 8);
            lemma_pow256_eight();
        }
        acc = acc * 256 + s[i - 1] as u64;
        i = i - 1;
    }
    acc
}

} // verus!
