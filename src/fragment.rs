//! The layout of a fragment: a fixed header followed by the payload.
//!
//! The header holds the fragment's index (8 bytes), the length of the encoded
//! buffer (8 bytes), the backend tag, the checksum tag and a 16-byte checksum
//! field; integers are little-endian.
use crate::bytes::{le_bytes, le_value, lemma_le_round_trip, lemma_pow256_eight, push_le, read_le};
use crate::codec::{crc32, crc32_of, md5_digest, md5_of, recovery_shards};
use crate::config::{backend_tag, checksum_tag, Backend, Checksum};
use vstd::prelude::*;

verus! {

/// The length of a fragment header.
pub const HEADER_LEN: usize = 34;

/// `n` zero bytes.
pub open spec fn zeros(n: nat) -> Seq<u8> {
    Seq::new(n, |i: int| 0u8)
}

/// The 16-byte checksum field for payload `p`.
pub open spec fn checksum_field(c: Checksum, p: Seq<u8>) -> Seq<u8> {
    match c {
        Checksum::NoChecksum => zeros(16),
        Checksum::Crc32 => le_bytes(crc32_of(p) as nat, 4) + zeros(12),
        Checksum::Md5 => Seq::new(16, |i: int| md5_of(p)[i]),
    }
}

/// The header of fragment `index` of a buffer of `size` bytes, with payload `p`.
pub open spec fn header(index: nat, size: nat, b: Backend, c: Checksum, p: Seq<u8>) -> Seq<u8> {
    le_bytes(index, 8) + le_bytes(size, 8) + seq![backend_tag(b), checksum_tag(c)]
        + checksum_field(c, p)
}

/// Fragment `index` of a buffer of `size` bytes, with payload `p`.
pub open spec fn fragment(index: nat, size: nat, b: Backend, c: Checksum, p: Seq<u8>) -> Seq<u8> {
    header(index, size, b, c, p) + p
}

/// The index written in a fragment's header.
pub open spec fn index_field(f: Seq<u8>) -> nat {
    le_value(f.subrange(0, 8))
}

/// The buffer length written in a fragment's header.
pub open spec fn size_field(f: Seq<u8>) -> nat {
    le_value(f.subrange(8, 16))
}

/// The payload of a fragment.
pub open spec fn payload(f: Seq<u8>) -> Seq<u8> {
    f.subrange(HEADER_LEN as int, f.len() as int)
}

/// The payload length for a buffer of `n` bytes split `k` ways: `n / k` rounded
/// up, then up to an even number, and at least 2.
pub open spec fn payload_len(k: nat, n: nat) -> nat {
    let c = n / k + if n % k == 0 { 0nat } else { 1nat };
    if c == 0 {
        2
    } else if c % 2 == 0 {
        c
    } else {
        c + 1
    }
}

/// Whether fragments for a buffer of `n` bytes split `k` ways can be held.
pub open spec fn sizes_fit(k: nat, n: nat) -> bool {
    &&& k * payload_len(k, n) <= usize::MAX
    &&& payload_len(k, n) + HEADER_LEN <= usize::MAX
}

/// The `k` data payloads of buffer `b`: consecutive slices, the last padded with zeros.
pub open spec fn data_payloads(b: Seq<u8>, k: nat) -> Seq<Seq<u8>> {
    let p = payload_len(k, b.len());
    Seq::new(
        k,
        |j: int| Seq::new(p, |t: int| if j * p + t < b.len() { b[j * p + t] } else { 0u8 }),
    )
}

/// The `k + m` payloads of buffer `b`: data first, then parity.
pub open spec fn payloads(k: nat, m: nat, b: Seq<u8>) -> Seq<Seq<u8>> {
    let d = data_payloads(b, k);
    d + recovery_shards(k, m, d)
}

/// The `k + m` fragments that encoding buffer `b` gives.
pub open spec fn encoding(k: nat, m: nat, bk: Backend, cs: Checksum, b: Seq<u8>) -> Seq<Seq<u8>> {
    Seq::new(k + m, |i: int| fragment(i as nat, b.len(), bk, cs, payloads(k, m, b)[i]))
}

/// The first `n` bytes of the payloads `d`, each `p` bytes long, laid end to end.
pub open spec fn assembled(d: Seq<Seq<u8>>, p: nat, n: nat) -> Seq<u8> {
    Seq::new(n, |t: int| d[t / p as int][t % p as int])
}

/// What the header of a fragment holds, read back.
pub proof fn lemma_fragment_fields(index: nat, size: nat, b: Backend, c: Checksum, p: Seq<u8>)
    requires
        index <= usize::MAX,
        size <= usize::MAX,
    ensures
        fragment(index, size, b, c, p).len() == HEADER_LEN + p.len(),
        index_field(fragment(index, size, b, c, p)) == index,
        size_field(fragment(index, size, b, c, p)) == size,
        payload(fragment(index, size, b, c, p)) == p,
{
    let f = fragment(index, size, b, c, p);
    let h = header(index, size, b, c, p);
    assert(checksum_field(c, p).len() == 16);
    assert(h.len() == HEADER_LEN);
    assert(f.subrange(0, 8) =~= le_bytes(index, 8));
    assert(f.subrange(8, 16) =~= le_bytes(size, 8));
    assert(payload(f) =~= p);
    lemma_le_round_trip(index, 8);
    lemma_le_round_trip(size, 8);
    lemma_pow256_eight();
    vstd::arithmetic::div_mod::lemma_small_mod(index, 0x1_0000_0000_0000_0000nat);
    vstd::arithmetic::div_mod::lemma_small_mod(size, 0x1_0000_0000_0000_0000nat);
}

/// Laying the data payloads of `b` end to end gives `b` back.
pub proof fn lemma_assembled_data(b: Seq<u8>, k: nat)
    requires
        k > 0,
    ensures
        assembled(data_payloads(b, k), payload_len(k, b.len()), b.len()) == b,
{
    let p = payload_len(k, b.len());
    let n = b.len();
    let d = data_payloads(b, k);
    lemma_payloads_cover(k, n);
    assert forall|t: int| 0 <= t < n implies #[trigger] assembled(d, p, n)[t] == b[t] by {
        let j = t / p as int;
        let r = t % p as int;
        vstd::arithmetic::div_mod::lemma_fundamental_div_mod(t, p as int);
        vstd::arithmetic::div_mod::lemma_mod_bound(t, p as int);
        vstd::arithmetic::div_mod::lemma_div_pos_is_pos(t, p as int);
        assert(j < k) by (nonlinear_arith)
            requires
                t < n,
                n <= k * p,
                t == p * j + r,
                0 <= r,
                p > 0,
        ;
        assert(j * p + r == t) by (nonlinear_arith)
            requires
                t == p * j + r,
        ;
    }
    assert(assembled(d, p, n) =~= b);
}

/// The payloads of `k` shares hold at least `n` bytes.
pub proof fn lemma_payloads_cover(k: nat, n: nat)
    requires
        k > 0,
    ensures
        n <= k * payload_len(k, n),
        payload_len(k, n) > 0,
        payload_len(k, n) % 2 == 0,
{
    let q = n / k;
    let c = q + if n % k == 0 { 0nat } else { 1nat };
    vstd::arithmetic::div_mod::lemma_fundamental_div_mod(n as int, k as int);
    vstd::arithmetic::div_mod::lemma_mod_bound(n as int, k as int);
    assert(k * (q + 1) == k * q + k) by (nonlinear_arith);
    assert(n <= k * c);
    let p = payload_len(k, n);
    assert(p == if c == 0 {
        2
    } else if c % 2 == 0 {
        c
    } else {
        c + 1
    });
    assert(c <= p);
    assert(k * c <= k * p) by (nonlinear_arith)
        requires
            c <= p,
    ;
}

/// The payload length for a buffer of `n` bytes split `k` ways, or `None`
/// where the fragments could not be held.
pub fn payload_size(k: usize, n: usize) -> (r: Option<usize>)
    requires
        k > 0,
    ensures
        r is Some <==> payload_len(k as nat, n as nat) + HEADER_LEN <= usize::MAX,
        r is Some ==> r->Some_0 == payload_len(k as nat, n as nat),
{
    let q = n / k;
    let rem = n % k;
    proof {
        if rem != 0 {
            assert(k >= 2);
            vstd::arithmetic::div_mod::lemma_div_is_ordered_by_denominator(n as int, 2, k as int);
        }
    }
    let c: usize = if rem == 0 {
        q
    } else {
        q + 1
    };
    let p: usize;
    if c == 0 {
        p = 2;
    } else if c % 2 == 0 {
        p = c;
    } else if c < usize::MAX {
        p = c + 1;
    } else {
        return None;
    }
    if p > usize::MAX - HEADER_LEN {
        return None;
    }
    Some(p)
}

/// Splits `data` into `k` payloads of `p` bytes, padding the last with zeros.
pub fn split_data(data: &[u8], k: usize, p: usize) -> (r: Vec<Vec<u8>>)
    requires
        k > 0,
        p == payload_len(k as nat, data@.len()),
        k * p <= usize::MAX,
    ensures
        r@.len() == k,
        forall|j: int| 0 <= j < k ==> (#[trigger] r@[j])@ == data_payloads(data@, k as nat)[j],
{
    let n = data.len();
    let ghost d = data_payloads(data@, k as nat);
    let mut out: Vec<Vec<u8>> = Vec::new();
    let mut j: usize = 0;
    while j < k
        invariant
            j <= k,
            n == data@.len(),
            p == payload_len(k as nat, n as nat),
            k * p <= usize::MAX,
            d == data_payloads(data@, k as nat),
            out@.len() == j,
            forall|a: int| 0 <= a < j ==> (#[trigger] out@[a])@ == d[a],
        decreases k - j,
    {
        assert((j + 1) * p <= k * p) by (nonlinear_arith)
            requires
                j < k,
        ;
        assert(j * p + p == (j + 1) * p) by (nonlinear_arith);
        let base = j * p;
        let mut shard: Vec<u8> = Vec::new();
        let mut t: usize = 0;
        while t < p
            invariant
                t <= p,
                j < k,
                base == j * p,
                base + p <= usize::MAX,
                n == data@.len(),
                p == payload_len(k as nat, n as nat),
                d == data_payloads(data@, k as nat),
                shard@.len() == t,
                forall|u: int| 0 <= u < t ==> #[trigger] shard@[u] == d[j as int][u],
            decreases p - t,
        {
            let at = base + t;
            if at < n {
                shard.push(data[at]);
            } else {
                shard.push(0u8);
            }
            t = t + 1;
        }
        assert(shard@ =~= d[j as int]);
        out.push(shard);
        j = j + 1;
    }
    out
}

/// Fragment `index` of a buffer of `size` bytes, with the given payload.
pub fn build_fragment(index: usize, size: usize, b: Backend, c: Checksum, p: &Vec<u8>) -> (r: Vec<
    u8,
>)
    ensures
        r@ == fragment(index as nat, size as nat, b, c, p@),
{
    let mut out: Vec<u8> = Vec::new();
    push_le(&mut out, index as u64, 8);
    push_le(&mut out, size as u64, 8);
    out.push(b.tag());
    out.push(c.tag());
    let ghost before = out@;
    match c {
        Checksum::NoChecksum => {
            push_le(&mut out, 0, 16);
            proof {
                assert forall|i: int| 0 <= i < 16 implies #[trigger] le_bytes(0, 16)[i] == 0u8 by {
                    crate::bytes::lemma_pow256_positive(i as nat);
                }
                assert(le_bytes(0, 16) =~= zeros(16));
            }
        },
        Checksum::Crc32 => {
            let sum = crc32(p);
            push_le(&mut out, sum as u64, 4);
            push_le(&mut out, 0, 12);
            proof {
                assert forall|i: int| 0 <= i < 12 implies #[trigger] le_bytes(0, 12)[i] == 0u8 by {
                    crate::bytes::lemma_pow256_positive(i as nat);
                }
                assert(le_bytes(0, 12) =~= zeros(12));
            }
        },
        Checksum::Md5 => {
            let digest = md5_digest(p);
            let mut i: usize = 0;
            while i < 16
                invariant
                    i <= 16,
                    digest@ == md5_of(p@),
                    out@ == before + digest@.subrange(0, i as int),
                decreases 16 - i,
            {
                out.push(digest[i]);
                i = i + 1;
                assert(out@ =~= before + digest@.subrange(0, i as int));
            }
            assert(digest@.subrange(0, 16) =~= Seq::new(16, |i: int| md5_of(p@)[i]));
        },
    }
    let ghost head = out@;
    assert(head =~= header(index as nat, size as nat, b, c, p@));
    let mut i: usize = 0;
    while i < p.len()
        invariant
            i <= p@.len(),
            out@ == head + p@.subrange(0, i as int),
        decreases p@.len() - i,
    {
        out.push(p[i]);
        i = i + 1;
        assert(out@ =~= head + p@.subrange(0, i as int));
    }
    assert(p@.subrange(0, p@.len() as int) =~= p@);
    out
}

/// The payload of a fragment.
pub fn payload_of(f: &Vec<u8>) -> (r: Vec<u8>)
    requires
        f@.len() >= HEADER_LEN,
    ensures
        r@ == payload(f@),
{
    let mut out: Vec<u8> = Vec::new();
    let mut i: usize = HEADER_LEN;
    while i < f.len()
        invariant
            HEADER_LEN <= i <= f@.len(),
            out@ == f@.subrange(HEADER_LEN as int, i as int),
        decreases f@.len() - i,
    {
        out.push(f[i]);
        i = i + 1;
        assert(out@ =~= f@.subrange(HEADER_LEN as int, i as int));
    }
    out
}

/// The index written in a fragment's header.
pub fn read_index(f: &Vec<u8>) -> (r: u64)
    requires
        f@.len() >= HEADER_LEN,
    ensures
        r as nat == index_field(f@),
{
    read_le(f, 0, 8)
}

/// The buffer length written in a fragment's header.
pub fn read_size(f: &Vec<u8>) -> (r: u64)
    requires
        f@.len() >= HEADER_LEN,
    ensures
        r as nat == size_field(f@),
{
    read_le(f, 8, 8)
}

/// The first `n` bytes of the payloads `d`, each `p` bytes long, laid end to end.
pub fn assemble(d: &Vec<Vec<u8>>, p: usize, n: usize) -> (r: Vec<u8>)
    requires
        p > 0,
        n <= d@.len() * p,
        forall|j: int| 0 <= j < d@.len() ==> (#[trigger] d@[j])@.len() == p,
    ensures
        r@ == assembled(crate::codec::views(d@), p as nat, n as nat),
{
    let ghost dv = crate::codec::views(d@);
    let mut out: Vec<u8> = Vec::new();
    let mut t: usize = 0;
    while t < n
        invariant
            t <= n,
            p > 0,
            n <= d@.len() * p,
            dv == crate::codec::views(d@),
            forall|j: int| 0 <= j < d@.len() ==> (#[trigger] d@[j])@.len() == p,
            out@ == assembled(dv, p as nat, n as nat).subrange(0, t as int),
        decreases n - t,
    {
        let j = t / p;
        let r = t % p;
        assert(j < d@.len()) by (nonlinear_arith)
            requires
                t < n,
                n <= d@.len() * p,
                p > 0,
                j == t / p,
        ;
        out.push(d[j][r]);
        t = t + 1;
        assert(out@ =~= assembled(dv, p as nat, n as nat).subrange(0, t as int));
    }
    assert(out@ =~= assembled(dv, p as nat, n as nat));
    out
}

} // verus!
