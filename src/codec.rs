//! The Reed-Solomon engine and the checksums, behind contracts.
use std::collections::BTreeMap;
use vstd::prelude::*;

verus! {

/// `n.next_power_of_two()`: the smallest power of two that is at least `n`.
pub open spec fn next_pow2(n: nat) -> nat
    decreases n,
{
    if n <= 1 {
        1
    } else {
        2 * next_pow2(((n + 1) / 2) as nat)
    }
}

/// Whether the engine codes `k` original shards into `m` recovery shards.
pub open spec fn counts_supported(k: nat, m: nat) -> bool {
    let pk = next_pow2(k);
    let pm = next_pow2(m);
    let smaller = if pk < pm { pk } else { pm };
    let larger = if k < m { m } else { k };
    &&& 0 < k <= 65536
    &&& 0 < m <= 65536
    &&& smaller + larger <= 65536
}

/// The byte sequences held in a sequence of vectors.
pub open spec fn views(v: Seq<Vec<u8>>) -> Seq<Seq<u8>> {
    Seq::new(v.len(), |i: int| v[i]@)
}

/// Shards that the engine accepts: `k` of one even, non-zero length.
pub open spec fn shards_fit(k: nat, m: nat, d: Seq<Seq<u8>>) -> bool {
    &&& counts_supported(k, m)
    &&& d.len() == k
    &&& d[0].len() > 0
    &&& d[0].len() % 2 == 0
    &&& forall|j: int| 0 <= j < k ==> #[trigger] d[j].len() == d[0].len()
}

/// The recovery shards that the engine computes from the original shards `d`.
pub uninterp spec fn recovery_of(k: nat, m: nat, d: Seq<Seq<u8>>) -> Seq<Seq<u8>>;

/// The `m` recovery shards of `d`, each as long as the original shards.
pub open spec fn recovery_shards(k: nat, m: nat, d: Seq<Seq<u8>>) -> Seq<Seq<u8>> {
    Seq::new(m, |i: int| Seq::new(d[0].len(), |t: int| recovery_of(k, m, d)[i][t]))
}

/// Whether the indexed shards are distinct shards of the encoding of `d`,
/// originals in `o` and recovery shards in `rc`, at least `k` of them.
pub open spec fn shards_drawn(
    k: nat,
    m: nat,
    d: Seq<Seq<u8>>,
    o: Seq<(usize, Vec<u8>)>,
    rc: Seq<(usize, Vec<u8>)>,
) -> bool {
    &&& o.len() + rc.len() >= k
    &&& forall|i: int| 0 <= i < o.len() ==> #[trigger] o[i].0 < k && o[i].1@ == d[o[i].0 as int]
    &&& forall|i: int|
        0 <= i < rc.len() ==> #[trigger] rc[i].0 < m && rc[i].1@ == recovery_shards(
            k,
            m,
            d,
        )[rc[i].0 as int]
    &&& forall|a: int, b: int| 0 <= a < b < o.len() ==> o[a].0 != o[b].0
    &&& forall|a: int, b: int| 0 <= a < b < rc.len() ==> rc[a].0 != rc[b].0
}

/// Whether original shard `j` is among `o`.
pub open spec fn has_index(o: Seq<(usize, Vec<u8>)>, j: int) -> bool {
    exists|i: int| 0 <= i < o.len() && #[trigger] o[i].0 == j
}

/// Relies on `reed_solomon_simd::ReedSolomonEncoder::supports`: whether the
/// engine codes `k` original shards into `m` recovery shards.
#[verifier::external_body]
pub(crate) fn codec_supports(k: usize, m: usize) -> (r: bool)
    ensures
        r == counts_supported(k as nat, m as nat),
{
    reed_solomon_simd::ReedSolomonEncoder::supports(k, m)
}

/// Relies on `reed_solomon_simd::encode`: the `m` recovery shards, each as long
/// as the originals, of `k` original shards of one even, non-zero length.
/// The engine's error is dropped: `None` stands for any failure.
#[verifier::external_body]
pub(crate) fn codec_encode(k: usize, m: usize, originals: &Vec<Vec<u8>>) -> (r: Option<
    Vec<Vec<u8>>,
>)
    ensures
        shards_fit(k as nat, m as nat, views(originals@)) ==> r is Some,
        r is Some ==> views(r->Some_0@) == Seq::new(
            m as nat,
            |i: int|
                Seq::new(
                    views(originals@)[0].len(),
                    |t: int| recovery_of(k as nat, m as nat, views(originals@))[i][t],
                ),
        ),
{
    reed_solomon_simd::encode(k, m, originals).ok()
}

/// Relies on `reed_solomon_simd::decode`: from at least `k` distinct shards of
/// one encoding it restores each original shard that was not given; from fewer
/// than `k` shards it fails. Shard indices must be in range: the engine adds an
/// index to a base position before it checks it. The engine's error is
/// dropped: `None` stands for any failure.
#[verifier::external_body]
pub(crate) fn codec_decode(
    k: usize,
    m: usize,
    originals: Vec<(usize, Vec<u8>)>,
    recovery: Vec<(usize, Vec<u8>)>,
) -> (r: Option<BTreeMap<usize, Vec<u8>>>)
    requires
        forall|i: int| 0 <= i < originals@.len() ==> (#[trigger] originals@[i]).0 < k,
        forall|i: int| 0 <= i < recovery@.len() ==> (#[trigger] recovery@[i]).0 < m,
    ensures
        originals@.len() + recovery@.len() < k ==> r is None,
        forall|d: Seq<Seq<u8>>|
            #![trigger shards_fit(k as nat, m as nat, d)]
            shards_fit(k as nat, m as nat, d) && shards_drawn(
                k as nat,
                m as nat,
                d,
                originals@,
                recovery@,
            ) ==> {
                &&& r is Some
                &&& forall|j: int|
                    0 <= j < k && !has_index(originals@, j) ==> {
                        &&& #[trigger] r->Some_0@.contains_key(j as usize)
                        &&& r->Some_0@[j as usize]@ == d[j]
                    }
            },
{
    reed_solomon_simd::decode(k, m, originals, recovery).ok()
}

/// The CRC-32 checksum of the bytes.
pub uninterp spec fn crc32_of(b: Seq<u8>) -> u32;

/// Relies on `crc32fast::hash`: the CRC-32 checksum of the bytes.
#[verifier::external_body]
pub(crate) fn crc32(b: &Vec<u8>) -> (r: u32)
    ensures
        r == crc32_of(b@),
{
    crc32fast::hash(b)
}

/// The MD5 digest of the bytes.
pub uninterp spec fn md5_of(b: Seq<u8>) -> Seq<u8>;

/// Relies on `md5::compute`: the 16-byte MD5 digest of the bytes.
#[verifier::external_body]
pub(crate) fn md5_digest(b: &Vec<u8>) -> (r: [u8; 16])
    ensures
        r@ == md5_of(b@),
{
    md5::compute(b).0
}

} // verus!
