//! Coder configuration and the erasure coder itself.
use crate::codec::{
    codec_decode, codec_encode, codec_supports, counts_supported, has_index, recovery_shards,
    shards_drawn, shards_fit, views,
};
use crate::config::{Backend, Checksum};
use crate::fragment::{
    assemble, build_fragment, data_payloads, encoding, fragment, index_field,
    lemma_assembled_data, lemma_fragment_fields, lemma_payloads_cover, payload, payload_len,
    payload_of, payload_size, payloads, read_index, read_size, size_field, sizes_fit, split_data,
    HEADER_LEN,
};
use crate::result::{Error, Result};
use vstd::prelude::*;

verus! {

broadcast use vstd::std_specs::btree::group_btree_axioms, vstd::laws_cmp::group_laws_cmp;

/// Whether the fragments `fs` are the fragments of `enc` at the distinct
/// positions `idx`.
pub open spec fn drawn_from(fs: Seq<Seq<u8>>, enc: Seq<Seq<u8>>, idx: Seq<int>) -> bool {
    &&& idx.len() == fs.len()
    &&& forall|i: int| 0 <= i < fs.len() ==> 0 <= #[trigger] idx[i] < enc.len() && fs[i] == enc[idx[i]]
    &&& forall|a: int, c: int| 0 <= a < c < fs.len() ==> idx[a] != idx[c]
}

/// Fragments taken from an encoding at distinct positions are drawn from it:
/// with the exact result of `encode` and the contract of `decode`, any `k` or
/// more distinct fragments of an encoding of `b` decode to `b`, and with the
/// contract of `reconstruct` they rebuild each fragment of that encoding.
pub proof fn lemma_subset_drawn(enc: Seq<Seq<u8>>, idx: Seq<int>)
    requires
        forall|i: int| 0 <= i < idx.len() ==> 0 <= #[trigger] idx[i] < enc.len(),
        forall|a: int, c: int| 0 <= a < c < idx.len() ==> idx[a] != idx[c],
    ensures
        drawn_from(Seq::new(idx.len(), |i: int| enc[idx[i]]), enc, idx),
{
}

/// Whether fragment `f` has the length `flen`, an index below `total` and the
/// buffer length `size` in its header.
pub open spec fn fragment_ok(f: Seq<u8>, flen: nat, total: nat, size: nat) -> bool {
    &&& f.len() == flen
    &&& index_field(f) < total
    &&& size_field(f) == size
}

/// Whether the headers of `fs` agree with each other and with a coder of `k`
/// data and `m` parity fragments.
pub open spec fn headers_consistent(k: nat, m: nat, fs: Seq<Seq<u8>>) -> bool {
    &&& fs.len() > 0
    &&& fs[0].len() >= HEADER_LEN
    &&& size_field(fs[0]) <= usize::MAX
    &&& fs[0].len() == HEADER_LEN + payload_len(k, size_field(fs[0]))
    &&& forall|a: int|
        0 <= a < fs.len() ==> #[trigger] fragment_ok(
            fs[a],
            fs[0].len(),
            k + m,
            size_field(fs[0]),
        )
}

/// Whether some fragment of `fs` among the first `n` has index `j` and payload `v`.
pub open spec fn entry_from(fs: Seq<Seq<u8>>, n: int, j: int, v: Seq<u8>) -> bool {
    exists|a: int| 0 <= a < n && #[trigger] index_field(fs[a]) == j && payload(fs[a]) == v
}

/// The indices written in the headers of `fs`.
pub open spec fn header_indices(fs: Seq<Seq<u8>>) -> Set<nat> {
    Set::new(|j: nat| exists|a: int| 0 <= a < fs.len() && #[trigger] index_field(fs[a]) == j)
}

/// Whether the indices in the headers of `fs` are distinct.
pub open spec fn indices_distinct(fs: Seq<Seq<u8>>) -> bool {
    forall|a: int, c: int|
        0 <= a < c < fs.len() ==> #[trigger] index_field(fs[a]) != #[trigger] index_field(fs[c])
}

/// What the data payloads `d` must satisfy to be the ones that gathered
/// fragments come from.
spec fn restore_premise(k: nat, m: nat, d: Seq<Seq<u8>>, g: Gathered) -> bool {
    &&& shards_fit(k, m, d)
    &&& shards_drawn(k, m, d, g.originals@, g.recovery@)
    &&& g.p == d[0].len()
    &&& forall|j: int|
        0 <= j < k && (#[trigger] g.slots@[j]) is Some ==> g.slots@[j]->Some_0@ == d[j]
}

/// What a fragment drawn from an encoding of `b` holds.
proof fn lemma_drawn(
    k: nat,
    m: nat,
    bk: Backend,
    cs: Checksum,
    b: Seq<u8>,
    idx: Seq<int>,
    fv: Seq<Seq<u8>>,
    a: int,
)
    requires
        k >= 1,
        k + m <= usize::MAX,
        b.len() <= usize::MAX,
        drawn_from(fv, encoding(k, m, bk, cs, b), idx),
        0 <= a < fv.len(),
    ensures
        fv[a].len() == HEADER_LEN + payload_len(k, b.len()),
        index_field(fv[a]) == idx[a],
        size_field(fv[a]) == b.len(),
        payload(fv[a]) == payloads(k, m, b)[idx[a]],
        0 <= idx[a] < k + m,
{
    let j = idx[a];
    let pl = payloads(k, m, b)[j];
    let d = data_payloads(b, k);
    assert(fv[a] == fragment(j as nat, b.len(), bk, cs, pl));
    lemma_fragment_fields(j as nat, b.len(), bk, cs, pl);
    if j < k {
        assert(pl == d[j]);
    } else {
        assert(pl == recovery_shards(k, m, d)[j - k]);
        assert(d[0].len() == payload_len(k, b.len()));
    }
}

/// A payload that a fragment drawn from an encoding of `b` carries for index
/// `j` is payload `j` of that encoding.
proof fn lemma_entry(
    k: nat,
    m: nat,
    bk: Backend,
    cs: Checksum,
    b: Seq<u8>,
    idx: Seq<int>,
    fv: Seq<Seq<u8>>,
    j: int,
    v: Seq<u8>,
)
    requires
        k >= 1,
        k + m <= usize::MAX,
        b.len() <= usize::MAX,
        drawn_from(fv, encoding(k, m, bk, cs, b), idx),
        entry_from(fv, fv.len() as int, j, v),
    ensures
        0 <= j < k + m,
        v == payloads(k, m, b)[j],
{
    let a = choose|a: int| 0 <= a < fv.len() && #[trigger] index_field(fv[a]) == j && payload(fv[a]) == v;
    lemma_drawn(k, m, bk, cs, b, idx, fv, a);
}

/// [`ErasureCoder`] builder.
#[derive(Debug, Clone, Copy)]
pub struct Builder {
    data_fragments: usize,
    parity_fragments: usize,
    backend: Backend,
    checksum: Checksum,
}

impl Builder {
    /// The number of data fragments.
    pub closed spec fn spec_data_fragments(&self) -> nat {
        self.data_fragments as nat
    }

    /// The number of parity fragments.
    pub closed spec fn spec_parity_fragments(&self) -> nat {
        self.parity_fragments as nat
    }

    /// The backend chosen.
    pub closed spec fn spec_backend(&self) -> Backend {
        self.backend
    }

    /// The checksum algorithm chosen.
    pub closed spec fn spec_checksum(&self) -> Checksum {
        self.checksum
    }

    /// Makes a new `Builder` with the default backend and checksum, for
    /// `data_fragments` data and `parity_fragments` parity fragments.
    pub fn new(data_fragments: usize, parity_fragments: usize) -> (r: Self)
        requires
            data_fragments >= 1,
            parity_fragments >= 1,
        ensures
            r.spec_data_fragments() == data_fragments,
            r.spec_parity_fragments() == parity_fragments,
            r.spec_backend() == Backend::JerasureRsCauchy,
            r.spec_checksum() == Checksum::NoChecksum,
    {
        Builder {
            data_fragments,
            parity_fragments,
            backend: Backend::JerasureRsCauchy,
            checksum: Checksum::NoChecksum,
        }
    }

    /// Sets the backend of the resulting coder.
    pub fn backend(&mut self, backend: Backend) -> (r: &mut Self)
        ensures
            r.spec_data_fragments() == old(self).spec_data_fragments(),
            r.spec_parity_fragments() == old(self).spec_parity_fragments(),
            r.spec_backend() == backend,
            r.spec_checksum() == old(self).spec_checksum(),
            *final(self) == *final(r),
    {
        self.backend = backend;
        self
    }

    /// Sets the checksum algorithm of the resulting coder.
    pub fn checksum(&mut self, checksum: Checksum) -> (r: &mut Self)
        ensures
            r.spec_data_fragments() == old(self).spec_data_fragments(),
            r.spec_parity_fragments() == old(self).spec_parity_fragments(),
            r.spec_backend() == old(self).spec_backend(),
            r.spec_checksum() == checksum,
            *final(self) == *final(r),
    {
        self.checksum = checksum;
        self
    }

    /// Builds a new [`ErasureCoder`] with these settings. One data and one
    /// parity fragment are refused, as are counts the engine cannot code.
    pub fn finish(&self) -> (r: Result<ErasureCoder>)
        ensures
            r is Ok <==> (self.spec_data_fragments() >= 1 && self.spec_parity_fragments() >= 1
                && !(self.spec_data_fragments() == 1 && self.spec_parity_fragments() == 1)
                && counts_supported(self.spec_data_fragments(), self.spec_parity_fragments())),
            r is Err ==> r == Err::<ErasureCoder, Error>(Error::InvalidParams),
            r is Ok ==> {
                &&& r->Ok_0.spec_data_fragments() == self.spec_data_fragments()
                &&& r->Ok_0.spec_parity_fragments() == self.spec_parity_fragments()
                &&& r->Ok_0.spec_backend() == self.spec_backend()
                &&& r->Ok_0.spec_checksum() == self.spec_checksum()
            },
    {
        if self.data_fragments == 0 || self.parity_fragments == 0 {
            return Err(Error::InvalidParams);
        }
        if self.data_fragments == 1 && self.parity_fragments == 1 {
            return Err(Error::InvalidParams);
        }
        if !codec_supports(self.data_fragments, self.parity_fragments) {
            return Err(Error::InvalidParams);
        }
        Ok(
            ErasureCoder {
                data_fragments: self.data_fragments,
                parity_fragments: self.parity_fragments,
                backend: self.backend,
                checksum: self.checksum,
            },
        )
    }
}

/// Erasure coder.
#[derive(Debug)]
pub struct ErasureCoder {
    data_fragments: usize,
    parity_fragments: usize,
    backend: Backend,
    checksum: Checksum,
}

/// The fragments read back: the buffer length and payload length from the
/// headers, the data payloads by index, and the distinct originals and
/// recovery shards with their indices.
struct Gathered {
    size: usize,
    p: usize,
    slots: Vec<Option<Vec<u8>>>,
    originals: Vec<(usize, Vec<u8>)>,
    recovery: Vec<(usize, Vec<u8>)>,
}

impl ErasureCoder {
    /// The number of data fragments.
    pub closed spec fn spec_data_fragments(&self) -> nat {
        self.data_fragments as nat
    }

    /// The number of parity fragments.
    pub closed spec fn spec_parity_fragments(&self) -> nat {
        self.parity_fragments as nat
    }

    /// The backend.
    pub closed spec fn spec_backend(&self) -> Backend {
        self.backend
    }

    /// The checksum algorithm.
    pub closed spec fn spec_checksum(&self) -> Checksum {
        self.checksum
    }

    /// The fragments that encoding `b` gives with this coder.
    pub open spec fn spec_encoding(&self, b: Seq<u8>) -> Seq<Seq<u8>> {
        encoding(
            self.spec_data_fragments(),
            self.spec_parity_fragments(),
            self.spec_backend(),
            self.spec_checksum(),
            b,
        )
    }

    #[verifier::type_invariant]
    closed spec fn wf(&self) -> bool {
        &&& self.data_fragments >= 1
        &&& self.parity_fragments >= 1
        &&& !(self.data_fragments == 1 && self.parity_fragments == 1)
        &&& counts_supported(self.data_fragments as nat, self.parity_fragments as nat)
    }

    /// Makes a new `ErasureCoder` with the default backend and checksum.
    pub fn new(data_fragments: usize, parity_fragments: usize) -> (r: Result<Self>)
        requires
            data_fragments >= 1,
            parity_fragments >= 1,
        ensures
            r is Ok <==> (!(data_fragments == 1 && parity_fragments == 1) && counts_supported(
                data_fragments as nat,
                parity_fragments as nat,
            )),
            r is Err ==> r == Err::<ErasureCoder, Error>(Error::InvalidParams),
            r is Ok ==> {
                &&& r->Ok_0.spec_data_fragments() == data_fragments
                &&& r->Ok_0.spec_parity_fragments() == parity_fragments
                &&& r->Ok_0.spec_backend() == Backend::JerasureRsCauchy
                &&& r->Ok_0.spec_checksum() == Checksum::NoChecksum
            },
    {
        Builder::new(data_fragments, parity_fragments).finish()
    }

    /// The number of data fragments.
    pub fn data_fragments(&self) -> (r: usize)
        ensures
            r == self.spec_data_fragments(),
            r >= 1,
            !(r == 1 && self.spec_parity_fragments() == 1),
    {
        proof {
            use_type_invariant(self);
        }
        self.data_fragments
    }

    /// The number of parity fragments.
    pub fn parity_fragments(&self) -> (r: usize)
        ensures
            r == self.spec_parity_fragments(),
            r >= 1,
            !(self.spec_data_fragments() == 1 && r == 1),
    {
        proof {
            use_type_invariant(self);
        }
        self.parity_fragments
    }

    /// The total number of data and parity fragments.
    pub fn fragments(&self) -> (r: usize)
        ensures
            r == self.spec_data_fragments() + self.spec_parity_fragments(),
            r >= 3,
    {
        proof {
            use_type_invariant(self);
        }
        self.data_fragments + self.parity_fragments
    }

    /// Encodes `data` into data fragments followed by parity fragments.
    pub fn encode(&mut self, data: &[u8]) -> (r: Result<Vec<Vec<u8>>>)
        ensures
            *final(self) == *old(self),
            sizes_fit(old(self).spec_data_fragments(), data@.len()) ==> {
                &&& r is Ok
                &&& views(r->Ok_0@) == old(self).spec_encoding(data@)
            },
            !sizes_fit(old(self).spec_data_fragments(), data@.len()) ==> r == Err::<
                Vec<Vec<u8>>,
                Error,
            >(Error::InvalidParams),
    {
        proof {
            use_type_invariant(&*self);
        }
        let k = self.data_fragments;
        let m = self.parity_fragments;
        let n = data.len();
        let p = match payload_size(k, n) {
            Some(p) => p,
            None => {
                return Err(Error::InvalidParams);
            },
        };
        if k.checked_mul(p).is_none() {
            return Err(Error::InvalidParams);
        }
        let ghost enc = self.spec_encoding(data@);
        let ghost d = data_payloads(data@, k as nat);
        let shards = split_data(data, k, p);
        proof {
            assert(views(shards@) =~= d);
            lemma_payloads_cover(k as nat, n as nat);
            assert(shards_fit(k as nat, m as nat, d));
        }
        let parity = match codec_encode(k, m, &shards) {
            Some(parity) => parity,
            None => {
                return Err(Error::InvalidParams);
            },
        };
        proof {
            assert(views(parity@) =~= recovery_shards(k as nat, m as nat, d));
        }
        let mut out: Vec<Vec<u8>> = Vec::new();
        let mut i: usize = 0;
        while i < k
            invariant
                i <= k,
                k == self.data_fragments,
                m == self.parity_fragments,
                n == data@.len(),
                enc == self.spec_encoding(data@),
                d == data_payloads(data@, k as nat),
                views(shards@) == d,
                views(parity@) == recovery_shards(k as nat, m as nat, d),
                out@.len() == i,
                forall|a: int| 0 <= a < i ==> (#[trigger] out@[a])@ == enc[a],
            decreases k - i,
        {
            let f = build_fragment(i, n, self.backend, self.checksum, &shards[i]);
            proof {
                assert(shards@[i as int]@ == views(shards@)[i as int]);
                assert(payloads(k as nat, m as nat, data@)[i as int] == d[i as int]);
            }
            out.push(f);
            i = i + 1;
        }
        let mut i: usize = 0;
        while i < m
            invariant
                i <= m,
                k == self.data_fragments,
                m == self.parity_fragments,
                counts_supported(k as nat, m as nat),
                n == data@.len(),
                enc == self.spec_encoding(data@),
                d == data_payloads(data@, k as nat),
                views(parity@) == recovery_shards(k as nat, m as nat, d),
                out@.len() == k + i,
                forall|a: int| 0 <= a < k + i ==> (#[trigger] out@[a])@ == enc[a],
            decreases m - i,
        {
            let f = build_fragment(k + i, n, self.backend, self.checksum, &parity[i]);
            proof {
                assert(parity@[i as int]@ == views(parity@)[i as int]);
                assert(payloads(k as nat, m as nat, data@)[k + i] == recovery_shards(
                    k as nat,
                    m as nat,
                    d,
                )[i as int]);
            }
            out.push(f);
            i = i + 1;
        }
        proof {
            assert(views(out@) =~= enc);
        }
        Ok(out)
    }

    /// Reads the headers of `fs` and collects the distinct payloads by index.
    fn gather(&self, fs: &[Vec<u8>]) -> (r: Result<Gathered>)
        requires
            fs@.len() > 0,
        ensures
            r is Err <==> !headers_consistent(
                self.spec_data_fragments(),
                self.spec_parity_fragments(),
                views(fs@),
            ),
            r is Err ==> r == Err::<Gathered, Error>(Error::BadHeader),
            r is Ok ==> {
                let g = r->Ok_0;
                let fv = views(fs@);
                let k = self.spec_data_fragments();
                let m = self.spec_parity_fragments();
                &&& g.size == size_field(fv[0])
                &&& g.p == payload_len(k, g.size as nat)
                &&& g.slots@.len() == k
                &&& forall|j: int|
                    0 <= j < k && (#[trigger] g.slots@[j]) is Some ==> entry_from(
                        fv,
                        fv.len() as int,
                        j,
                        g.slots@[j]->Some_0@,
                    )
                &&& forall|j: int|
                    0 <= j < k && (#[trigger] g.slots@[j]) is None ==> !has_index(
                        g.originals@,
                        j,
                    )
                &&& forall|e: int|
                    0 <= e < g.originals@.len() ==> (#[trigger] g.originals@[e]).0 < k
                        && entry_from(fv, fv.len() as int, g.originals@[e].0 as int, g.originals@[e].1@)
                &&& forall|e: int|
                    0 <= e < g.recovery@.len() ==> (#[trigger] g.recovery@[e]).0 < m
                        && entry_from(fv, fv.len() as int, g.recovery@[e].0 + k, g.recovery@[e].1@)
                &&& forall|a: int, c: int|
                    0 <= a < c < g.originals@.len() ==> g.originals@[a].0 != g.originals@[c].0
                &&& forall|a: int, c: int|
                    0 <= a < c < g.recovery@.len() ==> g.recovery@[a].0 != g.recovery@[c].0
                &&& indices_distinct(fv) ==> g.originals@.len() + g.recovery@.len() == fv.len()
                &&& header_indices(fv).finite()
                &&& header_indices(fv).len() == g.originals@.len() + g.recovery@.len()
            },
    {
        proof {
            use_type_invariant(self);
        }
        let k = self.data_fragments;
        let m = self.parity_fragments;
        let total = k + m;
        let ghost fv = views(fs@);
        let first = &fs[0];
        assert(first@ == fv[0]);
        let flen = first.len();
        if flen < HEADER_LEN {
            return Err(Error::BadHeader);
        }
        let size64 = read_size(first);
        if size64 > usize::MAX as u64 {
            return Err(Error::BadHeader);
        }
        let size = size64 as usize;
        let p = match payload_size(k, size) {
            Some(p) => p,
            None => {
                return Err(Error::BadHeader);
            },
        };
        if flen != HEADER_LEN + p {
            return Err(Error::BadHeader);
        }
        let mut seen: Vec<bool> = Vec::new();
        while seen.len() < total
            invariant
                seen@.len() <= total,
                forall|j: int| 0 <= j < seen@.len() ==> !(#[trigger] seen@[j]),
            decreases total - seen@.len(),
        {
            seen.push(false);
        }
        let mut slots: Vec<Option<Vec<u8>>> = Vec::new();
        while slots.len() < k
            invariant
                slots@.len() <= k,
                forall|j: int| 0 <= j < slots@.len() ==> (#[trigger] slots@[j]) is None,
            decreases k - slots@.len(),
        {
            slots.push(None);
        }
        let mut originals: Vec<(usize, Vec<u8>)> = Vec::new();
        let mut recovery: Vec<(usize, Vec<u8>)> = Vec::new();
        let ghost mut found: Set<nat> = Set::empty();
        let mut i: usize = 0;
        while i < fs.len()
            invariant
                i <= fs@.len(),
                fv == views(fs@),
                k == self.data_fragments,
                m == self.parity_fragments,
                total == k + m,
                flen == fv[0].len(),
                flen == HEADER_LEN + p,
                size == size_field(fv[0]),
                size64 as nat == size as nat,
                p == payload_len(k as nat, size as nat),
                seen@.len() == total,
                slots@.len() == k,
                forall|a: int| 0 <= a < i ==> #[trigger] fragment_ok(fv[a], flen as nat, total as nat, size as nat),
                forall|j: int| 0 <= j < k ==> ((#[trigger] slots@[j]) is Some <==> seen@[j]),
                forall|j: int|
                    0 <= j < k && (#[trigger] slots@[j]) is Some ==> entry_from(fv, i as int, j, slots@[j]->Some_0@),
                forall|j: int|
                    0 <= j < total && #[trigger] seen@[j] ==> exists|a: int| 0 <= a < i && #[trigger] index_field(fv[a]) == j,
                forall|e: int|
                    0 <= e < originals@.len() ==> (#[trigger] originals@[e]).0 < k && seen@[originals@[e].0 as int]
                        && entry_from(fv, i as int, originals@[e].0 as int, originals@[e].1@),
                forall|e: int|
                    0 <= e < recovery@.len() ==> (#[trigger] recovery@[e]).0 < m && seen@[recovery@[e].0 + k]
                        && entry_from(fv, i as int, recovery@[e].0 + k, recovery@[e].1@),
                forall|a: int, c: int|
                    0 <= a < c < originals@.len() ==> originals@[a].0 != originals@[c].0,
                forall|a: int, c: int|
                    0 <= a < c < recovery@.len() ==> recovery@[a].0 != recovery@[c].0,
                indices_distinct(fv.subrange(0, i as int)) ==> originals@.len() + recovery@.len() == i,
                found.finite(),
                found.len() == originals@.len() + recovery@.len(),
                forall|j: nat|
                    found.contains(j) <==> exists|a: int| 0 <= a < i && #[trigger] index_field(fv[a]) == j,
                forall|a: int|
                    0 <= a < i ==> #[trigger] index_field(fv[a]) < total && seen@[index_field(
                        fv[a],
                    ) as int],
            decreases fs@.len() - i,
        {
            let f = &fs[i];
            assert(f@ == fv[i as int]);
            if f.len() != flen {
                assert(!fragment_ok(
                    fv[i as int],
                    fv[0].len(),
                    self.spec_data_fragments() + self.spec_parity_fragments(),
                    size_field(fv[0]),
                ));
                return Err(Error::BadHeader);
            }
            let index64 = read_index(f);
            if index64 >= total as u64 {
                assert(!fragment_ok(
                    fv[i as int],
                    fv[0].len(),
                    self.spec_data_fragments() + self.spec_parity_fragments(),
                    size_field(fv[0]),
                ));
                return Err(Error::BadHeader);
            }
            if read_size(f) != size64 {
                assert(!fragment_ok(
                    fv[i as int],
                    fv[0].len(),
                    self.spec_data_fragments() + self.spec_parity_fragments(),
                    size_field(fv[0]),
                ));
                return Err(Error::BadHeader);
            }
            let j = index64 as usize;
            let ghost prev = fv.subrange(0, i as int);
            let ghost next = fv.subrange(0, i + 1);
            proof {
                if indices_distinct(next) {
                    assert forall|a: int, c: int| 0 <= a < c < prev.len() implies #[trigger] index_field(prev[a]) != #[trigger] index_field(prev[c]) by {
                        assert(prev[a] == next[a] && prev[c] == next[c]);
                        assert(index_field(next[a]) != index_field(next[c]));
                    }
                    assert(indices_distinct(prev));
                }
                if indices_distinct(next) && seen@[j as int] {
                    let a = choose|a: int| 0 <= a < i && #[trigger] index_field(fv[a]) == j;
                    assert(next[a] == fv[a] && next[i as int] == fv[i as int]);
                }
            }
            let ghost before = found;
            proof {
                if !seen@[j as int] {
                    if found.contains(j as nat) {
                        let a = choose|a: int| 0 <= a < i && #[trigger] index_field(fv[a]) == j as nat;
                    }
                    found = found.insert(j as nat);
                }
                assert forall|x: nat| found.contains(x) implies exists|a: int|
                    0 <= a < i + 1 && #[trigger] index_field(fv[a]) == x by {
                    if x != j as nat {
                        let a = choose|a: int| 0 <= a < i && #[trigger] index_field(fv[a]) == x;
                    } else {
                        assert(index_field(fv[i as int]) == x);
                    }
                }
                assert forall|x: nat| (exists|a: int|
                    0 <= a < i + 1 && #[trigger] index_field(fv[a]) == x) implies found.contains(x) by {
                    let a = choose|a: int| 0 <= a < i + 1 && #[trigger] index_field(fv[a]) == x;
                    if a < i {
                        assert(before.contains(x));
                    }
                }
            }
            if !seen[j] {
                let pl = payload_of(f);
                seen.set(j, true);
                if j < k {
                    slots.set(j, Some(pl.clone()));
                    originals.push((j, pl));
                } else {
                    recovery.push((j - k, pl));
                }
            }
            i = i + 1;
            proof {
                assert forall|a: int| 0 <= a < i implies #[trigger] fragment_ok(fv[a], flen as nat, total as nat, size as nat) by {}
            }
        }
        proof {
            assert(fv.subrange(0, fv.len() as int) =~= fv);
            assert(found =~= header_indices(fv));
        }
        Ok(Gathered { size, p, slots, originals, recovery })
    }

    /// The data payloads of gathered fragments: those given, and those that the
    /// engine restores from the rest.
    fn restore(&self, g: Gathered) -> (r: Result<Vec<Vec<u8>>>)
        requires
            g.slots@.len() == self.spec_data_fragments(),
            forall|j: int|
                0 <= j < self.spec_data_fragments() && (#[trigger] g.slots@[j]) is None
                    ==> !has_index(g.originals@, j),
            forall|e: int|
                0 <= e < g.originals@.len() ==> (#[trigger] g.originals@[e]).0
                    < self.spec_data_fragments(),
            forall|e: int|
                0 <= e < g.recovery@.len() ==> (#[trigger] g.recovery@[e]).0
                    < self.spec_parity_fragments(),
        ensures
            g.originals@.len() + g.recovery@.len() < self.spec_data_fragments() ==> r == Err::<
                Vec<Vec<u8>>,
                Error,
            >(Error::InsufficientFragments),
            r is Ok ==> {
                &&& r->Ok_0@.len() == self.spec_data_fragments()
                &&& forall|j: int|
                    0 <= j < self.spec_data_fragments() ==> (#[trigger] r->Ok_0@[j])@.len() == g.p
            },
            forall|d: Seq<Seq<u8>>|
                #![trigger restore_premise(self.spec_data_fragments(), self.spec_parity_fragments(), d, g)]
                restore_premise(self.spec_data_fragments(), self.spec_parity_fragments(), d, g) ==> {
                    &&& r is Ok
                    &&& views(r->Ok_0@) == d
                },
    {
        proof {
            use_type_invariant(self);
        }
        let k = self.data_fragments;
        let m = self.parity_fragments;
        let ghost g0 = g;
        let p = g.p;
        let slots = g.slots;
        let originals = g.originals;
        let recovery = g.recovery;
        assert(originals@ == g0.originals@ && recovery@ == g0.recovery@ && slots@ == g0.slots@);
        let res = codec_decode(k, m, originals, recovery);
        let restored = match res {
            Some(x) => x,
            None => {
                proof {
                    assert forall|d: Seq<Seq<u8>>|
                        !restore_premise(k as nat, m as nat, d, g0) by {
                        if restore_premise(k as nat, m as nat, d, g0) {
                            assert(shards_fit(k as nat, m as nat, d));
                        }
                    }
                }
                return Err(Error::InsufficientFragments);
            },
        };
        let mut out: Vec<Vec<u8>> = Vec::new();
        let mut j: usize = 0;
        while j < k
            invariant
                j <= k,
                k == self.data_fragments,
                m == self.parity_fragments,
                slots@ == g0.slots@,
                p == g0.p,
                g0 == g,
                g0.originals@.len() + g0.recovery@.len() >= k,
                slots@.len() == k,
                out@.len() == j,
                forall|d: Seq<Seq<u8>>|
                    #![trigger shards_fit(k as nat, m as nat, d)]
                    shards_fit(k as nat, m as nat, d) && shards_drawn(
                        k as nat,
                        m as nat,
                        d,
                        g0.originals@,
                        g0.recovery@,
                    ) ==> {
                        &&& forall|a: int|
                            0 <= a < k && !has_index(g0.originals@, a) ==> {
                                &&& #[trigger] restored@.contains_key(a as usize)
                                &&& restored@[a as usize]@ == d[a]
                            }
                    },
                forall|a: int|
                    0 <= a < k && (#[trigger] g0.slots@[a]) is None ==> !has_index(
                        g0.originals@,
                        a,
                    ),
                forall|a: int| 0 <= a < j ==> (#[trigger] out@[a])@.len() == p,
                forall|a: int|
                    0 <= a < j && (#[trigger] slots@[a]) is Some ==> out@[a]@ == slots@[a]->Some_0@,
                forall|a: int|
                    0 <= a < j && (#[trigger] slots@[a]) is None ==> {
                        &&& restored@.contains_key(a as usize)
                        &&& out@[a]@ == restored@[a as usize]@
                    },
            decreases k - j,
        {
            let v: Vec<u8> = match &slots[j] {
                Some(v) => v.clone(),
                None => {
                    match restored.get(&j) {
                        Some(v) => v.clone(),
                        None => {
                            proof {
                                assert forall|d: Seq<Seq<u8>>|
                                    !restore_premise(k as nat, m as nat, d, g0) by {
                                    if restore_premise(k as nat, m as nat, d, g0) {
                                        assert(shards_fit(k as nat, m as nat, d));
                                        assert(g0.slots@[j as int] is None);
                                        assert(!has_index(g0.originals@, j as int));
                                        assert(restored@.contains_key((j as int) as usize));
                                    }
                                }
                            }
                            return Err(Error::InsufficientFragments);
                        },
                    }
                },
            };
            proof {
                if slots@[j as int] is None {
                    assert(restored@.contains_key(j));
                    assert(v@ == restored@[j]@);
                } else {
                    assert(v@ == slots@[j as int]->Some_0@);
                }
            }
            if v.len() != p {
                proof {
                    assert forall|d: Seq<Seq<u8>>|
                        !restore_premise(k as nat, m as nat, d, g0) by {
                        if restore_premise(k as nat, m as nat, d, g0) {
                            assert(shards_fit(k as nat, m as nat, d));
                            if slots@[j as int] is None {
                                assert(!has_index(g0.originals@, j as int));
                                assert(restored@.contains_key((j as int) as usize));
                            }
                            assert(v@ == d[j as int]);
                            assert(d[j as int].len() == d[0].len());
                        }
                    }
                }
                return Err(Error::BadHeader);
            }
            out.push(v);
            j = j + 1;
        }
        proof {
            assert forall|d: Seq<Seq<u8>>|
                #[trigger] restore_premise(k as nat, m as nat, d, g0) implies views(out@) == d by {
                assert(shards_fit(k as nat, m as nat, d));
                assert forall|a: int| 0 <= a < k implies #[trigger] views(out@)[a] == d[a] by {
                    if slots@[a] is None {
                        assert(restored@.contains_key(a as usize));
                    }
                }
                assert(views(out@) =~= d);
            }
        }
        Ok(out)
    }

    /// Decodes the original data from the given fragments.
    pub fn decode(&mut self, fragments: &[Vec<u8>]) -> (r: Result<Vec<u8>>)
        ensures
            *final(self) == *old(self),
            fragments@.len() < old(self).spec_data_fragments() ==> r == Err::<Vec<u8>, Error>(
                Error::InsufficientFragments,
            ),
            fragments@.len() >= old(self).spec_data_fragments() && !headers_consistent(
                old(self).spec_data_fragments(),
                old(self).spec_parity_fragments(),
                views(fragments@),
            ) ==> r == Err::<Vec<u8>, Error>(Error::BadHeader),
            fragments@.len() >= old(self).spec_data_fragments() && headers_consistent(
                old(self).spec_data_fragments(),
                old(self).spec_parity_fragments(),
                views(fragments@),
            ) && header_indices(views(fragments@)).len() < old(self).spec_data_fragments() ==> r
                == Err::<Vec<u8>, Error>(Error::InsufficientFragments),
            forall|b: Seq<u8>, idx: Seq<int>|
                #![trigger drawn_from(views(fragments@), old(self).spec_encoding(b), idx)]
                b.len() <= usize::MAX && fragments@.len() >= old(self).spec_data_fragments()
                    && drawn_from(views(fragments@), old(self).spec_encoding(b), idx) ==> r is Ok
                    && r->Ok_0@ == b,
    {
        proof {
            use_type_invariant(&*self);
        }
        let k = self.data_fragments;
        let m = self.parity_fragments;
        if fragments.len() < k {
            return Err(Error::InsufficientFragments);
        }
        let ghost fv = views(fragments@);
        let ghost bk = self.backend;
        let ghost cs = self.checksum;
        let g = match self.gather(fragments) {
            Ok(g) => g,
            Err(e) => {
                proof {
                    assert forall|b: Seq<u8>, idx: Seq<int>|
                        b.len() <= usize::MAX && drawn_from(fv, self.spec_encoding(b), idx)
                            implies headers_consistent(k as nat, m as nat, fv) by {
                        assert forall|a: int| 0 <= a < fv.len() implies #[trigger] fragment_ok(
                            fv[a],
                            fv[0].len(),
                            (k + m) as nat,
                            size_field(fv[0]),
                        ) by {
                            lemma_drawn(k as nat, m as nat, bk, cs, b, idx, fv, a);
                            lemma_drawn(k as nat, m as nat, bk, cs, b, idx, fv, 0);
                        }
                        lemma_drawn(k as nat, m as nat, bk, cs, b, idx, fv, 0);
                    }
                }
                return Err(e);
            },
        };
        let ghost g0 = g;
        proof {
            self.lemma_premise(fragments@, g0);
        }
        let size = g.size;
        let p = g.p;
        let data = match self.restore(g) {
            Ok(data) => data,
            Err(e) => {
                return Err(e);
            },
        };
        proof {
            lemma_payloads_cover(k as nat, size as nat);
        }
        let out = assemble(&data, p, size);
        proof {
            assert forall|b: Seq<u8>, idx: Seq<int>|
                #![trigger drawn_from(fv, self.spec_encoding(b), idx)]
                b.len() <= usize::MAX && drawn_from(fv, self.spec_encoding(b), idx)
                    implies out@ == b by {
                let d = data_payloads(b, k as nat);
                lemma_drawn(k as nat, m as nat, bk, cs, b, idx, fv, 0);
                assert(restore_premise(k as nat, m as nat, d, g0));
                lemma_assembled_data(b, k as nat);
            }
        }
        Ok(out)
    }

    /// Rebuilds fragment `index` from the other available fragments.
    pub fn reconstruct(&mut self, index: usize, available_fragments: &[Vec<u8>]) -> (r: Result<
        Vec<u8>,
    >)
        ensures
            *final(self) == *old(self),
            index >= old(self).spec_data_fragments() + old(self).spec_parity_fragments() ==> r
                == Err::<Vec<u8>, Error>(Error::InvalidParams),
            index < old(self).spec_data_fragments() + old(self).spec_parity_fragments()
                && available_fragments@.len() < old(self).spec_data_fragments() ==> r == Err::<
                Vec<u8>,
                Error,
            >(Error::InsufficientFragments),
            index < old(self).spec_data_fragments() + old(self).spec_parity_fragments()
                && available_fragments@.len() >= old(self).spec_data_fragments()
                && !headers_consistent(
                old(self).spec_data_fragments(),
                old(self).spec_parity_fragments(),
                views(available_fragments@),
            ) ==> r == Err::<Vec<u8>, Error>(Error::BadHeader),
            index < old(self).spec_data_fragments() + old(self).spec_parity_fragments()
                && available_fragments@.len() >= old(self).spec_data_fragments()
                && headers_consistent(
                old(self).spec_data_fragments(),
                old(self).spec_parity_fragments(),
                views(available_fragments@),
            ) && header_indices(views(available_fragments@)).len()
                < old(self).spec_data_fragments() ==> r == Err::<Vec<u8>, Error>(
                Error::InsufficientFragments,
            ),
            r is Ok ==> r->Ok_0@.len() == available_fragments@[0]@.len(),
            forall|b: Seq<u8>, idx: Seq<int>|
                #![trigger drawn_from(views(available_fragments@), old(self).spec_encoding(b), idx)]
                index < old(self).spec_data_fragments() + old(self).spec_parity_fragments()
                    && b.len() <= usize::MAX && available_fragments@.len()
                    >= old(self).spec_data_fragments() && drawn_from(
                    views(available_fragments@),
                    old(self).spec_encoding(b),
                    idx,
                ) ==> r is Ok && r->Ok_0@ == old(self).spec_encoding(b)[index as int],
    {
        proof {
            use_type_invariant(&*self);
        }
        let k = self.data_fragments;
        let m = self.parity_fragments;
        if index >= k + m {
            return Err(Error::InvalidParams);
        }
        if available_fragments.len() < k {
            return Err(Error::InsufficientFragments);
        }
        let ghost fv = views(available_fragments@);
        let ghost bk = self.backend;
        let ghost cs = self.checksum;
        let g = match self.gather(available_fragments) {
            Ok(g) => g,
            Err(e) => {
                proof {
                    assert forall|b: Seq<u8>, idx: Seq<int>|
                        b.len() <= usize::MAX && drawn_from(fv, self.spec_encoding(b), idx)
                            implies headers_consistent(k as nat, m as nat, fv) by {
                        assert forall|a: int| 0 <= a < fv.len() implies #[trigger] fragment_ok(
                            fv[a],
                            fv[0].len(),
                            (k + m) as nat,
                            size_field(fv[0]),
                        ) by {
                            lemma_drawn(k as nat, m as nat, bk, cs, b, idx, fv, a);
                            lemma_drawn(k as nat, m as nat, bk, cs, b, idx, fv, 0);
                        }
                        lemma_drawn(k as nat, m as nat, bk, cs, b, idx, fv, 0);
                    }
                }
                return Err(e);
            },
        };
        let ghost g0 = g;
        proof {
            self.lemma_premise(available_fragments@, g0);
        }
        let size = g.size;
        let p = g.p;
        let data = match self.restore(g) {
            Ok(data) => data,
            Err(e) => {
                return Err(e);
            },
        };
        proof {
            lemma_payloads_cover(k as nat, size as nat);
        }
        let ghost dv = views(data@);
        if index < k {
            let f = build_fragment(index, size, self.backend, self.checksum, &data[index]);
            proof {
                lemma_fragment_fields(index as nat, size as nat, bk, cs, data@[index as int]@);
                assert(fv[0] == available_fragments@[0]@);
                assert forall|b: Seq<u8>, idx: Seq<int>|
                    #![trigger drawn_from(fv, self.spec_encoding(b), idx)]
                    b.len() <= usize::MAX && drawn_from(fv, self.spec_encoding(b), idx)
                        implies f@ == self.spec_encoding(b)[index as int] by {
                    let d = data_payloads(b, k as nat);
                    lemma_drawn(k as nat, m as nat, bk, cs, b, idx, fv, 0);
                    assert(restore_premise(k as nat, m as nat, d, g0));
                    assert(data@[index as int]@ == dv[index as int]);
                }
            }
            Ok(f)
        } else {
            proof {
                assert(views(data@).len() == k);
                assert(shards_fit(k as nat, m as nat, dv)) by {
                    assert(dv[0].len() == p);
                    assert forall|j: int| 0 <= j < k implies #[trigger] dv[j].len() == dv[0].len() by {
                        assert(data@[j]@ == dv[j]);
                    }
                }
            }
            let parity = match codec_encode(k, m, &data) {
                Some(parity) => parity,
                None => {
                    return Err(Error::InvalidParams);
                },
            };
            proof {
                assert(views(parity@) =~= recovery_shards(k as nat, m as nat, dv));
            }
            let f = build_fragment(index, size, self.backend, self.checksum, &parity[index - k]);
            proof {
                lemma_fragment_fields(index as nat, size as nat, bk, cs, parity@[index - k]@);
                assert(parity@[index - k]@ == views(parity@)[index - k]);
                assert(fv[0] == available_fragments@[0]@);
                assert forall|b: Seq<u8>, idx: Seq<int>|
                    #![trigger drawn_from(fv, self.spec_encoding(b), idx)]
                    b.len() <= usize::MAX && drawn_from(fv, self.spec_encoding(b), idx)
                        implies f@ == self.spec_encoding(b)[index as int] by {
                    let d = data_payloads(b, k as nat);
                    lemma_drawn(k as nat, m as nat, bk, cs, b, idx, fv, 0);
                    assert(restore_premise(k as nat, m as nat, d, g0));
                    assert(dv == d);
                    assert(parity@[index - k]@ == views(parity@)[index - k]);
                    assert(payloads(k as nat, m as nat, b)[index as int] == recovery_shards(
                        k as nat,
                        m as nat,
                        d,
                    )[index - k]);
                }
            }
            Ok(f)
        }
    }

    /// Under a drawing of the fragments from an encoding of `b`, the data
    /// payloads of `b` meet what restoring the gathered fragments asks.
    proof fn lemma_premise(&self, fs: Seq<Vec<u8>>, g: Gathered)
        requires
            self.wf(),
            fs.len() >= self.spec_data_fragments(),
            g.size == size_field(views(fs)[0]),
            g.p == payload_len(self.spec_data_fragments(), g.size as nat),
            g.slots@.len() == self.spec_data_fragments(),
            forall|j: int|
                0 <= j < self.spec_data_fragments() && (#[trigger] g.slots@[j]) is Some ==> entry_from(
                    views(fs),
                    fs.len() as int,
                    j,
                    g.slots@[j]->Some_0@,
                ),
            forall|e: int|
                0 <= e < g.originals@.len() ==> (#[trigger] g.originals@[e]).0 < self.spec_data_fragments()
                    && entry_from(views(fs), fs.len() as int, g.originals@[e].0 as int, g.originals@[e].1@),
            forall|e: int|
                0 <= e < g.recovery@.len() ==> (#[trigger] g.recovery@[e]).0 < self.spec_parity_fragments()
                    && entry_from(
                    views(fs),
                    fs.len() as int,
                    g.recovery@[e].0 + self.spec_data_fragments(),
                    g.recovery@[e].1@,
                ),
            forall|a: int, c: int|
                0 <= a < c < g.originals@.len() ==> g.originals@[a].0 != g.originals@[c].0,
            forall|a: int, c: int|
                0 <= a < c < g.recovery@.len() ==> g.recovery@[a].0 != g.recovery@[c].0,
            indices_distinct(views(fs)) ==> g.originals@.len() + g.recovery@.len() == fs.len(),
        ensures
            forall|b: Seq<u8>, idx: Seq<int>|
                b.len() <= usize::MAX && #[trigger] drawn_from(views(fs), self.spec_encoding(b), idx)
                    ==> restore_premise(
                    self.spec_data_fragments(),
                    self.spec_parity_fragments(),
                    data_payloads(b, self.spec_data_fragments()),
                    g,
                ),
    {
        let k = self.spec_data_fragments();
        let m = self.spec_parity_fragments();
        let bk = self.spec_backend();
        let cs = self.spec_checksum();
        let fv = views(fs);
        assert forall|b: Seq<u8>, idx: Seq<int>|
            b.len() <= usize::MAX && #[trigger] drawn_from(fv, self.spec_encoding(b), idx)
                implies restore_premise(k, m, data_payloads(b, k), g) by {
            let d = data_payloads(b, k);
            lemma_payloads_cover(k, b.len());
            lemma_drawn(k, m, bk, cs, b, idx, fv, 0);
            assert(shards_fit(k, m, d));
            assert forall|a: int, c: int| 0 <= a < c < fv.len() implies #[trigger] index_field(fv[a])
                != #[trigger] index_field(fv[c]) by {
                lemma_drawn(k, m, bk, cs, b, idx, fv, a);
                lemma_drawn(k, m, bk, cs, b, idx, fv, c);
            }
            assert(indices_distinct(fv));
            assert forall|e: int| 0 <= e < g.originals@.len() implies #[trigger] g.originals@[e].0 < k
                && g.originals@[e].1@ == d[g.originals@[e].0 as int] by {
                lemma_entry(k, m, bk, cs, b, idx, fv, g.originals@[e].0 as int, g.originals@[e].1@);
            }
            assert forall|e: int| 0 <= e < g.recovery@.len() implies #[trigger] g.recovery@[e].0 < m
                && g.recovery@[e].1@ == recovery_shards(k, m, d)[g.recovery@[e].0 as int] by {
                lemma_entry(
                    k,
                    m,
                    bk,
                    cs,
                    b,
                    idx,
                    fv,
                    g.recovery@[e].0 + k,
                    g.recovery@[e].1@,
                );
            }
            assert(shards_drawn(k, m, d, g.originals@, g.recovery@));
            assert forall|j: int| 0 <= j < k && (#[trigger] g.slots@[j]) is Some implies g.slots@[j]->Some_0@
                == d[j] by {
                lemma_entry(k, m, bk, cs, b, idx, fv, j, g.slots@[j]->Some_0@);
            }
        }
    }
}

} // verus!
