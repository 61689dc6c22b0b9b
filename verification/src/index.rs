//! Composite index builder: enumerates the unordered pairs of confirmed
//! primes in canonical orientation (P at most Q), computes each product and
//! keys the pairs by the product's byte encoding in both byte orders, kept
//! only at the width the matchers scan at (twice the prime window size).
use crate::bignum::BigNat;
use crate::scan::all_wf;
use crate::scan::has_value;
use vstd::prelude::*;
use vstd::slice::slice_index_get;

verus! {

/// An unordered pair of confirmed primes with its product.
pub struct CompositeCandidate {
    /// The smaller prime of the pair.
    pub p: BigNat,
    /// The larger prime of the pair.
    pub q: BigNat,
    /// The product of the two.
    pub n: BigNat,
}

/// Well-formed candidate: canonical orientation and a true product.
pub open spec fn candidate_wf(c: CompositeCandidate) -> bool {
    &&& c.p.wf()
    &&& c.q.wf()
    &&& c.n.wf()
    &&& c.p.value() <= c.q.value()
    &&& c.n.value() == c.p.value() * c.q.value()
}

/// The product's encoding, most-significant byte first.
pub open spec fn msf_key(c: CompositeCandidate) -> Seq<u8> {
    c.n.bytes_rep()
}

/// The product's encoding, least-significant byte first.
pub open spec fn lsf_key(c: CompositeCandidate) -> Seq<u8> {
    c.n.bytes_rep().reverse()
}

/// The candidate pairs the values `a` and `b`, in one orientation.
pub open spec fn pair_of(c: CompositeCandidate, a: nat, b: nat) -> bool {
    (c.p.value() == a && c.q.value() == b) || (c.p.value() == b && c.q.value() == a)
}

/// Some candidate of `s` pairs the values `a` and `b`.
pub open spec fn pair_covered(s: Seq<CompositeCandidate>, a: nat, b: nat) -> bool {
    exists|m: int| 0 <= m < s.len() && pair_of(#[trigger] s[m], a, b)
}

/// The key `key` occurs in `buf` at offset `o`.
pub open spec fn occurs_at(buf: Seq<u8>, key: Seq<u8>, o: int) -> bool {
    &&& 0 <= o
    &&& o + key.len() <= buf.len()
    &&& buf.subrange(o, o + key.len()) == key
}

/// The key `key` occurs somewhere in `buf`.
pub open spec fn occurs(buf: Seq<u8>, key: Seq<u8>) -> bool {
    exists|o: int| occurs_at(buf, key, o)
}

/// Byte-wise slice equality.
pub(crate) fn bytes_eq(a: &[u8], b: &[u8]) -> (r: bool)
    ensures
        r == (a@ == b@),
{
    let n = a.len();
    if n != b.len() {
        proof {
            assert(a@ != b@);
        }
        return false;
    }
    let mut i: usize = 0;
    while i < n
        invariant
            n == a@.len(),
            n == b@.len(),
            i <= n,
            forall|x: int| 0 <= x < i ==> a@[x] == b@[x],
        decreases n - i,
    {
        if *slice_index_get(a, i) != *slice_index_get(b, i) {
            return false;
        }
        i += 1;
    }
    proof {
        assert(a@ =~= b@);
    }
    true
}

/// The lookup structure over the byte encodings of all pair products.
pub struct CompositeIndex {
    cands: Vec<CompositeCandidate>,
    entries: Vec<(Vec<u8>, usize)>,
    width: usize,
}

impl CompositeIndex {
    /// The candidate pairs held by the index.
    pub closed spec fn cands_rep(&self) -> Seq<CompositeCandidate> {
        self.cands@
    }

    /// How many candidate pairs the index holds.
    pub open spec fn num_cands(&self) -> int {
        self.cands_rep().len() as int
    }

    /// The candidate pair with identity `pid`.
    pub open spec fn cand(&self, pid: int) -> CompositeCandidate {
        self.cands_rep()[pid]
    }

    /// The key entries of the index.
    pub closed spec fn entries_rep(&self) -> Seq<(Vec<u8>, usize)> {
        self.entries@
    }

    /// How many key entries the index holds.
    pub open spec fn num_entries(&self) -> int {
        self.entries_rep().len() as int
    }

    /// The byte key of entry `j`.
    pub open spec fn entry_key(&self, j: int) -> Seq<u8> {
        self.entries_rep()[j].0@
    }

    /// The candidate identity entry `j` resolves to.
    pub open spec fn entry_pid(&self, j: int) -> int {
        self.entries_rep()[j].1 as int
    }

    /// The key width the index was built at: twice the prime window size.
    pub closed spec fn width_spec(&self) -> int {
        self.width as int
    }

    /// Some entry carries exactly this key.
    pub open spec fn key_covered(&self, key: Seq<u8>) -> bool {
        exists|j: int| 0 <= j < self.num_entries() && self.entry_key(j) == key
    }

    /// The index invariant: entries resolve to candidates they key, all at
    /// the index width, keys are unique, candidates are well-formed, and
    /// every candidate key of the right width is present.
    pub open spec fn wf(&self) -> bool {
        &&& forall|j: int|
            0 <= j < self.num_entries() ==> {
                &&& 0 <= #[trigger] self.entry_pid(j) < self.num_cands()
                &&& (self.entry_key(j) == msf_key(self.cand(self.entry_pid(j)))
                    || self.entry_key(j) == lsf_key(self.cand(self.entry_pid(j))))
                &&& self.entry_key(j).len() == self.width_spec()
            }
        &&& forall|j1: int, j2: int|
            0 <= j1 < j2 < self.num_entries() ==> #[trigger] self.entry_key(j1)
                != #[trigger] self.entry_key(j2)
        &&& forall|pid: int|
            0 <= pid < self.num_cands() ==> candidate_wf(#[trigger] self.cand(pid))
        &&& forall|pid: int|
            0 <= pid < self.num_cands() && msf_key(#[trigger] self.cand(pid)).len()
                == self.width_spec() ==> self.key_covered(msf_key(self.cand(pid)))
        &&& forall|pid: int|
            0 <= pid < self.num_cands() && lsf_key(#[trigger] self.cand(pid)).len()
                == self.width_spec() ==> self.key_covered(lsf_key(self.cand(pid)))
    }

    /// The candidate `pid` is matched in `buf`: one of its index entries'
    /// keys occurs in the buffer.
    pub open spec fn matched(&self, buf: Seq<u8>, pid: int) -> bool {
        exists|j: int|
            0 <= j < self.num_entries() && #[trigger] self.entry_pid(j) == pid && occurs(
                buf,
                self.entry_key(j),
            )
    }

    /// The key width, for the matchers' window size.
    pub fn key_width(&self) -> (r: usize)
        ensures
            r as int == self.width_spec(),
    {
        self.width
    }

    /// How many candidate pairs the index holds.
    pub fn candidate_count(&self) -> (r: usize)
        ensures
            r as int == self.num_cands(),
    {
        self.cands.len()
    }

    /// The candidate pair with identity `pid`.
    pub fn candidate(&self, pid: usize) -> (r: &CompositeCandidate)
        requires
            0 <= pid < self.num_cands(),
        ensures
            *r == self.cand(pid as int),
    {
        &self.cands[pid]
    }

    /// How many key entries the index holds.
    pub fn entry_count(&self) -> (r: usize)
        ensures
            r as int == self.num_entries(),
    {
        self.entries.len()
    }

    /// The byte key of entry `j`.
    pub fn entry_key_slice(&self, j: usize) -> (r: &[u8])
        requires
            0 <= j < self.num_entries(),
        ensures
            r@ == self.entry_key(j as int),
    {
        self.entries[j].0.as_slice()
    }

    /// Copies of all entry keys, in entry order.
    pub fn keys(&self) -> (r: Vec<Vec<u8>>)
        ensures
            r@.len() == self.num_entries(),
            forall|j: int| 0 <= j < r@.len() ==> (#[trigger] r@[j])@ == self.entry_key(j),
    {
        let n = self.entries.len();
        let mut out: Vec<Vec<u8>> = Vec::new();
        let mut j: usize = 0;
        while j < n
            invariant
                n == self.num_entries(),
                j <= n,
                out@.len() == j,
                forall|x: int| 0 <= x < j ==> (#[trigger] out@[x])@ == self.entry_key(x),
            decreases n - j,
        {
            out.push(vstd::slice::slice_to_vec(self.entries[j].0.as_slice()));
            j += 1;
        }
        out
    }

    /// Exact lookup of a byte key.
    pub fn lookup(&self, key: &[u8]) -> (r: Option<usize>)
        ensures
            match r {
                Some(pid) => exists|j: int|
                    0 <= j < self.num_entries() && #[trigger] self.entry_key(j) == key@
                        && self.entry_pid(j) == pid as int,
                None => forall|j: int|
                    0 <= j < self.num_entries() ==> #[trigger] self.entry_key(j) != key@,
            },
    {
        let n = self.entries.len();
        let mut j: usize = 0;
        while j < n
            invariant
                n == self.num_entries(),
                j <= n,
                forall|x: int| 0 <= x < j ==> #[trigger] self.entry_key(x) != key@,
            decreases n - j,
        {
            if bytes_eq(self.entries[j].0.as_slice(), key) {
                proof {
                    assert(self.entry_key(j as int) == key@);
                }
                return Some(self.entries[j].1);
            }
            j += 1;
        }
        None
    }
}

/// Pushing a candidate keeps every covered pair covered.
proof fn lemma_pair_covered_push(s: Seq<CompositeCandidate>, x: CompositeCandidate, a: nat, b: nat)
    requires
        pair_covered(s, a, b),
    ensures
        pair_covered(s.push(x), a, b),
{
    let m = choose|m: int| 0 <= m < s.len() && pair_of(#[trigger] s[m], a, b);
    assert(s.push(x)[m] == s[m]);
}

/// Appends the entry unless its key is already present, keeping keys unique.
fn insert_if_absent(entries: &mut Vec<(Vec<u8>, usize)>, key: Vec<u8>, pid: usize)
    requires
        forall|j1: int, j2: int|
            0 <= j1 < j2 < old(entries)@.len() ==> #[trigger] old(entries)@[j1].0@
                != #[trigger] old(entries)@[j2].0@,
    ensures
        final(entries)@ == old(entries)@ || final(entries)@ == old(entries)@.push((key, pid)),
        exists|j: int| 0 <= j < final(entries)@.len() && #[trigger] final(entries)@[j].0@ == key@,
        forall|j1: int, j2: int|
            0 <= j1 < j2 < final(entries)@.len() ==> #[trigger] final(entries)@[j1].0@
                != #[trigger] final(entries)@[j2].0@,
{
    let ghost e0 = entries@;
    let n = entries.len();
    let mut j: usize = 0;
    while j < n
        invariant
            entries@ == e0,
            e0 == old(entries)@,
            n == e0.len(),
            j <= n,
            forall|x: int| 0 <= x < j ==> #[trigger] e0[x].0@ != key@,
            forall|j1: int, j2: int|
                0 <= j1 < j2 < e0.len() ==> #[trigger] e0[j1].0@ != #[trigger] e0[j2].0@,
        decreases n - j,
    {
        if bytes_eq(entries[j].0.as_slice(), key.as_slice()) {
            proof {
                assert(entries@[j as int].0@ == key@);
            }
            return;
        }
        j += 1;
    }
    entries.push((key, pid));
    proof {
        assert(entries@ == e0.push((key, pid)));
        assert(entries@[e0.len() as int].0@ == key@);
        assert forall|j1: int, j2: int|
            0 <= j1 < j2 < entries@.len() implies #[trigger] entries@[j1].0@
            != #[trigger] entries@[j2].0@ by {
            if j2 < e0.len() {
                assert(e0[j1].0@ != e0[j2].0@);
            } else {
                assert(entries@[j2].0@ == key@);
                assert(e0[j1].0@ != key@);
            }
        }
    }
}

/// Enumerates the canonical pairs of the confirmed primes, computes each
/// product, and builds the key index over both byte orders of each product,
/// keeping only keys of width twice the prime window size.
pub fn build_composite_index(primes: &Vec<BigNat>, prime_size: usize) -> (r: CompositeIndex)
    requires
        all_wf(primes@),
        prime_size >= 1,
        prime_size <= usize::MAX / 2,
    ensures
        r.wf(),
        r.width_spec() == 2 * prime_size,
        forall|m: int|
            0 <= m < r.num_cands() ==> has_value(primes@, (#[trigger] r.cand(m)).p.value())
                && has_value(primes@, r.cand(m).q.value()),
        forall|j: int, l: int|
            0 <= j <= l < primes@.len() ==> pair_covered(
                r.cands_rep(),
                (#[trigger] primes@[j]).value(),
                (#[trigger] primes@[l]).value(),
            ),
{
    let k = primes.len();
    let mut cands: Vec<CompositeCandidate> = Vec::new();
    let mut j: usize = 0;
    while j < k
        invariant
            k == primes@.len(),
            all_wf(primes@),
            j <= k,
            forall|m: int|
                0 <= m < cands@.len() ==> candidate_wf(#[trigger] cands@[m]) && has_value(
                    primes@,
                    cands@[m].p.value(),
                ) && has_value(primes@, cands@[m].q.value()),
            forall|j0: int, l0: int|
                0 <= j0 <= l0 < k && j0 < j ==> pair_covered(
                    cands@,
                    (#[trigger] primes@[j0]).value(),
                    (#[trigger] primes@[l0]).value(),
                ),
        decreases k - j,
    {
        let mut l: usize = j;
        while l < k
            invariant
                k == primes@.len(),
                all_wf(primes@),
                j < k,
                j <= l <= k,
                forall|m: int|
                    0 <= m < cands@.len() ==> candidate_wf(#[trigger] cands@[m]) && has_value(
                        primes@,
                        cands@[m].p.value(),
                    ) && has_value(primes@, cands@[m].q.value()),
                forall|j0: int, l0: int|
                    0 <= j0 <= l0 < k && (j0 < j || (j0 == j && l0 < l)) ==> pair_covered(
                        cands@,
                        (#[trigger] primes@[j0]).value(),
                        (#[trigger] primes@[l0]).value(),
                    ),
            decreases k - l,
        {
            let ghost c0 = cands@;
            let a = &primes[j];
            let b = &primes[l];
            let c = if a.le(b) {
                CompositeCandidate { p: a.duplicate(), q: b.duplicate(), n: a.mul(b) }
            } else {
                CompositeCandidate { p: b.duplicate(), q: a.duplicate(), n: b.mul(a) }
            };
            proof {
                assert(candidate_wf(c));
                assert(pair_of(c, primes@[j as int].value(), primes@[l as int].value()));
                assert(has_value(primes@, primes@[j as int].value()));
                assert(has_value(primes@, primes@[l as int].value()));
            }
            cands.push(c);
            proof {
                assert(cands@ == c0.push(c));
                assert(cands@[c0.len() as int] == c);
                assert(pair_covered(
                    cands@,
                    primes@[j as int].value(),
                    primes@[l as int].value(),
                ));
                assert forall|j0: int, l0: int|
                    0 <= j0 <= l0 < k && (j0 < j || (j0 == j && l0 < l as int
                        + 1)) implies pair_covered(
                    cands@,
                    (#[trigger] primes@[j0]).value(),
                    (#[trigger] primes@[l0]).value(),
                ) by {
                    if j0 < j as int || l0 < l as int {
                        assert(pair_covered(c0, primes@[j0].value(), primes@[l0].value()));
                        lemma_pair_covered_push(
                            c0,
                            c,
                            primes@[j0].value(),
                            primes@[l0].value(),
                        );
                    }
                }
                assert forall|m: int|
                    0 <= m < cands@.len() implies candidate_wf(#[trigger] cands@[m]) && has_value(
                    primes@,
                    cands@[m].p.value(),
                ) && has_value(primes@, cands@[m].q.value()) by {
                    if m < c0.len() {
                        assert(candidate_wf(c0[m]));
                        assert(has_value(primes@, c0[m].p.value()));
                        assert(has_value(primes@, c0[m].q.value()));
                    }
                }
            }
            l += 1;
        }
        j += 1;
    }
    let width = 2 * prime_size;
    let mut entries: Vec<(Vec<u8>, usize)> = Vec::new();
    let mut pid: usize = 0;
    let m = cands.len();
    while pid < m
        invariant
            m == cands@.len(),
            pid <= m,
            k == primes@.len(),
            forall|x: int|
                0 <= x < cands@.len() ==> candidate_wf(#[trigger] cands@[x]) && has_value(
                    primes@,
                    cands@[x].p.value(),
                ) && has_value(primes@, cands@[x].q.value()),
            forall|j0: int, l0: int|
                0 <= j0 <= l0 < k ==> pair_covered(
                    cands@,
                    (#[trigger] primes@[j0]).value(),
                    (#[trigger] primes@[l0]).value(),
                ),
            width == 2 * prime_size,
            forall|j1: int, j2: int|
                0 <= j1 < j2 < entries@.len() ==> #[trigger] entries@[j1].0@
                    != #[trigger] entries@[j2].0@,
            forall|j0: int|
                0 <= j0 < entries@.len() ==> {
                    &&& 0 <= #[trigger] entries@[j0].1 < cands@.len()
                    &&& (entries@[j0].0@ == msf_key(cands@[entries@[j0].1 as int])
                        || entries@[j0].0@ == lsf_key(cands@[entries@[j0].1 as int]))
                    &&& entries@[j0].0@.len() == width
                },
            forall|x: int|
                0 <= x < pid && msf_key(#[trigger] cands@[x]).len() == width ==> exists|j0: int|
                    0 <= j0 < entries@.len() && #[trigger] entries@[j0].0@ == msf_key(cands@[x]),
            forall|x: int|
                0 <= x < pid && lsf_key(#[trigger] cands@[x]).len() == width ==> exists|j0: int|
                    0 <= j0 < entries@.len() && #[trigger] entries@[j0].0@ == lsf_key(cands@[x]),
        decreases m - pid,
    {
        let ghost ebefore = entries@;
        let key1 = cands[pid].n.to_msf_bytes();
        proof {
            assert(key1@ == msf_key(cands@[pid as int]));
        }
        if key1.len() == width {
            insert_if_absent(&mut entries, key1, pid);
        }
        let ghost emid = entries@;
        let key2 = cands[pid].n.to_lsf_bytes();
        proof {
            assert(key2@ == lsf_key(cands@[pid as int]));
        }
        if key2.len() == width {
            insert_if_absent(&mut entries, key2, pid);
        }
        proof {
            assert(emid == ebefore || emid == ebefore.push((key1, pid)));
            assert(entries@ == emid || entries@ == emid.push((key2, pid)));
            assert forall|x: int|
                0 <= x < pid as int + 1 && msf_key(#[trigger] cands@[x]).len()
                    == width implies exists|j0: int|
                0 <= j0 < entries@.len() && #[trigger] entries@[j0].0@ == msf_key(cands@[x]) by {
                if x < pid as int {
                    let j0 = choose|j0: int|
                        0 <= j0 < ebefore.len() && #[trigger] ebefore[j0].0@ == msf_key(cands@[x]);
                    assert(entries@[j0].0@ == msf_key(cands@[x]));
                } else {
                    let j0 = choose|j0: int|
                        0 <= j0 < emid.len() && #[trigger] emid[j0].0@ == key1@;
                    assert(entries@[j0].0@ == key1@);
                }
            }
            assert forall|x: int|
                0 <= x < pid as int + 1 && lsf_key(#[trigger] cands@[x]).len()
                    == width implies exists|j0: int|
                0 <= j0 < entries@.len() && #[trigger] entries@[j0].0@ == lsf_key(cands@[x]) by {
                if x < pid as int {
                    let j0 = choose|j0: int|
                        0 <= j0 < ebefore.len() && #[trigger] ebefore[j0].0@ == lsf_key(cands@[x]);
                    assert(entries@[j0].0@ == lsf_key(cands@[x]));
                }
            }
        }
        pid += 1;
    }
    let ghost cfinal = cands@;
    let ghost efinal = entries@;
    let idx = CompositeIndex { cands, entries, width };
    proof {
        assert(idx.cands_rep() == cfinal);
        assert(idx.entries_rep() == efinal);
        assert forall|pid2: int|
            0 <= pid2 < idx.num_cands() && msf_key(#[trigger] idx.cand(pid2)).len()
                == idx.width_spec() implies idx.key_covered(msf_key(idx.cand(pid2))) by {
            let j0 = choose|j0: int|
                0 <= j0 < efinal.len() && #[trigger] efinal[j0].0@ == msf_key(cfinal[pid2]);
            assert(idx.entry_key(j0) == msf_key(idx.cand(pid2)));
        }
        assert forall|pid2: int|
            0 <= pid2 < idx.num_cands() && lsf_key(#[trigger] idx.cand(pid2)).len()
                == idx.width_spec() implies idx.key_covered(lsf_key(idx.cand(pid2))) by {
            let j0 = choose|j0: int|
                0 <= j0 < efinal.len() && #[trigger] efinal[j0].0@ == lsf_key(cfinal[pid2]);
            assert(idx.entry_key(j0) == lsf_key(idx.cand(pid2)));
        }
        assert forall|j0: int|
            0 <= j0 < idx.num_entries() implies {
            &&& 0 <= #[trigger] idx.entry_pid(j0) < idx.num_cands()
            &&& (idx.entry_key(j0) == msf_key(idx.cand(idx.entry_pid(j0))) || idx.entry_key(j0)
                == lsf_key(idx.cand(idx.entry_pid(j0))))
            &&& idx.entry_key(j0).len() == idx.width_spec()
        } by {
            assert(0 <= efinal[j0].1 < cfinal.len());
        }
        assert forall|j1: int, j2: int|
            0 <= j1 < j2 < idx.num_entries() implies #[trigger] idx.entry_key(j1)
            != #[trigger] idx.entry_key(j2) by {
            assert(efinal[j1].0@ != efinal[j2].0@);
        }
    }
    idx
}

} // verus!
