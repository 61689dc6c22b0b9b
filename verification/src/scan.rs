//! Window scanner and primality filter: slides a fixed-size window over the
//! buffer, discards windows holding a long run of zero bytes, interprets the
//! survivors in both byte orders and keeps the values that pass a two-stage
//! probabilistic primality test, deduplicated by value.
use crate::bignum::BigNat;
use crate::bignum::probable_prime;
use crate::bignum::value_of;
use vstd::prelude::*;
use vstd::slice::slice_index_get;
use vstd::slice::slice_subrange;

verus! {

/// Rounds of the cheap first stage of the primality test.
pub const STAGE_ONE_ROUNDS: u32 = 1;

/// Rounds of the expensive second stage, run on first-stage survivors.
pub const STAGE_TWO_ROUNDS: u32 = 20;

/// The window of `ps` bytes at offset `i`.
pub open spec fn window_at(buf: Seq<u8>, ps: int, i: int) -> Seq<u8> {
    buf.subrange(i, i + ps)
}

/// `nfl` consecutive zero bytes start at offset `j` of `w`.
pub open spec fn zero_run_at(w: Seq<u8>, nfl: int, j: int) -> bool {
    &&& 0 <= j
    &&& j + nfl <= w.len()
    &&& forall|k: int| j <= k < j + nfl ==> w[k] == 0
}

/// `w` holds a run of at least `nfl` consecutive zero bytes somewhere.
pub open spec fn has_zero_run(w: Seq<u8>, nfl: int) -> bool {
    exists|j: int| zero_run_at(w, nfl, j)
}

/// The window at `i` exists and survives the structural null-run filter.
pub open spec fn window_admitted(buf: Seq<u8>, ps: int, nfl: int, i: int) -> bool {
    &&& 0 <= i
    &&& i + ps <= buf.len()
    &&& !has_zero_run(window_at(buf, ps, i), nfl)
}

/// The value passes both stages of the primality test.
pub open spec fn two_stage_accepts(v: nat) -> bool {
    probable_prime(v, STAGE_ONE_ROUNDS) && probable_prime(v, STAGE_TWO_ROUNDS)
}

/// `v` is read, in one of the two byte orders, from an admitted window at
/// some offset below `bound`, and passes the two-stage test.
pub open spec fn confirmed_below(buf: Seq<u8>, ps: int, nfl: int, bound: int, v: nat) -> bool {
    exists|i: int|
        #![trigger window_admitted(buf, ps, nfl, i)]
        {
            &&& i < bound
            &&& window_admitted(buf, ps, nfl, i)
            &&& (v == value_of(window_at(buf, ps, i)) || v == value_of(
                window_at(buf, ps, i).reverse(),
            ))
            &&& two_stage_accepts(v)
        }
}

/// `v` is a confirmed prime of the whole buffer.
pub open spec fn confirmed_value(buf: Seq<u8>, ps: int, nfl: int, v: nat) -> bool {
    confirmed_below(buf, ps, nfl, buf.len() - ps + 1, v)
}

/// Some element of `s` has value `v`.
pub open spec fn has_value(s: Seq<BigNat>, v: nat) -> bool {
    exists|k: int| 0 <= k < s.len() && (#[trigger] s[k]).value() == v
}

/// Every element is well-formed.
pub open spec fn all_wf(s: Seq<BigNat>) -> bool {
    forall|k: int| 0 <= k < s.len() ==> (#[trigger] s[k]).wf()
}

/// No two elements share a value.
pub open spec fn distinct_values(s: Seq<BigNat>) -> bool {
    forall|k1: int, k2: int|
        0 <= k1 < k2 < s.len() ==> (#[trigger] s[k1]).value() != (#[trigger] s[k2]).value()
}

/// The scan's result is exactly the set of confirmed values of the buffer,
/// well-formed and deduplicated.
pub open spec fn is_confirmed_set(buf: Seq<u8>, ps: int, nfl: int, primes: Seq<BigNat>) -> bool {
    &&& all_wf(primes)
    &&& distinct_values(primes)
    &&& forall|v: nat| has_value(primes, v) <==> confirmed_value(buf, ps, nfl, v)
}

/// The inputs on which no scan is possible.
#[derive(Clone, Copy, Debug, PartialEq, Eq, Structural)]
pub enum ScanError {
    /// `prime_size` was zero.
    InvalidPrimeSize,
    /// `null_filter_length` was zero.
    InvalidNullFilterLength,
    /// `prime_size` exceeds the buffer length, so no window exists.
    PrimeSizeExceedsBuffer,
}

/// `nfl` consecutive zero bytes start at `j` in `w`: the executable check.
fn zero_run_check(w: &[u8], j: usize, nfl: usize) -> (r: bool)
    requires
        j + nfl <= w@.len(),
    ensures
        r == zero_run_at(w@, nfl as int, j as int),
{
    let len = w.len();
    let mut k: usize = j;
    while k < j + nfl
        invariant
            j <= k <= j + nfl,
            j + nfl <= len,
            len == w@.len(),
            forall|x: int| j <= x < k ==> w@[x] == 0,
        decreases j + nfl - k,
    {
        if *slice_index_get(w, k) != 0 {
            return false;
        }
        k += 1;
    }
    true
}

/// Whether the window holds a run of `nfl` consecutive zero bytes.
fn window_has_zero_run(w: &[u8], nfl: usize) -> (r: bool)
    requires
        nfl >= 1,
    ensures
        r == has_zero_run(w@, nfl as int),
{
    if nfl > w.len() {
        proof {
            assert forall|j: int| !zero_run_at(w@, nfl as int, j) by {}
        }
        return false;
    }
    let len = w.len();
    let last = len - nfl;
    let mut j: usize = 0;
    while j <= last
        invariant
            nfl >= 1,
            nfl <= len,
            len == w@.len(),
            last == len - nfl,
            j <= last + 1,
            forall|x: int| 0 <= x < j ==> !zero_run_at(w@, nfl as int, x),
        decreases last + 1 - j,
    {
        if zero_run_check(w, j, nfl) {
            return true;
        }
        j += 1;
    }
    proof {
        assert forall|x: int| !zero_run_at(w@, nfl as int, x) by {
            if 0 <= x && x + nfl <= w@.len() {
                assert(x < j);
            }
        }
    }
    false
}

/// Tests a candidate with the two-stage primality test and, when it passes,
/// inserts it unless its value is already present.
fn consider_candidate(primes: &mut Vec<BigNat>, cand: BigNat)
    requires
        cand.wf(),
        all_wf(old(primes)@),
        distinct_values(old(primes)@),
    ensures
        all_wf(final(primes)@),
        distinct_values(final(primes)@),
        forall|v: nat| #![trigger has_value(old(primes)@, v)]
            has_value(old(primes)@, v) ==> has_value(final(primes)@, v),
        two_stage_accepts(cand.value()) ==> has_value(final(primes)@, cand.value()),
        forall|v: nat| #![trigger has_value(final(primes)@, v)]
            has_value(final(primes)@, v) ==> has_value(old(primes)@, v) || (v == cand.value()
                && two_stage_accepts(v)),
{
    let ghost p0 = primes@;
    if cand.probably_prime(STAGE_ONE_ROUNDS) && cand.probably_prime(STAGE_TWO_ROUNDS) {
        let mut k: usize = 0;
        let n = primes.len();
        while k < n
            invariant
                n == primes@.len(),
                primes@ == p0,
                k <= n,
                cand.wf(),
                all_wf(primes@),
                distinct_values(primes@),
                forall|x: int| 0 <= x < k ==> (#[trigger] primes@[x]).value() != cand.value(),
            decreases n - k,
        {
            if primes[k].eq_value(&cand) {
                proof {
                    assert(has_value(p0, cand.value()));
                }
                return;
            }
            k += 1;
        }
        primes.push(cand);
        proof {
            assert(primes@ == p0.push(cand));
            assert forall|v: nat| has_value(p0, v) implies has_value(primes@, v) by {
                let x = choose|x: int| 0 <= x < p0.len() && (#[trigger] p0[x]).value() == v;
                assert(primes@[x].value() == v);
            }
            assert(primes@[p0.len() as int] == cand);
            assert(has_value(primes@, cand.value()));
            assert forall|v: nat|
                has_value(primes@, v) implies has_value(p0, v) || (v == cand.value()
                && two_stage_accepts(v)) by {
                let x = choose|x: int| 0 <= x < primes@.len() && (#[trigger] primes@[x]).value()
                    == v;
                if x < p0.len() {
                    assert(p0[x].value() == v);
                } else {
                    assert(primes@[x] == cand);
                }
            }
            assert(all_wf(primes@)) by {
                assert forall|x: int| 0 <= x < primes@.len() implies (
                #[trigger] primes@[x]).wf() by {
                    if x < p0.len() {
                        assert(p0[x].wf());
                    }
                }
            }
            assert(distinct_values(primes@)) by {
                assert forall|k1: int, k2: int| 0 <= k1 < k2 < primes@.len() implies (
                #[trigger] primes@[k1]).value() != (#[trigger] primes@[k2]).value() by {
                    if k2 < p0.len() {
                        assert(p0[k1].value() != p0[k2].value());
                    } else {
                        assert(primes@[k2] == cand);
                        assert(p0[k1].value() != cand.value());
                    }
                }
            }
        }
    } else {
        proof {
            assert(!two_stage_accepts(cand.value()));
        }
    }
}

/// Scans every window of `prime_size` bytes of the buffer, filters out those
/// holding `null_filter_length` consecutive zero bytes, reads each survivor
/// in both byte orders and collects the values that pass the two-stage
/// primality test, without duplicates. The result is exactly the confirmed
/// set of the buffer, whatever order the windows are visited in.
pub fn find_confirmed_primes(buf: &[u8], prime_size: usize, null_filter_length: usize) -> (r:
    Result<Vec<BigNat>, ScanError>)
    ensures
        match r {
            Ok(primes) => {
                &&& prime_size >= 1
                &&& null_filter_length >= 1
                &&& prime_size <= buf@.len()
                &&& is_confirmed_set(
                    buf@,
                    prime_size as int,
                    null_filter_length as int,
                    primes@,
                )
            },
            Err(e) => match e {
                ScanError::InvalidPrimeSize => prime_size == 0,
                ScanError::InvalidNullFilterLength => prime_size >= 1 && null_filter_length == 0,
                ScanError::PrimeSizeExceedsBuffer => prime_size >= 1 && null_filter_length >= 1
                    && prime_size > buf@.len(),
            },
        },
{
    let n = buf.len();
    if prime_size == 0 {
        return Err(ScanError::InvalidPrimeSize);
    }
    if null_filter_length == 0 {
        return Err(ScanError::InvalidNullFilterLength);
    }
    if prime_size > n {
        return Err(ScanError::PrimeSizeExceedsBuffer);
    }
    let ghost psi = prime_size as int;
    let ghost nfli = null_filter_length as int;
    let last = n - prime_size;
    let mut primes: Vec<BigNat> = Vec::new();
    let mut i: usize = 0;
    while i <= last
        invariant
            1 <= prime_size <= n,
            null_filter_length >= 1,
            n == buf@.len(),
            last == n - prime_size,
            psi == prime_size as int,
            nfli == null_filter_length as int,
            i <= last + 1,
            all_wf(primes@),
            distinct_values(primes@),
            forall|v: nat| has_value(primes@, v) <==> confirmed_below(buf@, psi, nfli, i as int, v),
        decreases last + 1 - i,
    {
        let ghost pbefore = primes@;
        let w = slice_subrange(buf, i, i + prime_size);
        let ghost win = window_at(buf@, psi, i as int);
        proof {
            assert(w@ == win);
        }
        if !window_has_zero_run(w, null_filter_length) {
            proof {
                assert(window_admitted(buf@, psi, nfli, i as int));
            }
            let c1 = BigNat::from_msf_bytes(w);
            consider_candidate(&mut primes, c1);
            let ghost pmid = primes@;
            let c2 = BigNat::from_lsf_bytes(w);
            consider_candidate(&mut primes, c2);
            proof {
                let v1 = value_of(win);
                let v2 = value_of(win.reverse());
                assert(c1.value() == v1);
                assert(c2.value() == v2);
                assert forall|v: nat|
                    has_value(primes@, v) implies confirmed_below(
                    buf@,
                    psi,
                    nfli,
                    i as int + 1,
                    v,
                ) by {
                    assert(has_value(primes@, v));
                    assert(has_value(pmid, v) || (v == c2.value() && two_stage_accepts(v)));
                    if has_value(pmid, v) {
                        assert(has_value(pbefore, v) || (v == c1.value() && two_stage_accepts(v)));
                        if has_value(pbefore, v) {
                            assert(confirmed_below(buf@, psi, nfli, i as int, v));
                            let i0 = choose|i0: int|
                                #![trigger window_admitted(buf@, psi, nfli, i0)]
                                {
                                    &&& i0 < i as int
                                    &&& window_admitted(buf@, psi, nfli, i0)
                                    &&& (v == value_of(window_at(buf@, psi, i0)) || v == value_of(
                                        window_at(buf@, psi, i0).reverse(),
                                    ))
                                    &&& two_stage_accepts(v)
                                };
                            assert(i0 < i as int + 1);
                        } else {
                            assert(v == v1 && two_stage_accepts(v));
                            assert(window_admitted(buf@, psi, nfli, i as int));
                        }
                    } else {
                        assert(v == v2 && two_stage_accepts(v));
                        assert(window_admitted(buf@, psi, nfli, i as int));
                    }
                }
                assert forall|v: nat|
                    confirmed_below(buf@, psi, nfli, i as int + 1, v) implies has_value(
                    primes@,
                    v,
                ) by {
                    let i0 = choose|i0: int|
                        #![trigger window_admitted(buf@, psi, nfli, i0)]
                        {
                            &&& i0 < i as int + 1
                            &&& window_admitted(buf@, psi, nfli, i0)
                            &&& (v == value_of(window_at(buf@, psi, i0)) || v == value_of(
                                window_at(buf@, psi, i0).reverse(),
                            ))
                            &&& two_stage_accepts(v)
                        };
                    if i0 < i as int {
                        assert(confirmed_below(buf@, psi, nfli, i as int, v));
                        assert(has_value(pbefore, v));
                        assert(has_value(pmid, v));
                    } else {
                        assert(i0 == i as int);
                        assert(window_at(buf@, psi, i0) == win);
                        assert(v == v1 || v == v2);
                        if v == v1 {
                            assert(two_stage_accepts(c1.value()));
                            assert(has_value(pmid, v));
                        } else {
                            assert(two_stage_accepts(c2.value()));
                        }
                    }
                }
            }
        } else {
            proof {
                assert(!window_admitted(buf@, psi, nfli, i as int));
                assert forall|v: nat|
                    has_value(primes@, v) <==> confirmed_below(
                        buf@,
                        psi,
                        nfli,
                        i as int + 1,
                        v,
                    ) by {
                    if confirmed_below(buf@, psi, nfli, i as int + 1, v) {
                        let i0 = choose|i0: int|
                            #![trigger window_admitted(buf@, psi, nfli, i0)]
                            {
                                &&& i0 < i as int + 1
                                &&& window_admitted(buf@, psi, nfli, i0)
                                &&& (v == value_of(window_at(buf@, psi, i0)) || v == value_of(
                                    window_at(buf@, psi, i0).reverse(),
                                ))
                                &&& two_stage_accepts(v)
                            };
                        assert(i0 < i as int);
                        assert(confirmed_below(buf@, psi, nfli, i as int, v));
                    }
                    if confirmed_below(buf@, psi, nfli, i as int, v) {
                        let i0 = choose|i0: int|
                            #![trigger window_admitted(buf@, psi, nfli, i0)]
                            {
                                &&& i0 < i as int
                                &&& window_admitted(buf@, psi, nfli, i0)
                                &&& (v == value_of(window_at(buf@, psi, i0)) || v == value_of(
                                    window_at(buf@, psi, i0).reverse(),
                                ))
                                &&& two_stage_accepts(v)
                            };
                        assert(i0 < i as int + 1);
                    }
                }
            }
        }
        i += 1;
    }
    proof {
        assert(i as int == buf@.len() - psi + 1);
    }
    Ok(primes)
}

/// Determinism modulo iteration: any two collections that each satisfy the
/// scan's contract on the same buffer and parameters hold the same set of
/// values, whatever order or partition either scan used.
pub proof fn lemma_scan_deterministic(
    a: Seq<BigNat>,
    b: Seq<BigNat>,
    buf: Seq<u8>,
    ps: int,
    nfl: int,
)
    requires
        is_confirmed_set(buf, ps, nfl, a),
        is_confirmed_set(buf, ps, nfl, b),
    ensures
        forall|v: nat| has_value(a, v) <==> has_value(b, v),
{
}

/// Null-run exclusion: a window holding `nfl` consecutive zero bytes
/// anywhere is never admitted, so no confirmed prime is drawn from it: by
/// definition, a confirmed value comes from an admitted window only.
pub proof fn lemma_null_run_excluded(buf: Seq<u8>, ps: int, nfl: int, i: int, j: int)
    requires
        zero_run_at(window_at(buf, ps, i), nfl, j),
    ensures
        !window_admitted(buf, ps, nfl, i),
{
    assert(has_zero_run(window_at(buf, ps, i), nfl));
}

} // verus!
