//! The end-to-end pipeline: scan the buffer for confirmed primes, warn when
//! the pair construction ahead is quadratic in a large count, build the
//! composite index, and run the selected matcher, reporting confirmed
//! (P, Q, N) triples.
use crate::bignum::BigNat;
use crate::bignum::lemma_minimal_injective;
use crate::bignum::minimal;
use crate::bignum::value_of;
use crate::index::CompositeIndex;
use crate::index::build_composite_index;
use crate::index::candidate_wf;
use crate::index::lsf_key;
use crate::index::msf_key;
use crate::index::occurs;
use crate::index::pair_of;
use crate::matcher::finder_aho_corasick;
use crate::matcher::finder_rabin_karp;
use crate::matcher::finder_sliding_window;
use crate::matcher::result_matches;
use crate::scan::ScanError;
use crate::scan::find_confirmed_primes;
use crate::scan::has_value;
use crate::scan::is_confirmed_set;
use vstd::prelude::*;

verus! {

/// Above this many confirmed primes, the quadratic pair construction ahead
/// threatens to exhaust memory: warn, but proceed.
pub const PRIMES_WARNING_THRESHOLD: usize = 1000;

/// Which of the three matchers runs.
#[derive(Clone, Copy, Debug, PartialEq, Eq, Structural)]
pub enum MatcherStrategy {
    /// The direct sliding-window lookup.
    Naive,
    /// The multi-pattern automaton pass.
    Automaton,
    /// The rolling-fingerprint filter with exact re-verification.
    RollingHash,
}

/// The options the pipeline consumes.
pub struct PipelineConfig {
    /// Byte width of a single prime's window; must be positive.
    pub prime_size: usize,
    /// Minimum zero-byte run that disqualifies a window; must be positive.
    pub null_filter_length: usize,
    /// Report the confirmed primes alone and skip matching.
    pub dump_primes: bool,
    /// The matcher to run.
    pub strategy: MatcherStrategy,
}

/// A confirmed triple: the product of the canonical pair (P, Q) was found
/// in the buffer.
pub struct MatchResult {
    /// The smaller prime.
    pub p: BigNat,
    /// The larger prime.
    pub q: BigNat,
    /// Their product, whose byte encoding occurs in the buffer.
    pub n: BigNat,
}

/// What a pipeline run reports.
pub struct PipelineReport {
    /// The deduplicated confirmed primes of the buffer.
    pub primes: Vec<BigNat>,
    /// Whether the confirmed count crossed the memory advisory threshold.
    pub advisory: bool,
    /// The matched triples; absent when only the primes were asked for.
    pub matches: Option<Vec<MatchResult>>,
}

/// The advisory fires strictly above the threshold.
pub fn resource_exhaustion_advisory(count: usize) -> (r: bool)
    ensures
        r == (count > PRIMES_WARNING_THRESHOLD),
{
    count > PRIMES_WARNING_THRESHOLD
}

/// Every reported triple is sound: a well-formed canonical pair of
/// confirmed primes whose product's encoding, at the scanned width, occurs
/// in the buffer in one of the two byte orders.
pub open spec fn report_matches_ok(
    buf: Seq<u8>,
    ps: int,
    primes: Seq<BigNat>,
    ms: Seq<MatchResult>,
) -> bool {
    forall|x: int|
        0 <= x < ms.len() ==> {
            &&& (#[trigger] ms[x]).p.wf()
            &&& ms[x].q.wf()
            &&& ms[x].n.wf()
            &&& ms[x].p.value() <= ms[x].q.value()
            &&& ms[x].n.value() == ms[x].p.value() * ms[x].q.value()
            &&& has_value(primes, ms[x].p.value())
            &&& has_value(primes, ms[x].q.value())
            &&& ms[x].n.bytes_rep().len() == 2 * ps
            &&& (occurs(buf, ms[x].n.bytes_rep()) || occurs(buf, ms[x].n.bytes_rep().reverse()))
        }
}

/// Some reported triple's product is encoded by `key`, in one of the two
/// byte orders.
pub open spec fn pair_reported(ms: Seq<MatchResult>, key: Seq<u8>) -> bool {
    exists|x: int|
        0 <= x < ms.len() && ((#[trigger] ms[x]).n.bytes_rep() == key || ms[x].n.bytes_rep()
            == key.reverse())
}

/// No matched product is missed: whenever the minimal encoding of a product
/// of two confirmed primes has the scanned width and occurs in the buffer
/// in either byte order, some reported triple carries that encoding.
pub open spec fn report_matches_complete(
    buf: Seq<u8>,
    ps: int,
    primes: Seq<BigNat>,
    ms: Seq<MatchResult>,
) -> bool {
    forall|v1: nat, v2: nat, key: Seq<u8>|
        #![trigger has_value(primes, v1), has_value(primes, v2), value_of(key)]
        has_value(primes, v1) && has_value(primes, v2) && v1 <= v2 && minimal(key) && key.len()
            == 2 * ps && value_of(key) == v1 * v2 && (occurs(buf, key) || occurs(
            buf,
            key.reverse(),
        )) ==> pair_reported(ms, key)
}

/// Canonical pairing: two canonical results whose pairs are mutual swaps
/// carry the same pair, so no two reported triples can hold (P, Q) and
/// (Q, P) as distinct pairs.
pub proof fn lemma_canonical_pairing(p1: nat, q1: nat, p2: nat, q2: nat)
    requires
        p1 <= q1,
        p2 <= q2,
        p1 == q2,
        q1 == p2,
    ensures
        p1 == p2,
        q1 == q2,
{
}

/// Runs the whole pipeline on a buffer.
pub fn run_pipeline(buf: &[u8], config: &PipelineConfig) -> (r: Result<
    PipelineReport,
    ScanError,
>)
    requires
        config.prime_size <= usize::MAX / 2,
    ensures
        match r {
            Ok(rep) => {
                &&& config.prime_size >= 1
                &&& config.null_filter_length >= 1
                &&& config.prime_size <= buf@.len()
                &&& is_confirmed_set(
                    buf@,
                    config.prime_size as int,
                    config.null_filter_length as int,
                    rep.primes@,
                )
                &&& rep.advisory == (rep.primes@.len() > PRIMES_WARNING_THRESHOLD)
                &&& (config.dump_primes ==> rep.matches is None)
                &&& (!config.dump_primes ==> (rep.matches matches Some(ms) && (report_matches_ok(
                    buf@,
                    config.prime_size as int,
                    rep.primes@,
                    ms@,
                ) && report_matches_complete(
                    buf@,
                    config.prime_size as int,
                    rep.primes@,
                    ms@,
                ))))
            },
            Err(e) => match e {
                ScanError::InvalidPrimeSize => config.prime_size == 0,
                ScanError::InvalidNullFilterLength => config.prime_size >= 1
                    && config.null_filter_length == 0,
                ScanError::PrimeSizeExceedsBuffer => config.prime_size >= 1
                    && config.null_filter_length >= 1 && config.prime_size > buf@.len(),
            },
        },
{
    let primes = match find_confirmed_primes(buf, config.prime_size, config.null_filter_length) {
        Ok(p) => p,
        Err(e) => {
            return Err(e);
        },
    };
    let advisory = resource_exhaustion_advisory(primes.len());
    if config.dump_primes {
        return Ok(PipelineReport { primes, advisory, matches: None });
    }
    let index = build_composite_index(&primes, config.prime_size);
    let picked = match config.strategy {
        MatcherStrategy::Naive => finder_sliding_window(&index, buf),
        MatcherStrategy::Automaton => finder_aho_corasick(&index, buf),
        MatcherStrategy::RollingHash => finder_rabin_karp(&index, buf),
    };
    let total = picked.len();
    let mut ms: Vec<MatchResult> = Vec::new();
    let mut x: usize = 0;
    while x < total
        invariant
            index.wf(),
            result_matches(&index, buf@, picked@),
            total == picked@.len(),
            x <= total,
            ms@.len() == x,
            forall|x0: int|
                0 <= x0 < x ==> {
                    &&& (#[trigger] ms@[x0]).p.bytes_rep() == index.cand(
                        picked@[x0] as int,
                    ).p.bytes_rep()
                    &&& ms@[x0].q.bytes_rep() == index.cand(picked@[x0] as int).q.bytes_rep()
                    &&& ms@[x0].n.bytes_rep() == index.cand(picked@[x0] as int).n.bytes_rep()
                },
        decreases total - x,
    {
        let pid = picked[x];
        proof {
            assert(picked@[x as int] < index.num_cands());
        }
        let cand = index.candidate(pid);
        let triple = MatchResult {
            p: cand.p.duplicate(),
            q: cand.q.duplicate(),
            n: cand.n.duplicate(),
        };
        ms.push(triple);
        x += 1;
    }
    proof {
        let ps = config.prime_size as int;
        let pseq = primes@;
        assert forall|x0: int| 0 <= x0 < ms@.len() implies {
            &&& (#[trigger] ms@[x0]).p.wf()
            &&& ms@[x0].q.wf()
            &&& ms@[x0].n.wf()
            &&& ms@[x0].p.value() <= ms@[x0].q.value()
            &&& ms@[x0].n.value() == ms@[x0].p.value() * ms@[x0].q.value()
            &&& has_value(pseq, ms@[x0].p.value())
            &&& has_value(pseq, ms@[x0].q.value())
            &&& ms@[x0].n.bytes_rep().len() == 2 * ps
            &&& (occurs(buf@, ms@[x0].n.bytes_rep()) || occurs(
                buf@,
                ms@[x0].n.bytes_rep().reverse(),
            ))
        } by {
            let pid = picked@[x0] as int;
            assert(picked@[x0] < index.num_cands() && index.matched(buf@, pid));
            let c = index.cand(pid);
            assert(candidate_wf(c));
            let j = choose|j: int|
                0 <= j < index.num_entries() && #[trigger] index.entry_pid(j) == pid && occurs(
                    buf@,
                    index.entry_key(j),
                );
            assert(index.entry_key(j).len() == index.width_spec());
            assert(index.entry_key(j) == msf_key(c) || index.entry_key(j) == lsf_key(c));
            if index.entry_key(j) == msf_key(c) {
                assert(occurs(buf@, c.n.bytes_rep()));
                assert(c.n.bytes_rep().len() == 2 * ps);
            } else {
                assert(occurs(buf@, c.n.bytes_rep().reverse()));
                assert(c.n.bytes_rep().reverse().len() == 2 * ps);
            }
        }
        assert forall|v1: nat, v2: nat, key: Seq<u8>|
            #![trigger has_value(pseq, v1), has_value(pseq, v2), value_of(key)]
            has_value(pseq, v1) && has_value(pseq, v2) && v1 <= v2 && minimal(key) && key.len()
                == 2 * ps && value_of(key) == v1 * v2 && (occurs(buf@, key) || occurs(
                buf@,
                key.reverse(),
            )) implies pair_reported(ms@, key) by {
            let j1 = choose|k: int| 0 <= k < pseq.len() && (#[trigger] pseq[k]).value() == v1;
            let j2 = choose|k: int| 0 <= k < pseq.len() && (#[trigger] pseq[k]).value() == v2;
            let lo = if j1 <= j2 { j1 } else { j2 };
            let hi = if j1 <= j2 { j2 } else { j1 };
            assert(0 <= lo <= hi < pseq.len());
            assert(crate::index::pair_covered(
                index.cands_rep(),
                pseq[lo].value(),
                pseq[hi].value(),
            ));
            let m = choose|m: int|
                0 <= m < index.cands_rep().len() && pair_of(
                    #[trigger] index.cands_rep()[m],
                    pseq[lo].value(),
                    pseq[hi].value(),
                );
            let c = index.cand(m);
            assert(candidate_wf(c));
            assert(c.p.value() * c.q.value() == v1 * v2) by (nonlinear_arith)
                requires
                    (c.p.value() == v1 && c.q.value() == v2) || (c.p.value() == v2 && c.q.value()
                        == v1),
            ;
            assert(c.n.value() == value_of(key));
            lemma_minimal_injective(c.n.bytes_rep(), key);
            assert(c.n.bytes_rep() == key);
            assert(msf_key(c) == key);
            assert(lsf_key(c) == key.reverse());
            if occurs(buf@, key) {
                assert(msf_key(c).len() == index.width_spec());
                assert(index.key_covered(msf_key(c)));
                let j = choose|j: int|
                    0 <= j < index.num_entries() && index.entry_key(j) == msf_key(c);
                assert(index.matched(buf@, index.entry_pid(j)));
                report_covers(&index, buf@, picked@, ms@, j, key);
            } else {
                assert(occurs(buf@, key.reverse()));
                assert(lsf_key(c).len() == index.width_spec());
                assert(index.key_covered(lsf_key(c)));
                let j = choose|j: int|
                    0 <= j < index.num_entries() && index.entry_key(j) == lsf_key(c);
                assert(index.matched(buf@, index.entry_pid(j)));
                report_covers(&index, buf@, picked@, ms@, j, key);
            }
        }
    }
    Ok(PipelineReport { primes, advisory, matches: Some(ms) })
}

/// From a matched entry whose key encodes the product in one of the two
/// orders, some reported triple carries that encoding.
proof fn report_covers(
    idx: &CompositeIndex,
    buf: Seq<u8>,
    picked: Seq<usize>,
    ms: Seq<MatchResult>,
    j: int,
    key: Seq<u8>,
)
    requires
        idx.wf(),
        result_matches(idx, buf, picked),
        ms.len() == picked.len(),
        forall|x0: int|
            0 <= x0 < ms.len() ==> (#[trigger] ms[x0]).n.bytes_rep() == idx.cand(
                picked[x0] as int,
            ).n.bytes_rep(),
        0 <= j < idx.num_entries(),
        idx.entry_key(j) == key || idx.entry_key(j) == key.reverse(),
        idx.matched(buf, idx.entry_pid(j)),
    ensures
        pair_reported(ms, key),
{
    let pid = idx.entry_pid(j);
    assert(0 <= pid < idx.num_cands());
    assert(picked.contains(pid as usize));
    let x0 = choose|x0: int| 0 <= x0 < picked.len() && picked[x0] == pid as usize;
    let c = idx.cand(pid);
    assert(ms[x0].n.bytes_rep() == c.n.bytes_rep());
    assert(idx.entry_key(j) == msf_key(c) || idx.entry_key(j) == lsf_key(c));
    assert(key.reverse().reverse() =~= key);
    if idx.entry_key(j) == key {
        if idx.entry_key(j) == msf_key(c) {
            assert(ms[x0].n.bytes_rep() == key);
        } else {
            assert(c.n.bytes_rep().reverse() == key);
            assert(c.n.bytes_rep() =~= key.reverse());
            assert(ms[x0].n.bytes_rep() == key.reverse());
        }
    } else {
        if idx.entry_key(j) == msf_key(c) {
            assert(ms[x0].n.bytes_rep() == key.reverse());
        } else {
            assert(c.n.bytes_rep().reverse() == key.reverse());
            assert(c.n.bytes_rep() =~= key);
            assert(ms[x0].n.bytes_rep() == key);
        }
    }
    assert(pair_reported(ms, key));
}

} // verus!
