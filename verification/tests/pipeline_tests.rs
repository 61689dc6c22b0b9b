use prime_finder::bignum::BigNat;
use prime_finder::pipeline::run_pipeline;
use prime_finder::pipeline::resource_exhaustion_advisory;
use prime_finder::pipeline::MatcherStrategy;
use prime_finder::pipeline::PipelineConfig;
use prime_finder::scan::find_confirmed_primes;
use prime_finder::scan::ScanError;

// A buffer holding the prime 65521 (0xFFF1), immediately followed by the
// byte encoding of N = 65519 * 65521 = 4292870399 (0xFFE000FF), with the
// prime 65519 (0xFFEF) elsewhere. Scanned at prime_size 2 with
// null_filter_length 2, the confirmed primes are exactly {65519, 65521}:
// every other window value, in both byte orders, is composite.
const SCENARIO: [u8; 8] = [0xFF, 0xF1, 0xFF, 0xE0, 0x00, 0xFF, 0xFF, 0xEF];

fn msf(b: &BigNat) -> Vec<u8> {
    b.to_msf_bytes()
}

fn sorted_prime_bytes(primes: &[BigNat]) -> Vec<Vec<u8>> {
    let mut v: Vec<Vec<u8>> = primes.iter().map(msf).collect();
    v.sort();
    v
}

#[test]
fn scan_rejects_zero_prime_size() {
    let r = find_confirmed_primes(&[1, 2, 3], 0, 1);
    assert!(matches!(r, Err(ScanError::InvalidPrimeSize)));
}

#[test]
fn scan_rejects_zero_null_filter_length() {
    let r = find_confirmed_primes(&[1, 2, 3], 1, 0);
    assert!(matches!(r, Err(ScanError::InvalidNullFilterLength)));
}

#[test]
fn scan_rejects_oversized_prime_size() {
    let r = find_confirmed_primes(&[1, 2, 3], 4, 1);
    assert!(matches!(r, Err(ScanError::PrimeSizeExceedsBuffer)));
}

#[test]
fn scan_finds_exactly_the_two_primes() {
    let primes = find_confirmed_primes(&SCENARIO, 2, 2).unwrap();
    let got = sorted_prime_bytes(&primes);
    assert_eq!(got, vec![vec![0xFF, 0xEF], vec![0xFF, 0xF1]]);
}

#[test]
fn scan_is_deterministic_across_runs() {
    let a = find_confirmed_primes(&SCENARIO, 2, 2).unwrap();
    let b = find_confirmed_primes(&SCENARIO, 2, 2).unwrap();
    assert_eq!(sorted_prime_bytes(&a), sorted_prime_bytes(&b));
}

#[test]
fn null_run_excludes_the_prime_window() {
    // 0x0025 read least-significant byte first is 37, a prime, but the
    // window holds a zero byte: with null_filter_length 1 it is discarded.
    let buf = [0x25u8, 0x00];
    let filtered = find_confirmed_primes(&buf, 2, 1).unwrap();
    assert!(filtered.is_empty());
    // With null_filter_length 2 the single zero byte is no run: the window
    // is admitted and 37 is confirmed.
    let admitted = find_confirmed_primes(&buf, 2, 2).unwrap();
    assert_eq!(sorted_prime_bytes(&admitted), vec![vec![0x25]]);
}

#[test]
fn advisory_threshold_is_strict() {
    assert!(resource_exhaustion_advisory(1001));
    assert!(!resource_exhaustion_advisory(1000));
    assert!(!resource_exhaustion_advisory(999));
}

fn config(strategy: MatcherStrategy, dump_primes: bool) -> PipelineConfig {
    PipelineConfig { prime_size: 2, null_filter_length: 2, dump_primes, strategy }
}

fn triples(strategy: MatcherStrategy) -> Vec<(Vec<u8>, Vec<u8>, Vec<u8>)> {
    let rep = run_pipeline(&SCENARIO, &config(strategy, false)).unwrap();
    assert!(!rep.advisory);
    rep.matches
        .unwrap()
        .iter()
        .map(|m| (msf(&m.p), msf(&m.q), msf(&m.n)))
        .collect()
}

#[test]
fn known_product_is_found_by_all_strategies() {
    let expected = vec![(
        vec![0xFFu8, 0xEF],
        vec![0xFFu8, 0xF1],
        vec![0xFFu8, 0xE0, 0x00, 0xFF],
    )];
    assert_eq!(triples(MatcherStrategy::Naive), expected);
    assert_eq!(triples(MatcherStrategy::Automaton), expected);
    assert_eq!(triples(MatcherStrategy::RollingHash), expected);
}

#[test]
fn strategies_agree_on_the_scenario() {
    let a = triples(MatcherStrategy::Naive);
    let b = triples(MatcherStrategy::Automaton);
    let c = triples(MatcherStrategy::RollingHash);
    assert_eq!(a, b);
    assert_eq!(b, c);
}

#[test]
fn results_are_canonically_paired() {
    for strategy in [
        MatcherStrategy::Naive,
        MatcherStrategy::Automaton,
        MatcherStrategy::RollingHash,
    ] {
        let ts = triples(strategy);
        for (p, q, _) in &ts {
            let pn = rug::Integer::from_digits(p, rug::integer::Order::Msf);
            let qn = rug::Integer::from_digits(q, rug::integer::Order::Msf);
            assert!(pn <= qn);
        }
        for (i, (p1, q1, _)) in ts.iter().enumerate() {
            for (j, (p2, q2, _)) in ts.iter().enumerate() {
                if i != j {
                    assert!(!(p1 == q2 && q1 == p2));
                }
            }
        }
    }
}

#[test]
fn confirmed_primes_pass_a_forty_round_reference_check() {
    let primes = find_confirmed_primes(&SCENARIO, 2, 2).unwrap();
    assert!(!primes.is_empty());
    for p in &primes {
        let n = rug::Integer::from_digits(&p.to_msf_bytes(), rug::integer::Order::Msf);
        assert!(!matches!(n.is_probably_prime(40), rug::integer::IsPrime::No));
    }
}

#[test]
fn reported_product_is_the_real_product() {
    for (p, q, n) in triples(MatcherStrategy::Naive) {
        let pn = rug::Integer::from_digits(&p, rug::integer::Order::Msf);
        let qn = rug::Integer::from_digits(&q, rug::integer::Order::Msf);
        let nn = rug::Integer::from_digits(&n, rug::integer::Order::Msf);
        assert_eq!(rug::Integer::from(&pn * &qn), nn);
    }
}

#[test]
fn dump_primes_skips_matching() {
    let rep = run_pipeline(&SCENARIO, &config(MatcherStrategy::Naive, true)).unwrap();
    assert!(rep.matches.is_none());
    assert_eq!(
        sorted_prime_bytes(&rep.primes),
        vec![vec![0xFF, 0xEF], vec![0xFF, 0xF1]]
    );
}

#[test]
fn pipeline_propagates_scan_errors() {
    let mut c = config(MatcherStrategy::Naive, false);
    c.prime_size = 100;
    assert!(matches!(
        run_pipeline(&SCENARIO, &c),
        Err(ScanError::PrimeSizeExceedsBuffer)
    ));
}

#[test]
fn self_pair_product_is_found() {
    // 251 is prime and 251 * 251 = 63001 (0xF619): the self-pair P = Q is
    // allowed, and its product is present right after the prime itself.
    let buf = [0xFBu8, 0xF6, 0x19];
    let c = PipelineConfig {
        prime_size: 1,
        null_filter_length: 1,
        dump_primes: false,
        strategy: MatcherStrategy::Naive,
    };
    let rep = run_pipeline(&buf, &c).unwrap();
    assert_eq!(sorted_prime_bytes(&rep.primes), vec![vec![0xFB]]);
    let found = rep.matches.unwrap();
    assert_eq!(found.len(), 1);
    assert_eq!(msf(&found[0].p), vec![0xFB]);
    assert_eq!(msf(&found[0].q), vec![0xFB]);
    assert_eq!(msf(&found[0].n), vec![0xF6, 0x19]);
}

#[test]
fn no_product_in_buffer_means_no_match() {
    // Both primes are present but no product of theirs occurs.
    let buf = [0xFFu8, 0xF1, 0xFF, 0xEF];
    for strategy in [
        MatcherStrategy::Naive,
        MatcherStrategy::Automaton,
        MatcherStrategy::RollingHash,
    ] {
        let c = PipelineConfig {
            prime_size: 2,
            null_filter_length: 2,
            dump_primes: false,
            strategy,
        };
        let rep = run_pipeline(&buf, &c).unwrap();
        assert_eq!(sorted_prime_bytes(&rep.primes), vec![vec![0xFF, 0xEF], vec![0xFF, 0xF1]]);
        assert!(rep.matches.unwrap().is_empty());
    }
}

#[test]
fn empty_buffer_has_no_window() {
    let r = find_confirmed_primes(&[], 1, 1);
    assert!(matches!(r, Err(ScanError::PrimeSizeExceedsBuffer)));
}
