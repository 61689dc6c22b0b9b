//! The three interchangeable composite matchers. Each searches the buffer
//! for the byte encodings held by the composite index and returns the
//! identities of the matched candidate pairs, deduplicated and in ascending
//! order: a sliding-window lookup, a multi-pattern automaton pass, and a
//! rolling-fingerprint filter with exact re-verification. All three meet
//! one contract, so their outputs are provably identical.
use crate::index::CompositeIndex;
use crate::index::occurs_at;
use cdc::RollingHash64;
use vstd::prelude::*;
use vstd::slice::slice_subrange;

verus! {

/// Strictly ascending, hence duplicate-free.
pub open spec fn sorted_unique(s: Seq<usize>) -> bool {
    forall|x: int, y: int| 0 <= x < y < s.len() ==> s[x] < s[y]
}

/// Some index entry resolves to `pid` and its key is exactly the window of
/// index width at offset `i` of the buffer.
pub open spec fn window_keys_pid(idx: &CompositeIndex, buf: Seq<u8>, i: int, pid: int) -> bool {
    exists|j: int|
        0 <= j < idx.num_entries() && #[trigger] idx.entry_pid(j) == pid && idx.entry_key(j)
            == buf.subrange(i, i + idx.width_spec())
}

/// The matchers' common contract: the output is strictly ascending and
/// holds exactly the candidate identities matched in the buffer.
pub open spec fn result_matches(idx: &CompositeIndex, buf: Seq<u8>, out: Seq<usize>) -> bool {
    &&& sorted_unique(out)
    &&& forall|x: int|
        0 <= x < out.len() ==> (#[trigger] out[x]) < idx.num_cands() && idx.matched(
            buf,
            out[x] as int,
        )
    &&& forall|pid: int|
        0 <= pid < idx.num_cands() && #[trigger] idx.matched(buf, pid) ==> out.contains(
            pid as usize,
        )
}

/// A window that carries an entry's key is an occurrence of that key.
proof fn lemma_window_match(idx: &CompositeIndex, buf: Seq<u8>, o: int, pid: int)
    requires
        idx.wf(),
        0 <= o,
        o + idx.width_spec() <= buf.len(),
        window_keys_pid(idx, buf, o, pid),
    ensures
        idx.matched(buf, pid),
{
    let j = choose|j: int|
        0 <= j < idx.num_entries() && #[trigger] idx.entry_pid(j) == pid && idx.entry_key(j)
            == buf.subrange(o, o + idx.width_spec());
    assert(occurs_at(buf, idx.entry_key(j), o));
    assert(crate::index::occurs(buf, idx.entry_key(j)));
}

/// Conversely, a matched candidate has an entry key starting at some
/// in-range offset.
proof fn lemma_match_window(idx: &CompositeIndex, buf: Seq<u8>, pid: int) -> (o: int)
    requires
        idx.wf(),
        idx.matched(buf, pid),
    ensures
        0 <= o,
        o + idx.width_spec() <= buf.len(),
        window_keys_pid(idx, buf, o, pid),
{
    let j = choose|j: int|
        0 <= j < idx.num_entries() && #[trigger] idx.entry_pid(j) == pid && crate::index::occurs(
            buf,
            idx.entry_key(j),
        );
    let o = choose|o: int| occurs_at(buf, idx.entry_key(j), o);
    assert(idx.entry_key(j).len() == idx.width_spec());
    assert(buf.subrange(o, o + idx.width_spec()) == idx.entry_key(j));
    assert(window_keys_pid(idx, buf, o, pid));
    o
}

/// A row of `m` cleared flags.
fn make_flags(m: usize) -> (r: Vec<bool>)
    ensures
        r@.len() == m,
        forall|x: int| 0 <= x < m ==> !(#[trigger] r@[x]),
{
    let mut out: Vec<bool> = Vec::new();
    let mut x: usize = 0;
    while x < m
        invariant
            x <= m,
            out@.len() == x,
            forall|y: int| 0 <= y < x ==> !(#[trigger] out@[y]),
        decreases m - x,
    {
        out.push(false);
        x += 1;
    }
    out
}

/// Looks the window at `i` up in the index and flags the candidate it
/// resolves to, if any.
fn mark_window(index: &CompositeIndex, buf: &[u8], i: usize, found: &mut Vec<bool>)
    requires
        index.wf(),
        old(found)@.len() == index.num_cands(),
        i + index.width_spec() <= buf@.len(),
    ensures
        final(found)@.len() == index.num_cands(),
        forall|pid: int| 0 <= pid < index.num_cands() && old(found)@[pid] ==> final(found)@[pid],
        forall|pid: int|
            0 <= pid < index.num_cands() && #[trigger] window_keys_pid(index, buf@, i as int, pid)
                ==> final(found)@[pid],
        forall|pid: int|
            0 <= pid < index.num_cands() && #[trigger] final(found)@[pid] ==> old(found)@[pid]
                || window_keys_pid(index, buf@, i as int, pid),
{
    let width = index.key_width();
    let blen = buf.len();
    proof {
        assert(i + width <= blen);
    }
    let w = slice_subrange(buf, i, i + width);
    match index.lookup(w) {
        Some(pid) => {
            proof {
                let j = choose|j: int|
                    0 <= j < index.num_entries() && #[trigger] index.entry_key(j) == w@
                        && index.entry_pid(j) == pid as int;
                assert(index.entry_pid(j) < index.num_cands());
                assert(window_keys_pid(index, buf@, i as int, pid as int));
                assert forall|pid2: int|
                    0 <= pid2 < index.num_cands() && #[trigger] window_keys_pid(
                        index,
                        buf@,
                        i as int,
                        pid2,
                    ) implies pid2 == pid as int by {
                    let j2 = choose|j2: int|
                        0 <= j2 < index.num_entries() && #[trigger] index.entry_pid(j2) == pid2
                            && index.entry_key(j2) == buf@.subrange(
                            i as int,
                            i as int + index.width_spec(),
                        );
                    assert(index.entry_key(j2) == index.entry_key(j));
                    assert(j2 == j);
                }
            }
            let ghost f0 = found@;
            found[pid] = true;
            proof {
                assert(found@ == f0.update(pid as int, true));
            }
        },
        None => {
            proof {
                assert forall|pid2: int|
                    0 <= pid2 < index.num_cands() && #[trigger] window_keys_pid(
                        index,
                        buf@,
                        i as int,
                        pid2,
                    ) implies false by {
                    let j2 = choose|j2: int|
                        0 <= j2 < index.num_entries() && #[trigger] index.entry_pid(j2) == pid2
                            && index.entry_key(j2) == buf@.subrange(
                            i as int,
                            i as int + index.width_spec(),
                        );
                    assert(index.entry_key(j2) == w@);
                }
            }
        },
    }
}

/// Emits the flagged identities in ascending order.
fn collect_found(found: &Vec<bool>) -> (r: Vec<usize>)
    ensures
        sorted_unique(r@),
        forall|x: int|
            0 <= x < r@.len() ==> (#[trigger] r@[x]) < found@.len() && found@[r@[x] as int],
        forall|pid: int|
            0 <= pid < found@.len() && #[trigger] found@[pid] ==> r@.contains(pid as usize),
{
    let m = found.len();
    let mut out: Vec<usize> = Vec::new();
    let mut pid: usize = 0;
    while pid < m
        invariant
            m == found@.len(),
            pid <= m,
            sorted_unique(out@),
            forall|x: int|
                0 <= x < out@.len() ==> (#[trigger] out@[x]) < pid && found@[out@[x] as int],
            forall|p0: int| 0 <= p0 < pid && #[trigger] found@[p0] ==> out@.contains(p0 as usize),
        decreases m - pid,
    {
        if found[pid] {
            let ghost o0 = out@;
            out.push(pid);
            proof {
                assert(out@ == o0.push(pid));
                assert(out@[o0.len() as int] == pid);
                assert forall|p0: int|
                    0 <= p0 < pid as int + 1 && #[trigger] found@[p0] implies out@.contains(
                    p0 as usize,
                ) by {
                    if p0 < pid as int {
                        assert(o0.contains(p0 as usize));
                        let x = choose|x: int| 0 <= x < o0.len() && o0[x] == p0 as usize;
                        assert(out@[x] == p0 as usize);
                    } else {
                        assert(out@[o0.len() as int] == p0 as usize);
                    }
                }
            }
        }
        pid += 1;
    }
    out
}

/// The flags hold exactly the matched identities: turn them into the
/// contract's result.
fn finish_scan(index: &CompositeIndex, buf: &[u8], found: &Vec<bool>) -> (r: Vec<usize>)
    requires
        index.wf(),
        found@.len() == index.num_cands(),
        forall|pid: int|
            0 <= pid < index.num_cands() ==> ((#[trigger] found@[pid]) <==> index.matched(
                buf@,
                pid,
            )),
    ensures
        result_matches(index, buf@, r@),
{
    let r = collect_found(found);
    proof {
        assert forall|x: int|
            0 <= x < r@.len() implies (#[trigger] r@[x]) < index.num_cands() && index.matched(
            buf@,
            r@[x] as int,
        ) by {
            assert(found@[r@[x] as int]);
        }
        assert forall|pid: int|
            0 <= pid < index.num_cands() && #[trigger] index.matched(buf@, pid) implies r@.contains(
            pid as usize,
        ) by {
            assert(found@[pid]);
        }
    }
    r
}

/// No window fits: nothing is matched.
proof fn lemma_nothing_matched_short_buffer(idx: &CompositeIndex, buf: Seq<u8>, pid: int)
    requires
        idx.wf(),
        buf.len() < idx.width_spec(),
        0 <= pid < idx.num_cands(),
    ensures
        !idx.matched(buf, pid),
{
    if idx.matched(buf, pid) {
        let o = lemma_match_window(idx, buf, pid);
    }
}

/// The sliding-window matcher: looks every window of index width up in the
/// composite index directly.
pub fn finder_sliding_window(index: &CompositeIndex, buf: &[u8]) -> (r: Vec<usize>)
    requires
        index.wf(),
        index.width_spec() >= 1,
    ensures
        result_matches(index, buf@, r@),
{
    let width = index.key_width();
    let m = index.candidate_count();
    let mut found = make_flags(m);
    if width > buf.len() {
        proof {
            assert forall|pid: int| 0 <= pid < index.num_cands() implies ((#[trigger] found@[pid])
                <==> index.matched(buf@, pid)) by {
                lemma_nothing_matched_short_buffer(index, buf@, pid);
            }
        }
        return finish_scan(index, buf, &found);
    }
    let blen = buf.len();
    let last = blen - width;
    let mut i: usize = 0;
    while i <= last
        invariant
            index.wf(),
            width as int == index.width_spec(),
            1 <= width <= blen,
            blen == buf@.len(),
            last == blen - width,
            i <= last + 1,
            found@.len() == index.num_cands(),
            forall|pid: int|
                0 <= pid < index.num_cands() && #[trigger] found@[pid] ==> index.matched(
                    buf@,
                    pid,
                ),
            forall|o: int, pid: int|
                0 <= o < i && 0 <= pid < index.num_cands() && #[trigger] window_keys_pid(
                    index,
                    buf@,
                    o,
                    pid,
                ) ==> found@[pid],
        decreases last + 1 - i,
    {
        let ghost f0 = found@;
        mark_window(index, buf, i, &mut found);
        proof {
            assert forall|pid: int|
                0 <= pid < index.num_cands() && #[trigger] found@[pid] implies index.matched(
                buf@,
                pid,
            ) by {
                if !f0[pid] {
                    assert(window_keys_pid(index, buf@, i as int, pid));
                    lemma_window_match(index, buf@, i as int, pid);
                }
            }
        }
        i += 1;
    }
    proof {
        assert forall|pid: int| 0 <= pid < index.num_cands() implies ((#[trigger] found@[pid])
            <==> index.matched(buf@, pid)) by {
            if index.matched(buf@, pid) {
                let o = lemma_match_window(index, buf@, pid);
                assert(o < i as int);
                assert(window_keys_pid(index, buf@, o, pid));
            }
        }
    }
    finish_scan(index, buf, &found)
}

/// Every reported span of the automaton pass lies inside the haystack and
/// spans bytes equal to one of the patterns, and every occurrence of every
/// pattern is reported.
///
/// Relies on aho_corasick::AhoCorasick: `find_overlapping_iter` visits all
/// occurrences of all patterns, overlapping ones included, and each
/// reported match spans bytes equal to its pattern.
#[verifier::external_body]
fn ac_find_all(patterns: &Vec<Vec<u8>>, hay: &[u8]) -> (r: Vec<(usize, usize)>)
    ensures
        forall|x: int| 0 <= x < r@.len() ==> (#[trigger] r@[x]).0 <= r@[x].1 <= hay@.len(),
        forall|pi: int, o: int|
            #![trigger occurs_at(hay@, patterns@[pi]@, o)]
            0 <= pi < patterns@.len() && occurs_at(hay@, patterns@[pi]@, o) ==> exists|x: int|
                0 <= x < r@.len() && (#[trigger] r@[x]) == (
                    o as usize,
                    (o + patterns@[pi]@.len()) as usize,
                ),
{
    let ac = aho_corasick::AhoCorasick::new(patterns);
    let mut out: Vec<(usize, usize)> = Vec::new();
    for m in ac.find_overlapping_iter(hay) {
        out.push((m.start(), m.end()));
    }
    out
}

/// The multi-pattern automaton matcher: builds an automaton over every key
/// of the composite index, streams the buffer through it once, and
/// re-resolves each reported span in the index.
pub fn finder_aho_corasick(index: &CompositeIndex, buf: &[u8]) -> (r: Vec<usize>)
    requires
        index.wf(),
        index.width_spec() >= 1,
    ensures
        result_matches(index, buf@, r@),
{
    let width = index.key_width();
    let blen = buf.len();
    let patterns = index.keys();
    let matches = ac_find_all(&patterns, buf);
    let m = index.candidate_count();
    let mut found = make_flags(m);
    let total = matches.len();
    let mut x: usize = 0;
    while x < total
        invariant
            index.wf(),
            width as int == index.width_spec(),
            width >= 1,
            total == matches@.len(),
            x <= total,
            found@.len() == index.num_cands(),
            forall|x0: int|
                0 <= x0 < matches@.len() ==> (#[trigger] matches@[x0]).0 <= matches@[x0].1
                    <= buf@.len(),
            forall|pid: int|
                0 <= pid < index.num_cands() && #[trigger] found@[pid] ==> index.matched(
                    buf@,
                    pid,
                ),
            forall|x0: int, pid: int|
                #![trigger window_keys_pid(index, buf@, matches@[x0].0 as int, pid)]
                0 <= x0 < x && 0 <= pid < index.num_cands() && matches@[x0].1 - matches@[x0].0
                    == index.width_spec() && window_keys_pid(
                    index,
                    buf@,
                    matches@[x0].0 as int,
                    pid,
                ) ==> found@[pid],
        decreases total - x,
    {
        let ghost f0 = found@;
        let (s, e) = matches[x];
        if e - s == width {
            mark_window(index, buf, s, &mut found);
            proof {
                assert forall|pid: int|
                    0 <= pid < index.num_cands() && #[trigger] found@[pid] implies index.matched(
                    buf@,
                    pid,
                ) by {
                    if !f0[pid] {
                        assert(window_keys_pid(index, buf@, s as int, pid));
                        lemma_window_match(index, buf@, s as int, pid);
                    }
                }
            }
        }
        x += 1;
    }
    proof {
        assert forall|pid: int| 0 <= pid < index.num_cands() implies ((#[trigger] found@[pid])
            <==> index.matched(buf@, pid)) by {
            if index.matched(buf@, pid) {
                let j = choose|j: int|
                    0 <= j < index.num_entries() && #[trigger] index.entry_pid(j) == pid
                        && crate::index::occurs(buf@, index.entry_key(j));
                let o = choose|o: int| occurs_at(buf@, index.entry_key(j), o);
                assert(patterns@[j]@ == index.entry_key(j));
                assert(occurs_at(buf@, patterns@[j]@, o));
                let x0 = choose|x0: int|
                    0 <= x0 < matches@.len() && (#[trigger] matches@[x0]) == (
                        o as usize,
                        (o + patterns@[j]@.len()) as usize,
                    );
                assert(patterns@[j]@.len() == index.width_spec());
                assert(buf@.subrange(o, o + index.width_spec()) == index.entry_key(j));
                assert(window_keys_pid(index, buf@, o, pid));
                assert(matches@[x0].0 == o as usize);
                assert(matches@[x0].1 == (o + patterns@[j]@.len()) as usize);
                assert(0 <= o && o + index.width_spec() <= buf@.len());
                assert(buf@.len() == blen as int);
                assert(matches@[x0].0 as int == o);
                assert(matches@[x0].1 as int == o + index.width_spec());
                assert(window_keys_pid(index, buf@, matches@[x0].0 as int, pid));
                assert(matches@[x0].1 - matches@[x0].0 == index.width_spec());
            }
        }
    }
    finish_scan(index, buf, &found)
}

/// The fingerprint of a byte window, named: the rolling hash is a pure
/// function of the bytes slid since its reset, so the same window always
/// fingerprints alike, which is all the matcher relies on.
pub uninterp spec fn rabin_fingerprint(s: Seq<u8>) -> u64;

/// Relies on cdc::Rabin64: `slide` folds one byte into the hash state by
/// table-driven polynomial arithmetic, so the hash read after sliding a
/// window from a fresh state depends on those bytes alone.
#[verifier::external_body]
fn fingerprint(window: &[u8]) -> (r: u64)
    ensures
        r == rabin_fingerprint(window@),
{
    let mut hasher = cdc::Rabin64::new(8);
    for b in window {
        hasher.slide(b);
    }
    *hasher.get_hash()
}

/// Whether the fingerprint table holds `v`.
fn contains_u64(t: &Vec<u64>, v: u64) -> (r: bool)
    ensures
        r == t@.contains(v),
{
    let n = t.len();
    let mut x: usize = 0;
    while x < n
        invariant
            n == t@.len(),
            x <= n,
            forall|y: int| 0 <= y < x ==> t@[y] != v,
        decreases n - x,
    {
        if t[x] == v {
            proof {
                assert(t@[x as int] == v);
            }
            return true;
        }
        x += 1;
    }
    proof {
        if t@.contains(v) {
            let y = choose|y: int| 0 <= y < t@.len() && t@[y] == v;
        }
    }
    false
}

/// The rolling-fingerprint matcher: fingerprints every index key once, then
/// fingerprints each buffer window and, on a table hit, re-verifies the
/// window against the real index before reporting, so fingerprint
/// collisions never produce a result.
pub fn finder_rabin_karp(index: &CompositeIndex, buf: &[u8]) -> (r: Vec<usize>)
    requires
        index.wf(),
        index.width_spec() >= 1,
    ensures
        result_matches(index, buf@, r@),
{
    let width = index.key_width();
    let ecount = index.entry_count();
    let mut table: Vec<u64> = Vec::new();
    let mut j: usize = 0;
    while j < ecount
        invariant
            index.wf(),
            ecount == index.num_entries(),
            j <= ecount,
            table@.len() == j,
            forall|y: int|
                0 <= y < j ==> #[trigger] table@[y] == rabin_fingerprint(index.entry_key(y)),
        decreases ecount - j,
    {
        table.push(fingerprint(index.entry_key_slice(j)));
        j += 1;
    }
    let m = index.candidate_count();
    let mut found = make_flags(m);
    if width > buf.len() {
        proof {
            assert forall|pid: int| 0 <= pid < index.num_cands() implies ((#[trigger] found@[pid])
                <==> index.matched(buf@, pid)) by {
                lemma_nothing_matched_short_buffer(index, buf@, pid);
            }
        }
        return finish_scan(index, buf, &found);
    }
    let blen = buf.len();
    let last = blen - width;
    let mut i: usize = 0;
    while i <= last
        invariant
            index.wf(),
            width as int == index.width_spec(),
            1 <= width <= blen,
            blen == buf@.len(),
            last == blen - width,
            i <= last + 1,
            found@.len() == index.num_cands(),
            table@.len() == index.num_entries(),
            forall|y: int|
                0 <= y < table@.len() ==> #[trigger] table@[y] == rabin_fingerprint(
                    index.entry_key(y),
                ),
            forall|pid: int|
                0 <= pid < index.num_cands() && #[trigger] found@[pid] ==> index.matched(
                    buf@,
                    pid,
                ),
            forall|o: int, pid: int|
                0 <= o < i && 0 <= pid < index.num_cands() && #[trigger] window_keys_pid(
                    index,
                    buf@,
                    o,
                    pid,
                ) ==> found@[pid],
        decreases last + 1 - i,
    {
        let ghost f0 = found@;
        proof {
            assert(i + width <= blen);
        }
        let w = slice_subrange(buf, i, i + width);
        let fp = fingerprint(w);
        let table_hit = contains_u64(&table, fp);
        if table_hit {
            mark_window(index, buf, i, &mut found);
            proof {
                assert forall|pid: int|
                    0 <= pid < index.num_cands() && #[trigger] found@[pid] implies index.matched(
                    buf@,
                    pid,
                ) by {
                    if !f0[pid] {
                        assert(window_keys_pid(index, buf@, i as int, pid));
                        lemma_window_match(index, buf@, i as int, pid);
                    }
                }
            }
        } else {
            proof {
                assert forall|pid: int|
                    0 <= pid < index.num_cands() && #[trigger] window_keys_pid(
                        index,
                        buf@,
                        i as int,
                        pid,
                    ) implies found@[pid] by {
                    let j2 = choose|j2: int|
                        0 <= j2 < index.num_entries() && #[trigger] index.entry_pid(j2) == pid
                            && index.entry_key(j2) == buf@.subrange(
                            i as int,
                            i as int + index.width_spec(),
                        );
                    assert(table@[j2] == rabin_fingerprint(index.entry_key(j2)));
                    assert(table@[j2] == fp);
                    assert(table@.contains(fp));
                }
            }
        }
        i += 1;
    }
    proof {
        assert forall|pid: int| 0 <= pid < index.num_cands() implies ((#[trigger] found@[pid])
            <==> index.matched(buf@, pid)) by {
            if index.matched(buf@, pid) {
                let o = lemma_match_window(index, buf@, pid);
                assert(o < i as int);
                assert(window_keys_pid(index, buf@, o, pid));
            }
        }
    }
    finish_scan(index, buf, &found)
}

/// Cross-strategy equivalence: any two outputs that meet the matchers'
/// common contract on the same index and buffer are equal, element for
/// element. Each matcher's own contract supplies the two premises.
pub proof fn lemma_cross_strategy_equivalence(
    idx: &CompositeIndex,
    buf: Seq<u8>,
    r1: Seq<usize>,
    r2: Seq<usize>,
)
    requires
        result_matches(idx, buf, r1),
        result_matches(idx, buf, r2),
    ensures
        r1 == r2,
{
    assert forall|p: usize| r1.contains(p) implies r2.contains(p) by {
        let x = choose|x: int| 0 <= x < r1.len() && r1[x] == p;
        assert(r1[x] < idx.num_cands() && idx.matched(buf, r1[x] as int));
    }
    assert forall|p: usize| r2.contains(p) implies r1.contains(p) by {
        let x = choose|x: int| 0 <= x < r2.len() && r2[x] == p;
        assert(r2[x] < idx.num_cands() && idx.matched(buf, r2[x] as int));
    }
    lemma_sorted_unique_same_membership(r1, r2);
}

/// Two strictly ascending sequences with the same members are equal.
proof fn lemma_sorted_unique_same_membership(a: Seq<usize>, b: Seq<usize>)
    requires
        sorted_unique(a),
        sorted_unique(b),
        forall|p: usize| a.contains(p) <==> b.contains(p),
    ensures
        a == b,
    decreases a.len(),
{
    if a.len() == 0 && b.len() == 0 {
        assert(a =~= b);
    } else if a.len() == 0 {
        assert(b.contains(b[0]));
        assert(a.contains(b[0]));
    } else if b.len() == 0 {
        assert(a.contains(a[0]));
        assert(b.contains(a[0]));
    } else {
        assert(a.contains(a[0]));
        assert(b.contains(b[0]));
        assert(b.contains(a[0]));
        assert(a.contains(b[0]));
        let xa = choose|x: int| 0 <= x < b.len() && b[x] == a[0];
        let xb = choose|x: int| 0 <= x < a.len() && a[x] == b[0];
        assert(b[0] <= b[xa]);
        assert(a[0] <= a[xb]);
        assert(a[0] == b[0]);
        let a1 = a.subrange(1, a.len() as int);
        let b1 = b.subrange(1, b.len() as int);
        assert forall|p: usize| a1.contains(p) implies b1.contains(p) by {
            let x = choose|x: int| 0 <= x < a1.len() && a1[x] == p;
            assert(a[x + 1] == p);
            assert(a[0] < p);
            assert(a.contains(p));
            assert(b.contains(p));
            let y = choose|y: int| 0 <= y < b.len() && b[y] == p;
            assert(y != 0);
            assert(b1[y - 1] == p);
        }
        assert forall|p: usize| b1.contains(p) implies a1.contains(p) by {
            let x = choose|x: int| 0 <= x < b1.len() && b1[x] == p;
            assert(b[x + 1] == p);
            assert(b[0] < p);
            assert(b.contains(p));
            assert(a.contains(p));
            let y = choose|y: int| 0 <= y < a.len() && a[y] == p;
            assert(y != 0);
            assert(a1[y - 1] == p);
        }
        lemma_sorted_unique_same_membership(a1, b1);
        assert(a.len() == b.len());
        assert forall|x: int| 0 <= x < a.len() implies a[x] == b[x] by {
            if x > 0 {
                assert(a1[x - 1] == a[x]);
                assert(b1[x - 1] == b[x]);
                assert(a1[x - 1] == b1[x - 1]);
            }
        }
        assert(a =~= b);
    }
}

} // verus!
