//! Arbitrary-precision non-negative integers, represented by their minimal
//! big-endian byte encoding. Construction from and re-encoding to byte
//! windows is verified here; multiplication and probabilistic primality
//! are delegated to the GMP bindings behind narrow trusted wrappers.
use vstd::prelude::*;
use vstd::slice::slice_index_get;
use vstd::slice::slice_subrange;
use vstd::slice::slice_to_vec;

verus! {

/// The numeric value of a byte sequence read most-significant byte first.
pub open spec fn value_of(s: Seq<u8>) -> nat
    decreases s.len(),
{
    if s.len() == 0 {
        0
    } else {
        value_of(s.drop_last()) * 256 + (s.last() as nat)
    }
}

/// 256 raised to the power `n`.
pub open spec fn pow256(n: nat) -> nat
    decreases n,
{
    if n == 0 {
        1
    } else {
        256 * pow256((n - 1) as nat)
    }
}

/// A byte sequence is a minimal encoding when it carries no leading zero.
pub open spec fn minimal(s: Seq<u8>) -> bool {
    s.len() == 0 || s[0] != 0
}

/// The byte sequence with its leading zeros removed.
pub open spec fn strip_leading_zeros(s: Seq<u8>) -> Seq<u8>
    decreases s.len(),
{
    if s.len() > 0 && s[0] == 0 {
        strip_leading_zeros(s.subrange(1, s.len() as int))
    } else {
        s
    }
}

pub proof fn lemma_pow256_positive(n: nat)
    ensures
        pow256(n) >= 1,
    decreases n,
{
    if n > 0 {
        lemma_pow256_positive((n - 1) as nat);
    }
}

pub proof fn lemma_pow256_monotonic(m: nat, n: nat)
    requires
        m <= n,
    ensures
        pow256(m) <= pow256(n),
    decreases n,
{
    if m < n && n > 0 {
        lemma_pow256_monotonic(m, (n - 1) as nat);
        lemma_pow256_positive((n - 1) as nat);
    }
}

/// Concatenation splits the value: the left part is shifted by the length
/// of the right part.
pub proof fn lemma_value_split(a: Seq<u8>, b: Seq<u8>)
    ensures
        value_of(a + b) == value_of(a) * pow256(b.len()) + value_of(b),
    decreases b.len(),
{
    if b.len() == 0 {
        assert(a + b =~= a);
        assert(pow256(b.len()) == 1);
        assert(value_of(b) == 0);
        assert(value_of(a) * 1 == value_of(a)) by (nonlinear_arith);
    } else {
        lemma_value_split(a, b.drop_last());
        assert((a + b).drop_last() =~= a + b.drop_last());
        assert((a + b).last() == b.last());
        let va = value_of(a);
        let vb1 = value_of(b.drop_last());
        let l = b.last() as nat;
        let p1 = pow256((b.len() - 1) as nat);
        assert(b.drop_last().len() == (b.len() - 1) as nat);
        assert(value_of(a + b.drop_last()) == va * p1 + vb1);
        assert(value_of(a + b) == value_of((a + b).drop_last()) * 256 + ((a + b).last() as nat));
        assert(value_of(a + b) == (va * p1 + vb1) * 256 + l);
        assert(value_of(b) == vb1 * 256 + l);
        assert(pow256(b.len()) == 256 * p1);
        let vab = value_of(a + b);
        let vb = value_of(b);
        let pb = pow256(b.len());
        assert(vab == va * pb + vb) by (nonlinear_arith)
            requires
                vab == (va * p1 + vb1) * 256 + l,
                vb == vb1 * 256 + l,
                pb == 256 * p1,
        ;
    }
}

/// Every value is bounded by 256 to the length of its encoding.
pub proof fn lemma_value_bound(s: Seq<u8>)
    ensures
        value_of(s) < pow256(s.len()),
    decreases s.len(),
{
    if s.len() > 0 {
        lemma_value_bound(s.drop_last());
        let v1 = value_of(s.drop_last());
        let p1 = pow256((s.len() - 1) as nat);
        assert(v1 + 1 <= p1);
        assert(v1 * 256 + 256 <= p1 * 256) by (nonlinear_arith)
            requires
                v1 + 1 <= p1,
        ;
    }
}

/// A minimal, non-empty encoding reaches at least 256 to its length less one.
pub proof fn lemma_minimal_lower_bound(s: Seq<u8>)
    requires
        s.len() > 0,
        s[0] != 0,
    ensures
        value_of(s) >= pow256((s.len() - 1) as nat),
    decreases s.len(),
{
    if s.len() == 1 {
        assert(value_of(s) == value_of(s.drop_last()) * 256 + (s.last() as nat));
        assert(value_of(s.drop_last()) == 0);
    } else {
        lemma_minimal_lower_bound(s.drop_last());
        let v1 = value_of(s.drop_last());
        let p1 = pow256((s.len() - 2) as nat);
        assert(v1 * 256 >= p1 * 256) by (nonlinear_arith)
            requires
                v1 >= p1,
        ;
    }
}

/// Stripping leading zeros keeps the value and yields a minimal suffix.
pub proof fn lemma_strip_leading_zeros(s: Seq<u8>)
    ensures
        value_of(strip_leading_zeros(s)) == value_of(s),
        minimal(strip_leading_zeros(s)),
        strip_leading_zeros(s).len() <= s.len(),
    decreases s.len(),
{
    if s.len() > 0 && s[0] == 0 {
        let rest = s.subrange(1, s.len() as int);
        lemma_strip_leading_zeros(rest);
        let z = seq![s[0]];
        assert(s =~= z + rest);
        lemma_value_split(z, rest);
        assert(z.drop_last() =~= Seq::<u8>::empty());
        assert(value_of(z) == value_of(z.drop_last()) * 256 + (z.last() as nat));
        assert(value_of(z) == 0);
        assert(value_of(s) == 0 * pow256(rest.len()) + value_of(rest));
    }
}

/// Stripping is the same as dropping the known zero prefix.
pub proof fn lemma_strip_at(s: Seq<u8>, k: int)
    requires
        0 <= k <= s.len(),
        forall|j: int| 0 <= j < k ==> s[j] == 0,
        k == s.len() || s[k] != 0,
    ensures
        strip_leading_zeros(s) == s.subrange(k, s.len() as int),
    decreases k,
{
    if k == 0 {
        assert(s.subrange(0, s.len() as int) =~= s);
    } else {
        let rest = s.subrange(1, s.len() as int);
        lemma_strip_at(rest, k - 1);
        assert(rest.subrange(k - 1, rest.len() as int) =~= s.subrange(k, s.len() as int));
    }
}

/// Two minimal encodings of the same value are the same bytes.
pub proof fn lemma_minimal_injective(a: Seq<u8>, b: Seq<u8>)
    requires
        minimal(a),
        minimal(b),
        value_of(a) == value_of(b),
    ensures
        a == b,
    decreases a.len(),
{
    if a.len() == 0 || b.len() == 0 {
        if a.len() == 0 && b.len() > 0 {
            lemma_minimal_lower_bound(b);
            lemma_pow256_positive((b.len() - 1) as nat);
        }
        if b.len() == 0 && a.len() > 0 {
            lemma_minimal_lower_bound(a);
            lemma_pow256_positive((a.len() - 1) as nat);
        }
        assert(a =~= b);
    } else {
        if a.len() < b.len() {
            lemma_value_bound(a);
            lemma_minimal_lower_bound(b);
            lemma_pow256_monotonic(a.len(), (b.len() - 1) as nat);
        }
        if b.len() < a.len() {
            lemma_value_bound(b);
            lemma_minimal_lower_bound(a);
            lemma_pow256_monotonic(b.len(), (a.len() - 1) as nat);
        }
        assert(a.len() == b.len());
        let va = value_of(a.drop_last());
        let vb = value_of(b.drop_last());
        assert(va * 256 + (a.last() as nat) == vb * 256 + (b.last() as nat));
        assert(va == vb && a.last() == b.last()) by (nonlinear_arith)
            requires
                va * 256 + (a.last() as nat) == vb * 256 + (b.last() as nat),
                a.last() < 256,
                b.last() < 256,
        ;
        if a.len() == 1 {
            assert(a =~= seq![a.last()]);
            assert(b =~= seq![b.last()]);
        } else {
            lemma_minimal_injective(a.drop_last(), b.drop_last());
            assert(a =~= a.drop_last().push(a.last()));
            assert(b =~= b.drop_last().push(b.last()));
        }
    }
}

/// A shared prefix followed by a smaller byte makes a smaller value, for
/// encodings of equal length.
pub proof fn lemma_lexicographic_less(a: Seq<u8>, b: Seq<u8>, i: int)
    requires
        a.len() == b.len(),
        0 <= i < a.len(),
        forall|j: int| 0 <= j < i ==> a[j] == b[j],
        a[i] < b[i],
    ensures
        value_of(a) < value_of(b),
{
    let n = a.len() as int;
    let a1 = a.subrange(0, i + 1);
    let a2 = a.subrange(i + 1, n);
    let b1 = b.subrange(0, i + 1);
    let b2 = b.subrange(i + 1, n);
    assert(a =~= a1 + a2);
    assert(b =~= b1 + b2);
    lemma_value_split(a1, a2);
    lemma_value_split(b1, b2);
    assert(a1.drop_last() =~= b1.drop_last());
    assert(value_of(a1) == value_of(a1.drop_last()) * 256 + (a[i] as nat));
    assert(value_of(b1) == value_of(b1.drop_last()) * 256 + (b[i] as nat));
    assert(value_of(a1) + 1 <= value_of(b1));
    lemma_value_bound(a2);
    let p = pow256(a2.len());
    let x = value_of(a1);
    let y = value_of(b1);
    assert(x * p + value_of(a2) < y * p + value_of(b2)) by (nonlinear_arith)
        requires
            x + 1 <= y,
            value_of(a2) < p,
            value_of(b2) >= 0,
            p >= 0,
    ;
}

/// It is not known, without running the probabilistic test, which values it
/// accepts; the verdict of GMP's test on a given value with a given round
/// count is named here and every contract speaks through this name.
pub uninterp spec fn probable_prime(v: nat, reps: u32) -> bool;

/// An arbitrary-precision non-negative integer, held as its minimal
/// (no leading zero) big-endian byte encoding.
pub struct BigNat {
    bytes: Vec<u8>,
}

impl BigNat {
    /// The byte encoding held by this number.
    pub closed spec fn bytes_rep(&self) -> Seq<u8> {
        self.bytes@
    }

    /// Well-formed: the held encoding is minimal.
    pub open spec fn wf(&self) -> bool {
        minimal(self.bytes_rep())
    }

    /// The numeric value of this number.
    pub open spec fn value(&self) -> nat {
        value_of(self.bytes_rep())
    }

    /// Interpret a byte window most-significant byte first.
    pub fn from_msf_bytes(w: &[u8]) -> (r: BigNat)
        ensures
            r.wf(),
            r.bytes_rep() == strip_leading_zeros(w@),
            r.value() == value_of(w@),
    {
        let mut k: usize = 0;
        while k < w.len() && *slice_index_get(w, k) == 0
            invariant
                k <= w@.len(),
                forall|j: int| 0 <= j < k ==> w@[j] == 0,
            decreases w@.len() - k,
        {
            k += 1;
        }
        proof {
            lemma_strip_at(w@, k as int);
            lemma_strip_leading_zeros(w@);
        }
        let v = slice_to_vec(slice_subrange(w, k, w.len()));
        BigNat { bytes: v }
    }

    /// Interpret a byte window least-significant byte first.
    pub fn from_lsf_bytes(w: &[u8]) -> (r: BigNat)
        ensures
            r.wf(),
            r.bytes_rep() == strip_leading_zeros(w@.reverse()),
            r.value() == value_of(w@.reverse()),
    {
        let mut rev: Vec<u8> = Vec::new();
        let mut idx: usize = 0;
        while idx < w.len()
            invariant
                idx <= w@.len(),
                rev@.len() == idx,
                forall|j: int| 0 <= j < idx ==> rev@[j] == w@[w@.len() - 1 - j],
            decreases w@.len() - idx,
        {
            let b = *slice_index_get(w, w.len() - 1 - idx);
            rev.push(b);
            idx += 1;
        }
        proof {
            assert(rev@ =~= w@.reverse());
        }
        Self::from_msf_bytes(rev.as_slice())
    }

    /// The minimal encoding, most-significant byte first.
    pub fn to_msf_bytes(&self) -> (r: Vec<u8>)
        ensures
            r@ == self.bytes_rep(),
    {
        slice_to_vec(self.bytes.as_slice())
    }

    /// The minimal encoding, least-significant byte first.
    pub fn to_lsf_bytes(&self) -> (r: Vec<u8>)
        ensures
            r@ == self.bytes_rep().reverse(),
    {
        let n = self.bytes.len();
        let mut rev: Vec<u8> = Vec::new();
        let mut idx: usize = 0;
        while idx < n
            invariant
                n == self.bytes_rep().len(),
                idx <= n,
                rev@.len() == idx,
                forall|j: int| 0 <= j < idx ==> rev@[j] == self.bytes_rep()[n - 1 - j],
            decreases n - idx,
        {
            let b = self.bytes[n - 1 - idx];
            rev.push(b);
            idx += 1;
        }
        proof {
            assert(rev@ =~= self.bytes_rep().reverse());
        }
        rev
    }

    /// An identical copy of this number.
    pub fn duplicate(&self) -> (r: BigNat)
        ensures
            r.bytes_rep() == self.bytes_rep(),
    {
        BigNat { bytes: slice_to_vec(self.bytes.as_slice()) }
    }

    /// Value comparison, decided on the minimal encodings.
    pub fn le(&self, other: &BigNat) -> (r: bool)
        requires
            self.wf(),
            other.wf(),
        ensures
            r == (self.value() <= other.value()),
    {
        let n1 = self.bytes.len();
        let n2 = other.bytes.len();
        if n1 < n2 {
            proof {
                lemma_value_bound(self.bytes_rep());
                lemma_minimal_lower_bound(other.bytes_rep());
                lemma_pow256_monotonic(n1 as nat, (n2 - 1) as nat);
            }
            true
        } else if n2 < n1 {
            proof {
                lemma_value_bound(other.bytes_rep());
                lemma_minimal_lower_bound(self.bytes_rep());
                lemma_pow256_monotonic(n2 as nat, (n1 - 1) as nat);
            }
            false
        } else {
            let mut i: usize = 0;
            loop
                invariant
                    n1 == self.bytes_rep().len(),
                    n1 == other.bytes_rep().len(),
                    i <= n1,
                    forall|j: int| 0 <= j < i ==> self.bytes_rep()[j] == other.bytes_rep()[j],
                decreases n1 - i,
            {
                if i == n1 {
                    proof {
                        assert(self.bytes_rep() =~= other.bytes_rep());
                    }
                    return true;
                }
                let x = self.bytes[i];
                let y = other.bytes[i];
                if x < y {
                    proof {
                        lemma_lexicographic_less(self.bytes_rep(), other.bytes_rep(), i as int);
                    }
                    return true;
                }
                if y < x {
                    proof {
                        lemma_lexicographic_less(other.bytes_rep(), self.bytes_rep(), i as int);
                    }
                    return false;
                }
                i += 1;
            }
        }
    }

    /// Value equality, decided on the minimal encodings.
    pub fn eq_value(&self, other: &BigNat) -> (r: bool)
        requires
            self.wf(),
            other.wf(),
        ensures
            r == (self.value() == other.value()),
    {
        let n1 = self.bytes.len();
        let n2 = other.bytes.len();
        if n1 != n2 {
            proof {
                if self.value() == other.value() {
                    lemma_minimal_injective(self.bytes_rep(), other.bytes_rep());
                }
            }
            return false;
        }
        let mut i: usize = 0;
        loop
            invariant
                self.wf(),
                other.wf(),
                n1 == self.bytes_rep().len(),
                n1 == other.bytes_rep().len(),
                i <= n1,
                forall|j: int| 0 <= j < i ==> self.bytes_rep()[j] == other.bytes_rep()[j],
            decreases n1 - i,
        {
            if i == n1 {
                proof {
                    assert(self.bytes_rep() =~= other.bytes_rep());
                }
                return true;
            }
            if self.bytes[i] != other.bytes[i] {
                proof {
                    if self.value() == other.value() {
                        lemma_minimal_injective(self.bytes_rep(), other.bytes_rep());
                    }
                }
                return false;
            }
            i += 1;
        }
    }

    /// Relies on rug::Integer::from_digits (base-256, most-significant byte
    /// first), rug::Integer multiplication, and rug::Integer::to_digits,
    /// which returns exactly the significant digits: no leading zero, and no
    /// digits at all for zero.
    #[verifier::external_body]
    pub(crate) fn mul(&self, other: &BigNat) -> (r: BigNat)
        ensures
            r.wf(),
            r.value() == self.value() * other.value(),
    {
        let x = rug::Integer::from_digits(self.bytes.as_slice(), rug::integer::Order::Msf);
        let y = rug::Integer::from_digits(other.bytes.as_slice(), rug::integer::Order::Msf);
        let n = rug::Integer::from(&x * &y);
        BigNat { bytes: n.to_digits::<u8>(rug::integer::Order::Msf) }
    }

    /// Relies on rug::Integer::is_probably_prime, a trial-division,
    /// Baillie-PSW and Miller-Rabin combination from GMP. Its bases come
    /// from a default-seeded generator, so the verdict depends only on the
    /// value and the round count, which is what the name states. rug hands
    /// the round count to GMP as a C int and panics when it does not fit,
    /// so round counts above 0x7fff_ffff are excluded here.
    #[verifier::external_body]
    pub(crate) fn probably_prime(&self, reps: u32) -> (r: bool)
        requires
            1 <= reps <= 0x7fff_ffff,
        ensures
            r == probable_prime(self.value(), reps),
    {
        let n = rug::Integer::from_digits(self.bytes.as_slice(), rug::integer::Order::Msf);
        match n.is_probably_prime(reps) {
            rug::integer::IsPrime::No => false,
            rug::integer::IsPrime::Probably => true,
            rug::integer::IsPrime::Yes => true,
        }
    }
}

/// The round trip stated by `from_msf_bytes` and `to_msf_bytes` together:
/// reading a window most-significant byte first and re-encoding it in the
/// same order reproduces the window with its leading zeros trimmed, and
/// keeps its value.
pub proof fn lemma_round_trip_msf(w: Seq<u8>)
    ensures
        minimal(strip_leading_zeros(w)),
        value_of(strip_leading_zeros(w)) == value_of(w),
{
    lemma_strip_leading_zeros(w);
}

/// The round trip in the least-significant-byte-first order: reading and
/// re-encoding reproduces the reversal of the trimmed reversal, that is the
/// window with its trailing zeros removed, and keeps the value read.
pub proof fn lemma_round_trip_lsf(w: Seq<u8>)
    ensures
        minimal(strip_leading_zeros(w.reverse())),
        value_of(strip_leading_zeros(w.reverse())) == value_of(w.reverse()),
        strip_leading_zeros(w.reverse()).reverse() == w.subrange(
            0,
            strip_leading_zeros(w.reverse()).len() as int,
        ),
{
    lemma_strip_leading_zeros(w.reverse());
    lemma_strip_is_suffix(w.reverse());
    let rev = w.reverse();
    let stripped = strip_leading_zeros(rev);
    let ln = stripped.len() as int;
    let k = rev.len() - ln;
    assert forall|j: int| 0 <= j < ln implies stripped.reverse()[j] == w[j] by {
        assert(stripped.reverse()[j] == stripped[ln - 1 - j]);
        assert(stripped[ln - 1 - j] == rev[k + ln - 1 - j]);
        assert(rev[k + ln - 1 - j] == w[w.len() - 1 - (k + ln - 1 - j)]);
        assert(w.len() - 1 - (k + ln - 1 - j) == j);
    }
    assert(stripped.reverse() =~= w.subrange(0, ln));
}

/// Stripping takes a suffix of the sequence.
pub proof fn lemma_strip_is_suffix(s: Seq<u8>)
    ensures
        strip_leading_zeros(s) == s.subrange(
            s.len() - strip_leading_zeros(s).len(),
            s.len() as int,
        ),
    decreases s.len(),
{
    lemma_strip_leading_zeros(s);
    if s.len() > 0 && s[0] == 0 {
        let rest = s.subrange(1, s.len() as int);
        lemma_strip_is_suffix(rest);
        lemma_strip_leading_zeros(rest);
        let t = strip_leading_zeros(s);
        assert(t == strip_leading_zeros(rest));
        let k = s.len() - t.len();
        assert forall|j: int| 0 <= j < t.len() implies t[j] == s[k + j] by {
            assert(t[j] == rest[rest.len() - t.len() + j]);
            assert(rest[rest.len() - t.len() + j] == s[1 + rest.len() - t.len() + j]);
        }
        assert(t =~= s.subrange(k as int, s.len() as int));
    } else {
        assert(s.subrange(0, s.len() as int) =~= s);
    }
}

} // verus!
