//! Pluggable key ordering. A comparator fixes a total preorder on byte
//! strings; the skip list keeps at most one entry per equivalence class of
//! that preorder. `NumberComparator` orders keys as little-endian numbers.

use vstd::arithmetic::mul::lemma_mul_inequality;
use vstd::prelude::*;

verus! {

/// Three-way comparison result.
#[derive(Debug, Copy, Clone, Eq, PartialEq, Structural)]
pub enum Cmp {
    Less,
    Equal,
    Greater,
}

/// A total preorder on byte strings, with an executable three-way comparison
/// that agrees with its specification. Distinct byte strings may compare
/// `Equal`; the laws below make the order usable for searching.
pub trait Comparator: Sized {
    spec fn cmp_spec(a: Seq<u8>, b: Seq<u8>) -> Cmp;

    proof fn lemma_reflexive(a: Seq<u8>)
        ensures
            Self::cmp_spec(a, a) == Cmp::Equal,
    ;

    proof fn lemma_flip(a: Seq<u8>, b: Seq<u8>)
        ensures
            (Self::cmp_spec(a, b) == Cmp::Less) <==> (Self::cmp_spec(b, a) == Cmp::Greater),
    ;

    proof fn lemma_transitive(a: Seq<u8>, b: Seq<u8>, c: Seq<u8>)
        requires
            Self::cmp_spec(a, b) == Cmp::Less,
            Self::cmp_spec(b, c) == Cmp::Less,
        ensures
            Self::cmp_spec(a, c) == Cmp::Less,
    ;

    proof fn lemma_equal_congruent(a: Seq<u8>, b: Seq<u8>, c: Seq<u8>)
        requires
            Self::cmp_spec(a, b) == Cmp::Equal,
        ensures
            Self::cmp_spec(a, c) == Self::cmp_spec(b, c),
    ;

    fn compare(a: &[u8], b: &[u8]) -> (r: Cmp)
        ensures
            r == Self::cmp_spec(a@, b@),
    ;
}

/// 256^n.
pub open spec fn pow256(n: nat) -> nat
    decreases n,
{
    if n == 0 {
        1
    } else {
        256 * pow256((n - 1) as nat)
    }
}

/// The little-endian number a byte string denotes.
pub open spec fn le_number(s: Seq<u8>) -> nat
    decreases s.len(),
{
    if s.len() == 0 {
        0
    } else {
        (le_number(s.drop_last()) + s.last() * pow256((s.len() - 1) as nat)) as nat
    }
}

/// The length of `s` with trailing zero bytes stripped.
pub open spec fn effective_len(s: Seq<u8>) -> nat
    decreases s.len(),
{
    if s.len() == 0 {
        0
    } else if s.last() != 0 {
        s.len()
    } else {
        effective_len(s.drop_last())
    }
}

/// Orders keys by the number they denote in little-endian base 256; keys that
/// denote the same number are ordered by length, so only identical byte
/// strings compare `Equal`.
pub struct NumberComparator;

impl NumberComparator {
    pub open spec fn spec_order(a: Seq<u8>, b: Seq<u8>) -> Cmp {
        if le_number(a) < le_number(b) {
            Cmp::Less
        } else if le_number(a) > le_number(b) {
            Cmp::Greater
        } else if a.len() < b.len() {
            Cmp::Less
        } else if a.len() > b.len() {
            Cmp::Greater
        } else {
            Cmp::Equal
        }
    }
}

proof fn lemma_pow256_positive(n: nat)
    ensures
        pow256(n) >= 1,
    decreases n,
{
    if n > 0 {
        lemma_pow256_positive((n - 1) as nat);
    }
}

proof fn lemma_pow256_monotone(m: nat, n: nat)
    requires
        m <= n,
    ensures
        pow256(m) <= pow256(n),
    decreases n,
{
    if m < n {
        lemma_pow256_monotone(m, (n - 1) as nat);
        lemma_pow256_positive((n - 1) as nat);
    }
}

/// Every byte string denotes a number below 256^len.
proof fn lemma_le_number_bound(s: Seq<u8>)
    ensures
        le_number(s) < pow256(s.len()),
    decreases s.len(),
{
    if s.len() > 0 {
        lemma_le_number_bound(s.drop_last());
        assert(s.last() * pow256((s.len() - 1) as nat) <= 255 * pow256((s.len() - 1) as nat)) by {
            lemma_mul_inequality(s.last() as int, 255, pow256((s.len() - 1) as nat) as int);
        }
        assert(pow256(s.len()) == 256 * pow256((s.len() - 1) as nat));
    }
}

/// A byte string whose last byte is non-zero denotes at least 256^(len-1).
proof fn lemma_le_number_top(s: Seq<u8>)
    requires
        s.len() > 0,
        s.last() != 0,
    ensures
        le_number(s) >= pow256((s.len() - 1) as nat),
    decreases s.len(),
{
    assert(s.last() * pow256((s.len() - 1) as nat) >= 1 * pow256((s.len() - 1) as nat)) by {
        lemma_mul_inequality(1, s.last() as int, pow256((s.len() - 1) as nat) as int);
    }
}

/// Trailing zeros do not change the number a byte string denotes.
proof fn lemma_le_number_effective(s: Seq<u8>)
    ensures
        le_number(s) == le_number(s.take(effective_len(s) as int)),
        effective_len(s) <= s.len(),
    decreases s.len(),
{
    if s.len() == 0 {
        assert(s.take(0) =~= s);
    } else if s.last() != 0 {
        assert(s.take(s.len() as int) =~= s);
    } else {
        lemma_le_number_effective(s.drop_last());
        assert(s.take(effective_len(s) as int) =~= s.drop_last().take(
            effective_len(s.drop_last()) as int,
        ));
    }
}

/// A shorter effective length means a smaller number, when the longer key's
/// top effective byte is non-zero.
proof fn lemma_effective_len_orders(a: Seq<u8>, b: Seq<u8>)
    requires
        effective_len(a) < effective_len(b),
    ensures
        le_number(a) < le_number(b),
    decreases b.len(),
{
    let ea = effective_len(a) as int;
    let eb = effective_len(b) as int;
    lemma_le_number_effective(a);
    lemma_le_number_effective(b);
    let bt = b.take(eb);
    assert(bt.last() == b[eb - 1]);
    assert(bt.last() != 0) by {
        lemma_effective_last_nonzero(b);
    }
    lemma_le_number_top(bt);
    lemma_le_number_bound(a.take(ea));
    lemma_pow256_monotone(ea as nat, (eb - 1) as nat);
}

/// The effective length never exceeds the length.
proof fn lemma_effective_len_le(s: Seq<u8>)
    ensures
        effective_len(s) <= s.len(),
    decreases s.len(),
{
    if s.len() > 0 && s.last() == 0 {
        lemma_effective_len_le(s.drop_last());
    }
}

/// The byte just below the effective length is non-zero.
proof fn lemma_effective_last_nonzero(s: Seq<u8>)
    requires
        effective_len(s) > 0,
    ensures
        s[effective_len(s) as int - 1] != 0,
    decreases s.len(),
{
    if s.last() == 0 {
        lemma_effective_last_nonzero(s.drop_last());
        lemma_effective_len_le(s.drop_last());
        let e = effective_len(s) as int;
        assert(s.drop_last() =~= s.subrange(0, s.len() - 1));
        assert(s.subrange(0, s.len() - 1)[e - 1] == s[e - 1]);
    }
}

/// le_number splits at any cut: the low part plus the high part shifted.
proof fn lemma_le_number_split(s: Seq<u8>, k: int)
    requires
        0 <= k <= s.len(),
    ensures
        le_number(s) == le_number(s.take(k)) + pow256(k as nat) * le_number(s.skip(k)),
    decreases s.len(),
{
    if k == s.len() {
        assert(s.take(k) =~= s);
        assert(s.skip(k) =~= Seq::<u8>::empty());
        assert(le_number(Seq::<u8>::empty()) == 0);
        assert(pow256(k as nat) * 0 == 0) by (nonlinear_arith);
    } else {
        let dl = s.drop_last();
        lemma_le_number_split(dl, k);
        assert(dl.take(k) =~= s.take(k));
        assert(dl.skip(k) =~= s.skip(k).drop_last());
        let hi = s.skip(k);
        let t = s.last() as nat;
        let n1 = (s.len() - 1 - k) as nat;
        assert(hi.last() == s.last());
        assert(hi.len() == s.len() - k);
        assert(le_number(hi) == le_number(hi.drop_last()) + t * pow256(n1));
        lemma_pow256_mul(k as nat, n1);
        assert(t * pow256((s.len() - 1) as nat) == pow256(k as nat) * (t * pow256(n1))) by {
            assert(pow256((s.len() - 1) as nat) == pow256(k as nat) * pow256(n1));
            assert(t * (pow256(k as nat) * pow256(n1)) == pow256(k as nat) * (t * pow256(n1)))
                by (nonlinear_arith);
        }
        assert(pow256(k as nat) * le_number(hi) == pow256(k as nat) * le_number(hi.drop_last())
            + pow256(k as nat) * (t * pow256(n1))) by (nonlinear_arith)
            requires
                le_number(hi) == le_number(hi.drop_last()) + t * pow256(n1),
        ;
        assert(le_number(s) == le_number(dl) + t * pow256((s.len() - 1) as nat));
        assert(le_number(dl) == le_number(s.take(k)) + pow256(k as nat) * le_number(
            hi.drop_last(),
        ));
    }
}

proof fn lemma_pow256_mul(m: nat, n: nat)
    ensures
        pow256(m + n) == pow256(m) * pow256(n),
    decreases m,
{
    if m == 0 {
        assert(pow256(0) == 1);
        assert(1 * pow256(n) == pow256(n)) by (nonlinear_arith);
    } else {
        lemma_pow256_mul((m - 1) as nat, n);
        assert(pow256(m + n) == 256 * pow256((m + n - 1) as nat));
        assert((m + n - 1) as nat == (m - 1) as nat + n);
        assert(256 * (pow256((m - 1) as nat) * pow256(n)) == (256 * pow256((m - 1) as nat))
            * pow256(n)) by (nonlinear_arith);
    }
}

/// Two equal-length keys that agree above position `i` and differ at `i`
/// order by the byte at `i`.
proof fn lemma_le_number_msb(a: Seq<u8>, b: Seq<u8>, i: int)
    requires
        a.len() == b.len(),
        0 <= i < a.len(),
        a.skip(i + 1) =~= b.skip(i + 1),
        a[i] < b[i],
    ensures
        le_number(a) < le_number(b),
{
    lemma_le_number_split(a, i + 1);
    lemma_le_number_split(b, i + 1);
    let la = a.take(i + 1);
    let lb = b.take(i + 1);
    assert(la.last() == a[i] && lb.last() == b[i]);
    assert(la.drop_last() =~= a.take(i));
    assert(lb.drop_last() =~= b.take(i));
    lemma_le_number_bound(a.take(i));
    assert(a[i] * pow256(i as nat) + pow256(i as nat) <= b[i] * pow256(i as nat)) by {
        lemma_mul_inequality(a[i] + 1, b[i] as int, pow256(i as nat) as int);
        assert((a[i] + 1) * pow256(i as nat) == a[i] * pow256(i as nat) + pow256(i as nat))
            by (nonlinear_arith);
    }
    assert(le_number(la) < le_number(lb));
}

/// Find the effective length of `a`: its length with trailing zeros removed.
fn effective_len_exec(a: &[u8]) -> (r: usize)
    ensures
        r == effective_len(a@),
{
    let mut l = a.len();
    proof {
        assert(a@.take(a.len() as int) =~= a@);
    }
    while l > 0 && a[l - 1] == 0
        invariant
            l <= a.len(),
            effective_len(a@) == effective_len(a@.take(l as int)),
        decreases l,
    {
        proof {
            assert(a@.take(l as int).drop_last() =~= a@.take(l as int - 1));
        }
        l = l - 1;
    }
    proof {
        if l > 0 {
            assert(a@.take(l as int).last() == a@[l - 1]);
        }
        assert(effective_len(a@.take(l as int)) == l);
    }
    l
}

impl Comparator for NumberComparator {
    open spec fn cmp_spec(a: Seq<u8>, b: Seq<u8>) -> Cmp {
        NumberComparator::spec_order(a, b)
    }

    proof fn lemma_reflexive(a: Seq<u8>) {
    }

    proof fn lemma_flip(a: Seq<u8>, b: Seq<u8>) {
    }

    proof fn lemma_transitive(a: Seq<u8>, b: Seq<u8>, c: Seq<u8>) {
    }

    proof fn lemma_equal_congruent(a: Seq<u8>, b: Seq<u8>, c: Seq<u8>) {
    }

    fn compare(a: &[u8], b: &[u8]) -> (r: Cmp) {
        let la = effective_len_exec(a);
        let lb = effective_len_exec(b);
        proof {
            lemma_le_number_effective(a@);
            lemma_le_number_effective(b@);
        }
        if la < lb {
            proof {
                lemma_effective_len_orders(a@, b@);
            }
            Cmp::Less
        } else if la > lb {
            proof {
                lemma_effective_len_orders(b@, a@);
            }
            Cmp::Greater
        } else {
            let mut i = la;
            while i > 0
                invariant
                    i <= la,
                    la == lb,
                    la <= a.len(),
                    lb <= b.len(),
                    la == effective_len(a@),
                    lb == effective_len(b@),
                    forall|j: int| i <= j < la ==> a@[j] == b@[j],
                decreases i,
            {
                let x = a[i - 1];
                let y = b[i - 1];
                if x < y {
                    proof {
                        lemma_cmp_at_byte(a@, b@, i as int - 1, la as int);
                    }
                    return Cmp::Less;
                }
                if x > y {
                    proof {
                        lemma_cmp_at_byte(b@, a@, i as int - 1, la as int);
                    }
                    return Cmp::Greater;
                }
                i = i - 1;
            }
            proof {
                assert(a@.take(la as int) =~= b@.take(la as int));
                assert(le_number(a@) == le_number(b@));
            }
            if a.len() < b.len() {
                Cmp::Less
            } else if a.len() > b.len() {
                Cmp::Greater
            } else {
                Cmp::Equal
            }
        }
    }
}

/// Two keys with a common effective length that agree above `i` (below that
/// length) and differ at `i` denote numbers ordered by the byte at `i`.
proof fn lemma_cmp_at_byte(a: Seq<u8>, b: Seq<u8>, i: int, l: int)
    requires
        effective_len(a) == l,
        effective_len(b) == l,
        l <= a.len(),
        l <= b.len(),
        0 <= i < l,
        forall|j: int| i < j < l ==> a[j] == b[j],
        a[i] < b[i],
    ensures
        le_number(a) < le_number(b),
{
    lemma_le_number_effective(a);
    lemma_le_number_effective(b);
    let ta = a.take(l);
    let tb = b.take(l);
    assert(ta.skip(i + 1) =~= tb.skip(i + 1));
    lemma_le_number_msb(ta, tb, i);
}

} // verus!
