//! Verified core of a Shannon-entropy calculator for byte data.
//!
//! The entropy of a byte sequence is determined by the number of occurrences
//! of each byte value and by the total length: it is the negated sum, over
//! the byte values that occur at all, of `p * log2(p)`, where `p` is the
//! value's occurrence count divided by the length. This crate builds that
//! combinatorial data in verified code: the 256-bucket histogram of an input
//! and the list of its nonzero counts, with contracts that pin each count
//! down exactly, together with proofs that the counts depend only on the
//! multiset of byte values, that they sum to the input's length, and of what
//! they are on empty, constant and uniform inputs. The final floating-point
//! fold over the nonzero counts is left to the caller: it is arithmetic over
//! the values produced and proved here.

use vstd::prelude::*;

verus! {

/// How many times the byte value `v` occurs in `s`.
pub open spec fn count_of(s: Seq<u8>, v: u8) -> nat {
    s.to_multiset().count(v)
}

/// The histogram of `s`: 256 buckets, bucket `v` holding the number of
/// occurrences of the byte value `v` in `s`.
pub open spec fn histogram_of(s: Seq<u8>) -> Seq<usize> {
    Seq::new(256, |v: int| count_of(s, v as u8) as usize)
}

/// The nonzero entries of `h`, in order.
pub open spec fn nonzero_of(h: Seq<usize>) -> Seq<usize> {
    h.filter(|c: usize| c != 0)
}

/// The nonzero byte-occurrence counts of `s`, in ascending order of byte
/// value: exactly the multiplicities that the entropy formula sums over.
pub open spec fn entropy_counts_of(s: Seq<u8>) -> Seq<usize> {
    nonzero_of(histogram_of(s))
}

/// No byte value occurs more often than the sequence is long.
proof fn lemma_count_le_len(s: Seq<u8>, v: u8)
    ensures
        count_of(s, v) <= s.len(),
    decreases s.len(),
{
    broadcast use vstd::seq_lib::group_to_multiset_ensures;
    broadcast use vstd::multiset::group_multiset_properties;

    if s.len() == 0 {
        assert(!s.contains(v));
        assert(s.to_multiset().count(v) == 0);
    } else {
        let t = s.drop_last();
        lemma_count_le_len(t, v);
        assert(s =~= t.push(s.last()));
        assert(t.push(s.last()).to_multiset() =~= t.to_multiset().insert(s.last()));
    }
}

/// Builds the histogram of `data`: 256 buckets, bucket `v` counting the
/// occurrences of the byte value `v`.
pub fn byte_histogram(data: &[u8]) -> (hist: Vec<usize>)
    ensures
        hist@ == histogram_of(data@),
        hist@.len() == 256,
{
    let mut hist: Vec<usize> = Vec::new();
    let mut j: usize = 0;
    while j < 256
        invariant
            hist@.len() == j,
            j <= 256,
            forall|k: int| 0 <= k < j ==> hist@[k] == 0,
        decreases 256 - j,
    {
        hist.push(0);
        j = j + 1;
    }
    proof {
        let pre0 = data@.subrange(0, 0);
        assert(pre0 =~= Seq::<u8>::empty());
        assert forall|k: int| 0 <= k < 256 implies hist@[k] == histogram_of(pre0)[k] by {
            lemma_count_le_len(pre0, k as u8);
        }
        assert(hist@ =~= histogram_of(pre0));
    }
    let mut i: usize = 0;
    while i < data.len()
        invariant
            i <= data@.len(),
            hist@ == histogram_of(data@.subrange(0, i as int)),
        decreases data@.len() - i,
    {
        let ghost pre = data@.subrange(0, i as int);
        let b: u8 = data[i];
        let c: usize = hist[b as usize];
        proof {
            lemma_count_le_len(pre, b);
            assert(c == count_of(pre, b) as usize);
            assert(c <= i);
        }
        hist[b as usize] = c + 1;
        i = i + 1;
        proof {
            broadcast use vstd::seq_lib::group_to_multiset_ensures;
            broadcast use vstd::multiset::group_multiset_properties;

            let post = data@.subrange(0, i as int);
            assert(post =~= pre.push(b));
            assert(pre.push(b).to_multiset() =~= pre.to_multiset().insert(b));
            assert forall|k: int| 0 <= k < 256 implies hist@[k] == histogram_of(post)[k] by {
                let w = k as u8;
                if w == b {
                    assert(count_of(post, w) == count_of(pre, w) + 1);
                } else {
                    assert(count_of(post, w) == count_of(pre, w));
                }
            }
            assert(hist@ =~= histogram_of(post));
        }
    }
    proof {
        assert(data@.subrange(0, data@.len() as int) =~= data@);
    }
    hist
}

/// Keeps the nonzero entries of `hist`, in order.
pub fn nonzero_counts(hist: &Vec<usize>) -> (r: Vec<usize>)
    ensures
        r@ == nonzero_of(hist@),
{
    let mut r: Vec<usize> = Vec::new();
    let mut i: usize = 0;
    while i < hist.len()
        invariant
            i <= hist@.len(),
            r@ == nonzero_of(hist@.subrange(0, i as int)),
        decreases hist@.len() - i,
    {
        let c: usize = hist[i];
        proof {
            reveal(Seq::filter);
            let pre = hist@.subrange(0, i as int);
            let post = hist@.subrange(0, i as int + 1);
            assert(post.drop_last() =~= pre);
            assert(post.last() == c);
        }
        if c != 0 {
            r.push(c);
        }
        i = i + 1;
    }
    proof {
        assert(hist@.subrange(0, hist@.len() as int) =~= hist@);
    }
    r
}

/// The nonzero byte-occurrence counts of `data`, in ascending order of byte
/// value. Together with `data.len()` these are exactly the inputs of the
/// entropy formula: each count `c` contributes `-(c / len) * log2(c / len)`.
pub fn entropy_counts(data: &[u8]) -> (r: Vec<usize>)
    ensures
        r@ == entropy_counts_of(data@),
{
    let hist = byte_histogram(data);
    nonzero_counts(&hist)
}

/// A sequence with no nonzero entry filters down to nothing.
proof fn lemma_nonzero_all_zero(h: Seq<usize>)
    requires
        forall|k: int| 0 <= k < h.len() ==> h[k] == 0,
    ensures
        nonzero_of(h) == Seq::<usize>::empty(),
    decreases h.len(),
{
    reveal(Seq::filter);
    if h.len() == 0 {
        assert(h =~= Seq::<usize>::empty());
    } else {
        lemma_nonzero_all_zero(h.drop_last());
    }
}

/// A sequence whose one nonzero entry stands at `j` filters down to that
/// entry alone.
proof fn lemma_nonzero_single(h: Seq<usize>, j: int)
    requires
        0 <= j < h.len(),
        h[j] != 0,
        forall|k: int| 0 <= k < h.len() && k != j ==> h[k] == 0,
    ensures
        nonzero_of(h) == seq![h[j]],
    decreases h.len(),
{
    reveal(Seq::filter);
    if j == h.len() - 1 {
        lemma_nonzero_all_zero(h.drop_last());
        assert(nonzero_of(h) =~= seq![h[j]]);
    } else {
        lemma_nonzero_single(h.drop_last(), j);
        assert(h.drop_last()[j] == h[j]);
    }
}

/// A sequence with no zero entry passes through the filter unchanged.
proof fn lemma_nonzero_all_nonzero(h: Seq<usize>)
    requires
        forall|k: int| 0 <= k < h.len() ==> h[k] != 0,
    ensures
        nonzero_of(h) == h,
    decreases h.len(),
{
    reveal(Seq::filter);
    if h.len() > 0 {
        lemma_nonzero_all_nonzero(h.drop_last());
        assert(nonzero_of(h) =~= h);
    }
}

/// The sum of a sequence of counts.
pub open spec fn sum_of(h: Seq<usize>) -> int
    decreases h.len(),
{
    if h.len() == 0 {
        0
    } else {
        sum_of(h.drop_last()) + h.last()
    }
}

/// Replacing the entry at `j` changes the sum by the difference.
proof fn lemma_sum_update(h: Seq<usize>, j: int, val: usize)
    requires
        0 <= j < h.len(),
    ensures
        sum_of(h.update(j, val)) == sum_of(h) - h[j] + val,
    decreases h.len(),
{
    let u = h.update(j, val);
    if j == h.len() - 1 {
        assert(u.drop_last() =~= h.drop_last());
    } else {
        assert(u.drop_last() =~= h.drop_last().update(j, val));
        lemma_sum_update(h.drop_last(), j, val);
    }
}

/// Every entry of an all-zero sequence contributes nothing to the sum.
proof fn lemma_sum_all_zero(h: Seq<usize>)
    requires
        forall|k: int| 0 <= k < h.len() ==> h[k] == 0,
    ensures
        sum_of(h) == 0,
    decreases h.len(),
{
    if h.len() > 0 {
        lemma_sum_all_zero(h.drop_last());
    }
}

/// Dropping the zero entries of a sequence does not change its sum.
proof fn lemma_sum_nonzero(h: Seq<usize>)
    ensures
        sum_of(nonzero_of(h)) == sum_of(h),
    decreases h.len(),
{
    reveal(Seq::filter);
    if h.len() > 0 {
        let t = h.drop_last();
        lemma_sum_nonzero(t);
        if h.last() != 0 {
            assert(nonzero_of(h) == nonzero_of(t).push(h.last()));
            assert(nonzero_of(t).push(h.last()).drop_last() =~= nonzero_of(t));
        }
    }
}

/// The histogram's counts sum to the input's length — the histogram is a
/// partition of the input's positions by byte value — and dropping the zero
/// buckets keeps the sum, so the probabilities the entropy formula derives
/// from the nonzero counts sum to one.
pub proof fn lemma_entropy_counts_sum(s: Seq<u8>)
    requires
        s.len() <= usize::MAX,
    ensures
        sum_of(histogram_of(s)) == s.len(),
        sum_of(entropy_counts_of(s)) == s.len(),
    decreases s.len(),
{
    broadcast use vstd::seq_lib::group_to_multiset_ensures;
    broadcast use vstd::multiset::group_multiset_properties;

    if s.len() == 0 {
        assert forall|k: int| 0 <= k < 256 implies histogram_of(s)[k] == 0 by {
            lemma_count_le_len(s, k as u8);
        }
        lemma_sum_all_zero(histogram_of(s));
    } else {
        let t = s.drop_last();
        let b = s.last();
        lemma_entropy_counts_sum(t);
        assert(s =~= t.push(b));
        assert(t.push(b).to_multiset() =~= t.to_multiset().insert(b));
        assert forall|k: int| 0 <= k < 256 implies histogram_of(s)[k] == histogram_of(t).update(
            b as int,
            (count_of(t, b) + 1) as usize,
        )[k] by {
            let w = k as u8;
            lemma_count_le_len(t, w);
            if w == b {
                assert(count_of(s, w) == count_of(t, w) + 1);
            } else {
                assert(count_of(s, w) == count_of(t, w));
            }
        }
        assert(histogram_of(s) =~= histogram_of(t).update(
            b as int,
            (count_of(t, b) + 1) as usize,
        ));
        lemma_count_le_len(t, b);
        lemma_sum_update(histogram_of(t), b as int, (count_of(t, b) + 1) as usize);
    }
    lemma_sum_nonzero(histogram_of(s));
}

/// Entropy data is permutation-invariant: two byte sequences with the same
/// multiset of values have the same length and the same nonzero counts, so
/// the entropy formula receives identical inputs for both.
pub proof fn lemma_entropy_counts_permutation(s1: Seq<u8>, s2: Seq<u8>)
    requires
        s1.to_multiset() == s2.to_multiset(),
    ensures
        s1.len() == s2.len(),
        entropy_counts_of(s1) == entropy_counts_of(s2),
{
    broadcast use vstd::seq_lib::group_to_multiset_ensures;

    assert(s1.len() == s1.to_multiset().len());
    assert(s2.len() == s2.to_multiset().len());
    assert(histogram_of(s1) =~= histogram_of(s2));
}

/// An empty input has no nonzero counts: the entropy formula degenerates to
/// an empty sum, so the entropy of an empty input is exactly zero.
pub proof fn lemma_entropy_counts_empty(s: Seq<u8>)
    requires
        s.len() == 0,
    ensures
        entropy_counts_of(s) == Seq::<usize>::empty(),
{
    assert forall|k: int| 0 <= k < 256 implies histogram_of(s)[k] == 0 by {
        lemma_count_le_len(s, k as u8);
    }
    lemma_nonzero_all_zero(histogram_of(s));
}

/// How often each byte value occurs in a sequence made of one value alone.
proof fn lemma_count_constant(s: Seq<u8>, v: u8, w: u8)
    requires
        forall|i: int| 0 <= i < s.len() ==> s[i] == v,
    ensures
        count_of(s, w) == if w == v {
            s.len()
        } else {
            0nat
        },
    decreases s.len(),
{
    broadcast use vstd::seq_lib::group_to_multiset_ensures;
    broadcast use vstd::multiset::group_multiset_properties;

    if s.len() == 0 {
        assert(!s.contains(w));
    } else {
        let t = s.drop_last();
        lemma_count_constant(t, v, w);
        assert(s =~= t.push(s.last()));
        assert(t.push(s.last()).to_multiset() =~= t.to_multiset().insert(s.last()));
    }
}

/// A nonempty input in which every byte has the same value has exactly one
/// nonzero count, the input's length: the formula's one term is
/// `-(len / len) * log2(len / len)`, so the entropy is exactly zero.
pub proof fn lemma_entropy_counts_constant(s: Seq<u8>, v: u8)
    requires
        0 < s.len() <= usize::MAX,
        forall|i: int| 0 <= i < s.len() ==> s[i] == v,
    ensures
        entropy_counts_of(s) == seq![s.len() as usize],
{
    assert forall|k: int| 0 <= k < 256 && k != v as int implies histogram_of(s)[k] == 0 by {
        lemma_count_constant(s, v, k as u8);
    }
    lemma_count_constant(s, v, v);
    assert(histogram_of(s)[v as int] == s.len() as usize);
    lemma_nonzero_single(histogram_of(s), v as int);
}

/// An input in which all 256 byte values occur equally often, `k > 0` times
/// each, keeps all 256 counts, each equal to `k`: every term of the formula
/// is `-(k / len) * log2(k / len)` with `len == 256 * k`, which sums to
/// exactly eight bits per byte.
pub proof fn lemma_entropy_counts_uniform(s: Seq<u8>, k: usize)
    requires
        k > 0,
        forall|v: u8| count_of(s, v) == k as nat,
    ensures
        entropy_counts_of(s) == Seq::new(256, |i: int| k),
{
    assert forall|i: int| 0 <= i < 256 implies histogram_of(s)[i] == k by {
        assert(count_of(s, i as u8) == k as nat);
    }
    assert(histogram_of(s) =~= Seq::new(256, |i: int| k));
    lemma_nonzero_all_nonzero(histogram_of(s));
}

} // verus!
