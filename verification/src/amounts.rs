use vstd::prelude::*;
use crate::types::VestingData;

verus! {

/// Whether `x` fits in an `i128`.
pub open spec fn fits_i128(x: int) -> bool {
    i128::MIN <= x <= i128::MAX
}

/// The sum of the amounts of `s`.
pub open spec fn total(s: Seq<VestingData>) -> int
    decreases s.len(),
{
    if s.len() == 0 {
        0
    } else {
        total(s.drop_last()) + s.last().amount
    }
}

/// The sum of the amounts of `s`, added in order with `i128` arithmetic:
/// `None` where a running sum leaves the range of `i128`.
pub open spec fn checked_total(s: Seq<VestingData>) -> Option<int>
    decreases s.len(),
{
    if s.len() == 0 {
        Some(0)
    } else {
        match checked_total(s.drop_last()) {
            None => None,
            Some(p) => if fits_i128(p + s.last().amount) {
                Some(p + s.last().amount)
            } else {
                None
            },
        }
    }
}

/// A checked total, where it exists, is the plain total.
pub proof fn lemma_checked_total_is_total(s: Seq<VestingData>)
    ensures
        checked_total(s) matches Some(t) ==> t == total(s) && fits_i128(t),
    decreases s.len(),
{
    if s.len() > 0 {
        lemma_checked_total_is_total(s.drop_last());
    }
}

/// Appending a schedule to a sequence whose running sum has already
/// overflowed leaves it overflowed.
pub proof fn lemma_checked_total_push_none(s: Seq<VestingData>, v: VestingData)
    requires
        checked_total(s) is None,
    ensures
        checked_total(s.push(v)) is None,
{
    assert(s.push(v).drop_last() =~= s);
}

/// The running sum of a filtered prefix that overflows makes the running sum
/// of the whole filtered sequence overflow.
pub proof fn lemma_checked_total_prefix_none(
    s: Seq<VestingData>,
    pred: spec_fn(VestingData) -> bool,
    k: int,
)
    requires
        0 <= k <= s.len(),
        checked_total(s.take(k).filter(pred)) is None,
    ensures
        checked_total(s.filter(pred)) is None,
    decreases s.len() - k,
{
    if k == s.len() {
        assert(s.take(k) =~= s);
    } else {
        assert(s.take(k + 1) =~= s.take(k).push(s[k]));
        s.take(k).lemma_filter_push(s[k], pred);
        if pred(s[k]) {
            lemma_checked_total_push_none(s.take(k).filter(pred), s[k]);
        }
        lemma_checked_total_prefix_none(s, pred, k + 1);
    }
}

/// Appending a schedule adds its amount to the total.
pub proof fn lemma_total_push(s: Seq<VestingData>, v: VestingData)
    ensures
        total(s.push(v)) == total(s) + v.amount,
{
    assert(s.push(v).drop_last() =~= s);
}

/// Taking one schedule out of a sequence takes its amount out of the total.
pub proof fn lemma_total_remove(s: Seq<VestingData>, i: int)
    requires
        0 <= i < s.len(),
    ensures
        total(s) == total(s.remove(i)) + s[i].amount,
    decreases s.len(),
{
    if i == s.len() - 1 {
        assert(s.remove(i) =~= s.drop_last());
    } else {
        let d = s.drop_last();
        lemma_total_remove(d, i);
        assert(s.remove(i) =~= d.remove(i).push(s.last()));
        lemma_total_push(d.remove(i), s.last());
    }
}

/// Splitting a sequence by a predicate splits its total.
pub proof fn lemma_total_split(s: Seq<VestingData>, p: spec_fn(VestingData) -> bool, q: spec_fn(VestingData) -> bool)
    requires
        forall|v: VestingData| #[trigger] p(v) == !q(v),
    ensures
        total(s) == total(s.filter(p)) + total(s.filter(q)),
    decreases s.len(),
{
    if s.len() > 0 {
        let d = s.drop_last();
        lemma_total_split(d, p, q);
        assert(d.push(s.last()) =~= s);
        d.lemma_filter_push(s.last(), p);
        d.lemma_filter_push(s.last(), q);
        lemma_total_push(d.filter(p), s.last());
        lemma_total_push(d.filter(q), s.last());
    } else {
        assert(s.filter(p).len() == 0) by {
            reveal(Seq::filter);
        }
        assert(s.filter(q).len() == 0) by {
            reveal(Seq::filter);
        }
    }
}

/// Where every amount is positive and the total fits, every running sum fits.
pub proof fn lemma_checked_total_positive(s: Seq<VestingData>)
    requires
        forall|i: int| 0 <= i < s.len() ==> #[trigger] s[i].amount > 0,
        total(s) <= i128::MAX,
    ensures
        checked_total(s) == Some(total(s)),
        total(s) >= 0,
        s.len() > 0 ==> total(s) > 0,
    decreases s.len(),
{
    if s.len() > 0 {
        let d = s.drop_last();
        assert forall|i: int| 0 <= i < d.len() implies #[trigger] d[i].amount > 0 by {
            assert(d[i] == s[i]);
        }
        assert(s.last().amount > 0);
        lemma_checked_total_positive(d);
    }
}

} // verus!
