//! Aggregates of trust scores from several sources.

use vstd::prelude::*;
use crate::score::{clamp, clamped};
use crate::stage::{TrustStage, stage_of};

verus! {

/// The sum of a sequence of scores.
pub open spec fn sum_of(s: Seq<i32>) -> int
    decreases s.len(),
{
    if s.len() == 0 {
        0
    } else {
        sum_of(s.drop_last()) + s.last()
    }
}

/// How many scores are non-negative.
pub open spec fn non_negatives(s: Seq<i32>) -> nat
    decreases s.len(),
{
    if s.len() == 0 {
        0
    } else {
        non_negatives(s.drop_last()) + if s.last() >= 0 {
            1nat
        } else {
            0nat
        }
    }
}

/// `total / count` rounded to the nearest integer, halves away from zero
/// (`count` positive).
pub open spec fn rounded_quotient(total: int, count: int) -> int {
    if total >= 0 {
        (2 * total + count) / (2 * count)
    } else {
        -((-2 * total + count) / (2 * count))
    }
}

/// The average of the scores rounded to the nearest integer, halves away
/// from zero; zero when there are none.
pub open spec fn rounded_average(s: Seq<i32>) -> int {
    if s.len() == 0 {
        0
    } else {
        rounded_quotient(sum_of(s), s.len() as int)
    }
}

/// The least score, or zero when there are none.
pub open spec fn least(s: Seq<i32>) -> int
    decreases s.len(),
{
    if s.len() == 0 {
        0
    } else if s.len() == 1 || s.last() < least(s.drop_last()) {
        s.last() as int
    } else {
        least(s.drop_last())
    }
}

/// The greatest score, or zero when there are none.
pub open spec fn greatest(s: Seq<i32>) -> int
    decreases s.len(),
{
    if s.len() == 0 {
        0
    } else if s.len() == 1 || s.last() > greatest(s.drop_last()) {
        s.last() as int
    } else {
        greatest(s.drop_last())
    }
}

/// Methods for aggregating trust scores from multiple sources.
#[derive(Debug, Clone)]
pub struct ReputationScore {
    /// Individual trust scores from different sources.
    pub scores: Vec<i32>,
}

proof fn lemma_sum_bounds(s: Seq<i32>)
    ensures
        -(s.len() as int) * 0x8000_0000 <= sum_of(s) <= (s.len() as int) * 0x7fff_ffff,
    decreases s.len(),
{
    if s.len() > 0 {
        lemma_sum_bounds(s.drop_last());
    }
}

proof fn lemma_least_is_bound(s: Seq<i32>)
    ensures
        s.len() > 0 ==> s.contains(least(s) as i32),
        forall|i: int| 0 <= i < s.len() ==> least(s) <= #[trigger] s[i],
        s.len() > 0 ==> i32::MIN <= least(s) <= i32::MAX,
    decreases s.len(),
{
    if s.len() > 0 {
        let t = s.drop_last();
        lemma_least_is_bound(t);
        assert forall|i: int| 0 <= i < s.len() implies least(s) <= #[trigger] s[i] by {
            if i < s.len() - 1 {
                assert(s[i] == t[i]);
            }
        }
        if !(s.len() == 1 || s.last() < least(t)) {
            let k = choose|k: int| 0 <= k < t.len() && t[k] == least(t) as i32;
            assert(s[k] == t[k]);
        } else {
            assert(s[s.len() - 1] == s.last());
        }
    }
}

proof fn lemma_greatest_is_bound(s: Seq<i32>)
    ensures
        s.len() > 0 ==> s.contains(greatest(s) as i32),
        forall|i: int| 0 <= i < s.len() ==> greatest(s) >= #[trigger] s[i],
        s.len() > 0 ==> i32::MIN <= greatest(s) <= i32::MAX,
    decreases s.len(),
{
    if s.len() > 0 {
        let t = s.drop_last();
        lemma_greatest_is_bound(t);
        assert forall|i: int| 0 <= i < s.len() implies greatest(s) >= #[trigger] s[i] by {
            if i < s.len() - 1 {
                assert(s[i] == t[i]);
            }
        }
        if !(s.len() == 1 || s.last() > greatest(t)) {
            let k = choose|k: int| 0 <= k < t.len() && t[k] == greatest(t) as i32;
            assert(s[k] == t[k]);
        } else {
            assert(s[s.len() - 1] == s.last());
        }
    }
}

impl ReputationScore {
    /// Create from a slice of scores, each clamped to the trust bounds.
    pub fn new(scores: &[i32]) -> (r: Self)
        ensures
            r.scores@.len() == scores@.len(),
            forall|i: int| 0 <= i < scores@.len() ==> #[trigger] r.scores@[i] == clamped(scores@[i] as int),
    {
        let mut out: Vec<i32> = Vec::new();
        let mut i: usize = 0;
        while i < scores.len()
            invariant
                i <= scores@.len(),
                out@.len() == i,
                forall|k: int| 0 <= k < i ==> #[trigger] out@[k] == clamped(scores@[k] as int),
            decreases scores@.len() - i,
        {
            out.push(clamp(scores[i]));
            i += 1;
        }
        Self { scores: out }
    }

    /// Minimum score (most pessimistic view); zero when there are none.
    pub fn min(&self) -> (m: i32)
        ensures
            m == least(self.scores@),
            self.scores@.len() == 0 ==> m == 0,
            self.scores@.len() > 0 ==> self.scores@.contains(m),
            forall|i: int| 0 <= i < self.scores@.len() ==> m <= #[trigger] self.scores@[i],
    {
        proof {
            lemma_least_is_bound(self.scores@);
        }
        let n = self.scores.len();
        if n == 0 {
            return 0;
        }
        let mut m = self.scores[0];
        let mut i: usize = 1;
        while i < n
            invariant
                1 <= i <= n,
                n == self.scores@.len(),
                m == least(self.scores@.take(i as int)),
            decreases n - i,
        {
            proof {
                assert(self.scores@.take(i + 1).drop_last() =~= self.scores@.take(i as int));
            }
            if self.scores[i] < m {
                m = self.scores[i];
            }
            i += 1;
        }
        proof {
            assert(self.scores@.take(n as int) =~= self.scores@);
        }
        m
    }

    /// Maximum score (most optimistic view); zero when there are none.
    pub fn max(&self) -> (m: i32)
        ensures
            m == greatest(self.scores@),
            self.scores@.len() == 0 ==> m == 0,
            self.scores@.len() > 0 ==> self.scores@.contains(m),
            forall|i: int| 0 <= i < self.scores@.len() ==> m >= #[trigger] self.scores@[i],
    {
        proof {
            lemma_greatest_is_bound(self.scores@);
        }
        let n = self.scores.len();
        if n == 0 {
            return 0;
        }
        let mut m = self.scores[0];
        let mut i: usize = 1;
        while i < n
            invariant
                1 <= i <= n,
                n == self.scores@.len(),
                m == greatest(self.scores@.take(i as int)),
            decreases n - i,
        {
            proof {
                assert(self.scores@.take(i + 1).drop_last() =~= self.scores@.take(i as int));
            }
            if self.scores[i] > m {
                m = self.scores[i];
            }
            i += 1;
        }
        proof {
            assert(self.scores@.take(n as int) =~= self.scores@);
        }
        m
    }

    /// How many scores are non-negative (>= 0); the consensus is this count
    /// over the number of scores.
    pub fn non_negative_count(&self) -> (c: usize)
        ensures
            c == non_negatives(self.scores@),
            c == self.scores@.filter(|x: i32| x >= 0).len(),
    {
        proof {
            lemma_non_negatives_counts_filter(self.scores@);
        }
        let n = self.scores.len();
        let mut c: usize = 0;
        let mut i: usize = 0;
        while i < n
            invariant
                i <= n,
                n == self.scores@.len(),
                c <= i,
                c == non_negatives(self.scores@.take(i as int)),
            decreases n - i,
        {
            proof {
                assert(self.scores@.take(i + 1).drop_last() =~= self.scores@.take(i as int));
            }
            if self.scores[i] >= 0 {
                c += 1;
            }
            i += 1;
        }
        proof {
            assert(self.scores@.take(n as int) =~= self.scores@);
        }
        c
    }

    /// The sum of all scores, exactly.
    pub fn total(&self) -> (t: i128)
        ensures
            t == sum_of(self.scores@),
    {
        let n = self.scores.len();
        let mut total: i128 = 0;
        let mut i: usize = 0;
        while i < n
            invariant
                i <= n,
                n == self.scores@.len(),
                total == sum_of(self.scores@.take(i as int)),
                -(i as int) * 0x8000_0000 <= total <= (i as int) * 0x7fff_ffff,
            decreases n - i,
        {
            proof {
                assert(self.scores@.take(i + 1).drop_last() =~= self.scores@.take(i as int));
            }
            total = total + self.scores[i] as i128;
            i += 1;
        }
        proof {
            assert(self.scores@.take(n as int) =~= self.scores@);
        }
        total
    }

    /// Overall trust stage based on the average score, rounded to the
    /// nearest integer (halves away from zero).
    pub fn stage(&self) -> (s: TrustStage)
        ensures
            s == stage_of(rounded_average(self.scores@)),
    {
        let n = self.scores.len();
        if n == 0 {
            return TrustStage::from_trust(0);
        }
        let total = self.total();
        proof {
            lemma_sum_bounds(self.scores@);
        }
        let count = n as u128;
        let rounded: i128 = if total >= 0 {
            let q = (2 * (total as u128) + count) / (2 * count);
            assert(q <= 0x7fff_ffff) by (nonlinear_arith)
                requires
                    q == (2 * total + count) / (2 * count),
                    0 <= total <= count * 0x7fff_ffff,
                    count > 0,
            {
                assert(2 * total + count < (2 * count) * 0x8000_0000);
            }
            q as i128
        } else {
            let q = (2 * ((-total) as u128) + count) / (2 * count);
            assert(q <= 0x8000_0000) by (nonlinear_arith)
                requires
                    q == (2 * (-total) + count) / (2 * count),
                    0 < -total <= count * 0x8000_0000,
                    count > 0,
            {
                assert(2 * (-total) + count < (2 * count) * 0x8000_0001);
            }
            -(q as i128)
        };
        TrustStage::from_trust(rounded as i32)
    }
}

/// The least score is never above the greatest.
pub proof fn lemma_least_not_above_greatest(s: Seq<i32>)
    ensures
        least(s) <= greatest(s),
{
    lemma_least_is_bound(s);
    lemma_greatest_is_bound(s);
    if s.len() > 0 {
        assert(least(s) <= s[0] <= greatest(s));
    }
}

/// The count of non-negative scores is the length of the scores that are
/// non-negative, kept in order.
pub proof fn lemma_non_negatives_counts_filter(s: Seq<i32>)
    ensures
        non_negatives(s) == s.filter(|x: i32| x >= 0).len(),
    decreases s.len(),
{
    reveal_with_fuel(Seq::<i32>::filter, 1);
    if s.len() > 0 {
        lemma_non_negatives_counts_filter(s.drop_last());
    }
}

/// Counting non-negative scores splits over concatenation; no negative
/// score is counted and every non-negative one is.
pub proof fn lemma_non_negatives_additive(s: Seq<i32>, t: Seq<i32>)
    ensures
        non_negatives(s + t) == non_negatives(s) + non_negatives(t),
        (forall|i: int| 0 <= i < s.len() ==> #[trigger] s[i] < 0) ==> non_negatives(s) == 0,
        (forall|i: int| 0 <= i < s.len() ==> #[trigger] s[i] >= 0) ==> non_negatives(s) == s.len(),
        non_negatives(s) <= s.len(),
    decreases t.len(),
{
    lemma_non_negatives_bounds(s);
    if t.len() > 0 {
        lemma_non_negatives_additive(s, t.drop_last());
        assert((s + t).drop_last() =~= s + t.drop_last());
        assert((s + t).last() == t.last());
    } else {
        assert(s + t =~= s);
    }
}

proof fn lemma_non_negatives_bounds(s: Seq<i32>)
    ensures
        (forall|i: int| 0 <= i < s.len() ==> #[trigger] s[i] < 0) ==> non_negatives(s) == 0,
        (forall|i: int| 0 <= i < s.len() ==> #[trigger] s[i] >= 0) ==> non_negatives(s) == s.len(),
        non_negatives(s) <= s.len(),
    decreases s.len(),
{
    if s.len() > 0 {
        let t = s.drop_last();
        lemma_non_negatives_bounds(t);
        if forall|i: int| 0 <= i < s.len() ==> #[trigger] s[i] < 0 {
            assert forall|i: int| 0 <= i < t.len() implies #[trigger] t[i] < 0 by {
                assert(t[i] == s[i]);
            }
            assert(s[s.len() - 1] < 0);
        }
        if forall|i: int| 0 <= i < s.len() ==> #[trigger] s[i] >= 0 {
            assert forall|i: int| 0 <= i < t.len() implies #[trigger] t[i] >= 0 by {
                assert(t[i] == s[i]);
            }
            assert(s[s.len() - 1] >= 0);
        }
    }
}

} // verus!
