use vstd::prelude::*;

verus! {

/// Statistical summary of a history of results as a histogram.
pub struct Histogram<T> {
    min: T,
    max: T,
    total: T,
    distribution: Vec<usize>,
    outlier_count: usize,
    threshold: usize,
}

/// Number of entries of `s` equal to `x`.
pub open spec fn count_eq(s: Seq<usize>, x: int) -> nat
    decreases s.len(),
{
    if s.len() == 0 {
        0
    } else {
        count_eq(s.drop_last(), x) + if s.last() == x { 1nat } else { 0nat }
    }
}

/// Number of entries of `s` strictly above `t`.
pub open spec fn count_above(s: Seq<usize>, t: int) -> nat
    decreases s.len(),
{
    if s.len() == 0 {
        0
    } else {
        count_above(s.drop_last(), t) + if s.last() > t { 1nat } else { 0nat }
    }
}

/// Sum of the entries of `s`.
pub open spec fn seq_sum(s: Seq<usize>) -> nat
    decreases s.len(),
{
    if s.len() == 0 {
        0
    } else {
        seq_sum(s.drop_last()) + s.last() as nat
    }
}

/// Whether `m` is the smallest entry of `s`.
pub open spec fn is_min_of(s: Seq<usize>, m: usize) -> bool {
    s.contains(m) && forall|i: int| 0 <= i < s.len() ==> m <= #[trigger] s[i]
}

/// Whether `m` is the largest entry of `s`.
pub open spec fn is_max_of(s: Seq<usize>, m: usize) -> bool {
    s.contains(m) && forall|i: int| 0 <= i < s.len() ==> #[trigger] s[i] <= m
}

proof fn lemma_sum_prefix_le(s: Seq<usize>, i: int)
    requires
        0 <= i <= s.len(),
    ensures
        seq_sum(s.take(i)) <= seq_sum(s),
    decreases s.len(),
{
    if i < s.len() {
        assert(s.drop_last().take(i) =~= s.take(i));
        lemma_sum_prefix_le(s.drop_last(), i);
    } else {
        assert(s.take(i) =~= s);
    }
}

proof fn lemma_sum_increment(s: Seq<usize>, k: int)
    requires
        0 <= k < s.len(),
        s[k] < usize::MAX,
    ensures
        seq_sum(s.update(k, (s[k] + 1) as usize)) == seq_sum(s) + 1,
    decreases s.len(),
{
    let t = s.update(k, (s[k] + 1) as usize);
    if k == s.len() - 1 {
        assert(t.drop_last() =~= s.drop_last());
    } else {
        assert(t.drop_last() =~= s.drop_last().update(k, (s[k] + 1) as usize));
        lemma_sum_increment(s.drop_last(), k);
    }
}

impl<T> Histogram<T> {
    /// A histogram counts each of the values `0..=threshold`.
    #[verifier::type_invariant]
    closed spec fn counts_every_value_up_to_threshold(self) -> bool {
        self.distribution@.len() == self.threshold + 1
    }

    /// The smallest value of the history.
    pub closed spec fn min_value(&self) -> T {
        self.min
    }

    /// The largest value of the history.
    pub closed spec fn max_value(&self) -> T {
        self.max
    }

    /// The sum of the history.
    pub closed spec fn total_value(&self) -> T {
        self.total
    }

    /// Occurrence counts of the values `0..=threshold`.
    pub closed spec fn counts(&self) -> Seq<usize> {
        self.distribution@
    }

    /// Number of values above the threshold.
    pub closed spec fn outliers_count(&self) -> usize {
        self.outlier_count
    }

    /// The largest value that is counted rather than taken as an outlier.
    pub closed spec fn threshold_value(&self) -> usize {
        self.threshold
    }
}

/// The character of the decimal digit `d`.
pub open spec fn digit_char(d: nat) -> char {
    (d + 48) as char
}

/// The decimal notation of `x`, without leading zeros.
pub open spec fn decimal_text(x: nat) -> Seq<char>
    decreases x,
{
    if x < 10 {
        seq![digit_char(x)]
    } else {
        decimal_text(x / 10) + seq![digit_char(x % 10)]
    }
}

/// The decimal notation of `x`.
///
/// Calls `ToString::to_string` on the `usize`, whose `Display` writes the
/// number in decimal without sign, padding or leading zeros.
#[verifier::external_body]
fn decimal_string(x: usize) -> (s: String)
    ensures
        s@ == decimal_text(x as nat),
{
    x.to_string()
}

/// The decimal notations of the entries of `s`, separated by `, `.
pub open spec fn joined_decimals(s: Seq<usize>) -> Seq<char>
    decreases s.len(),
{
    if s.len() == 0 {
        Seq::empty()
    } else if s.len() == 1 {
        decimal_text(s[0] as nat)
    } else {
        joined_decimals(s.drop_last()) + ", "@ + decimal_text(s.last() as nat)
    }
}

impl Histogram<usize> {
    /// A single line with the minimum, the maximum, the total sum, the number of
    /// outliers and the counts, e.g.
    /// `min: 1, max: 8, total 40, outlier_count: 2, distribution [0, 1, 3, 3, 0, 2]`.
    pub fn debug_line(&self) -> (s: String)
        ensures
            s@ == "min: "@ + decimal_text(self.min_value() as nat) + ", max: "@ + decimal_text(self.max_value() as nat)
                + ", total "@ + decimal_text(self.total_value() as nat) + ", outlier_count: "@ + decimal_text(
                self.outliers_count() as nat,
            ) + ", distribution ["@ + joined_decimals(self.counts()) + "]"@,
    {
        let mut s = String::new();
        s.append("min: ");
        let d = decimal_string(self.min);
        s.append(d.as_str());
        s.append(", max: ");
        let d = decimal_string(self.max);
        s.append(d.as_str());
        s.append(", total ");
        let d = decimal_string(self.total);
        s.append(d.as_str());
        s.append(", outlier_count: ");
        let d = decimal_string(self.outlier_count);
        s.append(d.as_str());
        s.append(", distribution [");
        let ghost head = s@;
        let counts = &self.distribution;
        let mut k: usize = 0;
        while k < counts.len()
            invariant
                k <= counts@.len(),
                s@ == head + joined_decimals(counts@.take(k as int)),
            decreases counts@.len() - k,
        {
            if k > 0 {
                s.append(", ");
            }
            let d = decimal_string(counts[k]);
            s.append(d.as_str());
            proof {
                let t = counts@.take(k + 1);
                assert(t.drop_last() =~= counts@.take(k as int));
                assert(counts@.take(0) =~= Seq::<usize>::empty());
                assert(s@ =~= head + joined_decimals(t));
            }
            k = k + 1;
        }
        s.append("]");
        proof {
            assert(counts@.take(counts@.len() as int) =~= counts@);
        }
        s
    }

    /// A single line with the minimum, the maximum, the total sum and the
    /// number of outliers, e.g. `min: 1, max: 8, total: 40, outlier_count: 2`.
    pub fn display_line(&self) -> (s: String)
        ensures
            s@ == "min: "@ + decimal_text(self.min_value() as nat) + ", max: "@ + decimal_text(self.max_value() as nat)
                + ", total: "@ + decimal_text(self.total_value() as nat) + ", outlier_count: "@ + decimal_text(
                self.outliers_count() as nat,
            ),
    {
        let mut s = String::new();
        s.append("min: ");
        let d = decimal_string(self.min);
        s.append(d.as_str());
        s.append(", max: ");
        let d = decimal_string(self.max);
        s.append(d.as_str());
        s.append(", total: ");
        let d = decimal_string(self.total);
        s.append(d.as_str());
        s.append(", outlier_count: ");
        let d = decimal_string(self.outlier_count);
        s.append(d.as_str());
        s
    }

    /// Builds a histogram from a non-empty history of results and a threshold.
    ///
    /// For each value in `0..=threshold` the number of its occurrences in the
    /// history is counted; values above the threshold are counted as outliers.
    /// The histogram also keeps the minimum, the maximum and the sum of the history.
    pub fn from_nonempty_usize_history_vec(vec: Vec<usize>, threshold: usize) -> (h: Histogram<usize>)
        requires
            vec@.len() > 0,
            threshold < usize::MAX,
            seq_sum(vec@) <= usize::MAX,
        ensures
            is_min_of(vec@, h.min_value()),
            is_max_of(vec@, h.max_value()),
            h.total_value() == seq_sum(vec@),
            h.threshold_value() == threshold,
            h.counts().len() == threshold + 1,
            forall|k: int| 0 <= k <= threshold ==> #[trigger] h.counts()[k] == count_eq(vec@, k),
            h.outliers_count() == count_above(vec@, threshold as int),
            seq_sum(h.counts()) + h.outliers_count() == vec@.len(),
    {
        let len = vec.len();
        let mut min: usize = vec[0];
        let mut max: usize = vec[0];
        let mut total: usize = 0;
        let mut distribution: Vec<usize> = vec![0; threshold + 1];
        let mut outlier_count: usize = 0;
        let mut idx: usize = 0;
        proof {
            assert(vec@.take(0) =~= Seq::<usize>::empty());
            assert forall|k: int| 0 <= k <= threshold implies #[trigger] distribution@[k] == count_eq(vec@.take(0), k) by {}
            assert(seq_sum(distribution@) == 0) by {
                let z = distribution@;
                assert forall|m: int| 0 <= m <= z.len() implies seq_sum(#[trigger] z.take(m)) == 0 by {
                    lemma_sum_zero_prefix(z, m);
                }
                assert(z.take(z.len() as int) =~= z);
            }
        }
        while idx < len
            invariant
                len == vec@.len() > 0,
                idx <= len,
                threshold < usize::MAX,
                seq_sum(vec@) <= usize::MAX,
                distribution@.len() == threshold + 1,
                vec@.take(idx as int).contains(min) || (idx == 0 && min == vec@[0]),
                vec@.take(idx as int).contains(max) || (idx == 0 && max == vec@[0]),
                forall|i: int| 0 <= i < idx ==> min <= #[trigger] vec@[i] && vec@[i] <= max,
                min == vec@[0] || idx > 0,
                max == vec@[0] || idx > 0,
                total == seq_sum(vec@.take(idx as int)),
                forall|k: int| 0 <= k <= threshold ==> #[trigger] distribution@[k] == count_eq(vec@.take(idx as int), k),
                forall|k: int| 0 <= k <= threshold ==> #[trigger] distribution@[k] <= idx,
                outlier_count == count_above(vec@.take(idx as int), threshold as int),
                seq_sum(distribution@) + outlier_count == idx,
            decreases len - idx,
        {
            let entry = vec[idx];
            proof {
                assert(vec@.take(idx + 1).drop_last() =~= vec@.take(idx as int));
                assert(vec@.take(idx + 1).last() == entry);
                lemma_sum_prefix_le(vec@, idx + 1);
            }
            total = total + entry;
            if entry < min {
                min = entry;
            }
            if entry > max {
                max = entry;
            }
            if entry <= threshold {
                let c = distribution[entry];
                proof {
                    lemma_sum_increment(distribution@, entry as int);
                }
                distribution.set(entry, c + 1);
            } else {
                outlier_count = outlier_count + 1;
            }
            proof {
                assert(vec@.take(idx + 1)[idx as int] == entry);
                assert forall|i: int| 0 <= i < idx + 1 implies min <= #[trigger] vec@[i] && vec@[i] <= max by {}
                if vec@.take(idx as int).contains(min) {
                    let w = choose|w: int| 0 <= w < idx && vec@.take(idx as int)[w] == min;
                    assert(vec@.take(idx + 1)[w] == min);
                } else {
                    assert(vec@.take(idx + 1)[idx as int] == min || vec@.take(idx + 1)[0] == min);
                }
                if vec@.take(idx as int).contains(max) {
                    let w = choose|w: int| 0 <= w < idx && vec@.take(idx as int)[w] == max;
                    assert(vec@.take(idx + 1)[w] == max);
                } else {
                    assert(vec@.take(idx + 1)[idx as int] == max || vec@.take(idx + 1)[0] == max);
                }
            }
            idx = idx + 1;
        }
        proof {
            assert(vec@.take(len as int) =~= vec@);
        }
        Histogram { min, max, total, distribution, outlier_count, threshold }
    }

    /// Returns the threshold.
    pub fn threshold(&self) -> (t: usize)
        ensures
            t == self.threshold_value(),
            self.counts().len() == t + 1,
    {
        proof {
            use_type_invariant(self);
        }
        self.threshold
    }

    /// Returns the occurrence counts of the values `0..=threshold`.
    pub fn distribution(&self) -> (d: &Vec<usize>)
        ensures
            d@ == self.counts(),
            d@.len() == self.threshold_value() + 1,
    {
        proof {
            use_type_invariant(self);
        }
        &self.distribution
    }
}

proof fn lemma_sum_zero_prefix(z: Seq<usize>, m: int)
    requires
        0 <= m <= z.len(),
        forall|k: int| 0 <= k < z.len() ==> z[k] == 0,
    ensures
        seq_sum(z.take(m)) == 0,
    decreases m,
{
    if m > 0 {
        assert(z.take(m).drop_last() =~= z.take(m - 1));
        lemma_sum_zero_prefix(z, m - 1);
    }
}

} // verus!
