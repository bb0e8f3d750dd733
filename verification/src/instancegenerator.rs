use vstd::prelude::*;
use rand::seq::SliceRandom;

verus! {

/// Methods for selecting certain agents as influencers.
#[derive(Clone, Copy, Debug, PartialEq, Eq, Structural)]
pub enum SimpleAgentSelector {
    /// Selecting a subset of agents uniformly at random.
    Random,
    /// Selecting a subset of agents by their (out) degree.
    HighestOutDegree,
    /// Selecting a subset of agents by their linear influence on the reward.
    MostInfluential,
}

/// Shuffles `v` in place with the thread-local random generator.
///
/// Calls `rand::seq::SliceRandom::shuffle`, which only swaps entries, so the
/// result is a permutation of the input; which permutation is not stated.
#[verifier::external_body]
fn shuffle_flags(v: &mut Vec<bool>)
    ensures
        final(v)@.len() == old(v)@.len(),
        final(v)@.to_multiset() == old(v)@.to_multiset(),
{
    v.shuffle(&mut rand::rng());
}

/// The integer that a 32-bit IEEE 754 bit pattern stands for in the total order
/// of floating-point values (as in `f32::total_cmp`): the magnitude for a
/// cleared sign bit, and minus the magnitude minus one for a set sign bit, so
/// that `-0.0` comes just before `+0.0`.
pub open spec fn sign_magnitude_value(bits: u32) -> int {
    if bits >= 0x8000_0000 {
        -((bits - 0x8000_0000) as int) - 1
    } else {
        bits as int
    }
}

/// A key for a ranking from the bit pattern of an `f32` influence value: keys
/// compare as the values do under `f32::total_cmp`.
pub fn influence_order_key(bits: u32) -> (k: u64)
    ensures
        k == sign_magnitude_value(bits) + 0x8000_0000,
{
    if bits >= 0x8000_0000 {
        (0xFFFF_FFFFu32 - bits) as u64
    } else {
        bits as u64 + 0x8000_0000
    }
}

/// Whether the entry at position `a` of `ranking` comes before the entry at
/// position `b` when the entries are ordered by decreasing key, ties kept in
/// their given order.
pub open spec fn ranks_before(ranking: Seq<(usize, u64)>, a: int, b: int) -> bool {
    ranking[a].1 > ranking[b].1 || (ranking[a].1 == ranking[b].1 && a < b)
}

/// Number of entries among the first `m` of `ranking` that come before entry `k`.
pub open spec fn count_before(ranking: Seq<(usize, u64)>, k: int, m: int) -> nat
    decreases m,
{
    if m <= 0 {
        0
    } else {
        count_before(ranking, k, m - 1) + if ranks_before(ranking, m - 1, k) { 1nat } else { 0nat }
    }
}

/// Position of entry `k` when `ranking` is sorted by decreasing key, stably.
pub open spec fn rank_of(ranking: Seq<(usize, u64)>, k: int) -> nat {
    count_before(ranking, k, ranking.len() as int)
}

/// Whether node `v` is among the first `count` nodes of `ranking` sorted by
/// decreasing key, stably.
pub open spec fn among_top(ranking: Seq<(usize, u64)>, count: int, v: int) -> bool {
    exists|k: int| 0 <= k < ranking.len() && #[trigger] ranking[k].0 == v && rank_of(ranking, k) < count
}

proof fn lemma_count_before_le(ranking: Seq<(usize, u64)>, k: int, m: int)
    requires
        0 <= m,
    ensures
        count_before(ranking, k, m) <= m,
    decreases m,
{
    if m > 0 {
        lemma_count_before_le(ranking, k, m - 1);
    }
}

proof fn lemma_count_before_self(ranking: Seq<(usize, u64)>, k: int, m: int)
    requires
        0 <= m,
    ensures
        count_before(ranking, k, m) + (if 0 <= k < m { 1int } else { 0int }) <= m,
    decreases m,
{
    if m > 0 {
        lemma_count_before_self(ranking, k, m - 1);
    }
}

proof fn lemma_count_before_order(ranking: Seq<(usize, u64)>, a: int, b: int, m: int)
    requires
        0 <= m,
        ranks_before(ranking, a, b),
    ensures
        count_before(ranking, a, m) + (if 0 <= a < m { 1int } else { 0int }) <= count_before(ranking, b, m),
    decreases m,
{
    if m > 0 {
        lemma_count_before_order(ranking, a, b, m - 1);
    }
}

/// Whether the nodes of the entries of `ranking` are all different.
pub open spec fn distinct_nodes(ranking: Seq<(usize, u64)>) -> bool {
    forall|a: int, b: int| 0 <= a < ranking.len() && 0 <= b < ranking.len() && a != b ==> ranking[a].0 != ranking[b].0
}

/// The smaller of `a` and `b`.
pub open spec fn min_int(a: int, b: int) -> int {
    if a <= b { a } else { b }
}

/// Law: when the nodes of `ranking` are all different, selecting the first
/// `count` entries in the stable order by decreasing key marks exactly
/// `min(count, ranking.len())` nodes.
pub proof fn lemma_top_ranked_selects_exactly(ranking: Seq<(usize, u64)>, count: int, size: int)
    requires
        0 <= count,
        forall|k: int| 0 <= k < ranking.len() ==> (#[trigger] ranking[k]).0 < size,
        distinct_nodes(ranking),
    ensures
        Set::new(|v: int| 0 <= v < size && among_top(ranking, count, v)).finite(),
        Set::new(|v: int| 0 <= v < size && among_top(ranking, count, v)).len() == min_int(count, ranking.len() as int),
{
    let len = ranking.len() as int;
    let dom = vstd::set_lib::set_int_range(0, len);
    let rank = |k: int| rank_of(ranking, k) as int;
    vstd::set_lib::lemma_int_range(0, len);
    assert forall|a: int, b: int| #![trigger rank(a), rank(b)] dom.contains(a) && dom.contains(b) && rank(a) == rank(b) implies a == b by {
        if a != b {
            if ranks_before(ranking, a, b) {
                lemma_count_before_order(ranking, a, b, len);
            } else {
                lemma_count_before_order(ranking, b, a, len);
            }
        }
    }
    assert(vstd::relations::injective_on(rank, dom));
    let ranks = dom.map(rank);
    vstd::set_lib::lemma_map_size(dom, ranks, rank);
    assert(ranks.subset_of(dom)) by {
        assert forall|t: int| ranks.contains(t) implies dom.contains(t) by {
            let k = choose|k: int| dom.contains(k) && rank(k) == t;
            lemma_count_before_self(ranking, k, len);
        }
    }
    vstd::set_lib::lemma_subset_equality(ranks, dom);
    let chosen = dom.filter(|k: int| rank(k) < count);
    let low = vstd::set_lib::set_int_range(0, min_int(count, len));
    vstd::set_lib::lemma_int_range(0, min_int(count, len));
    assert(chosen.map(rank) =~= low) by {
        assert forall|t: int| low.contains(t) implies chosen.map(rank).contains(t) by {
            assert(dom.contains(t));
            assert(ranks.contains(t));
            let k = choose|k: int| dom.contains(k) && rank(k) == t;
            assert(chosen.contains(k));
        }
        assert forall|t: int| chosen.map(rank).contains(t) implies low.contains(t) by {
            let k = choose|k: int| chosen.contains(k) && rank(k) == t;
            lemma_count_before_self(ranking, k, len);
        }
    }
    vstd::set_lib::lemma_set_subset_finite(dom, chosen);
    assert(vstd::relations::injective_on(rank, chosen));
    vstd::set_lib::lemma_map_size(chosen, low, rank);
    let node = |k: int| ranking[k].0 as int;
    let marked = Set::new(|v: int| 0 <= v < size && among_top(ranking, count, v));
    assert(chosen.map(node) =~= marked) by {
        assert forall|v: int| marked.contains(v) implies chosen.map(node).contains(v) by {
            let k = choose|k: int| 0 <= k < ranking.len() && #[trigger] ranking[k].0 == v && rank_of(ranking, k) < count;
            assert(chosen.contains(k));
            assert(node(k) == v);
        }
        assert forall|v: int| chosen.map(node).contains(v) implies marked.contains(v) by {
            let k = choose|k: int| chosen.contains(k) && node(k) == v;
            assert(ranking[k].0 == v);
        }
    }
    assert(vstd::relations::injective_on(node, chosen));
    vstd::set_lib::lemma_map_size(chosen, marked, node);
}

/// Position of entry `k` of `ranking` in the stable order by decreasing key.
fn rank_position(ranking: &[(usize, u64)], k: usize) -> (r: usize)
    requires
        k < ranking@.len(),
    ensures
        r == rank_of(ranking@, k as int),
{
    let key = ranking[k].1;
    let mut r: usize = 0;
    let mut m: usize = 0;
    while m < ranking.len()
        invariant
            m <= ranking@.len(),
            k < ranking@.len(),
            key == ranking@[k as int].1,
            r == count_before(ranking@, k as int, m as int),
        decreases ranking@.len() - m,
    {
        proof {
            lemma_count_before_le(ranking@, k as int, m as int);
        }
        let other = ranking[m].1;
        if other > key || (other == key && m < k) {
            r = r + 1;
        }
        m = m + 1;
    }
    r
}

/// Marks the nodes of the first `count` entries of `ranking` sorted by
/// decreasing key (ties kept in order) in a vector of `size` flags.
fn top_ranked(size: usize, ranking: &[(usize, u64)], count: usize) -> (r: Vec<bool>)
    requires
        forall|k: int| 0 <= k < ranking@.len() && rank_of(ranking@, k) < count ==> (#[trigger] ranking@[k]).0 < size,
    ensures
        r@.len() == size,
        forall|v: int| 0 <= v < size ==> (#[trigger] r@[v] <==> among_top(ranking@, count as int, v)),
{
    let mut r: Vec<bool> = vec![false; size];
    let mut k: usize = 0;
    while k < ranking.len()
        invariant
            k <= ranking@.len(),
            r@.len() == size,
            forall|k2: int| 0 <= k2 < ranking@.len() && rank_of(ranking@, k2) < count ==> (#[trigger] ranking@[k2]).0 < size,
            forall|v: int| 0 <= v < size ==> (#[trigger] r@[v] <==> exists|k2: int|
                0 <= k2 < k && #[trigger] ranking@[k2].0 == v && rank_of(ranking@, k2) < count),
        decreases ranking@.len() - k,
    {
        let position = rank_position(ranking, k);
        if position < count {
            let node = ranking[k].0;
            r.set(node, true);
        }
        proof {
            assert forall|v: int| 0 <= v < size implies (#[trigger] r@[v] <==> exists|k2: int|
                0 <= k2 < k + 1 && #[trigger] ranking@[k2].0 == v && rank_of(ranking@, k2) < count) by {
                if r@[v] && !(ranking@[k as int].0 == v && rank_of(ranking@, k as int) < count) {
                    let k2 = choose|k2: int| 0 <= k2 < k && #[trigger] ranking@[k2].0 == v && rank_of(ranking@, k2) < count;
                    assert(ranking@[k2].0 == v);
                }
                if exists|k2: int| 0 <= k2 < k + 1 && #[trigger] ranking@[k2].0 == v && rank_of(ranking@, k2) < count {
                    let k2 = choose|k2: int| 0 <= k2 < k + 1 && #[trigger] ranking@[k2].0 == v && rank_of(ranking@, k2) < count;
                    if k2 < k {
                        assert(ranking@[k2].0 == v);
                    }
                }
            }
        }
        k = k + 1;
    }
    r
}

impl SimpleAgentSelector {
    /// Selects `influencer_count` influencers among the nodes `0..network_size`.
    ///
    /// `ranking` lists `(node, key)` pairs for the nodes in node order: the
    /// out-degree for [`SimpleAgentSelector::HighestOutDegree`], and for
    /// [`SimpleAgentSelector::MostInfluential`] a key that orders as the
    /// node's influence on the reward does. These two select the nodes of the
    /// first `influencer_count` pairs once the pairs are sorted by decreasing
    /// key, ties kept in their order. [`SimpleAgentSelector::Random`] ignores
    /// `ranking` and selects `influencer_count` nodes uniformly at random.
    ///
    /// Returns `network_size` flags; flag `i` is `true` if and only if node `i`
    /// is an influencer.
    pub fn generate_influencer_indicator_vec(
        &self,
        network_size: usize,
        ranking: &[(usize, u64)],
        influencer_count: usize,
    ) -> (r: Vec<bool>)
        requires
            *self == SimpleAgentSelector::Random ==> influencer_count <= network_size,
            *self != SimpleAgentSelector::Random ==> forall|k: int|
                0 <= k < ranking@.len() && rank_of(ranking@, k) < influencer_count ==> (#[trigger] ranking@[k]).0 < network_size,
        ensures
            r@.len() == network_size,
            *self == SimpleAgentSelector::Random ==> r@.to_multiset().count(true) == influencer_count
                && r@.to_multiset().count(false) == network_size - influencer_count,
            *self != SimpleAgentSelector::Random ==> forall|v: int|
                0 <= v < network_size ==> (#[trigger] r@[v] <==> among_top(ranking@, influencer_count as int, v)),
            *self != SimpleAgentSelector::Random && distinct_nodes(ranking@) && (forall|k: int|
                0 <= k < ranking@.len() ==> (#[trigger] ranking@[k]).0 < network_size) ==> Set::new(
                |v: int| 0 <= v < network_size && r@[v],
            ).len() == min_int(influencer_count as int, ranking@.len() as int),
    {
        match self {
            SimpleAgentSelector::Random => {
                let mut flags: Vec<bool> = Vec::new();
                let mut k: usize = 0;
                while k < network_size
                    invariant
                        influencer_count <= network_size,
                        k <= network_size,
                        flags@.len() == k,
                        forall|m: int| 0 <= m < k ==> #[trigger] flags@[m] == (m >= network_size - influencer_count),
                    decreases network_size - k,
                {
                    flags.push(k >= network_size - influencer_count);
                    k = k + 1;
                }
                proof {
                    let f = flags@;
                    let split = network_size - influencer_count;
                    assert(f =~= Seq::new(split as nat, |m: int| false) + Seq::new(influencer_count as nat, |m: int| true));
                    lemma_constant_multiset(false, split as nat);
                    lemma_constant_multiset(true, influencer_count as nat);
                    vstd::seq_lib::lemma_multiset_commutative(
                        Seq::new(split as nat, |m: int| false),
                        Seq::new(influencer_count as nat, |m: int| true),
                    );
                }
                shuffle_flags(&mut flags);
                flags
            },
            _ => {
                let r = top_ranked(network_size, ranking, influencer_count);
                proof {
                    if distinct_nodes(ranking@) && (forall|k: int|
                        0 <= k < ranking@.len() ==> (#[trigger] ranking@[k]).0 < network_size) {
                        lemma_top_ranked_selects_exactly(ranking@, influencer_count as int, network_size as int);
                        assert(Set::new(|v: int| 0 <= v < network_size && r@[v]) =~= Set::new(
                            |v: int| 0 <= v < network_size && among_top(ranking@, influencer_count as int, v),
                        ));
                    }
                }
                r
            },
        }
    }
}

proof fn lemma_constant_multiset(b: bool, len: nat)
    ensures
        Seq::new(len, |m: int| b).to_multiset().count(b) == len,
        Seq::new(len, |m: int| b).to_multiset().count(!b) == 0,
    decreases len,
{
    broadcast use vstd::seq_lib::group_to_multiset_ensures;
    let s = Seq::new(len, |m: int| b);
    if len > 0 {
        lemma_constant_multiset(b, (len - 1) as nat);
        assert(s.drop_last() =~= Seq::new((len - 1) as nat, |m: int| b));
        assert(s =~= s.drop_last().push(b));
    } else {
        assert(s =~= Seq::<bool>::empty());
    }
}

/// Whether two byte slices are equal.
fn same_bytes(a: &[u8], b: &[u8]) -> (r: bool)
    ensures
        r == (a@ == b@),
{
    if a.len() != b.len() {
        return false;
    }
    let mut i: usize = 0;
    while i < a.len()
        invariant
            a@.len() == b@.len(),
            i <= a@.len(),
            forall|k: int| 0 <= k < i ==> a@[k] == b@[k],
        decreases a@.len() - i,
    {
        if a[i] != b[i] {
            return false;
        }
        i = i + 1;
    }
    assert(a@ =~= b@);
    true
}

/// Whether two strings hold the same characters.
fn same_text(a: &str, b: &str) -> (r: bool)
    ensures
        r == (a@ == b@),
{
    let r = same_bytes(a.as_bytes(), b.as_bytes());
    proof {
        vstd::utf8::encode_utf8_decode_utf8(a@);
        vstd::utf8::encode_utf8_decode_utf8(b@);
    }
    r
}

impl SimpleAgentSelector {
    /// The selector named `input`: `Random`, `HighestOutDegree` or
    /// `MostInfluential`; an error for any other name.
    pub fn from_name(input: &str) -> (r: Result<SimpleAgentSelector, &'static str>)
        ensures
            input@ == "Random"@ ==> r == Ok::<SimpleAgentSelector, &'static str>(SimpleAgentSelector::Random),
            input@ == "HighestOutDegree"@ ==> r == Ok::<SimpleAgentSelector, &'static str>(SimpleAgentSelector::HighestOutDegree),
            input@ == "MostInfluential"@ ==> r == Ok::<SimpleAgentSelector, &'static str>(SimpleAgentSelector::MostInfluential),
            r is Err <==> (input@ != "Random"@ && input@ != "HighestOutDegree"@ && input@ != "MostInfluential"@),
            r is Err ==> r == Err::<SimpleAgentSelector, &'static str>("Unknown RewardType."),
    {
        proof {
            reveal_strlit("Random");
            reveal_strlit("HighestOutDegree");
            reveal_strlit("MostInfluential");
            assert("Random"@.len() != "HighestOutDegree"@.len());
            assert("Random"@.len() != "MostInfluential"@.len());
            assert("HighestOutDegree"@.len() != "MostInfluential"@.len());
        }
        if same_text(input, "Random") {
            Ok(SimpleAgentSelector::Random)
        } else if same_text(input, "HighestOutDegree") {
            Ok(SimpleAgentSelector::HighestOutDegree)
        } else if same_text(input, "MostInfluential") {
            Ok(SimpleAgentSelector::MostInfluential)
        } else {
            Err("Unknown RewardType.")
        }
    }
}

impl std::str::FromStr for SimpleAgentSelector {
    type Err = &'static str;

    /// The selector named `input`, as [`SimpleAgentSelector::from_name`] gives it.
    fn from_str(input: &str) -> (r: Result<SimpleAgentSelector, Self::Err>)
        ensures
            input@ == "Random"@ ==> r == Ok::<SimpleAgentSelector, &'static str>(SimpleAgentSelector::Random),
            input@ == "HighestOutDegree"@ ==> r == Ok::<SimpleAgentSelector, &'static str>(SimpleAgentSelector::HighestOutDegree),
            input@ == "MostInfluential"@ ==> r == Ok::<SimpleAgentSelector, &'static str>(SimpleAgentSelector::MostInfluential),
            r is Err <==> (input@ != "Random"@ && input@ != "HighestOutDegree"@ && input@ != "MostInfluential"@),
            r is Err ==> r == Err::<SimpleAgentSelector, &'static str>("Unknown RewardType."),
    {
        SimpleAgentSelector::from_name(input)
    }
}

/// Types of functions that incorporate the importance (weight) of agents on the reward.
#[derive(Clone, Copy, Debug, PartialEq, Eq, Structural)]
pub enum RewardType {
    /// Every agent has weight 1.
    Unweighted,
}

impl RewardType {
    /// The reward type named `input`: `Unweighted`; an error for any other name.
    pub fn from_name(input: &str) -> (r: Result<RewardType, &'static str>)
        ensures
            input@ == "Unweighted"@ ==> r == Ok::<RewardType, &'static str>(RewardType::Unweighted),
            r is Err <==> input@ != "Unweighted"@,
            r is Err ==> r == Err::<RewardType, &'static str>("Unknown RewardType."),
    {
        if same_text(input, "Unweighted") {
            Ok(RewardType::Unweighted)
        } else {
            Err("Unknown RewardType.")
        }
    }
}

impl std::str::FromStr for RewardType {
    type Err = &'static str;

    /// The reward type named `input`, as [`RewardType::from_name`] gives it.
    fn from_str(input: &str) -> (r: Result<RewardType, Self::Err>)
        ensures
            input@ == "Unweighted"@ ==> r == Ok::<RewardType, &'static str>(RewardType::Unweighted),
            r is Err <==> input@ != "Unweighted"@,
            r is Err ==> r == Err::<RewardType, &'static str>("Unknown RewardType."),
    {
        RewardType::from_name(input)
    }
}

} // verus!
