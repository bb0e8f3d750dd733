use vstd::prelude::*;
use crate::fj_contract::AgentAction;

verus! {

/// Solvers for two extremal cases: Optimal contract or no contract at all.
#[derive(Clone, Copy, Debug, PartialEq, Eq, Hash, Structural)]
pub enum SimpleSolver {
    /// The optimal contract for an instance.
    Optimal,
    /// The uncontracted case where no influencer receives a contract.
    Uncontracted,
}

/// Heuristical solvers that compute approximations.
#[derive(Clone, Copy, Debug, PartialEq, Eq, Hash, Structural)]
pub enum HeuristicSolver {
    /// The best contract where only a single agent (influencer) receives a contract.
    BestSingleAgentContract,
    /// A contracting computed using the greedy algorithm for the multiple choice knapsack problem. This solution can be arbitrarily bad.
    GreedyMCKPOnlyKnapsack,
    /// The GreedyMCKP algorithms compares the knapsack solution with the best single agent contract and returns the better.
    GreedyMCKP,
    /// This improved heuristic uses the sorting from MCKP, but makes replacements only when it is increasing the utility.
    GreedyImprovementsMCKPSorting,
}

/// Number of entries of `state` whose action is not [`AgentAction::Random`].
pub open spec fn contracted_count<T>(state: Seq<(usize, AgentAction, T, T)>) -> nat
    decreases state.len(),
{
    if state.len() == 0 {
        0
    } else {
        contracted_count(state.drop_last()) + if state.last().1 != AgentAction::Random { 1nat } else { 0nat }
    }
}

/// The positions of the entries of `state` whose action is `Deterministic(_)`.
pub open spec fn contracted_positions<T>(state: Seq<(usize, AgentAction, T, T)>) -> Set<int> {
    Set::new(|k: int| 0 <= k < state.len() && state[k].1 is Deterministic)
}

/// Law: `contracted_count` counts the entries whose action is
/// `Deterministic(_)`, whatever its index: the set of their positions is finite
/// and has `contracted_count(state)` elements.
pub proof fn lemma_contracted_count_is_number_of_deterministic_entries<T>(state: Seq<(usize, AgentAction, T, T)>)
    ensures
        contracted_positions(state).finite(),
        contracted_positions(state).len() == contracted_count(state),
    decreases state.len(),
{
    if state.len() == 0 {
        assert(contracted_positions(state) =~= Set::<int>::empty());
    } else {
        let d = state.drop_last();
        lemma_contracted_count_is_number_of_deterministic_entries(d);
        let last = state.len() - 1;
        if state[last].1 is Deterministic {
            assert(contracted_positions(state) =~= contracted_positions(d).insert(last));
        } else {
            assert(contracted_positions(state) =~= contracted_positions(d));
        }
    }
}

/// Number of influencers that receive a contract in a verbose state, i.e.,
/// whose action is not [`AgentAction::Random`].
pub fn contract_count<T>(state: &[(usize, AgentAction, T, T)]) -> (c: usize)
    ensures
        c == contracted_count(state@),
        c == contracted_positions(state@).len(),
{
    let mut c: usize = 0;
    let mut i: usize = 0;
    while i < state.len()
        invariant
            i <= state@.len(),
            c == contracted_count(state@.take(i as int)),
            c <= i,
        decreases state@.len() - i,
    {
        let entry = &state[i];
        proof {
            assert(state@.take(i + 1).drop_last() =~= state@.take(i as int));
        }
        match entry.1 {
            AgentAction::Random => {},
            AgentAction::Deterministic(_) => {
                c = c + 1;
            },
        }
        i = i + 1;
    }
    proof {
        assert(state@.take(state@.len() as int) =~= state@);
        lemma_contracted_count_is_number_of_deterministic_entries(state@);
    }
    c
}

/// The indices `i` with `indicator[i]`, in increasing order.
pub fn influencer_list_from_indicator(indicator: &[bool]) -> (r: Vec<usize>)
    ensures
        forall|k: int| 0 <= k < r@.len() ==> #[trigger] r@[k] < indicator@.len() && indicator@[r@[k] as int],
        forall|k1: int, k2: int| 0 <= k1 < k2 < r@.len() ==> r@[k1] < r@[k2],
        forall|i: int| 0 <= i < indicator@.len() && #[trigger] indicator@[i] ==> r@.contains(i as usize),
{
    let mut r: Vec<usize> = Vec::new();
    let mut i: usize = 0;
    while i < indicator.len()
        invariant
            i <= indicator@.len(),
            forall|k: int| 0 <= k < r@.len() ==> #[trigger] r@[k] < i && indicator@[r@[k] as int],
            forall|k1: int, k2: int| 0 <= k1 < k2 < r@.len() ==> r@[k1] < r@[k2],
            forall|i2: int| 0 <= i2 < i && #[trigger] indicator@[i2] ==> r@.contains(i2 as usize),
        decreases indicator@.len() - i,
    {
        if indicator[i] {
            let ghost before = r@;
            r.push(i);
            proof {
                assert forall|i2: int| 0 <= i2 < i + 1 && #[trigger] indicator@[i2] implies r@.contains(i2 as usize) by {
                    if i2 < i {
                        let w = choose|w: int| 0 <= w < before.len() && before[w] == i2 as usize;
                        assert(r@[w] == i2 as usize);
                    } else {
                        assert(r@[r@.len() - 1] == i2 as usize);
                    }
                }
            }
        }
        i = i + 1;
    }
    r
}

/// Total length of the lists in `v`.
pub open spec fn total_len<T>(v: Seq<Vec<T>>) -> nat
    decreases v.len(),
{
    if v.len() == 0 {
        0
    } else {
        total_len(v.drop_last()) + v.last()@.len()
    }
}

/// The number of breakpoints of each influencer.
pub fn breakpoint_count_vec<T>(verbose_breakpoints: &[Vec<T>]) -> (r: Vec<usize>)
    ensures
        r@.len() == verbose_breakpoints@.len(),
        forall|i: int| 0 <= i < r@.len() ==> #[trigger] r@[i] == verbose_breakpoints@[i]@.len(),
{
    let mut r: Vec<usize> = Vec::new();
    let mut i: usize = 0;
    while i < verbose_breakpoints.len()
        invariant
            i <= verbose_breakpoints@.len(),
            r@.len() == i,
            forall|k: int| 0 <= k < i ==> #[trigger] r@[k] == verbose_breakpoints@[k]@.len(),
        decreases verbose_breakpoints@.len() - i,
    {
        r.push(verbose_breakpoints[i].len());
        i = i + 1;
    }
    r
}

/// The total number of breakpoints over all influencers.
pub fn breakpoint_sum_for_influencers<T>(verbose_breakpoints: &[Vec<T>]) -> (s: usize)
    requires
        total_len(verbose_breakpoints@) <= usize::MAX,
    ensures
        s == total_len(verbose_breakpoints@),
{
    let mut s: usize = 0;
    let mut i: usize = 0;
    while i < verbose_breakpoints.len()
        invariant
            i <= verbose_breakpoints@.len(),
            total_len(verbose_breakpoints@) <= usize::MAX,
            s == total_len(verbose_breakpoints@.take(i as int)),
        decreases verbose_breakpoints@.len() - i,
    {
        proof {
            assert(verbose_breakpoints@.take(i + 1).drop_last() =~= verbose_breakpoints@.take(i as int));
            lemma_total_len_prefix(verbose_breakpoints@, i + 1);
        }
        s = s + verbose_breakpoints[i].len();
        i = i + 1;
    }
    proof {
        assert(verbose_breakpoints@.take(i as int) =~= verbose_breakpoints@);
    }
    s
}

proof fn lemma_total_len_prefix<T>(v: Seq<Vec<T>>, m: int)
    requires
        0 <= m <= v.len(),
    ensures
        total_len(v.take(m)) <= total_len(v),
    decreases v.len(),
{
    if m < v.len() {
        assert(v.drop_last().take(m) =~= v.take(m));
        lemma_total_len_prefix(v.drop_last(), m);
    } else {
        assert(v.take(m) =~= v);
    }
}

} // verus!
