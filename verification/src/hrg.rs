use vstd::prelude::*;

verus! {

/// Number of influencers on a network of `2^logsize` nodes in the experiments
/// on hyperbolic random graphs: `a * logsize - b`.
pub fn influencer_count(influencer_count_param_a: u32, influencer_count_param_b: u32, logsize: u32) -> (c: usize)
    requires
        influencer_count_param_a * logsize <= u32::MAX,
        influencer_count_param_a * logsize >= influencer_count_param_b,
    ensures
        c == influencer_count_param_a * logsize - influencer_count_param_b,
{
    (influencer_count_param_a * logsize - influencer_count_param_b) as usize
}

} // verus!
