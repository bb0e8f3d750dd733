use fj_contracting::instancegenerator::{influence_order_key, RewardType, SimpleAgentSelector};
use std::str::FromStr;

#[test]
fn selector_names() {
    assert_eq!(SimpleAgentSelector::from_str("Random"), Ok(SimpleAgentSelector::Random));
    assert_eq!(SimpleAgentSelector::from_str("HighestOutDegree"), Ok(SimpleAgentSelector::HighestOutDegree));
    assert_eq!(SimpleAgentSelector::from_str("MostInfluential"), Ok(SimpleAgentSelector::MostInfluential));
    assert_eq!(SimpleAgentSelector::from_str("random"), Err("Unknown RewardType."));
    assert_eq!(RewardType::from_str("Unweighted"), Ok(RewardType::Unweighted));
    assert!(RewardType::from_str("Weighted").is_err());
}

#[test]
fn highest_out_degree_selection_is_stable() {
    let ranking = vec![(0, 2), (1, 3), (2, 2), (3, 1)];
    let sel = SimpleAgentSelector::HighestOutDegree;
    assert_eq!(sel.generate_influencer_indicator_vec(4, &ranking, 1), vec![false, true, false, false]);
    assert_eq!(sel.generate_influencer_indicator_vec(4, &ranking, 2), vec![true, true, false, false]);
    assert_eq!(sel.generate_influencer_indicator_vec(4, &ranking, 3), vec![true, true, true, false]);
    assert_eq!(sel.generate_influencer_indicator_vec(4, &ranking, 9), vec![true, true, true, true]);
    assert_eq!(sel.generate_influencer_indicator_vec(4, &ranking, 0), vec![false; 4]);
}

#[test]
fn most_influential_selection() {
    let ranking = vec![(0, 10), (1, 30), (2, 20)];
    let sel = SimpleAgentSelector::MostInfluential;
    assert_eq!(sel.generate_influencer_indicator_vec(3, &ranking, 1), vec![false, true, false]);
    assert_eq!(sel.generate_influencer_indicator_vec(3, &ranking, 2), vec![false, true, true]);
}

#[test]
fn random_selection_has_the_requested_count() {
    let sel = SimpleAgentSelector::Random;
    for count in 0..=6 {
        let v = sel.generate_influencer_indicator_vec(6, &[], count);
        assert_eq!(v.len(), 6);
        assert_eq!(v.iter().filter(|b| **b).count(), count);
    }
    assert_eq!(sel.generate_influencer_indicator_vec(3, &[], 3), vec![true, true, true]);
}

#[test]
fn random_selection_is_shuffled() {
    let sel = SimpleAgentSelector::Random;
    let unshuffled = vec![false, false, false, false, false, false, false, false, false, true];
    let mut differs = false;
    for _ in 0..64 {
        if sel.generate_influencer_indicator_vec(10, &[], 1) != unshuffled {
            differs = true;
        }
    }
    assert!(differs);
}

#[test]
fn influence_keys_order_as_total_cmp() {
    let values: Vec<f32> = vec![-3.5, -1.0, -0.0, 0.0, 1e-30, 0.5, 2.0, 11.0 / 13.0, f32::INFINITY, f32::NEG_INFINITY];
    for a in &values {
        for b in &values {
            let ka = influence_order_key(a.to_bits());
            let kb = influence_order_key(b.to_bits());
            assert_eq!(ka.cmp(&kb), a.total_cmp(b), "{a} vs {b}");
        }
    }
    assert_eq!(influence_order_key(0.0f32.to_bits()), 0x8000_0000);
    assert_eq!(influence_order_key((-0.0f32).to_bits()), 0x7FFF_FFFF);
}
