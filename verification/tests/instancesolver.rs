use fj_contracting::fj_contract::AgentAction;
use fj_contracting::instancesolver::{
    breakpoint_count_vec, breakpoint_sum_for_influencers, contract_count, influencer_list_from_indicator,
    HeuristicSolver, SimpleSolver,
};

#[test]
fn contract_count_of_state() {
    let state: Vec<(usize, AgentAction, i32, i32)> = vec![
        (0, AgentAction::Random, 0, 1),
        (1, AgentAction::Deterministic(2), 3, 4),
        (2, AgentAction::Deterministic(0), 5, 6),
    ];
    assert_eq!(contract_count(&state), 2);
    assert_eq!(contract_count::<i32>(&[]), 0);
}

#[test]
fn influencer_list() {
    assert_eq!(influencer_list_from_indicator(&[false, true, false, true, true]), vec![1, 3, 4]);
    assert_eq!(influencer_list_from_indicator(&[false, false]), Vec::<usize>::new());
}

#[test]
fn breakpoint_counts_and_sum() {
    let bps = vec![vec![1, 2, 3], vec![4, 5, 6], vec![7, 8]];
    assert_eq!(breakpoint_count_vec(&bps), vec![3, 3, 2]);
    assert_eq!(breakpoint_sum_for_influencers(&bps), 8);
    assert_eq!(breakpoint_sum_for_influencers::<u8>(&[]), 0);
}

#[test]
fn solver_kinds_compare() {
    assert_ne!(SimpleSolver::Optimal, SimpleSolver::Uncontracted);
    assert_eq!(HeuristicSolver::GreedyMCKP, HeuristicSolver::GreedyMCKP);
    assert_ne!(AgentAction::Deterministic(1), AgentAction::Deterministic(2));
}
