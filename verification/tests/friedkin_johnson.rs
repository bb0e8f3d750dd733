use fj_contracting::friedkin_johnson::{check_network_dimensions, column_true_counts, DimensionError};

#[test]
fn network_dimensions() {
    assert_eq!(check_network_dimensions(0, 0), Err(DimensionError::EmptySusceptibilities));
    assert_eq!(check_network_dimensions(2, 3), Err(DimensionError::IncompatibleLengths));
    assert_eq!(check_network_dimensions(2, 4), Ok(()));
}

#[test]
fn incoming_edges_of_adjacency() {
    let adjacency_vec = vec![
        false, false, true, true, false, false, false, false, true, true, true, false, false, false, false, true, true,
        false, false, true, false, true, false, true, false,
    ];
    assert_eq!(column_true_counts(5, &adjacency_vec), vec![2, 2, 1, 3, 2]);
}

#[test]
fn outdegrees_from_positive_weights() {
    // influence weights 0, 0.125, 0.25 | 1, 0, 0.75 | 0, 0.875, 0 (column-major)
    let positive = vec![false, true, true, true, false, true, false, true, false];
    assert_eq!(column_true_counts(3, &positive), vec![2, 2, 1]);
}
