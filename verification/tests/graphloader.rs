use fj_contracting::graphloader::{edgelist_to_adjacency_vec, parse_edgelist};

#[test]
fn conversion_edgelist_to_adjacency_vec() {
    let edgelist = vec![(0, 2), (0, 3), (1, 3), (1, 4), (3, 4)];
    let n = 5;
    let adjacency_vec = edgelist_to_adjacency_vec(n, &edgelist);
    assert_eq!(adjacency_vec, vec![
        false, false, true, true, false,
        false, false, false, true, true,
        true, false, false, false, false,
        true, true, false, false, true,
        false, true, false, true, false
    ]);
}

#[test]
fn adjacency_vec_is_symmetric() {
    let edgelist = vec![(0, 1), (2, 1), (2, 2)];
    let n = 3;
    let a = edgelist_to_adjacency_vec(n, &edgelist);
    for i in 0..n {
        for j in 0..n {
            assert_eq!(a[i * n + j], a[j * n + i]);
        }
    }
    assert!(a[2 * n + 2]);
    assert!(!a[0]);
}

#[test]
fn adjacency_vec_of_empty_graph() {
    assert_eq!(edgelist_to_adjacency_vec(0, &[]), Vec::<bool>::new());
    assert_eq!(edgelist_to_adjacency_vec(2, &[]), vec![false; 4]);
}

#[test]
fn parse_edgelist_skips_comments_and_loops() {
    let text = "% comment line\n1 2\n2 2\n\n3 1 extra\r\n% 9 9\n4 3";
    let (n, edges) = parse_edgelist(text, ' ', 1).unwrap();
    assert_eq!(edges, vec![(0, 1), (2, 0), (3, 2)]);
    assert_eq!(n, 4);
}

#[test]
fn parse_edgelist_with_comma_and_plus_sign() {
    let (n, edges) = parse_edgelist("0,+7\n5,3,", ',', 0).unwrap();
    assert_eq!(edges, vec![(0, 7), (5, 3)]);
    assert_eq!(n, 8);
}

#[test]
fn parse_edgelist_empty_text() {
    assert_eq!(parse_edgelist("", ' ', 0), Some((0, vec![])));
    assert_eq!(parse_edgelist("%only\n\n", ' ', 3), Some((0, vec![])));
}

#[test]
fn parse_edgelist_rejects_malformed_lines() {
    // no separator
    assert_eq!(parse_edgelist("12\n", ' ', 0), None);
    // not a number
    assert_eq!(parse_edgelist("1 x\n", ' ', 0), None);
    // empty field
    assert_eq!(parse_edgelist(" 1\n", ' ', 0), None);
    // below the first node
    assert_eq!(parse_edgelist("0 1\n", ' ', 1), None);
    // does not fit a usize
    assert_eq!(parse_edgelist("1 99999999999999999999999\n", ' ', 0), None);
    // a lone carriage return is kept in the field
    assert_eq!(parse_edgelist("1 2\r", ' ', 0), None);
    // non-ASCII separator with a data line
    assert_eq!(parse_edgelist("1\u{e9}2\n", '\u{e9}', 0), None);
    // too large a node to count
    let big = format!("0 {}\n", usize::MAX);
    assert_eq!(parse_edgelist(&big, ' ', 0), None);
}

#[test]
fn parse_edgelist_keeps_loop_at_largest_value() {
    let big = format!("{} {}\n", usize::MAX, usize::MAX);
    assert_eq!(parse_edgelist(&big, ' ', 0), Some((0, vec![])));
}
