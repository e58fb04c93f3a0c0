use dag_stats::cycle::{has_cycle, has_cycle_util};
use dag_stats::depth::construct_connections_util;
use dag_stats::pipeline::{analyze, Analysis};
use dag_stats::validate::ParseError;

#[test]
fn test_has_cycle() {
    let connections = vec![vec![1, 2], vec![2], vec![]];
    assert_eq!(has_cycle(3, &connections), false);
}

#[test]
fn test_has_cycle_back_edge() {
    // 0 -> 1 -> 2 -> 0 closes a cycle.
    let connections = vec![vec![1], vec![2], vec![0]];
    assert_eq!(has_cycle(3, &connections), true);
}

#[test]
fn test_has_cycle_self_loop() {
    let connections = vec![vec![0]];
    assert_eq!(has_cycle(1, &connections), true);
}

#[test]
fn test_construct_connections_util() {
    let connections = vec![vec![1, 2], vec![0, 2], vec![0, 1]];
    assert_eq!(construct_connections_util(3, &connections), vec![0, 1, 1]);
}

#[test]
fn test_depth_of_unreached_nodes_stays_zero() {
    let connections = vec![vec![], vec![], vec![]];
    assert_eq!(construct_connections_util(3, &connections), vec![0, 0, 0]);
}

#[test]
fn test_analyze_acyclic_statistics() {
    // Buckets: [[1,1,2],[2,3],[3],[]]; depths from node 0: [0,1,1,2].
    let text = b"3\n1 1\n1 2\n2 3".to_vec();
    match analyze(&text).unwrap() {
        Analysis::Cyclic => panic!("graph is acyclic"),
        Analysis::Acyclic(st) => {
            assert_eq!(st.depth_sum, 4);
            assert_eq!(st.depth_count, 4);
            assert_eq!(st.crowded_member_count, 2);
            assert_eq!(st.crowded_level_count, 1);
            assert_eq!(st.reference_sum, 6);
            assert_eq!(st.bucket_count, 4);
            assert_eq!(st.depth_sum as f64 / st.depth_count as f64, 1.0);
            assert_eq!(
                st.crowded_member_count as f64 / st.crowded_level_count as f64,
                2.0
            );
            assert_eq!(st.reference_sum as f64 / st.bucket_count as f64, 1.5);
        }
    }
}

#[test]
fn test_analyze_cyclic_graph() {
    // Buckets: [[],[1,2],[1,2]]; node 1 references itself.
    let text = b"2\n2 3\n3 2".to_vec();
    assert_eq!(analyze(&text), Ok(Analysis::Cyclic));
}

#[test]
fn test_analyze_rejects_invalid_text() {
    let text = b"invalid input".to_vec();
    assert_eq!(analyze(&text), Err(ParseError::MalformedCount));
}

#[test]
fn test_has_cycle_util_probe() {
    // A probe from node 0 of an acyclic graph reports false and marks
    // everything it reached visited; probing a visited node again changes
    // nothing.
    let connections = vec![vec![1, 2], vec![2], vec![]];
    let mut visited = vec![false, false, false];
    let mut rec_stack = vec![false, false, false];
    assert_eq!(
        has_cycle_util(0, &mut visited, &mut rec_stack, &connections),
        false
    );
    assert_eq!(visited, vec![true, true, true]);
    assert_eq!(rec_stack, vec![false, false, false]);
    assert_eq!(
        has_cycle_util(0, &mut visited, &mut rec_stack, &connections),
        false
    );
    assert_eq!(visited, vec![true, true, true]);
    assert_eq!(rec_stack, vec![false, false, false]);
    // A probe from an unvisited start finds only cycles it can reach.
    let looped = vec![vec![], vec![1]];
    let mut visited = vec![false, false];
    let mut rec_stack = vec![false, false];
    assert_eq!(
        has_cycle_util(0, &mut visited, &mut rec_stack, &looped),
        false
    );
    assert_eq!(
        has_cycle_util(1, &mut visited, &mut rec_stack, &looped),
        true
    );
}
