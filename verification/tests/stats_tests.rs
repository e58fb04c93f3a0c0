use dag_stats::stats::{
    calculate_average_depth, calculate_average_in_references, calculate_average_nodes_per_depth,
    StatError,
};

#[test]
fn test_calculate_average_depth_happy_path() {
    let happy_dep = vec![0, 1, 2, 3, 4, 5];
    let (num, den) = calculate_average_depth(&happy_dep).unwrap();
    assert_eq!(num as f64 / den as f64, 2.5);
    let unhappy_dep = vec![];
    assert_eq!(
        calculate_average_depth(&unhappy_dep),
        Err(StatError::StatisticUndefined)
    );
}

#[test]
fn test_calculate_average_nodes_per_depth_happy_path() {
    let happy_dep = vec![0, 1, 2, 2, 3, 3, 3, 4, 4, 4, 4];
    let (num, den) = calculate_average_nodes_per_depth(&happy_dep).unwrap();
    assert_eq!(num as f64 / den as f64, 3.0);
    let unhappy_dep = vec![];
    assert_eq!(
        calculate_average_nodes_per_depth(&unhappy_dep),
        Err(StatError::StatisticUndefined)
    );
}

#[test]
fn test_calculate_average_in_references_happy_path() {
    let happy_connections = vec![vec![1, 2], vec![0, 2, 3], vec![0, 1, 3], vec![1, 2]];
    let (num, den) = calculate_average_in_references(&happy_connections).unwrap();
    assert_eq!(num as f64 / den as f64, 2.5);
    let unhappy_connections = vec![];
    assert_eq!(
        calculate_average_in_references(&unhappy_connections),
        Err(StatError::StatisticUndefined)
    );
}

#[test]
fn test_average_depth_exact_ratio() {
    // The ratio itself is exact: sum of all depths over their number.
    let dep = vec![0, 1, 2, 3, 4, 5];
    assert_eq!(calculate_average_depth(&dep), Ok((15, 6)));
    let mixed = vec![-1, 1];
    assert_eq!(calculate_average_depth(&mixed), Ok((0, 2)));
}

#[test]
fn test_nodes_per_depth_excludes_singletons() {
    // Groups of size one count for neither the members nor the levels.
    let dep = vec![0, 1, 2, 2, 3, 3, 3, 4, 4, 4, 4];
    assert_eq!(calculate_average_nodes_per_depth(&dep), Ok((9, 3)));
    // With no crowded level at all the ratio is 0 over 0.
    let lonely = vec![1, 2, 3];
    assert_eq!(calculate_average_nodes_per_depth(&lonely), Ok((0, 0)));
}

#[test]
fn test_in_references_exact_ratio() {
    let connections = vec![vec![1, 2], vec![0, 2, 3], vec![0, 1, 3], vec![1, 2]];
    assert_eq!(calculate_average_in_references(&connections), Ok((10, 4)));
}
