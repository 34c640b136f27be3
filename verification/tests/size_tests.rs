use merkle_tree::helper::calculate_tree_size;

#[test]
fn tree_size_1() {
    let node_count = calculate_tree_size(2);

    assert_eq!(node_count, 3);
}

#[test]
fn node_calculation_2() {
    let node_count = calculate_tree_size(4);

    assert_eq!(node_count, 7);
}

#[test]
fn node_calculation_3() {
    let node_count = calculate_tree_size(8);

    assert_eq!(node_count, 15);
}

#[test]
fn tree_size_single_leaf() {
    let node_count = calculate_tree_size(1);

    assert_eq!(node_count, 1);
}

#[test]
fn tree_size_large_power_of_two() {
    assert_eq!(calculate_tree_size(1024), 2047);
}
