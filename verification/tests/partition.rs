use mocd::graph::Partition;
use mocd::partition::{label_of, normalize_community_ids, partition_entries};

fn partition_of(pairs: &[(i32, i32)]) -> Partition {
    let mut partition = Partition::new();
    for &(node, label) in pairs {
        partition.insert(node, label);
    }
    partition
}

#[test]
fn test_normalize_renumbers_by_first_appearance() {
    let partition = partition_of(&[(0, 42), (1, 7), (2, 42), (3, -3), (4, 7)]);
    let normal = normalize_community_ids(partition);
    assert_eq!(normal, partition_of(&[(0, 0), (1, 1), (2, 0), (3, 2), (4, 1)]));
}

#[test]
fn test_normalize_goes_by_ascending_node() {
    let partition = partition_of(&[(10, 5), (-2, 9), (3, 5)]);
    let normal = normalize_community_ids(partition);
    assert_eq!(normal, partition_of(&[(-2, 0), (3, 1), (10, 1)]));
}

#[test]
fn test_normalize_is_idempotent() {
    let partition = partition_of(&[(0, 3), (1, 3), (2, 8), (5, 1), (6, 8)]);
    let once = normalize_community_ids(partition);
    let twice = normalize_community_ids(once.clone());
    assert_eq!(once, twice);
}

#[test]
fn test_normalize_leaves_a_canonical_partition_alone() {
    let partition = partition_of(&[(0, 0), (1, 1), (2, 0), (3, 2)]);
    let normal = normalize_community_ids(partition.clone());
    assert_eq!(normal, partition);
}

#[test]
fn test_same_grouping_same_normal_form() {
    let first = partition_of(&[(0, 11), (1, 11), (2, 4), (3, 4), (4, 99)]);
    let second = partition_of(&[(0, -1), (1, -1), (2, 50), (3, 50), (4, 0)]);
    assert_eq!(normalize_community_ids(first), normalize_community_ids(second));
}

#[test]
fn test_different_grouping_different_normal_form() {
    let first = partition_of(&[(0, 1), (1, 1), (2, 2)]);
    let second = partition_of(&[(0, 1), (1, 2), (2, 2)]);
    assert_ne!(normalize_community_ids(first), normalize_community_ids(second));
}

#[test]
fn test_normalize_empty_and_single() {
    assert_eq!(normalize_community_ids(Partition::new()), Partition::new());
    let single = normalize_community_ids(partition_of(&[(5, 17)]));
    assert_eq!(single, partition_of(&[(5, 0)]));
}

#[test]
fn test_partition_entries_are_ascending() {
    let partition = partition_of(&[(3, 1), (-7, 2), (0, 3)]);
    assert_eq!(partition_entries(&partition), vec![(-7, 2), (0, 3), (3, 1)]);
}

#[test]
fn test_label_of() {
    let partition = partition_of(&[(3, 1)]);
    assert_eq!(label_of(&partition, 3), Some(1));
    assert_eq!(label_of(&partition, 4), None);
}
