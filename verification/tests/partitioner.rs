use handel::partitioner::{BinomialPartitioner, PartitioningError};
use handel::utils::log_2;

#[test]
fn test_partitioner() {
    /*
        ---ID---   -Level-
        0    000   . . 2 .
        1    001   . . 2 .
        2    010   . 1 . .
        3    011   0 . . .
        4    100   . . . 3
        5    101   . . . 3
        6    110   . . . 3
        7    111   . . . 3

    node_id = 3
    level = 3
    m = (1 << level - 1) - 1 = 100 - 1 = 011
    f = (1 << level)                   = 100
    */

    let partitioner = BinomialPartitioner::new(3, 7);

    assert_eq!(partitioner.num_levels, 4);
    assert_eq!(partitioner.range(0), Ok((3, 3)), "Level 0");
    assert_eq!(partitioner.range(1), Ok((2, 2)), "Level 1");
    assert_eq!(partitioner.range(2), Ok((0, 1)), "Level 2");
    assert_eq!(partitioner.range(3), Ok((4, 7)), "Level 3");
    assert_eq!(
        partitioner.range(4),
        Err(PartitioningError::InvalidLevel(4))
    );
}

#[test]
fn partition_levels_for_node_three() {
    // N=8, max_id=7, node_id=3: levels are 0 -> {3}, 1 -> {2},
    // 2 -> {0,1}, 3 -> {4,5,6,7}; L = 4; range(4) fails.
    let p = BinomialPartitioner::new(3, 7);
    assert_eq!(p.num_levels, 4);
    assert_eq!(p.range(0).unwrap(), (3, 3));
    assert_eq!(p.range(1).unwrap(), (2, 2));
    assert_eq!(p.range(2).unwrap(), (0, 1));
    assert_eq!(p.range(3).unwrap(), (4, 7));
    assert!(p.range(4).is_err());
}

#[test]
fn partition_sizes() {
    let p = BinomialPartitioner::new(0, 7);
    assert_eq!(p.size(0), 1);
    assert_eq!(p.size(1), 1);
    assert_eq!(p.size(2), 2);
    assert_eq!(p.size(3), 4);
}

#[test]
fn partition_covers_id_space() {
    // For every node in an 8-node roster, every other id falls in
    // exactly one level range, and the node itself in none above 0.
    for node in 0..8usize {
        let p = BinomialPartitioner::new(node, 7);
        for id in 0..8usize {
            let mut hits = 0;
            for level in 1..p.num_levels {
                let (lo, hi) = p.range(level).unwrap();
                if id >= lo && id <= hi {
                    hits += 1;
                }
            }
            if id == node {
                assert_eq!(hits, 0);
            } else {
                assert_eq!(hits, 1);
            }
        }
    }
}

#[test]
fn log_two_values() {
    assert_eq!(log_2(1), 0);
    assert_eq!(log_2(2), 1);
    assert_eq!(log_2(3), 1);
    assert_eq!(log_2(4), 2);
    assert_eq!(log_2(7), 2);
    assert_eq!(log_2(8), 3);
    assert_eq!(log_2(65535), 15);
}

#[test]
fn non_power_of_two_roster() {
    // max_id = 5: ranges may reach past max_id; the roster lookup
    // discards those ids later.
    let p = BinomialPartitioner::new(0, 5);
    assert_eq!(p.num_levels, 4);
    assert_eq!(p.range(3).unwrap(), (4, 7));
}
