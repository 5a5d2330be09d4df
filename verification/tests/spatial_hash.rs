use crowd_flow::spatial::{Placed, BUCKET_CAPACITY};
use crowd_flow::spatial_hash::SpatialStructure;

fn agent(id: u64, cx: usize, cy: usize) -> Placed {
    Placed { id, cx, cy }
}

#[test]
fn a_new_sparse_index_has_no_bucket() {
    let s = SpatialStructure::new();
    assert_eq!(s.bucket(0, 0), None);
    assert_eq!(s.bucket(-1, 5), None);
    assert!(s.neighbors(3, 3).iter().all(|b| b.is_none()));
}

#[test]
fn sparse_buckets_are_made_on_demand() {
    let mut s = SpatialStructure::new();
    assert!(s.insert(agent(1, 3, 4)));
    assert!(s.insert(agent(2, 3, 4)));
    assert!(s.insert(agent(3, 4, 3)));
    assert_eq!(s.bucket(3, 4), Some(&vec![1, 2]));
    assert_eq!(s.bucket(4, 3), Some(&vec![3]));
    assert_eq!(s.bucket(3, 3), None);
    assert_eq!(s.bucket(4, 4), None);
}

#[test]
fn cells_are_told_apart_by_both_coordinates() {
    let mut s = SpatialStructure::new();
    s.insert(agent(1, 0, 1));
    s.insert(agent(2, 1, 0));
    s.insert(agent(3, 0, 0));
    s.insert(agent(4, 70_000, 2));
    s.insert(agent(5, 2, 70_000));
    assert_eq!(s.bucket(0, 1), Some(&vec![1]));
    assert_eq!(s.bucket(1, 0), Some(&vec![2]));
    assert_eq!(s.bucket(0, 0), Some(&vec![3]));
    assert_eq!(s.bucket(70_000, 2), Some(&vec![4]));
    assert_eq!(s.bucket(2, 70_000), Some(&vec![5]));
    assert_eq!(s.bucket(1, 1), None);
}

#[test]
fn a_full_sparse_bucket_takes_no_more() {
    let mut s = SpatialStructure::new();
    for id in 0..BUCKET_CAPACITY as u64 {
        assert!(s.insert(agent(id, 9, 9)));
    }
    assert!(!s.insert(agent(500, 9, 9)));
    assert_eq!(s.bucket(9, 9).unwrap().len(), 100);
    assert_eq!(s.bucket(9, 9).unwrap()[99], 99);
    assert!(s.insert(agent(501, 9, 8)));
}

#[test]
fn the_eight_cells_around() {
    let mut s = SpatialStructure::new();
    let mut id = 0;
    for cy in 0..3 {
        for cx in 0..3 {
            s.insert(agent(id, cx, cy));
            id += 1;
        }
    }
    let around = s.neighbors(1, 1);
    let ids: Vec<u64> = around.iter().map(|b| b.unwrap()[0]).collect();
    // row by row from the north, the cell itself in the middle
    assert_eq!(ids, vec![6, 7, 8, 3, 4, 5, 0, 1, 2]);
    let around = s.neighbors(0, 0);
    let found: Vec<Option<u64>> = around.iter().map(|b| b.map(|v| v[0])).collect();
    assert_eq!(found, vec![None, Some(3), Some(4), None, Some(0), Some(1), None, None, None]);
}

#[test]
fn agents_in_one_cell_find_each_other() {
    let mut s = SpatialStructure::new();
    s.insert(agent(1, 5, 5));
    s.insert(agent(2, 5, 5));
    let around = s.neighbors(5, 5);
    assert_eq!(around[4], Some(&vec![1, 2]));
    for (k, bucket) in around.iter().enumerate() {
        if k != 4 {
            assert!(bucket.is_none());
        }
    }
    // and from the cell next to it they are found in the bucket towards it
    let around = s.neighbors(4, 5);
    assert_eq!(around[5], Some(&vec![1, 2]));
    assert!(around[4].is_none());
}

#[test]
fn reset_drops_every_sparse_bucket() {
    let mut s = SpatialStructure::new();
    s.insert(agent(1, 3, 4));
    s.reset();
    assert_eq!(s.bucket(3, 4), None);
    assert!(s.insert(agent(2, 3, 4)));
    assert_eq!(s.bucket(3, 4), Some(&vec![2]));
}

#[test]
fn far_coordinates_count_as_the_farthest_cell() {
    let mut s = SpatialStructure::new();
    s.insert(agent(1, usize::MAX, 0));
    assert_eq!(s.bucket(i32::MAX, 0), Some(&vec![1]));
}
