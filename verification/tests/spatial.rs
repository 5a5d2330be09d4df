use crowd_flow::spatial::{
    make_spatial, Placed, SpatialStructure, BUCKET_CAPACITY, MAX_SPATIAL_SIDE,
};
use crowd_flow::spatial_index::{rebuild, SpatialIndex};

fn index(cells: usize) -> SpatialStructure {
    match SpatialStructure::new(cells) {
        Some(s) => s,
        None => panic!("the level is small enough"),
    }
}

fn agent(id: u64, cx: usize, cy: usize) -> Placed {
    Placed { id, cx, cy }
}

#[test]
fn a_new_index_is_empty() {
    let s = index(3);
    assert_eq!(s.size(), 5);
    assert_eq!(s.len(), 25);
    for cell in 0..25 {
        assert_eq!(s.bucket(cell), Some(&[][..]));
    }
    assert_eq!(s.bucket(25), None);
}

#[test]
fn too_large_an_index_is_refused() {
    assert!(SpatialStructure::new(MAX_SPATIAL_SIDE - 1).is_none());
    assert!(SpatialStructure::new(usize::MAX).is_none());
    assert!(SpatialStructure::new(0).is_some());
}

#[test]
fn cells_are_numbered_row_by_row_behind_the_border() {
    let s = index(3);
    assert_eq!(s.pos_to_cell(0, 0), 6);
    assert_eq!(s.pos_to_cell(2, 0), 8);
    assert_eq!(s.pos_to_cell(0, 1), 11);
    assert_eq!(s.pos_to_cell(1, 2), 17);
}

#[test]
fn coordinates_beyond_the_level_count_as_its_edge() {
    let s = index(3);
    assert_eq!(s.pos_to_cell(3, 0), 9);
    assert_eq!(s.pos_to_cell(4, 0), 9);
    assert_eq!(s.pos_to_cell(0, 3), 21);
    assert_eq!(s.pos_to_cell(usize::MAX, usize::MAX), 24);
}

#[test]
fn agents_go_into_the_bucket_of_their_cell() {
    let mut s = index(3);
    assert!(s.insert(agent(7, 1, 1)));
    assert!(s.insert(agent(8, 1, 1)));
    assert!(s.insert(agent(9, 2, 0)));
    assert_eq!(s.bucket(12), Some(&[7u64, 8][..]));
    assert_eq!(s.bucket(8), Some(&[9u64][..]));
    assert_eq!(s.bucket(6), Some(&[][..]));
}

#[test]
fn a_full_bucket_takes_no_more() {
    let mut s = index(3);
    for id in 0..BUCKET_CAPACITY as u64 {
        assert!(s.insert(agent(id, 1, 1)));
    }
    assert!(!s.insert(agent(1000, 1, 1)));
    assert!(!s.insert(agent(1001, 1, 1)));
    let bucket = s.bucket(12).unwrap();
    assert_eq!(bucket.len(), 100);
    assert_eq!(bucket[0], 0);
    assert_eq!(bucket[99], 99);
    // other buckets are not concerned
    assert!(s.insert(agent(1002, 1, 2)));
}

#[test]
fn reset_empties_every_bucket() {
    let mut s = index(3);
    s.insert(agent(1, 0, 0));
    s.insert(agent(2, 2, 2));
    s.reset();
    assert_eq!(s.size(), 5);
    for cell in 0..25 {
        assert_eq!(s.bucket(cell), Some(&[][..]));
    }
}

#[test]
fn the_block_around_a_cell() {
    let mut s = index(3);
    let mut id = 0;
    for cy in 0..3 {
        for cx in 0..3 {
            s.insert(agent(id, cx, cy));
            id += 1;
        }
    }
    // the cell in the middle of the level sees all nine
    let block = s.get(12).unwrap();
    let ids: Vec<u64> = block.iter().flat_map(|b| b.iter().copied()).collect();
    assert_eq!(ids, vec![0, 1, 2, 3, 4, 5, 6, 7, 8]);
    // the cell in the corner of the level sees its three neighbours and itself
    let block = s.get(6).unwrap();
    assert_eq!(block[0], &[][..]);
    assert_eq!(block[4], &[0u64][..]);
    assert_eq!(block[5], &[1u64][..]);
    assert_eq!(block[7], &[3u64][..]);
    assert_eq!(block[8], &[4u64][..]);
    let ids: Vec<u64> = block.iter().flat_map(|b| b.iter().copied()).collect();
    assert_eq!(ids, vec![0, 1, 3, 4]);
}

#[test]
fn no_block_at_the_ends_of_the_index() {
    let s = index(3);
    for cell in 0..6 {
        assert!(s.get(cell).is_none());
    }
    assert!(s.get(6).is_some());
    assert!(s.get(18).is_some());
    for cell in 19..30 {
        assert!(s.get(cell).is_none());
    }
    assert!(s.get(usize::MAX).is_none());
}

#[test]
fn the_index_of_a_tick() {
    let mut s = index(4);
    s.insert(agent(99, 3, 3));
    let agents = vec![agent(1, 0, 0), agent(2, 3, 1), agent(3, 0, 0), agent(4, 9, 9)];
    assert_eq!(make_spatial(&mut s, &agents), 0);
    assert_eq!(s.bucket(7), Some(&[1u64, 3][..]));
    assert_eq!(s.bucket(16), Some(&[2u64][..]));
    assert_eq!(s.bucket(35), Some(&[4u64][..]));
    assert_eq!(s.bucket(28), Some(&[][..]));
    let mut total = 0;
    for cell in 0..s.len() {
        total += s.bucket(cell).unwrap().len();
    }
    assert_eq!(total, 4);
}

#[test]
fn a_crowded_tick_fills_the_bucket_and_no_more() {
    let mut s = index(2);
    let mut agents: Vec<Placed> = (0..250).map(|id| agent(id, 1, 0)).collect();
    agents.push(agent(250, 0, 1));
    assert_eq!(make_spatial(&mut s, &agents), 150);
    assert_eq!(s.bucket(s.pos_to_cell(0, 1)), Some(&[250u64][..]));
    let bucket = s.bucket(s.pos_to_cell(1, 0)).unwrap();
    assert_eq!(bucket.len(), 100);
    let expected: Vec<u64> = (0..100).collect();
    assert_eq!(bucket, &expected[..]);
}

#[test]
fn neighbours_of_an_agent_leave_the_agent_out() {
    let mut s = index(3);
    let mut id = 0;
    for cy in 0..3 {
        for cx in 0..3 {
            s.insert(agent(id, cx, cy));
            id += 1;
        }
    }
    s.insert(agent(40, 1, 1));
    assert_eq!(s.neighbors_except(12, 4), Some(vec![0, 1, 2, 3, 40, 5, 6, 7, 8]));
    assert_eq!(s.neighbors_except(12, 40), Some(vec![0, 1, 2, 3, 4, 5, 6, 7, 8]));
    assert_eq!(s.neighbors_except(12, 77), Some(vec![0, 1, 2, 3, 4, 40, 5, 6, 7, 8]));
    assert_eq!(s.neighbors_except(6, 0), Some(vec![1, 3, 4, 40]));
}

#[test]
fn an_agent_alone_has_no_neighbours() {
    let mut s = index(5);
    s.insert(agent(1, 2, 2));
    let cell = s.pos_to_cell(2, 2);
    assert_eq!(s.neighbors_except(cell, 1), Some(Vec::new()));
    // an agent two cells away is out of reach
    s.insert(agent(2, 4, 2));
    assert_eq!(s.neighbors_except(cell, 1), Some(Vec::new()));
    // an agent in the next cell is not
    s.insert(agent(3, 3, 3));
    assert_eq!(s.neighbors_except(cell, 1), Some(vec![3]));
}

#[test]
fn no_neighbours_without_a_block() {
    let s = index(3);
    assert_eq!(s.neighbors_except(3, 0), None);
    assert_eq!(s.neighbors_except(19, 0), None);
    assert_eq!(s.neighbors_except(1000, 0), None);
}

#[test]
fn a_wider_block_is_read_column_by_column() {
    let mut s = index(5);
    let mut id = 0;
    for cy in 0..5 {
        for cx in 0..5 {
            s.insert(agent(id, cx, cy));
            id += 1;
        }
    }
    // reach zero: the bucket of the cell alone
    assert_eq!(s.get_iter_with_distance_override(2, 2, 0), vec![12]);
    // reach one: three columns of three rows
    assert_eq!(
        s.get_iter_with_distance_override(2, 2, 1),
        vec![6, 11, 16, 7, 12, 17, 8, 13, 18]
    );
    // reach two: the whole level
    assert_eq!(
        s.get_iter_with_distance_override(2, 2, 2),
        vec![
            0, 5, 10, 15, 20, 1, 6, 11, 16, 21, 2, 7, 12, 17, 22, 3, 8, 13, 18, 23, 4, 9, 14, 19,
            24
        ]
    );
}

#[test]
fn a_block_beyond_the_index_is_cut_off() {
    let mut s = index(2);
    s.insert(agent(1, 0, 0));
    s.insert(agent(2, 1, 0));
    s.insert(agent(3, 0, 1));
    s.insert(agent(4, 1, 1));
    // around the first cell of the level the block starts in the border
    assert_eq!(s.get_iter_with_distance_override(0, 0, 1), vec![1, 3, 2, 4]);
    // a block of reach three covers buckets before the first and after the last
    let all = s.get_iter_with_distance_override(1, 1, 3);
    let mut sorted = all.clone();
    sorted.sort();
    sorted.dedup();
    assert_eq!(sorted, vec![1, 2, 3, 4]);
}

#[test]
fn both_indexes_answer_alike() {
    let mut agents = Vec::new();
    let mut state: u64 = 12345;
    for id in 0..400u64 {
        state = state.wrapping_mul(6364136223846793005).wrapping_add(1442695040888963407);
        let cx = ((state >> 33) % 6) as usize;
        let cy = ((state >> 45) % 6) as usize;
        agents.push(agent(id, cx, cy));
    }
    // a crowd in one cell, more than a bucket takes
    for id in 400..550u64 {
        agents.push(agent(id, 2, 3));
    }
    let mut dense = index(6);
    let mut sparse = crowd_flow::spatial_hash::SpatialStructure::new();
    let dropped_dense = rebuild(&mut dense, &agents);
    let dropped_sparse = rebuild(&mut sparse, &agents);
    assert_eq!(dropped_dense, dropped_sparse);
    assert!(dropped_dense >= 50);
    for cx in 0..6 {
        for cy in 0..6 {
            let a = dense.nearby(cx, cy);
            let b = sparse.nearby(cx, cy);
            assert_eq!(a, b);
        }
    }
    // the block around a cell in the middle holds what its nine buckets hold
    let mut expected = Vec::new();
    for cy in 1..4 {
        for cx in 0..3 {
            expected.extend_from_slice(dense.bucket(dense.pos_to_cell(cx, cy)).unwrap());
        }
    }
    assert_eq!(dense.nearby(1, 2), expected);
}

#[test]
fn nearby_at_the_corner_of_the_level() {
    let agents = vec![agent(1, 0, 0), agent(2, 1, 0), agent(3, 0, 1), agent(4, 1, 1), agent(5, 2, 2)];
    let mut dense = index(3);
    assert_eq!(rebuild(&mut dense, &agents), 0);
    assert_eq!(dense.nearby(0, 0), vec![1, 2, 3, 4]);
    assert_eq!(dense.nearby(2, 2), vec![4, 5]);
    // a cell beyond the level counts as the cell on its far edge, next to [2, 2]
    assert_eq!(dense.nearby(9, 9), vec![5]);
    assert_eq!(dense.nearby(3, 3), vec![5]);
    let mut sparse = crowd_flow::spatial_hash::SpatialStructure::new();
    assert_eq!(rebuild(&mut sparse, &agents), 0);
    assert_eq!(sparse.nearby(0, 0), vec![1, 2, 3, 4]);
    assert_eq!(sparse.nearby(2, 2), vec![4, 5]);
    assert_eq!(sparse.nearby(9, 9), Vec::<u64>::new());
}

#[test]
fn rebuilding_forgets_the_last_tick() {
    let mut dense = index(3);
    rebuild(&mut dense, &vec![agent(1, 1, 1)]);
    rebuild(&mut dense, &vec![agent(2, 0, 0)]);
    assert_eq!(dense.nearby(1, 1), vec![2]);
    assert_eq!(dense.nearby(2, 2), Vec::<u64>::new());
}
