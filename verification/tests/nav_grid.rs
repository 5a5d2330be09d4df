use crowd_flow::flow::Flow;
use crowd_flow::nav_grid::{NavGridError, NavGridInner, MAX_SIDE};

fn grid(interior: usize, blocked: &[[usize; 2]]) -> NavGridInner {
    match NavGridInner::new(interior, &blocked.to_vec()) {
        Ok(nav) => nav,
        Err(_) => panic!("the level is small enough"),
    }
}

#[test]
fn a_border_cell_is_added_on_each_side() {
    assert_eq!(grid(10, &[]).side(), 12);
    assert_eq!(grid(0, &[]).side(), 2);
}

#[test]
fn too_large_a_level_is_refused() {
    assert!(matches!(NavGridInner::new(MAX_SIDE - 1, &Vec::new()), Err(NavGridError::TooLarge)));
    assert!(matches!(NavGridInner::new(usize::MAX, &Vec::new()), Err(NavGridError::TooLarge)));
    assert!(NavGridInner::new(40, &Vec::new()).is_ok());
}

#[test]
fn the_border_is_never_walkable() {
    let nav = grid(3, &[]);
    for i in 0..5 {
        assert!(!nav.is_walkable([0, i]));
        assert!(!nav.is_walkable([4, i]));
        assert!(!nav.is_walkable([i, 0]));
        assert!(!nav.is_walkable([i, 4]));
    }
}

#[test]
fn interior_cells_are_walkable_unless_blocked() {
    let nav = grid(3, &[[2, 2], [3, 1]]);
    let mut open = Vec::new();
    for x in 0..5 {
        for y in 0..5 {
            if nav.is_walkable([x, y]) {
                open.push([x, y]);
            }
        }
    }
    assert_eq!(open, vec![[1, 1], [1, 2], [1, 3], [2, 1], [2, 3], [3, 2], [3, 3]]);
}

#[test]
fn blocked_cells_outside_the_interior_change_nothing() {
    let nav = grid(2, &[[0, 0], [3, 3], [17, 1], [1, 99]]);
    assert!(nav.is_walkable([1, 1]));
    assert!(nav.is_walkable([2, 2]));
    assert!(!nav.is_walkable([0, 0]));
    assert!(!nav.is_walkable([3, 3]));
}

#[test]
fn cells_outside_the_grid_are_not_walkable() {
    let nav = grid(2, &[]);
    assert!(!nav.is_walkable([4, 1]));
    assert!(!nav.is_walkable([1, 4]));
    assert!(!nav.is_walkable([usize::MAX, usize::MAX]));
    assert_eq!(nav.mask_at([4, 1]), 0);
}

#[test]
fn the_flag_grid_can_be_read_directly() {
    let nav = grid(2, &[[1, 2]]);
    assert_eq!(nav.walkable().get(1, 1), Some(true));
    assert_eq!(nav.walkable().get(1, 2), Some(false));
    assert_eq!(nav.walkable().get(0, 0), Some(false));
    assert_eq!(nav.walkable().get(4, 0), None);
    assert_eq!(nav.grid().get(0, 0), Some(0));
    assert_eq!(nav.grid().get(0, 4), None);
}

#[test]
fn an_inner_cell_of_an_open_level_is_connected_all_around() {
    let nav = grid(3, &[]);
    assert_eq!(nav.mask_at([2, 2]), 0xff);
}

#[test]
fn a_corner_cell_is_connected_towards_the_inside_only() {
    let nav = grid(3, &[]);
    // the bit of a direction is set when the cell against that direction is walkable
    let expected = Flow::South.mask() | Flow::West.mask() | Flow::SouthWest.mask();
    assert_eq!(nav.mask_at([1, 1]), expected);
    let expected = Flow::North.mask() | Flow::East.mask() | Flow::NorthEast.mask();
    assert_eq!(nav.mask_at([3, 3]), expected);
}

#[test]
fn border_cells_have_no_connections() {
    let nav = grid(3, &[]);
    for i in 0..5 {
        assert_eq!(nav.mask_at([0, i]), 0);
        assert_eq!(nav.mask_at([i, 4]), 0);
    }
}

#[test]
fn no_diagonal_past_a_blocked_corner() {
    // [1, 1] is blocked: from [2, 2] the step to [1, 2] and to [2, 1] is open,
    // the diagonal to [1, 1] is not
    let nav = grid(3, &[[1, 1]]);
    let m = nav.mask_at([2, 2]);
    assert_eq!(m & Flow::NorthEast.mask(), 0);
    assert_ne!(m & Flow::North.mask(), 0);
    assert_ne!(m & Flow::East.mask(), 0);
    // [1, 2] is blocked: the diagonals from [2, 2] to [1, 1] and to [1, 3] cut its corner
    let nav = grid(3, &[[1, 2]]);
    let m = nav.mask_at([2, 2]);
    assert_eq!(m & Flow::East.mask(), 0);
    assert_eq!(m & Flow::NorthEast.mask(), 0);
    assert_eq!(m & Flow::SouthEast.mask(), 0);
    assert_ne!(m & Flow::North.mask(), 0);
    assert_ne!(m & Flow::South.mask(), 0);
    assert_ne!(m & Flow::West.mask(), 0);
    assert_ne!(m & Flow::NorthWest.mask(), 0);
    assert_ne!(m & Flow::SouthWest.mask(), 0);
}

#[test]
fn masks_follow_from_the_flags() {
    let nav = grid(4, &[[2, 3], [4, 1], [3, 3]]);
    for x in 1..5usize {
        for y in 1..5usize {
            let m = nav.mask_at([x, y]);
            for flow in Flow::directionals() {
                let d = flow.to_dir();
                let nx = (x as i64 - d.0 as i64) as usize;
                let ny = (y as i64 - d.1 as i64) as usize;
                let mut open = nav.is_walkable([nx, ny]);
                if d.0 != 0 && d.1 != 0 {
                    open = open && nav.is_walkable([x, ny]) && nav.is_walkable([nx, y]);
                }
                assert_eq!(m & flow.mask() != 0, open);
            }
        }
    }
}

#[test]
fn a_clear_line_is_seen_through() {
    let nav = grid(8, &[]);
    assert!(nav.raycast_walkable_dda([1, 1], [8, 8]));
    assert!(nav.raycast_walkable_dda([1, 1], [8, 3]));
    assert!(nav.raycast_walkable_dda([8, 2], [1, 7]));
    assert!(nav.raycast_walkable_dda([4, 4], [4, 4]));
}

#[test]
fn a_wall_blocks_the_line() {
    let nav = grid(8, &[[4, 1], [4, 2], [4, 3], [4, 4], [4, 5]]);
    assert!(!nav.raycast_walkable_dda([1, 3], [8, 3]));
    assert!(!nav.raycast_walkable_dda([8, 3], [1, 3]));
    assert!(!nav.raycast_walkable_dda([1, 1], [8, 8]));
    assert!(nav.raycast_walkable_dda([1, 7], [8, 7]));
    assert!(!nav.raycast_walkable_dda([4, 4], [4, 4]));
}

#[test]
fn a_line_from_or_to_the_border_is_blocked() {
    let nav = grid(4, &[]);
    assert!(!nav.raycast_walkable_dda([0, 2], [3, 2]));
    assert!(!nav.raycast_walkable_dda([3, 2], [5, 2]));
}

#[test]
fn samples_round_halves_upwards() {
    // from [1, 1] to [3, 2] the middle sample lies at y = 1.5 and falls on [2, 2]
    let nav = grid(4, &[[2, 2]]);
    assert!(!nav.raycast_walkable_dda([1, 1], [3, 2]));
    let nav = grid(4, &[[2, 1]]);
    assert!(nav.raycast_walkable_dda([1, 1], [3, 2]));
    // from [3, 2] to [1, 1] the middle sample lies at y = 1.5 as well
    assert!(nav.raycast_walkable_dda([3, 2], [1, 1]));
}

#[test]
fn clamp_moves_an_index_into_the_grid() {
    let nav = grid(4, &[]);
    assert_eq!(nav.clamp_index([2, 3]), [2, 3]);
    assert_eq!(nav.clamp_index([6, 3]), [5, 3]);
    assert_eq!(nav.clamp_index([2, 100]), [2, 5]);
    assert_eq!(nav.clamp_index([usize::MAX, usize::MAX]), [5, 5]);
}

#[test]
fn nearest_walkable_of_a_walkable_cell_is_itself() {
    let nav = grid(4, &[]);
    assert_eq!(nav.nearest_walkable([2, 3]), Some([2, 3]));
}

#[test]
fn nearest_walkable_from_the_border() {
    let nav = grid(4, &[]);
    assert_eq!(nav.nearest_walkable([0, 0]), Some([1, 1]));
    assert_eq!(nav.nearest_walkable([5, 5]), Some([4, 4]));
    assert_eq!(nav.nearest_walkable([0, 3]), Some([1, 2]));
    assert_eq!(nav.nearest_walkable([3, 5]), Some([2, 4]));
}

#[test]
fn nearest_walkable_lies_on_the_nearest_ring() {
    let mut blocked = Vec::new();
    for x in 2..7 {
        for y in 2..7 {
            blocked.push([x, y]);
        }
    }
    let nav = grid(7, &blocked);
    // the ring of walkable cells around the block lies three cells from [4, 4]
    assert_eq!(nav.nearest_walkable([4, 4]), Some([1, 1]));
    // and two cells from [3, 4], where column 1 is the only part of it that near
    assert_eq!(nav.nearest_walkable([3, 4]), Some([1, 2]));
    assert_eq!(nav.nearest_walkable([5, 4]), Some([7, 2]));
    assert_eq!(nav.nearest_walkable([4, 5]), Some([2, 7]));
}

#[test]
fn no_walkable_cell_to_be_found() {
    let nav = grid(0, &[]);
    assert_eq!(nav.nearest_walkable([0, 0]), None);
    let nav = grid(2, &[[1, 1], [1, 2], [2, 1], [2, 2]]);
    assert_eq!(nav.nearest_walkable([1, 1]), None);
}

#[test]
fn positions_fall_into_cells() {
    let nav = grid(4, &[]);
    // positions are counted in half cells from the corner of the level
    assert_eq!(nav.pos_to_index([0, 0]), [1, 1]);
    assert_eq!(nav.pos_to_index([1, 0]), [1, 1]);
    assert_eq!(nav.pos_to_index([2, 0]), [2, 1]);
    assert_eq!(nav.pos_to_index([7, 5]), [4, 3]);
    assert_eq!(nav.pos_to_index([-1, -2]), [0, 0]);
    assert_eq!(nav.pos_to_index([-3, -1000]), [0, 0]);
    assert_eq!(nav.pos_to_index([i64::MIN, 8]), [0, 5]);
}

#[test]
fn cell_centres() {
    assert_eq!(NavGridInner::index_to_pos([1, 1]), [1, 1]);
    assert_eq!(NavGridInner::index_to_pos([2, 5]), [3, 9]);
    assert_eq!(NavGridInner::index_to_pos([0, 0]), [-1, -1]);
}

#[test]
fn position_round_trip() {
    let nav = grid(50, &[]);
    for hx in 0..100i64 {
        for hy in [0i64, 1, 2, 49, 50, 98, 99] {
            let idx = nav.pos_to_index([hx, hy]);
            let centre = NavGridInner::index_to_pos(idx);
            assert_eq!(nav.pos_to_index(centre), idx);
            assert!(centre[0] == hx || centre[0] == hx + 1);
            assert!(centre[1] == hy || centre[1] == hy + 1);
        }
    }
    for x in 0..52usize {
        assert_eq!(nav.pos_to_index(NavGridInner::index_to_pos([x, 51 - x])), [x, 51 - x]);
    }
}
