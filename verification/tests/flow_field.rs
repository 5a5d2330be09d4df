use crowd_flow::distance::{Distance, Steps};
use crowd_flow::flow::Flow;
use crowd_flow::flow_field::{
    generate_flow_field, generate_flow_field_impl, resolve_targets, FlowField, TargetError,
};
use crowd_flow::nav_grid::NavGridInner;

fn grid(interior: usize, blocked: &[[usize; 2]]) -> NavGridInner {
    match NavGridInner::new(interior, &blocked.to_vec()) {
        Ok(nav) => nav,
        Err(_) => panic!("the level is small enough"),
    }
}

fn path(straight: u32, diagonal: u32) -> Option<Distance> {
    Some(Distance::Path(Steps { straight, diagonal }))
}

fn same_fields(a: &FlowField, b: &FlowField, side: usize) -> bool {
    for x in 0..side + 1 {
        for y in 0..side + 1 {
            if a.get([x, y]) != b.get([x, y]) || a.distance([x, y]) != b.distance([x, y]) {
                return false;
            }
        }
    }
    true
}

/// Follows the directions from `start` and returns the cell where they end.
fn walk(field: &FlowField, start: [usize; 2], limit: usize) -> Option<[usize; 2]> {
    let mut at = start;
    for _ in 0..limit {
        match field.get(at)? {
            Flow::Source => return Some(at),
            Flow::Unreachable => return None,
            Flow::LineOfSight(dx, dy) => {
                at = [(at[0] as i64 + dx as i64) as usize, (at[1] as i64 + dy as i64) as usize];
            }
            flow => {
                let d = flow.to_dir();
                at = [(at[0] as i64 + d.0 as i64) as usize, (at[1] as i64 + d.1 as i64) as usize];
            }
        }
    }
    None
}

#[test]
fn open_ten_by_ten_with_one_target() {
    let nav = grid(10, &[]);
    let field = generate_flow_field_impl(&nav, &vec![[5, 5]]);
    assert_eq!(field.get([5, 5]), Some(Flow::Source));
    assert_eq!(field.distance([5, 5]), path(0, 0));
    for x in 1..11usize {
        for y in 1..11usize {
            if [x, y] == [5, 5] {
                continue;
            }
            let dx = 5 - x as i32;
            let dy = 5 - y as i32;
            assert_eq!(field.get([x, y]), Some(Flow::LineOfSight(dx, dy)));
            assert_eq!(field.distance([x, y]), Some(Distance::Sight((dx * dx + dy * dy) as u32)));
        }
    }
}

#[test]
fn distances_of_the_open_level_are_symmetric() {
    let nav = grid(9, &[]);
    let field = generate_flow_field_impl(&nav, &vec![[5, 5]]);
    for dx in 0..5usize {
        for dy in 0..5usize {
            let d = field.distance([5 + dx, 5 + dy]);
            assert_eq!(field.distance([5 - dx, 5 + dy]), d);
            assert_eq!(field.distance([5 + dx, 5 - dy]), d);
            assert_eq!(field.distance([5 - dx, 5 - dy]), d);
            assert_eq!(field.distance([5 + dy, 5 + dx]), d);
        }
    }
}

#[test]
fn every_open_cell_leads_to_the_target() {
    let nav = grid(10, &[]);
    let field = generate_flow_field_impl(&nav, &vec![[5, 5]]);
    for x in 1..11usize {
        for y in 1..11usize {
            assert_eq!(walk(&field, [x, y], 100), Some([5, 5]));
        }
    }
}

#[test]
fn the_border_is_unreachable() {
    let nav = grid(10, &[]);
    let field = generate_flow_field_impl(&nav, &vec![[5, 5]]);
    for i in 0..12usize {
        for cell in [[0, i], [11, i], [i, 0], [i, 11]] {
            assert_eq!(field.get(cell), Some(Flow::Unreachable));
            assert_eq!(field.distance(cell), Some(Distance::Unreached));
        }
    }
}

#[test]
fn outside_the_field_there_is_nothing() {
    let nav = grid(10, &[]);
    let field = generate_flow_field_impl(&nav, &vec![[5, 5]]);
    assert_eq!(field.get([12, 3]), None);
    assert_eq!(field.get([3, 12]), None);
    assert_eq!(field.distance([usize::MAX, 0]), None);
}

#[test]
fn no_target_leaves_every_cell_unreachable() {
    let nav = grid(6, &[]);
    let field = generate_flow_field_impl(&nav, &Vec::new());
    for x in 0..8usize {
        for y in 0..8usize {
            assert_eq!(field.get([x, y]), Some(Flow::Unreachable));
            assert_eq!(field.distance([x, y]), Some(Distance::Unreached));
        }
    }
}

#[test]
fn beyond_the_range_of_sight_the_grid_path_counts() {
    let nav = grid(100, &[]);
    let field = generate_flow_field_impl(&nav, &vec![[1, 1]]);
    // along the row: 32 straight steps, and the way leads west
    assert_eq!(field.distance([33, 1]), path(32, 0));
    assert_eq!(field.get([33, 1]), Some(Flow::West));
    // 50 to the east: 50 straight steps
    assert_eq!(field.distance([51, 1]), path(50, 0));
    // along the diagonal: 40 diagonal steps, and the way leads south-west
    assert_eq!(field.distance([41, 41]), path(0, 40));
    assert_eq!(field.get([41, 41]), Some(Flow::SouthWest));
    // 40 east and 20 north: 20 diagonal steps and 20 straight ones
    assert_eq!(field.distance([41, 21]), path(20, 20));
    let flow = field.get([41, 21]).unwrap();
    assert!(flow == Flow::West || flow == Flow::SouthWest);
    // 99 east and 99 north
    assert_eq!(field.distance([100, 100]), path(0, 99));
    assert_eq!(field.distance([100, 1]), path(99, 0));
    assert_eq!(field.distance([10, 100]), path(90, 9));
}

#[test]
fn within_the_range_of_sight_the_line_counts() {
    let nav = grid(100, &[]);
    let field = generate_flow_field_impl(&nav, &vec![[1, 1]]);
    assert_eq!(field.get([31, 1]), Some(Flow::LineOfSight(-30, 0)));
    assert_eq!(field.distance([31, 1]), Some(Distance::Sight(900)));
    // the walk goes on from [31, 1], whose line is 29.9 long, and lights [32, 1]
    assert_eq!(field.get([32, 1]), Some(Flow::LineOfSight(-31, 0)));
    // it does not go on from [32, 1], whose line is 30.9 long
    assert_eq!(field.get([33, 1]), Some(Flow::West));
    assert_eq!(field.get([4, 5]), Some(Flow::LineOfSight(-3, -4)));
    assert_eq!(field.distance([4, 5]), Some(Distance::Sight(25)));
}

#[test]
fn the_nearest_of_two_targets_counts() {
    let nav = grid(100, &[]);
    let field = generate_flow_field_impl(&nav, &vec![[1, 50], [100, 50]]);
    assert_eq!(field.get([1, 50]), Some(Flow::Source));
    assert_eq!(field.get([100, 50]), Some(Flow::Source));
    assert_eq!(field.distance([40, 50]), path(39, 0));
    assert_eq!(field.get([40, 50]), Some(Flow::West));
    assert_eq!(field.distance([60, 50]), path(40, 0));
    assert_eq!(field.get([60, 50]), Some(Flow::East));
    assert_eq!(field.distance([45, 90]), path(4, 40));
    assert_eq!(walk(&field, [45, 90], 300), Some([1, 50]));
    assert_eq!(walk(&field, [60, 10], 300), Some([100, 50]));
}

#[test]
fn a_target_listed_twice_changes_nothing() {
    let nav = grid(40, &[[7, 7], [7, 8], [8, 7]]);
    let once = generate_flow_field_impl(&nav, &vec![[3, 3]]);
    let twice = generate_flow_field_impl(&nav, &vec![[3, 3], [3, 3]]);
    assert!(same_fields(&once, &twice, 42));
}

#[test]
fn generating_again_gives_the_same_field() {
    let mut blocked = Vec::new();
    for i in 3..30usize {
        blocked.push([i, 12]);
        blocked.push([20, i + 5]);
    }
    let nav = grid(60, &blocked);
    let sources = vec![[5, 5], [50, 40], [58, 2]];
    let first = generate_flow_field_impl(&nav, &sources);
    let second = generate_flow_field_impl(&nav, &sources);
    assert!(same_fields(&first, &second, 62));
    let again = grid(60, &blocked);
    let third = generate_flow_field_impl(&again, &sources.clone());
    assert!(same_fields(&first, &third, 62));
}

#[test]
fn a_wall_hides_the_target() {
    // a wall on column 5 from row 1 to row 7, the target left of it
    let mut blocked = Vec::new();
    for y in 1..8usize {
        blocked.push([5, y]);
    }
    let nav = grid(9, &blocked);
    let field = generate_flow_field_impl(&nav, &vec![[2, 3]]);
    for y in 1..8usize {
        assert_eq!(field.get([5, y]), Some(Flow::Unreachable));
    }
    // right behind the wall no cell sees the target
    for y in 1..6usize {
        let flow = field.get([7, y]).unwrap();
        assert!(!matches!(flow, Flow::LineOfSight(_, _)));
        assert_ne!(flow, Flow::Unreachable);
        assert_eq!(walk(&field, [7, y], 100), Some([2, 3]));
    }
    // around the wall: from [6, 3] five steps up to row 8, two steps over the wall, and from
    // [4, 8] two diagonal steps and three straight ones down to the target
    assert_eq!(field.distance([6, 3]), path(10, 2));
    // left of the wall every cell sees the target
    assert_eq!(field.get([4, 7]), Some(Flow::LineOfSight(-2, -4)));
    assert_eq!(field.get([1, 1]), Some(Flow::LineOfSight(1, 2)));
}

#[test]
fn an_enclosed_pocket_stays_unreachable() {
    // a ring of blocked cells around the three by three cells at [5..8, 5..8]
    let mut blocked = Vec::new();
    for i in 4..9usize {
        blocked.push([i, 4]);
        blocked.push([i, 8]);
        blocked.push([4, i]);
        blocked.push([8, i]);
    }
    let nav = grid(11, &blocked);
    let field = generate_flow_field_impl(&nav, &vec![[1, 1]]);
    for x in 5..8usize {
        for y in 5..8usize {
            assert!(nav.is_walkable([x, y]));
            assert_eq!(field.get([x, y]), Some(Flow::Unreachable));
            assert_eq!(field.distance([x, y]), Some(Distance::Unreached));
        }
    }
    for cell in blocked {
        assert_eq!(field.get(cell), Some(Flow::Unreachable));
    }
    assert_eq!(walk(&field, [10, 10], 100), Some([1, 1]));
    assert_eq!(walk(&field, [9, 6], 100), Some([1, 1]));
}

#[test]
fn a_pocket_closed_by_corners_only_stays_unreachable() {
    // [2, 2] is shut in by its four straight neighbours; the diagonals would cut corners
    let nav = grid(3, &[[1, 2], [3, 2], [2, 1], [2, 3]]);
    let field = generate_flow_field_impl(&nav, &vec![[1, 1]]);
    assert!(nav.is_walkable([2, 2]));
    assert_eq!(field.get([2, 2]), Some(Flow::Unreachable));
    assert_eq!(field.get([3, 3]), Some(Flow::Unreachable));
    assert_eq!(field.get([1, 1]), Some(Flow::Source));
}

#[test]
fn a_target_inside_the_pocket_reaches_the_pocket_only() {
    let mut blocked = Vec::new();
    for i in 4..9usize {
        blocked.push([i, 4]);
        blocked.push([i, 8]);
        blocked.push([4, i]);
        blocked.push([8, i]);
    }
    let nav = grid(11, &blocked);
    let field = generate_flow_field_impl(&nav, &vec![[6, 6]]);
    for x in 5..8usize {
        for y in 5..8usize {
            assert_eq!(walk(&field, [x, y], 10), Some([6, 6]));
        }
    }
    assert_eq!(field.get([1, 1]), Some(Flow::Unreachable));
    assert_eq!(field.get([10, 6]), Some(Flow::Unreachable));
}

#[test]
fn a_target_on_a_blocked_cell_is_a_source_all_the_same() {
    let nav = grid(5, &[[3, 3]]);
    let field = generate_flow_field_impl(&nav, &vec![[3, 3]]);
    assert_eq!(field.get([3, 3]), Some(Flow::Source));
    assert_eq!(walk(&field, [1, 1], 10), Some([3, 3]));
}

#[test]
fn targets_are_moved_to_walkable_cells() {
    let nav = grid(5, &[[3, 3]]);
    assert_eq!(resolve_targets(&nav, &vec![[2, 4]]), Ok(vec![[2, 4]]));
    let moved = resolve_targets(&nav, &vec![[3, 3], [0, 0], [60, 2]]).unwrap();
    assert_eq!(moved.len(), 3);
    // of the cells on the ring around [3, 3] the first one, column by column
    assert_eq!(moved[0], [2, 2]);
    assert_eq!(moved[1], [1, 1]);
    // [60, 2] is moved to [6, 2] on the border, and from there to the ring next to it
    assert_eq!(moved[2], [5, 1]);
    assert_eq!(resolve_targets(&nav, &Vec::new()), Ok(Vec::new()));
}

#[test]
fn a_level_without_walkable_cells_has_no_place_for_a_target() {
    let nav = grid(0, &[]);
    assert_eq!(resolve_targets(&nav, &vec![[0, 0]]), Err(TargetError::NoWalkableCell));
    assert!(matches!(generate_flow_field(&nav, &vec![[1, 1]]), Err(TargetError::NoWalkableCell)));
    assert!(generate_flow_field(&nav, &Vec::new()).is_ok());
    let nav = grid(1, &[[1, 1]]);
    assert_eq!(resolve_targets(&nav, &vec![[1, 1]]), Err(TargetError::NoWalkableCell));
}

#[test]
fn generation_moves_targets_first() {
    let nav = grid(10, &[]);
    let field = match generate_flow_field(&nav, &vec![[0, 0], [500, 500]]) {
        Ok(field) => field,
        Err(_) => panic!("the level has walkable cells"),
    };
    assert_eq!(field.get([1, 1]), Some(Flow::Source));
    assert_eq!(field.get([10, 10]), Some(Flow::Source));
    assert_eq!(field.get([0, 0]), Some(Flow::Unreachable));
    let direct = generate_flow_field_impl(&nav, &vec![[1, 1], [10, 10]]);
    assert!(same_fields(&field, &direct, 12));
}

#[test]
fn sight_needs_the_cell_to_be_open_towards_the_target() {
    // [4, 3] is blocked. The cell [4, 4] lies north-east of the target at [2, 2]; its step
    // towards the south is closed, so it gets no line of sight although the line is clear,
    // and the diagonal from [3, 3] would cut the corner of [4, 3].
    let nav = grid(6, &[[4, 3]]);
    assert!(nav.raycast_walkable_dda([2, 2], [4, 4]));
    let field = generate_flow_field_impl(&nav, &vec![[2, 2]]);
    let flow = field.get([4, 4]).unwrap();
    assert!(!matches!(flow, Flow::LineOfSight(_, _)));
    assert_eq!(field.distance([4, 4]), path(2, 1));
    assert_eq!(flow, Flow::West);
    assert_eq!(field.get([3, 3]), Some(Flow::LineOfSight(-1, -1)));
}

/// A level with scattered obstacles, the same on every run.
fn scattered(interior: usize, every: u64) -> Vec<[usize; 2]> {
    let mut blocked = Vec::new();
    let mut state: u64 = 0x2545_f491_4f6c_dd1d;
    for x in 1..interior + 1 {
        for y in 1..interior + 1 {
            state = state.wrapping_mul(6364136223846793005).wrapping_add(1442695040888963407);
            if (state >> 33) % every == 0 {
                blocked.push([x, y]);
            }
        }
    }
    blocked
}

/// Shortest route lengths by repeated relaxation over all links, in `f64`.
fn lengths_by_relaxation(nav: &NavGridInner, sources: &[[usize; 2]]) -> Vec<Vec<f64>> {
    let side = nav.side();
    let mut best = vec![vec![f64::INFINITY; side]; side];
    for s in sources {
        best[s[0]][s[1]] = 0.0;
    }
    let steps: [(i64, i64, u8); 8] = [
        (0, 1, 0x01),
        (1, 0, 0x02),
        (0, -1, 0x04),
        (-1, 0, 0x08),
        (1, 1, 0x10),
        (1, -1, 0x20),
        (-1, -1, 0x40),
        (-1, 1, 0x80),
    ];
    let mut changed = true;
    while changed {
        changed = false;
        for x in 1..side - 1 {
            for y in 1..side - 1 {
                if !best[x][y].is_finite() {
                    continue;
                }
                let mask = nav.mask_at([x, y]);
                for (dx, dy, bit) in steps {
                    if mask & bit == 0 {
                        continue;
                    }
                    let nx = (x as i64 - dx) as usize;
                    let ny = (y as i64 - dy) as usize;
                    let w = if dx != 0 && dy != 0 { std::f64::consts::SQRT_2 } else { 1.0 };
                    if best[x][y] + w < best[nx][ny] - 1e-9 {
                        best[nx][ny] = best[x][y] + w;
                        changed = true;
                    }
                }
            }
        }
    }
    best
}

#[test]
fn distances_agree_with_an_independent_search() {
    for (interior, every, sources) in [
        (30usize, 4u64, vec![[3usize, 3usize]]),
        (40, 3, vec![[20, 20], [2, 37]]),
        (25, 6, vec![[25, 1], [1, 25], [13, 13]]),
    ] {
        let blocked: Vec<[usize; 2]> = scattered(interior, every)
            .into_iter()
            .filter(|cell| !sources.contains(cell))
            .collect();
        let nav = grid(interior, &blocked);
        let field = generate_flow_field_impl(&nav, &sources);
        let best = lengths_by_relaxation(&nav, &sources);
        for x in 0..interior + 2 {
            for y in 0..interior + 2 {
                let flow = field.get([x, y]).unwrap();
                match field.distance([x, y]).unwrap() {
                    Distance::Unreached => {
                        assert!(best[x][y].is_infinite());
                        assert_eq!(flow, Flow::Unreachable);
                    }
                    Distance::Path(s) => {
                        let length = s.straight as f64 + s.diagonal as f64 * std::f64::consts::SQRT_2;
                        assert!((length - best[x][y]).abs() < 1e-6);
                        if flow == Flow::Source {
                            assert!(sources.contains(&[x, y]));
                        } else {
                            // the direction leads to a cell that is one step nearer
                            let d = flow.to_dir();
                            let ax = (x as i64 + d.0 as i64) as usize;
                            let ay = (y as i64 + d.1 as i64) as usize;
                            let w = if d.0 != 0 && d.1 != 0 { std::f64::consts::SQRT_2 } else { 1.0 };
                            assert!((best[ax][ay] + w - best[x][y]).abs() < 1e-6);
                            assert_ne!(nav.mask_at([ax, ay]) & flow.mask(), 0);
                        }
                    }
                    Distance::Sight(n) => {
                        // a line of sight is nearer than the shortest route, and leads to a target
                        let Flow::LineOfSight(dx, dy) = flow else {
                            panic!("a sight distance belongs to a line of sight");
                        };
                        assert_eq!((dx * dx + dy * dy) as u32, n);
                        let target = [(x as i64 + dx as i64) as usize, (y as i64 + dy as i64) as usize];
                        assert!(sources.contains(&target));
                        assert!((n as f64).sqrt() - 0.1 < best[x][y]);
                        assert!(nav.raycast_walkable_dda(target, [x, y]));
                    }
                }
            }
        }
    }
}

#[test]
fn a_field_is_as_large_as_its_grid() {
    let nav = grid(10, &[]);
    let field = generate_flow_field_impl(&nav, &vec![[5, 5]]);
    assert_eq!(field.side(), 12);
    assert_eq!(field.side(), nav.side());
}

#[test]
fn no_line_of_sight_is_longer_than_a_line_in_range_and_a_step() {
    let nav = grid(100, &[]);
    let field = generate_flow_field_impl(&nav, &vec![[50, 50]]);
    let mut longest = 0;
    for x in 1..101usize {
        for y in 1..101usize {
            if let Some(Distance::Sight(n)) = field.distance([x, y]) {
                assert!(n <= 967);
                longest = longest.max(n);
                assert_eq!(
                    field.get([x, y]),
                    Some(Flow::LineOfSight(50 - x as i32, 50 - y as i32))
                );
            }
        }
    }
    // the longest line is handed on from a cell 30 and 2 cells away, whose line is in
    // range, to the cell 31 and 2 cells away
    assert_eq!(longest, 965);
    assert_eq!(field.distance([80, 52]), Some(Distance::Sight(904)));
    assert_eq!(field.distance([81, 52]), Some(Distance::Sight(965)));
    assert_eq!(field.distance([81, 50]), Some(Distance::Sight(961)));
    assert_eq!(field.distance([82, 50]), Some(Distance::Path(Steps { straight: 32, diagonal: 0 })));
}

/// The distance as a number, for comparing.
fn as_number(d: Distance) -> f64 {
    match d {
        Distance::Unreached => f64::INFINITY,
        Distance::Path(s) => s.straight as f64 + s.diagonal as f64 * std::f64::consts::SQRT_2,
        Distance::Sight(n) => (n as f64).sqrt() - 0.1,
    }
}

#[test]
fn distances_of_the_open_level_rise_away_from_the_target() {
    for (interior, target) in [(10usize, [5usize, 5usize]), (80, [3, 70])] {
        let nav = grid(interior, &[]);
        let field = generate_flow_field_impl(&nav, &vec![target]);
        let offsets = |c: [usize; 2]| {
            (
                (c[0] as i64 - target[0] as i64).abs(),
                (c[1] as i64 - target[1] as i64).abs(),
            )
        };
        let mut by_offsets = std::collections::HashMap::new();
        for x in 1..interior + 1 {
            for y in 1..interior + 1 {
                let d = field.distance([x, y]).unwrap();
                let (ox, oy) = offsets([x, y]);
                // mirrored cells have the same distance, along an axis or along a diagonal
                let key = (ox.min(oy), ox.max(oy));
                assert_eq!(*by_offsets.entry(key).or_insert(d), d);
            }
        }
        for (&(lo_a, hi_a), &da) in by_offsets.iter() {
            for (&(lo_b, hi_b), &db) in by_offsets.iter() {
                if lo_a <= lo_b && hi_a <= hi_b {
                    assert!(as_number(da) <= as_number(db) + 1e-9);
                }
            }
        }
    }
}

#[test]
fn the_open_level_in_closed_form() {
    let nav = grid(100, &[]);
    let field = generate_flow_field_impl(&nav, &vec![[50, 50]]);
    let in_range = |n: i64| 100 * n <= 90601;
    for x in 1..101usize {
        for y in 1..101usize {
            let ox = (x as i64 - 50).abs();
            let oy = (y as i64 - 50).abs();
            let expected = if ox == 0 && oy == 0 {
                Distance::Path(Steps { straight: 0, diagonal: 0 })
            } else if (ox >= 1 && in_range((ox - 1) * (ox - 1) + oy * oy))
                || (oy >= 1 && in_range(ox * ox + (oy - 1) * (oy - 1)))
            {
                Distance::Sight((ox * ox + oy * oy) as u32)
            } else {
                Distance::Path(Steps {
                    straight: (ox - oy).unsigned_abs() as u32,
                    diagonal: ox.min(oy) as u32,
                })
            };
            assert_eq!(field.distance([x, y]), Some(expected));
        }
    }
}
