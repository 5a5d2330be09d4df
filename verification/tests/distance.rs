use crowd_flow::distance::{
    path_is_below_sight, sight_is_below_path, sight_is_out_of_range, Distance, Steps,
};

fn steps(straight: u32, diagonal: u32) -> Steps {
    Steps { straight, diagonal }
}

#[test]
fn shorter_when_both_counts_are_smaller() {
    assert!(steps(1, 1).shorter_than(&steps(2, 1)));
    assert!(steps(1, 1).shorter_than(&steps(1, 2)));
    assert!(!steps(2, 1).shorter_than(&steps(1, 1)));
}

#[test]
fn a_length_is_not_shorter_than_itself() {
    assert!(!steps(0, 0).shorter_than(&steps(0, 0)));
    assert!(!steps(12, 7).shorter_than(&steps(12, 7)));
}

#[test]
fn diagonal_against_straight_steps() {
    // 2·√2 = 2.83 against 3
    assert!(steps(0, 2).shorter_than(&steps(3, 0)));
    assert!(!steps(3, 0).shorter_than(&steps(0, 2)));
    // 7 against 5·√2 = 7.07
    assert!(steps(7, 0).shorter_than(&steps(0, 5)));
    assert!(!steps(0, 5).shorter_than(&steps(7, 0)));
    // 1 against √2
    assert!(steps(1, 0).shorter_than(&steps(0, 1)));
    // 3 against 2·√2
    assert!(!steps(3, 0).shorter_than(&steps(0, 2)));
}

#[test]
fn close_calls_are_decided_exactly() {
    // 99·√2 = 140.007 against 140
    assert!(steps(140, 0).shorter_than(&steps(0, 99)));
    // 1393 against 985·√2 = 1393.0004
    assert!(steps(1393, 0).shorter_than(&steps(0, 985)));
    // 33461·√2 = 47321.00001 against 47321
    assert!(steps(47321, 0).shorter_than(&steps(0, 33461)));
    assert!(!steps(0, 33461).shorter_than(&steps(47321, 0)));
    // 47321 against 33460·√2 = 47319.6
    assert!(steps(0, 33460).shorter_than(&steps(47321, 0)));
}

#[test]
fn largest_counts_do_not_overflow() {
    let m = u32::MAX;
    assert!(steps(0, 0).shorter_than(&steps(m, m)));
    assert!(!steps(m, m).shorter_than(&steps(0, 0)));
    assert!(steps(m, 0).shorter_than(&steps(0, m)));
    assert!(!steps(0, m).shorter_than(&steps(m, 0)));
}

#[test]
fn extended_adds_both_counts() {
    assert_eq!(steps(3, 4).extended(&steps(1, 0)), steps(4, 4));
    assert_eq!(steps(3, 4).extended(&steps(0, 1)), steps(3, 5));
    assert_eq!(Steps::zero(), steps(0, 0));
}

#[test]
fn sight_against_path() {
    // √25 - 0.1 = 4.9
    assert!(sight_is_below_path(25, &steps(5, 0)));
    assert!(sight_is_below_path(25, &steps(1, 3)));
    assert!(!sight_is_below_path(25, &steps(4, 0)));
    assert!(!sight_is_below_path(25, &steps(2, 2)));
    // √2 - 0.1 = 1.31 against √2 and against 1
    assert!(sight_is_below_path(2, &steps(0, 1)));
    assert!(!sight_is_below_path(2, &steps(1, 0)));
    // √1 - 0.1 = 0.9 against nothing
    assert!(!sight_is_below_path(1, &steps(0, 0)));
}

#[test]
fn sight_range_ends_between_906_and_907() {
    assert!(!sight_is_out_of_range(0));
    assert!(!sight_is_out_of_range(900));
    assert!(!sight_is_out_of_range(906));
    assert!(sight_is_out_of_range(907));
    assert!(sight_is_out_of_range(u32::MAX));
}

#[test]
fn unreached_is_farther_than_everything() {
    assert!(Distance::Unreached.farther_than_path(&steps(1000, 1000)));
    assert!(Distance::Unreached.farther_than_sight(1_000_000));
}

#[test]
fn path_distance_against_offers() {
    let d = Distance::Path(steps(3, 0));
    assert!(d.farther_than_path(&steps(0, 2)));
    assert!(!d.farther_than_path(&steps(3, 0)));
    assert!(!d.farther_than_path(&steps(2, 1)));
    // √9 - 0.1 = 2.9 against 3
    assert!(d.farther_than_sight(9));
    // √10 - 0.1 = 3.06 against 3
    assert!(!d.farther_than_sight(10));
}

#[test]
fn sight_distance_against_offers() {
    let d = Distance::Sight(25);
    assert!(d.farther_than_sight(24));
    assert!(!d.farther_than_sight(25));
    assert!(!d.farther_than_sight(26));
    // 4.9 against 4 and against 5
    assert!(d.farther_than_path(&steps(4, 0)));
    assert!(!d.farther_than_path(&steps(5, 0)));
}

#[test]
fn path_against_sight() {
    // √25 - 0.1 = 4.9
    assert!(path_is_below_sight(25, &steps(4, 0)));
    assert!(path_is_below_sight(25, &steps(2, 2)));
    assert!(!path_is_below_sight(25, &steps(5, 0)));
    assert!(!path_is_below_sight(25, &steps(1, 3)));
    // nothing is below a line of length zero
    assert!(!path_is_below_sight(0, &steps(0, 0)));
    // √2 - 0.1 = 1.31 against 1 and against √2
    assert!(path_is_below_sight(2, &steps(1, 0)));
    assert!(!path_is_below_sight(2, &steps(0, 1)));
}

#[test]
fn a_path_and_a_line_are_never_both_below_each_other() {
    for n in 0..200u32 {
        for a in 0..15u32 {
            for b in 0..11u32 {
                let s = steps(a, b);
                let below = sight_is_below_path(n, &s);
                let above = path_is_below_sight(n, &s);
                assert!(!(below && above));
                let line = (n as f64).sqrt() - 0.1;
                let path = a as f64 + b as f64 * std::f64::consts::SQRT_2;
                if (line - path).abs() > 1e-9 {
                    assert_eq!(below, line < path);
                    assert_eq!(above, path < line);
                }
            }
        }
    }
}

#[test]
fn lengths_are_ordered_like_the_numbers_they_stand_for() {
    for a in 0..12u32 {
        for b in 0..12u32 {
            for c in 0..12u32 {
                for d in 0..12u32 {
                    let left = a as f64 + b as f64 * std::f64::consts::SQRT_2;
                    let right = c as f64 + d as f64 * std::f64::consts::SQRT_2;
                    let shorter = steps(a, b).shorter_than(&steps(c, d));
                    if (a, b) == (c, d) {
                        assert!(!shorter);
                    } else {
                        assert_eq!(shorter, left < right);
                    }
                }
            }
        }
    }
}
