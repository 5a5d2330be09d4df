use crowd_flow::distance::Steps;
use crowd_flow::flow::{neighbor_idx, Flow};

#[test]
fn masks_are_single_bits() {
    assert_eq!(Flow::North.mask(), 0b0000_0001);
    assert_eq!(Flow::East.mask(), 0b0000_0010);
    assert_eq!(Flow::South.mask(), 0b0000_0100);
    assert_eq!(Flow::West.mask(), 0b0000_1000);
    assert_eq!(Flow::NorthEast.mask(), 0b0001_0000);
    assert_eq!(Flow::SouthEast.mask(), 0b0010_0000);
    assert_eq!(Flow::SouthWest.mask(), 0b0100_0000);
    assert_eq!(Flow::NorthWest.mask(), 0b1000_0000);
}

#[test]
fn masks_of_other_kinds_are_empty() {
    assert_eq!(Flow::Unreachable.mask(), 0);
    assert_eq!(Flow::Source.mask(), 0);
    assert_eq!(Flow::LineOfSight(3, -4).mask(), 0);
}

#[test]
fn directionals_come_straight_first_and_match_their_bits() {
    let all = Flow::directionals();
    assert_eq!(
        all,
        [
            Flow::North,
            Flow::East,
            Flow::South,
            Flow::West,
            Flow::NorthEast,
            Flow::SouthEast,
            Flow::SouthWest,
            Flow::NorthWest,
        ]
    );
    for (i, flow) in all.iter().enumerate() {
        assert_eq!(flow.mask(), 1u8 << i);
    }
}

#[test]
fn to_dir_of_compass_directions() {
    assert_eq!(Flow::North.to_dir(), (0, 1));
    assert_eq!(Flow::NorthEast.to_dir(), (1, 1));
    assert_eq!(Flow::East.to_dir(), (1, 0));
    assert_eq!(Flow::SouthEast.to_dir(), (1, -1));
    assert_eq!(Flow::South.to_dir(), (0, -1));
    assert_eq!(Flow::SouthWest.to_dir(), (-1, -1));
    assert_eq!(Flow::West.to_dir(), (-1, 0));
    assert_eq!(Flow::NorthWest.to_dir(), (-1, 1));
}

#[test]
fn to_dir_of_other_kinds() {
    assert_eq!(Flow::Unreachable.to_dir(), (0, 0));
    assert_eq!(Flow::Source.to_dir(), (0, 0));
    assert_eq!(Flow::LineOfSight(-7, 2).to_dir(), (-7, 2));
}

#[test]
fn step_lengths() {
    let straight = Steps { straight: 1, diagonal: 0 };
    let diagonal = Steps { straight: 0, diagonal: 1 };
    let nothing = Steps { straight: 0, diagonal: 0 };
    assert_eq!(Flow::North.distance(), straight);
    assert_eq!(Flow::East.distance(), straight);
    assert_eq!(Flow::South.distance(), straight);
    assert_eq!(Flow::West.distance(), straight);
    assert_eq!(Flow::NorthEast.distance(), diagonal);
    assert_eq!(Flow::SouthEast.distance(), diagonal);
    assert_eq!(Flow::SouthWest.distance(), diagonal);
    assert_eq!(Flow::NorthWest.distance(), diagonal);
    assert_eq!(Flow::Unreachable.distance(), nothing);
    assert_eq!(Flow::Source.distance(), nothing);
    assert_eq!(Flow::LineOfSight(1, 1).distance(), nothing);
}

#[test]
fn approx_mask_by_quadrant() {
    assert_eq!(
        Flow::approx_mask(2, 5),
        Flow::East.mask() | Flow::North.mask() | Flow::NorthEast.mask()
    );
    assert_eq!(
        Flow::approx_mask(-2, 5),
        Flow::West.mask() | Flow::North.mask() | Flow::NorthWest.mask()
    );
    assert_eq!(
        Flow::approx_mask(2, -5),
        Flow::East.mask() | Flow::South.mask() | Flow::SouthEast.mask()
    );
    assert_eq!(
        Flow::approx_mask(-2, -5),
        Flow::West.mask() | Flow::South.mask() | Flow::SouthWest.mask()
    );
}

#[test]
fn approx_mask_along_an_axis_is_empty() {
    assert_eq!(Flow::approx_mask(0, 5), 0);
    assert_eq!(Flow::approx_mask(0, -5), 0);
    assert_eq!(Flow::approx_mask(3, 0), 0);
    assert_eq!(Flow::approx_mask(-3, 0), 0);
    assert_eq!(Flow::approx_mask(0, 0), 0);
}

#[test]
fn neighbor_idx_goes_against_the_direction() {
    assert_eq!(neighbor_idx([5, 5], Flow::North), [5, 4]);
    assert_eq!(neighbor_idx([5, 5], Flow::East), [4, 5]);
    assert_eq!(neighbor_idx([5, 5], Flow::South), [5, 6]);
    assert_eq!(neighbor_idx([5, 5], Flow::West), [6, 5]);
    assert_eq!(neighbor_idx([5, 5], Flow::NorthEast), [4, 4]);
    assert_eq!(neighbor_idx([5, 5], Flow::SouthEast), [4, 6]);
    assert_eq!(neighbor_idx([5, 5], Flow::SouthWest), [6, 6]);
    assert_eq!(neighbor_idx([5, 5], Flow::NorthWest), [6, 4]);
}

#[test]
fn following_a_direction_undoes_neighbor_idx() {
    for flow in Flow::directionals() {
        let n = neighbor_idx([7, 9], flow);
        let d = flow.to_dir();
        assert_eq!(n[0] as i64 + d.0 as i64, 7);
        assert_eq!(n[1] as i64 + d.1 as i64, 9);
    }
}

#[test]
fn default_flow_is_unreachable() {
    assert_eq!(Flow::default(), Flow::Unreachable);
}
