//! The direction a cell sends its agents in, and the bit that stands for each
//! compass direction in a connectivity mask.

use crate::distance::{Distance, Steps};
use vstd::prelude::*;

verus! {

/// What a cell of a flow field tells an agent standing on it.
///
/// `Unreachable` marks a cell no target can be reached from: agents never enter it.
/// `Source` is a target cell. `LineOfSight(dx, dy)` holds the offset, in cells,
/// from the cell to the target it sees; the agent walks straight along it. The
/// other eight are compass directions, with north towards growing `y` and east
/// towards growing `x`.
#[derive(Clone, Copy, Debug, PartialEq, Eq, Structural)]
pub enum Flow {
    Unreachable,
    Source,
    LineOfSight(i32, i32),
    North,
    East,
    South,
    West,
    NorthEast,
    SouthEast,
    SouthWest,
    NorthWest,
}

/// One cell of a flow field: how far the target is, and which way to go.
#[derive(Clone, Copy, Debug, PartialEq, Eq, Structural)]
pub struct FlowCell {
    pub distance: Distance,
    pub flow: Flow,
}

/// The offset of the cell a compass direction leads to; zero for the other kinds.
pub open spec fn compass_offset(flow: Flow) -> (int, int) {
    match flow {
        Flow::North => (0, 1),
        Flow::East => (1, 0),
        Flow::South => (0, -1),
        Flow::West => (-1, 0),
        Flow::NorthEast => (1, 1),
        Flow::SouthEast => (1, -1),
        Flow::SouthWest => (-1, -1),
        Flow::NorthWest => (-1, 1),
        _ => (0, 0),
    }
}

/// The cell that an agent following `flow` arrives from: one step against the direction.
pub open spec fn neighbor_of(cell: (int, int), flow: Flow) -> (int, int) {
    (cell.0 - compass_offset(flow).0, cell.1 - compass_offset(flow).1)
}

/// The cell that an agent following `flow` steps to.
pub open spec fn ahead_of(cell: (int, int), flow: Flow) -> (int, int) {
    (cell.0 + compass_offset(flow).0, cell.1 + compass_offset(flow).1)
}

/// Whether the bit of `flow` is set in the connectivity mask `mask`.
pub open spec fn has_direction(mask: u8, flow: Flow) -> bool {
    mask & flow.spec_mask() != 0
}

/// The connectivity bits a line of sight with offset `(dx, dy)` from its target
/// needs: the two straight directions of its quadrant and the diagonal between
/// them. A line along an axis needs none.
pub open spec fn quadrant_mask(dx: int, dy: int) -> u8 {
    if dx > 0 && dy > 0 {
        0x13
    } else if dx < 0 && dy > 0 {
        0x89
    } else if dx > 0 && dy < 0 {
        0x26
    } else if dx < 0 && dy < 0 {
        0x4c
    } else {
        0
    }
}

impl Flow {
    /// One of the eight compass directions.
    pub open spec fn is_compass(self) -> bool {
        !(self is Unreachable || self is Source || self is LineOfSight)
    }

    /// One of the four diagonal compass directions.
    pub open spec fn is_diagonal(self) -> bool {
        self is NorthEast || self is SouthEast || self is SouthWest || self is NorthWest
    }

    /// One of the four straight compass directions.
    pub open spec fn is_cardinal(self) -> bool {
        self is North || self is East || self is South || self is West
    }

    /// The bit of this direction in a connectivity mask; zero for the kinds that
    /// are no compass direction.
    pub open spec fn spec_mask(&self) -> u8 {
        match *self {
            Flow::North => 0x01,
            Flow::East => 0x02,
            Flow::South => 0x04,
            Flow::West => 0x08,
            Flow::NorthEast => 0x10,
            Flow::SouthEast => 0x20,
            Flow::SouthWest => 0x40,
            Flow::NorthWest => 0x80,
            _ => 0,
        }
    }

    /// The length of one step in this direction; the empty path for the other kinds.
    pub open spec fn step(self) -> Steps {
        if self.is_cardinal() {
            Steps { straight: 1, diagonal: 0 }
        } else if self.is_diagonal() {
            Steps { straight: 0, diagonal: 1 }
        } else {
            Steps { straight: 0, diagonal: 0 }
        }
    }

    /// The bit of this direction in a connectivity mask; zero for `Unreachable`,
    /// `Source` and `LineOfSight`.
    #[verifier::when_used_as_spec(spec_mask)]
    pub fn mask(&self) -> (m: u8)
        ensures
            m == self.spec_mask(),
    {
        match self {
            Flow::Unreachable => 0,
            Flow::Source => 0,
            Flow::LineOfSight(_, _) => 0,
            Flow::North => 0b0000_0001,
            Flow::East => 0b0000_0010,
            Flow::South => 0b0000_0100,
            Flow::West => 0b0000_1000,
            Flow::NorthEast => 0b0001_0000,
            Flow::SouthEast => 0b0010_0000,
            Flow::SouthWest => 0b0100_0000,
            Flow::NorthWest => 0b1000_0000,
        }
    }

    /// The vector an agent on such a cell moves along, not normalised: a compass
    /// offset, or the offset to the target in sight. Zero for `Unreachable` and `Source`.
    pub fn to_dir(self) -> (d: (i32, i32))
        ensures
            self.is_compass() ==> (d.0 as int, d.1 as int) == compass_offset(self),
            self matches Flow::LineOfSight(dx, dy) ==> d == (dx, dy),
            (self is Unreachable || self is Source) ==> d == (0i32, 0i32),
    {
        match self {
            Flow::Unreachable | Flow::Source => (0, 0),
            Flow::North => (0, 1),
            Flow::NorthEast => (1, 1),
            Flow::East => (1, 0),
            Flow::SouthEast => (1, -1),
            Flow::South => (0, -1),
            Flow::SouthWest => (-1, -1),
            Flow::West => (-1, 0),
            Flow::NorthWest => (-1, 1),
            Flow::LineOfSight(dx, dy) => (dx, dy),
        }
    }

    /// The length of one step in this direction: one for the straight
    /// directions, √2 for the diagonals, nothing for the other kinds.
    pub fn distance(self) -> (s: Steps)
        ensures
            s == self.step(),
    {
        match self {
            Flow::Unreachable | Flow::Source | Flow::LineOfSight(_, _) => Steps { straight: 0, diagonal: 0 },
            Flow::North | Flow::East | Flow::South | Flow::West => Steps {
                straight: 1,
                diagonal: 0,
            },
            Flow::NorthEast | Flow::SouthEast | Flow::SouthWest | Flow::NorthWest => Steps {
                straight: 0,
                diagonal: 1,
            },
        }
    }

    /// The connectivity bits that a cell must have for a line of sight with
    /// offset `(dx, dy)` from its target to pass through its corner.
    pub fn approx_mask(dx: i32, dy: i32) -> (m: u8)
        ensures
            m == quadrant_mask(dx as int, dy as int),
    {
        let mut m: u8 = 0;
        if dx > 0 && dy > 0 {
            m = Flow::East.mask() | Flow::North.mask() | Flow::NorthEast.mask();
            assert(0x02u8 | 0x01u8 | 0x10u8 == 0x13u8) by (bit_vector);
        } else if dx < 0 && dy > 0 {
            m = Flow::West.mask() | Flow::North.mask() | Flow::NorthWest.mask();
            assert(0x08u8 | 0x01u8 | 0x80u8 == 0x89u8) by (bit_vector);
        } else if dx > 0 && dy < 0 {
            m = Flow::East.mask() | Flow::South.mask() | Flow::SouthEast.mask();
            assert(0x02u8 | 0x04u8 | 0x20u8 == 0x26u8) by (bit_vector);
        } else if dx < 0 && dy < 0 {
            m = Flow::West.mask() | Flow::South.mask() | Flow::SouthWest.mask();
            assert(0x08u8 | 0x04u8 | 0x40u8 == 0x4cu8) by (bit_vector);
        }
        m
    }

    /// The eight compass directions, the straight ones first.
    pub fn directionals() -> (d: [Flow; 8])
        ensures
            d@ == seq![
                Flow::North,
                Flow::East,
                Flow::South,
                Flow::West,
                Flow::NorthEast,
                Flow::SouthEast,
                Flow::SouthWest,
                Flow::NorthWest,
            ],
    {
        [
            Flow::North,
            Flow::East,
            Flow::South,
            Flow::West,
            Flow::NorthEast,
            Flow::SouthEast,
            Flow::SouthWest,
            Flow::NorthWest,
        ]
    }
}

impl Default for Flow {
    fn default() -> (f: Flow)
        ensures
            f == Flow::Unreachable,
    {
        Flow::Unreachable
    }
}

/// The cell from which a step in direction `flow` leads to `idx`: the neighbour
/// on the opposite side.
pub fn neighbor_idx(idx: [usize; 2], flow: Flow) -> (n: [usize; 2])
    requires
        flow.is_compass(),
        0 <= neighbor_of((idx[0] as int, idx[1] as int), flow).0 <= usize::MAX,
        0 <= neighbor_of((idx[0] as int, idx[1] as int), flow).1 <= usize::MAX,
    ensures
        (n[0] as int, n[1] as int) == neighbor_of((idx[0] as int, idx[1] as int), flow),
{
    let x = idx[0];
    let y = idx[1];
    match flow {
        Flow::North => [x, y - 1],
        Flow::East => [x - 1, y],
        Flow::South => [x, y + 1],
        Flow::West => [x + 1, y],
        Flow::NorthEast => [x - 1, y - 1],
        Flow::SouthEast => [x - 1, y + 1],
        Flow::SouthWest => [x + 1, y + 1],
        Flow::NorthWest => [x + 1, y - 1],
        _ => [x, y],
    }
}

/// Setting the bit of one direction in a mask adds that direction and no other.
pub proof fn lemma_mask_insert(mask: u8, added: Flow, asked: Flow)
    requires
        added.is_compass(),
        asked.is_compass(),
    ensures
        has_direction(mask | added.spec_mask(), asked) == (asked == added || has_direction(
            mask,
            asked,
        )),
{
    assert(forall|m: u8, a: u8, b: u8|
        (a == 1 || a == 2 || a == 4 || a == 8 || a == 16 || a == 32 || a == 64 || a == 128) && (b
            == 1 || b == 2 || b == 4 || b == 8 || b == 16 || b == 32 || b == 64 || b == 128) ==> (((
        m | a) & b != 0) == (a == b || m & b != 0))) by (bit_vector);
}

/// The empty mask has no direction.
pub proof fn lemma_mask_empty(asked: Flow)
    ensures
        !has_direction(0, asked),
{
    assert(forall|b: u8| 0u8 & b == 0) by (bit_vector);
}

/// A mask covers the bits of a quadrant exactly when it has its three directions.
pub proof fn lemma_quadrant_mask(mask: u8, dx: int, dy: int)
    ensures
        (mask & quadrant_mask(dx, dy) == quadrant_mask(dx, dy)) == ({
            &&& (dx > 0 && dy != 0 ==> has_direction(mask, Flow::East))
            &&& (dx < 0 && dy != 0 ==> has_direction(mask, Flow::West))
            &&& (dy > 0 && dx != 0 ==> has_direction(mask, Flow::North))
            &&& (dy < 0 && dx != 0 ==> has_direction(mask, Flow::South))
            &&& (dx > 0 && dy > 0 ==> has_direction(mask, Flow::NorthEast))
            &&& (dx > 0 && dy < 0 ==> has_direction(mask, Flow::SouthEast))
            &&& (dx < 0 && dy < 0 ==> has_direction(mask, Flow::SouthWest))
            &&& (dx < 0 && dy > 0 ==> has_direction(mask, Flow::NorthWest))
        }),
{
    assert(forall|m: u8|
        (m & 0x13 == 0x13) == (m & 0x02 != 0 && m & 0x01 != 0 && m & 0x10 != 0)) by (bit_vector);
    assert(forall|m: u8|
        (m & 0x89 == 0x89) == (m & 0x08 != 0 && m & 0x01 != 0 && m & 0x80 != 0)) by (bit_vector);
    assert(forall|m: u8|
        (m & 0x26 == 0x26) == (m & 0x02 != 0 && m & 0x04 != 0 && m & 0x20 != 0)) by (bit_vector);
    assert(forall|m: u8|
        (m & 0x4c == 0x4c) == (m & 0x08 != 0 && m & 0x04 != 0 && m & 0x40 != 0)) by (bit_vector);
    assert(forall|m: u8| m & 0 == 0) by (bit_vector);
}

} // verus!
