//! What every index of agents by cell offers, whatever it is built on: it can
//! be emptied, it takes agents, and it tells which agents stand in the block of
//! three by three cells around a cell. Callers written against this trait
//! work with the dense index and with the sparse one alike.

use crate::spatial::{BUCKET_CAPACITY, cell_number, Placed};
use vstd::prelude::*;

verus! {

/// A coordinate cut off at the last cell that an index tells apart.
pub open spec fn cut_off(c: int, edge: int) -> int {
    if c > edge {
        edge
    } else {
        c
    }
}

/// An index of agents by the cell of the level they stand in.
pub trait SpatialIndex: Sized {
    /// The invariant of the index.
    spec fn usable(&self) -> bool;

    /// The last coordinate that the index tells apart: an agent beyond it is
    /// filed under it.
    spec fn edge(&self) -> int;

    /// The agents filed under the cell `(cx, cy)`, in the order they came.
    spec fn filed(&self, cx: int, cy: int) -> Seq<u64>;

    /// The agents of one row of the block around the cell `(x, y)`.
    open spec fn row_around(&self, x: int, y: int) -> Seq<u64> {
        self.filed(x - 1, y) + self.filed(x, y) + self.filed(x + 1, y)
    }

    /// The agents of the block of three by three cells around the cell `(x, y)`.
    open spec fn around(&self, x: int, y: int) -> Seq<u64> {
        self.row_around(x, y - 1) + self.row_around(x, y) + self.row_around(x, y + 1)
    }

    /// Empties the index.
    fn reset(&mut self)
        requires
            old(self).usable(),
        ensures
            final(self).usable(),
            final(self).edge() == old(self).edge(),
            forall|cx: int, cy: int| #[trigger] final(self).filed(cx, cy) == Seq::<u64>::empty(),
    ;

    /// Files an agent under its cell, unless `BUCKET_CAPACITY` agents are
    /// filed there already. Returns whether the agent was taken. No other
    /// cell changes.
    fn insert(&mut self, agent: Placed) -> (stored: bool)
        requires
            old(self).usable(),
        ensures
            final(self).usable(),
            final(self).edge() == old(self).edge(),
            stored == (old(self).filed(
                cut_off(agent.cx as int, old(self).edge()),
                cut_off(agent.cy as int, old(self).edge()),
            ).len() < BUCKET_CAPACITY),
            final(self).filed(
                cut_off(agent.cx as int, old(self).edge()),
                cut_off(agent.cy as int, old(self).edge()),
            ) == if stored {
                old(self).filed(
                    cut_off(agent.cx as int, old(self).edge()),
                    cut_off(agent.cy as int, old(self).edge()),
                ).push(agent.id)
            } else {
                old(self).filed(
                    cut_off(agent.cx as int, old(self).edge()),
                    cut_off(agent.cy as int, old(self).edge()),
                )
            },
            forall|cx: int, cy: int|
                !(cx == cut_off(agent.cx as int, old(self).edge()) && cy == cut_off(
                    agent.cy as int,
                    old(self).edge(),
                )) ==> #[trigger] final(self).filed(cx, cy) == old(self).filed(cx, cy),
    ;

    /// The agents in the block of three by three cells around the cell
    /// `(cx, cy)`: row by row from the south, each row from the west.
    fn nearby(&self, cx: usize, cy: usize) -> (found: Vec<u64>)
        requires
            self.usable(),
        ensures
            found@ == self.around(cut_off(cx as int, self.edge()), cut_off(cy as int, self.edge())),
    ;
}

/// The agents of a list that an index which tells coordinates apart up to
/// `edge` files under the cell `(cx, cy)` when it takes them one after the other:
/// those that stand in the cell, in their order, as far as the bucket has room.
pub open spec fn filing(agents: Seq<Placed>, edge: int, cx: int, cy: int) -> Seq<u64>
    decreases agents.len(),
{
    if agents.len() == 0 {
        Seq::empty()
    } else {
        let before = filing(agents.drop_last(), edge, cx, cy);
        let agent = agents.last();
        if cut_off(agent.cx as int, edge) == cx && cut_off(agent.cy as int, edge) == cy
            && before.len() < BUCKET_CAPACITY {
            before.push(agent.id)
        } else {
            before
        }
    }
}

/// How many agents of a list such an index leaves out because the bucket of their
/// cell is full when their turn comes.
pub open spec fn left_out(agents: Seq<Placed>, edge: int) -> nat
    decreases agents.len(),
{
    if agents.len() == 0 {
        0
    } else {
        let agent = agents.last();
        left_out(agents.drop_last(), edge) + if filing(
            agents.drop_last(),
            edge,
            cut_off(agent.cx as int, edge),
            cut_off(agent.cy as int, edge),
        ).len() < BUCKET_CAPACITY {
            0nat
        } else {
            1nat
        }
    }
}

/// Empties an index and files the agents of a tick. Returns how many agents
/// were left out because the bucket of their cell was full.
pub fn rebuild<T: SpatialIndex>(index: &mut T, agents: &Vec<Placed>) -> (dropped: usize)
    requires
        old(index).usable(),
    ensures
        final(index).usable(),
        final(index).edge() == old(index).edge(),
        forall|cx: int, cy: int| #[trigger]
            final(index).filed(cx, cy) == filing(agents@, old(index).edge(), cx, cy),
        dropped == left_out(agents@, old(index).edge()),
{
    index.reset();
    let ghost edge = index.edge();
    let mut dropped: usize = 0;
    let mut i: usize = 0;
    while i < agents.len()
        invariant
            0 <= i <= agents.len(),
            index.usable(),
            index.edge() == edge,
            dropped <= i,
            dropped == left_out(agents@.take(i as int), edge),
            forall|cx: int, cy: int| #[trigger]
                index.filed(cx, cy) == filing(agents@.take(i as int), edge, cx, cy),
        decreases agents.len() - i,
    {
        let ghost before = *index;
        let stored = index.insert(agents[i]);
        if !stored {
            dropped += 1;
        }
        proof {
            let longer = agents@.take(i + 1);
            assert(longer.drop_last() == agents@.take(i as int));
            assert forall|cx: int, cy: int| #[trigger]
                index.filed(cx, cy) == filing(longer, edge, cx, cy) by {
            }
            let agent = agents@[i as int];
            assert(before.filed(cut_off(agent.cx as int, edge), cut_off(agent.cy as int, edge))
                == filing(
                agents@.take(i as int),
                edge,
                cut_off(agent.cx as int, edge),
                cut_off(agent.cy as int, edge),
            ));
        }
        i += 1;
    }
    assert(agents@.take(agents.len() as int) == agents@);
    dropped
}

/// Appends the agents of a list to `out`.
pub fn append_all(list: &[u64], out: &mut Vec<u64>)
    ensures
        final(out)@ == old(out)@ + list@,
{
    let mut k: usize = 0;
    while k < list.len()
        invariant
            0 <= k <= list.len(),
            out@ == old(out)@ + list@.take(k as int),
        decreases list.len() - k,
    {
        out.push(list[k]);
        k += 1;
    }
}

impl SpatialIndex for crate::spatial::SpatialStructure {
    open spec fn usable(&self) -> bool {
        self.wf()
    }

    open spec fn edge(&self) -> int {
        self@.size - 2
    }

    open spec fn filed(&self, cx: int, cy: int) -> Seq<u64> {
        if 0 <= cx <= self@.size - 2 && 0 <= cy <= self@.size - 2 {
            self@.buckets[cell_number(self@.size, cx, cy)]
        } else {
            Seq::empty()
        }
    }

    fn reset(&mut self) {
        crate::spatial::SpatialStructure::reset(self);
        proof {
            assert forall|cx: int, cy: int| #[trigger] self.filed(cx, cy) == Seq::<u64>::empty() by {
                if 0 <= cx <= self@.size - 2 && 0 <= cy <= self@.size - 2 {
                    crate::spatial::lemma_cell_number_bounded(self@.size, cx, cy);
                }
            }
        }
    }

    fn insert(&mut self, agent: Placed) -> (stored: bool) {
        let stored = crate::spatial::SpatialStructure::insert(self, agent);
        proof {
            let size = self@.size;
            let x = cut_off(agent.cx as int, size - 2);
            let y = cut_off(agent.cy as int, size - 2);
            crate::spatial::lemma_cell_number_bounded(size, x, y);
            crate::spatial::lemma_cell_numbers_differ(size);
            assert forall|cx: int, cy: int| !(cx == x && cy == y) implies #[trigger] self.filed(
                cx,
                cy,
            ) == old(self).filed(cx, cy) by {
                if 0 <= cx <= size - 2 && 0 <= cy <= size - 2 {
                    crate::spatial::lemma_cell_number_bounded(size, cx, cy);
                }
            }
        }
        stored
    }

    fn nearby(&self, cx: usize, cy: usize) -> (found: Vec<u64>) {
        let edge = self.size() - 2;
        let x = if cx > edge {
            edge
        } else {
            cx
        };
        let y = if cy > edge {
            edge
        } else {
            cy
        };
        let mut found: Vec<u64> = Vec::new();
        let mut row: usize = 0;
        while row < 3
            invariant
                self.wf(),
                edge == self@.size - 2,
                x <= edge,
                y <= edge,
                0 <= row <= 3,
                found@ == if row == 0 {
                    Seq::<u64>::empty()
                } else if row == 1 {
                    self.row_around(x as int, y - 1)
                } else if row == 2 {
                    self.row_around(x as int, y - 1) + self.row_around(x as int, y as int)
                } else {
                    self.around(x as int, y as int)
                },
            decreases 3 - row,
        {
            let ghost before = found@;
            let ghost at = y + row - 1;
            let mut col: usize = 0;
            while col < 3
                invariant
                    self.wf(),
                    edge == self@.size - 2,
                    x <= edge,
                    y <= edge,
                    0 <= row < 3,
                    0 <= col <= 3,
                    at == y + row - 1,
                    found@ == before + if col == 0 {
                        Seq::<u64>::empty()
                    } else if col == 1 {
                        self.filed(x - 1, at)
                    } else if col == 2 {
                        self.filed(x - 1, at) + self.filed(x as int, at)
                    } else {
                        self.row_around(x as int, at)
                    },
                decreases 3 - col,
            {
                if x + col >= 1 && x + col - 1 <= edge && y + row >= 1 && y + row - 1 <= edge {
                    let cell = self.pos_to_cell(x + col - 1, y + row - 1);
                    match self.bucket(cell) {
                        Some(list) => {
                            append_all(list, &mut found);
                        },
                        None => {},
                    }
                }
                col += 1;
            }
            row += 1;
        }
        found
    }
}

impl SpatialIndex for crate::spatial_hash::SpatialStructure {
    open spec fn usable(&self) -> bool {
        true
    }

    open spec fn edge(&self) -> int {
        0x7fff_ffff
    }

    open spec fn filed(&self, cx: int, cy: int) -> Seq<u64> {
        self@.at((cx, cy))
    }

    fn reset(&mut self) {
        crate::spatial_hash::SpatialStructure::reset(self);
    }

    fn insert(&mut self, agent: Placed) -> (stored: bool) {
        crate::spatial_hash::SpatialStructure::insert(self, agent)
    }

    fn nearby(&self, cx: usize, cy: usize) -> (found: Vec<u64>) {
        let x: i64 = if cx > 0x7fff_ffff {
            0x7fff_ffff
        } else {
            cx as i64
        };
        let y: i64 = if cy > 0x7fff_ffff {
            0x7fff_ffff
        } else {
            cy as i64
        };
        let mut found: Vec<u64> = Vec::new();
        let mut row: i64 = -1;
        while row <= 1
            invariant
                0 <= x <= 0x7fff_ffff,
                0 <= y <= 0x7fff_ffff,
                -1 <= row <= 2,
                found@ == if row == -1 {
                    Seq::<u64>::empty()
                } else if row == 0 {
                    self.row_around(x as int, y - 1)
                } else if row == 1 {
                    self.row_around(x as int, y - 1) + self.row_around(x as int, y as int)
                } else {
                    self.around(x as int, y as int)
                },
            decreases 2 - row,
        {
            let ghost before = found@;
            let mut col: i64 = -1;
            while col <= 1
                invariant
                    0 <= x <= 0x7fff_ffff,
                    0 <= y <= 0x7fff_ffff,
                    -1 <= row <= 1,
                    -1 <= col <= 2,
                    found@ == before + if col == -1 {
                        Seq::<u64>::empty()
                    } else if col == 0 {
                        self.filed(x - 1, y + row)
                    } else if col == 1 {
                        self.filed(x - 1, y + row) + self.filed(x as int, y + row)
                    } else {
                        self.row_around(x as int, y + row)
                    },
                decreases 2 - col,
            {
                proof {
                    self.lemma_cells_in_range((x + col, y + row));
                }
                if x + col <= 0x7fff_ffff && y + row <= 0x7fff_ffff {
                    match self.bucket((x + col) as i32, (y + row) as i32) {
                        Some(list) => {
                            append_all(list.as_slice(), &mut found);
                        },
                        None => {},
                    }
                }
                col += 1;
            }
            row += 1;
        }
        found
    }
}

} // verus!
