//! A sparse index of agents by cell: only cells that hold an agent have a
//! bucket. It answers the same questions as the dense index and takes its place
//! where a level is large and mostly empty.

use crate::spatial::{BUCKET_CAPACITY, DEFAULT_CELL_CAPACITY, Placed};
use std::collections::HashMap;
use vstd::prelude::*;

verus! {

broadcast use vstd::std_specs::hash::group_hash_axioms;

/// The sparse index of agents by cell.
pub struct SpatialStructure {
    grid: HashMap<u64, Vec<u64>>,
}

/// The number a cell is filed under: its two coordinates side by side.
pub open spec fn cell_key(x: int, y: int) -> int {
    (x + 0x8000_0000) * 0x1_0000_0000 + (y + 0x8000_0000)
}

/// A coordinate of a cell: never beyond what 32 bits with a sign can hold.
pub open spec fn cell_coordinate(c: int) -> int {
    if c > 0x7fff_ffff {
        0x7fff_ffff
    } else {
        c
    }
}

/// The offsets of the cells of the block of three by three cells around a
/// cell, row by row from the north; the cell itself is the one in the middle.
pub open spec fn block_offsets() -> Seq<(int, int)> {
    seq![(-1, 1), (0, 1), (1, 1), (-1, 0), (0, 0), (1, 0), (-1, -1), (0, -1), (1, -1)]
}

/// What the sparse index is, as mathematics: the bucket of every cell that has one.
pub struct SparseModel {
    pub buckets: Map<(int, int), Seq<u64>>,
}

impl SparseModel {
    /// The agents in the cell `p`; none when the cell has no bucket.
    pub open spec fn at(self, p: (int, int)) -> Seq<u64> {
        if self.buckets.dom().contains(p) {
            self.buckets[p]
        } else {
            Seq::empty()
        }
    }

    /// The index after an agent was offered to it: its cell has a bucket, and the
    /// agent is at the end of it unless the bucket was full.
    pub open spec fn inserted(self, agent: Placed) -> SparseModel {
        let p = (cell_coordinate(agent.cx as int), cell_coordinate(agent.cy as int));
        SparseModel {
            buckets: self.buckets.insert(
                p,
                if self.at(p).len() < BUCKET_CAPACITY {
                    self.at(p).push(agent.id)
                } else {
                    self.at(p)
                },
            ),
        }
    }
}

/// Different cells are filed under different numbers.
pub proof fn lemma_cell_key_injective(a: (int, int), b: (int, int))
    requires
        -0x8000_0000 <= a.0 <= 0x7fff_ffff,
        -0x8000_0000 <= a.1 <= 0x7fff_ffff,
        -0x8000_0000 <= b.0 <= 0x7fff_ffff,
        -0x8000_0000 <= b.1 <= 0x7fff_ffff,
        cell_key(a.0, a.1) == cell_key(b.0, b.1),
    ensures
        a == b,
{
}

fn key_of(x: i32, y: i32) -> (k: u64)
    ensures
        k == cell_key(x as int, y as int),
{
    let high: u64 = (x as i64 + 0x8000_0000) as u64;
    let low: u64 = (y as i64 + 0x8000_0000) as u64;
    high * 0x1_0000_0000 + low
}

fn coordinate_of(c: usize) -> (x: i32)
    ensures
        x == cell_coordinate(c as int),
{
    if c > 0x7fff_ffff {
        0x7fff_ffff
    } else {
        c as i32
    }
}

impl View for SpatialStructure {
    type V = SparseModel;

    closed spec fn view(&self) -> SparseModel {
        SparseModel {
            buckets: Map::new(
                |p: (int, int)|
                    -0x8000_0000 <= p.0 <= 0x7fff_ffff && -0x8000_0000 <= p.1 <= 0x7fff_ffff
                        && self.grid@.dom().contains(cell_key(p.0, p.1) as u64),
                |p: (int, int)| self.grid@[cell_key(p.0, p.1) as u64]@,
            ),
        }
    }
}

impl SpatialStructure {
    /// Only cells whose coordinates fit 32 bits with a sign have a bucket.
    pub proof fn lemma_cells_in_range(&self, p: (int, int))
        ensures
            self@.buckets.dom().contains(p) ==> -0x8000_0000 <= p.0 <= 0x7fff_ffff && -0x8000_0000
                <= p.1 <= 0x7fff_ffff,
    {
    }

    /// An index without any bucket.
    pub fn new() -> (s: SpatialStructure)
        ensures
            s@.buckets == Map::<(int, int), Seq<u64>>::empty(),
    {
        let s = SpatialStructure { grid: HashMap::new() };
        s
    }

    /// Drops every bucket.
    pub fn reset(&mut self)
        ensures
            final(self)@.buckets == Map::<(int, int), Seq<u64>>::empty(),
    {
        self.grid.clear();
    }

    /// Puts an agent into the bucket of its cell, which is made if the cell
    /// has none. Returns whether the agent was taken: a bucket that holds
    /// `BUCKET_CAPACITY` agents takes no more.
    pub fn insert(&mut self, agent: Placed) -> (stored: bool)
        ensures
            final(self)@ == old(self)@.inserted(agent),
            stored == (old(self)@.at(
                (cell_coordinate(agent.cx as int), cell_coordinate(agent.cy as int)),
            ).len() < BUCKET_CAPACITY),
    {
        let x = coordinate_of(agent.cx);
        let y = coordinate_of(agent.cy);
        let key = key_of(x, y);
        let ghost p = (x as int, y as int);
        let mut bucket = match self.grid.remove(&key) {
            Some(bucket) => bucket,
            None => Vec::with_capacity(DEFAULT_CELL_CAPACITY),
        };
        let stored = bucket.len() < BUCKET_CAPACITY;
        if stored {
            bucket.push(agent.id);
        }
        self.grid.insert(key, bucket);
        proof {
            let want = old(self)@.inserted(agent).buckets;
            assert forall|q: (int, int)| self@.buckets.dom().contains(q) <==> want.dom().contains(
                q,
            ) by {
                if -0x8000_0000 <= q.0 <= 0x7fff_ffff && -0x8000_0000 <= q.1 <= 0x7fff_ffff {
                    if cell_key(q.0, q.1) == cell_key(p.0, p.1) {
                        lemma_cell_key_injective(q, p);
                    }
                }
            }
            assert forall|q: (int, int)| self@.buckets.dom().contains(q) implies self@.buckets[q]
                == want[q] by {
                if cell_key(q.0, q.1) == cell_key(p.0, p.1) {
                    lemma_cell_key_injective(q, p);
                }
            }
            assert(self@.buckets =~= want);
        }
        stored
    }

    /// The agents in the cell `(x, y)`, if the cell has a bucket.
    pub fn bucket(&self, x: i32, y: i32) -> (items: Option<&Vec<u64>>)
        ensures
            items matches Some(list) ==> self@.buckets.dom().contains((x as int, y as int))
                && list@ == self@.buckets[(x as int, y as int)],
            items is None ==> !self@.buckets.dom().contains((x as int, y as int)),
    {
        let key = key_of(x, y);
        self.grid.get(&key)
    }

    /// The buckets of the block of three by three cells around the cell
    /// `(x, y)`, row by row from the north. The bucket of the cell itself is the
    /// fifth, so agents that stand in one cell find each other.
    pub fn neighbors(&self, x: i32, y: i32) -> (around: [Option<&Vec<u64>>; 9])
        requires
            i32::MIN < x < i32::MAX,
            i32::MIN < y < i32::MAX,
        ensures
            forall|k: int|
                0 <= k < 9 ==> {
                    let p = (x + block_offsets()[k].0, y + block_offsets()[k].1);
                    match #[trigger] around[k] {
                        Some(list) => self@.buckets.dom().contains(p) && list@ == self@.buckets[p],
                        None => !self@.buckets.dom().contains(p),
                    }
                },
    {
        [
            self.bucket(x - 1, y + 1),
            self.bucket(x, y + 1),
            self.bucket(x + 1, y + 1),
            self.bucket(x - 1, y),
            self.bucket(x, y),
            self.bucket(x + 1, y),
            self.bucket(x - 1, y - 1),
            self.bucket(x, y - 1),
            self.bucket(x + 1, y - 1),
        ]
    }
}

} // verus!
