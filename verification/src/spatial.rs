//! A uniform grid of buckets that answers which agents are near a place.
//!
//! The level is cut into square cells with a border cell on each side. Every
//! agent is put into the bucket of the cell it stands in. A query hands out
//! the block of three by three buckets around a cell. The index is emptied and
//! filled again on every tick.

use vstd::prelude::*;

verus! {

/// The most agents one bucket takes. Agents beyond that are left out of the
/// index: a crowded cell costs no more than a full one.
pub const BUCKET_CAPACITY: usize = 100;

/// The room a bucket is made with.
pub const DEFAULT_CELL_CAPACITY: usize = 16;

/// The largest number of cells along one side of the index, border included.
pub const MAX_SPATIAL_SIDE: usize = 4096;

/// An agent and the cell it stands in, counted from the corner of the level.
#[derive(Clone, Copy, Debug, PartialEq, Eq, Structural)]
pub struct Placed {
    pub id: u64,
    pub cx: usize,
    pub cy: usize,
}

/// The index of agents by cell.
pub struct SpatialStructure {
    size: usize,
    grid: Vec<Vec<u64>>,
}

/// What the index is, as mathematics: `size` cells along a side, and for each
/// cell, row after row, the agents in its bucket in the order they came.
pub struct SpatialModel {
    pub size: int,
    pub buckets: Seq<Seq<u64>>,
}

/// A coordinate inside the level: never beyond the last cell before the border.
pub open spec fn bounded_coordinate(size: int, c: int) -> int {
    if c > size - 2 {
        size - 2
    } else {
        c
    }
}

/// The bucket of the cell `(cx, cy)` of the level: one border cell is skipped in each direction.
pub open spec fn cell_number(size: int, cx: int, cy: int) -> int {
    bounded_coordinate(size, cx) + 1 + (bounded_coordinate(size, cy) + 1) * size
}

impl SpatialModel {
    /// There is a bucket for every cell, and none holds more than `BUCKET_CAPACITY` agents.
    pub open spec fn wf(self) -> bool {
        &&& 2 <= self.size <= MAX_SPATIAL_SIDE
        &&& self.buckets.len() == self.size * self.size
        &&& forall|i: int| 0 <= i < self.buckets.len() ==> (#[trigger] self.buckets[i]).len() <= BUCKET_CAPACITY
    }

    /// The index after an agent was offered to it: the agent is at the end of the bucket of
    /// its cell, unless that bucket is full.
    pub open spec fn inserted(self, agent: Placed) -> SpatialModel {
        let cell = cell_number(self.size, agent.cx as int, agent.cy as int);
        if self.buckets[cell].len() < BUCKET_CAPACITY {
            SpatialModel {
                size: self.size,
                buckets: self.buckets.update(cell, self.buckets[cell].push(agent.id)),
            }
        } else {
            self
        }
    }

    /// The index with every bucket empty.
    pub open spec fn emptied(self) -> SpatialModel {
        SpatialModel {
            size: self.size,
            buckets: Seq::new(self.buckets.len(), |i: int| Seq::<u64>::empty()),
        }
    }

    /// The index after the agents of a list were offered to it one after the other.
    pub open spec fn filled(self, agents: Seq<Placed>) -> SpatialModel
        decreases agents.len(),
    {
        if agents.len() == 0 {
            self
        } else {
            self.filled(agents.drop_last()).inserted(agents.last())
        }
    }

    /// Whether the index has room for the agent: the bucket of its cell is not full.
    pub open spec fn takes(self, agent: Placed) -> bool {
        self.buckets[cell_number(self.size, agent.cx as int, agent.cy as int)].len()
            < BUCKET_CAPACITY
    }

    /// How many agents of a list the index has no room for when they are
    /// offered to it one after the other.
    pub open spec fn refused(self, agents: Seq<Placed>) -> nat
        decreases agents.len(),
    {
        if agents.len() == 0 {
            0
        } else {
            self.refused(agents.drop_last()) + if self.filled(agents.drop_last()).takes(
                agents.last(),
            ) {
                0nat
            } else {
                1nat
            }
        }
    }

    /// Whether a query for the block around `cell` is answered: the cell lies
    /// after the first row and the block ends before the last bucket.
    pub open spec fn has_block(self, cell: int) -> bool {
        cell > self.size && cell + self.size < self.buckets.len() - 1
    }

    /// The bucket numbers of the block around `cell`, row by row.
    pub open spec fn block(self, cell: int) -> Seq<int> {
        seq![
            cell - self.size - 1,
            cell - self.size,
            cell - self.size + 1,
            cell - 1,
            cell,
            cell + 1,
            cell + self.size - 1,
            cell + self.size,
            cell + self.size + 1,
        ]
    }
}

/// The agents in the bucket `i`; none when there is no such bucket.
pub open spec fn bucket_or_empty(model: SpatialModel, i: int) -> Seq<u64> {
    if 0 <= i < model.buckets.len() {
        model.buckets[i]
    } else {
        Seq::empty()
    }
}

/// The agents of a list of buckets, one bucket after the other.
pub open spec fn gathered(model: SpatialModel, cells: Seq<int>) -> Seq<u64>
    decreases cells.len(),
{
    if cells.len() == 0 {
        Seq::empty()
    } else {
        gathered(model, cells.drop_last()) + bucket_or_empty(model, cells.last())
    }
}

/// Whether an agent is another than `id`.
pub open spec fn other_than(id: u64) -> spec_fn(u64) -> bool {
    |k: u64| k != id
}

/// The agents of the first `rows` buckets of a column of the block of
/// `2·d + 1` rows around the bucket `base`.
pub open spec fn stack(model: SpatialModel, base: int, d: int, rows: nat) -> Seq<u64>
    decreases rows,
{
    if rows == 0 {
        Seq::empty()
    } else {
        stack(model, base, d, (rows - 1) as nat) + bucket_or_empty(
            model,
            base + (rows - 1 - d) * model.size,
        )
    }
}

/// The agents of the first `columns` columns of the block that reaches
/// `d` buckets in each direction from the bucket `cell`.
pub open spec fn swath(model: SpatialModel, cell: int, d: int, columns: nat) -> Seq<u64>
    decreases columns,
{
    if columns == 0 {
        Seq::empty()
    } else {
        swath(model, cell, d, (columns - 1) as nat) + stack(
            model,
            cell + (columns - 1 - d),
            d,
            (2 * d + 1) as nat,
        )
    }
}

/// The bucket of a cell of the level is a bucket of the index.
pub proof fn lemma_cell_number_bounded(size: int, cx: int, cy: int)
    requires
        2 <= size,
        0 <= cx,
        0 <= cy,
    ensures
        size < cell_number(size, cx, cy) < size * size,
{
    let y = bounded_coordinate(size, cy);
    assert((y + 1) * size >= size && (y + 1) * size <= (size - 1) * size && (size - 1) * size
        == size * size - size) by (nonlinear_arith)
        requires
            0 <= y <= size - 2,
            2 <= size,
    ;
}

/// Different cells of the level have different buckets.
pub proof fn lemma_cell_numbers_differ(size: int)
    requires
        2 <= size,
    ensures
        forall|ax: int, ay: int, bx: int, by: int|
            0 <= ax <= size - 2 && 0 <= ay <= size - 2 && 0 <= bx <= size - 2 && 0 <= by <= size - 2
                && #[trigger] cell_number(size, ax, ay) == #[trigger] cell_number(size, bx, by)
                ==> ax == bx && ay == by,
{
    assert forall|ax: int, ay: int, bx: int, by: int|
        0 <= ax <= size - 2 && 0 <= ay <= size - 2 && 0 <= bx <= size - 2 && 0 <= by <= size - 2
            && #[trigger] cell_number(size, ax, ay) == #[trigger] cell_number(
            size,
            bx,
            by,
        ) implies ax == bx && ay == by by {
        if ay < by {
            assert((by + 1) * size >= (ay + 1) * size + size) by (nonlinear_arith)
                requires
                    ay < by,
                    size >= 2,
            ;
        }
        if by < ay {
            assert((ay + 1) * size >= (by + 1) * size + size) by (nonlinear_arith)
                requires
                    by < ay,
                    size >= 2,
            ;
        }
    }
}

/// The block around the bucket of a cell of the level holds the buckets of the cell
/// itself and of every cell of the level next to it: the bucket of the cell one
/// column and one row further by `dx` and `dy` is the bucket of the block in
/// row `dy + 1` and column `dx + 1`.
pub proof fn lemma_block_covers_neighbours(size: int, cx: int, cy: int, dx: int, dy: int)
    requires
        2 <= size,
        0 <= cx <= size - 2,
        0 <= cy <= size - 2,
        -1 <= dx <= 1,
        -1 <= dy <= 1,
        0 <= cx + dx <= size - 2,
        0 <= cy + dy <= size - 2,
    ensures
        (SpatialModel { size, buckets: Seq::empty() }).block(cell_number(size, cx, cy))[3 * (dy + 1)
            + (dx + 1)] == cell_number(size, cx + dx, cy + dy),
{
    assert((cy + dy + 1) * size == (cy + 1) * size + dy * size) by (nonlinear_arith);
    assert(dy * size == if dy == -1 {
        -size
    } else if dy == 0 {
        0
    } else {
        size
    }) by (nonlinear_arith)
        requires
            -1 <= dy <= 1,
    ;
}

/// An agent has no one to keep its distance from when the buckets around it
/// hold no one but itself.
pub proof fn lemma_alone_in_block(model: SpatialModel, cells: Seq<int>, id: u64)
    requires
        forall|k: int, i: int|
            0 <= k < cells.len() && 0 <= i < bucket_or_empty(model, cells[k]).len()
                ==> #[trigger] bucket_or_empty(model, cells[k])[i] == id,
    ensures
        gathered(model, cells).filter(other_than(id)) == Seq::<u64>::empty(),
    decreases cells.len(),
{
    reveal(Seq::filter);
    if cells.len() > 0 {
        let rest = cells.drop_last();
        assert forall|k: int, i: int|
            0 <= k < rest.len() && 0 <= i < bucket_or_empty(model, rest[k]).len()
                implies #[trigger] bucket_or_empty(model, rest[k])[i] == id by {
        }
        lemma_alone_in_block(model, rest, id);
        let last = bucket_or_empty(model, cells.last());
        Seq::filter_distributes_over_add(gathered(model, rest), last, other_than(id));
        assert forall|i: int| 0 <= i < last.len() implies #[trigger] last[i] == id by {
        }
        lemma_none_pass(last, id);
    }
}

/// A list of nothing but `id` holds no other agent.
proof fn lemma_none_pass(list: Seq<u64>, id: u64)
    requires
        forall|i: int| 0 <= i < list.len() ==> #[trigger] list[i] == id,
    ensures
        list.filter(other_than(id)) == Seq::<u64>::empty(),
    decreases list.len(),
{
    reveal(Seq::filter);
    if list.len() > 0 {
        lemma_none_pass(list.drop_last(), id);
    }
}

impl View for SpatialStructure {
    type V = SpatialModel;

    closed spec fn view(&self) -> SpatialModel {
        SpatialModel {
            size: self.size as int,
            buckets: Seq::new(self.grid@.len(), |i: int| self.grid@[i]@),
        }
    }
}

impl SpatialStructure {
    /// The invariant of the type.
    pub open spec fn wf(&self) -> bool {
        self@.wf()
    }

    /// An empty index for a level with `cells` cells along each side. One
    /// border cell is added on each side. `None` when that is more than
    /// `MAX_SPATIAL_SIDE`.
    pub fn new(cells: usize) -> (r: Option<SpatialStructure>)
        ensures
            r is Some <==> cells + 2 <= MAX_SPATIAL_SIDE,
            r matches Some(s) ==> s.wf() && s@.size == cells + 2 && s@ == s@.emptied(),
    {
        if cells > MAX_SPATIAL_SIDE - 2 {
            return None;
        }
        let size = cells + 2;
        assert(size * size <= 4096 * 4096) by (nonlinear_arith)
            requires
                0 <= size <= 4096,
        ;
        let total = size * size;
        let mut grid: Vec<Vec<u64>> = Vec::new();
        let mut i: usize = 0;
        while i < total
            invariant
                0 <= i <= total,
                grid@.len() == i,
                forall|j: int| 0 <= j < i ==> (#[trigger] grid@[j])@ == Seq::<u64>::empty(),
            decreases total - i,
        {
            grid.push(Vec::with_capacity(DEFAULT_CELL_CAPACITY));
            i += 1;
        }
        let s = SpatialStructure { size, grid };
        assert(s@.buckets =~= s@.emptied().buckets);
        Some(s)
    }

    /// The number of cells along one side, border included.
    pub fn size(&self) -> (n: usize)
        ensures
            n == self@.size,
    {
        self.size
    }

    /// The number of buckets.
    pub fn len(&self) -> (n: usize)
        ensures
            n == self@.buckets.len(),
    {
        self.grid.len()
    }

    /// Empties every bucket.
    pub fn reset(&mut self)
        requires
            old(self).wf(),
        ensures
            final(self)@ == old(self)@.emptied(),
            final(self).wf(),
    {
        let n = self.grid.len();
        let mut i: usize = 0;
        while i < n
            invariant
                0 <= i <= n,
                n == self.grid@.len(),
                self.size == old(self).size,
                self.grid@.len() == old(self).grid@.len(),
                forall|j: int| 0 <= j < i ==> (#[trigger] self.grid@[j])@ == Seq::<u64>::empty(),
            decreases n - i,
        {
            self.grid[i].clear();
            i += 1;
        }
        assert(self@.buckets =~= old(self)@.emptied().buckets);
    }

    /// The bucket number of the cell `(cx, cy)` of the level. A coordinate beyond the
    /// level counts as the last cell of the level.
    pub fn pos_to_cell(&self, cx: usize, cy: usize) -> (cell: usize)
        requires
            self.wf(),
        ensures
            cell == cell_number(self@.size, cx as int, cy as int),
            self@.size < cell < self@.buckets.len(),
    {
        let x = if cx > self.size - 2 {
            self.size - 2
        } else {
            cx
        };
        let y = if cy > self.size - 2 {
            self.size - 2
        } else {
            cy
        };
        proof {
            lemma_cell_number_bounded(self.size as int, cx as int, cy as int);
        }
        assert((y + 1) * self.size <= 4096 * 4096) by (nonlinear_arith)
            requires
                0 <= y + 1 <= 4096,
                0 <= self.size <= 4096,
        ;
        x + 1 + (y + 1) * self.size
    }

    /// Puts an agent into the bucket of its cell. Returns whether it was
    /// taken: a bucket that holds `BUCKET_CAPACITY` agents takes no more.
    pub fn insert(&mut self, agent: Placed) -> (stored: bool)
        requires
            old(self).wf(),
        ensures
            final(self)@ == old(self)@.inserted(agent),
            final(self).wf(),
            stored == old(self)@.takes(agent),
    {
        let cell = self.pos_to_cell(agent.cx, agent.cy);
        if self.grid[cell].len() < BUCKET_CAPACITY {
            self.grid[cell].push(agent.id);
            assert(self@.buckets =~= old(self)@.inserted(agent).buckets);
            true
        } else {
            false
        }
    }

    /// The agents in the bucket `cell`, in the order they came; `None` when
    /// there is no such bucket.
    pub fn bucket(&self, cell: usize) -> (items: Option<&[u64]>)
        ensures
            items matches Some(slice) ==> cell < self@.buckets.len() && slice@
                == self@.buckets[cell as int],
            items is None <==> cell >= self@.buckets.len(),
    {
        if cell < self.grid.len() {
            Some(self.grid[cell].as_slice())
        } else {
            None
        }
    }

    /// The nine buckets of the block around `cell`, row by row, or `None`
    /// when the block would reach beyond the index.
    pub fn get(&self, cell: usize) -> (block: Option<[&[u64]; 9]>)
        requires
            self.wf(),
        ensures
            block is Some <==> self@.has_block(cell as int),
            block matches Some(b) ==> forall|k: int|
                0 <= k < 9 ==> (#[trigger] b[k])@ == self@.buckets[self@.block(cell as int)[k]],
    {
        assert(self.size * self.size >= 2 * self.size) by (nonlinear_arith)
            requires
                self.size >= 2,
        ;
        if cell <= self.size || cell >= self.grid.len() - 1 - self.size {
            return None;
        }
        let up_pos = cell - self.size;
        let down_pos = cell + self.size;
        Some(
            [
                self.grid[up_pos - 1].as_slice(),
                self.grid[up_pos].as_slice(),
                self.grid[up_pos + 1].as_slice(),
                self.grid[cell - 1].as_slice(),
                self.grid[cell].as_slice(),
                self.grid[cell + 1].as_slice(),
                self.grid[down_pos - 1].as_slice(),
                self.grid[down_pos].as_slice(),
                self.grid[down_pos + 1].as_slice(),
            ],
        )
    }
}

impl SpatialStructure {
    /// Appends the agents of the bucket `cell` to `out`, in their order;
    /// nothing when there is no such bucket.
    fn append_bucket(&self, cell: i128, out: &mut Vec<u64>)
        ensures
            final(out)@ == old(out)@ + bucket_or_empty(self@, cell as int),
    {
        if cell < 0 || cell >= self.grid.len() as i128 {
            return ;
        }
        let i = cell as usize;
        let bucket = &self.grid[i];
        let mut k: usize = 0;
        while k < bucket.len()
            invariant
                0 <= k <= bucket.len(),
                bucket@ == self@.buckets[i as int],
                out@ == old(out)@ + bucket@.take(k as int),
            decreases bucket.len() - k,
        {
            out.push(bucket[k]);
            k += 1;
        }
    }

    /// The agents in the block of buckets that reaches `d` buckets in each
    /// direction from the bucket of the cell `(cx, cy)`: column after column,
    /// every column from its first row to its last. Buckets that the block
    /// would have beyond the ends of the index are left out.
    pub fn get_iter_with_distance_override(&self, cx: usize, cy: usize, d: usize) -> (items: Vec<
        u64,
    >)
        requires
            self.wf(),
        ensures
            items@ == swath(
                self@,
                cell_number(self@.size, cx as int, cy as int),
                d as int,
                (2 * d + 1) as nat,
            ),
    {
        let cell = self.pos_to_cell(cx, cy) as i128;
        let reach = d as i128;
        let width: i128 = 2 * reach + 1;
        let size = self.size as i128;
        let mut items: Vec<u64> = Vec::new();
        let mut x: i128 = 0;
        assert(self@.size * self@.size <= 4096 * 4096) by (nonlinear_arith)
            requires
                0 <= self@.size <= 4096,
        ;
        while x < width
            invariant
                self.wf(),
                0 <= x <= width,
                width == 2 * d + 1,
                reach == d,
                size == self@.size,
                cell == cell_number(self@.size, cx as int, cy as int),
                0 <= cell <= 0x100_0000,
                items@ == swath(self@, cell as int, d as int, x as nat),
            decreases width - x,
        {
            let base = cell + (x - reach);
            let ghost before = items@;
            let mut y: i128 = 0;
            while y < width
                invariant
                    self.wf(),
                    0 <= y <= width,
                    width == 2 * d + 1,
                    reach == d,
                    size == self@.size,
                    -0x1_0000_0000_0000_0000 <= base <= 0x2_0000_0000_0000_0000,
                    items@ == before + stack(self@, base as int, d as int, y as nat),
                decreases width - y,
            {
                assert(-0x1000_0000_0000_0000_0000 <= (y - reach) * size
                    <= 0x1000_0000_0000_0000_0000) by (nonlinear_arith)
                    requires
                        -0x1_0000_0000_0000_0000 <= y - reach <= 0x1_0000_0000_0000_0000,
                        0 <= size <= 4096,
                ;
                self.append_bucket(base + (y - reach) * size, &mut items);
                assert(items@ =~= before + stack(self@, base as int, d as int, (y + 1) as nat)) by {
                    assert(stack(self@, base as int, d as int, (y + 1) as nat) == stack(
                        self@,
                        base as int,
                        d as int,
                        y as nat,
                    ) + bucket_or_empty(self@, base + (y - d) * self@.size));
                }
                y += 1;
            }
            x += 1;
        }
        items
    }

    /// The agents in the block around the bucket `cell`, without the agent `id`
    /// itself: those among which an agent in that bucket looks for the ones
    /// that are too near. `None` when the index has no block around `cell`.
    pub fn neighbors_except(&self, cell: usize, id: u64) -> (others: Option<Vec<u64>>)
        requires
            self.wf(),
        ensures
            others is Some <==> self@.has_block(cell as int),
            others matches Some(list) ==> list@ == gathered(self@, self@.block(cell as int)).filter(
                other_than(id),
            ),
    {
        let block = match self.get(cell) {
            Some(block) => block,
            None => {
                return None;
            },
        };
        let ghost cells = self@.block(cell as int);
        let mut all: Vec<u64> = Vec::new();
        let mut k: usize = 0;
        while k < 9
            invariant
                self.wf(),
                0 <= k <= 9,
                cells == self@.block(cell as int),
                self@.has_block(cell as int),
                forall|j: int| 0 <= j < 9 ==> (#[trigger] block[j])@ == self@.buckets[cells[j]],
                all@ == gathered(self@, cells.take(k as int)),
            decreases 9 - k,
        {
            let bucket = block[k];
            let ghost before = all@;
            let mut i: usize = 0;
            while i < bucket.len()
                invariant
                    0 <= i <= bucket.len(),
                    all@ == before + bucket@.take(i as int),
                decreases bucket.len() - i,
            {
                all.push(bucket[i]);
                i += 1;
            }
            proof {
                let longer = cells.take(k + 1);
                assert(longer.drop_last() =~= cells.take(k as int));
            }
            k += 1;
        }
        assert(cells.take(9) =~= cells);
        let mut others: Vec<u64> = Vec::new();
        let mut i: usize = 0;
        assert(all@.take(0).filter(other_than(id)) =~= Seq::<u64>::empty()) by {
            reveal(Seq::filter);
        }
        while i < all.len()
            invariant
                0 <= i <= all.len(),
                others@ == all@.take(i as int).filter(other_than(id)),
            decreases all.len() - i,
        {
            proof {
                assert(all@.take(i + 1) =~= all@.take(i as int).push(all@[i as int]));
                all@.take(i as int).lemma_filter_push(all@[i as int], other_than(id));
            }
            if all[i] != id {
                others.push(all[i]);
            }
            i += 1;
        }
        assert(all@.take(all.len() as int) =~= all@);
        Some(others)
    }
}

/// Empties the index and fills it with the agents of a tick. Returns how
/// many agents were left out because the bucket of their cell was full.
pub fn make_spatial(spatial: &mut SpatialStructure, agents: &Vec<Placed>) -> (dropped: usize)
    requires
        old(spatial).wf(),
    ensures
        final(spatial)@ == old(spatial)@.emptied().filled(agents@),
        final(spatial).wf(),
        dropped == old(spatial)@.emptied().refused(agents@),
{
    spatial.reset();
    let ghost start = spatial@;
    let mut dropped: usize = 0;
    let mut i: usize = 0;
    while i < agents.len()
        invariant
            0 <= i <= agents.len(),
            spatial.wf(),
            spatial@ == start.filled(agents@.take(i as int)),
            dropped == start.refused(agents@.take(i as int)),
            dropped <= i,
        decreases agents.len() - i,
    {
        let stored = spatial.insert(agents[i]);
        if !stored {
            dropped += 1;
        }
        proof {
            let longer = agents@.take(i + 1);
            assert(longer.drop_last() == agents@.take(i as int));
        }
        i += 1;
    }
    assert(agents@.take(agents.len() as int) == agents@);
    dropped
}

} // verus!
