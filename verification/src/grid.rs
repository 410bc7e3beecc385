use vstd::prelude::*;
use crate::types::{BoundaryBuffer, Cell, CellType, CellValue, DEFAULT_CELL_VALUE};

verus! {

/// A rectangular grid of cells with a generation counter and I/O boundary buffers.
/// Cell `(x, y)` is stored at index `y * width + x`.
pub struct Grid {
    width: usize,
    height: usize,
    cells: Vec<Cell>,
    generation: u64,
    boundaries: Vec<((usize, usize), BoundaryBuffer)>,
}

proof fn lemma_index_in_range(x: int, y: int, w: int, h: int)
    requires
        0 <= x < w,
        0 <= y < h,
    ensures
        0 <= y * w + x < w * h,
{
    assert(y * w + x < (y + 1) * w) by (nonlinear_arith)
        requires
            x < w,
    ;
    assert((y + 1) * w <= h * w) by (nonlinear_arith)
        requires
            y + 1 <= h,
            0 <= w,
    ;
    assert(0 <= y * w) by (nonlinear_arith)
        requires
            0 <= y,
            0 <= w,
    ;
    assert(h * w == w * h) by (nonlinear_arith);
}

proof fn lemma_index_injective(x1: int, y1: int, x2: int, y2: int, w: int)
    requires
        0 <= x1 < w,
        0 <= x2 < w,
        0 <= y1,
        0 <= y2,
        y1 * w + x1 == y2 * w + x2,
    ensures
        x1 == x2 && y1 == y2,
{
    if y1 < y2 {
        assert(y1 * w + x1 < y2 * w + x2) by (nonlinear_arith)
            requires
                y1 < y2,
                0 <= x1 < w,
                0 <= x2,
        ;
    } else if y2 < y1 {
        assert(y2 * w + x2 < y1 * w + x1) by (nonlinear_arith)
            requires
                y2 < y1,
                0 <= x2 < w,
                0 <= x1,
        ;
    }
}

/// The default cell, born at generation 0.
pub open spec fn default_cell() -> Cell {
    Cell { value: CellValue(CellType(DEFAULT_CELL_VALUE)), born_at: 0 }
}

/// First buffer of `s` at `(x, y)`, searching from entry `k`.
pub open spec fn first_boundary_from(s: Seq<((usize, usize), BoundaryBuffer)>, k: int, x: usize, y: usize) -> Option<
    BoundaryBuffer,
>
    decreases s.len() - k,
{
    if k < 0 || k >= s.len() {
        None
    } else if s[k].0 == (x, y) {
        Some(s[k].1)
    } else {
        first_boundary_from(s, k + 1, x, y)
    }
}

proof fn lemma_first_boundary_suffix(
    s: Seq<((usize, usize), BoundaryBuffer)>,
    j: int,
    e: ((usize, usize), BoundaryBuffer),
    k: int,
    a: usize,
    b: usize,
)
    requires
        0 <= j < k,
        j < s.len(),
    ensures
        first_boundary_from(s.update(j, e), k, a, b) == first_boundary_from(s, k, a, b),
    decreases s.len() - k,
{
    if k < s.len() {
        lemma_first_boundary_suffix(s, j, e, k + 1, a, b);
    }
}

proof fn lemma_first_boundary_update(
    s: Seq<((usize, usize), BoundaryBuffer)>,
    j: int,
    x: usize,
    y: usize,
    buf: BoundaryBuffer,
    k: int,
    a: usize,
    b: usize,
)
    requires
        0 <= k <= j < s.len(),
        s[j].0 == (x, y),
        forall|i: int| k <= i < j ==> (#[trigger] s[i]).0 != (x, y),
    ensures
        first_boundary_from(s.update(j, ((x, y), buf)), k, a, b) == if (a, b) == (x, y) {
            Some(buf)
        } else {
            first_boundary_from(s, k, a, b)
        },
    decreases j - k,
{
    let t = s.update(j, ((x, y), buf));
    if k < j {
        assert(t[k] == s[k]);
        lemma_first_boundary_update(s, j, x, y, buf, k + 1, a, b);
    } else {
        assert(t[j] == ((x, y), buf));
        lemma_first_boundary_suffix(s, j, ((x, y), buf), j + 1, a, b);
    }
}

proof fn lemma_first_boundary_push(
    s: Seq<((usize, usize), BoundaryBuffer)>,
    x: usize,
    y: usize,
    buf: BoundaryBuffer,
    k: int,
    a: usize,
    b: usize,
)
    requires
        0 <= k <= s.len(),
        forall|i: int| k <= i < s.len() ==> (#[trigger] s[i]).0 != (x, y),
    ensures
        first_boundary_from(s.push(((x, y), buf)), k, a, b) == if (a, b) == (x, y) {
            Some(buf)
        } else {
            first_boundary_from(s, k, a, b)
        },
    decreases s.len() - k,
{
    let t = s.push(((x, y), buf));
    if k < s.len() {
        assert(t[k] == s[k]);
        lemma_first_boundary_push(s, x, y, buf, k + 1, a, b);
    } else {
        assert(t[k] == ((x, y), buf));
        assert(first_boundary_from(t, k + 1, a, b) == None::<BoundaryBuffer>);
    }
}

impl BoundaryBuffer {
    /// An empty buffer with no channel, no direction and no capacity limit.
    pub fn new() -> (b: BoundaryBuffer)
        ensures
            b.queues@.len() == 0,
            b.direction@.len() == 0,
            b.max_queue is None,
    {
        BoundaryBuffer { queues: Vec::new(), direction: String::new(), max_queue: None }
    }

    /// A copy of the buffer.
    pub fn duplicate(&self) -> (r: BoundaryBuffer)
        ensures
            same_buffer(r, *self),
    {
        let mut queues: Vec<(u32, Vec<Cell>)> = Vec::new();
        let mut k: usize = 0;
        while k < self.queues.len()
            invariant
                k <= self.queues@.len(),
                queues@.len() == k,
                forall|j: int| 0 <= j < k ==> (#[trigger] queues@[j]).0 == self.queues@[j].0 && queues@[j].1@ == self.queues@[j].1@,
            decreases self.queues@.len() - k,
        {
            let src = &self.queues[k].1;
            let mut q: Vec<Cell> = Vec::new();
            let mut t: usize = 0;
            while t < src.len()
                invariant
                    t <= src@.len(),
                    q@ == src@.take(t as int),
                decreases src@.len() - t,
            {
                q.push(src[t]);
                t += 1;
                assert(src@.take(t as int) =~= src@.take(t - 1).push(src@[t - 1]));
            }
            assert(src@.take(t as int) =~= src@);
            queues.push((self.queues[k].0, q));
            k += 1;
        }
        let r = BoundaryBuffer { queues, direction: String::from_str(self.direction.as_str()), max_queue: self.max_queue };
        assert(queues_view(r) =~= queues_view(*self));
        r
    }

    /// Append `cell` to the queue of `channel`, creating the queue when missing. With a
    /// capacity `max_queue`, the oldest entries are dropped to keep at most that many.
    pub fn enqueue(&mut self, channel: u32, cell: Cell)
        ensures
            final(self).direction@ == old(self).direction@,
            final(self).max_queue == old(self).max_queue,
            queues_view(*final(self)) == spec_enqueue(queues_view(*old(self)), channel, cell, old(self).max_queue),
    {
        let n = self.queues.len();
        let ghost qs = queues_view(*self);
        let mut k: usize = 0;
        while k < n
            invariant
                n == self.queues@.len(),
                k <= n,
                *self == *old(self),
                qs == queues_view(*self),
                forall|j: int| 0 <= j < k ==> (#[trigger] qs[j]).0 != channel,
            decreases n - k,
        {
            if self.queues[k].0 == channel {
                let mut entry: (u32, Vec<Cell>) = (channel, Vec::new());
                self.queues.set_and_swap(k, &mut entry);
                let ghost q0 = entry.1@;
                assert(entry.0 == channel);
                entry.1.push(cell);
                let ghost pushed = entry.1@;
                assert(pushed.skip(0) =~= pushed);
                if let Some(m) = self.max_queue {
                    while entry.1.len() > m as usize
                        invariant
                            entry.0 == channel,
                            pushed == q0.push(cell),
                            entry.1@.len() <= pushed.len(),
                            entry.1@.len() >= m || entry.1@.len() == pushed.len(),
                            entry.1@ == pushed.skip(pushed.len() - entry.1@.len()),
                        decreases entry.1@.len(),
                    {
                        let ghost b0 = entry.1@;
                        entry.1.remove(0);
                        assert(pushed.skip(pushed.len() - b0.len()).drop_first() =~= pushed.skip(
                            pushed.len() - entry.1@.len(),
                        ));
                    }
                    proof {
                        if pushed.len() <= m {
                            assert(entry.1@ =~= pushed);
                        } else {
                            assert(entry.1@.len() == m);
                        }
                        assert(entry.1@ == cap_queue(pushed, self.max_queue));
                    }
                } else {
                    assert(entry.1@ == cap_queue(pushed, self.max_queue));
                }
                assert(q0 == qs[k as int].1);
                let ghost mid = self.queues@;
                let ghost placed = entry;
                self.queues.set_and_swap(k, &mut entry);
                proof {
                    assert(self.queues@ == mid.update(k as int, placed));
                    assert forall|j: int| 0 <= j < qs.len() implies queues_view(*self)[j] == qs.update(
                        k as int,
                        (channel, cap_queue(qs[k as int].1.push(cell), self.max_queue)),
                    )[j] by {
                        if j != k {
                            assert(self.queues@[j] == old(self).queues@[j]);
                        } else {
                            assert(self.queues@[j] == placed);
                            assert(placed.0 == channel);
                            assert(placed.1@ == cap_queue(pushed, self.max_queue));
                            assert(pushed == qs[k as int].1.push(cell));
                        }
                    }
                    lemma_first_channel_at(qs, channel, 0, k as int);
                    assert(queues_view(*self) =~= qs.update(k as int, (channel, cap_queue(qs[k as int].1.push(cell), self.max_queue))));
                }
                return;
            }
            k += 1;
        }
        let mut q: Vec<Cell> = Vec::new();
        q.push(cell);
        if let Some(m) = self.max_queue {
            if m == 0 {
                q.remove(0);
            }
        }
        proof {
            lemma_first_channel_at(qs, channel, 0, n as int);
            assert(q@ =~= cap_queue(seq![cell], self.max_queue));
        }
        self.queues.push((channel, q));
        proof {
            assert(queues_view(*self) =~= qs.push((channel, cap_queue(seq![cell], self.max_queue))));
        }
    }
}

/// Channel queues of a buffer as sequences.
pub open spec fn queues_view(b: BoundaryBuffer) -> Seq<(u32, Seq<Cell>)> {
    b.queues@.map_values(|e: (u32, Vec<Cell>)| (e.0, e.1@))
}

/// `q` with its oldest entries dropped to keep at most `max_queue`.
pub open spec fn cap_queue(q: Seq<Cell>, max_queue: Option<u8>) -> Seq<Cell> {
    match max_queue {
        Some(m) => if q.len() > m {
            q.skip(q.len() - m)
        } else {
            q
        },
        None => q,
    }
}

/// Index of the first queue of `channel` at or after `k`, or the number of queues.
pub open spec fn first_channel(qs: Seq<(u32, Seq<Cell>)>, channel: u32, k: int) -> int
    decreases qs.len() - k,
{
    if k < 0 || k >= qs.len() {
        qs.len() as int
    } else if qs[k].0 == channel {
        k
    } else {
        first_channel(qs, channel, k + 1)
    }
}

/// The queues after enqueueing `cell` on `channel`: appended to that channel's first queue,
/// or to a new queue at the end, and capped.
pub open spec fn spec_enqueue(qs: Seq<(u32, Seq<Cell>)>, channel: u32, cell: Cell, max_queue: Option<u8>) -> Seq<
    (u32, Seq<Cell>),
> {
    let k = first_channel(qs, channel, 0);
    if k < qs.len() {
        qs.update(k, (channel, cap_queue(qs[k].1.push(cell), max_queue)))
    } else {
        qs.push((channel, cap_queue(seq![cell], max_queue)))
    }
}

proof fn lemma_first_channel_at(qs: Seq<(u32, Seq<Cell>)>, channel: u32, from: int, k: int)
    requires
        0 <= from <= k <= qs.len(),
        forall|j: int| from <= j < k ==> (#[trigger] qs[j]).0 != channel,
        k == qs.len() || qs[k].0 == channel,
    ensures
        first_channel(qs, channel, from) == k,
    decreases k - from,
{
    if from < k {
        lemma_first_channel_at(qs, channel, from + 1, k);
    }
}

impl Grid {
    pub closed spec fn spec_width(self) -> usize {
        self.width
    }

    pub closed spec fn spec_height(self) -> usize {
        self.height
    }

    pub closed spec fn spec_generation(self) -> u64 {
        self.generation
    }

    /// The cell at `(x, y)`: the stored one inside the grid, the default cell elsewhere.
    pub closed spec fn spec_cell(self, x: int, y: int) -> Cell {
        if 0 <= x < self.width && 0 <= y < self.height && y * self.width + x < self.cells@.len() {
            self.cells@[y * self.width + x]
        } else {
            default_cell()
        }
    }

    /// A cell is stored at `(x, y)`: it lies inside the grid (every such cell is stored in a
    /// grid made by `new`).
    pub closed spec fn spec_in_grid(self, x: int, y: int) -> bool {
        0 <= x < self.width && 0 <= y < self.height && y * self.width + x < self.cells@.len()
    }

    /// The boundary buffers with their cells.
    pub closed spec fn spec_boundaries(self) -> Seq<((usize, usize), BoundaryBuffer)> {
        self.boundaries@
    }

    /// The boundary buffer attached to `(x, y)`, if any.
    pub open spec fn spec_boundary_at(self, x: usize, y: usize) -> Option<BoundaryBuffer> {
        first_boundary_from(self.spec_boundaries(), 0, x, y)
    }

    /// A stored cell lies inside the grid's sides.
    pub proof fn lemma_in_grid(self, x: int, y: int)
        ensures
            self.spec_in_grid(x, y) ==> 0 <= x < self.spec_width() && 0 <= y < self.spec_height(),
    {
    }

    /// Age of the cell at `(x, y)`: 0 for a default cell, else generations since it was written.
    pub open spec fn spec_age(self, x: int, y: int) -> u64 {
        let c = self.spec_cell(x, y);
        if c.value.0.0 == DEFAULT_CELL_VALUE {
            0
        } else if self.spec_generation() >= c.born_at {
            (self.spec_generation() - c.born_at) as u64
        } else {
            0
        }
    }

    /// A `width` × `height` grid of cells of type `default_type`, generation 0, no boundary.
    pub fn new(width: usize, height: usize, default_type: u8) -> (g: Grid)
        requires
            width * height <= usize::MAX,
        ensures
            g.spec_width() == width,
            g.spec_height() == height,
            g.spec_generation() == 0,
            g.spec_boundaries().len() == 0,
            forall|x: int, y: int|
                0 <= x < width && 0 <= y < height ==> #[trigger] g.spec_in_grid(x, y) && g.spec_cell(x, y)
                    == (Cell { value: CellValue(CellType(default_type)), born_at: 0 }),
    {
        let cell = Cell { value: CellValue(CellType(default_type)), born_at: 0 };
        let n = width * height;
        let mut cells: Vec<Cell> = Vec::new();
        let mut k: usize = 0;
        while k < n
            invariant
                k <= n,
                cells@.len() == k,
                forall|j: int| 0 <= j < k ==> #[trigger] cells@[j] == cell,
            decreases n - k,
        {
            cells.push(cell);
            k += 1;
        }
        let g = Grid { width, height, cells, generation: 0, boundaries: Vec::new() };
        assert forall|x: int, y: int| 0 <= x < width && 0 <= y < height implies #[trigger] g.spec_in_grid(x, y)
            && g.spec_cell(x, y) == (Cell { value: CellValue(CellType(default_type)), born_at: 0 }) by {
            lemma_index_in_range(x, y, width as int, height as int);
        }
        g
    }

    pub fn width(&self) -> (w: usize)
        ensures
            w == self.spec_width(),
    {
        self.width
    }

    pub fn height(&self) -> (h: usize)
        ensures
            h == self.spec_height(),
    {
        self.height
    }

    pub fn generation(&self) -> (g: u64)
        ensures
            g == self.spec_generation(),
    {
        self.generation
    }

    /// Index of the stored cell `(x, y)`.
    fn stored_index(&self, x: usize, y: usize) -> (r: Option<usize>)
        ensures
            match r {
                Some(i) => self.spec_in_grid(x as int, y as int) && i == y * self.spec_width() + x && i
                    < self.cells@.len(),
                None => !self.spec_in_grid(x as int, y as int),
            },
    {
        let len = self.cells.len();
        if x < self.width && y < self.height {
            match y.checked_mul(self.width) {
                Some(row) => match row.checked_add(x) {
                    Some(i) => if i < len {
                        Some(i)
                    } else {
                        None
                    },
                    None => {
                        None
                    },
                },
                None => {
                    assert(y * self.width + x >= y * self.width) by (nonlinear_arith)
                        requires
                            x >= 0,
                    ;
                    None
                },
            }
        } else {
            None
        }
    }

    /// The cell at `(x, y)`, `None` outside the grid.
    pub fn get_cell(&self, x: usize, y: usize) -> (c: Option<Cell>)
        ensures
            match c {
                Some(cell) => self.spec_in_grid(x as int, y as int) && cell == self.spec_cell(x as int, y as int) && x
                    < self.spec_width() && y < self.spec_height(),
                None => !self.spec_in_grid(x as int, y as int) && self.spec_cell(x as int, y as int)
                    == default_cell(),
            },
    {
        match self.stored_index(x, y) {
            Some(i) => Some(self.cells[i]),
            None => None,
        }
    }

    /// Age of the cell at `(x, y)`.
    pub fn get_age(&self, x: usize, y: usize) -> (a: u64)
        ensures
            a == self.spec_age(x as int, y as int),
    {
        match self.get_cell(x, y) {
            Some(c) => {
                if c.value.0.0 == DEFAULT_CELL_VALUE {
                    0
                } else if self.generation >= c.born_at {
                    self.generation - c.born_at
                } else {
                    0
                }
            },
            None => 0,
        }
    }

    /// Write the cell at `(x, y)`; outside the grid nothing changes.
    pub fn set_cell(&mut self, x: usize, y: usize, cell: Cell)
        ensures
            final(self).spec_width() == old(self).spec_width(),
            final(self).spec_height() == old(self).spec_height(),
            final(self).spec_generation() == old(self).spec_generation(),
            final(self).spec_boundaries() == old(self).spec_boundaries(),
            forall|a: int, b: int| #[trigger] final(self).spec_in_grid(a, b) == old(self).spec_in_grid(a, b),
            forall|a: int, b: int|
                #[trigger] final(self).spec_cell(a, b) == if a == x && b == y && old(self).spec_in_grid(a, b) {
                    cell
                } else {
                    old(self).spec_cell(a, b)
                },
    {
        if let Some(i) = self.stored_index(x, y) {
            let ghost before = *self;
            self.cells.set(i, cell);
            proof {
                assert forall|a: int, b: int|
                    #[trigger] self.spec_cell(a, b) == if a == x && b == y && before.spec_in_grid(a, b) {
                        cell
                    } else {
                        before.spec_cell(a, b)
                    } by {
                    if 0 <= a < self.width && 0 <= b < self.height {
                        if b * self.width + a == i {
                            lemma_index_injective(a, b, x as int, y as int, self.width as int);
                        }
                    }
                }
            }
        }
    }

    /// One generation passes: every non-default cell ages by one.
    pub fn advance_age(&mut self)
        requires
            old(self).spec_generation() < u64::MAX,
        ensures
            final(self).spec_generation() == old(self).spec_generation() + 1,
            final(self).spec_width() == old(self).spec_width(),
            final(self).spec_height() == old(self).spec_height(),
            final(self).spec_boundaries() == old(self).spec_boundaries(),
            forall|a: int, b: int| #[trigger] final(self).spec_in_grid(a, b) == old(self).spec_in_grid(a, b),
            forall|a: int, b: int| #[trigger] final(self).spec_cell(a, b) == old(self).spec_cell(a, b),
    {
        self.generation = self.generation + 1;
    }

    /// Attach a boundary buffer to `(x, y)`, replacing any buffer already there.
    pub fn set_boundary(&mut self, x: usize, y: usize, buf: BoundaryBuffer)
        ensures
            forall|a: usize, b: usize|
                #[trigger] final(self).spec_boundary_at(a, b) == if (a, b) == (x, y) {
                    Some(buf)
                } else {
                    old(self).spec_boundary_at(a, b)
                },
            final(self).spec_width() == old(self).spec_width(),
            final(self).spec_height() == old(self).spec_height(),
            final(self).spec_generation() == old(self).spec_generation(),
            forall|a: int, b: int| #[trigger] final(self).spec_in_grid(a, b) == old(self).spec_in_grid(a, b),
            forall|a: int, b: int| #[trigger] final(self).spec_cell(a, b) == old(self).spec_cell(a, b),
    {
        let n = self.boundaries.len();
        let mut k: usize = 0;
        while k < n
            invariant
                n == self.boundaries@.len(),
                k <= n,
                self == old(self),
                forall|i: int| 0 <= i < k ==> (#[trigger] self.boundaries@[i]).0 != (x, y),
            decreases n - k,
        {
            if self.boundaries[k].0.0 == x && self.boundaries[k].0.1 == y {
                let ghost before = self.boundaries@;
                let mut entry = ((x, y), buf);
                self.boundaries.set_and_swap(k, &mut entry);
                proof {
                    assert forall|a: usize, b: usize| #[trigger] self.spec_boundary_at(a, b) == if (a, b) == (x, y) {
                        Some(buf)
                    } else {
                        old(self).spec_boundary_at(a, b)
                    } by {
                        lemma_first_boundary_update(before, k as int, x, y, buf, 0, a, b);
                    }
                }
                return;
            }
            k += 1;
        }
        let ghost before = self.boundaries@;
        self.boundaries.push(((x, y), buf));
        proof {
            assert forall|a: usize, b: usize| #[trigger] self.spec_boundary_at(a, b) == if (a, b) == (x, y) {
                Some(buf)
            } else {
                old(self).spec_boundary_at(a, b)
            } by {
                lemma_first_boundary_push(before, x, y, buf, 0, a, b);
            }
        }
    }

    /// The boundary buffer at `(x, y)`, if any.
    pub fn get_boundary(&self, x: usize, y: usize) -> (r: Option<&BoundaryBuffer>)
        ensures
            r is Some <==> exists|k: int|
                0 <= k < self.spec_boundaries().len() && (#[trigger] self.spec_boundaries()[k]).0 == (x, y),
    {
        let n = self.boundaries.len();
        let mut k: usize = 0;
        while k < n
            invariant
                n == self.boundaries@.len(),
                k <= n,
                forall|k2: int| 0 <= k2 < k ==> (#[trigger] self.boundaries@[k2]).0 != (x, y),
            decreases n - k,
        {
            if self.boundaries[k].0.0 == x && self.boundaries[k].0.1 == y {
                assert(self.spec_boundaries()[k as int].0 == (x, y));
                return Some(&self.boundaries[k].1);
            }
            k += 1;
        }
        None
    }

    /// A boundary buffer is attached at `(x, y)`.
    pub fn has_boundary(&self, x: usize, y: usize) -> (b: bool)
        ensures
            b == self.spec_boundary_at(x, y) is Some,
    {
        let n = self.boundaries.len();
        let mut k: usize = 0;
        while k < n
            invariant
                n == self.boundaries@.len(),
                k <= n,
                forall|k2: int| 0 <= k2 < k ==> (#[trigger] self.boundaries@[k2]).0 != (x, y),
            decreases n - k,
        {
            if self.boundaries[k].0.0 == x && self.boundaries[k].0.1 == y {
                proof {
                    lemma_first_boundary_at(self.boundaries@, 0, k as int, x, y);
                }
                return true;
            }
            k += 1;
        }
        proof {
            lemma_first_boundary_none(self.boundaries@, 0, x, y);
        }
        false
    }

    /// Coordinates of every boundary buffer, in attachment order.
    pub fn boundary_coords(&self) -> (r: Vec<(usize, usize)>)
        ensures
            r@.len() == self.spec_boundaries().len(),
            forall|k: int| 0 <= k < r@.len() ==> r@[k] == (#[trigger] self.spec_boundaries()[k]).0,
    {
        let n = self.boundaries.len();
        let mut out: Vec<(usize, usize)> = Vec::new();
        let mut k: usize = 0;
        while k < n
            invariant
                n == self.boundaries@.len(),
                k <= n,
                out@.len() == k,
                forall|k2: int| 0 <= k2 < k ==> out@[k2] == (#[trigger] self.boundaries@[k2]).0,
            decreases n - k,
        {
            out.push(self.boundaries[k].0);
            k += 1;
        }
        out
    }

    /// A copy of the grid.
    pub fn duplicate(&self) -> (r: Grid)
        ensures
            same_grid(r, *self),
    {
        let mut cells: Vec<Cell> = Vec::new();
        let mut k: usize = 0;
        while k < self.cells.len()
            invariant
                k <= self.cells@.len(),
                cells@ == self.cells@.take(k as int),
            decreases self.cells@.len() - k,
        {
            cells.push(self.cells[k]);
            k += 1;
            assert(self.cells@.take(k as int) =~= self.cells@.take(k - 1).push(self.cells@[k - 1]));
        }
        assert(self.cells@.take(k as int) =~= self.cells@);
        let mut boundaries: Vec<((usize, usize), BoundaryBuffer)> = Vec::new();
        let mut k: usize = 0;
        while k < self.boundaries.len()
            invariant
                k <= self.boundaries@.len(),
                boundaries@.len() == k,
                forall|j: int|
                    0 <= j < k ==> (#[trigger] boundaries@[j]).0 == self.boundaries@[j].0 && same_buffer(
                        boundaries@[j].1,
                        self.boundaries@[j].1,
                    ),
            decreases self.boundaries@.len() - k,
        {
            boundaries.push((self.boundaries[k].0, self.boundaries[k].1.duplicate()));
            k += 1;
        }
        Grid { width: self.width, height: self.height, cells, generation: self.generation, boundaries }
    }

    /// The number of boundary buffers.
    pub fn boundary_count(&self) -> (n: usize)
        ensures
            n == self.spec_boundaries().len(),
    {
        self.boundaries.len()
    }

    /// Boundary buffer `k`, with its cell.
    pub fn boundary_entry(&self, k: usize) -> (r: &((usize, usize), BoundaryBuffer))
        requires
            k < self.spec_boundaries().len(),
        ensures
            *r == self.spec_boundaries()[k as int],
    {
        &self.boundaries[k]
    }

    /// Empty every queue of boundary buffer `k`, returning the cells they held, queue by
    /// queue, oldest first.
    pub fn drain_boundary(&mut self, k: usize) -> (r: Vec<Cell>)
        requires
            k < old(self).spec_boundaries().len(),
        ensures
            r@ == queued_cells(queues_view(old(self).spec_boundaries()[k as int].1)),
            final(self).spec_boundaries().len() == old(self).spec_boundaries().len(),
            forall|j: int|
                0 <= j < old(self).spec_boundaries().len() && j != k ==> #[trigger] final(self).spec_boundaries()[j]
                    == old(self).spec_boundaries()[j],
            final(self).spec_boundaries()[k as int].0 == old(self).spec_boundaries()[k as int].0,
            drained(final(self).spec_boundaries()[k as int].1, old(self).spec_boundaries()[k as int].1),
            final(self).spec_width() == old(self).spec_width(),
            final(self).spec_height() == old(self).spec_height(),
            final(self).spec_generation() == old(self).spec_generation(),
            forall|a: int, b: int| #[trigger] final(self).spec_in_grid(a, b) == old(self).spec_in_grid(a, b),
            forall|a: int, b: int| #[trigger] final(self).spec_cell(a, b) == old(self).spec_cell(a, b),
    {
        let ghost oe = self.boundaries@[k as int];
        let ghost ob = oe.1;
        let ghost qs0 = queues_view(ob);
        let mut entry: ((usize, usize), BoundaryBuffer) = ((0, 0), BoundaryBuffer::new());
        self.boundaries.set_and_swap(k, &mut entry);
        assert(entry == oe);
        let mut out: Vec<Cell> = Vec::new();
        let n = entry.1.queues.len();
        let mut q: usize = 0;
        while q < n
            invariant
                n == entry.1.queues@.len(),
                n == qs0.len(),
                q <= n,
                entry.1.direction@ == ob.direction@,
                entry.1.max_queue == ob.max_queue,
                entry.0 == oe.0,
                out@ == queued_cells(qs0.take(q as int)),
                forall|j: int| 0 <= j < q ==> #[trigger] queues_view(entry.1)[j] == (qs0[j].0, Seq::<Cell>::empty()),
                forall|j: int| q <= j < n ==> #[trigger] queues_view(entry.1)[j] == qs0[j],
            decreases n - q,
        {
            let ghost before_q = entry.1;
            assert(queues_view(before_q)[q as int] == (before_q.queues@[q as int].0, before_q.queues@[q as int].1@));
            let mut item: (u32, Vec<Cell>) = (0, Vec::new());
            entry.1.queues.set_and_swap(q, &mut item);
            assert(item == before_q.queues@[q as int]);
            assert((item.0, item.1@) == qs0[q as int]);
            let ghost taken = item.1@;
            let mut t: usize = 0;
            let ghost out0 = out@;
            while t < item.1.len()
                invariant
                    t <= item.1@.len(),
                    item.1@ == taken,
                    out@ == out0 + taken.take(t as int),
                decreases item.1@.len() - t,
            {
                out.push(item.1[t]);
                t = t + 1;
                assert(taken.take(t as int) == taken.take(t - 1).push(taken[t - 1]));
            }
            assert(taken.take(t as int) == taken);
            let mut emptied: (u32, Vec<Cell>) = (item.0, Vec::new());
            entry.1.queues.set_and_swap(q, &mut emptied);
            proof {
                assert forall|j: int| 0 <= j < n && j != q implies #[trigger] queues_view(entry.1)[j] == queues_view(
                    before_q,
                )[j] by {
                    assert(entry.1.queues@[j] == before_q.queues@[j]);
                }
                assert(queues_view(entry.1)[q as int] == (qs0[q as int].0, Seq::<Cell>::empty()));
                assert(qs0.take(q + 1) =~= qs0.take(q as int).push(qs0[q as int]));
                assert(qs0.take(q + 1).drop_last() == qs0.take(q as int));
            }
            q = q + 1;
        }
        proof {
            assert(qs0.take(n as int) =~= qs0);
            assert(queues_view(entry.1) =~= qs0.map_values(|e: (u32, Seq<Cell>)| (e.0, Seq::<Cell>::empty())));
        }
        self.boundaries.set_and_swap(k, &mut entry);
        out
    }

    /// Enqueue `cell` on `channel` of boundary buffer `k`.
    pub fn enqueue_at(&mut self, k: usize, channel: u32, cell: Cell)
        requires
            k < old(self).spec_boundaries().len(),
        ensures
            final(self).spec_boundaries().len() == old(self).spec_boundaries().len(),
            forall|j: int|
                0 <= j < old(self).spec_boundaries().len() && j != k ==> #[trigger] final(self).spec_boundaries()[j]
                    == old(self).spec_boundaries()[j],
            final(self).spec_boundaries()[k as int].0 == old(self).spec_boundaries()[k as int].0,
            enqueued(final(self).spec_boundaries()[k as int].1, old(self).spec_boundaries()[k as int].1, channel, cell),
            final(self).spec_width() == old(self).spec_width(),
            final(self).spec_height() == old(self).spec_height(),
            final(self).spec_generation() == old(self).spec_generation(),
            forall|a: int, b: int| #[trigger] final(self).spec_in_grid(a, b) == old(self).spec_in_grid(a, b),
            forall|a: int, b: int| #[trigger] final(self).spec_cell(a, b) == old(self).spec_cell(a, b),
    {
        let ghost oe = self.boundaries@[k as int];
        let mut entry: ((usize, usize), BoundaryBuffer) = ((0, 0), BoundaryBuffer::new());
        self.boundaries.set_and_swap(k, &mut entry);
        assert(entry == oe);
        entry.1.enqueue(channel, cell);
        self.boundaries.set_and_swap(k, &mut entry);
    }

    /// Remove the oldest cell of queue `q` of boundary buffer `k`.
    pub fn pop_boundary_front(&mut self, k: usize, q: usize)
        requires
            k < old(self).spec_boundaries().len(),
            q < old(self).spec_boundaries()[k as int].1.queues@.len(),
            old(self).spec_boundaries()[k as int].1.queues@[q as int].1@.len() > 0,
        ensures
            final(self).spec_boundaries().len() == old(self).spec_boundaries().len(),
            forall|j: int|
                0 <= j < old(self).spec_boundaries().len() && j != k ==> #[trigger] final(self).spec_boundaries()[j]
                    == old(self).spec_boundaries()[j],
            final(self).spec_boundaries()[k as int].0 == old(self).spec_boundaries()[k as int].0,
            popped(final(self).spec_boundaries()[k as int].1, old(self).spec_boundaries()[k as int].1, q as int),
            final(self).spec_width() == old(self).spec_width(),
            final(self).spec_height() == old(self).spec_height(),
            final(self).spec_generation() == old(self).spec_generation(),
            forall|a: int, b: int| #[trigger] final(self).spec_in_grid(a, b) == old(self).spec_in_grid(a, b),
            forall|a: int, b: int| #[trigger] final(self).spec_cell(a, b) == old(self).spec_cell(a, b),
    {
        let ghost oe = self.boundaries@[k as int];
        let ghost ob = oe.1;
        let ghost qs0 = queues_view(ob);
        let mut entry: ((usize, usize), BoundaryBuffer) = ((0, 0), BoundaryBuffer::new());
        self.boundaries.set_and_swap(k, &mut entry);
        assert(entry == oe);
        assert(qs0[q as int] == (ob.queues@[q as int].0, ob.queues@[q as int].1@));
        let mut item: (u32, Vec<Cell>) = (0, Vec::new());
        entry.1.queues.set_and_swap(q, &mut item);
        assert(item == ob.queues@[q as int]);
        item.1.remove(0);
        assert(item.1@ =~= qs0[q as int].1.drop_first());
        let ghost placed = item;
        entry.1.queues.set_and_swap(q, &mut item);
        proof {
            assert forall|j: int| 0 <= j < qs0.len() implies #[trigger] queues_view(entry.1)[j] == qs0.update(
                q as int,
                (qs0[q as int].0, qs0[q as int].1.drop_first()),
            )[j] by {
                if j == q {
                    assert(entry.1.queues@[j] == placed);
                } else {
                    assert(entry.1.queues@[j] == ob.queues@[j]);
                }
            }
            assert(queues_view(entry.1) =~= qs0.update(q as int, (qs0[q as int].0, qs0[q as int].1.drop_first())));
        }
        self.boundaries.set_and_swap(k, &mut entry);
    }

    /// Enqueue `cell` on `channel` of the boundary buffer at `(x, y)`. Returns whether a
    /// buffer is attached there; cells are unchanged either way.
    pub fn enqueue_boundary(&mut self, x: usize, y: usize, channel: u32, cell: Cell) -> (found: bool)
        ensures
            found == old(self).spec_boundary_at(x, y) is Some,
            final(self).spec_width() == old(self).spec_width(),
            final(self).spec_height() == old(self).spec_height(),
            final(self).spec_generation() == old(self).spec_generation(),
            forall|a: int, b: int| #[trigger] final(self).spec_in_grid(a, b) == old(self).spec_in_grid(a, b),
            forall|a: int, b: int| #[trigger] final(self).spec_cell(a, b) == old(self).spec_cell(a, b),
            forall|a: usize, b: usize|
                (a, b) != (x, y) ==> #[trigger] final(self).spec_boundary_at(a, b) == old(self).spec_boundary_at(a, b),
            match old(self).spec_boundary_at(x, y) {
                None => final(self).spec_boundary_at(x, y) is None,
                Some(ob) => match final(self).spec_boundary_at(x, y) {
                    Some(nb) => enqueued(nb, ob, channel, cell),
                    None => false,
                },
            },
            forall|k: int|
                0 <= k < final(self).spec_boundaries().len() ==> (#[trigger] final(self).spec_boundaries()[k]).0
                    == old(self).spec_boundaries()[k].0,
            final(self).spec_boundaries().len() == old(self).spec_boundaries().len(),
    {
        let n = self.boundaries.len();
        let mut k: usize = 0;
        while k < n
            invariant
                n == self.boundaries@.len(),
                k <= n,
                *self == *old(self),
                forall|k2: int| 0 <= k2 < k ==> (#[trigger] self.boundaries@[k2]).0 != (x, y),
            decreases n - k,
        {
            if self.boundaries[k].0.0 == x && self.boundaries[k].0.1 == y {
                let ghost before = *self;
                let mut entry: ((usize, usize), BoundaryBuffer) = ((x, y), BoundaryBuffer::new());
                self.boundaries.set_and_swap(k, &mut entry);
                let ghost ob = entry.1;
                entry.1.enqueue(channel, cell);
                let ghost nb = entry.1;
                self.boundaries.set_and_swap(k, &mut entry);
                proof {
                    assert(self.boundaries@ =~= before.boundaries@.update(k as int, ((x, y), nb)));
                    assert forall|a: usize, b: usize| #[trigger] self.spec_boundary_at(a, b) == if (a, b) == (x, y) {
                        Some(nb)
                    } else {
                        before.spec_boundary_at(a, b)
                    } by {
                        lemma_first_boundary_update(before.boundaries@, k as int, x, y, nb, 0, a, b);
                    }
                    lemma_first_boundary_update(before.boundaries@, k as int, x, y, ob, 0, x, y);
                    assert(before.boundaries@.update(k as int, ((x, y), ob)) =~= before.boundaries@);
                    assert(before.spec_boundary_at(x, y) == Some(ob));
                    assert forall|k2: int| 0 <= k2 < self.spec_boundaries().len() implies (
                    #[trigger] self.spec_boundaries()[k2]).0 == before.spec_boundaries()[k2].0 by {}
                }
                return true;
            }
            k += 1;
        }
        proof {
            lemma_first_boundary_none(self.boundaries@, 0, x, y);
        }
        false
    }
}

proof fn lemma_first_boundary_at(s: Seq<((usize, usize), BoundaryBuffer)>, from: int, k: int, x: usize, y: usize)
    requires
        0 <= from <= k < s.len(),
        forall|j: int| from <= j < k ==> (#[trigger] s[j]).0 != (x, y),
        s[k].0 == (x, y),
    ensures
        first_boundary_from(s, from, x, y) == Some(s[k].1),
    decreases k - from,
{
    if from < k {
        lemma_first_boundary_at(s, from + 1, k, x, y);
    }
}

/// Two buffers with the same queues, direction and capacity.
pub open spec fn same_buffer(a: BoundaryBuffer, b: BoundaryBuffer) -> bool {
    &&& queues_view(a) == queues_view(b)
    &&& a.direction@ == b.direction@
    &&& a.max_queue == b.max_queue
}

/// Two grids that read the same: sides, generation, cells and boundary buffers.
pub open spec fn same_grid(a: Grid, b: Grid) -> bool {
    &&& a.spec_width() == b.spec_width()
    &&& a.spec_height() == b.spec_height()
    &&& a.spec_generation() == b.spec_generation()
    &&& forall|x: int, y: int| #[trigger] a.spec_in_grid(x, y) == b.spec_in_grid(x, y)
    &&& forall|x: int, y: int| #[trigger] a.spec_cell(x, y) == b.spec_cell(x, y)
    &&& a.spec_boundaries().len() == b.spec_boundaries().len()
    &&& forall|k: int|
        0 <= k < a.spec_boundaries().len() ==> (#[trigger] a.spec_boundaries()[k]).0 == b.spec_boundaries()[k].0
            && same_buffer(a.spec_boundaries()[k].1, b.spec_boundaries()[k].1)
}

/// The cells held by the queues, queue by queue, oldest first.
pub open spec fn queued_cells(qs: Seq<(u32, Seq<Cell>)>) -> Seq<Cell>
    decreases qs.len(),
{
    if qs.len() == 0 {
        Seq::empty()
    } else {
        queued_cells(qs.drop_last()) + qs.last().1
    }
}

/// `nb` is `ob` with every queue emptied (channels, direction and capacity kept).
pub open spec fn drained(nb: BoundaryBuffer, ob: BoundaryBuffer) -> bool {
    &&& queues_view(nb) == queues_view(ob).map_values(|e: (u32, Seq<Cell>)| (e.0, Seq::<Cell>::empty()))
    &&& nb.direction@ == ob.direction@
    &&& nb.max_queue == ob.max_queue
}

/// `nb` is `ob` with the oldest cell of queue `q` removed.
pub open spec fn popped(nb: BoundaryBuffer, ob: BoundaryBuffer, q: int) -> bool {
    let qs = queues_view(ob);
    &&& queues_view(nb) == qs.update(q, (qs[q].0, qs[q].1.drop_first()))
    &&& nb.direction@ == ob.direction@
    &&& nb.max_queue == ob.max_queue
}

/// `nb` is `ob` with `cell` enqueued on `channel`.
pub open spec fn enqueued(nb: BoundaryBuffer, ob: BoundaryBuffer, channel: u32, cell: Cell) -> bool {
    &&& queues_view(nb) == spec_enqueue(queues_view(ob), channel, cell, ob.max_queue)
    &&& nb.direction@ == ob.direction@
    &&& nb.max_queue == ob.max_queue
}

proof fn lemma_first_boundary_none(s: Seq<((usize, usize), BoundaryBuffer)>, k: int, x: usize, y: usize)
    requires
        0 <= k <= s.len(),
        forall|j: int| k <= j < s.len() ==> (#[trigger] s[j]).0 != (x, y),
    ensures
        first_boundary_from(s, k, x, y) is None,
    decreases s.len() - k,
{
    if k < s.len() {
        lemma_first_boundary_none(s, k + 1, x, y);
    }
}

} // verus!
