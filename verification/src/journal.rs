use vstd::prelude::*;
use crate::grid::Grid;
use crate::types::{Cell, CellValue, RecordedValue};

verus! {

// ---------------------------------------------------------------------------
// Write buffer: cell writes of one tick, the last write to a cell winning
// ---------------------------------------------------------------------------

/// Map that a list of writes leaves: each write replaces the earlier one to its cell.
pub open spec fn writes_map(s: Seq<((u32, u32), Cell)>) -> Map<(u32, u32), Cell>
    decreases s.len(),
{
    if s.len() == 0 {
        Map::empty()
    } else {
        writes_map(s.drop_last()).insert(s.last().0, s.last().1)
    }
}

/// Cell writes of one tick, read back before they reach the grid. All writes read the grid
/// as it was before the tick; the buffer is flushed into the grid at once.
pub struct WriteBuffer {
    entries: Vec<((u32, u32), Cell)>,
}

impl View for WriteBuffer {
    type V = Map<(u32, u32), Cell>;

    closed spec fn view(&self) -> Map<(u32, u32), Cell> {
        writes_map(self.entries@)
    }
}

proof fn lemma_writes_map_push(s: Seq<((u32, u32), Cell)>, e: ((u32, u32), Cell))
    ensures
        writes_map(s.push(e)) == writes_map(s).insert(e.0, e.1),
{
    assert(s.push(e).drop_last() =~= s);
}

impl WriteBuffer {
    /// An empty buffer.
    pub fn new() -> (b: WriteBuffer)
        ensures
            b@ == Map::<(u32, u32), Cell>::empty(),
    {
        WriteBuffer { entries: Vec::new() }
    }

    /// Write `cell` at `(x, y)`, replacing an earlier write there.
    pub fn insert(&mut self, x: u32, y: u32, cell: Cell)
        ensures
            final(self)@ == old(self)@.insert((x, y), cell),
    {
        proof {
            lemma_writes_map_push(self.entries@, ((x, y), cell));
        }
        self.entries.push(((x, y), cell));
    }

    /// The cell written at `(x, y)`, if any.
    pub fn get(&self, x: u32, y: u32) -> (r: Option<Cell>)
        ensures
            r == (if self@.contains_key((x, y)) {
                Some(self@[(x, y)])
            } else {
                None
            }),
    {
        let mut k = self.entries.len();
        while k > 0
            invariant
                k <= self.entries@.len(),
                forall|j: int| k <= j < self.entries@.len() ==> (#[trigger] self.entries@[j]).0 != (x, y),
            decreases k,
        {
            if self.entries[k - 1].0.0 == x && self.entries[k - 1].0.1 == y {
                let ghost t = self.entries@.take(k as int);
                proof {
                    lemma_writes_map_suffix(self.entries@, k as int, x, y);
                    assert(t.drop_last() =~= self.entries@.take(k as int - 1));
                    lemma_writes_map_push(t.drop_last(), t.last());
                    assert(t.drop_last().push(t.last()) =~= t);
                }
                return Some(self.entries[k - 1].1);
            }
            k -= 1;
        }
        proof {
            lemma_writes_map_suffix(self.entries@, 0, x, y);
            assert(self.entries@.take(0).len() == 0);
        }
        None
    }

    /// Write every buffered cell into the grid, with generation `gen` as its birth. Cells
    /// outside the grid are dropped.
    pub fn flush_into(&self, grid: &mut Grid, gen: u64)
        ensures
            final(grid).spec_width() == old(grid).spec_width(),
            final(grid).spec_height() == old(grid).spec_height(),
            final(grid).spec_generation() == old(grid).spec_generation(),
            final(grid).spec_boundaries() == old(grid).spec_boundaries(),
            forall|a: int, b: int| #[trigger] final(grid).spec_in_grid(a, b) == old(grid).spec_in_grid(a, b),
            forall|a: int, b: int|
                #[trigger] final(grid).spec_cell(a, b) == if 0 <= a <= u32::MAX && 0 <= b <= u32::MAX
                    && self@.contains_key((a as u32, b as u32)) && old(grid).spec_in_grid(a, b) {
                    Cell { value: self@[(a as u32, b as u32)].value, born_at: gen }
                } else {
                    old(grid).spec_cell(a, b)
                },
    {
        let n = self.entries.len();
        let mut k: usize = 0;
        while k < n
            invariant
                n == self.entries@.len(),
                k <= n,
                grid.spec_width() == old(grid).spec_width(),
                grid.spec_height() == old(grid).spec_height(),
                grid.spec_generation() == old(grid).spec_generation(),
                grid.spec_boundaries() == old(grid).spec_boundaries(),
                forall|a: int, b: int| #[trigger] grid.spec_in_grid(a, b) == old(grid).spec_in_grid(a, b),
                forall|a: int, b: int|
                    #[trigger] grid.spec_cell(a, b) == if 0 <= a <= u32::MAX && 0 <= b <= u32::MAX && writes_map(
                        self.entries@.take(k as int),
                    ).contains_key((a as u32, b as u32)) && old(grid).spec_in_grid(a, b) {
                        Cell {
                            value: writes_map(self.entries@.take(k as int))[(a as u32, b as u32)].value,
                            born_at: gen,
                        }
                    } else {
                        old(grid).spec_cell(a, b)
                    },
            decreases n - k,
        {
            let ((x, y), cell) = self.entries[k];
            let ghost before = *grid;
            grid.set_cell(x as usize, y as usize, Cell { value: cell.value, born_at: gen });
            let ghost k0 = k as int;
            k += 1;
            proof {
                assert(self.entries@.take(k0).push(self.entries@[k0]) =~= self.entries@.take(k as int));
                lemma_writes_map_push(self.entries@.take(k0), self.entries@[k0]);
                assert forall|a: int, b: int|
                    #[trigger] grid.spec_cell(a, b) == if 0 <= a <= u32::MAX && 0 <= b <= u32::MAX && writes_map(
                        self.entries@.take(k as int),
                    ).contains_key((a as u32, b as u32)) && old(grid).spec_in_grid(a, b) {
                        Cell {
                            value: writes_map(self.entries@.take(k as int))[(a as u32, b as u32)].value,
                            born_at: gen,
                        }
                    } else {
                        old(grid).spec_cell(a, b)
                    } by {
                    assert(before.spec_in_grid(a, b) == old(grid).spec_in_grid(a, b));
                    if 0 <= a <= u32::MAX && 0 <= b <= u32::MAX && a as u32 == x && b as u32 == y {
                        assert(a == x && b == y);
                    }
                }
            }
        }
        assert(self.entries@.take(n as int) =~= self.entries@);
    }
}

/// The writes after position `k` never touch `(x, y)`: the map of the whole list agrees with
/// the map of its first `k` writes there.
proof fn lemma_writes_map_suffix(s: Seq<((u32, u32), Cell)>, k: int, x: u32, y: u32)
    requires
        0 <= k <= s.len(),
        forall|j: int| k <= j < s.len() ==> (#[trigger] s[j]).0 != (x, y),
    ensures
        writes_map(s).contains_key((x, y)) == writes_map(s.take(k)).contains_key((x, y)),
        writes_map(s).contains_key((x, y)) ==> writes_map(s)[(x, y)] == writes_map(s.take(k))[(x, y)],
    decreases s.len() - k,
{
    if k < s.len() {
        lemma_writes_map_suffix(s, k + 1, x, y);
        assert(s.take(k + 1).drop_last() =~= s.take(k));
    } else {
        assert(s.take(k) =~= s);
    }
}

/// Equality of two match keys.
pub fn same_key(a: (u32, u32, usize), b: (u32, u32, usize)) -> (r: bool)
    ensures
        r == (a == b),
{
    a.0 == b.0 && a.1 == b.1 && a.2 == b.2
}

// ---------------------------------------------------------------------------
// Per-match state: a map keyed by (x, y, rule index), the last entry winning
// ---------------------------------------------------------------------------

/// Map that a list of settings and removals leaves.
pub open spec fn journal_map<V>(s: Seq<((u32, u32, usize), Option<V>)>) -> Map<(u32, u32, usize), V>
    decreases s.len(),
{
    if s.len() == 0 {
        Map::empty()
    } else {
        match s.last().1 {
            Some(v) => journal_map(s.drop_last()).insert(s.last().0, v),
            None => journal_map(s.drop_last()).remove(s.last().0),
        }
    }
}

proof fn lemma_journal_push<V>(s: Seq<((u32, u32, usize), Option<V>)>, e: ((u32, u32, usize), Option<V>))
    ensures
        journal_map(s.push(e)) == match e.1 {
            Some(v) => journal_map(s).insert(e.0, v),
            None => journal_map(s).remove(e.0),
        },
{
    assert(s.push(e).drop_last() =~= s);
}

proof fn lemma_journal_suffix<V>(s: Seq<((u32, u32, usize), Option<V>)>, k: int, key: (u32, u32, usize))
    requires
        0 <= k <= s.len(),
        forall|j: int| k <= j < s.len() ==> (#[trigger] s[j]).0 != key,
    ensures
        journal_map(s).contains_key(key) == journal_map(s.take(k)).contains_key(key),
        journal_map(s).contains_key(key) ==> journal_map(s)[key] == journal_map(s.take(k))[key],
    decreases s.len() - k,
{
    if k < s.len() {
        lemma_journal_suffix(s, k + 1, key);
        assert(s.take(k + 1).drop_last() =~= s.take(k));
    } else {
        assert(s.take(k) =~= s);
    }
}

/// Values kept per match, keyed by `(x, y, rule index)`.
pub struct MatchMap<V> {
    entries: Vec<((u32, u32, usize), Option<V>)>,
}

impl<V> View for MatchMap<V> {
    type V = Map<(u32, u32, usize), V>;

    closed spec fn view(&self) -> Map<(u32, u32, usize), V> {
        journal_map(self.entries@)
    }
}

impl<V: Copy> MatchMap<V> {
    /// An empty map.
    pub fn new() -> (m: MatchMap<V>)
        ensures
            m@ == Map::<(u32, u32, usize), V>::empty(),
    {
        MatchMap { entries: Vec::new() }
    }

    /// Set the value of `key`.
    pub fn set(&mut self, key: (u32, u32, usize), v: V)
        ensures
            final(self)@ == old(self)@.insert(key, v),
    {
        proof {
            lemma_journal_push(self.entries@, (key, Some(v)));
        }
        self.entries.push((key, Some(v)));
    }

    /// Remove `key`.
    pub fn remove(&mut self, key: (u32, u32, usize))
        ensures
            final(self)@ == old(self)@.remove(key),
    {
        proof {
            lemma_journal_push(self.entries@, (key, None));
        }
        self.entries.push((key, None));
    }

    /// The value of `key`, if any.
    pub fn get(&self, key: (u32, u32, usize)) -> (r: Option<V>)
        ensures
            r == (if self@.contains_key(key) {
                Some(self@[key])
            } else {
                None
            }),
    {
        let mut k = self.entries.len();
        while k > 0
            invariant
                k <= self.entries@.len(),
                forall|j: int| k <= j < self.entries@.len() ==> (#[trigger] self.entries@[j]).0 != key,
            decreases k,
        {
            if same_key(self.entries[k - 1].0, key) {
                let ghost t = self.entries@.take(k as int);
                proof {
                    lemma_journal_suffix(self.entries@, k as int, key);
                    assert(t.drop_last() =~= self.entries@.take(k as int - 1));
                    lemma_journal_push(t.drop_last(), t.last());
                    assert(t.drop_last().push(t.last()) =~= t);
                }
                return self.entries[k - 1].1;
            }
            k -= 1;
        }
        proof {
            lemma_journal_suffix(self.entries@, 0, key);
            assert(self.entries@.take(0).len() == 0);
        }
        None
    }

    /// A copy of the map.
    pub fn duplicate(&self) -> (r: MatchMap<V>)
        ensures
            r@ == self@,
    {
        let mut entries: Vec<((u32, u32, usize), Option<V>)> = Vec::new();
        let mut k: usize = 0;
        while k < self.entries.len()
            invariant
                k <= self.entries@.len(),
                entries@ == self.entries@.take(k as int),
            decreases self.entries@.len() - k,
        {
            entries.push(self.entries[k]);
            k += 1;
            assert(self.entries@.take(k as int) =~= self.entries@.take(k - 1).push(self.entries@[k - 1]));
        }
        assert(self.entries@.take(k as int) =~= self.entries@);
        MatchMap { entries }
    }

    /// Every key that has a value (possibly with repeats, possibly with keys that have none).
    pub fn key_list(&self) -> (r: Vec<(u32, u32, usize)>)
        ensures
            forall|k: (u32, u32, usize)| #[trigger] self@.contains_key(k) ==> r@.contains(k),
    {
        let mut out: Vec<(u32, u32, usize)> = Vec::new();
        let mut i: usize = 0;
        while i < self.entries.len()
            invariant
                i <= self.entries@.len(),
                out@.len() == i,
                forall|j: int| 0 <= j < i ==> out@[j] == (#[trigger] self.entries@[j]).0,
            decreases self.entries@.len() - i,
        {
            out.push(self.entries[i].0);
            i += 1;
        }
        proof {
            assert forall|k: (u32, u32, usize)| #[trigger] self@.contains_key(k) implies out@.contains(k) by {
                lemma_journal_dom(self.entries@, k);
                let j = choose|j: int| 0 <= j < self.entries@.len() && self.entries@[j].0 == k;
                assert(out@[j] == k);
            }
        }
        out
    }

    /// Move the value of `from` to `to`, when `from` has one.
    pub fn relocate(&mut self, from: (u32, u32, usize), to: (u32, u32, usize))
        ensures
            final(self)@ == if old(self)@.contains_key(from) {
                old(self)@.remove(from).insert(to, old(self)@[from])
            } else {
                old(self)@
            },
    {
        if let Some(v) = self.get(from) {
            self.remove(from);
            self.set(to, v);
        }
    }
}

// ---------------------------------------------------------------------------
// Memory buffers: the last observations of each match
// ---------------------------------------------------------------------------

/// The observation buffers of one list of settings and removals.
pub open spec fn memory_map(s: Seq<((u32, u32, usize), Option<Vec<RecordedValue>>)>) -> Map<
    (u32, u32, usize),
    Seq<RecordedValue>,
>
    decreases s.len(),
{
    if s.len() == 0 {
        Map::empty()
    } else {
        match s.last().1 {
            Some(v) => memory_map(s.drop_last()).insert(s.last().0, v@),
            None => memory_map(s.drop_last()).remove(s.last().0),
        }
    }
}

/// `b` with `v` appended, the oldest entries dropped to keep at most `window`.
pub open spec fn spec_observe(b: Seq<RecordedValue>, v: RecordedValue, window: usize) -> Seq<RecordedValue> {
    let p = b.push(v);
    if p.len() > window {
        p.skip(p.len() - window)
    } else {
        p
    }
}

/// Observation buffers of matches, keyed by `(x, y, rule index)`.
pub struct MemoryBuffers {
    entries: Vec<((u32, u32, usize), Option<Vec<RecordedValue>>)>,
}

impl View for MemoryBuffers {
    type V = Map<(u32, u32, usize), Seq<RecordedValue>>;

    closed spec fn view(&self) -> Map<(u32, u32, usize), Seq<RecordedValue>> {
        memory_map(self.entries@)
    }
}

proof fn lemma_memory_push(
    s: Seq<((u32, u32, usize), Option<Vec<RecordedValue>>)>,
    e: ((u32, u32, usize), Option<Vec<RecordedValue>>),
)
    ensures
        memory_map(s.push(e)) == match e.1 {
            Some(v) => memory_map(s).insert(e.0, v@),
            None => memory_map(s).remove(e.0),
        },
{
    assert(s.push(e).drop_last() =~= s);
}

proof fn lemma_memory_suffix(
    s: Seq<((u32, u32, usize), Option<Vec<RecordedValue>>)>,
    k: int,
    key: (u32, u32, usize),
)
    requires
        0 <= k <= s.len(),
        forall|j: int| k <= j < s.len() ==> (#[trigger] s[j]).0 != key,
    ensures
        memory_map(s).contains_key(key) == memory_map(s.take(k)).contains_key(key),
        memory_map(s).contains_key(key) ==> memory_map(s)[key] == memory_map(s.take(k))[key],
    decreases s.len() - k,
{
    if k < s.len() {
        lemma_memory_suffix(s, k + 1, key);
        assert(s.take(k + 1).drop_last() =~= s.take(k));
    } else {
        assert(s.take(k) =~= s);
    }
}

impl MemoryBuffers {
    /// No buffers.
    pub fn new() -> (m: MemoryBuffers)
        ensures
            m@ == Map::<(u32, u32, usize), Seq<RecordedValue>>::empty(),
    {
        MemoryBuffers { entries: Vec::new() }
    }

    /// Index of the last entry of `key`, if any.
    fn last_index(&self, key: (u32, u32, usize)) -> (r: Option<usize>)
        ensures
            match r {
                Some(i) => i < self.entries@.len() && self.entries@[i as int].0 == key && forall|j: int|
                    i < j < self.entries@.len() ==> (#[trigger] self.entries@[j]).0 != key,
                None => forall|j: int| 0 <= j < self.entries@.len() ==> (#[trigger] self.entries@[j]).0 != key,
            },
    {
        let mut k = self.entries.len();
        while k > 0
            invariant
                k <= self.entries@.len(),
                forall|j: int| k <= j < self.entries@.len() ==> (#[trigger] self.entries@[j]).0 != key,
            decreases k,
        {
            if same_key(self.entries[k - 1].0, key) {
                return Some(k - 1);
            }
            k -= 1;
        }
        None
    }

    /// The buffer of `key` as a fresh vector, if any.
    fn copy_of(&self, key: (u32, u32, usize)) -> (r: Option<Vec<RecordedValue>>)
        ensures
            match r {
                Some(v) => self@.contains_key(key) && v@ == self@[key],
                None => !self@.contains_key(key),
            },
    {
        match self.last_index(key) {
            None => {
                proof {
                    lemma_memory_suffix(self.entries@, 0, key);
                    assert(self.entries@.take(0).len() == 0);
                }
                None
            },
            Some(i) => {
                let ghost t = self.entries@.take(i as int + 1);
                proof {
                    lemma_memory_suffix(self.entries@, i as int + 1, key);
                    assert(t.drop_last() =~= self.entries@.take(i as int));
                    lemma_memory_push(t.drop_last(), t.last());
                    assert(t.drop_last().push(t.last()) =~= t);
                }
                match &self.entries[i].1 {
                    None => None,
                    Some(src) => {
                        let mut out: Vec<RecordedValue> = Vec::new();
                        let mut j: usize = 0;
                        while j < src.len()
                            invariant
                                j <= src@.len(),
                                out@ == src@.take(j as int),
                            decreases src@.len() - j,
                        {
                            out.push(src[j]);
                            assert(src@.take(j as int + 1) =~= src@.take(j as int).push(src@[j as int]));
                            j += 1;
                        }
                        assert(src@.take(j as int) =~= src@);
                        Some(out)
                    },
                }
            },
        }
    }

    /// The buffer of `key` is full (`window` entries) and equal to `pattern`.
    pub fn gate_open(&self, key: (u32, u32, usize), window: usize, pattern: &Vec<RecordedValue>) -> (b: bool)
        ensures
            b == (self@.contains_key(key) && self@[key].len() == window && self@[key] == pattern@),
    {
        match self.copy_of(key) {
            None => false,
            Some(buf) => {
                if buf.len() != window || buf.len() != pattern.len() {
                    return false;
                }
                let mut j: usize = 0;
                while j < buf.len()
                    invariant
                        self@.contains_key(key),
                        buf@ == self@[key],
                        buf@.len() == window,
                        j <= buf@.len(),
                        buf@.len() == pattern@.len(),
                        forall|q: int| 0 <= q < j ==> buf@[q] == pattern@[q],
                    decreases buf@.len() - j,
                {
                    if buf[j] != pattern[j] {
                        assert(buf@[j as int] != pattern@[j as int]);
                        assert(buf@ != pattern@);
                        return false;
                    }
                    j += 1;
                }
                assert(buf@ =~= pattern@);
                true
            },
        }
    }

    /// Append an observation to the buffer of `key` (created empty when missing), keeping at
    /// most `window` entries.
    pub fn observe(&mut self, key: (u32, u32, usize), v: RecordedValue, window: usize)
        ensures
            final(self)@ == old(self)@.insert(
                key,
                spec_observe(
                    if old(self)@.contains_key(key) {
                        old(self)@[key]
                    } else {
                        Seq::empty()
                    },
                    v,
                    window,
                ),
            ),
    {
        let mut buf = match self.copy_of(key) {
            Some(b) => b,
            None => Vec::new(),
        };
        let ghost start = buf@;
        buf.push(v);
        let ghost pushed = buf@;
        assert(pushed.skip(0) =~= pushed);
        while buf.len() > window
            invariant
                pushed == start.push(v),
                buf@.len() <= pushed.len(),
                buf@.len() >= window || buf@.len() == pushed.len(),
                buf@ == pushed.skip(pushed.len() - buf@.len()),
            decreases buf@.len(),
        {
            let ghost b0 = buf@;
            buf.remove(0);
            assert(pushed.skip(pushed.len() - b0.len()).drop_first() =~= pushed.skip(pushed.len() - buf@.len()));
        }
        proof {
            if pushed.len() > window {
                assert(buf@.len() == window);
            } else {
                assert(buf@ =~= pushed);
            }
            lemma_memory_push(self.entries@, (key, Some(buf)));
        }
        self.entries.push((key, Some(buf)));
    }

    /// Drop the buffer of `key`.
    pub fn remove(&mut self, key: (u32, u32, usize))
        ensures
            final(self)@ == old(self)@.remove(key),
    {
        proof {
            lemma_memory_push(self.entries@, (key, None));
        }
        self.entries.push((key, None));
    }

    /// A copy of the buffers.
    pub fn duplicate(&self) -> (r: MemoryBuffers)
        ensures
            r@ == self@,
    {
        let mut entries: Vec<((u32, u32, usize), Option<Vec<RecordedValue>>)> = Vec::new();
        let mut k: usize = 0;
        while k < self.entries.len()
            invariant
                k <= self.entries@.len(),
                memory_map(entries@) == memory_map(self.entries@.take(k as int)),
            decreases self.entries@.len() - k,
        {
            let key = self.entries[k].0;
            let copy: Option<Vec<RecordedValue>> = match &self.entries[k].1 {
                Some(src) => {
                    let mut out: Vec<RecordedValue> = Vec::new();
                    let mut j: usize = 0;
                    while j < src.len()
                        invariant
                            j <= src@.len(),
                            out@ == src@.take(j as int),
                        decreases src@.len() - j,
                    {
                        out.push(src[j]);
                        j += 1;
                        assert(src@.take(j as int) =~= src@.take(j - 1).push(src@[j - 1]));
                    }
                    assert(src@.take(j as int) =~= src@);
                    Some(out)
                },
                None => None,
            };
            let ghost before = entries@;
            proof {
                lemma_memory_push(before, (key, copy));
                lemma_memory_push(self.entries@.take(k as int), self.entries@[k as int]);
                assert(self.entries@.take(k + 1) =~= self.entries@.take(k as int).push(self.entries@[k as int]));
            }
            entries.push((key, copy));
            k += 1;
        }
        assert(self.entries@.take(k as int) =~= self.entries@);
        MemoryBuffers { entries }
    }

    /// Every key that has a value (possibly with repeats, possibly with keys that have none).
    pub fn key_list(&self) -> (r: Vec<(u32, u32, usize)>)
        ensures
            forall|k: (u32, u32, usize)| #[trigger] self@.contains_key(k) ==> r@.contains(k),
    {
        let mut out: Vec<(u32, u32, usize)> = Vec::new();
        let mut i: usize = 0;
        while i < self.entries.len()
            invariant
                i <= self.entries@.len(),
                out@.len() == i,
                forall|j: int| 0 <= j < i ==> out@[j] == (#[trigger] self.entries@[j]).0,
            decreases self.entries@.len() - i,
        {
            out.push(self.entries[i].0);
            i += 1;
        }
        proof {
            assert forall|k: (u32, u32, usize)| #[trigger] self@.contains_key(k) implies out@.contains(k) by {
                lemma_memory_dom(self.entries@, k);
                let j = choose|j: int| 0 <= j < self.entries@.len() && self.entries@[j].0 == k;
                assert(out@[j] == k);
            }
        }
        out
    }

    /// Move the buffer of `from` to `to`, when `from` has one.
    pub fn relocate(&mut self, from: (u32, u32, usize), to: (u32, u32, usize))
        ensures
            final(self)@ == if old(self)@.contains_key(from) {
                old(self)@.remove(from).insert(to, old(self)@[from])
            } else {
                old(self)@
            },
    {
        if let Some(v) = self.copy_of(from) {
            proof {
                lemma_memory_push(self.entries@, (from, None));
            }
            self.entries.push((from, None));
            let ghost mid = self.entries@;
            proof {
                lemma_memory_push(mid, (to, Some(v)));
            }
            self.entries.push((to, Some(v)));
        }
    }
}

// ---------------------------------------------------------------------------
// Activation counters: wins per rule, keyed by (head, rule index)
// ---------------------------------------------------------------------------

/// Counters that a list of settings and removals leaves, the last entry of a key winning.
pub open spec fn counter_map(s: Seq<((u8, usize), Option<u32>)>) -> Map<(u8, usize), u32>
    decreases s.len(),
{
    if s.len() == 0 {
        Map::empty()
    } else {
        match s.last().1 {
            Some(v) => counter_map(s.drop_last()).insert(s.last().0, v),
            None => counter_map(s.drop_last()).remove(s.last().0),
        }
    }
}

/// Number of wins of each rule, keyed by `(head, rule index)`.
pub struct ActivationCounters {
    entries: Vec<((u8, usize), Option<u32>)>,
}

impl View for ActivationCounters {
    type V = Map<(u8, usize), u32>;

    closed spec fn view(&self) -> Map<(u8, usize), u32> {
        counter_map(self.entries@)
    }
}

impl ActivationCounters {
    /// No counters.
    pub fn new() -> (c: ActivationCounters)
        ensures
            c@ == Map::<(u8, usize), u32>::empty(),
    {
        ActivationCounters { entries: Vec::new() }
    }

    /// The counter of `key`; 0 when it has none.
    pub fn get(&self, key: (u8, usize)) -> (r: u32)
        ensures
            r == (if self@.contains_key(key) {
                self@[key]
            } else {
                0
            }),
    {
        let mut k = self.entries.len();
        while k > 0
            invariant
                k <= self.entries@.len(),
                forall|j: int| k <= j < self.entries@.len() ==> (#[trigger] self.entries@[j]).0 != key,
            decreases k,
        {
            let e = self.entries[k - 1];
            if e.0.0 == key.0 && e.0.1 == key.1 {
                proof {
                    lemma_counter_last(self.entries@, k as int - 1, key);
                }
                return match e.1 {
                    Some(v) => v,
                    None => 0,
                };
            }
            k -= 1;
        }
        proof {
            lemma_counter_absent(self.entries@, key);
        }
        0
    }

    /// One more win for `key`, saturating at `u32::MAX`.
    pub fn increment(&mut self, key: (u8, usize))
        ensures
            final(self)@ == old(self)@.insert(
                key,
                sat_inc32(
                    if old(self)@.contains_key(key) {
                        old(self)@[key]
                    } else {
                        0
                    },
                ),
            ),
    {
        let c = self.get(key);
        let v = if c == u32::MAX {
            c
        } else {
            c + 1
        };
        proof {
            assert(self.entries@.push((key, Some(v))).drop_last() =~= self.entries@);
        }
        self.entries.push((key, Some(v)));
    }

    /// A copy of the counters.
    pub fn duplicate(&self) -> (r: ActivationCounters)
        ensures
            r@ == self@,
    {
        let mut entries: Vec<((u8, usize), Option<u32>)> = Vec::new();
        let mut k: usize = 0;
        while k < self.entries.len()
            invariant
                k <= self.entries@.len(),
                entries@ == self.entries@.take(k as int),
            decreases self.entries@.len() - k,
        {
            entries.push(self.entries[k]);
            k += 1;
            assert(self.entries@.take(k as int) =~= self.entries@.take(k - 1).push(self.entries@[k - 1]));
        }
        assert(self.entries@.take(k as int) =~= self.entries@);
        ActivationCounters { entries }
    }

    /// Every key that has a counter (possibly with repeats, possibly with keys that have none).
    pub fn key_list(&self) -> (r: Vec<(u8, usize)>)
        ensures
            forall|k: (u8, usize)| #[trigger] self@.contains_key(k) ==> r@.contains(k),
    {
        let mut out: Vec<(u8, usize)> = Vec::new();
        let mut i: usize = 0;
        while i < self.entries.len()
            invariant
                i <= self.entries@.len(),
                out@.len() == i,
                forall|j: int| 0 <= j < i ==> out@[j] == (#[trigger] self.entries@[j]).0,
            decreases self.entries@.len() - i,
        {
            out.push(self.entries[i].0);
            i += 1;
        }
        proof {
            assert forall|k: (u8, usize)| #[trigger] self@.contains_key(k) implies out@.contains(k) by {
                lemma_counter_dom(self.entries@, k);
                let j = choose|j: int| 0 <= j < self.entries@.len() && self.entries@[j].0 == k;
                assert(out@[j] == k);
            }
        }
        out
    }

    /// Drop the counter of `key`.
    pub fn remove(&mut self, key: (u8, usize))
        ensures
            final(self)@ == old(self)@.remove(key),
    {
        proof {
            assert(self.entries@.push((key, None)).drop_last() =~= self.entries@);
        }
        self.entries.push((key, None));
    }
}

/// `v + 1`, saturating at `u32::MAX`.
pub open spec fn sat_inc32(v: u32) -> u32 {
    if v == u32::MAX {
        v
    } else {
        (v + 1) as u32
    }
}

/// `v + 1`, saturating at `u64::MAX`.
pub open spec fn sat_inc64(v: u64) -> u64 {
    if v == u64::MAX {
        v
    } else {
        (v + 1) as u64
    }
}

proof fn lemma_counter_last(s: Seq<((u8, usize), Option<u32>)>, i: int, key: (u8, usize))
    requires
        0 <= i < s.len(),
        s[i].0 == key,
        forall|j: int| i < j < s.len() ==> (#[trigger] s[j]).0 != key,
    ensures
        counter_map(s).contains_key(key) == s[i].1 is Some,
        s[i].1 is Some ==> counter_map(s)[key] == s[i].1->0,
    decreases s.len(),
{
    if i < s.len() - 1 {
        assert(s.drop_last()[i] == s[i]);
        assert forall|j: int| i < j < s.drop_last().len() implies (#[trigger] s.drop_last()[j]).0 != key by {
            assert(s.drop_last()[j] == s[j]);
        }
        lemma_counter_last(s.drop_last(), i, key);
    }
}

proof fn lemma_counter_absent(s: Seq<((u8, usize), Option<u32>)>, key: (u8, usize))
    requires
        forall|j: int| 0 <= j < s.len() ==> (#[trigger] s[j]).0 != key,
    ensures
        !counter_map(s).contains_key(key),
    decreases s.len(),
{
    if s.len() > 0 {
        assert forall|j: int| 0 <= j < s.drop_last().len() implies (#[trigger] s.drop_last()[j]).0 != key by {
            assert(s.drop_last()[j] == s[j]);
        }
        lemma_counter_absent(s.drop_last(), key);
    }
}

proof fn lemma_journal_dom<V>(s: Seq<((u32, u32, usize), Option<V>)>, k: (u32, u32, usize))
    ensures
        journal_map(s).contains_key(k) ==> exists|j: int| 0 <= j < s.len() && s[j].0 == k,
    decreases s.len(),
{
    if s.len() > 0 {
        lemma_journal_dom(s.drop_last(), k);
        if journal_map(s).contains_key(k) && s.last().0 != k {
            let j = choose|j: int| 0 <= j < s.drop_last().len() && s.drop_last()[j].0 == k;
            assert(s[j] == s.drop_last()[j]);
        }
        if s.last().0 == k {
            assert(s[s.len() - 1].0 == k);
        }
    }
}

proof fn lemma_memory_dom(s: Seq<((u32, u32, usize), Option<Vec<RecordedValue>>)>, k: (u32, u32, usize))
    ensures
        memory_map(s).contains_key(k) ==> exists|j: int| 0 <= j < s.len() && s[j].0 == k,
    decreases s.len(),
{
    if s.len() > 0 {
        lemma_memory_dom(s.drop_last(), k);
        if memory_map(s).contains_key(k) && s.last().0 != k {
            let j = choose|j: int| 0 <= j < s.drop_last().len() && s.drop_last()[j].0 == k;
            assert(s[j] == s.drop_last()[j]);
        }
        if s.last().0 == k {
            assert(s[s.len() - 1].0 == k);
        }
    }
}

proof fn lemma_counter_dom(s: Seq<((u8, usize), Option<u32>)>, k: (u8, usize))
    ensures
        counter_map(s).contains_key(k) ==> exists|j: int| 0 <= j < s.len() && s[j].0 == k,
    decreases s.len(),
{
    if s.len() > 0 {
        lemma_counter_dom(s.drop_last(), k);
        if counter_map(s).contains_key(k) && s.last().0 != k {
            let j = choose|j: int| 0 <= j < s.drop_last().len() && s.drop_last()[j].0 == k;
            assert(s[j] == s.drop_last()[j]);
        }
        if s.last().0 == k {
            assert(s[s.len() - 1].0 == k);
        }
    }
}

} // verus!
