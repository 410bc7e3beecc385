use vstd::prelude::*;

use crate::rule_eq::{copy_rule, same_rule, same_rules};

verus! {

/// Cell type: the value a cell holds on the grid.
#[derive(Clone, Copy, Debug, PartialEq, Eq, Structural, Hash, PartialOrd, Ord)]
pub struct CellType(pub u8);

/// The value of a default (empty) cell.
pub const DEFAULT_CELL_VALUE: u8 = 0;

impl CellType {
    pub fn new(v: u8) -> (r: CellType)
        ensures
            r.0 == v,
    {
        CellType(v)
    }
}

/// Value stored in a cell.
#[derive(Clone, Copy, Debug, PartialEq, Eq, Structural, Hash)]
pub struct CellValue(pub CellType);

impl CellValue {
    /// The default (empty) cell value.
    pub fn empty() -> (r: CellValue)
        ensures
            r.0.0 == DEFAULT_CELL_VALUE,
    {
        CellValue(CellType(DEFAULT_CELL_VALUE))
    }
}

/// A cell: its value and the generation at which it was last written.
#[derive(Clone, Copy, Debug, PartialEq, Eq, Structural)]
pub struct Cell {
    pub value: CellValue,
    pub born_at: u64,
}

impl Cell {
    /// A fresh cell holding `value`, born at generation 0.
    pub open spec fn spec_new(value: u8) -> Cell {
        Cell { value: CellValue(CellType(value)), born_at: 0 }
    }

    /// A fresh cell holding `value`, born at generation 0.
    pub fn new(value: u8) -> (r: Cell)
        ensures
            r.value.0.0 == value,
            r.born_at == 0,
            r == Cell::spec_new(value),
    {
        Cell { value: CellValue(CellType(value)), born_at: 0 }
    }

    /// The default (empty) cell.
    pub fn empty() -> (r: Cell)
        ensures
            r.value.0.0 == DEFAULT_CELL_VALUE,
            r.born_at == 0,
    {
        Cell { value: CellValue(CellType(DEFAULT_CELL_VALUE)), born_at: 0 }
    }

    pub open spec fn spec_is_default(self) -> bool {
        self.value.0.0 == DEFAULT_CELL_VALUE
    }

    /// A cell is default when it holds the default value.
    pub fn is_default(&self) -> (b: bool)
        ensures
            b == self.spec_is_default(),
    {
        self.value.0.0 == DEFAULT_CELL_VALUE
    }
}

/// Direction of a shift or of a neighbour read.
#[derive(Clone, Copy, Debug, PartialEq, Eq, Structural, Hash)]
pub enum Direction {
    Up,
    Down,
    Left,
    Right,
}

/// Unit step of a direction: Up is -y, Down +y, Left -x, Right +x.
pub open spec fn spec_direction_delta(d: Direction) -> (int, int) {
    match d {
        Direction::Up => (0, -1),
        Direction::Down => (0, 1),
        Direction::Left => (-1, 0),
        Direction::Right => (1, 0),
    }
}

/// Unit step `(dx, dy)` of a direction.
pub fn direction_delta(d: Direction) -> (r: (i32, i32))
    ensures
        r.0 as int == spec_direction_delta(d).0,
        r.1 as int == spec_direction_delta(d).1,
{
    match d {
        Direction::Up => (0, -1),
        Direction::Down => (0, 1),
        Direction::Left => (-1, 0),
        Direction::Right => (1, 0),
    }
}

/// One shift of the head cell of a rule.
#[derive(Clone, Copy, Debug, PartialEq, Eq, Structural)]
pub struct ShiftSpec {
    pub direction: Direction,
    pub steps: u16,
    /// Every cell of the path (1..=steps) receives a copy of the head, not only the last one.
    pub broadcast: bool,
    /// The source position is not cleared ("emission").
    pub keep_source: bool,
}

impl ShiftSpec {
    pub fn new(direction: Direction, steps: u16) -> (r: ShiftSpec)
        ensures
            r.direction == direction,
            r.steps == steps,
            !r.broadcast,
            !r.keep_source,
    {
        ShiftSpec { direction, steps, broadcast: false, keep_source: false }
    }
}

/// What a shift does when its target leaves the grid.
#[derive(Clone, Copy, Debug, PartialEq, Eq, Structural)]
pub enum OverflowAction {
    /// The head cell is lost.
    Discard,
    /// Write to the boundary at the clamped position: `0` carries the head's own value,
    /// any other value is written literally.
    Write(u8),
    /// Write the literal value (including 0).
    WriteLiteral(u8),
}

impl OverflowAction {
    pub fn default_action() -> (r: OverflowAction)
        ensures
            r == OverflowAction::Discard,
    {
        OverflowAction::Discard
    }
}

/// The value a change writes.
#[derive(Debug, PartialEq, Eq)]
pub enum ChangeValue {
    /// A literal cell type.
    Literal(u8),
    /// The value read at the given entry of the rule's pattern.
    Ref(usize),
    /// Sum of two change values.
    Add(Box<ChangeValue>, Box<ChangeValue>),
    /// Difference of two change values.
    Sub(Box<ChangeValue>, Box<ChangeValue>),
}

/// Content-addressable search: attract the nearest cell of `target_type` within `radius`.
#[derive(Clone, Copy, Debug, PartialEq, Eq, Structural)]
pub struct CamSearch {
    pub radius: u8,
    pub target_type: CellType,
}

/// After `timeout` detections the single shift of the rule uses `new_direction`.
#[derive(Clone, Copy, Debug, PartialEq, Eq, Structural)]
pub struct FeedbackSpec {
    pub timeout: u64,
    pub new_direction: Direction,
}

/// Bounded in-tick cascade of the rule along `direction`.
#[derive(Clone, Copy, Debug, PartialEq, Eq, Structural)]
pub struct RecursionSpec {
    pub max_depth: u8,
    pub direction: Direction,
}

/// What a memory buffer records.
#[derive(Clone, Copy, Debug, PartialEq, Eq, Structural)]
pub enum RecordTrigger {
    /// The type of the neighbour in the given direction.
    NeighborType(Direction),
    /// Whether the rule won arbitration.
    RuleOutcome,
}

/// A recorded observation.
#[derive(Clone, Copy, Debug, PartialEq, Eq, Structural)]
pub enum RecordedValue {
    Type(CellType),
    Applied,
    Missed,
}

/// Gate on the last `window` observations.
#[derive(Clone, Debug, PartialEq, Eq)]
pub struct MemorySpec {
    pub window: usize,
    pub record_trigger: RecordTrigger,
    pub match_pattern: Vec<RecordedValue>,
}

/// A rewrite rule.
pub struct Rule {
    pub id: Vec<CellType>,
    pub pattern: Vec<(i8, i8, CellType)>,
    pub shifts: Vec<Vec<ShiftSpec>>,
    pub changes: Vec<(i32, i32, ChangeValue)>,
    pub active_only: bool,
    pub priority: u32,
    pub min_age: u64,
    pub overflow: OverflowAction,
    pub cam: Option<CamSearch>,
    pub tie_break: u32,
    pub starvation_after: Option<u32>,
    pub feedback: Option<FeedbackSpec>,
    pub recursion: Option<RecursionSpec>,
    pub memory: Option<MemorySpec>,
    pub max_activations: Option<u32>,
    pub cross_layer_reads: Vec<(i8, i8, i8, CellType)>,
}

/// A match of rule `rule_idx` (index in the rules of head `head`) centred at `(x, y)`.
#[derive(Clone, Copy, Debug, PartialEq, Eq, Structural)]
pub struct RuleMatch {
    pub x: u32,
    pub y: u32,
    pub head: CellType,
    pub rule_idx: usize,
}

/// Cells written by one applied match, with their bounding box.
#[derive(Clone, Debug, PartialEq, Eq)]
pub struct AffectedRegion {
    pub x_start: u32,
    pub x_end: u32,
    pub y_start: u32,
    pub y_end: u32,
    pub has_changes: bool,
    pub written_cells: Vec<(u32, u32)>,
}

/// An I/O queue attached to a grid cell: one FIFO per channel.
#[derive(Clone, Debug)]
pub struct BoundaryBuffer {
    pub queues: Vec<(u32, Vec<Cell>)>,
    pub direction: String,
    pub max_queue: Option<u8>,
}

} // verus!

verus! {

/// `s` with `r` inserted after every rule whose priority is at least `r`'s: the place a
/// stable sort by descending priority gives a rule that comes last.
pub open spec fn priority_insert(s: Seq<Rule>, r: Rule) -> Seq<Rule>
    decreases s.len(),
{
    if s.len() == 0 {
        seq![r]
    } else if s.last().priority >= r.priority {
        s.push(r)
    } else {
        priority_insert(s.drop_last(), r).push(s.last())
    }
}

/// `s` stably sorted by descending priority.
pub open spec fn priority_sorted(s: Seq<Rule>) -> Seq<Rule>
    decreases s.len(),
{
    if s.len() == 0 {
        Seq::empty()
    } else {
        priority_insert(priority_sorted(s.drop_last()), s.last())
    }
}

/// Priorities never increase along `s`.
pub open spec fn priority_descending(s: Seq<Rule>) -> bool {
    forall|i: int, j: int| 0 <= i < j < s.len() ==> s[i].priority >= s[j].priority
}

/// Inserting at the position found by scanning back over lower priorities is `priority_insert`.
pub proof fn lemma_priority_insert_at(s: Seq<Rule>, r: Rule, k: int)
    requires
        0 <= k <= s.len(),
        forall|j: int| k <= j < s.len() ==> (#[trigger] s[j]).priority < r.priority,
        k == 0 || s[k - 1].priority >= r.priority,
    ensures
        priority_insert(s, r) == s.insert(k, r),
    decreases s.len(),
{
    if s.len() == 0 {
        assert(s.insert(k, r) =~= seq![r]);
    } else if s.last().priority >= r.priority {
        assert(k == s.len());
        assert(s.insert(k, r) =~= s.push(r));
    } else {
        let t = s.drop_last();
        lemma_priority_insert_at(t, r, k);
        assert(t.insert(k, r).push(s.last()) =~= s.insert(k, r));
    }
}

/// `priority_insert` keeps a descending sequence descending and adds exactly `r`.
pub proof fn lemma_priority_insert_descending(s: Seq<Rule>, r: Rule)
    requires
        priority_descending(s),
    ensures
        priority_descending(priority_insert(s, r)),
        priority_insert(s, r).len() == s.len() + 1,
        priority_insert(s, r).to_multiset() == s.to_multiset().insert(r),
    decreases s.len(),
{
    broadcast use vstd::seq_lib::group_to_multiset_ensures;
    if s.len() == 0 {
        assert(seq![r] =~= Seq::<Rule>::empty().push(r));
    } else if s.last().priority >= r.priority {
    } else {
        let t = s.drop_last();
        assert(t.push(s.last()) =~= s);
        lemma_priority_insert_descending(t, r);
        let u = priority_insert(t, r);
        assert forall|i: int, j: int| 0 <= i < j < u.push(s.last()).len() implies u.push(s.last())[i].priority
            >= u.push(s.last())[j].priority by {
            if j == u.len() {
                let m = u.to_multiset();
                assert(m.count(u[i]) > 0);
                assert(t.to_multiset().insert(r).count(u[i]) > 0);
                if u[i] != r {
                    assert(t.to_multiset().count(u[i]) > 0);
                    assert(t.contains(u[i]));
                    let q = choose|q: int| 0 <= q < t.len() && t[q] == u[i];
                    assert(s[q] == t[q]);
                }
            }
        }
    }
}

/// A stable sort by descending priority is descending and a permutation.
pub proof fn lemma_priority_sorted(s: Seq<Rule>)
    ensures
        priority_descending(priority_sorted(s)),
        priority_sorted(s).len() == s.len(),
        priority_sorted(s).to_multiset() == s.to_multiset(),
    decreases s.len(),
{
    broadcast use vstd::seq_lib::group_to_multiset_ensures;
    if s.len() > 0 {
        lemma_priority_sorted(s.drop_last());
        lemma_priority_insert_descending(priority_sorted(s.drop_last()), s.last());
        assert(s.drop_last().push(s.last()) =~= s);
    }
}

/// Rules grouped by the cell type of their head (the type of the cell a match is centred on).
/// Slot `h` holds the rules of head `h`; a head without rules has an empty or missing slot.
pub struct RuleIndex {
    slots: Vec<Vec<Rule>>,
}

impl RuleIndex {
    /// Rules of head `h`, in index order.
    pub closed spec fn rules_of(self, h: int) -> Seq<Rule> {
        if 0 <= h < self.slots@.len() {
            self.slots@[h]@
        } else {
            Seq::empty()
        }
    }

    /// A head never has more rules than a vector holds.
    pub proof fn lemma_rules_len(self, h: int)
        ensures
            self.rules_of(h).len() <= usize::MAX,
    {
        if 0 <= h < self.slots@.len() {
            assert(self.slots@[h].len() == self.slots@[h]@.len());
        }
    }

    /// A copy of the index: the same rules, head by head.
    pub fn duplicate(&self) -> (r: RuleIndex)
        ensures
            forall|h: int| #[trigger] same_rules(r.rules_of(h), self.rules_of(h)),
    {
        let mut slots: Vec<Vec<Rule>> = Vec::new();
        let mut h: usize = 0;
        while h < self.slots.len()
            invariant
                h <= self.slots@.len(),
                slots@.len() == h,
                forall|h2: int| 0 <= h2 < h ==> #[trigger] same_rules(slots@[h2]@, self.slots@[h2]@),
            decreases self.slots@.len() - h,
        {
            let src = &self.slots[h];
            let mut v: Vec<Rule> = Vec::new();
            let mut k: usize = 0;
            while k < src.len()
                invariant
                    k <= src@.len(),
                    v@.len() == k,
                    forall|i: int| 0 <= i < k ==> same_rule(#[trigger] v@[i], src@[i]),
                decreases src@.len() - k,
            {
                v.push(copy_rule(&src[k]));
                k += 1;
            }
            slots.push(v);
            h += 1;
        }
        let r = RuleIndex { slots };
        assert forall|h2: int| #[trigger] same_rules(r.rules_of(h2), self.rules_of(h2)) by {
            if 0 <= h2 < self.slots@.len() {
                assert(same_rules(slots@[h2]@, self.slots@[h2]@));
            }
        }
        r
    }

    /// An index without rules.
    pub fn new() -> (r: RuleIndex)
        ensures
            forall|h: int| #[trigger] r.rules_of(h).len() == 0,
    {
        RuleIndex { slots: Vec::new() }
    }

    /// Rules of head `head` (empty when none).
    pub fn rules(&self, head: u8) -> (r: &[Rule])
        ensures
            r@ == self.rules_of(head as int),
    {
        if (head as usize) < self.slots.len() {
            self.slots[head as usize].as_slice()
        } else {
            &[]
        }
    }

    /// Rules of head `head`; `None` when the head has none.
    pub fn get(&self, head: &CellType) -> (r: Option<&[Rule]>)
        ensures
            match r {
                Some(v) => v@ == self.rules_of(head.0 as int) && v@.len() > 0,
                None => self.rules_of(head.0 as int).len() == 0,
            },
    {
        let v = self.rules(head.0);
        if v.len() == 0 {
            None
        } else {
            Some(v)
        }
    }

    /// The head has at least one rule.
    pub fn contains_key(&self, head: &CellType) -> (b: bool)
        ensures
            b == (self.rules_of(head.0 as int).len() > 0),
    {
        self.rules(head.0).len() > 0
    }

    /// Append a rule to the rules of `head`.
    pub fn push_rule(&mut self, head: CellType, rule: Rule)
        ensures
            final(self).rules_of(head.0 as int) == old(self).rules_of(head.0 as int).push(rule),
            forall|h: int| h != head.0 ==> #[trigger] final(self).rules_of(h) == old(self).rules_of(h),
    {
        let h = head.0 as usize;
        while self.slots.len() <= h
            invariant
                forall|g: int| #[trigger] self.rules_of(g) == old(self).rules_of(g),
            decreases h + 1 - self.slots@.len(),
        {
            let ghost prev = *self;
            self.slots.push(Vec::new());
            proof {
                assert forall|g: int| #[trigger] self.rules_of(g) == prev.rules_of(g) by {
                    if g == prev.slots@.len() {
                        assert(self.rules_of(g) =~= prev.rules_of(g));
                    } else if 0 <= g < prev.slots@.len() {
                        assert(self.slots@[g] == prev.slots@[g]);
                    }
                }
            }
        }
        let ghost mid = *self;
        let mut tmp: Vec<Rule> = Vec::new();
        self.slots.set_and_swap(h, &mut tmp);
        tmp.push(rule);
        self.slots.set_and_swap(h, &mut tmp);
        proof {
            assert(self.rules_of(h as int) == mid.rules_of(h as int).push(rule));
            assert forall|g: int| g != head.0 implies #[trigger] self.rules_of(g) == mid.rules_of(g) by {
                if 0 <= g < self.slots@.len() {
                    assert(self.slots@[g] == mid.slots@[g]);
                }
            }
        }
    }

    /// Replace the rules of `head`, returning the previous ones.
    pub fn replace_rules(&mut self, head: CellType, rules: Vec<Rule>) -> (prev: Vec<Rule>)
        ensures
            prev@ == old(self).rules_of(head.0 as int),
            final(self).rules_of(head.0 as int) == rules@,
            forall|h: int| h != head.0 ==> #[trigger] final(self).rules_of(h) == old(self).rules_of(h),
    {
        let h = head.0 as usize;
        while self.slots.len() <= h
            invariant
                forall|g: int| #[trigger] self.rules_of(g) == old(self).rules_of(g),
            decreases h + 1 - self.slots@.len(),
        {
            let ghost prev = *self;
            self.slots.push(Vec::new());
            proof {
                assert forall|g: int| #[trigger] self.rules_of(g) == prev.rules_of(g) by {
                    if g == prev.slots@.len() {
                        assert(self.rules_of(g) =~= prev.rules_of(g));
                    } else if 0 <= g < prev.slots@.len() {
                        assert(self.slots@[g] == prev.slots@[g]);
                    }
                }
            }
        }
        let ghost mid = *self;
        let mut tmp = rules;
        self.slots.set_and_swap(h, &mut tmp);
        proof {
            assert(tmp@ == mid.rules_of(h as int));
            assert forall|g: int| g != head.0 implies #[trigger] self.rules_of(g) == mid.rules_of(g) by {
                if 0 <= g < self.slots@.len() {
                    assert(self.slots@[g] == mid.slots@[g]);
                }
            }
        }
        tmp
    }

    /// Insert a rule among the rules of `head`, after every rule of at least its priority.
    pub fn insert_by_priority(&mut self, head: CellType, rule: Rule)
        ensures
            final(self).rules_of(head.0 as int) == priority_insert(old(self).rules_of(head.0 as int), rule),
            forall|h: int| h != head.0 ==> #[trigger] final(self).rules_of(h) == old(self).rules_of(h),
    {
        let prev = self.replace_rules(head, Vec::new());
        let mut v = prev;
        let p = rule.priority;
        let mut k = v.len();
        while k > 0 && v[k - 1].priority < p
            invariant
                k <= v@.len(),
                forall|j: int| k <= j < v@.len() ==> (#[trigger] v@[j]).priority < p,
            decreases k,
        {
            k -= 1;
        }
        proof {
            lemma_priority_insert_at(v@, rule, k as int);
        }
        v.insert(k, rule);
        let _ = self.replace_rules(head, v);
    }

    /// Heads that have at least one rule, in increasing order.
    pub fn heads(&self) -> (r: Vec<CellType>)
        ensures
            forall|i: int, j: int| 0 <= i < j < r@.len() ==> r@[i].0 < r@[j].0,
            forall|h: u8| r@.contains(CellType(h)) <==> self.rules_of(h as int).len() > 0,
    {
        let mut out: Vec<CellType> = Vec::new();
        let mut k: usize = 0;
        while k < 256
            invariant
                k <= 256,
                forall|i: int, j: int| 0 <= i < j < out@.len() ==> out@[i].0 < out@[j].0,
                forall|i: int| 0 <= i < out@.len() ==> out@[i].0 < k,
                forall|h: u8| h < k ==> (out@.contains(CellType(h)) <==> self.rules_of(h as int).len() > 0),
                forall|h: u8| h >= k ==> !out@.contains(CellType(h)),
            decreases 256 - k,
        {
            if self.rules(k as u8).len() > 0 {
                let ghost prev = out@;
                out.push(CellType(k as u8));
                proof {
                    assert forall|h: u8| h < k + 1 implies (out@.contains(CellType(h)) <==> self.rules_of(h as int).len() > 0) by {
                        if h == k {
                            assert(out@[out@.len() - 1] == CellType(h));
                        } else if out@.contains(CellType(h)) {
                            let i = choose|i: int| 0 <= i < out@.len() && out@[i] == CellType(h);
                            assert(i < prev.len());
                            assert(prev.contains(CellType(h)));
                        } else {
                            if prev.contains(CellType(h)) {
                                let i = choose|i: int| 0 <= i < prev.len() && prev[i] == CellType(h);
                                assert(out@[i] == CellType(h));
                            }
                        }
                    }
                    assert forall|h: u8| h >= k + 1 implies !out@.contains(CellType(h)) by {
                        if out@.contains(CellType(h)) {
                            let i = choose|i: int| 0 <= i < out@.len() && out@[i] == CellType(h);
                            if i < prev.len() {
                                assert(prev.contains(CellType(h)));
                            }
                        }
                    }
                }
            }
            k += 1;
        }
        out
    }
}

} // verus!
