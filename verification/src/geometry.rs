use vstd::prelude::*;
use crate::types::{CellType, ChangeValue, Direction, Rule, ShiftSpec};

verus! {

// ---------------------------------------------------------------------------
// Relative geometry of a rule: pattern cells, shift targets, written cells.
// All coordinates are relative to the match position (0, 0).
// ---------------------------------------------------------------------------

/// Bound on the relative coordinates a rule may carry (change offsets, id length). A match
/// sits at most `coord_limit()` (2^29) from the origin and a shift target at most 2^16
/// from the match, so a written cell `match + target + offset` stays below
/// 2^29 + 2^16 + 2^28 < 2^31: every cell position is computed in `i32` without overflow,
/// where offsets up to the whole `i32` range would overflow it.
pub open spec fn coord_bound() -> int {
    0x1000_0000
}

/// Bound on the number of shifts of one rule: the sum of all its targets (each at most
/// `u16::MAX` steps) then stays below 2^14 * 2^16 = 2^30, inside `i32`.
pub open spec fn shift_count_bound() -> int {
    0x4000
}

/// All shifts of a rule, groups flattened in order.
pub open spec fn flatten_groups(groups: Seq<Vec<ShiftSpec>>) -> Seq<ShiftSpec>
    decreases groups.len(),
{
    if groups.len() == 0 {
        Seq::empty()
    } else {
        flatten_groups(groups.drop_last()) + groups.last()@
    }
}

/// The rule's relative coordinates stay small enough for `i32` arithmetic.
pub open spec fn rule_in_bounds(rule: Rule) -> bool {
    &&& rule.id@.len() <= coord_bound()
    &&& flatten_groups(rule.shifts@).len() <= shift_count_bound()
    &&& forall|k: int|
        0 <= k < rule.changes@.len() ==> -coord_bound() <= #[trigger] rule.changes@[k].0 <= coord_bound()
            && -coord_bound() <= rule.changes@[k].1 <= coord_bound()
}

pub open spec fn rules_in_bounds(rules: Seq<Rule>) -> bool {
    forall|k: int| 0 <= k < rules.len() ==> rule_in_bounds(#[trigger] rules[k])
}

/// The pattern a rule actually reads: its explicit `pattern`, or, when that is empty,
/// `(0,0,id[0]), (1,0,id[1]), ...`.
pub open spec fn spec_effective_pattern(rule: Rule) -> Seq<(i32, i32, CellType)> {
    if rule.pattern@.len() > 0 {
        rule.pattern@.map_values(|e: (i8, i8, CellType)| (e.0 as i32, e.1 as i32, e.2))
    } else {
        rule.id@.map(|i: int, ct: CellType| (i as i32, 0i32, ct))
    }
}

/// Offsets of the effective pattern, in order.
pub open spec fn spec_pattern_cells(rule: Rule) -> Seq<(i32, i32)> {
    spec_effective_pattern(rule).map_values(|e: (i32, i32, CellType)| (e.0, e.1))
}

/// Target offset of one shift.
pub open spec fn spec_shift_delta(s: ShiftSpec) -> (i32, i32) {
    match s.direction {
        Direction::Up => (0i32, (-(s.steps as int)) as i32),
        Direction::Down => (0i32, s.steps as i32),
        Direction::Left => ((-(s.steps as int)) as i32, 0i32),
        Direction::Right => (s.steps as i32, 0i32),
    }
}

/// Target offset of every shift of the rule (not their sum).
pub open spec fn spec_shift_targets(rule: Rule) -> Seq<(i32, i32)> {
    flatten_groups(rule.shifts@).map_values(|s: ShiftSpec| spec_shift_delta(s))
}

/// Sum of a sequence of offsets.
pub open spec fn offset_sum(s: Seq<(i32, i32)>) -> (int, int)
    decreases s.len(),
{
    if s.len() == 0 {
        (0, 0)
    } else {
        let p = offset_sum(s.drop_last());
        (p.0 + s.last().0, p.1 + s.last().1)
    }
}

/// Offset of change `k` of the rule.
pub open spec fn change_offset(rule: Rule, k: int) -> (i32, i32) {
    (rule.changes@[k].0, rule.changes@[k].1)
}

/// `c` is a target of the rule's shifts in the direction its feedback switches them to
/// (none for a rule without feedback).
pub open spec fn feedback_alt_target(rule: Rule, c: (i32, i32)) -> bool {
    match rule.feedback {
        Some(f) => exists|a: int|
            0 <= a < spec_redirected_targets(rule, f.new_direction).len() && c == spec_redirected_targets(
                rule,
                f.new_direction,
            )[a],
        None => false,
    }
}

/// `c` is a cell the rule writes: without shifts, the change offsets; with shifts, the
/// cleared origin, every shift target and every change offset taken from every target, and,
/// for a rule with feedback, every target in the direction the feedback switches to (either
/// direction may be taken).
pub open spec fn in_write_set(rule: Rule, c: (i32, i32)) -> bool {
    let t = spec_shift_targets(rule);
    if t.len() == 0 {
        exists|k: int| 0 <= k < rule.changes@.len() && c == change_offset(rule, k)
    } else {
        ||| c == (0i32, 0i32)
        ||| feedback_alt_target(rule, c)
        ||| exists|a: int| 0 <= a < t.len() && c == t[a]
        ||| exists|a: int, k: int|
            0 <= a < t.len() && 0 <= k < rule.changes@.len() && c == (
                (t[a].0 + rule.changes@[k].0) as i32,
                (t[a].1 + rule.changes@[k].1) as i32,
            )
    }
}

/// `c` is a cell the rule reads or writes: pattern cells, the origin, and written cells.
pub open spec fn in_affected_set(rule: Rule, c: (i32, i32)) -> bool {
    ||| spec_pattern_cells(rule).contains(c)
    ||| c == (0i32, 0i32)
    ||| in_write_set(rule, c)
}

/// Lexicographic order on cells.
pub open spec fn cell_lt(a: (i32, i32), b: (i32, i32)) -> bool {
    a.0 < b.0 || (a.0 == b.0 && a.1 < b.1)
}

/// Strictly increasing: sorted and without duplicates.
pub open spec fn strictly_sorted(s: Seq<(i32, i32)>) -> bool {
    forall|i: int, j: int| 0 <= i < j < s.len() ==> cell_lt(#[trigger] s[i], #[trigger] s[j])
}

/// Bounding box `(min_x, max_x, min_y, max_y)` of a sequence of cells, folded from the
/// empty box `(i32::MAX, i32::MIN, i32::MAX, i32::MIN)`.
pub open spec fn bbox_of(s: Seq<(i32, i32)>) -> (i32, i32, i32, i32)
    decreases s.len(),
{
    if s.len() == 0 {
        (i32::MAX, i32::MIN, i32::MAX, i32::MIN)
    } else {
        let b = bbox_of(s.drop_last());
        let c = s.last();
        (
            if c.0 < b.0 { c.0 } else { b.0 },
            if c.0 > b.1 { c.0 } else { b.1 },
            if c.1 < b.2 { c.1 } else { b.2 },
            if c.1 > b.3 { c.1 } else { b.3 },
        )
    }
}

/// Every cell of `s` lies inside `bbox_of(s)`.
pub proof fn lemma_bbox_contains(s: Seq<(i32, i32)>, k: int)
    requires
        0 <= k < s.len(),
    ensures
        bbox_of(s).0 <= s[k].0 <= bbox_of(s).1,
        bbox_of(s).2 <= s[k].1 <= bbox_of(s).3,
    decreases s.len(),
{
    if k < s.len() - 1 {
        lemma_bbox_contains(s.drop_last(), k);
    }
}

/// The bounding box of a non-empty sequence is attained on each side.
pub proof fn lemma_bbox_attained(s: Seq<(i32, i32)>)
    requires
        s.len() > 0,
    ensures
        exists|k: int| 0 <= k < s.len() && s[k].0 == bbox_of(s).0,
        exists|k: int| 0 <= k < s.len() && s[k].0 == bbox_of(s).1,
        exists|k: int| 0 <= k < s.len() && s[k].1 == bbox_of(s).2,
        exists|k: int| 0 <= k < s.len() && s[k].1 == bbox_of(s).3,
    decreases s.len(),
{
    let n = s.len();
    if n > 1 {
        lemma_bbox_attained(s.drop_last());
        let b = bbox_of(s.drop_last());
        if s.last().0 >= b.0 {
            let k = choose|k: int| 0 <= k < n - 1 && s.drop_last()[k].0 == b.0;
            assert(s[k].0 == bbox_of(s).0);
        } else {
            assert(s[n - 1].0 == bbox_of(s).0);
        }
        if s.last().0 <= b.1 {
            let k = choose|k: int| 0 <= k < n - 1 && s.drop_last()[k].0 == b.1;
            assert(s[k].0 == bbox_of(s).1);
        } else {
            assert(s[n - 1].0 == bbox_of(s).1);
        }
        if s.last().1 >= b.2 {
            let k = choose|k: int| 0 <= k < n - 1 && s.drop_last()[k].1 == b.2;
            assert(s[k].1 == bbox_of(s).2);
        } else {
            assert(s[n - 1].1 == bbox_of(s).2);
        }
        if s.last().1 <= b.3 {
            let k = choose|k: int| 0 <= k < n - 1 && s.drop_last()[k].1 == b.3;
            assert(s[k].1 == bbox_of(s).3);
        } else {
            assert(s[n - 1].1 == bbox_of(s).3);
        }
    } else {
        assert(s.drop_last().len() == 0);
        assert(bbox_of(s.drop_last()) == (i32::MAX, i32::MIN, i32::MAX, i32::MIN));
        assert(s[0].0 == bbox_of(s).0);
        assert(s[0].0 == bbox_of(s).1);
        assert(s[0].1 == bbox_of(s).2);
        assert(s[0].1 == bbox_of(s).3);
    }
}

/// Every shift target lies within `steps` of the origin on one axis.
pub proof fn lemma_shift_targets_small(rule: Rule, a: int)
    requires
        0 <= a < spec_shift_targets(rule).len(),
    ensures
        -0x10000 < spec_shift_targets(rule)[a].0 < 0x10000,
        -0x10000 < spec_shift_targets(rule)[a].1 < 0x10000,
{
}

/// Cells the rule writes stay within `coord_bound() + 2^16` of the origin.
pub proof fn lemma_write_set_small(rule: Rule, c: (i32, i32))
    requires
        rule_in_bounds(rule),
        in_write_set(rule, c),
    ensures
        -(coord_bound() + 0x10000) <= c.0 <= coord_bound() + 0x10000,
        -(coord_bound() + 0x10000) <= c.1 <= coord_bound() + 0x10000,
{
    let t = spec_shift_targets(rule);
    if t.len() == 0 {
        let k = choose|k: int| 0 <= k < rule.changes@.len() && c == change_offset(rule, k);
        assert(rule.changes@[k].0 == c.0);
    } else if c == (0i32, 0i32) {
    } else if feedback_alt_target(rule, c) {
        let f = rule.feedback->0;
        let a = choose|a: int|
            0 <= a < spec_redirected_targets(rule, f.new_direction).len() && c == spec_redirected_targets(
                rule,
                f.new_direction,
            )[a];
        lemma_redirected_small(rule, f.new_direction, a);
    } else if exists|a: int| 0 <= a < t.len() && c == t[a] {
        let a = choose|a: int| 0 <= a < t.len() && c == t[a];
        lemma_shift_targets_small(rule, a);
    } else {
        let (a, k) = choose|a: int, k: int|
            0 <= a < t.len() && 0 <= k < rule.changes@.len() && c == (
                (t[a].0 + rule.changes@[k].0) as i32,
                (t[a].1 + rule.changes@[k].1) as i32,
            );
        lemma_shift_targets_small(rule, a);
        assert(-coord_bound() <= rule.changes@[k].0 <= coord_bound());
    }
}

/// Cells the rule reads or writes stay within `coord_bound() + 2^16` of the origin.
pub proof fn lemma_affected_set_small(rule: Rule, c: (i32, i32))
    requires
        rule_in_bounds(rule),
        in_affected_set(rule, c),
    ensures
        -(coord_bound() + 0x10000) <= c.0 <= coord_bound() + 0x10000,
        -(coord_bound() + 0x10000) <= c.1 <= coord_bound() + 0x10000,
{
    if in_write_set(rule, c) {
        lemma_write_set_small(rule, c);
    } else if c == (0i32, 0i32) {
    } else {
        let p = spec_pattern_cells(rule);
        let k = choose|k: int| 0 <= k < p.len() && p[k] == c;
        if rule.pattern@.len() == 0 {
            assert(p[k] == (k as i32, 0i32));
        }
    }
}

/// Membership in a sequence extended by one element.
pub proof fn lemma_contains_push<A>(s: Seq<A>, x: A, c: A)
    ensures
        s.push(x).contains(c) <==> (s.contains(c) || c == x),
{
    if s.push(x).contains(c) {
        let k = choose|k: int| 0 <= k < s.push(x).len() && s.push(x)[k] == c;
        if k < s.len() {
            assert(s[k] == c);
        }
    }
    if s.contains(c) {
        let k = choose|k: int| 0 <= k < s.len() && s[k] == c;
        assert(s.push(x)[k] == c);
    }
    if c == x {
        assert(s.push(x)[s.len() as int] == c);
    }
}

// ---------------------------------------------------------------------------
// Executable pieces
// ---------------------------------------------------------------------------

/// Effective pattern of a rule: its explicit pattern, or the one built from `id`.
pub fn effective_pattern(rule: &Rule) -> (r: Vec<(i32, i32, CellType)>)
    ensures
        r@ == spec_effective_pattern(*rule),
{
    let mut out: Vec<(i32, i32, CellType)> = Vec::new();
    if rule.pattern.len() > 0 {
        let n = rule.pattern.len();
        let mut k: usize = 0;
        while k < n
            invariant
                n == rule.pattern@.len(),
                k <= n,
                out@ == rule.pattern@.take(k as int).map_values(
                    |e: (i8, i8, CellType)| (e.0 as i32, e.1 as i32, e.2),
                ),
            decreases n - k,
        {
            let e = rule.pattern[k];
            out.push((e.0 as i32, e.1 as i32, e.2));
            assert(rule.pattern@.take(k as int + 1) =~= rule.pattern@.take(k as int).push(e));
            k += 1;
        }
        assert(rule.pattern@.take(n as int) =~= rule.pattern@);
    } else {
        let n = rule.id.len();
        let mut k: usize = 0;
        while k < n
            invariant
                n == rule.id@.len(),
                k <= n,
                out@ =~= rule.id@.take(k as int).map(|i: int, ct: CellType| (i as i32, 0i32, ct)),
            decreases n - k,
        {
            let ct = rule.id[k];
            out.push((k as i32, 0i32, ct));
            k += 1;
        }
        assert(rule.id@.take(n as int) =~= rule.id@);
    }
    out
}

/// Target offset of one shift: its direction times its number of steps.
pub fn shift_delta(shift: &ShiftSpec) -> (r: (i32, i32))
    ensures
        r == spec_shift_delta(*shift),
{
    match shift.direction {
        Direction::Up => (0, -(shift.steps as i32)),
        Direction::Down => (0, shift.steps as i32),
        Direction::Left => (-(shift.steps as i32), 0),
        Direction::Right => (shift.steps as i32, 0),
    }
}

proof fn lemma_flatten_step(groups: Seq<Vec<ShiftSpec>>, g: int)
    requires
        0 <= g < groups.len(),
    ensures
        flatten_groups(groups.take(g + 1)) == flatten_groups(groups.take(g)) + groups[g]@,
{
    assert(groups.take(g + 1).drop_last() =~= groups.take(g));
}

/// Target offset of every shift of the rule, in order (each shift separately, not summed).
pub fn compute_shift_targets(rule: &Rule) -> (r: Vec<(i32, i32)>)
    ensures
        r@ == spec_shift_targets(*rule),
{
    let mut targets: Vec<(i32, i32)> = Vec::new();
    let ng = rule.shifts.len();
    let mut g: usize = 0;
    while g < ng
        invariant
            ng == rule.shifts@.len(),
            g <= ng,
            targets@ == flatten_groups(rule.shifts@.take(g as int)).map_values(
                |s: ShiftSpec| spec_shift_delta(s),
            ),
        decreases ng - g,
    {
        let group = &rule.shifts[g];
        let ns = group.len();
        let mut k: usize = 0;
        while k < ns
            invariant
                ng == rule.shifts@.len(),
                g < ng,
                ns == group@.len(),
                *group == rule.shifts@[g as int],
                k <= ns,
                targets@ == (flatten_groups(rule.shifts@.take(g as int)) + group@.take(k as int)).map_values(
                    |s: ShiftSpec| spec_shift_delta(s),
                ),
            decreases ns - k,
        {
            let d = shift_delta(&group[k]);
            targets.push(d);
            assert((flatten_groups(rule.shifts@.take(g as int)) + group@.take(k as int + 1)) =~= (
            flatten_groups(rule.shifts@.take(g as int)) + group@.take(k as int)).push(group@[k as int]));
            k += 1;
        }
        proof {
            lemma_flatten_step(rule.shifts@, g as int);
            assert(group@.take(ns as int) =~= group@);
        }
        g += 1;
    }
    assert(rule.shifts@.take(ng as int) =~= rule.shifts@);
    targets
}

/// Sum of the shift targets of the rule. Meaningful only when there is exactly one shift.
pub fn compute_total_shift(rule: &Rule) -> (r: (i32, i32))
    requires
        rule_in_bounds(*rule),
    ensures
        r.0 as int == offset_sum(spec_shift_targets(*rule)).0,
        r.1 as int == offset_sum(spec_shift_targets(*rule)).1,
{
    let targets = compute_shift_targets(rule);
    sum_offsets(&targets)
}

/// Sum of a list of shift targets.
pub fn sum_offsets(targets: &Vec<(i32, i32)>) -> (r: (i32, i32))
    requires
        targets@.len() <= shift_count_bound(),
        forall|a: int|
            0 <= a < targets@.len() ==> -0x10000 < (#[trigger] targets@[a]).0 < 0x10000 && -0x10000
                < targets@[a].1 < 0x10000,
    ensures
        r.0 as int == offset_sum(targets@).0,
        r.1 as int == offset_sum(targets@).1,
{
    let n = targets.len();
    let mut ax: i32 = 0;
    let mut ay: i32 = 0;
    let mut k: usize = 0;
    while k < n
        invariant
            n == targets@.len(),
            n <= shift_count_bound(),
            k <= n,
            forall|a: int|
                0 <= a < targets@.len() ==> -0x10000 < (#[trigger] targets@[a]).0 < 0x10000 && -0x10000
                    < targets@[a].1 < 0x10000,
            ax as int == offset_sum(targets@.take(k as int)).0,
            ay as int == offset_sum(targets@.take(k as int)).1,
            -(k as int) * 0x10000 <= ax <= (k as int) * 0x10000,
            -(k as int) * 0x10000 <= ay <= (k as int) * 0x10000,
        decreases n - k,
    {
        let (dx, dy) = targets[k];
        assert(targets@.take(k as int + 1).drop_last() =~= targets@.take(k as int));
        ax = ax + dx;
        ay = ay + dy;
        k += 1;
    }
    assert(targets@.take(n as int) =~= targets@);
    (ax, ay)
}

/// Cell order used for sorting: lexicographic on `(x, y)`.
pub fn cell_less(a: (i32, i32), b: (i32, i32)) -> (r: bool)
    ensures
        r == cell_lt(a, b),
{
    a.0 < b.0 || (a.0 == b.0 && a.1 < b.1)
}

/// Insert `c` into a strictly sorted list of cells, keeping it strictly sorted.
pub fn insert_sorted(v: &mut Vec<(i32, i32)>, c: (i32, i32))
    requires
        strictly_sorted(old(v)@),
    ensures
        strictly_sorted(final(v)@),
        forall|x: (i32, i32)| final(v)@.contains(x) <==> (old(v)@.contains(x) || x == c),
{
    let n = v.len();
    let mut i: usize = 0;
    let mut found = false;
    while i < n && !found
        invariant
            n == v@.len(),
            v@ == old(v)@,
            i <= n,
            strictly_sorted(v@),
            forall|j: int| 0 <= j < i ==> cell_lt(#[trigger] v@[j], c),
            found ==> i < n && !cell_lt(v@[i as int], c),
        decreases n - i + (if found { 0int } else { 1int }),
    {
        if !cell_less(v[i], c) {
            found = true;
        } else {
            i += 1;
        }
    }
    if i < n && v[i].0 == c.0 && v[i].1 == c.1 {
        assert(v@[i as int] == c);
        assert(v@.contains(c));
        assert forall|x: (i32, i32)| v@.contains(x) <==> (v@.contains(x) || x == c) by {}
        return;
    }
    let ghost old_v = v@;
    assert(old_v == old(v)@);
    v.insert(i, c);
    proof {
        assert(v@ == old_v.insert(i as int, c));
        assert forall|a: int, b: int| 0 <= a < b < v@.len() implies cell_lt(#[trigger] v@[a], #[trigger] v@[b]) by {
            if i < n {
                assert(!cell_lt(old_v[i as int], c));
                assert(old_v[i as int] != c);
            }
            if b < i {
            } else if b == i {
            } else if a < i {
                assert(cell_lt(old_v[a], c));
                if b - 1 > i {
                    assert(cell_lt(old_v[i as int], old_v[b - 1]));
                }
            } else if a == i {
                if b - 1 > i {
                    assert(cell_lt(old_v[i as int], old_v[b - 1]));
                }
            } else {
            }
        }
        assert forall|x: (i32, i32)| v@.contains(x) <==> (old_v.contains(x) || x == c) by {
            if v@.contains(x) {
                let k = choose|k: int| 0 <= k < v@.len() && v@[k] == x;
                if k < i {
                    assert(old_v[k] == x);
                } else if k > i {
                    assert(old_v[k - 1] == x);
                }
            }
            if old_v.contains(x) {
                let k = choose|k: int| 0 <= k < old_v.len() && old_v[k] == x;
                if k < i {
                    assert(v@[k] == x);
                } else {
                    assert(v@[k + 1] == x);
                }
            }
            if x == c {
                assert(v@[i as int] == c);
            }
        }
        assert(old_v == old(v)@);
        assert(forall|x: (i32, i32)| v@.contains(x) <==> (old(v)@.contains(x) || x == c));
    }
}

/// Whether `rule` stays within the bounds of `rule_in_bounds`.
pub fn check_rule_bounds(rule: &Rule) -> (b: bool)
    ensures
        b == rule_in_bounds(*rule),
{
    if rule.id.len() > 0x1000_0000 {
        return false;
    }
    let groups = &rule.shifts;
    let mut total: usize = 0;
    let mut g: usize = 0;
    while g < groups.len()
        invariant
            groups@ == rule.shifts@,
            g <= groups@.len(),
            total == flatten_groups(groups@.take(g as int)).len(),
            total <= 0x4000,
        decreases groups@.len() - g,
    {
        assert(groups@.take(g as int + 1).drop_last() =~= groups@.take(g as int));
        assert(groups@.take(g as int + 1).last() == groups@[g as int]);
        let n = groups[g].len();
        assert(flatten_groups(groups@.take(g as int + 1)).len() == total + n);
        if n > 0x4000 - total {
            proof {
                lemma_flatten_prefix_len(groups@, g as int + 1, groups@.len() as int);
                assert(groups@.take(groups@.len() as int) =~= groups@);
            }
            return false;
        }
        total = total + n;
        g += 1;
    }
    assert(groups@.take(g as int) =~= groups@);
    let mut k: usize = 0;
    while k < rule.changes.len()
        invariant
            k <= rule.changes@.len(),
            forall|j: int|
                0 <= j < k ==> -coord_bound() <= #[trigger] rule.changes@[j].0 <= coord_bound() && -coord_bound()
                    <= rule.changes@[j].1 <= coord_bound(),
        decreases rule.changes@.len() - k,
    {
        let (dx, dy, _) = &rule.changes[k];
        if *dx < -0x1000_0000 || *dx > 0x1000_0000 || *dy < -0x1000_0000 || *dy > 0x1000_0000 {
            return false;
        }
        k += 1;
    }
    true
}

/// The flattened shifts of a prefix are no more than those of a longer prefix.
proof fn lemma_flatten_prefix_len(groups: Seq<Vec<ShiftSpec>>, i: int, j: int)
    requires
        0 <= i <= j <= groups.len(),
    ensures
        flatten_groups(groups.take(i)).len() <= flatten_groups(groups.take(j)).len(),
    decreases j - i,
{
    if i < j {
        lemma_flatten_prefix_len(groups, i, j - 1);
        assert(groups.take(j).drop_last() =~= groups.take(j - 1));
    }
}

/// Shift `s` taken in direction `dir` instead of its own.
pub open spec fn redirect_shift(s: ShiftSpec, dir: Direction) -> ShiftSpec {
    ShiftSpec { direction: dir, ..s }
}

/// Target offset of every shift of the rule when all of them go in direction `dir` (what
/// a latched feedback does to the rule's shifts).
pub open spec fn spec_redirected_targets(rule: Rule, dir: Direction) -> Seq<(i32, i32)> {
    flatten_groups(rule.shifts@).map_values(|s: ShiftSpec| spec_shift_delta(redirect_shift(s, dir)))
}

/// The change offsets taken from each of the first `n` targets of `t`, target by target.
pub open spec fn target_change_cells(t: Seq<(i32, i32)>, rule: Rule, n: int) -> Seq<(i32, i32)>
    decreases n,
{
    if n <= 0 {
        Seq::empty()
    } else {
        target_change_cells(t, rule, n - 1) + rule.changes@.map_values(
            |c: (i32, i32, ChangeValue)| ((t[n - 1].0 + c.0) as i32, (t[n - 1].1 + c.1) as i32),
        )
    }
}

/// Targets of the rule's shifts, each taken in direction `dir`.
pub fn compute_redirected_targets(rule: &Rule, dir: Direction) -> (r: Vec<(i32, i32)>)
    ensures
        r@ == spec_redirected_targets(*rule, dir),
{
    let mut targets: Vec<(i32, i32)> = Vec::new();
    let ng = rule.shifts.len();
    let mut g: usize = 0;
    while g < ng
        invariant
            ng == rule.shifts@.len(),
            g <= ng,
            targets@ == flatten_groups(rule.shifts@.take(g as int)).map_values(
                |s: ShiftSpec| spec_shift_delta(redirect_shift(s, dir)),
            ),
        decreases ng - g,
    {
        let group = &rule.shifts[g];
        let ns = group.len();
        let mut k: usize = 0;
        while k < ns
            invariant
                ng == rule.shifts@.len(),
                g < ng,
                ns == group@.len(),
                *group == rule.shifts@[g as int],
                k <= ns,
                targets@ == (flatten_groups(rule.shifts@.take(g as int)) + group@.take(k as int)).map_values(
                    |s: ShiftSpec| spec_shift_delta(redirect_shift(s, dir)),
                ),
            decreases ns - k,
        {
            let s = ShiftSpec { direction: dir, ..group[k] };
            let d = shift_delta(&s);
            targets.push(d);
            assert((flatten_groups(rule.shifts@.take(g as int)) + group@.take(k as int + 1)) =~= (
            flatten_groups(rule.shifts@.take(g as int)) + group@.take(k as int)).push(group@[k as int]));
            k += 1;
        }
        proof {
            lemma_flatten_step(rule.shifts@, g as int);
            assert(group@.take(ns as int) =~= group@);
        }
        g += 1;
    }
    assert(rule.shifts@.take(ng as int) =~= rule.shifts@);
    targets
}

/// Every redirected shift target lies within `steps` of the origin on one axis.
pub proof fn lemma_redirected_small(rule: Rule, dir: Direction, a: int)
    requires
        0 <= a < spec_redirected_targets(rule, dir).len(),
    ensures
        -0x10000 < spec_redirected_targets(rule, dir)[a].0 < 0x10000,
        -0x10000 < spec_redirected_targets(rule, dir)[a].1 < 0x10000,
{
}

} // verus!
