use vstd::prelude::*;
use crate::geometry::{flatten_groups, rule_in_bounds};
use crate::types::{CellType, ChangeValue, MemorySpec, Rule, ShiftSpec};

verus! {

// ---------------------------------------------------------------------------
// When two rules are the same rule
// ---------------------------------------------------------------------------

/// The shift groups of a rule as sequences.
pub open spec fn shift_groups(s: Seq<Vec<ShiftSpec>>) -> Seq<Seq<ShiftSpec>> {
    s.map_values(|g: Vec<ShiftSpec>| g@)
}

/// Two memory gates with the same window, trigger and pattern.
pub open spec fn same_memory(a: Option<MemorySpec>, b: Option<MemorySpec>) -> bool {
    match (a, b) {
        (None, None) => true,
        (Some(x), Some(y)) => x.window == y.window && x.record_trigger == y.record_trigger && x.match_pattern@
            == y.match_pattern@,
        _ => false,
    }
}

/// Two rules that agree in every field.
pub open spec fn same_rule(a: Rule, b: Rule) -> bool {
    &&& a.id@ == b.id@
    &&& a.pattern@ == b.pattern@
    &&& shift_groups(a.shifts@) == shift_groups(b.shifts@)
    &&& a.changes@ == b.changes@
    &&& a.active_only == b.active_only
    &&& a.priority == b.priority
    &&& a.min_age == b.min_age
    &&& a.overflow == b.overflow
    &&& a.cam == b.cam
    &&& a.tie_break == b.tie_break
    &&& a.starvation_after == b.starvation_after
    &&& a.feedback == b.feedback
    &&& a.recursion == b.recursion
    &&& same_memory(a.memory, b.memory)
    &&& a.max_activations == b.max_activations
    &&& a.cross_layer_reads@ == b.cross_layer_reads@
}

/// Equality of two change values.
pub fn change_value_eq(a: &ChangeValue, b: &ChangeValue) -> (r: bool)
    ensures
        r == (*a == *b),
    decreases a,
{
    match a {
        ChangeValue::Literal(x) => match b {
            ChangeValue::Literal(y) => *x == *y,
            _ => false,
        },
        ChangeValue::Ref(x) => match b {
            ChangeValue::Ref(y) => *x == *y,
            _ => false,
        },
        ChangeValue::Add(a1, a2) => match b {
            ChangeValue::Add(b1, b2) => {
                let l = change_value_eq(a1, b1);
                let r = change_value_eq(a2, b2);
                assert(l == (**a1 == **b1));
                assert(r == (**a2 == **b2));
                l && r
            },
            _ => false,
        },
        ChangeValue::Sub(a1, a2) => match b {
            ChangeValue::Sub(b1, b2) => {
                let l = change_value_eq(a1, b1);
                let r = change_value_eq(a2, b2);
                assert(l == (**a1 == **b1));
                assert(r == (**a2 == **b2));
                l && r
            },
            _ => false,
        },
    }
}

fn ids_eq(a: &Vec<CellType>, b: &Vec<CellType>) -> (r: bool)
    ensures
        r == (a@ == b@),
{
    if a.len() != b.len() {
        return false;
    }
    let mut k: usize = 0;
    while k < a.len()
        invariant
            a@.len() == b@.len(),
            k <= a@.len(),
            forall|j: int| 0 <= j < k ==> a@[j] == b@[j],
        decreases a@.len() - k,
    {
        if a[k].0 != b[k].0 {
            return false;
        }
        k += 1;
    }
    assert(a@ =~= b@);
    true
}

fn patterns_eq(a: &Vec<(i8, i8, CellType)>, b: &Vec<(i8, i8, CellType)>) -> (r: bool)
    ensures
        r == (a@ == b@),
{
    if a.len() != b.len() {
        return false;
    }
    let mut k: usize = 0;
    while k < a.len()
        invariant
            a@.len() == b@.len(),
            k <= a@.len(),
            forall|j: int| 0 <= j < k ==> a@[j] == b@[j],
        decreases a@.len() - k,
    {
        let (x1, y1, t1) = a[k];
        let (x2, y2, t2) = b[k];
        if x1 != x2 || y1 != y2 || t1.0 != t2.0 {
            return false;
        }
        k += 1;
    }
    assert(a@ =~= b@);
    true
}

fn reads_eq(a: &Vec<(i8, i8, i8, CellType)>, b: &Vec<(i8, i8, i8, CellType)>) -> (r: bool)
    ensures
        r == (a@ == b@),
{
    if a.len() != b.len() {
        return false;
    }
    let mut k: usize = 0;
    while k < a.len()
        invariant
            a@.len() == b@.len(),
            k <= a@.len(),
            forall|j: int| 0 <= j < k ==> a@[j] == b@[j],
        decreases a@.len() - k,
    {
        let (x1, y1, z1, t1) = a[k];
        let (x2, y2, z2, t2) = b[k];
        if x1 != x2 || y1 != y2 || z1 != z2 || t1.0 != t2.0 {
            return false;
        }
        k += 1;
    }
    assert(a@ =~= b@);
    true
}

fn shift_group_eq(a: &Vec<ShiftSpec>, b: &Vec<ShiftSpec>) -> (r: bool)
    ensures
        r == (a@ == b@),
{
    if a.len() != b.len() {
        return false;
    }
    let mut k: usize = 0;
    while k < a.len()
        invariant
            a@.len() == b@.len(),
            k <= a@.len(),
            forall|j: int| 0 <= j < k ==> a@[j] == b@[j],
        decreases a@.len() - k,
    {
        if a[k] != b[k] {
            return false;
        }
        k += 1;
    }
    assert(a@ =~= b@);
    true
}

fn shifts_eq(a: &Vec<Vec<ShiftSpec>>, b: &Vec<Vec<ShiftSpec>>) -> (r: bool)
    ensures
        r == (shift_groups(a@) == shift_groups(b@)),
{
    if a.len() != b.len() {
        assert(shift_groups(a@).len() != shift_groups(b@).len());
        return false;
    }
    let mut k: usize = 0;
    while k < a.len()
        invariant
            a@.len() == b@.len(),
            k <= a@.len(),
            forall|j: int| 0 <= j < k ==> shift_groups(a@)[j] == shift_groups(b@)[j],
        decreases a@.len() - k,
    {
        if !shift_group_eq(&a[k], &b[k]) {
            assert(shift_groups(a@)[k as int] != shift_groups(b@)[k as int]);
            return false;
        }
        k += 1;
    }
    assert(shift_groups(a@) =~= shift_groups(b@));
    true
}

fn changes_eq(a: &Vec<(i32, i32, ChangeValue)>, b: &Vec<(i32, i32, ChangeValue)>) -> (r: bool)
    ensures
        r == (a@ == b@),
{
    if a.len() != b.len() {
        return false;
    }
    let mut k: usize = 0;
    while k < a.len()
        invariant
            a@.len() == b@.len(),
            k <= a@.len(),
            forall|j: int| 0 <= j < k ==> a@[j] == b@[j],
        decreases a@.len() - k,
    {
        let ea = &a[k];
        let eb = &b[k];
        if ea.0 != eb.0 || ea.1 != eb.1 || !change_value_eq(&ea.2, &eb.2) {
            return false;
        }
        k += 1;
    }
    assert(a@ =~= b@);
    true
}

fn memory_eq(a: &Option<MemorySpec>, b: &Option<MemorySpec>) -> (r: bool)
    ensures
        r == same_memory(*a, *b),
{
    match (a, b) {
        (None, None) => true,
        (Some(x), Some(y)) => {
            if x.window != y.window || x.record_trigger != y.record_trigger || x.match_pattern.len()
                != y.match_pattern.len() {
                return false;
            }
            let mut k: usize = 0;
            while k < x.match_pattern.len()
                invariant
                    *a == Some(*x),
                    *b == Some(*y),
                    x.match_pattern@.len() == y.match_pattern@.len(),
                    k <= x.match_pattern@.len(),
                    forall|j: int| 0 <= j < k ==> x.match_pattern@[j] == y.match_pattern@[j],
                decreases x.match_pattern@.len() - k,
            {
                if x.match_pattern[k] != y.match_pattern[k] {
                    assert(x.match_pattern@[k as int] != y.match_pattern@[k as int]);
                    assert(x.match_pattern@ != y.match_pattern@);
                    return false;
                }
                k += 1;
            }
            assert(x.match_pattern@ =~= y.match_pattern@);
            true
        },
        _ => false,
    }
}

/// Whether two rules agree in every field.
pub fn rules_equal(a: &Rule, b: &Rule) -> (r: bool)
    ensures
        r == same_rule(*a, *b),
{
    ids_eq(&a.id, &b.id) && patterns_eq(&a.pattern, &b.pattern) && shifts_eq(&a.shifts, &b.shifts) && changes_eq(
        &a.changes,
        &b.changes,
    ) && a.active_only == b.active_only && a.priority == b.priority && a.min_age == b.min_age && a.overflow
        == b.overflow && a.cam == b.cam && a.tie_break == b.tie_break && a.starvation_after == b.starvation_after
        && a.feedback == b.feedback && a.recursion == b.recursion && memory_eq(&a.memory, &b.memory)
        && a.max_activations == b.max_activations && reads_eq(&a.cross_layer_reads, &b.cross_layer_reads)
}

// ---------------------------------------------------------------------------
// Copying rules
// ---------------------------------------------------------------------------

/// The rules of two sequences agree one by one.
pub open spec fn same_rules(a: Seq<Rule>, b: Seq<Rule>) -> bool {
    a.len() == b.len() && forall|i: int| 0 <= i < a.len() ==> same_rule(#[trigger] a[i], b[i])
}

/// A copy of a change value.
pub fn copy_change(c: &ChangeValue) -> (r: ChangeValue)
    ensures
        r == *c,
    decreases c,
{
    match c {
        ChangeValue::Literal(v) => ChangeValue::Literal(*v),
        ChangeValue::Ref(k) => ChangeValue::Ref(*k),
        ChangeValue::Add(a, b) => ChangeValue::Add(Box::new(copy_change(a)), Box::new(copy_change(b))),
        ChangeValue::Sub(a, b) => ChangeValue::Sub(Box::new(copy_change(a)), Box::new(copy_change(b))),
    }
}

fn copy_vec<T: Copy>(v: &Vec<T>) -> (r: Vec<T>)
    ensures
        r@ == v@,
{
    let mut out: Vec<T> = Vec::new();
    let mut k: usize = 0;
    while k < v.len()
        invariant
            k <= v@.len(),
            out@ == v@.take(k as int),
        decreases v@.len() - k,
    {
        out.push(v[k]);
        k += 1;
        assert(v@.take(k as int) =~= v@.take(k - 1).push(v@[k - 1]));
    }
    assert(v@.take(k as int) =~= v@);
    out
}

/// A copy of a rule.
pub fn copy_rule(r: &Rule) -> (c: Rule)
    ensures
        same_rule(c, *r),
{
    let mut shifts: Vec<Vec<ShiftSpec>> = Vec::new();
    let mut k: usize = 0;
    while k < r.shifts.len()
        invariant
            k <= r.shifts@.len(),
            shift_groups(shifts@) == shift_groups(r.shifts@.take(k as int)),
        decreases r.shifts@.len() - k,
    {
        let ghost before = shifts@;
        let g = copy_vec(&r.shifts[k]);
        let ghost gv = g@;
        assert(shift_groups(before).len() == before.len());
        assert(shift_groups(r.shifts@.take(k as int)).len() == k);
        shifts.push(g);
        assert(shifts@.len() == before.len() + 1);
        assert(shifts@[before.len() as int]@ == gv);
        assert(forall|i: int| 0 <= i < before.len() ==> shifts@[i] == before[i]);
        k += 1;
        assert forall|i: int| 0 <= i < k implies #[trigger] shift_groups(shifts@)[i] == shift_groups(
            r.shifts@.take(k as int),
        )[i] by {
            if i < k - 1 {
                assert(shifts@[i] == before[i]);
                assert(shift_groups(before)[i] == shift_groups(r.shifts@.take(k - 1))[i]);
                assert(r.shifts@.take(k as int)[i] == r.shifts@.take(k - 1)[i]);
            } else {
                assert(shifts@[i]@ == gv);
            }
        }
        assert(shift_groups(shifts@) =~= shift_groups(r.shifts@.take(k as int)));
    }
    assert(r.shifts@.take(k as int) =~= r.shifts@);
    let mut changes: Vec<(i32, i32, ChangeValue)> = Vec::new();
    let mut k: usize = 0;
    while k < r.changes.len()
        invariant
            k <= r.changes@.len(),
            changes@ == r.changes@.take(k as int),
        decreases r.changes@.len() - k,
    {
        let e = &r.changes[k];
        changes.push((e.0, e.1, copy_change(&e.2)));
        k += 1;
        assert(changes@ =~= r.changes@.take(k as int));
    }
    assert(r.changes@.take(k as int) =~= r.changes@);
    let memory = match &r.memory {
        Some(m) => Some(
            MemorySpec { window: m.window, record_trigger: m.record_trigger, match_pattern: copy_vec(&m.match_pattern) },
        ),
        None => None,
    };
    Rule {
        id: copy_vec(&r.id),
        pattern: copy_vec(&r.pattern),
        shifts,
        changes,
        active_only: r.active_only,
        priority: r.priority,
        min_age: r.min_age,
        overflow: r.overflow,
        cam: r.cam,
        tie_break: r.tie_break,
        starvation_after: r.starvation_after,
        feedback: r.feedback,
        recursion: r.recursion,
        memory,
        max_activations: r.max_activations,
        cross_layer_reads: copy_vec(&r.cross_layer_reads),
    }
}

proof fn lemma_flatten_same(a: Seq<Vec<ShiftSpec>>, b: Seq<Vec<ShiftSpec>>)
    requires
        shift_groups(a) == shift_groups(b),
    ensures
        flatten_groups(a) == flatten_groups(b),
    decreases a.len(),
{
    assert(shift_groups(a).len() == a.len() && shift_groups(b).len() == b.len());
    if a.len() > 0 {
        assert(shift_groups(a.drop_last()) =~= shift_groups(b.drop_last())) by {
            assert forall|i: int| 0 <= i < a.len() - 1 implies shift_groups(a.drop_last())[i] == shift_groups(
                b.drop_last(),
            )[i] by {
                assert(shift_groups(a)[i] == shift_groups(b)[i]);
            }
        }
        lemma_flatten_same(a.drop_last(), b.drop_last());
        assert(shift_groups(a)[a.len() - 1] == shift_groups(b)[b.len() - 1]);
    }
}

/// Rules that agree in every field are within the bounds together, and together are a
/// `cam` rule with `recursion` and an empty id.
pub proof fn lemma_same_rule_bounds(a: Rule, b: Rule)
    requires
        same_rule(a, b),
    ensures
        rule_in_bounds(a) == rule_in_bounds(b),
        (a.cam is Some && a.recursion is Some && a.id@.len() == 0) == (b.cam is Some && b.recursion is Some
            && b.id@.len() == 0),
{
    lemma_flatten_same(a.shifts@, b.shifts@);
}

} // verus!
