use vstd::prelude::*;
use crate::apply::{default_value, eval_change, grid_value, pattern_values};
use crate::config::spec_direction_word;
use crate::geometry::flatten_groups;
use crate::grid::Grid;
use crate::matcher::{center_gate, matches_at};
use crate::rule_config::{direction_of, rule_built_from, spec_shift_group, spec_shift_groups, RawRule, RawShift, RawShiftGroup};
use crate::text::lowercase_of;
use crate::types::{spec_direction_delta, CellValue, ChangeValue, Direction, Rule, ShiftSpec};

verus! {

// ---------------------------------------------------------------------------
// Matching: what `active_only` blocks
// ---------------------------------------------------------------------------

/// `r` with `active_only` set to `a`.
pub open spec fn with_active_only(r: Rule, a: bool) -> Rule {
    Rule { active_only: a, ..r }
}

/// Law: `active_only` blocks a rule only at a cell that holds the default value and is of
/// age 0; everywhere else (any other value, or a default cell that has aged) the rule
/// passes its gates and matches exactly where the same rule without `active_only` does.
pub proof fn lemma_active_only_blocks_only_fresh_default(g: Grid, rules: Seq<Rule>, i: int, x: int, y: int)
    requires
        0 <= i < rules.len(),
    ensures
        center_gate(g, with_active_only(rules[i], true), x, y) == (center_gate(g, with_active_only(rules[i], false), x, y)
            && !(g.spec_cell(x, y).value == default_value() && g.spec_age(x, y) == 0)),
        matches_at(g, rules.update(i, with_active_only(rules[i], true)), i, x, y) == (matches_at(
            g,
            rules.update(i, with_active_only(rules[i], false)),
            i,
            x,
            y,
        ) && !(g.spec_cell(x, y).value == default_value() && g.spec_age(x, y) == 0)),
{
    let ra = with_active_only(rules[i], true);
    let rp = with_active_only(rules[i], false);
    assert(rules.update(i, ra)[i] == ra);
    assert(rules.update(i, rp)[i] == rp);
    assert(crate::matcher::matcher_pattern(ra) == crate::matcher::matcher_pattern(rp));
    assert(crate::matcher::pattern_in_bounds(g, ra, x, y) == crate::matcher::pattern_in_bounds(g, rp, x, y));
}

// ---------------------------------------------------------------------------
// Changes: what a pattern reference reads
// ---------------------------------------------------------------------------

/// Law: a change `Ref(i)` (written `"$i"`) with `i` below the pattern's length gives the
/// type of the cell that pattern entry `i` reads, around the match: the cell `(dx, dy)` of
/// entry `i` away (the default type off the grid).
pub proof fn lemma_ref_reads_its_pattern_entry(g: Grid, pattern: Seq<(i8, i8, crate::types::CellType)>, cx: int, cy: int, i: usize)
    requires
        i < pattern.len(),
    ensures
        eval_change(ChangeValue::Ref(i), pattern_values(g, pattern, cx, cy)) == grid_value(
            g,
            cx + pattern[i as int].0,
            cy + pattern[i as int].1,
        ).0.0,
{
}

/// Law: a change `Ref(i)` depends on entry `i` of the pattern values alone: whatever value
/// entry `i` holds, `Ref(i)` gives its type, and changing any other entry changes nothing.
pub proof fn lemma_ref_follows_entry(pb: Seq<CellValue>, i: usize, j: int, v: CellValue)
    requires
        i < pb.len(),
        0 <= j < pb.len(),
    ensures
        eval_change(ChangeValue::Ref(i), pb.update(i as int, v)) == v.0.0,
        j != i ==> eval_change(ChangeValue::Ref(i), pb.update(j, v)) == eval_change(ChangeValue::Ref(i), pb),
{
}

/// Law: sums and differences of change values wrap around the 256 cell types: adding a
/// value and then subtracting it gives the first value back, and the order of a sum does
/// not matter.
pub proof fn lemma_change_sum_wraps(a: ChangeValue, b: ChangeValue, pb: Seq<CellValue>)
    ensures
        eval_change(ChangeValue::Add(Box::new(a), Box::new(b)), pb) == eval_change(
            ChangeValue::Add(Box::new(b), Box::new(a)),
            pb,
        ),
        eval_change(
            ChangeValue::Sub(Box::new(ChangeValue::Add(Box::new(a), Box::new(b))), Box::new(b)),
            pb,
        ) == eval_change(a, pb),
{
    let x = eval_change(a, pb) as int;
    let y = eval_change(b, pb) as int;
    let s = (x + y) % 256;
    assert(((s - y) % 256) == x) by (nonlinear_arith)
        requires
            0 <= x < 256,
            0 <= y < 256,
            s == (x + y) % 256,
    ;
}

/// `r` with minimum age `a`.
pub open spec fn with_min_age_gate(r: Rule, a: u64) -> Rule {
    Rule { min_age: a, ..r }
}

/// Law: a rule passes its gates at a cell exactly when the cell is at least its minimum
/// age old and the same rule with no minimum age passes them; so lowering the minimum age
/// never removes a match.
pub proof fn lemma_min_age_gate(g: Grid, r: Rule, x: int, y: int, a: u64, b: u64)
    ensures
        center_gate(g, with_min_age_gate(r, a), x, y) == (g.spec_age(x, y) >= a && center_gate(
            g,
            with_min_age_gate(r, 0),
            x,
            y,
        )),
        b <= a && center_gate(g, with_min_age_gate(r, a), x, y) ==> center_gate(g, with_min_age_gate(r, b), x, y),
{
}

// ---------------------------------------------------------------------------
// Directions: what each name means
// ---------------------------------------------------------------------------

proof fn lemma_direction_words_differ()
    ensures
        "up"@ != "north"@,
        "up"@ != "down"@,
        "up"@ != "south"@,
        "up"@ != "left"@,
        "up"@ != "west"@,
        "up"@ != "right"@,
        "up"@ != "east"@,
        "north"@ != "down"@,
        "north"@ != "south"@,
        "north"@ != "left"@,
        "north"@ != "west"@,
        "north"@ != "right"@,
        "north"@ != "east"@,
        "down"@ != "south"@,
        "down"@ != "left"@,
        "down"@ != "west"@,
        "down"@ != "right"@,
        "down"@ != "east"@,
        "south"@ != "left"@,
        "south"@ != "west"@,
        "south"@ != "right"@,
        "south"@ != "east"@,
        "left"@ != "west"@,
        "left"@ != "right"@,
        "left"@ != "east"@,
        "west"@ != "right"@,
        "west"@ != "east"@,
        "right"@ != "east"@,
{
    reveal_strlit("up");
    reveal_strlit("north");
    reveal_strlit("down");
    reveal_strlit("south");
    reveal_strlit("left");
    reveal_strlit("west");
    reveal_strlit("right");
    reveal_strlit("east");
    assert("up"@.len() != "north"@.len());
    assert("up"@.len() != "down"@.len());
    assert("up"@.len() != "south"@.len());
    assert("up"@.len() != "left"@.len());
    assert("up"@.len() != "west"@.len());
    assert("up"@.len() != "right"@.len());
    assert("up"@.len() != "east"@.len());
    assert("north"@.len() != "down"@.len());
    assert("north"@[0] != "south"@[0]);
    assert("north"@.len() != "left"@.len());
    assert("north"@.len() != "west"@.len());
    assert("north"@[0] != "right"@[0]);
    assert("north"@.len() != "east"@.len());
    assert("down"@.len() != "south"@.len());
    assert("down"@[0] != "left"@[0]);
    assert("down"@[0] != "west"@[0]);
    assert("down"@.len() != "right"@.len());
    assert("down"@[0] != "east"@[0]);
    assert("south"@.len() != "left"@.len());
    assert("south"@.len() != "west"@.len());
    assert("south"@[0] != "right"@[0]);
    assert("south"@.len() != "east"@.len());
    assert("left"@[0] != "west"@[0]);
    assert("left"@.len() != "right"@.len());
    assert("left"@[0] != "east"@[0]);
    assert("west"@.len() != "right"@.len());
    assert("west"@[0] != "east"@[0]);
    assert("right"@.len() != "east"@.len());
}

/// Law: each direction name, in any case, means the direction it names on the grid, and
/// each compass word means the same as its plain one: left and west step one column to the
/// left, right and east one to the right, up and north one row up, down and south one row
/// down; no other word names a direction.
pub proof fn lemma_direction_names_mean_their_step(name: String)
    ensures
        (lowercase_of(name@) == "left"@ || lowercase_of(name@) == "west"@) ==> direction_of(name) is Some
            && spec_direction_delta(direction_of(name)->0) == (-1int, 0int),
        (lowercase_of(name@) == "right"@ || lowercase_of(name@) == "east"@) ==> direction_of(name) is Some
            && spec_direction_delta(direction_of(name)->0) == (1int, 0int),
        (lowercase_of(name@) == "up"@ || lowercase_of(name@) == "north"@) ==> direction_of(name) is Some
            && spec_direction_delta(direction_of(name)->0) == (0int, -1int),
        (lowercase_of(name@) == "down"@ || lowercase_of(name@) == "south"@) ==> direction_of(name) is Some
            && spec_direction_delta(direction_of(name)->0) == (0int, 1int),
        direction_of(name) is Some ==> {
            let w = lowercase_of(name@);
            w == "left"@ || w == "west"@ || w == "right"@ || w == "east"@ || w == "up"@ || w == "north"@ || w == "down"@
                || w == "south"@
        },
{
    reveal_strlit("left");
    reveal_strlit("west");
    reveal_strlit("right");
    reveal_strlit("east");
    reveal_strlit("up");
    reveal_strlit("north");
    reveal_strlit("down");
    reveal_strlit("south");
    lemma_direction_words_differ();
}

/// Law: a compass word and its plain word name the same direction, and the four plain
/// words name four different directions.
pub proof fn lemma_direction_synonyms(w: Seq<char>)
    ensures
        spec_direction_word("west"@) == spec_direction_word("left"@),
        spec_direction_word("east"@) == spec_direction_word("right"@),
        spec_direction_word("north"@) == spec_direction_word("up"@),
        spec_direction_word("south"@) == spec_direction_word("down"@),
        spec_direction_word(w) is Some && spec_direction_word(w) == spec_direction_word("left"@) ==> w == "left"@ || w == "west"@,
        spec_direction_word(w) is Some && spec_direction_word(w) == spec_direction_word("right"@) ==> w == "right"@ || w == "east"@,
        spec_direction_word(w) is Some && spec_direction_word(w) == spec_direction_word("up"@) ==> w == "up"@ || w == "north"@,
        spec_direction_word(w) is Some && spec_direction_word(w) == spec_direction_word("down"@) ==> w == "down"@ || w == "south"@,
{
    reveal_strlit("left");
    reveal_strlit("west");
    reveal_strlit("right");
    reveal_strlit("east");
    reveal_strlit("up");
    reveal_strlit("north");
    reveal_strlit("down");
    reveal_strlit("south");
    lemma_direction_words_differ();
}

// ---------------------------------------------------------------------------
// Building rules: what the written shifts become
// ---------------------------------------------------------------------------

/// All written shifts of the groups, group by group.
pub open spec fn raw_shifts(gs: Seq<RawShiftGroup>) -> Seq<RawShift>
    decreases gs.len(),
{
    if gs.len() == 0 {
        Seq::empty()
    } else {
        raw_shifts(gs.drop_last()) + gs.last().group@
    }
}

/// Sequences joined in order.
spec fn joined(ss: Seq<Seq<ShiftSpec>>) -> Seq<ShiftSpec>
    decreases ss.len(),
{
    if ss.len() == 0 {
        Seq::empty()
    } else {
        joined(ss.drop_last()) + ss.last()
    }
}

proof fn lemma_flatten_joined(v: Seq<Vec<ShiftSpec>>)
    ensures
        flatten_groups(v) == joined(v.map_values(|g: Vec<ShiftSpec>| g@)),
    decreases v.len(),
{
    if v.len() > 0 {
        lemma_flatten_joined(v.drop_last());
        assert(v.map_values(|g: Vec<ShiftSpec>| g@).drop_last() =~= v.drop_last().map_values(|g: Vec<ShiftSpec>| g@));
    }
}

proof fn lemma_groups_joined(gs: Seq<RawShiftGroup>)
    ensures
        joined(spec_shift_groups(gs)) == raw_shifts(gs).map_values(|s: RawShift| crate::rule_config::spec_shift(s)),
    decreases gs.len(),
{
    if gs.len() > 0 {
        lemma_groups_joined(gs.drop_last());
        let p = raw_shifts(gs.drop_last());
        let f = |s: RawShift| crate::rule_config::spec_shift(s);
        assert((p + gs.last().group@).map_values(f) =~= p.map_values(f) + spec_shift_group(gs.last()));
        if gs.last().group@.len() > 0 {
            assert(spec_shift_groups(gs).drop_last() == spec_shift_groups(gs.drop_last()));
        } else {
            assert(spec_shift_group(gs.last()) =~= Seq::<ShiftSpec>::empty());
            assert(p.map_values(f) + spec_shift_group(gs.last()) =~= p.map_values(f));
        }
    }
}

/// Law: a rule built from a written rule has the written shifts, in order, each with the
/// written number of steps, the written broadcast and keep-source flags, and the direction
/// its written name means.
pub proof fn lemma_built_shifts_keep_steps(rule: Rule, r: RawRule)
    requires
        rule_built_from(rule, r),
    ensures
        flatten_groups(rule.shifts@).len() == raw_shifts(r.shifts@).len(),
        forall|j: int|
            0 <= j < raw_shifts(r.shifts@).len() ==> {
                let built = #[trigger] flatten_groups(rule.shifts@)[j];
                let written = raw_shifts(r.shifts@)[j];
                &&& built.steps == written.steps
                &&& built.broadcast == written.broadcast
                &&& built.keep_source == written.keep_source
                &&& direction_of(written.direction) is Some ==> Some(built.direction) == direction_of(written.direction)
            },
{
    lemma_flatten_joined(rule.shifts@);
    lemma_groups_joined(r.shifts@);
}

} // verus!
