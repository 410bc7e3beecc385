use vstd::prelude::*;
use crate::config::{
    build_memory_spec, parse_change_value, parse_direction, spec_change_value, spec_direction_word, spec_memory_result,
    RawMemory, YamlValue,
};
use crate::error::{error_kind, CellariaError, ErrorKind};
use crate::text::{lowercase_of, str_eq, to_lowercase};
use crate::types::{
    CamSearch, CellType, ChangeValue, Direction, FeedbackSpec, MemorySpec, OverflowAction, RecordTrigger,
    RecordedValue, RecursionSpec, Rule, ShiftSpec,
};

verus! {

// ---------------------------------------------------------------------------
// A rule as written in the configuration
// ---------------------------------------------------------------------------

/// One shift of a rule, as written.
pub struct RawShift {
    pub direction: String,
    pub steps: u16,
    pub broadcast: bool,
    pub keep_source: bool,
}

/// A group of shifts, as written.
pub struct RawShiftGroup {
    pub group: Vec<RawShift>,
}

/// One change `(dx, dy, value)`, as written.
pub struct RawChange {
    pub dx: i32,
    pub dy: i32,
    pub value: YamlValue,
}

/// One entry of a two-dimensional pattern, as written.
pub struct RawPatternEntry {
    pub offset: (i8, i8),
    pub cell_type: u8,
}

/// One read of a neighbouring layer, as written.
pub struct RawCrossLayerEntry {
    pub offset: (i8, i8, i8),
    pub cell_type: u8,
}

/// Content-addressable search, as written.
pub struct RawCam {
    pub radius: u8,
    pub target_type: u8,
}

/// Feedback section, as written.
pub struct RawFeedback {
    pub timeout: u64,
    pub new_direction: String,
}

/// Recursion section, as written.
pub struct RawRecursion {
    pub max_depth: u8,
    pub direction: String,
}

/// A rule, as written in the configuration.
pub struct RawRule {
    pub id: Vec<u8>,
    pub pattern: Vec<RawPatternEntry>,
    pub priority: u32,
    pub shifts: Vec<RawShiftGroup>,
    pub changes: Vec<RawChange>,
    pub active_only: bool,
    pub min_age: u64,
    pub overflow: OverflowAction,
    pub cam: Option<RawCam>,
    pub tie_break: u32,
    pub starvation_after: Option<u32>,
    pub feedback: Option<RawFeedback>,
    pub recursion: Option<RawRecursion>,
    pub memory: Option<RawMemory>,
    pub max_activations: Option<u32>,
    pub cross_layer_reads: Vec<RawCrossLayerEntry>,
}

// ---------------------------------------------------------------------------
// What a written rule denotes
// ---------------------------------------------------------------------------

/// Number of shifts over all groups.
pub open spec fn raw_shift_count(groups: Seq<RawShiftGroup>) -> int
    decreases groups.len(),
{
    if groups.len() == 0 {
        0
    } else {
        raw_shift_count(groups.drop_last()) + groups.last().group@.len()
    }
}

/// The direction a written name denotes, case-insensitively.
pub open spec fn direction_of(s: String) -> Option<Direction> {
    spec_direction_word(lowercase_of(s@))
}

/// Every shift direction names a direction.
pub open spec fn all_shift_directions_parse(groups: Seq<RawShiftGroup>) -> bool {
    forall|g: int, k: int|
        0 <= g < groups.len() && 0 <= k < groups[g].group@.len() ==> (#[trigger] groups[g].group@[k]).direction_ok()
}

impl RawShift {
    pub open spec fn direction_ok(self) -> bool {
        direction_of(self.direction) is Some
    }
}

/// Every change value denotes a change value.
pub open spec fn all_changes_parse(ch: Seq<RawChange>) -> bool {
    forall|k: int| 0 <= k < ch.len() ==> (#[trigger] spec_change_value(ch[k].value)) is Some
}

/// The error a written rule yields, checked in this order: an empty id and pattern, the
/// reserved value 0xFF in the id, `cam` with shifts or with a pattern, `feedback` without
/// exactly one shift, `recursion` with a shift, `memory` with more than one shift, a
/// `rule_outcome` memory with `recursion` (all rule-validation errors); then a shift
/// direction, a change value, the feedback or recursion direction (configuration errors);
/// then the memory section's own error.
pub open spec fn spec_rule_error(r: RawRule) -> Option<ErrorKind> {
    let n = raw_shift_count(r.shifts@);
    if r.id@.len() == 0 && r.pattern@.len() == 0 {
        Some(ErrorKind::RuleValidation)
    } else if r.id@.contains(0xFFu8) {
        Some(ErrorKind::RuleValidation)
    } else if r.cam is Some && r.shifts@.len() > 0 {
        Some(ErrorKind::RuleValidation)
    } else if r.cam is Some && r.pattern@.len() > 0 {
        Some(ErrorKind::RuleValidation)
    } else if r.feedback is Some && n != 1 {
        Some(ErrorKind::RuleValidation)
    } else if r.recursion is Some && n != 0 {
        Some(ErrorKind::RuleValidation)
    } else if r.memory is Some && n > 1 {
        Some(ErrorKind::RuleValidation)
    } else if r.memory is Some && r.recursion is Some && lowercase_of(r.memory->0.trigger@) == "rule_outcome"@ {
        Some(ErrorKind::RuleValidation)
    } else if !all_shift_directions_parse(r.shifts@) {
        Some(ErrorKind::Config)
    } else if !all_changes_parse(r.changes@) {
        Some(ErrorKind::Config)
    } else if r.feedback is Some && direction_of(r.feedback->0.new_direction) is None {
        Some(ErrorKind::Config)
    } else if r.recursion is Some && direction_of(r.recursion->0.direction) is None {
        Some(ErrorKind::Config)
    } else if r.memory is Some && spec_memory_result(r.memory->0) is Err {
        Some(spec_memory_result(r.memory->0)->Err_0)
    } else {
        None
    }
}

/// The shift a written shift denotes.
pub open spec fn spec_shift(s: RawShift) -> ShiftSpec {
    ShiftSpec {
        direction: direction_of(s.direction).unwrap(),
        steps: s.steps,
        broadcast: s.broadcast,
        keep_source: s.keep_source,
    }
}

/// The shifts of a written group.
pub open spec fn spec_shift_group(g: RawShiftGroup) -> Seq<ShiftSpec> {
    g.group@.map_values(|s: RawShift| spec_shift(s))
}

/// The shift groups of a rule: the written groups that are not empty, converted.
pub open spec fn spec_shift_groups(gs: Seq<RawShiftGroup>) -> Seq<Seq<ShiftSpec>>
    decreases gs.len(),
{
    if gs.len() == 0 {
        Seq::empty()
    } else if gs.last().group@.len() > 0 {
        spec_shift_groups(gs.drop_last()).push(spec_shift_group(gs.last()))
    } else {
        spec_shift_groups(gs.drop_last())
    }
}

/// The pattern of a rule: the written pattern, or, when it is empty,
/// `(0, 0, id[0]), (1, 0, id[1]), ...`.
pub open spec fn spec_pattern_of(r: RawRule) -> Seq<(i8, i8, CellType)> {
    if r.pattern@.len() > 0 {
        r.pattern@.map_values(|e: RawPatternEntry| (e.offset.0, e.offset.1, CellType(e.cell_type)))
    } else {
        r.id@.map(|i: int, b: u8| (i as i8, 0i8, CellType(b)))
    }
}

/// The cell type a rule is indexed by: the first id entry, else the first pattern entry.
pub open spec fn spec_raw_head(r: RawRule) -> u8 {
    if r.id@.len() > 0 {
        r.id@[0]
    } else {
        r.pattern@[0].cell_type
    }
}

/// `rule` is the rule that the written rule `r` denotes.
pub open spec fn rule_built_from(rule: Rule, r: RawRule) -> bool {
    &&& rule.id@ == r.id@.map_values(|b: u8| CellType(b))
    &&& rule.pattern@ == spec_pattern_of(r)
    &&& rule.shifts@.map_values(|g: Vec<ShiftSpec>| g@) == spec_shift_groups(r.shifts@)
    &&& rule.changes@.len() == r.changes@.len()
    &&& forall|k: int|
        0 <= k < r.changes@.len() ==> (#[trigger] rule.changes@[k]).0 == r.changes@[k].dx && rule.changes@[k].1
            == r.changes@[k].dy && spec_change_value(r.changes@[k].value) == Some(rule.changes@[k].2)
    &&& rule.active_only == r.active_only
    &&& rule.priority == r.priority
    &&& rule.min_age == r.min_age
    &&& rule.overflow == r.overflow
    &&& rule.tie_break == r.tie_break
    &&& rule.starvation_after == r.starvation_after
    &&& rule.max_activations == r.max_activations
    &&& rule.cam == match r.cam {
        Some(c) => Some(CamSearch { radius: c.radius, target_type: CellType(c.target_type) }),
        None => None,
    }
    &&& rule.feedback == match r.feedback {
        Some(f) => Some(FeedbackSpec { timeout: f.timeout, new_direction: direction_of(f.new_direction).unwrap() }),
        None => None,
    }
    &&& rule.recursion == match r.recursion {
        Some(c) => Some(RecursionSpec { max_depth: c.max_depth, direction: direction_of(c.direction).unwrap() }),
        None => None,
    }
    &&& match r.memory {
        None => rule.memory is None,
        Some(m) => match rule.memory {
            Some(ms) => spec_memory_result(m) == Ok::<(RecordTrigger, Seq<RecordedValue>), ErrorKind>(
                (ms.record_trigger, ms.match_pattern@),
            ) && ms.window == m.window,
            None => false,
        },
    }
    &&& rule.cross_layer_reads@ == r.cross_layer_reads@.map_values(
        |e: RawCrossLayerEntry| (e.offset.0, e.offset.1, e.offset.2, CellType(e.cell_type)),
    )
}

// ---------------------------------------------------------------------------
// Building a rule
// ---------------------------------------------------------------------------

/// Number of shifts over all groups, capped at 2.
fn capped_shift_count(groups: &Vec<RawShiftGroup>) -> (n: usize)
    ensures
        n as int == if raw_shift_count(groups@) < 2 {
            raw_shift_count(groups@)
        } else {
            2
        },
{
    let mut n: usize = 0;
    let mut g: usize = 0;
    while g < groups.len()
        invariant
            g <= groups@.len(),
            raw_shift_count(groups@.take(g as int)) >= 0,
            n as int == if raw_shift_count(groups@.take(g as int)) < 2 {
                raw_shift_count(groups@.take(g as int))
            } else {
                2
            },
        decreases groups@.len() - g,
    {
        assert(groups@.take(g as int + 1).drop_last() =~= groups@.take(g as int));
        let len = groups[g].group.len();
        if len >= 2 || n + len >= 2 {
            n = 2;
        } else {
            n = n + len;
        }
        g += 1;
    }
    assert(groups@.take(g as int) =~= groups@);
    n
}

/// Convert the written shift groups, dropping empty groups.
fn build_shift_groups(groups: &Vec<RawShiftGroup>) -> (r: Result<Vec<Vec<ShiftSpec>>, CellariaError>)
    ensures
        match r {
            Ok(v) => all_shift_directions_parse(groups@) && v@.map_values(|g: Vec<ShiftSpec>| g@)
                == spec_shift_groups(groups@),
            Err(e) => !all_shift_directions_parse(groups@) && error_kind(e) == ErrorKind::Config,
        },
{
    let mut out: Vec<Vec<ShiftSpec>> = Vec::new();
    let mut g: usize = 0;
    while g < groups.len()
        invariant
            g <= groups@.len(),
            all_shift_directions_parse(groups@.take(g as int)),
            out@.map_values(|h: Vec<ShiftSpec>| h@) == spec_shift_groups(groups@.take(g as int)),
        decreases groups@.len() - g,
    {
        let ghost pre = groups@.take(g as int);
        assert(groups@.take(g as int + 1).drop_last() =~= pre);
        let grp = &groups[g].group;
        let mut shifts: Vec<ShiftSpec> = Vec::new();
        let mut k: usize = 0;
        while k < grp.len()
            invariant
                g < groups@.len(),
                grp@ == groups@[g as int].group@,
                k <= grp@.len(),
                forall|j: int| 0 <= j < k ==> (#[trigger] grp@[j]).direction_ok(),
                shifts@ == grp@.take(k as int).map_values(|s: RawShift| spec_shift(s)),
            decreases grp@.len() - k,
        {
            match parse_direction(grp[k].direction.as_str()) {
                Ok(direction) => {
                    shifts.push(
                        ShiftSpec {
                            direction,
                            steps: grp[k].steps,
                            broadcast: grp[k].broadcast,
                            keep_source: grp[k].keep_source,
                        },
                    );
                    assert(grp@.take(k as int + 1).map_values(|s: RawShift| spec_shift(s)) =~= grp@.take(
                        k as int,
                    ).map_values(|s: RawShift| spec_shift(s)).push(spec_shift(grp@[k as int])));
                },
                Err(e) => {
                    assert(!groups@[g as int].group@[k as int].direction_ok());
                    return Err(e);
                },
            }
            k += 1;
        }
        assert(grp@.take(k as int) =~= grp@);
        let ghost before = out@;
        if shifts.len() > 0 {
            out.push(shifts);
            assert(out@.map_values(|h: Vec<ShiftSpec>| h@) =~= before.map_values(|h: Vec<ShiftSpec>| h@).push(
                spec_shift_group(groups@[g as int]),
            ));
        }
        assert forall|a: int, b: int|
            0 <= a < g + 1 && 0 <= b < groups@.take(g as int + 1)[a].group@.len() implies (
            #[trigger] groups@.take(g as int + 1)[a].group@[b]).direction_ok() by {
            if a < g {
                assert(groups@.take(g as int + 1)[a] == pre[a]);
            }
        }
        g += 1;
    }
    assert(groups@.take(g as int) =~= groups@);
    Ok(out)
}

/// Convert the written changes.
fn build_changes(changes: &Vec<RawChange>) -> (r: Result<Vec<(i32, i32, ChangeValue)>, CellariaError>)
    ensures
        match r {
            Ok(v) => all_changes_parse(changes@) && v@.len() == changes@.len() && forall|k: int|
                0 <= k < changes@.len() ==> (#[trigger] v@[k]).0 == changes@[k].dx && v@[k].1 == changes@[k].dy
                    && spec_change_value(changes@[k].value) == Some(v@[k].2),
            Err(e) => !all_changes_parse(changes@) && error_kind(e) == ErrorKind::Config,
        },
{
    let mut out: Vec<(i32, i32, ChangeValue)> = Vec::new();
    let mut k: usize = 0;
    while k < changes.len()
        invariant
            k <= changes@.len(),
            out@.len() == k,
            forall|j: int|
                0 <= j < k ==> (#[trigger] out@[j]).0 == changes@[j].dx && out@[j].1 == changes@[j].dy
                    && spec_change_value(changes@[j].value) == Some(out@[j].2),
        decreases changes@.len() - k,
    {
        match parse_change_value(&changes[k].value) {
            Ok(cv) => {
                out.push((changes[k].dx, changes[k].dy, cv));
            },
            Err(e) => {
                return Err(e);
            },
        }
        k += 1;
    }
    assert forall|j: int| 0 <= j < changes@.len() implies (#[trigger] spec_change_value(changes@[j].value)) is Some by {
        assert(spec_change_value(changes@[j].value) == Some(out@[j].2));
    }
    Ok(out)
}

/// The id as cell types.
fn build_id(id: &Vec<u8>) -> (r: Vec<CellType>)
    ensures
        r@ == id@.map_values(|b: u8| CellType(b)),
{
    let mut out: Vec<CellType> = Vec::new();
    let mut k: usize = 0;
    while k < id.len()
        invariant
            k <= id@.len(),
            out@ == id@.take(k as int).map_values(|b: u8| CellType(b)),
        decreases id@.len() - k,
    {
        out.push(CellType(id[k]));
        assert(id@.take(k as int + 1).map_values(|b: u8| CellType(b)) =~= id@.take(k as int).map_values(
            |b: u8| CellType(b),
        ).push(CellType(id@[k as int])));
        k += 1;
    }
    assert(id@.take(k as int) =~= id@);
    out
}

/// The pattern of the rule: the written one, or the one the id spells.
fn build_pattern(raw: &RawRule) -> (r: Vec<(i8, i8, CellType)>)
    ensures
        r@ == spec_pattern_of(*raw),
{
    let mut out: Vec<(i8, i8, CellType)> = Vec::new();
    let mut k: usize = 0;
    if raw.pattern.len() > 0 {
        while k < raw.pattern.len()
            invariant
                raw.pattern@.len() > 0,
                k <= raw.pattern@.len(),
                out@ == raw.pattern@.take(k as int).map_values(
                    |e: RawPatternEntry| (e.offset.0, e.offset.1, CellType(e.cell_type)),
                ),
            decreases raw.pattern@.len() - k,
        {
            let e = &raw.pattern[k];
            out.push((e.offset.0, e.offset.1, CellType(e.cell_type)));
            assert(raw.pattern@.take(k as int + 1).map_values(
                |e: RawPatternEntry| (e.offset.0, e.offset.1, CellType(e.cell_type)),
            ) =~= raw.pattern@.take(k as int).map_values(
                |e: RawPatternEntry| (e.offset.0, e.offset.1, CellType(e.cell_type)),
            ).push((raw.pattern@[k as int].offset.0, raw.pattern@[k as int].offset.1, CellType(raw.pattern@[k as int].cell_type))));
            k += 1;
        }
        assert(raw.pattern@.take(k as int) =~= raw.pattern@);
    } else {
        while k < raw.id.len()
            invariant
                raw.pattern@.len() == 0,
                k <= raw.id@.len(),
                out@ == raw.id@.take(k as int).map(|i: int, b: u8| (i as i8, 0i8, CellType(b))),
            decreases raw.id@.len() - k,
        {
            out.push((k as i8, 0i8, CellType(raw.id[k])));
            assert(raw.id@.take(k as int + 1).map(|i: int, b: u8| (i as i8, 0i8, CellType(b))) =~= raw.id@.take(
                k as int,
            ).map(|i: int, b: u8| (i as i8, 0i8, CellType(b))).push((k as i8, 0i8, CellType(raw.id@[k as int]))));
            k += 1;
        }
        assert(raw.id@.take(k as int) =~= raw.id@);
    }
    out
}

/// The neighbouring-layer reads of the rule.
fn build_cross_layer(entries: &Vec<RawCrossLayerEntry>) -> (r: Vec<(i8, i8, i8, CellType)>)
    ensures
        r@ == entries@.map_values(|e: RawCrossLayerEntry| (e.offset.0, e.offset.1, e.offset.2, CellType(e.cell_type))),
{
    let mut out: Vec<(i8, i8, i8, CellType)> = Vec::new();
    let mut k: usize = 0;
    while k < entries.len()
        invariant
            k <= entries@.len(),
            out@ == entries@.take(k as int).map_values(
                |e: RawCrossLayerEntry| (e.offset.0, e.offset.1, e.offset.2, CellType(e.cell_type)),
            ),
        decreases entries@.len() - k,
    {
        let e = &entries[k];
        out.push((e.offset.0, e.offset.1, e.offset.2, CellType(e.cell_type)));
        assert(entries@.take(k as int + 1).map_values(
            |e: RawCrossLayerEntry| (e.offset.0, e.offset.1, e.offset.2, CellType(e.cell_type)),
        ) =~= entries@.take(k as int).map_values(
            |e: RawCrossLayerEntry| (e.offset.0, e.offset.1, e.offset.2, CellType(e.cell_type)),
        ).push(
            (
                entries@[k as int].offset.0,
                entries@[k as int].offset.1,
                entries@[k as int].offset.2,
                CellType(entries@[k as int].cell_type),
            ),
        ));
        k += 1;
    }
    assert(entries@.take(k as int) =~= entries@);
    out
}

/// Validate a written rule and build the rule it denotes.
pub fn build_rule(raw: RawRule) -> (r: Result<Rule, CellariaError>)
    ensures
        match r {
            Ok(rule) => spec_rule_error(raw) is None && rule_built_from(rule, raw),
            Err(e) => spec_rule_error(raw) == Some(error_kind(e)),
        },
{
    let n = capped_shift_count(&raw.shifts);
    if raw.id.len() == 0 && raw.pattern.len() == 0 {
        return Err(CellariaError::RuleValidation(String::from_str("Rule id or pattern must not be empty")));
    }
    let mut k: usize = 0;
    while k < raw.id.len()
        invariant
            k <= raw.id@.len(),
            forall|j: int| 0 <= j < k ==> raw.id@[j] != 0xFFu8,
        decreases raw.id@.len() - k,
    {
        if raw.id[k] == 0xFF {
            assert(raw.id@.contains(0xFFu8));
            return Err(CellariaError::RuleValidation(String::from_str(
                "Rule id contains 0xFF which is reserved for RuleStore protocol",
            )));
        }
        k += 1;
    }
    assert(!raw.id@.contains(0xFFu8));
    if raw.cam.is_some() && raw.shifts.len() > 0 {
        return Err(CellariaError::RuleValidation(String::from_str("Rule with `cam` must not also have `shifts`")));
    }
    if raw.cam.is_some() && raw.pattern.len() > 0 {
        return Err(CellariaError::RuleValidation(String::from_str(
            "Rule with `cam` must not have an explicit `pattern` (only the head cell type is checked)",
        )));
    }
    if raw.feedback.is_some() && n != 1 {
        return Err(CellariaError::RuleValidation(String::from_str(
            "Rule with `feedback` must have exactly one shift",
        )));
    }
    if raw.recursion.is_some() && n != 0 {
        return Err(CellariaError::RuleValidation(String::from_str("Rule with `recursion` must have no shifts")));
    }
    if raw.memory.is_some() && n > 1 {
        return Err(CellariaError::RuleValidation(String::from_str(
            "Rule with `memory` must have zero or one shift",
        )));
    }
    if let Some(mem) = &raw.memory {
        if raw.recursion.is_some() {
            let t = to_lowercase(mem.trigger.as_str());
            if str_eq(t.as_str(), "rule_outcome") {
                return Err(CellariaError::RuleValidation(String::from_str(
                    "Rule with `memory` trigger `rule_outcome` must not also have `recursion` (cascade levels have no separate arbitration outcome to record)",
                )));
            }
        }
    }
    let shifts = match build_shift_groups(&raw.shifts) {
        Ok(s) => s,
        Err(e) => {
            return Err(e);
        },
    };
    let changes = match build_changes(&raw.changes) {
        Ok(c) => c,
        Err(e) => {
            return Err(e);
        },
    };
    let id = build_id(&raw.id);
    let pattern = build_pattern(&raw);
    let cross_layer_reads = build_cross_layer(&raw.cross_layer_reads);
    let feedback = match &raw.feedback {
        Some(f) => match parse_direction(f.new_direction.as_str()) {
            Ok(d) => Some(FeedbackSpec { timeout: f.timeout, new_direction: d }),
            Err(e) => {
                return Err(e);
            },
        },
        None => None,
    };
    let recursion = match &raw.recursion {
        Some(rc) => match parse_direction(rc.direction.as_str()) {
            Ok(d) => Some(RecursionSpec { max_depth: rc.max_depth, direction: d }),
            Err(e) => {
                return Err(e);
            },
        },
        None => None,
    };
    let memory = match &raw.memory {
        Some(m) => match build_memory_spec(m) {
            Ok(spec) => Some(spec),
            Err(e) => {
                return Err(e);
            },
        },
        None => None,
    };
    let cam = match raw.cam {
        Some(c) => Some(CamSearch { radius: c.radius, target_type: CellType(c.target_type) }),
        None => None,
    };
    Ok(
        Rule {
            id,
            pattern,
            shifts,
            changes,
            active_only: raw.active_only,
            priority: raw.priority,
            min_age: raw.min_age,
            overflow: raw.overflow,
            cam,
            tie_break: raw.tie_break,
            starvation_after: raw.starvation_after,
            feedback,
            recursion,
            memory,
            max_activations: raw.max_activations,
            cross_layer_reads,
        },
    )
}

} // verus!
