use vstd::prelude::*;
use crate::error::{error_kind, CellariaError, ErrorKind};
use crate::text::{concat, concat3, lowercase_of, parse_usize, spec_parse_usize, str_eq, to_lowercase};
use crate::types::{
    CellType, ChangeValue, Direction, MemorySpec, RecordTrigger, RecordedValue,
};

verus! {

// ---------------------------------------------------------------------------
// A YAML document tree, as the configuration format carries it
// ---------------------------------------------------------------------------

/// A YAML number: its value when it is a non-negative integer that fits `u64`, and its text.
#[derive(Debug)]
pub struct YamlNumber {
    pub as_u64: Option<u64>,
    pub text: String,
}

/// A YAML value.
#[derive(Debug)]
pub enum YamlValue {
    Null,
    Bool(bool),
    Number(YamlNumber),
    String(String),
    Sequence(Vec<YamlValue>),
    Mapping(Vec<(YamlValue, YamlValue)>),
    Tagged(String, Box<YamlValue>),
}

// ---------------------------------------------------------------------------
// Directions
// ---------------------------------------------------------------------------

/// Direction named by a lowercase word: up/north, down/south, left/west, right/east.
pub open spec fn spec_direction_word(w: Seq<char>) -> Option<Direction> {
    if w == "up"@ || w == "north"@ {
        Some(Direction::Up)
    } else if w == "down"@ || w == "south"@ {
        Some(Direction::Down)
    } else if w == "left"@ || w == "west"@ {
        Some(Direction::Left)
    } else if w == "right"@ || w == "east"@ {
        Some(Direction::Right)
    } else {
        None
    }
}

/// Direction named by an already lowercased word.
pub fn direction_from_lowercase(w: &str) -> (r: Option<Direction>)
    ensures
        r == spec_direction_word(w@),
{
    if str_eq(w, "up") || str_eq(w, "north") {
        Some(Direction::Up)
    } else if str_eq(w, "down") || str_eq(w, "south") {
        Some(Direction::Down)
    } else if str_eq(w, "left") || str_eq(w, "west") {
        Some(Direction::Left)
    } else if str_eq(w, "right") || str_eq(w, "east") {
        Some(Direction::Right)
    } else {
        None
    }
}

/// Parse a direction name, case-insensitively: up/north, down/south, left/west, right/east.
pub fn parse_direction(s: &str) -> (r: Result<Direction, CellariaError>)
    ensures
        match r {
            Ok(d) => spec_direction_word(lowercase_of(s@)) == Some(d),
            Err(e) => spec_direction_word(lowercase_of(s@)) is None && error_kind(e) == ErrorKind::Config,
        },
{
    let lower = to_lowercase(s);
    match direction_from_lowercase(lower.as_str()) {
        Some(d) => Ok(d),
        None => Err(CellariaError::Config(concat("Invalid direction: ", lower.as_str()))),
    }
}

// ---------------------------------------------------------------------------
// Change values
// ---------------------------------------------------------------------------

/// The change value a YAML node denotes: an integer 0..=255 is a literal, `"$N"` a pattern
/// reference, `{add: [a, b]}` / `{sub: [a, b]}` the sum / difference of two change values.
pub open spec fn spec_change_value(v: YamlValue) -> Option<ChangeValue>
    decreases v,
{
    match v {
        YamlValue::Number(n) => match n.as_u64 {
            Some(x) => if x <= 255 {
                Some(ChangeValue::Literal(x as u8))
            } else {
                None
            },
            None => None,
        },
        YamlValue::String(s) => if s@.len() > 0 && s@[0] == '$' {
            match spec_parse_usize(s@.drop_first()) {
                Some(i) => Some(ChangeValue::Ref(i)),
                None => None,
            }
        } else {
            None
        },
        YamlValue::Mapping(m) => if m@.len() == 1 {
            match m@[0].0 {
                YamlValue::String(k) => if k@ == "add"@ || k@ == "sub"@ {
                    match m@[0].1 {
                        YamlValue::Sequence(ops) => if ops@.len() == 2 {
                            match (spec_change_value(ops@[0]), spec_change_value(ops@[1])) {
                                (Some(a), Some(b)) => if k@ == "add"@ {
                                    Some(ChangeValue::Add(Box::new(a), Box::new(b)))
                                } else {
                                    Some(ChangeValue::Sub(Box::new(a), Box::new(b)))
                                },
                                _ => None,
                            }
                        } else {
                            None
                        },
                        _ => None,
                    }
                } else {
                    None
                },
                _ => None,
            }
        } else {
            None
        },
        _ => None,
    }
}

/// Parse a change value from its YAML node.
pub fn parse_change_value(value: &YamlValue) -> (r: Result<ChangeValue, CellariaError>)
    ensures
        match r {
            Ok(c) => spec_change_value(*value) == Some(c),
            Err(e) => spec_change_value(*value) is None && error_kind(e) == ErrorKind::Config,
        },
    decreases value,
{
    match value {
        YamlValue::Number(n) => {
            match n.as_u64 {
                None => Err(CellariaError::Config(String::from_str("Invalid number in changes"))),
                Some(v) => {
                    if v > 255 {
                        Err(CellariaError::Config(concat3("Change value ", n.text.as_str(), " exceeds 255")))
                    } else {
                        Ok(ChangeValue::Literal(v as u8))
                    }
                },
            }
        },
        YamlValue::String(s) => {
            let n = s.unicode_len();
            if n > 0 && s.get_char(0) == '$' {
                let rest = s.as_str().substring_char(1, n);
                assert(rest@ =~= s@.drop_first());
                match parse_usize(rest) {
                    Some(idx) => Ok(ChangeValue::Ref(idx)),
                    None => Err(CellariaError::Config(concat("Invalid pattern ref: ", s.as_str()))),
                }
            } else {
                Err(CellariaError::Config(concat3("Invalid change value: ", s.as_str(), " (use number or $N)")))
            }
        },
        YamlValue::Mapping(m) => {
            if m.len() != 1 {
                return Err(CellariaError::Config(String::from_str("Invalid change value: mapping must have exactly one key")));
            }
            let key = match &m[0].0 {
                YamlValue::String(k) => k,
                _ => {
                    return Err(CellariaError::Config(String::from_str("Invalid change value: mapping key must be a string")));
                },
            };
            let is_add = str_eq(key.as_str(), "add");
            let is_sub = str_eq(key.as_str(), "sub");
            if !is_add && !is_sub {
                return Err(CellariaError::Config(concat3(
                    "Invalid change value: unknown operation '",
                    key.as_str(),
                    "' (expected 'add' or 'sub')",
                )));
            }
            let operands = match &m[0].1 {
                YamlValue::Sequence(ops) => ops,
                _ => {
                    return Err(CellariaError::Config(concat3(
                        "Invalid change value: '",
                        key.as_str(),
                        "' expects a 2-element list of operands",
                    )));
                },
            };
            if operands.len() != 2 {
                return Err(CellariaError::Config(concat3(
                    "Invalid change value: '",
                    key.as_str(),
                    "' expects exactly 2 operands",
                )));
            }
            let a = match parse_change_value(&operands[0]) {
                Ok(a) => a,
                Err(e) => {
                    return Err(e);
                },
            };
            let b = match parse_change_value(&operands[1]) {
                Ok(b) => b,
                Err(e) => {
                    return Err(e);
                },
            };
            if is_add {
                Ok(ChangeValue::Add(Box::new(a), Box::new(b)))
            } else {
                Ok(ChangeValue::Sub(Box::new(a), Box::new(b)))
            }
        },
        _ => Err(CellariaError::Config(String::from_str("Invalid change value type"))),
    }
}

// ---------------------------------------------------------------------------
// Memory specifications
// ---------------------------------------------------------------------------

/// The recorded value a YAML node denotes: an integer 0..=255 is a cell type, the strings
/// `applied` / `missed` (any case) an arbitration outcome.
pub open spec fn spec_recorded_value(v: YamlValue) -> Option<RecordedValue> {
    match v {
        YamlValue::Number(n) => match n.as_u64 {
            Some(x) => if x <= 255 {
                Some(RecordedValue::Type(CellType(x as u8)))
            } else {
                None
            },
            None => None,
        },
        YamlValue::String(s) => if lowercase_of(s@) == "applied"@ {
            Some(RecordedValue::Applied)
        } else if lowercase_of(s@) == "missed"@ {
            Some(RecordedValue::Missed)
        } else {
            None
        },
        _ => None,
    }
}

/// Parse one entry of a memory match pattern.
pub fn parse_recorded_value(value: &YamlValue) -> (r: Result<RecordedValue, CellariaError>)
    ensures
        match r {
            Ok(v) => spec_recorded_value(*value) == Some(v),
            Err(e) => spec_recorded_value(*value) is None && error_kind(e) == ErrorKind::Config,
        },
{
    match value {
        YamlValue::Number(n) => {
            match n.as_u64 {
                None => Err(CellariaError::Config(String::from_str("Invalid number in memory match_pattern"))),
                Some(v) => {
                    if v > 255 {
                        Err(CellariaError::Config(concat3(
                            "memory match_pattern cell type ",
                            n.text.as_str(),
                            " exceeds 255",
                        )))
                    } else {
                        Ok(RecordedValue::Type(CellType::new(v as u8)))
                    }
                },
            }
        },
        YamlValue::String(s) => {
            let lower = to_lowercase(s.as_str());
            if str_eq(lower.as_str(), "applied") {
                Ok(RecordedValue::Applied)
            } else if str_eq(lower.as_str(), "missed") {
                Ok(RecordedValue::Missed)
            } else {
                Err(CellariaError::Config(concat3(
                    "Invalid memory match_pattern string: ",
                    lower.as_str(),
                    " (expected \"applied\" or \"missed\")",
                )))
            }
        },
        _ => Err(CellariaError::Config(String::from_str("Invalid memory match_pattern entry"))),
    }
}

/// Memory section of a rule, as written in the configuration.
#[derive(Debug)]
pub struct RawMemory {
    pub window: usize,
    pub trigger: String,
    pub neighbor_direction: Option<String>,
    pub match_pattern: Vec<YamlValue>,
}

/// Whether a recorded value has the shape the trigger records: cell types for
/// `NeighborType`, outcomes for `RuleOutcome`.
pub open spec fn shape_fits(t: RecordTrigger, v: RecordedValue) -> bool {
    match t {
        RecordTrigger::NeighborType(_) => v is Type,
        RecordTrigger::RuleOutcome => v is Applied || v is Missed,
    }
}

/// The trigger named by a memory section, or the kind of error it yields.
pub open spec fn spec_memory_trigger(m: RawMemory) -> Result<RecordTrigger, ErrorKind> {
    if lowercase_of(m.trigger@) == "neighbor_type"@ {
        match m.neighbor_direction {
            None => Err(ErrorKind::RuleValidation),
            Some(d) => match spec_direction_word(lowercase_of(d@)) {
                Some(dir) => Ok(RecordTrigger::NeighborType(dir)),
                None => Err(ErrorKind::Config),
            },
        }
    } else if lowercase_of(m.trigger@) == "rule_outcome"@ {
        if m.neighbor_direction is Some {
            Err(ErrorKind::RuleValidation)
        } else {
            Ok(RecordTrigger::RuleOutcome)
        }
    } else {
        Err(ErrorKind::RuleValidation)
    }
}

/// The match pattern of a memory section parses entry by entry.
pub open spec fn all_recorded_parse(p: Seq<YamlValue>) -> bool {
    forall|i: int| 0 <= i < p.len() ==> (#[trigger] spec_recorded_value(p[i])) is Some
}

/// The memory specification a memory section denotes, or the kind of error it yields:
/// trigger errors first, then entry errors, then a length different from `window`, then an
/// entry whose shape the trigger never records.
pub open spec fn spec_memory_result(m: RawMemory) -> Result<(RecordTrigger, Seq<RecordedValue>), ErrorKind> {
    match spec_memory_trigger(m) {
        Err(k) => Err(k),
        Ok(t) => if !all_recorded_parse(m.match_pattern@) {
            Err(ErrorKind::Config)
        } else {
            let vals = m.match_pattern@.map_values(|v: YamlValue| spec_recorded_value(v).unwrap());
            if vals.len() != m.window {
                Err(ErrorKind::RuleValidation)
            } else if !(forall|i: int| 0 <= i < vals.len() ==> shape_fits(t, #[trigger] vals[i])) {
                Err(ErrorKind::RuleValidation)
            } else {
                Ok((t, vals))
            }
        },
    }
}

/// Build a memory specification from its configuration section.
pub fn build_memory_spec(m: &RawMemory) -> (r: Result<MemorySpec, CellariaError>)
    ensures
        match r {
            Ok(spec) => spec_memory_result(*m) == Ok::<(RecordTrigger, Seq<RecordedValue>), ErrorKind>(
                (spec.record_trigger, spec.match_pattern@),
            ) && spec.window == m.window,
            Err(e) => spec_memory_result(*m) == Err::<(RecordTrigger, Seq<RecordedValue>), ErrorKind>(
                error_kind(e),
            ),
        },
{
    let trigger = to_lowercase(m.trigger.as_str());
    let record_trigger = if str_eq(trigger.as_str(), "neighbor_type") {
        match &m.neighbor_direction {
            None => {
                return Err(CellariaError::RuleValidation(String::from_str(
                    "Rule with `memory` trigger `neighbor_type` requires `neighbor_direction`",
                )));
            },
            Some(dir_str) => {
                match parse_direction(dir_str.as_str()) {
                    Ok(d) => RecordTrigger::NeighborType(d),
                    Err(e) => {
                        return Err(e);
                    },
                }
            },
        }
    } else if str_eq(trigger.as_str(), "rule_outcome") {
        if m.neighbor_direction.is_some() {
            return Err(CellariaError::RuleValidation(String::from_str(
                "Rule with `memory` trigger `rule_outcome` must not set `neighbor_direction`",
            )));
        }
        RecordTrigger::RuleOutcome
    } else {
        return Err(CellariaError::RuleValidation(concat3(
            "Invalid memory trigger: ",
            trigger.as_str(),
            " (expected \"neighbor_type\" or \"rule_outcome\")",
        )));
    };
    assert(spec_memory_trigger(*m) == Ok::<RecordTrigger, ErrorKind>(record_trigger));
    let ghost mp = m.match_pattern@;
    let n = m.match_pattern.len();
    let mut match_pattern: Vec<RecordedValue> = Vec::new();
    let mut k: usize = 0;
    while k < n
        invariant
            n == mp.len(),
            mp == m.match_pattern@,
            spec_memory_trigger(*m) == Ok::<RecordTrigger, ErrorKind>(record_trigger),
            k <= n,
            match_pattern@.len() == k,
            forall|i: int| 0 <= i < k ==> spec_recorded_value(mp[i]) == Some(#[trigger] match_pattern@[i]),
        decreases n - k,
    {
        match parse_recorded_value(&m.match_pattern[k]) {
            Ok(v) => {
                match_pattern.push(v);
            },
            Err(e) => {
                assert(!all_recorded_parse(mp));
                return Err(e);
            },
        }
        k += 1;
    }
    let ghost vals = mp.map_values(|v: YamlValue| spec_recorded_value(v).unwrap());
    assert forall|i: int| 0 <= i < mp.len() implies (#[trigger] spec_recorded_value(mp[i])) is Some by {
        assert(spec_recorded_value(mp[i]) == Some(match_pattern@[i]));
    }
    assert(all_recorded_parse(mp));
    assert(match_pattern@ =~= vals);
    if match_pattern.len() != m.window {
        return Err(CellariaError::RuleValidation(String::from_str(
            "Rule with `memory` must have match_pattern.len() == window",
        )));
    }
    let mut shape_ok = true;
    let mut i: usize = 0;
    while i < n
        invariant
            n == match_pattern@.len(),
            i <= n,
            shape_ok == (forall|j: int| 0 <= j < i ==> shape_fits(record_trigger, #[trigger] match_pattern@[j])),
        decreases n - i,
    {
        let fits = match record_trigger {
            RecordTrigger::NeighborType(_) => match match_pattern[i] {
                RecordedValue::Type(_) => true,
                _ => false,
            },
            RecordTrigger::RuleOutcome => match match_pattern[i] {
                RecordedValue::Applied => true,
                RecordedValue::Missed => true,
                _ => false,
            },
        };
        proof {
            if !fits {
                assert(!shape_fits(record_trigger, match_pattern@[i as int]));
            }
        }
        shape_ok = shape_ok && fits;
        i += 1;
    }
    if !shape_ok {
        return Err(CellariaError::RuleValidation(String::from_str(
            "Rule with `memory` has a match_pattern entry its trigger cannot record",
        )));
    }
    Ok(MemorySpec { window: m.window, record_trigger, match_pattern })
}

} // verus!
