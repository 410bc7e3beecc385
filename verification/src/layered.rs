use vstd::prelude::*;
use crate::error::{error_kind, CellariaError, ErrorKind};
use crate::grid::Grid;
use crate::loader::{
    build_config, grid_built_from, index_built_from, rule_head, rules_built_from, rules_with_head, spec_config_error,
    RawConfig,
};
use crate::rule_config::{rule_built_from, spec_raw_head, spec_rule_error};
use crate::text::{decimal_string, decimal_text};
use crate::types::{lemma_priority_sorted, priority_insert, priority_sorted, CellType, Rule, RuleIndex};

verus! {

/// Several grids of the same size that share one rule index.
pub struct LayeredEngine {
    layers: Vec<Grid>,
    rule_index: RuleIndex,
}

impl LayeredEngine {
    pub closed spec fn spec_layers(self) -> Seq<Grid> {
        self.layers@
    }

    pub closed spec fn spec_rule_index(self) -> RuleIndex {
        self.rule_index
    }

    /// Number of layers.
    pub fn layer_count(&self) -> (n: usize)
        ensures
            n == self.spec_layers().len(),
    {
        self.layers.len()
    }

    /// The grid of layer `i`.
    pub fn layer_grid(&self, i: usize) -> (g: &Grid)
        requires
            i < self.spec_layers().len(),
        ensures
            *g == self.spec_layers()[i as int],
    {
        &self.layers[i]
    }

    /// The rule index all layers share.
    pub fn rule_index(&self) -> (r: &RuleIndex)
        ensures
            *r == self.spec_rule_index(),
    {
        &self.rule_index
    }
}

/// One layer as given: a name for messages (its file), and its configuration or the error
/// reading it gave.
pub type LayerSource = (String, Result<RawConfig, CellariaError>);

/// Width and height a configuration declares.
pub open spec fn layer_dims(c: RawConfig) -> (usize, usize) {
    (c.grid.width, c.grid.height)
}

/// Dimensions of the first layer.
pub open spec fn first_dims(ls: Seq<LayerSource>) -> (usize, usize) {
    match ls[0].1 {
        Ok(c) => layer_dims(c),
        Err(_) => (0, 0),
    }
}

/// The error of the first layer that has one, layer by layer: the error reading it, its
/// configuration's error, or dimensions that differ from the first layer's (a grid-bounds
/// error).
pub open spec fn layers_error(ls: Seq<LayerSource>, n: int) -> Option<ErrorKind>
    decreases n,
{
    if n <= 0 {
        None
    } else {
        match layers_error(ls, n - 1) {
            Some(k) => Some(k),
            None => match ls[n - 1].1 {
                Err(e) => Some(error_kind(e)),
                Ok(c) => match spec_config_error(c) {
                    Some(k) => Some(k),
                    None => if layer_dims(c) != first_dims(ls) {
                        Some(ErrorKind::GridBounds)
                    } else {
                        None
                    },
                },
            },
        }
    }
}

/// A written configuration has a rule with head `h`.
pub open spec fn config_has_head(c: RawConfig, h: int) -> bool {
    exists|k: int| 0 <= k < c.rules@.len() && spec_raw_head(#[trigger] c.rules@[k]) as int == h
}

/// Number of layers among the first `n` whose configuration has a rule with head `h`.
pub open spec fn head_count(ls: Seq<LayerSource>, n: int, h: int) -> int
    decreases n,
{
    if n <= 0 {
        0
    } else {
        head_count(ls, n - 1, h) + match ls[n - 1].1 {
            Ok(c) => if config_has_head(c, h) {
                1int
            } else {
                0int
            },
            Err(_) => 0int,
        }
    }
}

/// Two layers have rules with the same head.
pub open spec fn has_head_collision(ls: Seq<LayerSource>) -> bool {
    exists|h: int| 0 <= h < 256 && #[trigger] head_count(ls, ls.len() as int, h) >= 2
}

/// The error loading the layers yields: no layer at all (a configuration error), then the
/// first layer's error, then two layers with rules for one head (a configuration error).
pub open spec fn spec_layered_error(ls: Seq<LayerSource>) -> Option<ErrorKind> {
    if ls.len() == 0 {
        Some(ErrorKind::Config)
    } else {
        match layers_error(ls, ls.len() as int) {
            Some(k) => Some(k),
            None => if has_head_collision(ls) {
                Some(ErrorKind::Config)
            } else {
                None
            },
        }
    }
}

/// The rules of head `h` over the first `n` layers: each layer's sorted rules, in layer order.
pub open spec fn layered_head_rules(built: Seq<Seq<Rule>>, n: int, h: int) -> Seq<Rule>
    decreases n,
{
    if n <= 0 {
        Seq::empty()
    } else {
        layered_head_rules(built, n - 1, h) + priority_sorted(rules_with_head(built[n - 1], h))
    }
}

/// The configuration of layer `i` (on the inputs that load).
pub open spec fn layer_config(ls: Seq<LayerSource>, i: int) -> RawConfig {
    ls[i].1->Ok_0
}

/// `e` is the engine the layers denote: one grid per layer, and every head's rules of all
/// layers merged and stably sorted by descending priority.
pub open spec fn layered_built_from(e: LayeredEngine, ls: Seq<LayerSource>) -> bool {
    &&& e.spec_layers().len() == ls.len()
    &&& forall|i: int| 0 <= i < ls.len() ==> grid_built_from(#[trigger] e.spec_layers()[i], layer_config(ls, i).grid)
    &&& exists|built: Seq<Seq<Rule>>|
        #[trigger] built.len() == ls.len() && (forall|i: int|
            0 <= i < ls.len() ==> rules_built_from(#[trigger] built[i], layer_config(ls, i).rules@)) && (forall|h: int|
            0 <= h < 256 ==> #[trigger] e.spec_rule_index().rules_of(h) == priority_sorted(
                layered_head_rules(built, ls.len() as int, h),
            ))
}

proof fn lemma_rules_with_head_nonempty(s: Seq<Rule>, h: int)
    ensures
        rules_with_head(s, h).len() > 0 <==> exists|k: int| 0 <= k < s.len() && rule_head(#[trigger] s[k]) == h,
    decreases s.len(),
{
    if s.len() > 0 {
        lemma_rules_with_head_nonempty(s.drop_last(), h);
        if rules_with_head(s.drop_last(), h).len() > 0 {
            let k = choose|k: int| 0 <= k < s.drop_last().len() && rule_head(#[trigger] s.drop_last()[k]) == h;
            assert(s[k] == s.drop_last()[k]);
        }
        if exists|k: int| 0 <= k < s.len() && rule_head(#[trigger] s[k]) == h {
            let k = choose|k: int| 0 <= k < s.len() && rule_head(#[trigger] s[k]) == h;
            if k < s.len() - 1 {
                assert(s.drop_last()[k] == s[k]);
            }
        }
    }
}

proof fn lemma_built_head(rule: Rule, raw: crate::rule_config::RawRule)
    requires
        rule_built_from(rule, raw),
        spec_rule_error(raw) is None,
    ensures
        rule_head(rule) == spec_raw_head(raw) as int,
{
    if raw.id@.len() == 0 {
        assert(raw.pattern@.len() > 0);
        assert(rule.pattern@[0].2 == CellType(raw.pattern@[0].cell_type));
    } else {
        assert(rule.id@[0] == CellType(raw.id@[0]));
    }
}

proof fn lemma_first_rule_error_none(s: Seq<crate::rule_config::RawRule>, k: int)
    requires
        crate::loader::first_rule_error(s) is None,
        0 <= k < s.len(),
    ensures
        spec_rule_error(s[k]) is None,
    decreases s.len(),
{
    if k < s.len() - 1 {
        assert(s.drop_last()[k] == s[k]);
        lemma_first_rule_error_none(s.drop_last(), k);
    }
}

/// A loaded layer has head `h` exactly when its configuration has a rule with head `h`.
proof fn lemma_index_has_head(index: RuleIndex, built: Seq<Rule>, c: RawConfig, h: int)
    requires
        0 <= h < 256,
        spec_config_error(c) is None,
        rules_built_from(built, c.rules@),
        index_built_from(index, built),
    ensures
        (index.rules_of(h).len() > 0) == config_has_head(c, h),
{
    lemma_priority_sorted(rules_with_head(built, h));
    lemma_rules_with_head_nonempty(built, h);
    assert(index.rules_of(h) == priority_sorted(rules_with_head(built, h)));
    if exists|k: int| 0 <= k < built.len() && rule_head(#[trigger] built[k]) == h {
        let k = choose|k: int| 0 <= k < built.len() && rule_head(#[trigger] built[k]) == h;
        lemma_first_rule_error_none(c.rules@, k);
        lemma_built_head(built[k], c.rules@[k]);
        assert(spec_raw_head(c.rules@[k]) as int == h);
    }
    if config_has_head(c, h) {
        let k = choose|k: int| 0 <= k < c.rules@.len() && spec_raw_head(#[trigger] c.rules@[k]) as int == h;
        lemma_first_rule_error_none(c.rules@, k);
        lemma_built_head(built[k], c.rules@[k]);
        assert(rule_head(built[k]) == h);
    }
}

proof fn lemma_layers_error_prefix(ls: Seq<LayerSource>, n: int, m: int)
    requires
        0 <= n <= m <= ls.len(),
        layers_error(ls, n) is Some,
    ensures
        layers_error(ls, m) == layers_error(ls, n),
    decreases m - n,
{
    if n < m {
        lemma_layers_error_prefix(ls, n, m - 1);
    }
}

proof fn lemma_head_count_mono(ls: Seq<LayerSource>, n: int, m: int, h: int)
    requires
        0 <= n <= m,
    ensures
        head_count(ls, n, h) <= head_count(ls, m, h),
        head_count(ls, n, h) >= 0,
    decreases m - n,
{
    if n < m {
        lemma_head_count_mono(ls, n, m - 1, h);
    } else {
        lemma_head_count_nonneg(ls, n, h);
    }
}

proof fn lemma_head_count_nonneg(ls: Seq<LayerSource>, n: int, h: int)
    ensures
        head_count(ls, n, h) >= 0,
    decreases n,
{
    if n > 0 {
        lemma_head_count_nonneg(ls, n - 1, h);
    }
}

/// Layer `i` is the first layer with an error, and its error is that its dimensions differ
/// from the first layer's.
pub open spec fn dims_mismatch_at(ls: Seq<LayerSource>, i: int) -> bool {
    &&& 0 < i < ls.len()
    &&& layers_error(ls, i) is None
    &&& ls[i].1 is Ok
    &&& spec_config_error(layer_config(ls, i)) is None
    &&& layer_dims(layer_config(ls, i)) != first_dims(ls)
}

/// The message for layer `name` of `w`x`h` whose first layer `first` is `fw`x`fh`.
pub open spec fn dims_error_text(name: Seq<char>, w: nat, h: nat, first: Seq<char>, fw: nat, fh: nat) -> Seq<char> {
    "load_layered_config: layer '"@ + name + "' is "@ + decimal_text(w) + "x"@ + decimal_text(h) + ", but layer '"@
        + first + "' is "@ + decimal_text(fw) + "x"@ + decimal_text(fh)
        + " -- LayeredEngine requires all layers to share the same grid dimensions"@
}

/// The names of the first `n` layers whose configuration has a rule with head `h`, joined
/// with ", ", and whether there was any.
pub open spec fn names_with_head(ls: Seq<LayerSource>, h: int, n: int) -> (Seq<char>, bool)
    decreases n,
{
    if n <= 0 {
        (Seq::empty(), false)
    } else {
        let p = names_with_head(ls, h, n - 1);
        if ls[n - 1].1 is Ok && config_has_head(layer_config(ls, n - 1), h) {
            (if p.1 {
                p.0 + ", "@ + ls[n - 1].0@
            } else {
                p.0 + ls[n - 1].0@
            }, true)
        } else {
            p
        }
    }
}

/// The first head from `h` on that two layers have rules for (256 for none).
pub open spec fn first_collision(ls: Seq<LayerSource>, h: int) -> int
    decreases 256 - h,
{
    if h >= 256 {
        256
    } else if head_count(ls, ls.len() as int, h) >= 2 {
        h
    } else {
        first_collision(ls, h + 1)
    }
}

/// The message for head `h` that the layers named `names` all have rules for.
pub open spec fn collision_text(h: nat, names: Seq<char>) -> Seq<char> {
    "load_layered_config: CellType "@ + decimal_text(h) + " has rules defined in MORE THAN ONE file ("@ + names
        + ") -- all layers share one rule_index, so this CellType would fire every one of those files' rules on every layer. Use a different CellType number in each file, or move the shared rule into just one of them"@
}

proof fn lemma_mismatch_error(ls: Seq<LayerSource>, i: int)
    requires
        dims_mismatch_at(ls, i),
    ensures
        layers_error(ls, i + 1) == Some(ErrorKind::GridBounds),
        layers_error(ls, ls.len() as int) == Some(ErrorKind::GridBounds),
{
    lemma_layers_error_prefix(ls, i + 1, ls.len() as int);
}

/// No layer before `i` is a mismatch when the layers up to `i` have no error.
proof fn lemma_no_mismatch_before(ls: Seq<LayerSource>, i: int, j: int)
    requires
        0 <= i <= ls.len(),
        layers_error(ls, i) is None,
        dims_mismatch_at(ls, j),
    ensures
        j >= i,
{
    if j < i {
        lemma_mismatch_error(ls, j);
        lemma_layers_error_prefix(ls, j + 1, i);
    }
}

proof fn lemma_first_collision_at(ls: Seq<LayerSource>, a: int, hh: int)
    requires
        0 <= a <= hh < 256,
        forall|g: int| 0 <= g < hh ==> #[trigger] head_count(ls, ls.len() as int, g) < 2,
        head_count(ls, ls.len() as int, hh) >= 2,
    ensures
        first_collision(ls, a) == hh,
    decreases hh - a,
{
    if a < hh {
        lemma_first_collision_at(ls, a + 1, hh);
    }
}

/// When layer `i` is the first with an error and that error is not a dimension mismatch,
/// no layer is a mismatch.
proof fn lemma_no_mismatch(ls: Seq<LayerSource>, i: int)
    requires
        0 <= i < ls.len(),
        layers_error(ls, i) is None,
        layers_error(ls, i + 1) is Some,
        !dims_mismatch_at(ls, i),
    ensures
        forall|j: int| !#[trigger] dims_mismatch_at(ls, j),
{
    assert forall|j: int| !#[trigger] dims_mismatch_at(ls, j) by {
        if dims_mismatch_at(ls, j) {
            lemma_no_mismatch_before(ls, i, j);
            if j > i {
                lemma_layers_error_prefix(ls, i + 1, j);
            }
        }
    }
}

/// Load one engine from several layers, one configuration each. All layers must have the
/// same dimensions, and no two layers may define rules for the same head; the rules of all
/// layers form one shared index, each head's rules stably sorted by descending priority.
pub fn load_layered_config(layers: Vec<LayerSource>) -> (r: Result<LayeredEngine, CellariaError>)
    requires
        forall|i: int|
            0 <= i < layers@.len() && (#[trigger] layers@[i]).1 is Ok ==> layers@[i].1->Ok_0.grid.width
                * layers@[i].1->Ok_0.grid.height <= usize::MAX,
    ensures
        match r {
            Ok(e) => spec_layered_error(layers@) is None && layered_built_from(e, layers@),
            Err(err) => spec_layered_error(layers@) == Some(error_kind(err)),
        },
        forall|i: int|
            #[trigger] dims_mismatch_at(layers@, i) ==> (r matches Err(CellariaError::GridBounds(m)) && m@
                == dims_error_text(
                layers@[i].0@,
                layer_dims(layer_config(layers@, i)).0 as nat,
                layer_dims(layer_config(layers@, i)).1 as nat,
                layers@[0].0@,
                first_dims(layers@).0 as nat,
                first_dims(layers@).1 as nat,
            )),
        layers@.len() > 0 && layers_error(layers@, layers@.len() as int) is None && has_head_collision(layers@) ==> (r matches Err(
            CellariaError::Config(m),
        ) && m@ == collision_text(
            first_collision(layers@, 0) as nat,
            names_with_head(layers@, first_collision(layers@, 0), layers@.len() as int).0,
        )),
{
    if layers.len() == 0 {
        return Err(CellariaError::Config(String::from_str(
            "load_layered_config: at least one layer config path is required",
        )));
    }
    let ghost ls = layers@;
    let n = layers.len();
    let mut rest = layers;
    let mut grids: Vec<Grid> = Vec::new();
    let mut indices: Vec<RuleIndex> = Vec::new();
    let mut names: Vec<String> = Vec::new();
    let mut first_w: usize = 0;
    let mut first_h: usize = 0;
    let ghost mut built: Seq<Seq<Rule>> = Seq::empty();
    let mut i: usize = 0;
    while i < n
        invariant
            ls == layers@,
            forall|q: int|
                0 <= q < ls.len() && (#[trigger] ls[q]).1 is Ok ==> ls[q].1->Ok_0.grid.width * ls[q].1->Ok_0.grid.height
                    <= usize::MAX,
            n == ls.len(),
            n > 0,
            i <= n,
            rest@ == ls.skip(i as int),
            layers_error(ls, i as int) is None,
            i > 0 ==> (first_w, first_h) == first_dims(ls),
            grids@.len() == i,
            indices@.len() == i,
            names@.len() == i,
            built.len() == i,
            forall|j: int| 0 <= j < i ==> (#[trigger] ls[j].1) is Ok,
            forall|j: int| 0 <= j < i ==> spec_config_error(#[trigger] layer_config(ls, j)) is None,
            forall|j: int| 0 <= j < i ==> grid_built_from(#[trigger] grids@[j], layer_config(ls, j).grid),
            forall|j: int| 0 <= j < i ==> rules_built_from(#[trigger] built[j], layer_config(ls, j).rules@),
            forall|j: int| 0 <= j < i ==> index_built_from(#[trigger] indices@[j], built[j]),
            forall|j: int| 0 <= j < i ==> (#[trigger] names@[j])@ == ls[j].0@,
        decreases n - i,
    {
        let (name, source) = rest.remove(0);
        proof {
            assert(ls.skip(i as int)[0] == ls[i as int]);
            assert(ls.skip(i as int).drop_first() =~= ls.skip(i as int + 1));
        }
        let config = match source {
            Ok(c) => c,
            Err(e) => {
                proof {
                    assert(layers_error(ls, i as int + 1) == Some(error_kind(e)));
                    lemma_layers_error_prefix(ls, i as int + 1, n as int);
                    assert(spec_layered_error(layers@) == Some(error_kind(e)));
                    lemma_no_mismatch(ls, i as int);
                }
                return Err(e);
            },
        };
        proof {
            assert(ls[i as int].1 is Ok);
            assert(name@ == ls[i as int].0@);
            assert(config == layer_config(ls, i as int));
        }
        let w = config.grid.width;
        let h = config.grid.height;
        let ghost cfg = config;
        let (grid, index) = match build_config(config) {
            Ok(p) => p,
            Err(e) => {
                proof {
                    assert(layers_error(ls, i as int + 1) == Some(error_kind(e)));
                    lemma_layers_error_prefix(ls, i as int + 1, n as int);
                    assert(spec_layered_error(layers@) == Some(error_kind(e)));
                    lemma_no_mismatch(ls, i as int);
                }
                return Err(e);
            },
        };
        if i == 0 {
            first_w = w;
            first_h = h;
        } else if w != first_w || h != first_h {
            let mut msg = String::from_str("load_layered_config: layer '");
            msg.append(name.as_str());
            msg.append("' is ");
            msg.append(decimal_string(w as u64).as_str());
            msg.append("x");
            msg.append(decimal_string(h as u64).as_str());
            msg.append(", but layer '");
            msg.append(names[0].as_str());
            msg.append("' is ");
            msg.append(decimal_string(first_w as u64).as_str());
            msg.append("x");
            msg.append(decimal_string(first_h as u64).as_str());
            msg.append(" -- LayeredEngine requires all layers to share the same grid dimensions");
            proof {
                assert(layers_error(ls, i as int + 1) == Some(ErrorKind::GridBounds));
                lemma_layers_error_prefix(ls, i as int + 1, n as int);
                assert(names@[0]@ == ls[0].0@);
                assert forall|j: int| #[trigger] dims_mismatch_at(ls, j) implies j == i by {
                    lemma_no_mismatch_before(ls, i as int, j);
                    if j > i {
                        lemma_layers_error_prefix(ls, i as int + 1, j);
                    }
                }
                assert(msg@ == dims_error_text(
                    ls[i as int].0@,
                    w as nat,
                    h as nat,
                    ls[0].0@,
                    first_w as nat,
                    first_h as nat,
                ));
            }
            return Err(CellariaError::GridBounds(msg));
        }
        let ghost b = choose|b: Seq<Rule>| #[trigger] rules_built_from(b, cfg.rules@) && index_built_from(index, b);
        proof {
            assert(layer_config(ls, i as int) == cfg);
            assert(layers_error(ls, i as int + 1) is None);
            built = built.push(b);
        }
        grids.push(grid);
        indices.push(index);
        names.push(name);
        i += 1;
    }
    // Two layers with rules for one head.
    let mut hh: usize = 0;
    while hh < 256
        invariant
            ls == layers@,
            n == ls.len(),
            i == n,
            indices@.len() == n,
            names@.len() == n,
            built.len() == n,
            hh <= 256,
            layers_error(ls, n as int) is None,
            grids@.len() == n,
            forall|j: int| 0 <= j < n ==> grid_built_from(#[trigger] grids@[j], layer_config(ls, j).grid),
            forall|j: int| 0 <= j < n ==> (#[trigger] ls[j].1) is Ok,
            forall|j: int| 0 <= j < n ==> spec_config_error(#[trigger] layer_config(ls, j)) is None,
            forall|j: int| 0 <= j < n ==> rules_built_from(#[trigger] built[j], layer_config(ls, j).rules@),
            forall|j: int| 0 <= j < n ==> index_built_from(#[trigger] indices@[j], built[j]),
            forall|g: int| 0 <= g < hh ==> #[trigger] head_count(ls, n as int, g) < 2,
            forall|j: int| 0 <= j < n ==> (#[trigger] names@[j])@ == ls[j].0@,
        decreases 256 - hh,
    {
        let mut count: usize = 0;
        let mut j: usize = 0;
        while j < n
            invariant
                n == ls.len(),
                indices@.len() == n,
                built.len() == n,
                hh < 256,
                j <= n,
                forall|q: int| 0 <= q < n ==> (#[trigger] ls[q].1) is Ok,
                forall|q: int| 0 <= q < n ==> spec_config_error(#[trigger] layer_config(ls, q)) is None,
                forall|q: int| 0 <= q < n ==> rules_built_from(#[trigger] built[q], layer_config(ls, q).rules@),
                forall|q: int| 0 <= q < n ==> index_built_from(#[trigger] indices@[q], built[q]),
                count as int == head_count(ls, j as int, hh as int),
                count <= j,
            decreases n - j,
        {
            proof {
                lemma_index_has_head(indices@[j as int], built[j as int], layer_config(ls, j as int), hh as int);
            }
            if indices[j].contains_key(&CellType(hh as u8)) {
                count += 1;
            }
            j += 1;
        }
        if count >= 2 {
            let mut joined = String::new();
            let mut first = true;
            let mut q: usize = 0;
            while q < n
                invariant
                    n == ls.len(),
                    indices@.len() == n,
                    names@.len() == n,
                    built.len() == n,
                    hh < 256,
                    q <= n,
                    forall|j: int| 0 <= j < n ==> (#[trigger] ls[j].1) is Ok,
                    forall|j: int| 0 <= j < n ==> spec_config_error(#[trigger] layer_config(ls, j)) is None,
                    forall|j: int| 0 <= j < n ==> rules_built_from(#[trigger] built[j], layer_config(ls, j).rules@),
                    forall|j: int| 0 <= j < n ==> index_built_from(#[trigger] indices@[j], built[j]),
                    forall|j: int| 0 <= j < n ==> (#[trigger] names@[j])@ == ls[j].0@,
                    joined@ == names_with_head(ls, hh as int, q as int).0,
                    first == !names_with_head(ls, hh as int, q as int).1,
                decreases n - q,
            {
                proof {
                    lemma_index_has_head(indices@[q as int], built[q as int], layer_config(ls, q as int), hh as int);
                    assert(names@[q as int]@ == ls[q as int].0@);
                }
                if indices[q].contains_key(&CellType(hh as u8)) {
                    if !first {
                        joined.append(", ");
                    }
                    joined.append(names[q].as_str());
                    first = false;
                }
                q += 1;
            }
            let mut msg = String::from_str("load_layered_config: CellType ");
            msg.append(decimal_string(hh as u64).as_str());
            msg.append(" has rules defined in MORE THAN ONE file (");
            msg.append(joined.as_str());
            msg.append(
                ") -- all layers share one rule_index, so this CellType would fire every one of those files' rules on every layer. Use a different CellType number in each file, or move the shared rule into just one of them",
            );
            proof {
                assert(has_head_collision(ls));
                assert(spec_layered_error(layers@) == Some(ErrorKind::Config));
                lemma_first_collision_at(ls, 0, hh as int);
                assert forall|j: int| !#[trigger] dims_mismatch_at(ls, j) by {
                    if dims_mismatch_at(ls, j) {
                        lemma_mismatch_error(ls, j);
                    }
                }
            }
            return Err(CellariaError::Config(msg));
        }
        hh += 1;
    }
    assert(!has_head_collision(ls));
    assert forall|j: int| !#[trigger] dims_mismatch_at(ls, j) by {
        if dims_mismatch_at(ls, j) {
            lemma_mismatch_error(ls, j);
        }
    }
    // Merge every layer's rules into one index.
    let mut merged = RuleIndex::new();
    let mut srcs = indices;
    let mut li: usize = 0;
    while li < n
        invariant
            ls == layers@,
            n == ls.len(),
            built.len() == n,
            li <= n,
            srcs@.len() == n - li,
            layers_error(ls, n as int) is None,
            !has_head_collision(ls),
            grids@.len() == n,
            forall|j: int| 0 <= j < n ==> grid_built_from(#[trigger] grids@[j], layer_config(ls, j).grid),
            forall|q: int| 0 <= q < n ==> rules_built_from(#[trigger] built[q], layer_config(ls, q).rules@),
            forall|q: int| li <= q < n ==> index_built_from(#[trigger] srcs@[q - li], built[q]),
            forall|g: int| 0 <= g < 256 ==> #[trigger] merged.rules_of(g) == priority_sorted(
                layered_head_rules(built, li as int, g),
            ),
        decreases n - li,
    {
        let ghost old_srcs = srcs@;
        let mut src = srcs.remove(0);
        proof {
            assert(old_srcs[li - li] == src);
            assert(index_built_from(src, built[li as int]));
            assert forall|q: int| li + 1 <= q < n implies index_built_from(#[trigger] srcs@[q - (li + 1)], built[q]) by {
                assert(srcs@[q - (li + 1)] == old_srcs[q - li]);
            }
        }
        let mut g: usize = 0;
        while g < 256
            invariant
                n == ls.len(),
                built.len() == n,
                li < n,
                g <= 256,
                forall|q: int| 0 <= q < 256 && q >= g ==> #[trigger] src.rules_of(q) == priority_sorted(
                    rules_with_head(built[li as int], q),
                ),
                forall|q: int| 0 <= q < g ==> #[trigger] merged.rules_of(q) == priority_sorted(
                    layered_head_rules(built, li as int + 1, q),
                ),
                forall|q: int| 0 <= q < 256 && q >= g ==> #[trigger] merged.rules_of(q) == priority_sorted(
                    layered_head_rules(built, li as int, q),
                ),
            decreases 256 - g,
        {
            let mut v = src.replace_rules(CellType(g as u8), Vec::new());
            let total_v = v.len();
            let ghost vs = v@;
            let ghost base = layered_head_rules(built, li as int, g as int);
            let ghost m0 = merged;
            let mut taken: usize = 0;
            while v.len() > 0
                invariant
                    g < 256,
                    vs.len() == total_v,
                    taken <= vs.len(),
                    v@ == vs.skip(taken as int),
                    merged.rules_of(g as int) == priority_sorted(base + vs.take(taken as int)),
                    forall|q: int| q != g ==> #[trigger] merged.rules_of(q) == m0.rules_of(q),
                decreases v@.len(),
            {
                let rule = v.remove(0);
                let ghost before = merged;
                merged.insert_by_priority(CellType(g as u8), rule);
                proof {
                    assert(rule == vs[taken as int]);
                    let s1 = base + vs.take(taken as int);
                    let s2 = base + vs.take(taken as int + 1);
                    assert(s2.drop_last() =~= s1);
                    assert(s2.last() == rule);
                    assert(vs.skip(taken as int).drop_first() =~= vs.skip(taken as int + 1));
                }
                taken += 1;
            }
            proof {
                assert(vs.take(taken as int) =~= vs);
                assert(layered_head_rules(built, li as int + 1, g as int) == base + priority_sorted(
                    rules_with_head(built[li as int], g as int),
                ));
            }
            g += 1;
        }
        li += 1;
    }
    let e = LayeredEngine { layers: grids, rule_index: merged };
    proof {
        assert(built.len() == ls.len());
        assert(forall|h: int|
            0 <= h < 256 ==> #[trigger] e.spec_rule_index().rules_of(h) == priority_sorted(
                layered_head_rules(built, ls.len() as int, h),
            ));
        assert(layered_built_from(e, ls));
    }
    Ok(e)
}

} // verus!
