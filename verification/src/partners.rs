use vstd::prelude::*;
use crate::apply::{coord_limit, grid_small};
use crate::grid::Grid;
use crate::journal::MatchMap;
use crate::arbitrator::{arbitration_outcome, cells_of, keys_of};
use crate::spatial::arbitrate_spatial_with_cam;
use crate::conflict_analyzer::{
    get_rule_data, index_in_bounds, lemma_data_bounds, rule_data_of, rules_may_conflict, spec_pair_conflict,
    spec_self_edge, RuleDataCache,
};
use crate::conflict_laws::lemma_pair_conflict_symmetric;
use crate::types::{CellType, Rule, RuleIndex, RuleMatch};

verus! {

// ---------------------------------------------------------------------------
// Which heads may conflict, and which matches need arbitration at all
// ---------------------------------------------------------------------------

/// Rule `i` of head `a` and rule `j` of head `b` may conflict (one rule with itself when
/// they are the same).
pub open spec fn rules_edge(index: RuleIndex, a: int, i: int, b: int, j: int) -> bool {
    if a == b && i == j {
        spec_self_edge(index.rules_of(a)[i], None)
    } else {
        spec_pair_conflict(index.rules_of(a)[i], index.rules_of(b)[j], None)
    }
}

/// Heads `a` and `b` are conflict partners: a rule of `a` and a rule of `b` may conflict.
pub open spec fn spec_partners(index: RuleIndex, a: int, b: int) -> bool {
    exists|i: int, j: int|
        0 <= i < index.rules_of(a).len() && 0 <= j < index.rules_of(b).len() && #[trigger] rules_edge(index, a, i, b, j)
}

/// The conflict partners of every pair of heads.
pub struct ConflictPartners {
    pairs: Vec<bool>,
}

impl ConflictPartners {
    /// Heads `a` and `b` are partners.
    pub closed spec fn spec_is(self, a: int, b: int) -> bool {
        self.pairs@[a * 256 + b]
    }

    /// The table covers every pair of heads.
    pub closed spec fn wf(self) -> bool {
        self.pairs@.len() == 0x10000
    }

    /// Whether heads `a` and `b` are partners.
    pub fn are_partners(&self, a: u8, b: u8) -> (r: bool)
        requires
            self.wf(),
        ensures
            r == self.spec_is(a as int, b as int),
    {
        self.pairs[a as usize * 256 + b as usize]
    }

    /// Whether head `a` has a partner.
    pub fn has_partners(&self, a: u8) -> (r: bool)
        requires
            self.wf(),
        ensures
            r == exists|b: int| 0 <= b < 256 && #[trigger] self.spec_is(a as int, b),
    {
        let mut b: usize = 0;
        while b < 256
            invariant
                self.wf(),
                b <= 256,
                forall|c: int| 0 <= c < b ==> !#[trigger] self.spec_is(a as int, c),
            decreases 256 - b,
        {
            if self.pairs[a as usize * 256 + b] {
                assert(self.spec_is(a as int, b as int));
                return true;
            }
            b += 1;
        }
        false
    }
}

/// The largest distance along an axis from the match to a cell of a bounding box.
pub open spec fn bbox_radius(b: (i32, i32, i32, i32)) -> int {
    let m1 = if -b.0 > b.1 {
        -b.0
    } else {
        b.1 as int
    };
    let m2 = if -b.2 > b.3 {
        -b.2
    } else {
        b.3 as int
    };
    if m1 > m2 {
        m1
    } else {
        m2
    }
}

fn heads_conflict(index: &RuleIndex, cache: &RuleDataCache, a: u8, b: u8) -> (r: bool)
    requires
        index_in_bounds(*index),
        cache.caches(*index),
    ensures
        r == spec_partners(*index, a as int, b as int),
{
    let ra = index.rules(a);
    let rb = index.rules(b);
    let mut i: usize = 0;
    while i < ra.len()
        invariant
            index_in_bounds(*index),
            cache.caches(*index),
            ra@ == index.rules_of(a as int),
            rb@ == index.rules_of(b as int),
            i <= ra@.len(),
            forall|i2: int, j2: int|
                0 <= i2 < i && 0 <= j2 < rb@.len() ==> !#[trigger] rules_edge(*index, a as int, i2, b as int, j2),
        decreases ra@.len() - i,
    {
        assert(cache.len_of(a as int) == index.rules_of(a as int).len());
        let di = match get_rule_data(cache, CellType(a), i) {
            Some(d) => d,
            None => {
                assert(false);
                return false;
            },
        };
        let mut j: usize = 0;
        while j < rb.len()
            invariant
                index_in_bounds(*index),
                cache.caches(*index),
                ra@ == index.rules_of(a as int),
                rb@ == index.rules_of(b as int),
                i < ra@.len(),
                *di == cache.entry(a as int, i as int),
                j <= rb@.len(),
                forall|i2: int, j2: int|
                    0 <= i2 < i && 0 <= j2 < rb@.len() ==> !#[trigger] rules_edge(*index, a as int, i2, b as int, j2),
                forall|j2: int| 0 <= j2 < j ==> !#[trigger] rules_edge(*index, a as int, i as int, b as int, j2),
            decreases rb@.len() - j,
        {
            assert(cache.len_of(b as int) == index.rules_of(b as int).len());
            let dj = match get_rule_data(cache, CellType(b), j) {
                Some(d) => d,
                None => {
                    assert(false);
                    return false;
                },
            };
            assert(cache.len_of(a as int) == index.rules_of(a as int).len());
            assert(rule_data_of(cache.entry(a as int, i as int), index.rules_of(a as int)[i as int]));
            assert(rule_data_of(cache.entry(b as int, j as int), index.rules_of(b as int)[j as int]));
            let same = a == b && i == j;
            if rules_may_conflict(&ra[i], &rb[j], di, dj, same) {
                assert(rules_edge(*index, a as int, i as int, b as int, j as int));
                return true;
            }
            j += 1;
        }
        i += 1;
    }
    false
}

/// The largest `bbox_radius` of the cached rules of the heads below `h`, 0 without rules.
pub open spec fn max_radius_below(index: RuleIndex, cache: RuleDataCache, h: int) -> int
    decreases h,
{
    if h <= 0 {
        0
    } else {
        let p = max_radius_below(index, cache, h - 1);
        let q = max_radius_in(cache, h - 1, index.rules_of(h - 1).len() as int);
        if q > p {
            q
        } else {
            p
        }
    }
}

/// The largest `bbox_radius` of the first `n` cached rules of head `h`, 0 without rules.
pub open spec fn max_radius_in(cache: RuleDataCache, h: int, n: int) -> int
    decreases n,
{
    if n <= 0 {
        0
    } else {
        let p = max_radius_in(cache, h, n - 1);
        let q = bbox_radius(cache.entry(h, n - 1).bbox);
        if q > p {
            q
        } else {
            p
        }
    }
}

/// The conflict partners of every pair of heads of `index`, and the largest distance along
/// an axis from a match to a cell any rule reads or writes (0 without rules).
pub fn compute_conflict_partners(index: &RuleIndex, cache: &RuleDataCache) -> (r: (ConflictPartners, i32))
    requires
        index_in_bounds(*index),
        cache.caches(*index),
    ensures
        r.0.wf(),
        forall|a: int, b: int| 0 <= a < 256 && 0 <= b < 256 ==> #[trigger] r.0.spec_is(a, b) == spec_partners(*index, a, b),
        0 <= r.1 <= 0x1001_0000,
        r.1 as int == max_radius_below(*index, *cache, 256),
{
    let mut pairs: Vec<bool> = Vec::new();
    let mut a: usize = 0;
    while a < 256
        invariant
            index_in_bounds(*index),
            cache.caches(*index),
            a <= 256,
            pairs@.len() == a * 256,
            forall|a2: int, b2: int|
                0 <= a2 < a && 0 <= b2 < 256 ==> #[trigger] pairs@[a2 * 256 + b2] == spec_partners(*index, a2, b2),
        decreases 256 - a,
    {
        let mut b: usize = 0;
        while b < 256
            invariant
                index_in_bounds(*index),
                cache.caches(*index),
                a < 256,
                b <= 256,
                pairs@.len() == a * 256 + b,
                forall|a2: int, b2: int|
                    0 <= a2 < a && 0 <= b2 < 256 ==> #[trigger] pairs@[a2 * 256 + b2] == spec_partners(*index, a2, b2),
                forall|b2: int| 0 <= b2 < b ==> #[trigger] pairs@[a * 256 + b2] == spec_partners(*index, a as int, b2),
            decreases 256 - b,
        {
            let ghost before = pairs@;
            pairs.push(heads_conflict(index, cache, a as u8, b as u8));
            proof {
                assert forall|a2: int, b2: int| 0 <= a2 < a && 0 <= b2 < 256 implies #[trigger] pairs@[a2 * 256 + b2]
                    == spec_partners(*index, a2, b2) by {
                    assert(a2 * 256 + b2 < a * 256) by (nonlinear_arith)
                        requires
                            a2 < a,
                            b2 < 256,
                    ;
                    assert(pairs@[a2 * 256 + b2] == before[a2 * 256 + b2]);
                }
            }
            b += 1;
        }
        proof {
            assert forall|a2: int, b2: int| 0 <= a2 < a + 1 && 0 <= b2 < 256 implies #[trigger] pairs@[a2 * 256 + b2]
                == spec_partners(*index, a2, b2) by {
                if a2 == a {
                    assert(pairs@[a * 256 + b2] == spec_partners(*index, a as int, b2));
                }
            }
        }
        a += 1;
    }
    let partners = ConflictPartners { pairs };
    let mut radius: i32 = 0;
    let mut h: usize = 0;
    while h < 256
        invariant
            index_in_bounds(*index),
            cache.caches(*index),
            h <= 256,
            radius as int == max_radius_below(*index, *cache, h as int),
            0 <= radius <= 0x1001_0000,
        decreases 256 - h,
    {
        let n = index.rules(h as u8).len();
        let mut k: usize = 0;
        let mut hr: i32 = 0;
        while k < n
            invariant
                index_in_bounds(*index),
                cache.caches(*index),
                h < 256,
                n == index.rules_of(h as int).len(),
                k <= n,
                hr as int == max_radius_in(*cache, h as int, k as int),
                0 <= hr <= 0x1001_0000,
            decreases n - k,
        {
            assert(cache.len_of(h as int) == index.rules_of(h as int).len());
            let d = get_rule_data(cache, CellType(h as u8), k).unwrap();
            proof {
                assert(rule_data_of(cache.entry(h as int, k as int), index.rules_of(h as int)[k as int]));
                lemma_data_bounds(*d, index.rules_of(h as int)[k as int]);
            }
            let (x0, x1, y0, y1) = d.bbox;
            let m1: i32 = if -x0 > x1 {
                -x0
            } else {
                x1
            };
            let m2: i32 = if -y0 > y1 {
                -y0
            } else {
                y1
            };
            let q: i32 = if m1 > m2 {
                m1
            } else {
                m2
            };
            if q > hr {
                hr = q;
            }
            k += 1;
        }
        if hr > radius {
            radius = hr;
        }
        h += 1;
    }
    (partners, radius)
}

/// Partnership is symmetric.
pub proof fn lemma_partners_symmetric(index: RuleIndex, a: int, b: int)
    ensures
        spec_partners(index, a, b) == spec_partners(index, b, a),
{
    if spec_partners(index, a, b) {
        let (i, j) = choose|i: int, j: int|
            0 <= i < index.rules_of(a).len() && 0 <= j < index.rules_of(b).len() && #[trigger] rules_edge(
                index,
                a,
                i,
                b,
                j,
            );
        lemma_pair_conflict_symmetric(index.rules_of(a)[i], index.rules_of(b)[j], None);
        assert(rules_edge(index, b, j, a, i));
    }
    if spec_partners(index, b, a) {
        let (j, i) = choose|j: int, i: int|
            0 <= j < index.rules_of(b).len() && 0 <= i < index.rules_of(a).len() && #[trigger] rules_edge(
                index,
                b,
                j,
                a,
                i,
            );
        lemma_pair_conflict_symmetric(index.rules_of(b)[j], index.rules_of(a)[i], None);
        assert(rules_edge(index, a, i, b, j));
    }
}

/// Head `h` has a partner.
pub open spec fn has_partner(p: ConflictPartners, h: int) -> bool {
    exists|b: int| 0 <= b < 256 && #[trigger] p.spec_is(h, b)
}

/// The side of the buckets for a largest reach `max_radius`: twice it, at least 1.
pub open spec fn bucket_side(max_radius: i32) -> int {
    if 2 * max_radius >= 1 {
        2 * max_radius
    } else {
        1
    }
}

/// The matches lie in the same or neighbouring buckets along both axes.
pub open spec fn near(a: RuleMatch, b: RuleMatch, side: int) -> bool {
    &&& -1 <= a.x as int / side - b.x as int / side <= 1
    &&& -1 <= a.y as int / side - b.y as int / side <= 1
}

/// Match `i` of `ms` has a partner head and another match of a partner head lies near it.
pub open spec fn needs_arbitration(ms: Seq<RuleMatch>, p: ConflictPartners, side: int, i: int) -> bool {
    &&& has_partner(p, ms[i].head.0 as int)
    &&& exists|j: int|
        0 <= j < ms.len() && j != i && #[trigger] near(ms[i], ms[j], side) && has_partner(p, ms[j].head.0 as int)
            && p.spec_is(ms[i].head.0 as int, ms[j].head.0 as int)
}

/// The matches among the first `n` of `ms` whose position `keep` picks, in order.
pub open spec fn pick(ms: Seq<RuleMatch>, keep: spec_fn(int) -> bool, n: int) -> Seq<RuleMatch>
    decreases n,
{
    if n <= 0 {
        Seq::empty()
    } else {
        pick(ms, keep, n - 1) + if keep(n - 1) {
            seq![ms[n - 1]]
        } else {
            Seq::empty()
        }
    }
}

fn near_exec(a: RuleMatch, b: RuleMatch, side: u32) -> (r: bool)
    requires
        side >= 1,
    ensures
        r == near(a, b, side as int),
{
    let ax = a.x / side;
    let bx = b.x / side;
    let ay = a.y / side;
    let by = b.y / side;
    let xs = if ax >= bx {
        ax - bx <= 1
    } else {
        bx - ax <= 1
    };
    let ys = if ay >= by {
        ay - by <= 1
    } else {
        by - ay <= 1
    };
    xs && ys
}

fn match_needs(ms: &Vec<RuleMatch>, p: &ConflictPartners, side: u32, i: usize) -> (r: bool)
    requires
        p.wf(),
        side >= 1,
        i < ms@.len(),
        has_partner(*p, ms@[i as int].head.0 as int),
    ensures
        r == needs_arbitration(ms@, *p, side as int, i as int),
{
    let mut j: usize = 0;
    while j < ms.len()
        invariant
            p.wf(),
            side >= 1,
            i < ms@.len(),
            j <= ms@.len(),
            forall|j2: int|
                0 <= j2 < j && j2 != i ==> !(#[trigger] near(ms@[i as int], ms@[j2], side as int) && has_partner(
                    *p,
                    ms@[j2].head.0 as int,
                ) && p.spec_is(ms@[i as int].head.0 as int, ms@[j2].head.0 as int)),
        decreases ms@.len() - j,
    {
        if j != i && near_exec(ms[i], ms[j], side) && p.has_partners(ms[j].head.0) && p.are_partners(
            ms[i].head.0,
            ms[j].head.0,
        ) {
            assert(near(ms@[i as int], ms@[j as int], side as int));
            return true;
        }
        j += 1;
    }
    false
}

/// Split matches into those that need no arbitration and those that do: a match needs it
/// when its head has conflict partners and a match of a partner head lies in the same or a
/// neighbouring bucket (buckets of side `2 * max_radius`, at least 1). The first part holds
/// the matches whose head has no partner, then the others that need no arbitration; each
/// part keeps the order of `matches`.
pub fn spatial_bypass_split(matches: Vec<RuleMatch>, p: &ConflictPartners, max_radius: i32) -> (r: (
    Vec<RuleMatch>,
    Vec<RuleMatch>,
))
    requires
        p.wf(),
        -0x4000_0000 < max_radius < 0x4000_0000,
        forall|i: int|
            0 <= i < matches@.len() ==> (#[trigger] matches@[i]).x <= coord_limit() && matches@[i].y <= coord_limit(),
    ensures
        r.0@ == pick(matches@, |k: int| !has_partner(*p, matches@[k].head.0 as int), matches@.len() as int) + pick(
            matches@,
            |k: int| has_partner(*p, matches@[k].head.0 as int) && !needs_arbitration(
                matches@,
                *p,
                bucket_side(max_radius),
                k,
            ),
            matches@.len() as int,
        ),
        r.1@ == pick(
            matches@,
            |k: int| needs_arbitration(matches@, *p, bucket_side(max_radius), k),
            matches@.len() as int,
        ),
{
    let side: u32 = if 2 * max_radius >= 1 {
        (2 * max_radius) as u32
    } else {
        1
    };
    let ghost sd = bucket_side(max_radius);
    let ghost ms = matches@;
    let n = matches.len();
    let mut plain: Vec<RuleMatch> = Vec::new();
    let mut quiet: Vec<RuleMatch> = Vec::new();
    let mut contested: Vec<RuleMatch> = Vec::new();
    let mut i: usize = 0;
    while i < n
        invariant
            p.wf(),
            side >= 1,
            side as int == sd,
            sd == bucket_side(max_radius),
            ms == matches@,
            n == ms.len(),
            i <= n,
            plain@ == pick(ms, |k: int| !has_partner(*p, ms[k].head.0 as int), i as int),
            quiet@ == pick(
                ms,
                |k: int| has_partner(*p, ms[k].head.0 as int) && !needs_arbitration(ms, *p, sd, k),
                i as int,
            ),
            contested@ == pick(ms, |k: int| needs_arbitration(ms, *p, sd, k), i as int),
        decreases n - i,
    {
        let m = matches[i];
        let with_partner = p.has_partners(m.head.0);
        if !with_partner {
            plain.push(m);
        } else if match_needs(&matches, p, side, i) {
            contested.push(m);
        } else {
            quiet.push(m);
        }
        i += 1;
    }
    let mut safe = plain;
    let ghost plain_v = safe@;
    let mut k: usize = 0;
    while k < quiet.len()
        invariant
            k <= quiet@.len(),
            safe@ == plain_v + quiet@.take(k as int),
        decreases quiet@.len() - k,
    {
        safe.push(quiet[k]);
        k += 1;
        assert(quiet@.take(k as int) =~= quiet@.take(k - 1).push(quiet@[k - 1]));
    }
    assert(quiet@.take(k as int) =~= quiet@);
    (safe, contested)
}

/// The structural conflict facts a tick can use to skip arbitration: the partners of each
/// head and the largest reach of a rule.
pub struct ConflictContext {
    pub partners: ConflictPartners,
    pub max_radius: i32,
}

/// `acc` and `dec` are the outcome of arbitrating `ms` with context `ctx`: the matches that
/// need no arbitration (see `spatial_bypass_split`) are accepted as they are, none of them
/// decided below priority and age; the others go through one greedy pass of arbitration
/// (`arbitrate_spatial_with_cam`), and its winners follow.
pub open spec fn context_outcome(
    acc: Seq<RuleMatch>,
    dec: Seq<bool>,
    ms: Seq<RuleMatch>,
    ctx: ConflictContext,
    g: Grid,
    index: RuleIndex,
    cache: RuleDataCache,
    cams: Map<(u32, u32, usize), (u32, u32)>,
    fb: Map<(u32, u32, usize), u64>,
    gen: u32,
    starv: Map<(u32, u32, usize), u32>,
) -> bool {
    let side = bucket_side(ctx.max_radius);
    let p = ctx.partners;
    let safe = pick(ms, |k: int| !has_partner(p, ms[k].head.0 as int), ms.len() as int) + pick(
        ms,
        |k: int| has_partner(p, ms[k].head.0 as int) && !needs_arbitration(ms, p, side, k),
        ms.len() as int,
    );
    let contested = pick(ms, |k: int| needs_arbitration(ms, p, side, k), ms.len() as int);
    if contested.len() == 0 {
        acc == safe && dec == Seq::new(safe.len(), |i: int| false)
    } else {
        exists|uacc: Seq<RuleMatch>, udec: Seq<bool>|
            #[trigger] arbitration_outcome(
                uacc,
                udec,
                contested,
                keys_of(g, index, starv, gen, contested),
                cells_of(index, cache, cams, fb, g.spec_width() as int, g.spec_height() as int, contested),
                Seq::empty(),
            ) && acc == safe + uacc && dec == Seq::new(safe.len(), |i: int| false) + udec
    }
}

proof fn lemma_pick_subset(ms: Seq<RuleMatch>, keep: spec_fn(int) -> bool, n: int)
    requires
        n <= ms.len(),
    ensures
        forall|i: int| 0 <= i < pick(ms, keep, n).len() ==> ms.contains(#[trigger] pick(ms, keep, n)[i]),
    decreases n,
{
    if n > 0 {
        lemma_pick_subset(ms, keep, n - 1);
        let p = pick(ms, keep, n - 1);
        assert forall|i: int| 0 <= i < pick(ms, keep, n).len() implies ms.contains(#[trigger] pick(ms, keep, n)[i]) by {
            if i < p.len() {
                assert(pick(ms, keep, n)[i] == p[i]);
            } else {
                assert(pick(ms, keep, n)[i] == ms[n - 1]);
            }
        }
    }
}

/// Arbitration of a tick's matches with a conflict context: the matches that need no
/// arbitration are accepted as they are; the others go through one greedy pass of
/// arbitration.
pub fn arbitrate_with_context(
    all_matches: Vec<RuleMatch>,
    index: &RuleIndex,
    cache: &RuleDataCache,
    grid: &Grid,
    ctx: &ConflictContext,
    cams: &MatchMap<(u32, u32)>,
    fb: &MatchMap<u64>,
    gen: u32,
    starv: &MatchMap<u32>,
) -> (r: (Vec<RuleMatch>, Vec<bool>))
    requires
        grid_small(*grid),
        index_in_bounds(*index),
        cache.caches(*index),
        ctx.partners.wf(),
        -0x4000_0000 < ctx.max_radius < 0x4000_0000,
        forall|i: int|
            0 <= i < all_matches@.len() ==> (#[trigger] all_matches@[i]).x <= coord_limit() && all_matches@[i].y
                <= coord_limit(),
        forall|k: (u32, u32, usize)| #[trigger] cams@.contains_key(k) ==> cams@[k].0 <= coord_limit() && cams@[k].1 <= coord_limit(),
    ensures
        context_outcome(r.0@, r.1@, all_matches@, *ctx, *grid, *index, *cache, cams@, fb@, gen, starv@),
{
    let ghost ms = all_matches@;
    let ghost side = bucket_side(ctx.max_radius);
    let ghost p = ctx.partners;
    let (safe, contested) = spatial_bypass_split(all_matches, &ctx.partners, ctx.max_radius);
    let mut dec: Vec<bool> = Vec::new();
    let mut k: usize = 0;
    while k < safe.len()
        invariant
            k <= safe@.len(),
            dec@ == Seq::new(k as nat, |i: int| false),
        decreases safe@.len() - k,
    {
        dec.push(false);
        k += 1;
        assert(dec@ =~= Seq::new(k as nat, |i: int| false));
    }
    if contested.len() == 0 {
        assert(context_outcome(safe@, dec@, ms, *ctx, *grid, *index, *cache, cams@, fb@, gen, starv@));
        let ghost a0 = safe@;
        let ghost d0 = dec@;
        let result = (safe, dec);
        assert(result.0@ == a0 && result.1@ == d0);
        return result;
    }
    proof {
        lemma_pick_subset(ms, |k: int| needs_arbitration(ms, p, side, k), ms.len() as int);
        assert forall|i: int| 0 <= i < contested@.len() implies (#[trigger] contested@[i]).x <= coord_limit()
            && contested@[i].y <= coord_limit() by {
            assert(ms.contains(contested@[i]));
        }
    }
    let ghost cv = contested@;
    let (uacc, udec) = arbitrate_spatial_with_cam(contested, index, cache, grid, ctx.max_radius, cams, fb, gen, starv);
    let ghost sv = safe@;
    let ghost dv = dec@;
    let ghost ua = uacc@;
    let ghost ud = udec@;
    let mut acc = safe;
    let mut t: usize = 0;
    while t < uacc.len()
        invariant
            t <= uacc@.len(),
            acc@ == sv + uacc@.take(t as int),
            dec@ == dv + udec@.take(t as int),
            uacc@.len() == udec@.len(),
        decreases uacc@.len() - t,
    {
        acc.push(uacc[t]);
        dec.push(udec[t]);
        t += 1;
        assert(uacc@.take(t as int) =~= uacc@.take(t - 1).push(uacc@[t - 1]));
        assert(udec@.take(t as int) =~= udec@.take(t - 1).push(udec@[t - 1]));
    }
    proof {
        assert(uacc@.take(t as int) =~= uacc@);
        assert(udec@.take(t as int) =~= udec@);
        assert(context_outcome(acc@, dec@, ms, *ctx, *grid, *index, *cache, cams@, fb@, gen, starv@));
    }
    let ghost a1 = acc@;
    let ghost d1 = dec@;
    let result = (acc, dec);
    assert(result.0@ == a1 && result.1@ == d1);
    result
}

} // verus!
