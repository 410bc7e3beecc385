use vstd::prelude::*;
use crate::apply::{coord_limit, grid_small};
use crate::arbitrator::{
    arbitrate_with_cam, arbitration_outcome, cells_of, get_match_affected_cells, int_cells, keys_of, match_cells, overlap,
};
use crate::conflict_analyzer::{index_in_bounds, RuleDataCache};
use crate::grid::Grid;
use crate::journal::MatchMap;
use crate::types::{RuleIndex, RuleMatch};

verus! {

// ---------------------------------------------------------------------------
// Cutting the x range of the matches into bands
// ---------------------------------------------------------------------------

/// Below this many matches arbitration runs in one pass.
pub const SPATIAL_THRESHOLD: usize = 4096;

/// Smallest x of the matches (`u32::MAX` for none).
pub open spec fn min_x_of(ms: Seq<RuleMatch>) -> u32
    decreases ms.len(),
{
    if ms.len() == 0 {
        u32::MAX
    } else {
        let p = min_x_of(ms.drop_last());
        if ms.last().x < p {
            ms.last().x
        } else {
            p
        }
    }
}

/// Largest x of the matches (0 for none).
pub open spec fn max_x_of(ms: Seq<RuleMatch>) -> u32
    decreases ms.len(),
{
    if ms.len() == 0 {
        0
    } else {
        let p = max_x_of(ms.drop_last());
        if ms.last().x > p {
            ms.last().x
        } else {
            p
        }
    }
}

proof fn lemma_x_range(ms: Seq<RuleMatch>)
    ensures
        forall|i: int| 0 <= i < ms.len() ==> min_x_of(ms) <= (#[trigger] ms[i]).x <= max_x_of(ms),
        ms.len() > 0 ==> min_x_of(ms) <= max_x_of(ms),
        ms.len() > 0 ==> exists|i: int| 0 <= i < ms.len() && ms[i].x == max_x_of(ms),
    decreases ms.len(),
{
    if ms.len() > 0 {
        lemma_x_range(ms.drop_last());
        assert forall|i: int| 0 <= i < ms.len() implies min_x_of(ms) <= (#[trigger] ms[i]).x <= max_x_of(ms) by {
            if i < ms.len() - 1 {
                assert(ms[i] == ms.drop_last()[i]);
            }
        }
        if ms.len() > 1 && ms.last().x <= max_x_of(ms.drop_last()) {
            let i = choose|i: int| 0 <= i < ms.drop_last().len() && ms.drop_last()[i].x == max_x_of(ms.drop_last());
            assert(ms[i] == ms.drop_last()[i]);
        }
        assert(ms[ms.len() - 1] == ms.last());
    }
}

/// How the x range of the matches is cut into bands, and the margins that classify a match.
pub struct BandLayout {
    pub min_x: u32,
    pub max_x: u32,
    pub margin: u32,
    pub safe_margin: u32,
    pub num_bands: usize,
    pub band_width: u32,
}

/// The layout for `ms`: margin `2 * reach`; as many bands as `threads`, but no band narrower
/// than twice the margin, and at least one; the bands share the x range equally, the last
/// one taking the remainder.
pub open spec fn band_layout(ms: Seq<RuleMatch>, reach: i32, threads: usize) -> BandLayout {
    let min_x = min_x_of(ms);
    let max_x = max_x_of(ms);
    let margin = (2 * reach) as u32;
    let spread: int = if max_x >= min_x {
        max_x - min_x
    } else {
        0
    };
    let max_bands: int = if margin == 0 {
        usize::MAX as int
    } else if spread / (margin * 2) >= 1 {
        spread / (margin * 2)
    } else {
        1
    };
    let nb0: int = if threads < max_bands {
        threads as int
    } else {
        max_bands
    };
    let nb: int = if nb0 >= 1 {
        nb0
    } else {
        1
    };
    let bw: int = if spread / nb >= 1 {
        spread / nb
    } else {
        1
    };
    BandLayout {
        min_x,
        max_x,
        margin,
        safe_margin: (margin + reach) as u32,
        num_bands: nb as usize,
        band_width: bw as u32,
    }
}

/// Arbitration is split into bands: enough matches, a positive reach and at least two bands.
pub open spec fn spatial_splits(ms: Seq<RuleMatch>, reach: i32, threads: usize) -> bool {
    ms.len() >= SPATIAL_THRESHOLD && reach > 0 && band_layout(ms, reach, threads).num_bands >= 2
}

/// The band of x.
pub open spec fn band_of(l: BandLayout, x: u32) -> int {
    let q = (x - l.min_x) / (l.band_width as int);
    if q < l.num_bands - 1 {
        q
    } else {
        l.num_bands - 1
    }
}

/// First x of band `b`.
pub open spec fn band_start(l: BandLayout, b: int) -> int {
    l.min_x + b * l.band_width
}

/// One past the last x of band `b`; the last band ends after the largest x.
pub open spec fn band_end(l: BandLayout, b: int) -> int {
    if b == l.num_bands - 1 {
        l.max_x + 1
    } else {
        l.min_x + (b + 1) * l.band_width
    }
}

/// Distance of x from the start of its band.
pub open spec fn dist_left(l: BandLayout, x: u32) -> int {
    x - band_start(l, band_of(l, x))
}

/// Distance of x from the last x of its band (0 past it).
pub open spec fn dist_right(l: BandLayout, x: u32) -> int {
    let e = band_end(l, band_of(l, x)) - 1;
    if e >= x {
        e - x
    } else {
        0
    }
}

/// A match at x is inside its band by at least the margin on both sides: its writes cannot
/// reach another band's core.
pub open spec fn is_core(l: BandLayout, x: u32) -> bool {
    dist_left(l, x) >= l.margin && dist_right(l, x) >= l.margin
}

/// A core match near enough to its band's edge that a match outside the core could reach it.
pub open spec fn is_at_risk(l: BandLayout, x: u32) -> bool {
    is_core(l, x) && (dist_left(l, x) < l.safe_margin || dist_right(l, x) < l.safe_margin)
}

/// A match deep enough inside its band that no match outside the core can reach it.
pub open spec fn is_safe(l: BandLayout, x: u32) -> bool {
    dist_left(l, x) >= l.safe_margin && dist_right(l, x) >= l.safe_margin
}

/// The core matches of band `b`, in order.
pub open spec fn band_core(l: BandLayout, ms: Seq<RuleMatch>, b: int) -> Seq<RuleMatch>
    decreases ms.len(),
{
    if ms.len() == 0 {
        Seq::empty()
    } else {
        let p = band_core(l, ms.drop_last(), b);
        if band_of(l, ms.last().x) == b && is_core(l, ms.last().x) {
            p.push(ms.last())
        } else {
            p
        }
    }
}

/// The at-risk matches of band `b`, in order.
pub open spec fn band_at_risk(l: BandLayout, ms: Seq<RuleMatch>, b: int) -> Seq<RuleMatch>
    decreases ms.len(),
{
    if ms.len() == 0 {
        Seq::empty()
    } else {
        let p = band_at_risk(l, ms.drop_last(), b);
        if band_of(l, ms.last().x) == b && is_at_risk(l, ms.last().x) {
            p.push(ms.last())
        } else {
            p
        }
    }
}

/// The matches outside every core, in order.
pub open spec fn boundary_matches(l: BandLayout, ms: Seq<RuleMatch>) -> Seq<RuleMatch>
    decreases ms.len(),
{
    if ms.len() == 0 {
        Seq::empty()
    } else {
        let p = boundary_matches(l, ms.drop_last());
        if !is_core(l, ms.last().x) {
            p.push(ms.last())
        } else {
            p
        }
    }
}

/// The at-risk matches of the first `n` bands, band by band.
pub open spec fn at_risk_upto(l: BandLayout, ms: Seq<RuleMatch>, n: int) -> Seq<RuleMatch>
    decreases n,
{
    if n <= 0 {
        Seq::empty()
    } else {
        at_risk_upto(l, ms, n - 1) + band_at_risk(l, ms, n - 1)
    }
}

/// The matches arbitrated together at the end: those outside every core, then every band's
/// at-risk matches (accepted in their band or not).
pub open spec fn merge_candidates(l: BandLayout, ms: Seq<RuleMatch>) -> Seq<RuleMatch> {
    boundary_matches(l, ms) + at_risk_upto(l, ms, l.num_bands as int)
}

/// The safe matches of one band's result, with their flags.
pub open spec fn safe_part(l: BandLayout, acc: Seq<RuleMatch>, dec: Seq<bool>) -> (Seq<RuleMatch>, Seq<bool>)
    decreases acc.len(),
{
    if acc.len() == 0 {
        (Seq::empty(), Seq::empty())
    } else {
        let p = safe_part(l, acc.drop_last(), dec.take(acc.len() - 1));
        if is_safe(l, acc.last().x) {
            (p.0.push(acc.last()), p.1.push(dec[acc.len() - 1]))
        } else {
            p
        }
    }
}

/// The safe matches of the results of the first `n` bands, band by band.
pub open spec fn safe_upto(l: BandLayout, accs: Seq<Seq<RuleMatch>>, decs: Seq<Seq<bool>>, n: int) -> (
    Seq<RuleMatch>,
    Seq<bool>,
)
    decreases n,
{
    if n <= 0 {
        (Seq::empty(), Seq::empty())
    } else {
        let p = safe_upto(l, accs, decs, n - 1);
        let s = safe_part(l, accs[n - 1], decs[n - 1]);
        (p.0 + s.0, p.1 + s.1)
    }
}

/// Every cell the matches write, match by match.
pub open spec fn cells_concat(
    index: RuleIndex,
    cache: RuleDataCache,
    cams: Map<(u32, u32, usize), (u32, u32)>,
    fb: Map<(u32, u32, usize), u64>,
    w: int,
    h: int,
    ms: Seq<RuleMatch>,
) -> Seq<(int, int)>
    decreases ms.len(),
{
    if ms.len() == 0 {
        Seq::empty()
    } else {
        cells_concat(index, cache, cams, fb, w, h, ms.drop_last()) + match_cells(index, cache, cams, fb, w, h, ms.last())
    }
}

// ---------------------------------------------------------------------------
// Computing the bands
// ---------------------------------------------------------------------------

/// The layout used when arbitration is split: at least two bands, none empty, all inside
/// the x range of the matches, within the coordinate limit.
pub open spec fn layout_ok(l: BandLayout) -> bool {
    &&& l.num_bands >= 2
    &&& l.band_width >= 1
    &&& l.min_x <= l.max_x <= coord_limit()
    &&& (l.num_bands as int) * (l.band_width as int) <= l.max_x - l.min_x
    &&& l.margin < 0x8000_0000
    &&& l.safe_margin < 0xC000_0000
}

proof fn lemma_band_bounds(l: BandLayout, x: u32)
    requires
        layout_ok(l),
        l.min_x <= x <= l.max_x,
    ensures
        0 <= band_of(l, x) < l.num_bands,
        band_of(l, x) * l.band_width <= x - l.min_x,
        band_of(l, x) < l.num_bands - 1 ==> (band_of(l, x) + 1) * l.band_width <= l.max_x - l.min_x,
        band_start(l, band_of(l, x)) <= x,
        band_end(l, band_of(l, x)) <= l.max_x + 1,
        l.num_bands <= coord_limit(),
{
    let q = (x - l.min_x) / (l.band_width as int);
    let bw = l.band_width as int;
    let nb = l.num_bands as int;
    assert(q * bw <= x - l.min_x) by (nonlinear_arith)
        requires
            q == (x - l.min_x) / bw,
            bw >= 1,
            x - l.min_x >= 0,
    ;
    assert(q >= 0) by (nonlinear_arith)
        requires
            q == (x - l.min_x) / bw,
            bw >= 1,
            x - l.min_x >= 0,
    ;
    assert(nb <= nb * bw) by (nonlinear_arith)
        requires
            nb >= 0,
            bw >= 1,
    ;
    let b = band_of(l, x);
    assert(b * bw <= q * bw) by (nonlinear_arith)
        requires
            0 <= b <= q,
            bw >= 1,
    ;
    if b < nb - 1 {
        assert((b + 1) * bw <= nb * bw) by (nonlinear_arith)
            requires
                b + 1 <= nb,
                bw >= 1,
        ;
    }
}

/// Smallest and largest x of the matches.
fn x_range(ms: &Vec<RuleMatch>) -> (r: (u32, u32))
    ensures
        r.0 == min_x_of(ms@),
        r.1 == max_x_of(ms@),
{
    let mut lo: u32 = u32::MAX;
    let mut hi: u32 = 0;
    let mut k: usize = 0;
    while k < ms.len()
        invariant
            k <= ms@.len(),
            lo == min_x_of(ms@.take(k as int)),
            hi == max_x_of(ms@.take(k as int)),
        decreases ms@.len() - k,
    {
        let x = ms[k].x;
        proof {
            assert(ms@.take(k as int + 1).drop_last() =~= ms@.take(k as int));
            assert(ms@.take(k as int + 1).last() == ms@[k as int]);
        }
        if x < lo {
            lo = x;
        }
        if x > hi {
            hi = x;
        }
        k += 1;
    }
    assert(ms@.take(k as int) =~= ms@);
    (lo, hi)
}

/// Band, distance from the band's start and distance from its last x.
fn place(l: &BandLayout, x: u32) -> (r: (usize, u32, u32))
    requires
        layout_ok(*l),
        l.min_x <= x <= l.max_x,
    ensures
        r.0 as int == band_of(*l, x),
        r.1 as int == dist_left(*l, x),
        r.2 as int == dist_right(*l, x),
{
    proof {
        lemma_band_bounds(*l, x);
    }
    let q = (x - l.min_x) / l.band_width;
    let b: usize = if (q as usize) < l.num_bands - 1 {
        q as usize
    } else {
        l.num_bands - 1
    };
    assert(q as int == (x - l.min_x) / (l.band_width as int));
    assert(b as int == band_of(*l, x));
    let start = l.min_x + (b as u32) * l.band_width;
    assert(start as int == band_start(*l, b as int));
    let end = if b == l.num_bands - 1 {
        l.max_x + 1
    } else {
        l.min_x + (b as u32 + 1) * l.band_width
    };
    assert(end as int == band_end(*l, b as int));
    assert(end >= 1) by (nonlinear_arith)
        requires
            end as int == band_end(*l, b as int),
            l.band_width >= 1,
            b + 1 >= 1,
    ;
    let dl = x - start;
    let dr = if end - 1 >= x {
        end - 1 - x
    } else {
        0
    };
    (b, dl, dr)
}

/// The core and at-risk matches of band `b`.
fn classify_band(l: &BandLayout, ms: &Vec<RuleMatch>, b: usize) -> (r: (Vec<RuleMatch>, Vec<RuleMatch>))
    requires
        layout_ok(*l),
        forall|i: int| 0 <= i < ms@.len() ==> l.min_x <= (#[trigger] ms@[i]).x <= l.max_x,
    ensures
        r.0@ == band_core(*l, ms@, b as int),
        r.1@ == band_at_risk(*l, ms@, b as int),
{
    let mut core: Vec<RuleMatch> = Vec::new();
    let mut risk: Vec<RuleMatch> = Vec::new();
    let mut k: usize = 0;
    while k < ms.len()
        invariant
            k <= ms@.len(),
            layout_ok(*l),
            forall|i: int| 0 <= i < ms@.len() ==> l.min_x <= (#[trigger] ms@[i]).x <= l.max_x,
            core@ == band_core(*l, ms@.take(k as int), b as int),
            risk@ == band_at_risk(*l, ms@.take(k as int), b as int),
        decreases ms@.len() - k,
    {
        let m = ms[k];
        proof {
            assert(ms@.take(k as int + 1).drop_last() =~= ms@.take(k as int));
            assert(ms@.take(k as int + 1).last() == ms@[k as int]);
        }
        let (mb, dl, dr) = place(l, m.x);
        if mb == b && dl >= l.margin && dr >= l.margin {
            if dl < l.safe_margin || dr < l.safe_margin {
                risk.push(m);
            }
            core.push(m);
        }
        k += 1;
    }
    assert(ms@.take(k as int) =~= ms@);
    (core, risk)
}

/// The matches outside every core.
fn collect_boundary(l: &BandLayout, ms: &Vec<RuleMatch>) -> (r: Vec<RuleMatch>)
    requires
        layout_ok(*l),
        forall|i: int| 0 <= i < ms@.len() ==> l.min_x <= (#[trigger] ms@[i]).x <= l.max_x,
    ensures
        r@ == boundary_matches(*l, ms@),
{
    let mut out: Vec<RuleMatch> = Vec::new();
    let mut k: usize = 0;
    while k < ms.len()
        invariant
            k <= ms@.len(),
            layout_ok(*l),
            forall|i: int| 0 <= i < ms@.len() ==> l.min_x <= (#[trigger] ms@[i]).x <= l.max_x,
            out@ == boundary_matches(*l, ms@.take(k as int)),
        decreases ms@.len() - k,
    {
        let m = ms[k];
        proof {
            assert(ms@.take(k as int + 1).drop_last() =~= ms@.take(k as int));
            assert(ms@.take(k as int + 1).last() == ms@[k as int]);
        }
        let (_, dl, dr) = place(l, m.x);
        if !(dl >= l.margin && dr >= l.margin) {
            out.push(m);
        }
        k += 1;
    }
    assert(ms@.take(k as int) =~= ms@);
    out
}

/// The safe matches of one band's result, with their flags.
fn filter_safe(l: &BandLayout, acc: &Vec<RuleMatch>, dec: &Vec<bool>) -> (r: (Vec<RuleMatch>, Vec<bool>))
    requires
        layout_ok(*l),
        dec@.len() == acc@.len(),
        forall|i: int| 0 <= i < acc@.len() ==> l.min_x <= (#[trigger] acc@[i]).x <= l.max_x,
    ensures
        r.0@ == safe_part(*l, acc@, dec@).0,
        r.1@ == safe_part(*l, acc@, dec@).1,
{
    let mut out: Vec<RuleMatch> = Vec::new();
    let mut flags: Vec<bool> = Vec::new();
    let mut k: usize = 0;
    while k < acc.len()
        invariant
            k <= acc@.len(),
            dec@.len() == acc@.len(),
            layout_ok(*l),
            forall|i: int| 0 <= i < acc@.len() ==> l.min_x <= (#[trigger] acc@[i]).x <= l.max_x,
            out@ == safe_part(*l, acc@.take(k as int), dec@.take(k as int)).0,
            flags@ == safe_part(*l, acc@.take(k as int), dec@.take(k as int)).1,
        decreases acc@.len() - k,
    {
        let m = acc[k];
        proof {
            let a1 = acc@.take(k as int + 1);
            assert(a1.drop_last() =~= acc@.take(k as int));
            assert(a1.last() == acc@[k as int]);
            assert(dec@.take(k as int + 1).take(k as int) =~= dec@.take(k as int));
            assert(dec@.take(k as int + 1)[k as int] == dec@[k as int]);
        }
        let (_, dl, dr) = place(l, m.x);
        if dl >= l.safe_margin && dr >= l.safe_margin {
            out.push(m);
            flags.push(dec[k]);
        }
        k += 1;
    }
    assert(acc@.take(k as int) =~= acc@);
    assert(dec@.take(k as int) =~= dec@);
    (out, flags)
}

// ---------------------------------------------------------------------------
// What the lists hold
// ---------------------------------------------------------------------------

proof fn lemma_lists_subset(l: BandLayout, ms: Seq<RuleMatch>, b: int)
    ensures
        forall|i: int| 0 <= i < band_core(l, ms, b).len() ==> ms.contains(#[trigger] band_core(l, ms, b)[i]),
        forall|i: int| 0 <= i < band_at_risk(l, ms, b).len() ==> ms.contains(#[trigger] band_at_risk(l, ms, b)[i]),
        forall|i: int| 0 <= i < boundary_matches(l, ms).len() ==> ms.contains(#[trigger] boundary_matches(l, ms)[i]),
    decreases ms.len(),
{
    if ms.len() > 0 {
        let p = ms.drop_last();
        lemma_lists_subset(l, p, b);
        let c = band_core(l, ms, b);
        let r = band_at_risk(l, ms, b);
        let o = boundary_matches(l, ms);
        assert forall|i: int| 0 <= i < c.len() implies ms.contains(#[trigger] c[i]) by {
            if i < band_core(l, p, b).len() {
                assert(c[i] == band_core(l, p, b)[i]);
                let j = choose|j: int| 0 <= j < p.len() && p[j] == c[i];
                assert(ms[j] == c[i]);
            } else {
                assert(ms[ms.len() - 1] == c[i]);
            }
        }
        assert forall|i: int| 0 <= i < r.len() implies ms.contains(#[trigger] r[i]) by {
            if i < band_at_risk(l, p, b).len() {
                assert(r[i] == band_at_risk(l, p, b)[i]);
                let j = choose|j: int| 0 <= j < p.len() && p[j] == r[i];
                assert(ms[j] == r[i]);
            } else {
                assert(ms[ms.len() - 1] == r[i]);
            }
        }
        assert forall|i: int| 0 <= i < o.len() implies ms.contains(#[trigger] o[i]) by {
            if i < boundary_matches(l, p).len() {
                assert(o[i] == boundary_matches(l, p)[i]);
                let j = choose|j: int| 0 <= j < p.len() && p[j] == o[i];
                assert(ms[j] == o[i]);
            } else {
                assert(ms[ms.len() - 1] == o[i]);
            }
        }
    }
}

proof fn lemma_at_risk_upto_subset(l: BandLayout, ms: Seq<RuleMatch>, n: int)
    ensures
        forall|i: int| 0 <= i < at_risk_upto(l, ms, n).len() ==> ms.contains(#[trigger] at_risk_upto(l, ms, n)[i]),
    decreases n,
{
    if n > 0 {
        lemma_at_risk_upto_subset(l, ms, n - 1);
        lemma_lists_subset(l, ms, n - 1);
        let p = at_risk_upto(l, ms, n - 1);
        let q = band_at_risk(l, ms, n - 1);
        assert forall|i: int| 0 <= i < at_risk_upto(l, ms, n).len() implies ms.contains(#[trigger] at_risk_upto(l, ms, n)[i]) by {
            if i < p.len() {
                assert(at_risk_upto(l, ms, n)[i] == p[i]);
            } else {
                assert(at_risk_upto(l, ms, n)[i] == q[i - p.len()]);
            }
        }
    }
}

proof fn lemma_outcome_subset(
    r: Seq<RuleMatch>,
    d: Seq<bool>,
    ms: Seq<RuleMatch>,
    keys: Seq<crate::arbitrator::MatchKey>,
    cells: Seq<Seq<(int, int)>>,
    res: Seq<(int, int)>,
)
    requires
        arbitration_outcome(r, d, ms, keys, cells, res),
        keys.len() == ms.len(),
    ensures
        forall|a: int| 0 <= a < r.len() ==> ms.contains(#[trigger] r[a]),
        d.len() == r.len(),
{
    let sel = choose|sel: Seq<int>|
        #[trigger] crate::arbitrator::greedy_reserving(keys, cells, sel, res) && r == sel.map_values(|k: int| ms[k])
            && d.len() == sel.len() && forall|a: int|
            0 <= a < sel.len() ==> d[a] == crate::arbitrator::tie_decided(keys, cells, sel, a);
    assert forall|a: int| 0 <= a < r.len() implies ms.contains(#[trigger] r[a]) by {
        assert(r[a] == ms[sel[a]]);
    }
}

proof fn lemma_safe_part_subset(l: BandLayout, acc: Seq<RuleMatch>, dec: Seq<bool>)
    requires
        dec.len() == acc.len(),
    ensures
        forall|i: int| 0 <= i < safe_part(l, acc, dec).0.len() ==> acc.contains(#[trigger] safe_part(l, acc, dec).0[i]),
        safe_part(l, acc, dec).1.len() == safe_part(l, acc, dec).0.len(),
    decreases acc.len(),
{
    if acc.len() > 0 {
        let p = acc.drop_last();
        let dp = dec.take(acc.len() - 1);
        lemma_safe_part_subset(l, p, dp);
        let s = safe_part(l, acc, dec).0;
        assert forall|i: int| 0 <= i < s.len() implies acc.contains(#[trigger] s[i]) by {
            if i < safe_part(l, p, dp).0.len() {
                assert(s[i] == safe_part(l, p, dp).0[i]);
                let j = choose|j: int| 0 <= j < p.len() && p[j] == s[i];
                assert(acc[j] == s[i]);
            } else {
                assert(acc[acc.len() - 1] == s[i]);
            }
        }
    }
}

/// The parts of a split arbitration: each band's core arbitrated on its own; the matches
/// outside every core and every band's at-risk matches arbitrated together at the end, with
/// the cells of the bands' safe winners taken; the result is the safe winners, band by band,
/// then the winners of the final pass.
pub open spec fn spatial_parts(
    r: Seq<RuleMatch>,
    d: Seq<bool>,
    accs: Seq<Seq<RuleMatch>>,
    decs: Seq<Seq<bool>>,
    macc: Seq<RuleMatch>,
    mdec: Seq<bool>,
    ms: Seq<RuleMatch>,
    l: BandLayout,
    g: Grid,
    index: RuleIndex,
    cache: RuleDataCache,
    cams: Map<(u32, u32, usize), (u32, u32)>,
    fb: Map<(u32, u32, usize), u64>,
    gen: u32,
    starv: Map<(u32, u32, usize), u32>,
) -> bool {
    let w = g.spec_width() as int;
    let h = g.spec_height() as int;
    let nb = l.num_bands as int;
    let safe = safe_upto(l, accs, decs, nb);
    let mc = merge_candidates(l, ms);
    &&& accs.len() == nb
    &&& decs.len() == nb
    &&& forall|b: int|
        0 <= b < nb ==> #[trigger] arbitration_outcome(
            accs[b],
            decs[b],
            band_core(l, ms, b),
            keys_of(g, index, starv, gen, band_core(l, ms, b)),
            cells_of(index, cache, cams, fb, w, h, band_core(l, ms, b)),
            Seq::empty(),
        )
    &&& arbitration_outcome(
        macc,
        mdec,
        mc,
        keys_of(g, index, starv, gen, mc),
        cells_of(index, cache, cams, fb, w, h, mc),
        cells_concat(index, cache, cams, fb, w, h, safe.0),
    )
    &&& r == safe.0 + macc
    &&& d == safe.1 + mdec
}

proof fn lemma_safe_upto_lens(l: BandLayout, accs: Seq<Seq<RuleMatch>>, decs: Seq<Seq<bool>>, n: int)
    requires
        0 <= n <= accs.len(),
        n <= decs.len(),
        forall|b: int| 0 <= b < n ==> #[trigger] decs[b].len() == accs[b].len(),
    ensures
        safe_upto(l, accs, decs, n).0.len() == safe_upto(l, accs, decs, n).1.len(),
    decreases n,
{
    if n > 0 {
        lemma_safe_upto_lens(l, accs, decs, n - 1);
        assert(decs[n - 1].len() == accs[n - 1].len());
        lemma_safe_part_subset(l, accs[n - 1], decs[n - 1]);
    }
}

proof fn lemma_safe_upto_prefix(l: BandLayout, accs: Seq<Seq<RuleMatch>>, decs: Seq<Seq<bool>>, acc: Seq<RuleMatch>, dec: Seq<bool>, n: int)
    requires
        0 <= n <= accs.len(),
        n <= decs.len(),
    ensures
        safe_upto(l, accs.push(acc), decs.push(dec), n) == safe_upto(l, accs, decs, n),
    decreases n,
{
    if n > 0 {
        lemma_safe_upto_prefix(l, accs, decs, acc, dec, n - 1);
        assert(accs.push(acc)[n - 1] == accs[n - 1]);
        assert(decs.push(dec)[n - 1] == decs[n - 1]);
    }
}

/// Arbitration split into bands of the x range of the matches, as many as `threads` allows
/// (see `band_layout`), each band's core arbitrated on its own. When there are fewer than
/// `SPATIAL_THRESHOLD` matches, `reach` is not positive or only one band fits, this is one
/// greedy pass over all matches. Otherwise: each band's core matches (at least the margin
/// `2 * reach` from both its edges) are arbitrated; the winners deep enough in their band
/// (at least `2 * reach + reach` from both edges) are kept; the matches outside every core
/// and every band's at-risk core matches are then arbitrated together, with the cells of
/// the kept winners taken. The result is the kept winners, band by band, then the winners of
/// that last pass, each with whether its win was decided below priority and age. Where
/// conflicts chain across a band's edge the result can differ from the one greedy pass over
/// all matches; `lemma_spatial_sound` states what it keeps in every case.
pub fn arbitrate_spatial_banded(
    all_matches: Vec<RuleMatch>,
    index: &RuleIndex,
    cache: &RuleDataCache,
    grid: &Grid,
    reach: i32,
    cams: &MatchMap<(u32, u32)>,
    fb: &MatchMap<u64>,
    gen: u32,
    starv: &MatchMap<u32>,
    threads: usize,
) -> (r: (Vec<RuleMatch>, Vec<bool>))
    requires
        grid_small(*grid),
        index_in_bounds(*index),
        cache.caches(*index),
        forall|i: int|
            0 <= i < all_matches@.len() ==> (#[trigger] all_matches@[i]).x <= coord_limit() && all_matches@[i].y
                <= coord_limit(),
        forall|k: (u32, u32, usize)| #[trigger] cams@.contains_key(k) ==> cams@[k].0 <= coord_limit() && cams@[k].1 <= coord_limit(),
        reach < 0x4000_0000,
    ensures
        !spatial_splits(all_matches@, reach, threads) ==> arbitration_outcome(
            r.0@,
            r.1@,
            all_matches@,
            keys_of(*grid, *index, starv@, gen, all_matches@),
            cells_of(*index, *cache, cams@, fb@, grid.spec_width() as int, grid.spec_height() as int, all_matches@),
            Seq::empty(),
        ),
        spatial_splits(all_matches@, reach, threads) ==> exists|
            accs: Seq<Seq<RuleMatch>>,
            decs: Seq<Seq<bool>>,
            macc: Seq<RuleMatch>,
            mdec: Seq<bool>,
        |
            #[trigger] spatial_parts(
                r.0@,
                r.1@,
                accs,
                decs,
                macc,
                mdec,
                all_matches@,
                band_layout(all_matches@, reach, threads),
                *grid,
                *index,
                *cache,
                cams@,
                fb@,
                gen,
                starv@,
            ),
        r.0@.len() == r.1@.len(),
{
    let ghost ms = all_matches@;
    let empty: Vec<(i32, i32)> = Vec::new();
    proof {
        assert(int_cells(empty@) =~= Seq::<(int, int)>::empty());
    }
    if all_matches.len() < SPATIAL_THRESHOLD || reach <= 0 {
        return arbitrate_with_cam(all_matches, index, cache, grid, cams, fb, gen, starv, &empty);
    }
    let (min_x, max_x) = x_range(&all_matches);
    proof {
        lemma_x_range(ms);
    }
    let margin: u32 = (2 * reach) as u32;
    let spread: u32 = if max_x >= min_x {
        max_x - min_x
    } else {
        0
    };
    let max_bands: usize = if margin == 0 {
        usize::MAX
    } else {
        let q = spread / (margin * 2);
        if q >= 1 {
            q as usize
        } else {
            1
        }
    };
    let nb0 = if threads < max_bands {
        threads
    } else {
        max_bands
    };
    let nb: usize = if nb0 >= 1 {
        nb0
    } else {
        1
    };
    proof {
        assert(nb as int == band_layout(ms, reach, threads).num_bands);
    }
    if nb < 2 {
        return arbitrate_with_cam(all_matches, index, cache, grid, cams, fb, gen, starv, &empty);
    }
    proof {
        let m2 = (margin * 2) as int;
        assert(m2 >= 4);
        let sp = spread as int;
        assert(nb <= sp / m2);
        assert(sp / m2 <= sp) by (nonlinear_arith)
            requires
                m2 >= 1,
                sp >= 0,
        ;
    }
    let bw: u32 = {
        let q = spread / (nb as u32);
        if q >= 1 {
            q
        } else {
            1
        }
    };
    let l = BandLayout { min_x, max_x, margin, safe_margin: margin + reach as u32, num_bands: nb, band_width: bw };
    proof {
        assert(l == band_layout(ms, reach, threads));
        let sp = spread as int;
        let n = nb as int;
        assert(sp / n >= 1) by (nonlinear_arith)
            requires
                n <= sp,
                n >= 1,
        ;
        assert(n * (bw as int) <= sp) by (nonlinear_arith)
            requires
                bw as int == sp / n,
                n >= 1,
                sp >= 0,
        ;
        assert(layout_ok(l));
    }
    let w = grid.width();
    let h = grid.height();
    let mut merge = collect_boundary(&l, &all_matches);
    let mut safe: Vec<RuleMatch> = Vec::new();
    let mut safe_dec: Vec<bool> = Vec::new();
    let ghost mut accs: Seq<Seq<RuleMatch>> = Seq::empty();
    let ghost mut decs: Seq<Seq<bool>> = Seq::empty();
    proof {
        assert(merge@ =~= boundary_matches(l, ms) + at_risk_upto(l, ms, 0));
    }
    let mut b: usize = 0;
    while b < nb
        invariant
            b <= nb,
            nb == l.num_bands,
            layout_ok(l),
            l == band_layout(ms, reach, threads),
            all_matches@ == ms,
            forall|i: int| 0 <= i < ms.len() ==> l.min_x <= (#[trigger] ms[i]).x <= l.max_x,
            forall|i: int| 0 <= i < ms.len() ==> (#[trigger] ms[i]).x <= coord_limit() && ms[i].y <= coord_limit(),
            forall|k: (u32, u32, usize)| #[trigger] cams@.contains_key(k) ==> cams@[k].0 <= coord_limit() && cams@[k].1 <= coord_limit(),
            grid_small(*grid),
            index_in_bounds(*index),
            cache.caches(*index),
            w == grid.spec_width(),
            h == grid.spec_height(),
            int_cells(empty@) == Seq::<(int, int)>::empty(),
            accs.len() == b,
            decs.len() == b,
            forall|q: int|
                0 <= q < b ==> #[trigger] arbitration_outcome(
                    accs[q],
                    decs[q],
                    band_core(l, ms, q),
                    keys_of(*grid, *index, starv@, gen, band_core(l, ms, q)),
                    cells_of(*index, *cache, cams@, fb@, w as int, h as int, band_core(l, ms, q)),
                    Seq::empty(),
                ),
            safe@ == safe_upto(l, accs, decs, b as int).0,
            safe_dec@ == safe_upto(l, accs, decs, b as int).1,
            forall|i: int| 0 <= i < safe@.len() ==> ms.contains(#[trigger] safe@[i]),
            merge@ == boundary_matches(l, ms) + at_risk_upto(l, ms, b as int),
        decreases nb - b,
    {
        let (core, risk) = classify_band(&l, &all_matches, b);
        let ghost core_v = core@;
        proof {
            lemma_lists_subset(l, ms, b as int);
            assert forall|i: int| 0 <= i < core_v.len() implies (#[trigger] core_v[i]).x <= coord_limit() && core_v[i].y
                <= coord_limit() by {
                assert(ms.contains(core_v[i]));
            }
        }
        let (acc, dec) = if core.len() == 0 {
            let a: Vec<RuleMatch> = Vec::new();
            let d: Vec<bool> = Vec::new();
            proof {
                let keys = keys_of(*grid, *index, starv@, gen, core_v);
                let cells = cells_of(*index, *cache, cams@, fb@, w as int, h as int, core_v);
                assert(crate::arbitrator::greedy_reserving(keys, cells, Seq::empty(), Seq::empty()));
                assert(a@ =~= Seq::<int>::empty().map_values(|k: int| core_v[k]));
            }
            (a, d)
        } else {
            arbitrate_with_cam(core, index, cache, grid, cams, fb, gen, starv, &empty)
        };
        proof {
            lemma_outcome_subset(
                acc@,
                dec@,
                core_v,
                keys_of(*grid, *index, starv@, gen, core_v),
                cells_of(*index, *cache, cams@, fb@, w as int, h as int, core_v),
                Seq::empty(),
            );
            assert forall|i: int| 0 <= i < acc@.len() implies ms.contains(#[trigger] acc@[i]) by {
                assert(core_v.contains(acc@[i]));
                let j = choose|j: int| 0 <= j < core_v.len() && core_v[j] == acc@[i];
            }
            assert forall|i: int| 0 <= i < acc@.len() implies l.min_x <= (#[trigger] acc@[i]).x <= l.max_x by {
                assert(ms.contains(acc@[i]));
                let j = choose|j: int| 0 <= j < ms.len() && ms[j] == acc@[i];
            }
        }
        let (mut sa, mut sd) = filter_safe(&l, &acc, &dec);
        let ghost safe0 = safe@;
        let ghost sa_v = sa@;
        proof {
            lemma_safe_part_subset(l, acc@, dec@);
        }
        safe.append(&mut sa);
        safe_dec.append(&mut sd);
        let mut risk = risk;
        merge.append(&mut risk);
        proof {
            lemma_safe_upto_prefix(l, accs, decs, acc@, dec@, b as int);
            accs = accs.push(acc@);
            decs = decs.push(dec@);
            assert(accs[b as int] == acc@);
            assert(decs[b as int] == dec@);
            assert(merge@ =~= boundary_matches(l, ms) + at_risk_upto(l, ms, b as int + 1));
            assert forall|i: int| 0 <= i < safe@.len() implies ms.contains(#[trigger] safe@[i]) by {
                if i < safe0.len() {
                    assert(safe@[i] == safe0[i]);
                } else {
                    assert(safe@[i] == sa_v[i - safe0.len()]);
                    assert(acc@.contains(sa_v[i - safe0.len()]));
                    let j = choose|j: int| 0 <= j < acc@.len() && acc@[j] == sa_v[i - safe0.len()];
                }
            }
            assert forall|q: int| 0 <= q < b + 1 implies #[trigger] arbitration_outcome(
                accs[q],
                decs[q],
                band_core(l, ms, q),
                keys_of(*grid, *index, starv@, gen, band_core(l, ms, q)),
                cells_of(*index, *cache, cams@, fb@, w as int, h as int, band_core(l, ms, q)),
                Seq::empty(),
            ) by {
                if q < b {
                    assert(accs[q] == accs.drop_last()[q]);
                }
            }
        }
        b += 1;
    }
    // The cells of the kept winners are taken for the last pass.
    let mut reserved: Vec<(i32, i32)> = Vec::new();
    let mut k: usize = 0;
    while k < safe.len()
        invariant
            k <= safe@.len(),
            forall|i: int| 0 <= i < safe@.len() ==> ms.contains(#[trigger] safe@[i]),
            forall|i: int| 0 <= i < ms.len() ==> (#[trigger] ms[i]).x <= coord_limit() && ms[i].y <= coord_limit(),
            forall|q: (u32, u32, usize)| #[trigger] cams@.contains_key(q) ==> cams@[q].0 <= coord_limit() && cams@[q].1 <= coord_limit(),
            grid_small(*grid),
            index_in_bounds(*index),
            cache.caches(*index),
            w == grid.spec_width(),
            h == grid.spec_height(),
            int_cells(reserved@) == cells_concat(*index, *cache, cams@, fb@, w as int, h as int, safe@.take(k as int)),
        decreases safe@.len() - k,
    {
        let m = safe[k];
        proof {
            assert(ms.contains(safe@[k as int]));
            let j = choose|j: int| 0 <= j < ms.len() && ms[j] == safe@[k as int];
        }
        let mut cs = get_match_affected_cells(index, cache, cams, fb, w, h, m);
        let ghost r0 = reserved@;
        let ghost cs_v = cs@;
        reserved.append(&mut cs);
        proof {
            assert(int_cells(reserved@) =~= int_cells(r0) + int_cells(cs_v));
            assert(safe@.take(k as int + 1).drop_last() =~= safe@.take(k as int));
            assert(safe@.take(k as int + 1).last() == m);
        }
        k += 1;
    }
    proof {
        assert(safe@.take(k as int) =~= safe@);
        lemma_lists_subset(l, ms, 0);
        lemma_at_risk_upto_subset(l, ms, nb as int);
        assert forall|i: int| 0 <= i < merge@.len() implies (#[trigger] merge@[i]).x <= coord_limit() && merge@[i].y
            <= coord_limit() by {
            let bm = boundary_matches(l, ms);
            if i < bm.len() {
                assert(merge@[i] == bm[i]);
                assert(ms.contains(bm[i]));
            } else {
                assert(merge@[i] == at_risk_upto(l, ms, nb as int)[i - bm.len()]);
                assert(ms.contains(merge@[i]));
            }
        }
    }
    let ghost merge_v = merge@;
    let ghost safe_v = safe@;
    let ghost safe_d = safe_dec@;
    let (mut macc, mut mdec) = arbitrate_with_cam(merge, index, cache, grid, cams, fb, gen, starv, &reserved);
    let ghost macc_v = macc@;
    let ghost mdec_v = mdec@;
    safe.append(&mut macc);
    safe_dec.append(&mut mdec);
    proof {
        assert(merge_v == merge_candidates(l, ms));
        assert(spatial_parts(safe@, safe_dec@, accs, decs, macc_v, mdec_v, ms, l, *grid, *index, *cache, cams@, fb@, gen, starv@));
        assert forall|q: int| 0 <= q < nb implies #[trigger] decs[q].len() == accs[q].len() by {
            lemma_outcome_subset(
                accs[q],
                decs[q],
                band_core(l, ms, q),
                keys_of(*grid, *index, starv@, gen, band_core(l, ms, q)),
                cells_of(*index, *cache, cams@, fb@, w as int, h as int, band_core(l, ms, q)),
                Seq::empty(),
            );
        }
        lemma_safe_upto_lens(l, accs, decs, nb as int);
        lemma_outcome_subset(
            macc_v,
            mdec_v,
            merge_v,
            keys_of(*grid, *index, starv@, gen, merge_v),
            cells_of(*index, *cache, cams@, fb@, w as int, h as int, merge_v),
            int_cells(reserved@),
        );
    }
    let ghost sv = safe@;
    let ghost dv = safe_dec@;
    let result = (safe, safe_dec);
    assert(result.0@ == sv && result.1@ == dv);
    result
}

/// What split arbitration gives with `threads` bands at most: one greedy pass when it does
/// not split, otherwise the parts of `spatial_parts`.
pub open spec fn spatial_result(
    r: Seq<RuleMatch>,
    d: Seq<bool>,
    ms: Seq<RuleMatch>,
    reach: i32,
    threads: usize,
    g: Grid,
    index: RuleIndex,
    cache: RuleDataCache,
    cams: Map<(u32, u32, usize), (u32, u32)>,
    fb: Map<(u32, u32, usize), u64>,
    gen: u32,
    starv: Map<(u32, u32, usize), u32>,
) -> bool {
    &&& !spatial_splits(ms, reach, threads) ==> arbitration_outcome(
        r,
        d,
        ms,
        keys_of(g, index, starv, gen, ms),
        cells_of(index, cache, cams, fb, g.spec_width() as int, g.spec_height() as int, ms),
        Seq::empty(),
    )
    &&& spatial_splits(ms, reach, threads) ==> exists|
        accs: Seq<Seq<RuleMatch>>,
        decs: Seq<Seq<bool>>,
        macc: Seq<RuleMatch>,
        mdec: Seq<bool>,
    | #[trigger] spatial_parts(r, d, accs, decs, macc, mdec, ms, band_layout(ms, reach, threads), g, index, cache, cams, fb, gen, starv)
}

/// Arbitration of a tick's matches as the band split promises it: exactly the one greedy
/// pass of `arbitrate_with_cam` over all the matches, with nothing reserved. `reach` is the
/// largest column distance at which a rule writes; the band split of
/// `arbitrate_spatial_banded` can differ from the one pass where conflicts chain across a
/// band's edge, so the result here is computed in one pass, which is what is promised.
pub fn arbitrate_spatial_with_cam(
    all_matches: Vec<RuleMatch>,
    index: &RuleIndex,
    cache: &RuleDataCache,
    grid: &Grid,
    reach: i32,
    cams: &MatchMap<(u32, u32)>,
    fb: &MatchMap<u64>,
    gen: u32,
    starv: &MatchMap<u32>,
) -> (r: (Vec<RuleMatch>, Vec<bool>))
    requires
        grid_small(*grid),
        index_in_bounds(*index),
        cache.caches(*index),
        forall|i: int|
            0 <= i < all_matches@.len() ==> (#[trigger] all_matches@[i]).x <= coord_limit() && all_matches@[i].y
                <= coord_limit(),
        forall|k: (u32, u32, usize)| #[trigger] cams@.contains_key(k) ==> cams@[k].0 <= coord_limit() && cams@[k].1 <= coord_limit(),
    ensures
        arbitration_outcome(
            r.0@,
            r.1@,
            all_matches@,
            keys_of(*grid, *index, starv@, gen, all_matches@),
            cells_of(*index, *cache, cams@, fb@, grid.spec_width() as int, grid.spec_height() as int, all_matches@),
            Seq::empty(),
        ),
        r.0@.len() <= all_matches@.len(),
{
    let _ = reach;
    let reserved: Vec<(i32, i32)> = Vec::new();
    assert(int_cells(reserved@) =~= Seq::<(int, int)>::empty());
    arbitrate_with_cam(all_matches, index, cache, grid, cams, fb, gen, starv, &reserved)
}

/// `arbitrate_spatial_with_cam` with no `cam` targets, no starvation counters and
/// generation 0; the accepted matches only.
pub fn arbitrate_spatial(
    all_matches: Vec<RuleMatch>,
    index: &RuleIndex,
    cache: &RuleDataCache,
    grid: &Grid,
    reach: i32,
) -> (r: Vec<RuleMatch>)
    requires
        grid_small(*grid),
        index_in_bounds(*index),
        cache.caches(*index),
        forall|i: int|
            0 <= i < all_matches@.len() ==> (#[trigger] all_matches@[i]).x <= coord_limit() && all_matches@[i].y
                <= coord_limit(),
    ensures
        exists|d: Seq<bool>|
            #[trigger] arbitration_outcome(
                r@,
                d,
                all_matches@,
                keys_of(*grid, *index, Map::empty(), 0, all_matches@),
                cells_of(*index, *cache, Map::empty(), Map::empty(), grid.spec_width() as int, grid.spec_height() as int, all_matches@),
                Seq::empty(),
            ),
{
    let cams: MatchMap<(u32, u32)> = MatchMap::new();
    let fb: MatchMap<u64> = MatchMap::new();
    let starv: MatchMap<u32> = MatchMap::new();
    let ghost ms = all_matches@;
    let (r, d) = arbitrate_spatial_with_cam(all_matches, index, cache, grid, reach, &cams, &fb, 0, &starv);
    assert(arbitration_outcome(
        r@,
        d@,
        ms,
        keys_of(*grid, *index, Map::empty(), 0, ms),
        cells_of(*index, *cache, Map::empty(), Map::empty(), grid.spec_width() as int, grid.spec_height() as int, ms),
        Seq::empty(),
    ));
    r
}

// ---------------------------------------------------------------------------
// What split arbitration guarantees
// ---------------------------------------------------------------------------

/// Every cell that match `m` writes lies within `reach` columns of it.
pub open spec fn writes_within(
    index: RuleIndex,
    cache: RuleDataCache,
    cams: Map<(u32, u32, usize), (u32, u32)>,
    fb: Map<(u32, u32, usize), u64>,
    w: int,
    h: int,
    m: RuleMatch,
    reach: int,
) -> bool {
    forall|c: (int, int)|
        #[trigger] match_cells(index, cache, cams, fb, w, h, m).contains(c) ==> m.x - reach <= c.0 <= m.x + reach
}

/// No two of the matches write a common cell.
pub open spec fn writes_disjoint(
    index: RuleIndex,
    cache: RuleDataCache,
    cams: Map<(u32, u32, usize), (u32, u32)>,
    fb: Map<(u32, u32, usize), u64>,
    w: int,
    h: int,
    s: Seq<RuleMatch>,
) -> bool {
    forall|a: int, b: int|
        0 <= a < b < s.len() ==> !overlap(
            match_cells(index, cache, cams, fb, w, h, #[trigger] s[a]),
            match_cells(index, cache, cams, fb, w, h, #[trigger] s[b]),
        )
}

proof fn lemma_outcome_disjoint(
    r: Seq<RuleMatch>,
    d: Seq<bool>,
    ms: Seq<RuleMatch>,
    keys: Seq<crate::arbitrator::MatchKey>,
    index: RuleIndex,
    cache: RuleDataCache,
    cams: Map<(u32, u32, usize), (u32, u32)>,
    fb: Map<(u32, u32, usize), u64>,
    w: int,
    h: int,
    res: Seq<(int, int)>,
)
    requires
        arbitration_outcome(r, d, ms, keys, cells_of(index, cache, cams, fb, w, h, ms), res),
        keys.len() == ms.len(),
    ensures
        writes_disjoint(index, cache, cams, fb, w, h, r),
        forall|a: int| 0 <= a < r.len() ==> !overlap(match_cells(index, cache, cams, fb, w, h, #[trigger] r[a]), res),
        forall|a: int| 0 <= a < r.len() ==> ms.contains(#[trigger] r[a]),
        d.len() == r.len(),
{
    let cells = cells_of(index, cache, cams, fb, w, h, ms);
    let sel = choose|sel: Seq<int>|
        #[trigger] crate::arbitrator::greedy_reserving(keys, cells, sel, res) && r == sel.map_values(|k: int| ms[k])
            && d.len() == sel.len() && forall|a: int|
            0 <= a < sel.len() ==> d[a] == crate::arbitrator::tie_decided(keys, cells, sel, a);
    assert forall|a: int, b: int| 0 <= a < b < r.len() implies !overlap(
        match_cells(index, cache, cams, fb, w, h, #[trigger] r[a]),
        match_cells(index, cache, cams, fb, w, h, #[trigger] r[b]),
    ) by {
        assert(r[a] == ms[sel[a]] && r[b] == ms[sel[b]]);
        assert(cells[sel[a]] == match_cells(index, cache, cams, fb, w, h, r[a]));
        assert(cells[sel[b]] == match_cells(index, cache, cams, fb, w, h, r[b]));
        assert(crate::arbitrator::ranks_before(keys, sel[a], sel[b]));
        assert(sel.contains(sel[a]));
        assert(sel.contains(sel[b]));
        assert(!crate::arbitrator::blocked(keys, cells, sel, sel[b]));
        if overlap(cells[sel[a]], cells[sel[b]]) {
            let c = choose|c: (int, int)| cells[sel[a]].contains(c) && cells[sel[b]].contains(c);
            assert(overlap(cells[sel[b]], cells[sel[a]]));
        }
    }
    assert forall|a: int| 0 <= a < r.len() implies !overlap(
        match_cells(index, cache, cams, fb, w, h, #[trigger] r[a]),
        res,
    ) && ms.contains(r[a]) by {
        assert(r[a] == ms[sel[a]]);
        assert(cells[sel[a]] == match_cells(index, cache, cams, fb, w, h, r[a]));
        assert(sel.contains(sel[a]));
    }
}

proof fn lemma_band_core_band(l: BandLayout, ms: Seq<RuleMatch>, b: int)
    ensures
        forall|i: int| 0 <= i < band_core(l, ms, b).len() ==> band_of(l, (#[trigger] band_core(l, ms, b)[i]).x) == b,
    decreases ms.len(),
{
    if ms.len() > 0 {
        let p = ms.drop_last();
        lemma_band_core_band(l, p, b);
        let c = band_core(l, ms, b);
        assert forall|i: int| 0 <= i < c.len() implies band_of(l, (#[trigger] c[i]).x) == b by {
            if i < band_core(l, p, b).len() {
                assert(c[i] == band_core(l, p, b)[i]);
            }
        }
    }
}

proof fn lemma_safe_part_disjoint(
    l: BandLayout,
    acc: Seq<RuleMatch>,
    dec: Seq<bool>,
    index: RuleIndex,
    cache: RuleDataCache,
    cams: Map<(u32, u32, usize), (u32, u32)>,
    fb: Map<(u32, u32, usize), u64>,
    w: int,
    h: int,
)
    requires
        dec.len() == acc.len(),
        writes_disjoint(index, cache, cams, fb, w, h, acc),
    ensures
        writes_disjoint(index, cache, cams, fb, w, h, safe_part(l, acc, dec).0),
        forall|i: int|
            0 <= i < safe_part(l, acc, dec).0.len() ==> is_safe(l, (#[trigger] safe_part(l, acc, dec).0[i]).x)
                && acc.contains(safe_part(l, acc, dec).0[i]),
    decreases acc.len(),
{
    if acc.len() > 0 {
        let p = acc.drop_last();
        let dp = dec.take(acc.len() - 1);
        assert forall|a: int, b: int| 0 <= a < b < p.len() implies !overlap(
            match_cells(index, cache, cams, fb, w, h, #[trigger] p[a]),
            match_cells(index, cache, cams, fb, w, h, #[trigger] p[b]),
        ) by {
            assert(p[a] == acc[a] && p[b] == acc[b]);
        }
        lemma_safe_part_disjoint(l, p, dp, index, cache, cams, fb, w, h);
        let s0 = safe_part(l, p, dp).0;
        let s = safe_part(l, acc, dec).0;
        let last = acc[acc.len() - 1];
        assert forall|i: int| 0 <= i < s.len() implies is_safe(l, (#[trigger] s[i]).x) && acc.contains(s[i]) by {
            if i < s0.len() {
                assert(s[i] == s0[i]);
                let j = choose|j: int| 0 <= j < p.len() && p[j] == s0[i];
                assert(acc[j] == s[i]);
            } else {
                assert(s[i] == last);
            }
        }
        assert forall|a: int, b: int| 0 <= a < b < s.len() implies !overlap(
            match_cells(index, cache, cams, fb, w, h, #[trigger] s[a]),
            match_cells(index, cache, cams, fb, w, h, #[trigger] s[b]),
        ) by {
            if b < s0.len() {
                assert(s[a] == s0[a] && s[b] == s0[b]);
            } else {
                assert(s[a] == s0[a]);
                assert(s[b] == last);
                let j = choose|j: int| 0 <= j < p.len() && p[j] == s0[a];
                assert(acc[j] == s[a]);
                assert(!overlap(
                    match_cells(index, cache, cams, fb, w, h, acc[j]),
                    match_cells(index, cache, cams, fb, w, h, acc[acc.len() - 1]),
                ));
            }
        }
    }
}

/// Safe matches of different bands lie more than twice `reach` apart.
proof fn lemma_safe_apart(l: BandLayout, u: u32, v: u32, reach: int)
    requires
        is_safe(l, u),
        is_safe(l, v),
        band_of(l, u) < band_of(l, v),
        l.safe_margin == 3 * reach,
        reach > 0,
    ensures
        v - u > 2 * reach,
{
    let bu = band_of(l, u);
    let bv = band_of(l, v);
    let bw = l.band_width as int;
    assert(bv <= l.num_bands - 1);
    assert((bu + 1) * bw <= bv * bw) by (nonlinear_arith)
        requires
            bu + 1 <= bv,
            bw >= 0,
    ;
    assert(band_end(l, bu) <= band_start(l, bv));
}

proof fn lemma_cells_concat_has(
    index: RuleIndex,
    cache: RuleDataCache,
    cams: Map<(u32, u32, usize), (u32, u32)>,
    fb: Map<(u32, u32, usize), u64>,
    w: int,
    h: int,
    s: Seq<RuleMatch>,
    k: int,
    c: (int, int),
)
    requires
        0 <= k < s.len(),
        match_cells(index, cache, cams, fb, w, h, s[k]).contains(c),
    ensures
        cells_concat(index, cache, cams, fb, w, h, s).contains(c),
    decreases s.len(),
{
    let p = s.drop_last();
    let a = cells_concat(index, cache, cams, fb, w, h, p);
    let m = match_cells(index, cache, cams, fb, w, h, s.last());
    assert(cells_concat(index, cache, cams, fb, w, h, s) == a + m);
    if k < s.len() - 1 {
        assert(p[k] == s[k]);
        lemma_cells_concat_has(index, cache, cams, fb, w, h, p, k, c);
        let i = choose|i: int| 0 <= i < a.len() && a[i] == c;
        assert((a + m)[i] == c);
    } else {
        let i = choose|i: int| 0 <= i < m.len() && m[i] == c;
        assert((a + m)[a.len() + i] == c);
    }
}

proof fn lemma_safe_upto_disjoint(
    l: BandLayout,
    accs: Seq<Seq<RuleMatch>>,
    decs: Seq<Seq<bool>>,
    ms: Seq<RuleMatch>,
    n: int,
    reach: int,
    index: RuleIndex,
    cache: RuleDataCache,
    cams: Map<(u32, u32, usize), (u32, u32)>,
    fb: Map<(u32, u32, usize), u64>,
    w: int,
    h: int,
)
    requires
        0 <= n <= accs.len(),
        accs.len() == decs.len(),
        l.safe_margin == 3 * reach,
        reach > 0,
        forall|b: int|
            #![trigger accs[b]]
            0 <= b < accs.len() ==> decs[b].len() == accs[b].len() && writes_disjoint(index, cache, cams, fb, w, h, accs[b]),
        forall|b: int, i: int|
            0 <= b < accs.len() && 0 <= i < accs[b].len() ==> band_core(l, ms, b).contains(#[trigger] accs[b][i]),
        forall|i: int| 0 <= i < ms.len() ==> writes_within(index, cache, cams, fb, w, h, #[trigger] ms[i], reach),
    ensures
        writes_disjoint(index, cache, cams, fb, w, h, safe_upto(l, accs, decs, n).0),
        forall|i: int|
            0 <= i < safe_upto(l, accs, decs, n).0.len() ==> {
                let m = #[trigger] safe_upto(l, accs, decs, n).0[i];
                &&& is_safe(l, m.x)
                &&& band_of(l, m.x) < n
                &&& ms.contains(m)
            },
    decreases n,
{
    if n > 0 {
        lemma_safe_upto_disjoint(l, accs, decs, ms, n - 1, reach, index, cache, cams, fb, w, h);
        let p = safe_upto(l, accs, decs, n - 1).0;
        let acc = accs[n - 1];
        lemma_safe_part_disjoint(l, acc, decs[n - 1], index, cache, cams, fb, w, h);
        let q = safe_part(l, acc, decs[n - 1]).0;
        let s = safe_upto(l, accs, decs, n).0;
        assert(s == p + q);
        lemma_band_core_band(l, ms, n - 1);
        lemma_lists_subset(l, ms, n - 1);
        let core = band_core(l, ms, n - 1);
        assert forall|j: int| 0 <= j < q.len() implies band_of(l, (#[trigger] q[j]).x) == n - 1 && ms.contains(q[j])
            && is_safe(l, q[j].x) by {
            let t = choose|t: int| 0 <= t < acc.len() && acc[t] == q[j];
            assert(core.contains(acc[t]));
            let u = choose|u: int| 0 <= u < core.len() && core[u] == acc[t];
        }
        assert forall|i: int| 0 <= i < s.len() implies {
            let m = #[trigger] s[i];
            &&& is_safe(l, m.x)
            &&& band_of(l, m.x) < n
            &&& ms.contains(m)
        } by {
            if i < p.len() {
                assert(s[i] == p[i]);
            } else {
                assert(s[i] == q[i - p.len()]);
            }
        }
        assert forall|a: int, b: int| 0 <= a < b < s.len() implies !overlap(
            match_cells(index, cache, cams, fb, w, h, #[trigger] s[a]),
            match_cells(index, cache, cams, fb, w, h, #[trigger] s[b]),
        ) by {
            if b < p.len() {
                assert(s[a] == p[a] && s[b] == p[b]);
            } else if a >= p.len() {
                assert(s[a] == q[a - p.len()] && s[b] == q[b - p.len()]);
            } else {
                let u = p[a];
                let v = q[b - p.len()];
                assert(s[a] == u && s[b] == v);
                lemma_safe_apart(l, u.x, v.x, reach);
                let iu = choose|k: int| 0 <= k < ms.len() && ms[k] == u;
                let iv = choose|k: int| 0 <= k < ms.len() && ms[k] == v;
                assert(writes_within(index, cache, cams, fb, w, h, ms[iu], reach));
                assert(writes_within(index, cache, cams, fb, w, h, ms[iv], reach));
                if overlap(match_cells(index, cache, cams, fb, w, h, u), match_cells(index, cache, cams, fb, w, h, v)) {
                    let c = choose|c: (int, int)|
                        match_cells(index, cache, cams, fb, w, h, u).contains(c) && match_cells(
                            index,
                            cache,
                            cams,
                            fb,
                            w,
                            h,
                            v,
                        ).contains(c);
                    assert(false);
                }
            }
        }
    }
}

/// When every candidate writes only within `reach` columns of itself (what `reach` is for),
/// split arbitration never accepts two matches that write a common cell, and accepts only
/// candidates.
pub proof fn lemma_spatial_sound(
    r: Seq<RuleMatch>,
    d: Seq<bool>,
    ms: Seq<RuleMatch>,
    reach: i32,
    threads: usize,
    g: Grid,
    index: RuleIndex,
    cache: RuleDataCache,
    cams: Map<(u32, u32, usize), (u32, u32)>,
    fb: Map<(u32, u32, usize), u64>,
    gen: u32,
    starv: Map<(u32, u32, usize), u32>,
)
    requires
        spatial_result(r, d, ms, reach, threads, g, index, cache, cams, fb, gen, starv),
        reach < 0x4000_0000,
        forall|i: int|
            0 <= i < ms.len() ==> writes_within(
                index,
                cache,
                cams,
                fb,
                g.spec_width() as int,
                g.spec_height() as int,
                #[trigger] ms[i],
                reach as int,
            ),
    ensures
        writes_disjoint(index, cache, cams, fb, g.spec_width() as int, g.spec_height() as int, r),
        forall|a: int| 0 <= a < r.len() ==> ms.contains(#[trigger] r[a]),
{
    let w = g.spec_width() as int;
    let h = g.spec_height() as int;
    if !spatial_splits(ms, reach, threads) {
        lemma_outcome_disjoint(r, d, ms, keys_of(g, index, starv, gen, ms), index, cache, cams, fb, w, h, Seq::empty());
    } else {
        let l = band_layout(ms, reach, threads);
        let (accs, decs, macc, mdec) = choose|
            accs: Seq<Seq<RuleMatch>>,
            decs: Seq<Seq<bool>>,
            macc: Seq<RuleMatch>,
            mdec: Seq<bool>,
        | #[trigger] spatial_parts(r, d, accs, decs, macc, mdec, ms, l, g, index, cache, cams, fb, gen, starv);
        let nb = l.num_bands as int;
        assert(l.margin == 2 * reach);
        assert(l.safe_margin == 3 * reach);
        assert forall|b: int| #![trigger accs[b]] 0 <= b < accs.len() implies decs[b].len() == accs[b].len()
            && writes_disjoint(index, cache, cams, fb, w, h, accs[b]) && forall|i: int|
            0 <= i < accs[b].len() ==> band_core(l, ms, b).contains(#[trigger] accs[b][i]) by {
            let core = band_core(l, ms, b);
            assert(arbitration_outcome(
                accs[b],
                decs[b],
                core,
                keys_of(g, index, starv, gen, core),
                cells_of(index, cache, cams, fb, w, h, core),
                Seq::empty(),
            ));
            lemma_outcome_disjoint(accs[b], decs[b], core, keys_of(g, index, starv, gen, core), index, cache, cams, fb, w, h, Seq::empty());
        }
        lemma_safe_upto_disjoint(l, accs, decs, ms, nb, reach as int, index, cache, cams, fb, w, h);
        let safe = safe_upto(l, accs, decs, nb).0;
        let mc = merge_candidates(l, ms);
        lemma_outcome_disjoint(
            macc,
            mdec,
            mc,
            keys_of(g, index, starv, gen, mc),
            index,
            cache,
            cams,
            fb,
            w,
            h,
            cells_concat(index, cache, cams, fb, w, h, safe),
        );
        lemma_lists_subset(l, ms, 0);
        lemma_at_risk_upto_subset(l, ms, nb);
        let bm = boundary_matches(l, ms);
        let ar = at_risk_upto(l, ms, nb);
        assert(mc == bm + ar);
        assert forall|i: int| 0 <= i < mc.len() implies ms.contains(#[trigger] mc[i]) by {
            if i < bm.len() {
                assert(mc[i] == bm[i]);
            } else {
                assert(mc[i] == ar[i - bm.len()]);
            }
        }
        assert(r == safe + macc);
        assert forall|a: int| 0 <= a < r.len() implies ms.contains(#[trigger] r[a]) by {
            if a < safe.len() {
                assert(r[a] == safe[a]);
            } else {
                assert(r[a] == macc[a - safe.len()]);
                assert(mc.contains(macc[a - safe.len()]));
            }
        }
        assert forall|a: int, b: int| 0 <= a < b < r.len() implies !overlap(
            match_cells(index, cache, cams, fb, w, h, #[trigger] r[a]),
            match_cells(index, cache, cams, fb, w, h, #[trigger] r[b]),
        ) by {
            if b < safe.len() {
                assert(r[a] == safe[a] && r[b] == safe[b]);
            } else if a >= safe.len() {
                assert(r[a] == macc[a - safe.len()] && r[b] == macc[b - safe.len()]);
            } else {
                let u = safe[a];
                let v = macc[b - safe.len()];
                assert(r[a] == u && r[b] == v);
                let res = cells_concat(index, cache, cams, fb, w, h, safe);
                assert(!overlap(match_cells(index, cache, cams, fb, w, h, v), res));
                if overlap(match_cells(index, cache, cams, fb, w, h, u), match_cells(index, cache, cams, fb, w, h, v)) {
                    let c = choose|c: (int, int)|
                        match_cells(index, cache, cams, fb, w, h, u).contains(c) && match_cells(
                            index,
                            cache,
                            cams,
                            fb,
                            w,
                            h,
                            v,
                        ).contains(c);
                    lemma_cells_concat_has(index, cache, cams, fb, w, h, safe, a, c);
                    assert(overlap(match_cells(index, cache, cams, fb, w, h, v), res));
                }
            }
        }
    }
}

} // verus!
