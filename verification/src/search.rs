use vstd::prelude::*;
use crate::apply::coord_limit;
use crate::conflict_analyzer::index_in_bounds;
use crate::geometry::{coord_bound, rule_in_bounds, rules_in_bounds};
use crate::grid::Grid;
use crate::tick_state::{extension_index, keeps_position_state};
use crate::types::{CellType, Rule, RuleIndex, DEFAULT_CELL_VALUE};

verus! {

broadcast use vstd::std_specs::hash::group_hash_axioms;

// ---------------------------------------------------------------------------
// Where to look for matches: the neighbourhood of the cells that changed
// ---------------------------------------------------------------------------

/// `c` lies within `r` of `p` along both axes.
pub open spec fn in_square(c: (usize, usize), p: (usize, usize), r: int) -> bool {
    p.0 - r <= c.0 <= p.0 + r && p.1 - r <= c.1 <= p.1 + r
}

/// `c` lies within `r` of one of `coords` along both axes.
pub open spec fn near_any(coords: Seq<(usize, usize)>, r: int, c: (usize, usize)) -> bool {
    exists|i: int| 0 <= i < coords.len() && in_square(c, #[trigger] coords[i], r)
}

/// The neighbourhoods of `n` cells of radius `r` are estimated to cover at least a
/// `w` × `h` grid (`n` times the square of side `2r + 1`, at most `usize::MAX`).
pub open spec fn dense_expansion(w: int, h: int, n: int, r: int) -> bool {
    let per_cell = (2 * r + 1) * (2 * r + 1);
    let est = if n * per_cell > usize::MAX {
        usize::MAX as int
    } else {
        n * per_cell
    };
    w > 0 && h > 0 && est >= w * h
}

/// Every coordinate is within the coordinate limit.
pub open spec fn coords_small(coords: Seq<(usize, usize)>) -> bool {
    forall|i: int| 0 <= i < coords.len() ==> (#[trigger] coords[i]).0 <= coord_limit() && coords[i].1 <= coord_limit()
}

spec fn coord_key(c: (usize, usize)) -> u64 {
    (c.1 * 0x1_0000_0000 + c.0) as u64
}

spec fn key_sized(c: (usize, usize)) -> bool {
    c.0 < 0x1_0000_0000 && c.1 < 0x1_0000_0000
}

proof fn lemma_key_injective(a: (usize, usize), b: (usize, usize))
    requires
        key_sized(a),
        key_sized(b),
        coord_key(a) == coord_key(b),
    ensures
        a == b,
{
    let k: int = 0x1_0000_0000;
    let (a0, a1, b0, b1) = (a.0 as int, a.1 as int, b.0 as int, b.1 as int);
    assert(a1 * k + a0 < k * k) by (nonlinear_arith)
        requires
            0 <= a0 < k,
            0 <= a1 < k,
            k == 0x1_0000_0000,
    ;
    assert(b1 * k + b0 < k * k) by (nonlinear_arith)
        requires
            0 <= b0 < k,
            0 <= b1 < k,
            k == 0x1_0000_0000,
    ;
    assert(0 <= a1 * k && 0 <= b1 * k) by (nonlinear_arith)
        requires
            0 <= a1,
            0 <= b1,
            k == 0x1_0000_0000,
    ;
    assert(a1 * k + a0 == b1 * k + b0);
    if a1 < b1 {
        assert(a1 * k + a0 < b1 * k + b0) by (nonlinear_arith)
            requires
                a1 < b1,
                0 <= a0 < k,
                0 <= b0,
        ;
    } else if b1 < a1 {
        assert(b1 * k + b0 < a1 * k + a0) by (nonlinear_arith)
            requires
                b1 < a1,
                0 <= b0 < k,
                0 <= a0,
        ;
    }
}

/// The cells within `radius` of each of `coords`, each once, in the order first reached:
/// coordinate by coordinate, the columns of its square left to right, each column top to
/// bottom.
fn expand_sparse(coords: &[(usize, usize)], radius: i32) -> (r: Vec<(usize, usize)>)
    requires
        0 < radius <= 0x7FFF,
        coords_small(coords@),
    ensures
        r@.no_duplicates(),
        forall|c: (usize, usize)| #[trigger] r@.contains(c) <==> near_any(coords@, radius as int, c),
{
    let ghost rr = radius as int;
    let mut result: Vec<(usize, usize)> = Vec::new();
    let mut seen: std::collections::HashSet<u64> = std::collections::HashSet::new();
    let mut i: usize = 0;
    while i < coords.len()
        invariant
            0 < radius <= 0x7FFF,
            rr == radius as int,
            coords_small(coords@),
            i <= coords@.len(),
            result@.no_duplicates(),
            forall|c: (usize, usize)| #[trigger] result@.contains(c) ==> near_any(coords@, rr, c) && key_sized(c),
            forall|c: (usize, usize)| key_sized(c) ==> (seen@.contains(coord_key(c)) <==> #[trigger] result@.contains(c)),
            forall|j: int, c: (usize, usize)|
                0 <= j < i && #[trigger] in_square(c, coords@[j], rr) ==> result@.contains(c),
        decreases coords@.len() - i,
    {
        let (x, y) = coords[i];
        let ghost p = coords@[i as int];
        assert(p == (x, y));
        let mut dx: i32 = -radius;
        while dx <= radius
            invariant
                0 < radius <= 0x7FFF,
                rr == radius as int,
                coords_small(coords@),
                i < coords@.len(),
                coords@[i as int] == (x, y),
                x <= coord_limit(),
                y <= coord_limit(),
                -radius <= dx <= radius + 1,
                result@.no_duplicates(),
                forall|c: (usize, usize)| #[trigger] result@.contains(c) ==> near_any(coords@, rr, c) && key_sized(c),
                forall|c: (usize, usize)|
                    key_sized(c) ==> (seen@.contains(coord_key(c)) <==> #[trigger] result@.contains(c)),
                forall|j: int, c: (usize, usize)|
                    0 <= j < i && #[trigger] in_square(c, coords@[j], rr) ==> result@.contains(c),
                forall|c: (usize, usize)| in_square(c, (x, y), rr) && c.0 - x < dx ==> #[trigger] result@.contains(c),
            decreases radius + 1 - dx,
        {
            let mut dy: i32 = -radius;
            while dy <= radius
                invariant
                    0 < radius <= 0x7FFF,
                    rr == radius as int,
                    coords_small(coords@),
                    i < coords@.len(),
                    coords@[i as int] == (x, y),
                    x <= coord_limit(),
                    y <= coord_limit(),
                    -radius <= dx <= radius,
                    -radius <= dy <= radius + 1,
                    result@.no_duplicates(),
                    forall|c: (usize, usize)|
                        #[trigger] result@.contains(c) ==> near_any(coords@, rr, c) && key_sized(c),
                    forall|c: (usize, usize)|
                        key_sized(c) ==> (seen@.contains(coord_key(c)) <==> #[trigger] result@.contains(c)),
                    forall|j: int, c: (usize, usize)|
                        0 <= j < i && #[trigger] in_square(c, coords@[j], rr) ==> result@.contains(c),
                    forall|c: (usize, usize)|
                        in_square(c, (x, y), rr) && (c.0 - x < dx || (c.0 - x == dx && c.1 - y < dy))
                            ==> #[trigger] result@.contains(c),
                decreases radius + 1 - dy,
            {
                let nx: i32 = x as i32 + dx;
                let ny: i32 = y as i32 + dy;
                if nx >= 0 && ny >= 0 {
                    let c: (usize, usize) = (nx as usize, ny as usize);
                    let key: u64 = (ny as u64) * 0x1_0000_0000u64 + (nx as u64);
                    assert(key == coord_key(c));
                    assert(in_square(c, coords@[i as int], rr));
                    let ghost before = result@;
                    let ghost seen_before = seen@;
                    assert(key_sized(c));
                    if seen.insert(key) {
                        assert(!before.contains(c));
                        result.push(c);
                        assert(result@ == before.push(c));
                        assert forall|d: (usize, usize)| key_sized(d) implies (seen@.contains(coord_key(d))
                            <==> #[trigger] result@.contains(d)) by {
                            if d == c {
                                assert(result@[before.len() as int] == c);
                            } else {
                                if coord_key(d) == key {
                                    lemma_key_injective(d, c);
                                }
                                assert(seen@.contains(coord_key(d)) == seen_before.contains(coord_key(d)));
                                if result@.contains(d) {
                                    let q = choose|q: int| 0 <= q < result@.len() && result@[q] == d;
                                    assert(before[q] == d);
                                }
                                if before.contains(d) {
                                    let q = choose|q: int| 0 <= q < before.len() && before[q] == d;
                                    assert(result@[q] == d);
                                }
                            }
                        }
                        assert forall|d: (usize, usize)| #[trigger] result@.contains(d) implies near_any(
                            coords@,
                            rr,
                            d,
                        ) && key_sized(d) by {
                            if !before.contains(d) {
                                let q = choose|q: int| 0 <= q < result@.len() && result@[q] == d;
                                assert(q == before.len());
                            }
                        }
                        assert forall|j: int, d: (usize, usize)|
                            0 <= j < i && #[trigger] in_square(d, coords@[j], rr) implies result@.contains(d) by {
                            assert(before.contains(d));
                            let q = choose|q: int| 0 <= q < before.len() && before[q] == d;
                            assert(result@[q] == d);
                        }
                        assert forall|d: (usize, usize)|
                            in_square(d, (x, y), rr) && (d.0 - x < dx || (d.0 - x == dx && d.1 - y < dy + 1))
                                implies #[trigger] result@.contains(d) by {
                            if d != c {
                                assert(before.contains(d));
                                let q = choose|q: int| 0 <= q < before.len() && before[q] == d;
                                assert(result@[q] == d);
                            } else {
                                assert(result@[before.len() as int] == c);
                            }
                        }
                    } else {
                        assert(result@.contains(c));
                    }
                }
                dy = dy + 1;
            }
            dx = dx + 1;
        }
        i = i + 1;
    }
    proof {
        assert forall|c: (usize, usize)| near_any(coords@, rr, c) implies #[trigger] result@.contains(c) by {
            let j = choose|j: int| 0 <= j < coords@.len() && in_square(c, #[trigger] coords@[j], rr);
        }
    }
    result
}

proof fn lemma_cell_index(x: int, y: int, w: int, h: int)
    requires
        0 <= x < w,
        0 <= y < h,
    ensures
        0 <= y * w,
        y * w + x < w * h,
        y * w <= y * w + x,
{
    assert(y * w + x < (y + 1) * w) by (nonlinear_arith)
        requires
            x < w,
    ;
    assert((y + 1) * w <= h * w) by (nonlinear_arith)
        requires
            y + 1 <= h,
            0 <= w,
    ;
    assert(0 <= y * w) by (nonlinear_arith)
        requires
            0 <= y,
            0 <= w,
    ;
    assert(h * w == w * h) by (nonlinear_arith);
}

proof fn lemma_cell_index_injective(a: (usize, usize), b: (usize, usize), w: int)
    requires
        a.0 < w,
        b.0 < w,
        a.1 * w + a.0 == b.1 * w + b.0,
    ensures
        a == b,
{
    let (a0, a1, b0, b1) = (a.0 as int, a.1 as int, b.0 as int, b.1 as int);
    if a1 < b1 {
        assert(a1 * w + a0 < b1 * w + b0) by (nonlinear_arith)
            requires
                a1 < b1,
                0 <= a0 < w,
                0 <= b0,
        ;
    } else if b1 < a1 {
        assert(b1 * w + b0 < a1 * w + a0) by (nonlinear_arith)
            requires
                b1 < a1,
                0 <= b0 < w,
                0 <= a0,
        ;
    }
}

/// The cells of the `w` × `h` grid within `radius` of each of `coords`, each once, in the
/// order first reached: coordinate by coordinate, the rows of its square (cut to the grid)
/// top to bottom, each row left to right.
fn expand_dense(coords: &[(usize, usize)], radius: i32, w: usize, h: usize, wh: usize) -> (r: Vec<(usize, usize)>)
    requires
        0 < radius <= 0x7FFF,
        coords_small(coords@),
        w > 0,
        h > 0,
        wh == w * h,
    ensures
        r@.no_duplicates(),
        forall|c: (usize, usize)|
            #[trigger] r@.contains(c) <==> near_any(coords@, radius as int, c) && c.0 < w && c.1 < h,
{
    let ghost rr = radius as int;
    let mut seen: Vec<bool> = Vec::new();
    let mut k: usize = 0;
    while k < wh
        invariant
            k <= wh,
            seen@.len() == k,
            forall|j: int| 0 <= j < k ==> !#[trigger] seen@[j],
        decreases wh - k,
    {
        seen.push(false);
        k = k + 1;
    }
    let mut result: Vec<(usize, usize)> = Vec::new();
    assert forall|c: (usize, usize)| c.0 < w && c.1 < h implies (seen@[c.1 * w + c.0]
        <==> #[trigger] result@.contains(c)) by {
        lemma_cell_index(c.0 as int, c.1 as int, w as int, h as int);
    }
    let r: usize = radius as usize;
    let mut i: usize = 0;
    while i < coords.len()
        invariant
            0 < radius <= 0x7FFF,
            rr == radius as int,
            r == rr,
            coords_small(coords@),
            w > 0,
            h > 0,
            wh == w * h,
            seen@.len() == wh,
            i <= coords@.len(),
            result@.no_duplicates(),
            forall|c: (usize, usize)|
                #[trigger] result@.contains(c) ==> near_any(coords@, rr, c) && c.0 < w && c.1 < h,
            forall|c: (usize, usize)|
                c.0 < w && c.1 < h ==> (seen@[c.1 * w + c.0] <==> #[trigger] result@.contains(c)),
            forall|j: int, c: (usize, usize)|
                0 <= j < i && #[trigger] in_square(c, coords@[j], rr) && c.0 < w && c.1 < h ==> result@.contains(c),
        decreases coords@.len() - i,
    {
        let (x, y) = coords[i];
        assert(coords@[i as int] == (x, y));
        let x0: usize = x.saturating_sub(r);
        let y0: usize = y.saturating_sub(r);
        let x1: usize = if x + r < w - 1 {
            x + r
        } else {
            w - 1
        };
        let y1: usize = if y + r < h - 1 {
            y + r
        } else {
            h - 1
        };
        let mut ny: usize = y0;
        while y0 <= y1 && ny <= y1
            invariant
                0 < radius <= 0x7FFF,
                rr == radius as int,
                r == rr,
                coords_small(coords@),
                w > 0,
                h > 0,
                wh == w * h,
                seen@.len() == wh,
                i < coords@.len(),
                coords@[i as int] == (x, y),
                x0 == (if x >= r { x - r } else { 0 }),
                y0 == (if y >= r { y - r } else { 0 }),
                x1 == (if x + r < w - 1 { x + r } else { w - 1 }),
                y1 == (if y + r < h - 1 { y + r } else { h - 1 }),
                y0 <= ny,
                y0 <= y1 ==> ny <= y1 + 1,
                y0 > y1 ==> ny == y0,
                result@.no_duplicates(),
                forall|c: (usize, usize)|
                    #[trigger] result@.contains(c) ==> near_any(coords@, rr, c) && c.0 < w && c.1 < h,
                forall|c: (usize, usize)|
                    c.0 < w && c.1 < h ==> (seen@[c.1 * w + c.0] <==> #[trigger] result@.contains(c)),
                forall|j: int, c: (usize, usize)|
                    0 <= j < i && #[trigger] in_square(c, coords@[j], rr) && c.0 < w && c.1 < h
                        ==> result@.contains(c),
                forall|c: (usize, usize)|
                    x0 <= c.0 <= x1 && y0 <= c.1 < ny ==> #[trigger] result@.contains(c),
            decreases y1 + 1 - ny + (if y0 > y1 { 1int } else { 0int }),
        {
            proof {
                lemma_cell_index(0, ny as int, w as int, h as int);
            }
            let row: usize = ny * w;
            let mut nx: usize = x0;
            while x0 <= x1 && nx <= x1
                invariant
                    0 < radius <= 0x7FFF,
                    rr == radius as int,
                    r == rr,
                    coords_small(coords@),
                    w > 0,
                    h > 0,
                    wh == w * h,
                    seen@.len() == wh,
                    i < coords@.len(),
                    coords@[i as int] == (x, y),
                    x0 == (if x >= r { x - r } else { 0 }),
                    y0 == (if y >= r { y - r } else { 0 }),
                    x1 == (if x + r < w - 1 { x + r } else { w - 1 }),
                    y1 == (if y + r < h - 1 { y + r } else { h - 1 }),
                    y0 <= ny <= y1,
                    row == ny * w,
                    x0 <= nx,
                    x0 <= x1 ==> nx <= x1 + 1,
                    x0 > x1 ==> nx == x0,
                    result@.no_duplicates(),
                    forall|c: (usize, usize)|
                        #[trigger] result@.contains(c) ==> near_any(coords@, rr, c) && c.0 < w && c.1 < h,
                    forall|c: (usize, usize)|
                        c.0 < w && c.1 < h ==> (seen@[c.1 * w + c.0] <==> #[trigger] result@.contains(c)),
                    forall|j: int, c: (usize, usize)|
                        0 <= j < i && #[trigger] in_square(c, coords@[j], rr) && c.0 < w && c.1 < h
                            ==> result@.contains(c),
                    forall|c: (usize, usize)|
                        x0 <= c.0 <= x1 && (y0 <= c.1 < ny || (c.1 == ny && c.0 < nx))
                            ==> #[trigger] result@.contains(c),
                decreases x1 + 1 - nx + (if x0 > x1 { 1int } else { 0int }),
            {
                let c: (usize, usize) = (nx, ny);
                proof {
                    lemma_cell_index(nx as int, ny as int, w as int, h as int);
                }
                let idx: usize = row + nx;
                assert(in_square(c, coords@[i as int], rr));
                if !seen[idx] {
                    let ghost before = result@;
                    let ghost sb = seen@;
                    assert(!before.contains(c));
                    seen.set(idx, true);
                    result.push(c);
                    assert(result@ == before.push(c));
                    assert forall|d: (usize, usize)| d.0 < w && d.1 < h implies (seen@[d.1 * w + d.0]
                        <==> #[trigger] result@.contains(d)) by {
                        lemma_cell_index(d.0 as int, d.1 as int, w as int, h as int);
                        if d == c {
                            assert(result@[before.len() as int] == c);
                        } else {
                            if d.1 * w + d.0 == idx {
                                lemma_cell_index_injective(d, c, w as int);
                            }
                            assert(seen@[d.1 * w + d.0] == sb[d.1 * w + d.0]);
                            if result@.contains(d) {
                                let q = choose|q: int| 0 <= q < result@.len() && result@[q] == d;
                                assert(before[q] == d);
                            }
                            if before.contains(d) {
                                let q = choose|q: int| 0 <= q < before.len() && before[q] == d;
                                assert(result@[q] == d);
                            }
                        }
                    }
                    assert forall|d: (usize, usize)| #[trigger] result@.contains(d) implies near_any(
                        coords@,
                        rr,
                        d,
                    ) && d.0 < w && d.1 < h by {
                        if !before.contains(d) {
                            let q = choose|q: int| 0 <= q < result@.len() && result@[q] == d;
                            assert(q == before.len());
                        }
                    }
                    assert forall|j: int, d: (usize, usize)|
                        0 <= j < i && #[trigger] in_square(d, coords@[j], rr) && d.0 < w && d.1 < h implies result@.contains(
                        d,
                    ) by {
                        assert(before.contains(d));
                        let q = choose|q: int| 0 <= q < before.len() && before[q] == d;
                        assert(result@[q] == d);
                    }
                    assert forall|d: (usize, usize)|
                        x0 <= d.0 <= x1 && (y0 <= d.1 < ny || (d.1 == ny && d.0 < nx + 1))
                            implies #[trigger] result@.contains(d) by {
                        if d != c {
                            assert(before.contains(d));
                            let q = choose|q: int| 0 <= q < before.len() && before[q] == d;
                            assert(result@[q] == d);
                        } else {
                            assert(result@[before.len() as int] == c);
                        }
                    }
                } else {
                    assert(result@.contains(c));
                }
                nx = nx + 1;
            }
            ny = ny + 1;
        }
        proof {
            assert forall|j: int, c: (usize, usize)|
                0 <= j < i + 1 && #[trigger] in_square(c, coords@[j], rr) && c.0 < w && c.1 < h implies result@.contains(
                c,
            ) by {
                if j == i {
                    assert(x0 <= c.0 <= x1 && y0 <= c.1 <= y1);
                }
            }
        }
        i = i + 1;
    }
    proof {
        assert forall|c: (usize, usize)| near_any(coords@, rr, c) && c.0 < w && c.1 < h implies #[trigger] result@.contains(
            c,
        ) by {
            let j = choose|j: int| 0 <= j < coords@.len() && in_square(c, #[trigger] coords@[j], rr);
        }
    }
    result
}

/// The cells to search around `coords`: `coords` themselves when there are none or the
/// radius is 0; otherwise every cell within `radius` of one of them along both axes, each
/// once. When the squares are estimated to cover the whole grid (see `dense_expansion`),
/// only cells inside the grid are listed.
pub fn expand_neighborhood(grid: &Grid, coords: &[(usize, usize)], radius: i32) -> (r: Vec<(usize, usize)>)
    requires
        0 <= radius <= 0x7FFF,
        coords_small(coords@),
    ensures
        coords@.len() == 0 || radius == 0 ==> r@ == coords@,
        coords@.len() > 0 && radius > 0 ==> r@.no_duplicates() && forall|c: (usize, usize)|
            #[trigger] r@.contains(c) <==> near_any(coords@, radius as int, c) && (dense_expansion(
                grid.spec_width() as int,
                grid.spec_height() as int,
                coords@.len() as int,
                radius as int,
            ) ==> c.0 < grid.spec_width() && c.1 < grid.spec_height()),
{
    if coords.len() == 0 || radius == 0 {
        return vstd::slice::slice_to_vec(coords);
    }
    let side: usize = (2 * radius + 1) as usize;
    assert(side * side <= 0xFFFF_FFFF) by (nonlinear_arith)
        requires
            side <= 0xFFFF,
    ;
    let per_cell: usize = side * side;
    let w = grid.width();
    let h = grid.height();
    if w > 0 && h > 0 {
        if let Some(wh) = w.checked_mul(h) {
            let est: usize = match coords.len().checked_mul(per_cell) {
                Some(e) => e,
                None => usize::MAX,
            };
            if est >= wh {
                return expand_dense(coords, radius, w, h, wh);
            }
        }
    }
    expand_sparse(coords, radius)
}


// ---------------------------------------------------------------------------
// How far from a changed cell a match can see it
// ---------------------------------------------------------------------------

/// The largest `|dx|` or `|dy|` of the first `n` entries of a pattern, 0 for none.
pub open spec fn pattern_extent(p: Seq<(i8, i8, CellType)>, n: int) -> int
    decreases n,
{
    if n <= 0 {
        0
    } else {
        let m = pattern_extent(p, n - 1);
        let e = p[n - 1];
        let a = if e.0 < 0 {
            -e.0
        } else {
            e.0 as int
        };
        let b = if e.1 < 0 {
            -e.1
        } else {
            e.1 as int
        };
        let q = if a > b {
            a
        } else {
            b
        };
        if q > m {
            q
        } else {
            m
        }
    }
}

/// How far a rule reads from its match: its id's length less one without a pattern, else the
/// largest pattern offset; at least its `cam` radius.
pub open spec fn rule_radius(r: Rule) -> int {
    let base = if r.pattern@.len() == 0 {
        if r.id@.len() >= 1 {
            r.id@.len() - 1
        } else {
            0
        }
    } else {
        pattern_extent(r.pattern@, r.pattern@.len() as int)
    };
    match r.cam {
        Some(c) => if c.radius > base {
            c.radius as int
        } else {
            base
        },
        None => base,
    }
}

/// The largest `rule_radius` of the first `n` rules, 0 for none.
pub open spec fn rules_radius(rs: Seq<Rule>, n: int) -> int
    decreases n,
{
    if n <= 0 {
        0
    } else {
        let m = rules_radius(rs, n - 1);
        let q = rule_radius(rs[n - 1]);
        if q > m {
            q
        } else {
            m
        }
    }
}

/// The largest `rule_radius` of the rules of the heads below `h`, 0 for none.
pub open spec fn index_radius(index: RuleIndex, h: int) -> int
    decreases h,
{
    if h <= 0 {
        0
    } else {
        let m = index_radius(index, h - 1);
        let q = rules_radius(index.rules_of(h - 1), index.rules_of(h - 1).len() as int);
        if q > m {
            q
        } else {
            m
        }
    }
}

/// The largest distance at which any of `rules` reads from its match (see `rule_radius`).
pub fn pattern_radius(rules: &[Rule]) -> (r: i32)
    requires
        rules_in_bounds(rules@),
    ensures
        r as int == rules_radius(rules@, rules@.len() as int),
        0 <= r <= coord_bound(),
{
    let mut max_r: i32 = 0;
    let mut k: usize = 0;
    while k < rules.len()
        invariant
            rules_in_bounds(rules@),
            k <= rules@.len(),
            max_r as int == rules_radius(rules@, k as int),
            0 <= max_r <= coord_bound(),
        decreases rules@.len() - k,
    {
        let rule = &rules[k];
        assert(rule_in_bounds(rules@[k as int]));
        let mut base: i32 = 0;
        if rule.pattern.len() == 0 {
            if rule.id.len() >= 1 {
                base = (rule.id.len() - 1) as i32;
            }
        } else {
            let mut t: usize = 0;
            while t < rule.pattern.len()
                invariant
                    t <= rule.pattern@.len(),
                    base as int == pattern_extent(rule.pattern@, t as int),
                    0 <= base <= 128,
                decreases rule.pattern@.len() - t,
            {
                let (dx, dy, _) = rule.pattern[t];
                let a: i32 = if dx < 0 {
                    -(dx as i32)
                } else {
                    dx as i32
                };
                let b: i32 = if dy < 0 {
                    -(dy as i32)
                } else {
                    dy as i32
                };
                let q = if a > b {
                    a
                } else {
                    b
                };
                if q > base {
                    base = q;
                }
                t += 1;
            }
        }
        let rr = match rule.cam {
            Some(c) => if c.radius as i32 > base {
                c.radius as i32
            } else {
                base
            },
            None => base,
        };
        assert(rr as int == rule_radius(rules@[k as int]));
        if rr > max_r {
            max_r = rr;
        }
        k += 1;
    }
    max_r
}

/// The largest reading distance over every rule of the index.
pub fn max_pattern_radius(index: &RuleIndex) -> (r: i32)
    requires
        index_in_bounds(*index),
    ensures
        r as int == index_radius(*index, 256),
{
    let mut m: i32 = 0;
    let mut h: usize = 0;
    while h < 256
        invariant
            index_in_bounds(*index),
            h <= 256,
            m as int == index_radius(*index, h as int),
            0 <= m <= coord_bound(),
        decreases 256 - h,
    {
        let rules = index.rules(h as u8);
        proof {
            assert forall|k: int| 0 <= k < rules@.len() implies rule_in_bounds(#[trigger] rules@[k]) by {
                assert(rule_in_bounds(index.rules_of(h as int)[k]));
            }
        }
        let q = pattern_radius(rules);
        if q > m {
            m = q;
        }
        h += 1;
    }
    m
}

/// The reading distance of the rules of the default cell type.
pub fn zero_head_radius(index: &RuleIndex) -> (r: i32)
    requires
        index_in_bounds(*index),
    ensures
        r as int == rules_radius(
            index.rules_of(DEFAULT_CELL_VALUE as int),
            index.rules_of(DEFAULT_CELL_VALUE as int).len() as int,
        ),
{
    let rules = index.rules(DEFAULT_CELL_VALUE);
    proof {
        assert forall|k: int| 0 <= k < rules@.len() implies rule_in_bounds(#[trigger] rules@[k]) by {
            assert(rule_in_bounds(index.rules_of(DEFAULT_CELL_VALUE as int)[k]));
        }
    }
    pattern_radius(rules)
}

/// Head `h` has a rule that waits for its cell to age.
pub open spec fn age_gated(index: RuleIndex, h: int) -> bool {
    exists|k: int| 0 <= k < index.rules_of(h).len() && #[trigger] index.rules_of(h)[k].min_age > 0
}

/// The heads with a rule that waits for its cell to age, in increasing order.
pub fn min_age_gated_types(index: &RuleIndex) -> (r: Vec<CellType>)
    ensures
        forall|t: CellType| #[trigger] r@.contains(t) <==> age_gated(*index, t.0 as int),
        forall|i: int, j: int| 0 <= i < j < r@.len() ==> r@[i].0 < r@[j].0,
{
    let mut out: Vec<CellType> = Vec::new();
    let mut h: usize = 0;
    while h < 256
        invariant
            h <= 256,
            forall|t: CellType| #[trigger] out@.contains(t) <==> (t.0 < h && age_gated(*index, t.0 as int)),
            forall|i: int, j: int| 0 <= i < j < out@.len() ==> out@[i].0 < out@[j].0,
            forall|i: int| 0 <= i < out@.len() ==> out@[i].0 < h,
        decreases 256 - h,
    {
        let rules = index.rules(h as u8);
        let mut gated = false;
        let mut k: usize = 0;
        while k < rules.len()
            invariant
                rules@ == index.rules_of(h as int),
                k <= rules@.len(),
                gated == exists|k2: int| 0 <= k2 < k && #[trigger] rules@[k2].min_age > 0,
            decreases rules@.len() - k,
        {
            if rules[k].min_age > 0 {
                gated = true;
            }
            k += 1;
        }
        let ghost before = out@;
        if gated {
            out.push(CellType(h as u8));
        }
        proof {
            assert forall|t: CellType| #[trigger] out@.contains(t) <==> (t.0 < h + 1 && age_gated(*index, t.0 as int)) by {
                if out@.contains(t) && !before.contains(t) {
                    let q = choose|q: int| 0 <= q < out@.len() && out@[q] == t;
                    assert(q == before.len());
                }
                if before.contains(t) {
                    let q = choose|q: int| 0 <= q < before.len() && before[q] == t;
                    assert(out@[q] == t);
                }
                if t.0 == h && gated {
                    assert(out@[before.len() as int] == t);
                }
            }
        }
        h += 1;
    }
    out
}


// ---------------------------------------------------------------------------
// Which extensions the rules use
// ---------------------------------------------------------------------------

/// Some rule of the index satisfies `f`.
pub open spec fn any_rule(index: RuleIndex, f: spec_fn(Rule) -> bool) -> bool {
    exists|h: int, k: int| 0 <= h < 256 && 0 <= k < index.rules_of(h).len() && f(#[trigger] index.rules_of(h)[k])
}

/// Some rule of the heads below `h` satisfies `f`.
pub open spec fn any_below(index: RuleIndex, h: int, f: spec_fn(Rule) -> bool) -> bool {
    exists|h2: int, k: int| 0 <= h2 < h && 0 <= k < index.rules_of(h2).len() && f(#[trigger] index.rules_of(h2)[k])
}

/// One of the first `n` rules satisfies `f`.
pub open spec fn any_in(rs: Seq<Rule>, n: int, f: spec_fn(Rule) -> bool) -> bool {
    exists|k: int| 0 <= k < n && f(#[trigger] rs[k])
}

proof fn lemma_any_in_step(rs: Seq<Rule>, k: int, f: spec_fn(Rule) -> bool)
    requires
        0 <= k < rs.len(),
    ensures
        any_in(rs, k + 1, f) == (any_in(rs, k, f) || f(rs[k])),
{
    if any_in(rs, k + 1, f) && !f(rs[k]) {
        let k2 = choose|k2: int| 0 <= k2 < k + 1 && f(#[trigger] rs[k2]);
        assert(k2 < k);
    }
}

proof fn lemma_any_below_step(index: RuleIndex, h: int, f: spec_fn(Rule) -> bool)
    requires
        0 <= h,
    ensures
        any_below(index, h + 1, f) == (any_below(index, h, f) || any_in(
            index.rules_of(h),
            index.rules_of(h).len() as int,
            f,
        )),
{
    if any_below(index, h + 1, f) {
        let (h2, k) = choose|h2: int, k: int|
            0 <= h2 < h + 1 && 0 <= k < index.rules_of(h2).len() && f(#[trigger] index.rules_of(h2)[k]);
        if h2 == h {
            assert(f(index.rules_of(h)[k]));
        }
    }
    if any_in(index.rules_of(h), index.rules_of(h).len() as int, f) {
        let k = choose|k: int| 0 <= k < index.rules_of(h).len() && f(#[trigger] index.rules_of(h)[k]);
        assert(f(index.rules_of(h)[k]));
    }
}

proof fn lemma_any_below_all(index: RuleIndex, f: spec_fn(Rule) -> bool)
    ensures
        any_below(index, 256, f) == any_rule(index, f),
{
}

/// Which per-position extensions the rules use, and at which rule positions.
pub struct ExtensionFlags {
    pub starvation_after: bool,
    pub feedback: bool,
    pub memory: bool,
    pub max_activations: bool,
    /// Rule positions (within their head's rules) of the rules that keep position state,
    /// in increasing order.
    pub extension_rule_indices: Vec<usize>,
}

/// Which extensions the rules of `index` use.
pub fn compute_extension_flags(index: &RuleIndex) -> (f: ExtensionFlags)
    ensures
        f.starvation_after == any_rule(*index, |r: Rule| r.starvation_after is Some),
        f.feedback == any_rule(*index, |r: Rule| r.feedback is Some),
        f.memory == any_rule(*index, |r: Rule| r.memory is Some),
        f.max_activations == any_rule(*index, |r: Rule| r.max_activations is Some),
        forall|k: usize| #[trigger] f.extension_rule_indices@.contains(k) <==> extension_index(*index, k),
        forall|i: int, j: int|
            0 <= i < j < f.extension_rule_indices@.len() ==> f.extension_rule_indices@[i] < f.extension_rule_indices@[j],
{
    let mut st = false;
    let mut fb = false;
    let mut mem = false;
    let mut act = false;
    let mut marks: Vec<bool> = Vec::new();
    let mut h: usize = 0;
    while h < 256
        invariant
            h <= 256,
            st == any_below(*index, h as int, |r: Rule| r.starvation_after is Some),
            fb == any_below(*index, h as int, |r: Rule| r.feedback is Some),
            mem == any_below(*index, h as int, |r: Rule| r.memory is Some),
            act == any_below(*index, h as int, |r: Rule| r.max_activations is Some),
            forall|k: int|
                0 <= k < marks@.len() ==> (#[trigger] marks@[k] <==> exists|h2: int|
                    0 <= h2 < h && k < index.rules_of(h2).len() && keeps_position_state(index.rules_of(h2)[k])),
            forall|h2: int, k: int|
                0 <= h2 < h && 0 <= k < index.rules_of(h2).len() && keeps_position_state(
                    #[trigger] index.rules_of(h2)[k],
                ) ==> k < marks@.len(),
        decreases 256 - h,
    {
        let rules = index.rules(h as u8);
        let mut k: usize = 0;
        while k < rules.len()
            invariant
                h < 256,
                rules@ == index.rules_of(h as int),
                k <= rules@.len(),
                st == (any_below(*index, h as int, |r: Rule| r.starvation_after is Some) || any_in(
                    rules@,
                    k as int,
                    |r: Rule| r.starvation_after is Some,
                )),
                fb == (any_below(*index, h as int, |r: Rule| r.feedback is Some) || any_in(
                    rules@,
                    k as int,
                    |r: Rule| r.feedback is Some,
                )),
                mem == (any_below(*index, h as int, |r: Rule| r.memory is Some) || any_in(
                    rules@,
                    k as int,
                    |r: Rule| r.memory is Some,
                )),
                act == (any_below(*index, h as int, |r: Rule| r.max_activations is Some) || any_in(
                    rules@,
                    k as int,
                    |r: Rule| r.max_activations is Some,
                )),
                forall|k2: int|
                    0 <= k2 < marks@.len() ==> (#[trigger] marks@[k2] <==> (exists|h2: int|
                        0 <= h2 < h && k2 < index.rules_of(h2).len() && keeps_position_state(index.rules_of(h2)[k2]))
                        || (k2 < k && keeps_position_state(rules@[k2]))),
                forall|h2: int, k2: int|
                    0 <= h2 < h && 0 <= k2 < index.rules_of(h2).len() && keeps_position_state(
                        #[trigger] index.rules_of(h2)[k2],
                    ) ==> k2 < marks@.len(),
                forall|k2: int| 0 <= k2 < k && keeps_position_state(#[trigger] rules@[k2]) ==> k2 < marks@.len(),
            decreases rules@.len() - k,
        {
            let r = &rules[k];
            st = st || r.starvation_after.is_some();
            fb = fb || r.feedback.is_some();
            mem = mem || r.memory.is_some();
            act = act || r.max_activations.is_some();
            if r.feedback.is_some() || r.memory.is_some() || r.starvation_after.is_some() {
                while marks.len() <= k
                    invariant
                        forall|k2: int|
                            0 <= k2 < marks@.len() ==> (#[trigger] marks@[k2] <==> (exists|h2: int|
                                0 <= h2 < h && k2 < index.rules_of(h2).len() && keeps_position_state(
                                    index.rules_of(h2)[k2],
                                )) || (k2 < k && keeps_position_state(rules@[k2]))),
                        forall|h2: int, k2: int|
                            0 <= h2 < h && 0 <= k2 < index.rules_of(h2).len() && keeps_position_state(
                                #[trigger] index.rules_of(h2)[k2],
                            ) ==> k2 < marks@.len(),
                        forall|k2: int| 0 <= k2 < k && keeps_position_state(#[trigger] rules@[k2]) ==> k2 < marks@.len(),
                    decreases k + 1 - marks@.len(),
                {
                    marks.push(false);
                }
                marks.set(k, true);
            }
            proof {
                lemma_any_in_step(rules@, k as int, |r: Rule| r.starvation_after is Some);
                lemma_any_in_step(rules@, k as int, |r: Rule| r.feedback is Some);
                lemma_any_in_step(rules@, k as int, |r: Rule| r.memory is Some);
                lemma_any_in_step(rules@, k as int, |r: Rule| r.max_activations is Some);
            }
            k += 1;
        }
        proof {
            lemma_any_below_step(*index, h as int, |r: Rule| r.starvation_after is Some);
            lemma_any_below_step(*index, h as int, |r: Rule| r.feedback is Some);
            lemma_any_below_step(*index, h as int, |r: Rule| r.memory is Some);
            lemma_any_below_step(*index, h as int, |r: Rule| r.max_activations is Some);
        }
        h += 1;
    }
    proof {
        lemma_any_below_all(*index, |r: Rule| r.starvation_after is Some);
        lemma_any_below_all(*index, |r: Rule| r.feedback is Some);
        lemma_any_below_all(*index, |r: Rule| r.memory is Some);
        lemma_any_below_all(*index, |r: Rule| r.max_activations is Some);
    }
    let mut indices: Vec<usize> = Vec::new();
    let mut k: usize = 0;
    while k < marks.len()
        invariant
            k <= marks@.len(),
            forall|q: usize| #[trigger] indices@.contains(q) <==> (q < k && marks@[q as int]),
            forall|i: int, j: int| 0 <= i < j < indices@.len() ==> indices@[i] < indices@[j],
            forall|i: int| 0 <= i < indices@.len() ==> indices@[i] < k,
        decreases marks@.len() - k,
    {
        let ghost before = indices@;
        if marks[k] {
            indices.push(k);
        }
        proof {
            assert forall|q: usize| #[trigger] indices@.contains(q) <==> (q < k + 1 && marks@[q as int]) by {
                if indices@.contains(q) && !before.contains(q) {
                    let p = choose|p: int| 0 <= p < indices@.len() && indices@[p] == q;
                    assert(p == before.len());
                }
                if before.contains(q) {
                    let p = choose|p: int| 0 <= p < before.len() && before[p] == q;
                    assert(indices@[p] == q);
                }
                if q == k && marks@[k as int] {
                    assert(indices@[before.len() as int] == q);
                }
            }
        }
        k += 1;
    }
    proof {
        assert forall|q: usize| #[trigger] indices@.contains(q) <==> extension_index(*index, q) by {
            if extension_index(*index, q) {
                let h2 = choose|h2: int|
                    0 <= h2 < 256 && q < index.rules_of(h2).len() && #[trigger] keeps_position_state(
                        index.rules_of(h2)[q as int],
                    );
                assert(q < marks@.len());
            }
        }
    }
    ExtensionFlags { starvation_after: st, feedback: fb, memory: mem, max_activations: act, extension_rule_indices: indices }
}

/// The reading distances and age-gated heads of a rule index, computed once.
pub struct SearchRadiusCache {
    pub min_age_gated_types: Vec<CellType>,
    pub max_pattern_radius: i32,
    pub zero_head_radius: i32,
}

/// The search facts of `index` (see `min_age_gated_types`, `max_pattern_radius`,
/// `zero_head_radius`).
pub fn compute_search_radius_cache(index: &RuleIndex) -> (c: SearchRadiusCache)
    requires
        index_in_bounds(*index),
    ensures
        forall|t: CellType| #[trigger] c.min_age_gated_types@.contains(t) <==> age_gated(*index, t.0 as int),
        forall|i: int, j: int|
            0 <= i < j < c.min_age_gated_types@.len() ==> c.min_age_gated_types@[i].0 < c.min_age_gated_types@[j].0,
        c.max_pattern_radius as int == index_radius(*index, 256),
        c.zero_head_radius as int == rules_radius(
            index.rules_of(DEFAULT_CELL_VALUE as int),
            index.rules_of(DEFAULT_CELL_VALUE as int).len() as int,
        ),
{
    SearchRadiusCache {
        min_age_gated_types: min_age_gated_types(index),
        max_pattern_radius: max_pattern_radius(index),
        zero_head_radius: zero_head_radius(index),
    }
}

} // verus!
