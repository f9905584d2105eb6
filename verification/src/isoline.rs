//! Marching-squares isoline extraction: threshold levels chosen by a
//! percentile split of sampled field values, and per-level contour
//! geometry with saddle disambiguation and shared-edge vertex
//! deduplication.

use vstd::prelude::*;
use vstd::multiset::Multiset;
use std::collections::HashMap;
use crate::draw::Vertex;
use crate::fixed::{COORD_LIMIT, FIELD_LIMIT, MAX_LEVELS, SCALE};
use crate::function::PerlinNoise;
use crate::grid::{lemma_point_in_range, lemma_point_step, Grid};

verus! {

/// Row-major index of lattice node `(ix, iy)` in a node-inclusive sample
/// list (`h + 1` nodes per column).
pub open spec fn node_idx(g: Grid, ix: int, iy: int) -> int {
    ix * (g.dimensions.h + 1) + iy
}

/// Field value at a lattice node, read from a node-inclusive sample list.
pub open spec fn node_val(g: Grid, nodes: Seq<i64>, ix: int, iy: int) -> int {
    nodes[node_idx(g, ix, iy)] as int
}

/// Row-major index of cell `(cx, cy)` in a cell-interior sample list.
pub open spec fn center_idx(g: Grid, cx: int, cy: int) -> int {
    cx * (g.dimensions.h as int) + cy
}

/// Field value at a cell's center, read from a cell-interior sample list.
pub open spec fn center_val(g: Grid, centers: Seq<i64>, cx: int, cy: int) -> int {
    centers[center_idx(g, cx, cy)] as int
}

/// Where the segment `value a at lo -- value b at hi` crosses the
/// threshold `c`: the linear interpolation `hi - (hi - lo) * t` with
/// `t = (c - b) / (a - b)`, computed in fixed point over the magnitudes
/// (the two differences share their sign when the endpoints straddle the
/// threshold).
pub open spec fn solve_spec(a: int, b: int, c: int, lo: int, hi: int) -> int {
    let num = if c >= b {
        c - b
    } else {
        b - c
    };
    let den = if a >= b {
        a - b
    } else {
        b - a
    };
    let t = num * (SCALE as int) / den;
    hi - (hi - lo) * t / (SCALE as int)
}

/// Canonical key of the horizontal lattice edge from node `(ex, ey)` to
/// node `(ex + 1, ey)`. Both cells sharing the edge derive the same key.
pub open spec fn hkey(ex: int, ey: int) -> u64 {
    (65536 * ex + ey) as u64
}

/// Canonical key of the vertical lattice edge from node `(ex, ey)` to
/// node `(ex, ey + 1)`.
pub open spec fn vkey(ex: int, ey: int) -> u64 {
    (0x1_0000_0000 + 65536 * ex + ey) as u64
}

/// Decoding a key recovers the edge it was built from.
pub proof fn lemma_key_decode(ex: int, ey: int)
    requires
        0 <= ex < 65536,
        0 <= ey < 65536,
    ensures
        (hkey(ex, ey) as int) < 0x1_0000_0000,
        (hkey(ex, ey) as int) / 65536 == ex,
        (hkey(ex, ey) as int) % 65536 == ey,
        (vkey(ex, ey) as int) >= 0x1_0000_0000,
        ((vkey(ex, ey) as int) - 0x1_0000_0000) / 65536 == ex,
        ((vkey(ex, ey) as int) - 0x1_0000_0000) % 65536 == ey,
{
    assert(hkey(ex, ey) as int == 65536 * ex + ey);
    assert(vkey(ex, ey) as int == 0x1_0000_0000 + 65536 * ex + ey);
    vstd::arithmetic::div_mod::lemma_div_multiples_vanish_fancy(ex, ey, 65536);
    vstd::arithmetic::div_mod::lemma_mod_multiples_vanish(ex, ey, 65536);
    vstd::arithmetic::div_mod::lemma_small_mod(ey as nat, 65536 as nat);
}

/// The contour point on the lattice edge behind `key`, for threshold `c`:
/// horizontal edges interpolate along x at fixed y, vertical edges along y
/// at fixed x, always reading the edge's endpoint values from the shared
/// node list (never from any one cell's view of them).
pub open spec fn cross_point_v(g: Grid, nodes: Seq<i64>, c: int, key: u64) -> (int, int) {
    let k = key as int;
    if k >= 0x1_0000_0000 {
        let kk = k - 0x1_0000_0000;
        let ex = kk / 65536;
        let ey = kk % 65536;
        let va = node_val(g, nodes, ex, ey);
        let vb = node_val(g, nodes, ex, ey + 1);
        (g.spec_point_x(ex), solve_spec(va, vb, c, g.spec_point_y(ey), g.spec_point_y(ey + 1)))
    } else {
        let ex = k / 65536;
        let ey = k % 65536;
        let va = node_val(g, nodes, ex, ey);
        let vb = node_val(g, nodes, ex + 1, ey);
        (solve_spec(va, vb, c, g.spec_point_x(ex), g.spec_point_x(ex + 1)), g.spec_point_y(ey))
    }
}

/// The emission order of edge keys for one cell at one threshold: the
/// 16 corner sign patterns, with the two saddle patterns split by the
/// cell-center sample. Corners are numbered 0 bottom-left, 1 bottom-right,
/// 2 top-left, 3 top-right; each segment contributes its two edge keys in
/// order.
pub open spec fn cell_keys_v(
    g: Grid,
    nodes: Seq<i64>,
    centers: Seq<i64>,
    c: int,
    cx: int,
    cy: int,
) -> Seq<u64> {
    let b0 = node_val(g, nodes, cx, cy) >= c;
    let b1 = node_val(g, nodes, cx + 1, cy) >= c;
    let b2 = node_val(g, nodes, cx, cy + 1) >= c;
    let b3 = node_val(g, nodes, cx + 1, cy + 1) >= c;
    if b0 != b1 && b2 != b3 && b0 != b2 {
        let bc = center_val(g, centers, cx, cy) >= c;
        if bc != b0 {
            seq![hkey(cx, cy), vkey(cx, cy), vkey(cx + 1, cy), hkey(cx, cy + 1)]
        } else {
            seq![hkey(cx, cy), vkey(cx + 1, cy), vkey(cx, cy), hkey(cx, cy + 1)]
        }
    } else if b0 != b1 && b2 != b0 {
        seq![hkey(cx, cy), vkey(cx, cy)]
    } else if b0 != b1 && b1 != b3 {
        seq![hkey(cx, cy), vkey(cx + 1, cy)]
    } else if b0 != b2 && b2 != b3 {
        seq![vkey(cx, cy), hkey(cx, cy + 1)]
    } else if b2 != b3 && b1 != b3 {
        seq![vkey(cx + 1, cy), hkey(cx, cy + 1)]
    } else if b0 != b1 && b2 != b3 && b0 == b2 {
        seq![hkey(cx, cy), hkey(cx, cy + 1)]
    } else if b0 != b2 && b1 != b3 && b0 == b1 {
        seq![vkey(cx, cy), vkey(cx + 1, cy)]
    } else {
        Seq::empty()
    }
}

/// Keys emitted by the first `n` cells of a level's row-major cell walk.
pub open spec fn cells_keys_prefix(
    g: Grid,
    nodes: Seq<i64>,
    centers: Seq<i64>,
    c: int,
    n: int,
) -> Seq<u64>
    decreases n,
{
    if n <= 0 {
        Seq::empty()
    } else {
        cells_keys_prefix(g, nodes, centers, c, n - 1) + cell_keys_v(
            g,
            nodes,
            centers,
            c,
            (n - 1) / (g.dimensions.h as int),
            (n - 1) % (g.dimensions.h as int),
        )
    }
}

/// All edge keys emitted for one threshold level, in emission order.
pub open spec fn level_keys(g: Grid, nodes: Seq<i64>, centers: Seq<i64>, c: int) -> Seq<u64> {
    cells_keys_prefix(
        g,
        nodes,
        centers,
        c,
        (g.dimensions.w as int) * (g.dimensions.h as int),
    )
}

/// A cell emits at most four keys (two segments), so a prefix of `n`
/// cells emits at most `4 n`.
pub proof fn lemma_cells_keys_prefix_len(g: Grid, nodes: Seq<i64>, centers: Seq<i64>, c: int, n: int)
    requires
        n >= 0,
    ensures
        cells_keys_prefix(g, nodes, centers, c, n).len() <= 4 * n,
    decreases n,
{
    if n > 0 {
        lemma_cells_keys_prefix_len(g, nodes, centers, c, n - 1);
    }
}

/// A cell whose four corner values are all equal emits nothing: every
/// corner classifies the same way against any threshold, so no edge is
/// crossed.
pub proof fn lemma_constant_cell_no_segments(
    g: Grid,
    nodes: Seq<i64>,
    centers: Seq<i64>,
    c: int,
    cx: int,
    cy: int,
)
    requires
        node_val(g, nodes, cx, cy) == node_val(g, nodes, cx + 1, cy),
        node_val(g, nodes, cx, cy) == node_val(g, nodes, cx, cy + 1),
        node_val(g, nodes, cx, cy) == node_val(g, nodes, cx + 1, cy + 1),
    ensures
        cell_keys_v(g, nodes, centers, c, cx, cy) == Seq::<u64>::empty(),
{
}

/// Executable edge crossing; see `solve_spec`. The endpoint values must
/// straddle the threshold (their classifications differ), which keeps the
/// denominator nonzero and the result inside the edge.
fn solve_by_interpolation(a: i64, b: i64, c: i64, lo: i64, hi: i64) -> (r: i64)
    requires
        (a >= c) != (b >= c),
        -FIELD_LIMIT <= a <= FIELD_LIMIT,
        -FIELD_LIMIT <= b <= FIELD_LIMIT,
        -FIELD_LIMIT <= c <= FIELD_LIMIT,
        -COORD_LIMIT <= lo < hi <= COORD_LIMIT,
    ensures
        r == solve_spec(a as int, b as int, c as int, lo as int, hi as int),
        lo <= r <= hi,
{
    let num: i64 = if c >= b {
        c - b
    } else {
        b - c
    };
    let den: i64 = if a >= b {
        a - b
    } else {
        b - a
    };
    proof {
        vstd::arithmetic::mul::lemma_mul_inequality(num as int, den as int, SCALE as int);
        vstd::arithmetic::mul::lemma_mul_nonnegative(num as int, SCALE as int);
        vstd::arithmetic::div_mod::lemma_multiply_divide_le(
            (num as int) * (SCALE as int),
            den as int,
            SCALE as int,
        );
        vstd::arithmetic::div_mod::lemma_div_pos_is_pos((num as int) * (SCALE as int), den as int);
    }
    let t: i64 = ((num as i128) * (SCALE as i128) / (den as i128)) as i64;
    let hl: i64 = hi - lo;
    proof {
        assert(0 <= (hl as int) * (t as int) && (hl as int) * (t as int) <= (SCALE as int) * (
        hl as int)) by (nonlinear_arith)
            requires
                0 <= t <= SCALE as int,
                0 <= hl,
        ;
        vstd::arithmetic::div_mod::lemma_multiply_divide_le(
            (hl as int) * (t as int),
            SCALE as int,
            hl as int,
        );
        vstd::arithmetic::div_mod::lemma_div_pos_is_pos((hl as int) * (t as int), SCALE as int);
    }
    let q: i64 = hl * t / SCALE;
    hi - q
}

/// The field sampled at every cell's lower-left corner, row-major.
pub open spec fn cell_samples(f: PerlinNoise, g: Grid) -> Seq<i64> {
    Seq::new(
        ((g.dimensions.w as int) * (g.dimensions.h as int)) as nat,
        |t: int|
            f.eval_spec(
                g,
                g.spec_point_x(t / (g.dimensions.h as int)),
                g.spec_point_y(t % (g.dimensions.h as int)),
            ) as i64,
    )
}

/// The field sampled at every lattice node (node-inclusive), row-major.
pub open spec fn node_samples(f: PerlinNoise, g: Grid) -> Seq<i64> {
    Seq::new(
        ((g.dimensions.w + 1) * (g.dimensions.h + 1)) as nat,
        |t: int|
            f.eval_spec(
                g,
                g.spec_point_x(t / (g.dimensions.h + 1)),
                g.spec_point_y(t % (g.dimensions.h + 1)),
            ) as i64,
    )
}

/// The field sampled at every cell's center, row-major.
pub open spec fn center_samples(f: PerlinNoise, g: Grid) -> Seq<i64> {
    Seq::new(
        ((g.dimensions.w as int) * (g.dimensions.h as int)) as nat,
        |t: int|
            f.eval_spec(
                g,
                g.spec_point_x(t / (g.dimensions.h as int)) + g.spec_cell_width() / 2,
                g.spec_point_y(t % (g.dimensions.h as int)) + g.spec_cell_height() / 2,
            ) as i64,
    )
}

/// The total order the level selection sorts by.
pub open spec fn i64_leq() -> spec_fn(i64, i64) -> bool {
    |a: i64, b: i64| a <= b
}

/// The sorted rearrangement of a sample sequence.
pub open spec fn sorted_of(s: Seq<i64>) -> Seq<i64> {
    s.sort_by(i64_leq())
}

/// The sorted rank from which level `i` of `cnt` is drawn: the
/// `(i + 1) * len / (cnt + 1)`-th order statistic.
pub open spec fn rank_of(i: int, len: int, cnt: int) -> int {
    (i + 1) * len / (cnt + 1)
}

/// The chosen threshold levels: an even percentile split of the sorted
/// samples.
pub open spec fn select_levels_spec(s: Seq<i64>, cnt: int) -> Seq<i64> {
    Seq::new(cnt as nat, |i: int| sorted_of(s)[rank_of(i, s.len() as int, cnt)])
}

/// Level count after a precision increase.
pub open spec fn inc_count(n: int) -> int {
    n + 1
}

/// Level count after a precision decrease (floored at one level).
pub open spec fn dec_count(n: int) -> int {
    if n <= 1 {
        1
    } else {
        n - 1
    }
}

/// Raising the precision and immediately lowering it restores the
/// original level count, for any extractor holding at least one level.
/// (The threshold values themselves are recomputed from a fresh
/// percentile split both times.)
pub proof fn lemma_precision_round_trip(n: int)
    requires
        n >= 1,
    ensures
        dec_count(inc_count(n)) == n,
{
}

/// Every selection rank lies inside the sample range.
proof fn lemma_rank_in_range(i: int, len: int, cnt: int)
    requires
        0 <= i < cnt,
        1 <= len,
    ensures
        0 <= rank_of(i, len, cnt) < len,
{
    assert(0 <= (i + 1) * len) by (nonlinear_arith)
        requires
            i >= 0,
            len > 0,
    ;
    assert((i + 1) * len < (cnt + 1) * len) by (nonlinear_arith)
        requires
            i < cnt,
            len > 0,
    ;
    vstd::arithmetic::div_mod::lemma_multiply_divide_lt((i + 1) * len, cnt + 1, len);
    vstd::arithmetic::div_mod::lemma_div_pos_is_pos((i + 1) * len, cnt + 1);
}

/// Comparing by `<=` on 64-bit integers is a total order.
proof fn lemma_i64_leq_total()
    ensures
        vstd::relations::total_ordering(i64_leq()),
{
    let leq = i64_leq();
    assert(vstd::relations::reflexive(leq)) by {
        assert(forall|a: i64| #[trigger] leq(a, a));
    }
    assert(vstd::relations::transitive(leq)) by {
        assert(forall|a: i64, b: i64, c: i64|
            #[trigger] leq(a, b) && #[trigger] leq(b, c) ==> leq(a, c));
    }
    assert(vstd::relations::antisymmetric(leq)) by {
        assert(forall|a: i64, b: i64| #[trigger] leq(a, b) && #[trigger] leq(b, a) ==> a == b);
    }
    assert(vstd::relations::strongly_connected(leq)) by {
        assert(forall|a: i64, b: i64| #[trigger] leq(a, b) || #[trigger] leq(b, a));
    }
}

/// Sorts a copy of the samples ascending; the result is exactly the
/// sorted rearrangement `sorted_of` (sorted sequences with equal
/// multisets are unique). Selection sort: repeatedly move the minimum of
/// what remains.
fn sort_values(v: &Vec<i64>) -> (r: Vec<i64>)
    ensures
        r@ == sorted_of(v@),
        r@.len() == v@.len(),
{
    let mut tmp: Vec<i64> = Vec::new();
    let mut i: usize = 0;
    while i < v.len()
        invariant
            0 <= i <= v@.len(),
            tmp@ == v@.subrange(0, i as int),
        decreases v@.len() - i,
    {
        tmp.push(v[i]);
        proof {
            assert(tmp@ =~= v@.subrange(0, i + 1));
        }
        i = i + 1;
    }
    proof {
        assert(tmp@ =~= v@);
        broadcast use vstd::seq_lib::group_to_multiset_ensures;
    }
    let mut out: Vec<i64> = Vec::new();
    while tmp.len() > 0
        invariant
            out@.to_multiset().add(tmp@.to_multiset()) =~= v@.to_multiset(),
            vstd::relations::sorted_by(out@, i64_leq()),
            forall|a: int, b: int|
                0 <= a < out@.len() && 0 <= b < tmp@.len() ==> #[trigger] out@[a]
                    <= #[trigger] tmp@[b],
            out@.len() + tmp@.len() == v@.len(),
        decreases tmp@.len(),
    {
        let mut m: usize = 0;
        let mut k: usize = 1;
        while k < tmp.len()
            invariant
                0 < k <= tmp@.len(),
                0 <= m < k,
                forall|j: int| 0 <= j < k ==> tmp@[m as int] <= #[trigger] tmp@[j],
            decreases tmp@.len() - k,
        {
            if tmp[k] < tmp[m] {
                m = k;
            }
            k = k + 1;
        }
        let ghost tb = tmp@;
        let ghost ob = out@;
        let x = tmp.remove(m);
        out.push(x);
        proof {
            broadcast use vstd::seq_lib::group_to_multiset_ensures;
            assert(x == tb[m as int]);
            assert(tmp@ == tb.remove(m as int));
            assert(tmp@.to_multiset() =~= tb.to_multiset().remove(x));
            assert(out@ == ob.push(x));
            assert(out@.to_multiset() =~= ob.to_multiset().insert(x));
            assert(tb.to_multiset().count(x) > 0) by {
                assert(tb.contains(x));
            }
            assert(out@.to_multiset().add(tmp@.to_multiset()) =~= v@.to_multiset());
            assert forall|b: int| 0 <= b < tmp@.len() implies x <= #[trigger] tmp@[b] by {
                if b < m as int {
                    assert(tmp@[b] == tb[b]);
                } else {
                    assert(tmp@[b] == tb[b + 1]);
                }
            }
            assert forall|a: int, b: int|
                0 <= a < out@.len() && 0 <= b < tmp@.len() implies #[trigger] out@[a]
                <= #[trigger] tmp@[b] by {
                if a < ob.len() {
                    assert(out@[a] == ob[a]);
                    if b < m as int {
                        assert(tmp@[b] == tb[b]);
                        assert(ob[a] <= tb[b]);
                    } else {
                        assert(tmp@[b] == tb[b + 1]);
                        assert(ob[a] <= tb[b + 1]);
                    }
                } else {
                    assert(out@[a] == x);
                }
            }
            assert(vstd::relations::sorted_by(out@, i64_leq())) by {
                assert forall|i2: int, j2: int|
                    0 <= i2 < j2 < out@.len() implies i64_leq()(out@[i2], out@[j2]) by {
                    if j2 < ob.len() {
                        assert(out@[i2] == ob[i2] && out@[j2] == ob[j2]);
                        assert(i64_leq()(ob[i2], ob[j2]));
                    } else {
                        assert(out@[j2] == x);
                        assert(out@[i2] == ob[i2]);
                        assert(ob[i2] <= tb[m as int]);
                    }
                }
            }
        }
    }
    proof {
        broadcast use vstd::seq_lib::group_to_multiset_ensures;
        lemma_i64_leq_total();
        v@.lemma_sort_by_ensures(i64_leq());
        assert(tmp@.to_multiset() =~= Multiset::<i64>::empty());
        assert(out@.to_multiset() =~= v@.to_multiset());
        assert(out@.to_multiset() =~= sorted_of(v@).to_multiset());
        vstd::seq_lib::lemma_sorted_unique(out@, sorted_of(v@), i64_leq());
        assert(sorted_of(v@).to_multiset().len() == sorted_of(v@).len());
        assert(v@.to_multiset().len() == v@.len());
    }
    out
}

/// Picks `cnt` ascending threshold values at evenly spaced ranks of the
/// sorted samples.
fn select_levels(samples: &Vec<i64>, cnt: usize) -> (levels: Vec<i64>)
    requires
        1 <= samples@.len() <= 0x2000_0000,
        1 <= cnt <= MAX_LEVELS,
        forall|i: int| 0 <= i < samples@.len() ==> -FIELD_LIMIT <= #[trigger] samples@[i] <= FIELD_LIMIT,
    ensures
        levels@ == select_levels_spec(samples@, cnt as int),
        levels@.len() == cnt,
        forall|i: int, j: int|
            0 <= i <= j < cnt ==> #[trigger] levels@[i] <= #[trigger] levels@[j],
        forall|i: int| 0 <= i < cnt ==> samples@.contains(#[trigger] levels@[i]),
        forall|i: int| 0 <= i < cnt ==> -FIELD_LIMIT <= #[trigger] levels@[i] <= FIELD_LIMIT,
    {
    let sorted = sort_values(samples);
    let len: usize = samples.len();
    let mut levels: Vec<i64> = Vec::new();
    let mut i: usize = 0;
    proof {
        lemma_i64_leq_total();
        samples@.lemma_sort_by_ensures(i64_leq());
        broadcast use vstd::seq_lib::group_to_multiset_ensures;
    }
    while i < cnt
        invariant
            1 <= len == samples@.len() <= 0x2000_0000,
            1 <= cnt <= MAX_LEVELS,
            sorted@ == sorted_of(samples@),
            sorted@.len() == len,
            0 <= i <= cnt,
            levels@.len() == i,
            forall|j: int| 0 <= j < i ==> #[trigger] levels@[j] == sorted@[rank_of(j, len as int, cnt as int)],
        decreases cnt - i,
    {
        proof {
            assert((i + 1) * (len as int) <= 65_537 * 0x2000_0000) by (nonlinear_arith)
                requires
                    0 <= i < cnt <= 65_536,
                    0 < len <= 0x2000_0000,
            ;
            assert((i + 1) * (len as int) >= 0) by (nonlinear_arith)
                requires
                    i >= 0,
                    len > 0,
            ;
            assert((i + 1) * (len as int) < ((cnt + 1) as int) * (len as int)) by (nonlinear_arith)
                requires
                    0 <= i < cnt,
                    len > 0,
            ;
            vstd::arithmetic::div_mod::lemma_multiply_divide_lt(
                (i + 1) * (len as int),
                (cnt + 1) as int,
                len as int,
            );
            vstd::arithmetic::div_mod::lemma_div_pos_is_pos((i + 1) * (len as int), (cnt + 1) as int);
        }
        let rank64: u64 = ((i as u64) + 1) * (len as u64) / ((cnt as u64) + 1);
        let rank: usize = rank64 as usize;
        levels.push(sorted[rank]);
        i = i + 1;
    }
    proof {
        broadcast use vstd::seq_lib::group_to_multiset_ensures;

        assert(levels@ =~= select_levels_spec(samples@, cnt as int));
        assert forall|a: int, b: int| 0 <= a <= b < cnt implies #[trigger] levels@[a]
            <= #[trigger] levels@[b] by {
            let ra = rank_of(a, len as int, cnt as int);
            let rb = rank_of(b, len as int, cnt as int);
            lemma_rank_in_range(a, len as int, cnt as int);
            lemma_rank_in_range(b, len as int, cnt as int);
            assert((a + 1) * (len as int) <= (b + 1) * (len as int)) by (nonlinear_arith)
                requires
                    a <= b,
                    len > 0,
            ;
            vstd::arithmetic::div_mod::lemma_div_is_ordered(
                (a + 1) * (len as int),
                (b + 1) * (len as int),
                (cnt + 1) as int,
            );
            if ra < rb {
                assert(i64_leq()(sorted@[ra], sorted@[rb]));
            }
        }
        assert forall|a: int| 0 <= a < cnt implies samples@.contains(#[trigger] levels@[a]) by {
            let ra = rank_of(a, len as int, cnt as int);
            lemma_rank_in_range(a, len as int, cnt as int);
            assert(sorted@.contains(sorted@[ra]));
            assert(sorted@.to_multiset().count(sorted@[ra]) > 0);
            assert(samples@.to_multiset().count(sorted@[ra]) > 0);
            assert(samples@.contains(sorted@[ra]));
        }
        assert forall|a: int| 0 <= a < cnt implies -FIELD_LIMIT <= #[trigger] levels@[a]
            <= FIELD_LIMIT by {
            let ra = rank_of(a, len as int, cnt as int);
            lemma_rank_in_range(a, len as int, cnt as int);
            assert(sorted@.contains(sorted@[ra]));
            assert(sorted@.to_multiset().count(sorted@[ra]) > 0);
            assert(samples@.to_multiset().count(sorted@[ra]) > 0);
            assert(samples@.contains(sorted@[ra]));
            let wj = choose|j: int| 0 <= j < samples@.len() && samples@[j] == sorted@[ra];
            assert(-FIELD_LIMIT <= samples@[wj] <= FIELD_LIMIT);
        }
    }
    levels
}

/// The flattened emission list over a sequence of levels: for each level
/// index in order, that level's edge keys tagged with the level index.
/// Vertex deduplication is per level, so entries pair the level's ordinal
/// with the key.
pub open spec fn emissions_prefix(
    g: Grid,
    ns: Seq<i64>,
    cs: Seq<i64>,
    levels: Seq<i64>,
    li: int,
) -> Seq<(int, u64)>
    decreases li,
{
    if li <= 0 {
        Seq::empty()
    } else {
        emissions_prefix(g, ns, cs, levels, li - 1) + level_keys(
            g,
            ns,
            cs,
            levels[li - 1] as int,
        ).map_values(|k: u64| (li - 1, k))
    }
}

/// All emissions of a full extraction pass over every level.
pub open spec fn emissions(g: Grid, ns: Seq<i64>, cs: Seq<i64>, levels: Seq<i64>) -> Seq<(int, u64)> {
    emissions_prefix(g, ns, cs, levels, levels.len() as int)
}

/// Every emission of the first `li` levels is tagged with a level ordinal
/// below `li`.
proof fn lemma_emissions_prefix_levels(g: Grid, ns: Seq<i64>, cs: Seq<i64>, levels: Seq<i64>, li: int)
    requires
        li >= 0,
    ensures
        forall|j: int|
            0 <= j < emissions_prefix(g, ns, cs, levels, li).len() ==> 0 <= (
            #[trigger] emissions_prefix(g, ns, cs, levels, li)[j]).0 < li,
    decreases li,
{
    if li > 0 {
        lemma_emissions_prefix_levels(g, ns, cs, levels, li - 1);
        let prev = emissions_prefix(g, ns, cs, levels, li - 1);
        let tail = level_keys(g, ns, cs, levels[li - 1] as int).map_values(|k: u64| (li - 1, k));
        assert forall|j: int|
            0 <= j < emissions_prefix(g, ns, cs, levels, li).len() implies 0 <= (
        #[trigger] emissions_prefix(g, ns, cs, levels, li)[j]).0 < li by {
            if j < prev.len() {
                assert(emissions_prefix(g, ns, cs, levels, li)[j] == prev[j]);
            } else {
                assert(emissions_prefix(g, ns, cs, levels, li)[j] == tail[j - prev.len()]);
            }
        }
    }
}

/// The first `li` levels emit at most `4 * w * h * li` entries.
proof fn lemma_emissions_prefix_len(g: Grid, ns: Seq<i64>, cs: Seq<i64>, levels: Seq<i64>, li: int)
    requires
        li >= 0,
        g.dimensions.wf(),
    ensures
        emissions_prefix(g, ns, cs, levels, li).len() <= 4 * ((g.dimensions.w as int) * (
        g.dimensions.h as int)) * li,
    decreases li,
{
    let wh = (g.dimensions.w as int) * (g.dimensions.h as int);
    if li > 0 {
        lemma_emissions_prefix_len(g, ns, cs, levels, li - 1);
        assert(wh >= 1) by (nonlinear_arith)
            requires
                1 <= g.dimensions.w,
                1 <= g.dimensions.h,
                wh == (g.dimensions.w as int) * (g.dimensions.h as int),
        ;
        lemma_cells_keys_prefix_len(g, ns, cs, levels[li - 1] as int, wh);
        assert(4 * wh * (li - 1) + 4 * wh == 4 * wh * li) by (nonlinear_arith);
    } else {
        assert(4 * wh * li >= 0) by (nonlinear_arith)
            requires
                li == 0,
        ;
    }
}

/// Bounds for the node, center and key indices a cell's extraction uses.
proof fn lemma_cell_bounds(g: Grid, cx: int, cy: int)
    requires
        g.wf(),
        0 <= cx < g.dimensions.w,
        0 <= cy < g.dimensions.h,
    ensures
        0 <= node_idx(g, cx, cy) < (g.dimensions.w + 1) * (g.dimensions.h + 1),
        0 <= node_idx(g, cx + 1, cy) < (g.dimensions.w + 1) * (g.dimensions.h + 1),
        0 <= node_idx(g, cx, cy + 1) < (g.dimensions.w + 1) * (g.dimensions.h + 1),
        0 <= node_idx(g, cx + 1, cy + 1) < (g.dimensions.w + 1) * (g.dimensions.h + 1),
        node_idx(g, cx + 1, cy + 1) < 0x4000_0000,
        0 <= center_idx(g, cx, cy) < (g.dimensions.w as int) * (g.dimensions.h as int),
        center_idx(g, cx, cy) < 0x4000_0000,
        node_idx(g, cx, cy) == cx * (g.dimensions.h + 1) + cy,
        center_idx(g, cx, cy) == cx * (g.dimensions.h as int) + cy,
{
    let w = g.dimensions.w as int;
    let h = g.dimensions.h as int;
    assert(0 <= cx * (h + 1) + cy && (cx + 1) * (h + 1) + cy + 1 < (w + 1) * (h + 1) && (cx + 1) * (
    h + 1) + cy + 1 < 0x4000_0000 && cx * (h + 1) + cy <= (cx + 1) * (h + 1) + cy && cx * (h + 1)
        + cy + 1 <= (cx + 1) * (h + 1) + cy + 1 && (cx + 1) * (h + 1) + cy <= (cx + 1) * (h + 1)
        + cy + 1 && 0 <= cx * h + cy && cx * h + cy < w * h && cx * h + cy < 0x4000_0000)
        by (nonlinear_arith)
        requires
            0 <= cx < w,
            0 <= cy < h,
            1 <= w <= 16_384,
            1 <= h <= 16_384,
    ;
}

/// Executable canonical key of a horizontal lattice edge.
fn hkey_e(ex: i32, ey: i32) -> (k: u64)
    requires
        0 <= ex < 65536,
        0 <= ey < 65536,
    ensures
        k == hkey(ex as int, ey as int),
{
    65536u64 * (ex as u64) + (ey as u64)
}

/// Executable canonical key of a vertical lattice edge.
fn vkey_e(ex: i32, ey: i32) -> (k: u64)
    requires
        0 <= ex < 65536,
        0 <= ey < 65536,
    ensures
        k == vkey(ex as int, ey as int),
{
    0x1_0000_0000u64 + 65536u64 * (ex as u64) + (ey as u64)
}

/// Derived contour state: threshold levels plus the rebuildable geometry
/// cache (a vertex list, a line-list of paired vertex indices, and the
/// per-level edge-key map that deduplicates shared vertices).
pub struct Isolines {
    c_values: Vec<i64>,
    vertices: Vec<Vertex>,
    indices: Vec<u32>,
    cache: HashMap<u64, u32>,
}

impl Isolines {
    /// The threshold levels.
    pub closed spec fn spec_levels(self) -> Seq<i64> {
        self.c_values@
    }

    /// The accumulated contour vertices.
    pub closed spec fn spec_vertices(self) -> Seq<Vertex> {
        self.vertices@
    }

    /// The accumulated line-list indices (consecutive pairs are segments).
    pub closed spec fn spec_indices(self) -> Seq<u32> {
        self.indices@
    }

    /// The current level's dedup map.
    closed spec fn cache_map(self) -> Map<u64, u32> {
        self.cache@
    }

    /// Every cached index points into the vertex list.
    closed spec fn cache_valid(self) -> bool {
        forall|k: u64|
            self.cache@.contains_key(k) ==> (#[trigger] self.cache@[k] as int)
                < self.vertices@.len()
    }

    /// Every cached edge key maps to the vertex holding that edge's
    /// crossing point for the current level.
    closed spec fn cache_crossings(self, g: Grid, ns: Seq<i64>, ci: int) -> bool {
        forall|k: u64|
            (#[trigger] self.cache@.contains_key(k)) ==> (
            self.vertices@[self.cache@[k] as int].x as int,
            self.vertices@[self.cache@[k] as int].y as int,
            ) == cross_point_v(g, ns, ci, k)
    }

    /// The level's emissions so far: entry `base + j` of the index list is
    /// the cached index of the `j`-th emitted edge key.
    closed spec fn emitted(self, base: int, done: Seq<u64>) -> bool {
        forall|j: int|
            0 <= j < done.len() ==> self.cache@.contains_key(#[trigger] done[j])
                && self.indices@[base + j] as int == self.cache@[done[j]] as int
    }

    /// Looks up the vertex for an edge key, appending a fresh vertex on
    /// the first sighting of the key and reusing the recorded index
    /// afterwards (the arena pattern behind shared-edge deduplication).
    fn add_point(&mut self, key: u64, px: i64, py: i64) -> (idx: u32)
        requires
            old(self).vertices@.len() + 1 < 0x1_0000_0000,
            old(self).cache_valid(),
        ensures
            final(self).c_values@ == old(self).c_values@,
            final(self).indices@ == old(self).indices@,
            final(self).cache_valid(),
            final(self).cache_map().contains_key(key),
            idx == final(self).cache_map()[key],
            (idx as int) < final(self).spec_vertices().len(),
            forall|k: u64|
                (#[trigger] old(self).cache_map().contains_key(k)) ==> final(self).cache_map().contains_key(k) && final(self).cache_map()[k] == old(self).cache_map()[k],
            forall|k: u64|
                (#[trigger] final(self).cache_map().contains_key(k)) ==> old(self).cache_map().contains_key(k) || k == key,
            old(self).vertices@.len() <= final(self).vertices@.len() <= old(self).vertices@.len()
                + 1,
            forall|vi: int|
                0 <= vi < old(self).vertices@.len() ==> final(self).vertices@[vi] == old(self).vertices@[vi],
            !old(self).cache_map().contains_key(key) ==> final(self).vertices@[idx as int]
                == (Vertex { x: px, y: py }),
            old(self).cache_map().contains_key(key) ==> final(self).vertices@ == old(self).vertices@ && idx == old(self).cache_map()[key],
    {
        match self.cache.get(&key) {
            Some(i) => *i,
            None => {
                let i = self.vertices.len() as u32;
                self.vertices.push(Vertex { x: px, y: py });
                self.cache.insert(key, i);
                i
            },
        }
    }

    /// Emits one contour segment: both endpoints go through the dedup
    /// cache and their indices are appended to the line list. The ghost
    /// arguments carry the level context: the grid, the node samples and
    /// the threshold (which pin each edge key's crossing point), the
    /// index-list position where this level's emissions began, and the
    /// keys emitted so far for this level.
    fn emit_segment(
        &mut self,
        k0: u64,
        p0x: i64,
        p0y: i64,
        k1: u64,
        p1x: i64,
        p1y: i64,
        Ghost(g): Ghost<Grid>,
        Ghost(ns): Ghost<Seq<i64>>,
        Ghost(ci): Ghost<int>,
        Ghost(base): Ghost<int>,
        Ghost(done): Ghost<Seq<u64>>,
    )
        requires
            k0 != k1,
            old(self).vertices@.len() + 2 < 0x1_0000_0000,
            old(self).cache_valid(),
            0 <= base,
            old(self).indices@.len() == base + done.len(),
            (p0x as int, p0y as int) == cross_point_v(g, ns, ci, k0),
            (p1x as int, p1y as int) == cross_point_v(g, ns, ci, k1),
            old(self).cache_crossings(g, ns, ci),
            old(self).emitted(base, done),
        ensures
            final(self).c_values@ == old(self).c_values@,
            final(self).cache_valid(),
            final(self).indices@.len() == base + done.len() + 2,
            forall|j: int|
                0 <= j < base ==> #[trigger] final(self).indices@[j] == old(self).indices@[j],
            old(self).vertices@.len() <= final(self).vertices@.len() <= old(self).vertices@.len()
                + 2,
            forall|vi: int|
                0 <= vi < old(self).vertices@.len() ==> #[trigger] final(self).vertices@[vi]
                    == old(self).vertices@[vi],
            final(self).cache_crossings(g, ns, ci),
            final(self).emitted(base, done.push(k0).push(k1)),
    {
        let i0 = self.add_point(k0, p0x, p0y);
        self.indices.push(i0);
        let ghost mid = *self;
        let i1 = self.add_point(k1, p1x, p1y);
        self.indices.push(i1);
        proof {
            let dd = done.push(k0).push(k1);
            assert(self.cache@[k0] == mid.cache@[k0]);
            assert forall|k: u64| old(self).cache_map().contains_key(k) implies self.cache@.contains_key(
                k,
            ) && self.cache@[k] == old(self).cache_map()[k] by {
                assert(mid.cache_map().contains_key(k));
                assert(self.cache@.contains_key(k));
            }
            assert forall|k: u64| #[trigger] self.cache@.contains_key(k) implies (
            self.vertices@[self.cache@[k] as int].x as int,
            self.vertices@[self.cache@[k] as int].y as int,
            ) == cross_point_v(g, ns, ci, k) by {
                if mid.cache_map().contains_key(k) {
                    assert(mid.cache@[k] == self.cache@[k]);
                    if old(self).cache_map().contains_key(k) {
                        assert(mid.cache@[k] == old(self).cache_map()[k]);
                        assert((old(self).vertices@[old(self).cache_map()[k] as int].x as int, old(self).vertices@[old(self).cache_map()[k] as int].y as int) == cross_point_v(
                            g,
                            ns,
                            ci,
                            k,
                        ));
                        assert(mid.vertices@[mid.cache@[k] as int] == old(self).vertices@[old(self).cache_map()[k] as int]);
                    } else {
                        assert(k == k0);
                        assert(mid.vertices@[mid.cache@[k] as int] == (Vertex { x: p0x, y: p0y }));
                    }
                    assert(self.vertices@[self.cache@[k] as int] == mid.vertices@[mid.cache@[k] as int]);
                } else {
                    assert(k == k1);
                    assert(self.vertices@[self.cache@[k] as int] == (Vertex { x: p1x, y: p1y }));
                }
            }
            assert forall|j: int| 0 <= j < done.len() + 2 implies self.cache@.contains_key(
                #[trigger] dd[j],
            ) && self.indices@[base + j] as int == self.cache@[dd[j]] as int by {
                if j < done.len() {
                    assert(old(self).indices@[base + j] == old(self).cache_map()[done[j]]);
                    assert(old(self).cache_map().contains_key(done[j]));
                    assert(mid.cache_map().contains_key(done[j]));
                    assert(mid.cache@[done[j]] == old(self).cache_map()[done[j]]);
                    assert(self.cache@.contains_key(done[j]));
                    assert(self.cache@[done[j]] == mid.cache@[done[j]]);
                    assert(dd[j] == done[j]);
                    assert(self.indices@[base + j] == mid.indices@[base + j]);
                    assert(mid.indices@[base + j] == old(self).indices@[base + j]);
                } else if j == done.len() {
                    assert(dd[j] == k0);
                    assert(self.indices@[base + j] == i0);
                    assert(i0 == mid.cache@[k0]);
                } else {
                    assert(dd[j] == k1);
                    assert(self.indices@[base + j] == i1);
                }
            }
            assert(self.cache_crossings(g, ns, ci));
            assert(dd.len() == done.len() + 2);
            assert forall|j: int| 0 <= j < dd.len() implies self.cache@.contains_key(
                #[trigger] dd[j],
            ) && self.indices@[base + j] as int == self.cache@[dd[j]] as int by {
                assert(0 <= j < done.len() + 2);
                assert(self.indices@[base + j] as int == self.cache@[dd[j]] as int);
            }
            assert(self.emitted(base, dd));
        }
    }

    /// One level's extraction pass: clears the dedup cache, walks every
    /// cell in row-major order, classifies its corners against the
    /// threshold and appends the crossing segments. Appended index-list
    /// entries follow `level_keys` exactly; each one points at the vertex
    /// holding its edge's crossing point, and equal edge keys within the
    /// level share one vertex index (the dedup guarantee).
    pub fn extract_level(&mut self, grid: &Grid, c: i64, nodes: &Vec<i64>, centers: &Vec<i64>)
        requires
            grid.wf(),
            nodes@.len() == (grid.dimensions.w + 1) * (grid.dimensions.h + 1),
            centers@.len() == (grid.dimensions.w as int) * (grid.dimensions.h as int),
            forall|i: int| 0 <= i < nodes@.len() ==> -FIELD_LIMIT <= #[trigger] nodes@[i] <= FIELD_LIMIT,
            -FIELD_LIMIT <= c <= FIELD_LIMIT,
            old(self).spec_vertices().len() + 4 * ((grid.dimensions.w as int) * (
            grid.dimensions.h as int)) + 4 < 0x1_0000_0000,
        ensures
            final(self).spec_levels() == old(self).spec_levels(),
            final(self).spec_indices().len() == old(self).spec_indices().len() + level_keys(
                *grid,
                nodes@,
                centers@,
                c as int,
            ).len(),
            forall|j: int|
                0 <= j < old(self).spec_indices().len() ==> #[trigger] final(self).spec_indices()[j]
                    == old(self).spec_indices()[j],
            forall|vi: int|
                0 <= vi < old(self).spec_vertices().len() ==> #[trigger] final(self).spec_vertices()[vi] == old(self).spec_vertices()[vi],
            old(self).spec_vertices().len() <= final(self).spec_vertices().len(),
            final(self).spec_vertices().len() <= old(self).spec_vertices().len() + level_keys(
                *grid,
                nodes@,
                centers@,
                c as int,
            ).len(),
            forall|j: int|
                0 <= j < level_keys(*grid, nodes@, centers@, c as int).len() ==> (#[trigger] final(self).spec_indices()[old(self).spec_indices().len() + j] as int) < final(self).spec_vertices().len(),
            forall|j: int|
                0 <= j < level_keys(*grid, nodes@, centers@, c as int).len() ==> (#[trigger] final(self).spec_vertices()[final(self).spec_indices()[old(self).spec_indices().len() + j] as int].x
                    as int, final(self).spec_vertices()[final(self).spec_indices()[old(self).spec_indices().len() + j] as int].y as int) == cross_point_v(
                    *grid,
                    nodes@,
                    c as int,
                    level_keys(*grid, nodes@, centers@, c as int)[j],
                ),
            forall|j1: int, j2: int|
                #![trigger level_keys(*grid, nodes@, centers@, c as int)[j1], level_keys(*grid, nodes@, centers@, c as int)[j2]]
                0 <= j1 < level_keys(*grid, nodes@, centers@, c as int).len() && 0 <= j2
                    < level_keys(*grid, nodes@, centers@, c as int).len() && level_keys(
                    *grid,
                    nodes@,
                    centers@,
                    c as int,
                )[j1] == level_keys(*grid, nodes@, centers@, c as int)[j2] ==> final(self).spec_indices()[old(self).spec_indices().len() + j1] == final(self).spec_indices()[old(self).spec_indices().len() + j2],
    {
        self.cache.clear();
        let w: i32 = grid.dimensions.w;
        let h: i32 = grid.dimensions.h;
        let cw: i64 = grid.get_cell_width();
        let ch: i64 = grid.get_cell_height();
        proof {
            assert(1 <= (w as int) * (h as int) && (w as int) * (h as int) <= 0x2000_0000 && (w + 1)
                * (h + 1) <= 0x2000_0000) by (nonlinear_arith)
                requires
                    1 <= w <= 16_384,
                    1 <= h <= 16_384,
            ;
        }
        let total: i32 = w * h;
        let ghost g = *grid;
        let ghost ns = nodes@;
        let ghost cs = centers@;
        let ghost ci = c as int;
        let ghost pre_i = self.indices@;
        let ghost pre_v = self.vertices@;
        let ghost pre_c = self.c_values@;
        let ghost base = pre_i.len() as int;
        let mut t: i32 = 0;
        while t < total
            invariant
                g == *grid,
                g.wf(),
                w == g.dimensions.w,
                h == g.dimensions.h,
                total as int == (w as int) * (h as int),
                total <= 0x2000_0000,
                cw == g.spec_cell_width(),
                ch == g.spec_cell_height(),
                ns == nodes@,
                cs == centers@,
                ci == c as int,
                -FIELD_LIMIT <= c <= FIELD_LIMIT,
                ns.len() == (w + 1) * (h + 1),
                ns.len() <= 0x2000_0000,
                cs.len() == (w as int) * (h as int),
                forall|i: int| 0 <= i < ns.len() ==> -FIELD_LIMIT <= #[trigger] ns[i] <= FIELD_LIMIT,
                0 <= t <= total,
                base == pre_i.len() as int,
                pre_v.len() + 4 * (total as int) + 4 < 0x1_0000_0000,
                self.c_values@ == pre_c,
                self.indices@.len() == base + cells_keys_prefix(g, ns, cs, ci, t as int).len(),
                forall|j: int| 0 <= j < base ==> #[trigger] self.indices@[j] == pre_i[j],
                forall|vi: int| 0 <= vi < pre_v.len() ==> #[trigger] self.vertices@[vi] == pre_v[vi],
                pre_v.len() <= self.vertices@.len(),
                self.vertices@.len() <= pre_v.len() + cells_keys_prefix(g, ns, cs, ci, t as int).len(),
                self.cache_valid(),
                self.cache_crossings(g, ns, ci),
                self.emitted(base, cells_keys_prefix(g, ns, cs, ci, t as int)),
            decreases total - t,
        {
            let ghost ks_pre = cells_keys_prefix(g, ns, cs, ci, t as int);
            proof {
                lemma_cells_keys_prefix_len(g, ns, cs, ci, t as int);
                vstd::arithmetic::div_mod::lemma_div_pos_is_pos(t as int, h as int);
                assert((w as int) * (h as int) == (h as int) * (w as int)) by (nonlinear_arith);
                vstd::arithmetic::div_mod::lemma_multiply_divide_lt(t as int, h as int, w as int);
                vstd::arithmetic::div_mod::lemma_mod_bound(t as int, h as int);
            }
            let cx: i32 = t / h;
            let cy: i32 = t % h;
            proof {
                lemma_cell_bounds(g, cx as int, cy as int);
                lemma_point_in_range(g, cx as int + 1, cy as int + 1);
                lemma_point_step(g, cx as int, cy as int);
            }
            let p = grid.get_point(cx, cy);
            let x = p.0;
            let yy = p.1;
            let nx = x + cw;
            let ny = yy + ch;
            let v0 = nodes[(cx * (h + 1) + cy) as usize];
            let v1 = nodes[((cx + 1) * (h + 1) + cy) as usize];
            let v2 = nodes[(cx * (h + 1) + cy + 1) as usize];
            let v3 = nodes[((cx + 1) * (h + 1) + cy + 1) as usize];
            let b0 = v0 >= c;
            let b1 = v1 >= c;
            let b2 = v2 >= c;
            let b3 = v3 >= c;
            let ghost ks_cell = cell_keys_v(g, ns, cs, ci, cx as int, cy as int);
            proof {
                lemma_key_decode(cx as int, cy as int);
                lemma_key_decode(cx as int + 1, cy as int);
                lemma_key_decode(cx as int, cy as int + 1);
                assert(v0 as int == node_val(g, ns, cx as int, cy as int));
                assert(v1 as int == node_val(g, ns, cx as int + 1, cy as int));
                assert(v2 as int == node_val(g, ns, cx as int, cy as int + 1));
                assert(v3 as int == node_val(g, ns, cx as int + 1, cy as int + 1));
                assert(x == g.spec_point_x(cx as int));
                assert(yy == g.spec_point_y(cy as int));
                assert(nx == g.spec_point_x(cx as int + 1));
                assert(ny == g.spec_point_y(cy as int + 1));
                assert(self.vertices@.len() + 4 < 0x1_0000_0000);
            }
            if b0 != b1 && b2 != b3 && b0 != b2 {
                let vc = centers[(cx * h + cy) as usize];
                let bc = vc >= c;
                proof {
                    assert(vc as int == center_val(g, cs, cx as int, cy as int));
                }
                let bx = solve_by_interpolation(v0, v1, c, x, nx);
                let lyy = solve_by_interpolation(v0, v2, c, yy, ny);
                let ry = solve_by_interpolation(v1, v3, c, yy, ny);
                let tx2 = solve_by_interpolation(v2, v3, c, x, nx);
                let kb = hkey_e(cx, cy);
                let kl = vkey_e(cx, cy);
                let kr = vkey_e(cx + 1, cy);
                let kt = hkey_e(cx, cy + 1);
                proof {
                    assert((bx as int, yy as int) == cross_point_v(g, ns, ci, kb));
                    assert((x as int, lyy as int) == cross_point_v(g, ns, ci, kl));
                    assert((nx as int, ry as int) == cross_point_v(g, ns, ci, kr));
                    assert((tx2 as int, ny as int) == cross_point_v(g, ns, ci, kt));
                }
                if bc != b0 {
                    self.emit_segment(kb, bx, yy, kl, x, lyy, Ghost(g), Ghost(ns), Ghost(ci), Ghost(base), Ghost(ks_pre));
                    self.emit_segment(kr, nx, ry, kt, tx2, ny, Ghost(g), Ghost(ns), Ghost(ci), Ghost(base), Ghost(ks_pre.push(kb).push(kl)));
                    proof {
                        assert(ks_cell =~= seq![kb, kl, kr, kt]);
                        assert(ks_pre.push(kb).push(kl).push(kr).push(kt) =~= ks_pre + ks_cell);
                    }
                } else {
                    self.emit_segment(kb, bx, yy, kr, nx, ry, Ghost(g), Ghost(ns), Ghost(ci), Ghost(base), Ghost(ks_pre));
                    self.emit_segment(kl, x, lyy, kt, tx2, ny, Ghost(g), Ghost(ns), Ghost(ci), Ghost(base), Ghost(ks_pre.push(kb).push(kr)));
                    proof {
                        assert(ks_cell =~= seq![kb, kr, kl, kt]);
                        assert(ks_pre.push(kb).push(kr).push(kl).push(kt) =~= ks_pre + ks_cell);
                    }
                }
            } else if b0 != b1 && b2 != b0 {
                let bx = solve_by_interpolation(v0, v1, c, x, nx);
                let lyy = solve_by_interpolation(v0, v2, c, yy, ny);
                let kb = hkey_e(cx, cy);
                let kl = vkey_e(cx, cy);
                proof {
                    assert((bx as int, yy as int) == cross_point_v(g, ns, ci, kb));
                    assert((x as int, lyy as int) == cross_point_v(g, ns, ci, kl));
                }
                self.emit_segment(kb, bx, yy, kl, x, lyy, Ghost(g), Ghost(ns), Ghost(ci), Ghost(base), Ghost(ks_pre));
                proof {
                    assert(ks_cell =~= seq![kb, kl]);
                    assert(ks_pre.push(kb).push(kl) =~= ks_pre + ks_cell);
                }
            } else if b0 != b1 && b1 != b3 {
                let bx = solve_by_interpolation(v0, v1, c, x, nx);
                let ry = solve_by_interpolation(v1, v3, c, yy, ny);
                let kb = hkey_e(cx, cy);
                let kr = vkey_e(cx + 1, cy);
                proof {
                    assert((bx as int, yy as int) == cross_point_v(g, ns, ci, kb));
                    assert((nx as int, ry as int) == cross_point_v(g, ns, ci, kr));
                }
                self.emit_segment(kb, bx, yy, kr, nx, ry, Ghost(g), Ghost(ns), Ghost(ci), Ghost(base), Ghost(ks_pre));
                proof {
                    assert(ks_cell =~= seq![kb, kr]);
                    assert(ks_pre.push(kb).push(kr) =~= ks_pre + ks_cell);
                }
            } else if b0 != b2 && b2 != b3 {
                let lyy = solve_by_interpolation(v0, v2, c, yy, ny);
                let tx2 = solve_by_interpolation(v2, v3, c, x, nx);
                let kl = vkey_e(cx, cy);
                let kt = hkey_e(cx, cy + 1);
                proof {
                    assert((x as int, lyy as int) == cross_point_v(g, ns, ci, kl));
                    assert((tx2 as int, ny as int) == cross_point_v(g, ns, ci, kt));
                }
                self.emit_segment(kl, x, lyy, kt, tx2, ny, Ghost(g), Ghost(ns), Ghost(ci), Ghost(base), Ghost(ks_pre));
                proof {
                    assert(ks_cell =~= seq![kl, kt]);
                    assert(ks_pre.push(kl).push(kt) =~= ks_pre + ks_cell);
                }
            } else if b2 != b3 && b1 != b3 {
                let ry = solve_by_interpolation(v1, v3, c, yy, ny);
                let tx2 = solve_by_interpolation(v2, v3, c, x, nx);
                let kr = vkey_e(cx + 1, cy);
                let kt = hkey_e(cx, cy + 1);
                proof {
                    assert((nx as int, ry as int) == cross_point_v(g, ns, ci, kr));
                    assert((tx2 as int, ny as int) == cross_point_v(g, ns, ci, kt));
                }
                self.emit_segment(kr, nx, ry, kt, tx2, ny, Ghost(g), Ghost(ns), Ghost(ci), Ghost(base), Ghost(ks_pre));
                proof {
                    assert(ks_cell =~= seq![kr, kt]);
                    assert(ks_pre.push(kr).push(kt) =~= ks_pre + ks_cell);
                }
            } else if b0 != b1 && b2 != b3 && b0 == b2 {
                let bx = solve_by_interpolation(v0, v1, c, x, nx);
                let tx2 = solve_by_interpolation(v2, v3, c, x, nx);
                let kb = hkey_e(cx, cy);
                let kt = hkey_e(cx, cy + 1);
                proof {
                    assert((bx as int, yy as int) == cross_point_v(g, ns, ci, kb));
                    assert((tx2 as int, ny as int) == cross_point_v(g, ns, ci, kt));
                }
                self.emit_segment(kb, bx, yy, kt, tx2, ny, Ghost(g), Ghost(ns), Ghost(ci), Ghost(base), Ghost(ks_pre));
                proof {
                    assert(ks_cell =~= seq![kb, kt]);
                    assert(ks_pre.push(kb).push(kt) =~= ks_pre + ks_cell);
                }
            } else if b0 != b2 && b1 != b3 && b0 == b1 {
                let lyy = solve_by_interpolation(v0, v2, c, yy, ny);
                let ry = solve_by_interpolation(v1, v3, c, yy, ny);
                let kl = vkey_e(cx, cy);
                let kr = vkey_e(cx + 1, cy);
                proof {
                    assert((x as int, lyy as int) == cross_point_v(g, ns, ci, kl));
                    assert((nx as int, ry as int) == cross_point_v(g, ns, ci, kr));
                }
                self.emit_segment(kl, x, lyy, kr, nx, ry, Ghost(g), Ghost(ns), Ghost(ci), Ghost(base), Ghost(ks_pre));
                proof {
                    assert(ks_cell =~= seq![kl, kr]);
                    assert(ks_pre.push(kl).push(kr) =~= ks_pre + ks_cell);
                }
            } else {
                proof {
                    assert(ks_cell =~= Seq::<u64>::empty());
                    assert(ks_pre + ks_cell =~= ks_pre);
                }
            }
            proof {
                assert(cells_keys_prefix(g, ns, cs, ci, t as int + 1) =~= ks_pre + ks_cell);
            }
            t = t + 1;
        }
        proof {
            let lk = level_keys(g, ns, cs, ci);
            assert(lk == cells_keys_prefix(g, ns, cs, ci, total as int));
            assert forall|j: int| 0 <= j < lk.len() implies (#[trigger] self.indices@[base + j] as int)
                < self.vertices@.len() && (self.vertices@[self.indices@[base + j] as int].x as int,
            self.vertices@[self.indices@[base + j] as int].y as int) == cross_point_v(g, ns, ci, lk[j]) by {
                assert(self.cache@.contains_key(lk[j]));
                assert(self.indices@[base + j] as int == self.cache@[lk[j]] as int);
            }
            assert forall|j1: int, j2: int|
                0 <= j1 < lk.len() && 0 <= j2 < lk.len() && lk[j1] == lk[j2] implies self.indices@[base
                + j1] == self.indices@[base + j2] by {
                assert(self.indices@[base + j1] as int == self.cache@[lk[j1]] as int);
                assert(self.indices@[base + j2] as int == self.cache@[lk[j2]] as int);
            }
        }
    }

    /// The grid's cell-interior sample points evaluated through the field,
    /// in row-major order (one value per cell's lower-left corner).
    pub fn sample_cells(grid: &Grid, function: &PerlinNoise) -> (r: Vec<i64>)
        requires
            grid.wf(),
            grid.exact(),
            function.wf(),
            function.compatible(*grid),
        ensures
            r@ == cell_samples(*function, *grid),
            forall|i: int| 0 <= i < r@.len() ==> -FIELD_LIMIT <= #[trigger] r@[i] <= FIELD_LIMIT,
    {
        let w: i32 = grid.dimensions.w;
        let h: i32 = grid.dimensions.h;
        proof {
            assert(1 <= (w as int) * (h as int) <= 0x2000_0000) by (nonlinear_arith)
                requires
                    1 <= w <= 16_384,
                    1 <= h <= 16_384,
            ;
        }
        let total: i32 = w * h;
        let mut out: Vec<i64> = Vec::new();
        let mut t: i32 = 0;
        while t < total
            invariant
                grid.wf(),
                grid.exact(),
                function.wf(),
                function.compatible(*grid),
                w == grid.dimensions.w,
                h == grid.dimensions.h,
                total as int == (w as int) * (h as int),
                0 <= t <= total,
                out@.len() == t,
                forall|j: int|
                    0 <= j < t ==> #[trigger] out@[j] == cell_samples(*function, *grid)[j],
                forall|j: int| 0 <= j < t ==> -FIELD_LIMIT <= #[trigger] out@[j] <= FIELD_LIMIT,
            decreases total - t,
        {
            proof {
                vstd::arithmetic::div_mod::lemma_div_pos_is_pos(t as int, h as int);
                assert((w as int) * (h as int) == (h as int) * (w as int)) by (nonlinear_arith);
                vstd::arithmetic::div_mod::lemma_multiply_divide_lt(t as int, h as int, w as int);
                vstd::arithmetic::div_mod::lemma_mod_bound(t as int, h as int);
            }
            let p = grid.get_point(t / h, t % h);
            let v = function.get_value(p.0, p.1, grid);
            out.push(v);
            t = t + 1;
        }
        proof {
            assert(out@ =~= cell_samples(*function, *grid));
        }
        out
    }

    /// Builds the extractor for a grid and field: samples the field at
    /// every cell corner and picks `cnt` ascending threshold levels at
    /// evenly spaced ranks of the sorted samples. Exactly `cnt` levels
    /// come out, weakly ascending, each one a sampled field value.
    pub fn new(grid: &Grid, function: &PerlinNoise, cnt: usize) -> (r: Isolines)
        requires
            grid.wf(),
            grid.exact(),
            function.wf(),
            function.compatible(*grid),
            1 <= cnt <= MAX_LEVELS,
        ensures
            r.spec_levels() == select_levels_spec(cell_samples(*function, *grid), cnt as int),
            r.spec_levels().len() == cnt,
            forall|i: int, j: int|
                0 <= i <= j < cnt ==> #[trigger] r.spec_levels()[i] <= #[trigger] r.spec_levels()[j],
            forall|i: int|
                0 <= i < cnt ==> cell_samples(*function, *grid).contains(#[trigger] r.spec_levels()[i]),
            forall|i: int|
                0 <= i < cnt ==> -FIELD_LIMIT <= #[trigger] r.spec_levels()[i] <= FIELD_LIMIT,
            r.spec_vertices() == Seq::<Vertex>::empty(),
            r.spec_indices() == Seq::<u32>::empty(),
    {
        let samples = Self::sample_cells(grid, function);
        proof {
            assert(1 <= (grid.dimensions.w as int) * (grid.dimensions.h as int) <= 0x2000_0000)
                by (nonlinear_arith)
                requires
                    1 <= grid.dimensions.w <= 16_384,
                    1 <= grid.dimensions.h <= 16_384,
            ;

        }
        let c_values = select_levels(&samples, cnt);
        Isolines { c_values, vertices: Vec::new(), indices: Vec::new(), cache: HashMap::new() }
    }

    /// Builds an extractor with explicitly given threshold levels and no
    /// geometry yet.
    pub fn from_levels(levels: Vec<i64>) -> (r: Isolines)
        ensures
            r.spec_levels() == levels@,
            r.spec_vertices() == Seq::<Vertex>::empty(),
            r.spec_indices() == Seq::<u32>::empty(),
    {
        Isolines { c_values: levels, vertices: Vec::new(), indices: Vec::new(), cache: HashMap::new() }
    }

    /// One more threshold level: rebuilds from a fresh percentile split.
    pub fn increase_precision(&mut self, grid: &Grid, function: &PerlinNoise)
        requires
            grid.wf(),
            grid.exact(),
            function.wf(),
            function.compatible(*grid),
            1 <= old(self).spec_levels().len(),
            old(self).spec_levels().len() + 1 <= MAX_LEVELS,
        ensures
            final(self).spec_levels().len() == inc_count(old(self).spec_levels().len() as int),
            final(self).spec_levels() == select_levels_spec(
                cell_samples(*function, *grid),
                inc_count(old(self).spec_levels().len() as int),
            ),
            forall|i: int|
                0 <= i < final(self).spec_levels().len() ==> -FIELD_LIMIT <= #[trigger] final(self).spec_levels()[i] <= FIELD_LIMIT,
            final(self).spec_vertices() == Seq::<Vertex>::empty(),
            final(self).spec_indices() == Seq::<u32>::empty(),
    {
        let cnt = self.c_values.len() + 1;
        *self = Self::new(grid, function, cnt);
    }

    /// One fewer threshold level, floored at one: rebuilds from a fresh
    /// percentile split.
    pub fn decrease_precision(&mut self, grid: &Grid, function: &PerlinNoise)
        requires
            grid.wf(),
            grid.exact(),
            function.wf(),
            function.compatible(*grid),
            old(self).spec_levels().len() <= MAX_LEVELS,
        ensures
            final(self).spec_levels().len() == dec_count(old(self).spec_levels().len() as int),
            final(self).spec_levels() == select_levels_spec(
                cell_samples(*function, *grid),
                dec_count(old(self).spec_levels().len() as int),
            ),
            forall|i: int|
                0 <= i < final(self).spec_levels().len() ==> -FIELD_LIMIT <= #[trigger] final(self).spec_levels()[i] <= FIELD_LIMIT,
            final(self).spec_vertices() == Seq::<Vertex>::empty(),
            final(self).spec_indices() == Seq::<u32>::empty(),
    {
        let len = self.c_values.len();
        let cnt = if len <= 1 { 1 } else { len - 1 };
        *self = Self::new(grid, function, cnt);
    }

    /// The field sampled at every lattice node, row-major node-inclusive.
    pub fn sample_nodes(grid: &Grid, function: &PerlinNoise) -> (r: Vec<i64>)
        requires
            grid.wf(),
            grid.exact(),
            function.wf(),
            function.compatible(*grid),
        ensures
            r@ == node_samples(*function, *grid),
            forall|i: int| 0 <= i < r@.len() ==> -FIELD_LIMIT <= #[trigger] r@[i] <= FIELD_LIMIT,
    {
        let w: i32 = grid.dimensions.w;
        let h: i32 = grid.dimensions.h;
        proof {
            assert(1 <= (w + 1) * (h + 1) <= 0x2000_0000) by (nonlinear_arith)
                requires
                    1 <= w <= 16_384,
                    1 <= h <= 16_384,
            ;
        }
        let total: i32 = (w + 1) * (h + 1);
        let mut out: Vec<i64> = Vec::new();
        let mut t: i32 = 0;
        while t < total
            invariant
                grid.wf(),
                grid.exact(),
                function.wf(),
                function.compatible(*grid),
                w == grid.dimensions.w,
                h == grid.dimensions.h,
                total as int == (w + 1) * (h + 1),
                0 <= t <= total,
                out@.len() == t,
                forall|j: int|
                    0 <= j < t ==> #[trigger] out@[j] == node_samples(*function, *grid)[j],
                forall|j: int| 0 <= j < t ==> -FIELD_LIMIT <= #[trigger] out@[j] <= FIELD_LIMIT,
            decreases total - t,
        {
            proof {
                vstd::arithmetic::div_mod::lemma_div_pos_is_pos(t as int, (h + 1) as int);
                assert(((w + 1) as int) * ((h + 1) as int) == ((h + 1) as int) * ((w + 1) as int))
                    by (nonlinear_arith);
                vstd::arithmetic::div_mod::lemma_multiply_divide_lt(
                    t as int,
                    (h + 1) as int,
                    (w + 1) as int,
                );
                vstd::arithmetic::div_mod::lemma_mod_bound(t as int, (h + 1) as int);
            }
            let p = grid.get_point(t / (h + 1), t % (h + 1));
            let v = function.get_value(p.0, p.1, grid);
            out.push(v);
            t = t + 1;
        }
        proof {
            assert(out@ =~= node_samples(*function, *grid));
        }
        out
    }

    /// The field sampled at every cell's center, row-major.
    pub fn sample_centers(grid: &Grid, function: &PerlinNoise) -> (r: Vec<i64>)
        requires
            grid.wf(),
            grid.exact(),
            function.wf(),
            function.compatible(*grid),
        ensures
            r@ == center_samples(*function, *grid),
            forall|i: int| 0 <= i < r@.len() ==> -FIELD_LIMIT <= #[trigger] r@[i] <= FIELD_LIMIT,
    {
        let w: i32 = grid.dimensions.w;
        let h: i32 = grid.dimensions.h;
        proof {
            assert(1 <= (w as int) * (h as int) <= 0x2000_0000) by (nonlinear_arith)
                requires
                    1 <= w <= 16_384,
                    1 <= h <= 16_384,
            ;
        }
        let total: i32 = w * h;
        let cw = grid.get_cell_width();
        let ch = grid.get_cell_height();
        let mut out: Vec<i64> = Vec::new();
        let mut t: i32 = 0;
        while t < total
            invariant
                grid.wf(),
                grid.exact(),
                function.wf(),
                function.compatible(*grid),
                w == grid.dimensions.w,
                h == grid.dimensions.h,
                cw == grid.spec_cell_width(),
                ch == grid.spec_cell_height(),
                total as int == (w as int) * (h as int),
                0 <= t <= total,
                out@.len() == t,
                forall|j: int|
                    0 <= j < t ==> #[trigger] out@[j] == center_samples(*function, *grid)[j],
                forall|j: int| 0 <= j < t ==> -FIELD_LIMIT <= #[trigger] out@[j] <= FIELD_LIMIT,
            decreases total - t,
        {
            proof {
                vstd::arithmetic::div_mod::lemma_div_pos_is_pos(t as int, h as int);
                assert((w as int) * (h as int) == (h as int) * (w as int)) by (nonlinear_arith);
                vstd::arithmetic::div_mod::lemma_multiply_divide_lt(t as int, h as int, w as int);
                vstd::arithmetic::div_mod::lemma_mod_bound(t as int, h as int);
                lemma_point_in_range(*grid, t as int / (h as int) + 1, t as int % (h as int) + 1);
                lemma_point_step(*grid, t as int / (h as int), t as int % (h as int));
                vstd::arithmetic::div_mod::lemma_div_nonincreasing(cw as int, 2);
                vstd::arithmetic::div_mod::lemma_div_pos_is_pos(cw as int, 2);
                vstd::arithmetic::div_mod::lemma_div_nonincreasing(ch as int, 2);
                vstd::arithmetic::div_mod::lemma_div_pos_is_pos(ch as int, 2);
            }
            let p = grid.get_point(t / h, t % h);
            let mx = p.0 + cw / 2;
            let my = p.1 + ch / 2;
            let v = function.get_value(mx, my, grid);
            out.push(v);
            t = t + 1;
        }
        proof {
            assert(out@ =~= center_samples(*function, *grid));
        }
        out
    }

    /// The built geometry realizes an emission list: the index list has
    /// one entry per emission, each entry indexes a vertex holding that
    /// emission's crossing point for its level, and two emissions of the
    /// same edge within the same level share one vertex index.
    pub open spec fn geometry_matches(
        self,
        g: Grid,
        ns: Seq<i64>,
        es: Seq<(int, u64)>,
        levels: Seq<i64>,
    ) -> bool {
        &&& self.spec_indices().len() == es.len()
        &&& forall|j: int|
            #![trigger self.spec_indices()[j]]
            0 <= j < es.len() ==> (self.spec_indices()[j] as int) < self.spec_vertices().len() && (
            self.spec_vertices()[self.spec_indices()[j] as int].x as int,
            self.spec_vertices()[self.spec_indices()[j] as int].y as int,
            ) == cross_point_v(g, ns, levels[es[j].0] as int, es[j].1)
        &&& forall|j1: int, j2: int|
            #![trigger es[j1], es[j2]]
            0 <= j1 < es.len() && 0 <= j2 < es.len() && es[j1] == es[j2]
                ==> self.spec_indices()[j1] == self.spec_indices()[j2]
    }

    /// Rebuilds the contour geometry for the current levels: the vertex
    /// and index lists are replaced wholesale; for each level in order the
    /// field is classified cell by cell and the crossing segments appended,
    /// with shared-edge vertices deduplicated within the level.
    pub fn process(&mut self, grid: &Grid, function: &PerlinNoise)
        requires
            grid.wf(),
            grid.exact(),
            function.wf(),
            function.compatible(*grid),
            old(self).spec_levels().len() <= MAX_LEVELS,
            forall|i: int|
                0 <= i < old(self).spec_levels().len() ==> -FIELD_LIMIT <= #[trigger] old(self).spec_levels()[i] <= FIELD_LIMIT,
            4 * ((grid.dimensions.w as int) * (grid.dimensions.h as int)) * (old(self).spec_levels().len() as int) + 4 < 0x1_0000_0000,
        ensures
            final(self).spec_levels() == old(self).spec_levels(),
            final(self).geometry_matches(
                *grid,
                node_samples(*function, *grid),
                emissions(
                    *grid,
                    node_samples(*function, *grid),
                    center_samples(*function, *grid),
                    old(self).spec_levels(),
                ),
                old(self).spec_levels(),
            ),
            final(self).spec_vertices().len() <= emissions(
                *grid,
                node_samples(*function, *grid),
                center_samples(*function, *grid),
                old(self).spec_levels(),
            ).len(),
    {
        let nodes = Self::sample_nodes(grid, function);
        let centers = Self::sample_centers(grid, function);
        self.vertices = Vec::new();
        self.indices = Vec::new();
        let ghost g = *grid;
        let ghost ns = nodes@;
        let ghost cs = centers@;
        let ghost lv = self.c_values@;
        let ghost wh = (g.dimensions.w as int) * (g.dimensions.h as int);
        let n_levels: usize = self.c_values.len();
        let mut li: usize = 0;
        while li < n_levels
            invariant
                g == *grid,
                g.wf(),
                g.exact(),
                function.wf(),
                function.compatible(g),
                ns == nodes@,
                cs == centers@,
                ns == node_samples(*function, g),
                cs == center_samples(*function, g),
                forall|i: int| 0 <= i < ns.len() ==> -FIELD_LIMIT <= #[trigger] ns[i] <= FIELD_LIMIT,
                wh == (g.dimensions.w as int) * (g.dimensions.h as int),
                self.c_values@ == lv,
                n_levels == lv.len(),
                n_levels <= MAX_LEVELS,
                forall|i: int| 0 <= i < lv.len() ==> -FIELD_LIMIT <= #[trigger] lv[i] <= FIELD_LIMIT,
                4 * wh * (n_levels as int) + 4 < 0x1_0000_0000,
                0 <= li <= n_levels,
                self.spec_indices().len() == emissions_prefix(g, ns, cs, lv, li as int).len(),
                self.spec_vertices().len() <= emissions_prefix(g, ns, cs, lv, li as int).len(),
                self.geometry_matches(g, ns, emissions_prefix(g, ns, cs, lv, li as int), lv),
            decreases n_levels - li,
        {
            let ghost es_pre = emissions_prefix(g, ns, cs, lv, li as int);
            proof {
                lemma_emissions_prefix_len(g, ns, cs, lv, li as int);
                assert(4 * wh * (li as int) + 4 * wh == 4 * wh * (li as int + 1)) by (nonlinear_arith);
                assert(4 * wh * (li as int + 1) <= 4 * wh * (n_levels as int)) by (nonlinear_arith)
                    requires
                        li as int + 1 <= n_levels as int,
                        wh >= 0,
                ;
                lemma_emissions_prefix_levels(g, ns, cs, lv, li as int);
            }
            let c = self.c_values[li];
            let ghost vpre = *self;
            self.extract_level(grid, c, &nodes, &centers);
            proof {
                let lk = level_keys(g, ns, cs, c as int);
                let tail = lk.map_values(|k: u64| (li as int, k));
                let es_new = emissions_prefix(g, ns, cs, lv, li as int + 1);
                assert(es_new == es_pre + tail);
                assert(tail.len() == lk.len());
                assert(self.spec_indices().len() == es_new.len());
                assert forall|j: int|
                    #![trigger self.spec_indices()[j]]
                    0 <= j < es_new.len() implies (self.spec_indices()[j] as int)
                    < self.spec_vertices().len() && (
                self.spec_vertices()[self.spec_indices()[j] as int].x as int,
                self.spec_vertices()[self.spec_indices()[j] as int].y as int,
                ) == cross_point_v(g, ns, lv[es_new[j].0] as int, es_new[j].1) by {
                    if j < es_pre.len() {
                        assert(es_new[j] == es_pre[j]);
                        assert(self.spec_indices()[j] == vpre.spec_indices()[j]);
                        assert((vpre.spec_indices()[j] as int) < vpre.spec_vertices().len());
                        assert(self.spec_vertices()[vpre.spec_indices()[j] as int] == vpre.spec_vertices()[vpre.spec_indices()[j] as int]);
                    } else {
                        let jj = j - es_pre.len();
                        assert(es_new[j] == tail[jj]);
                        assert(tail[jj] == (li as int, lk[jj]));
                        assert((self.spec_indices()[vpre.spec_indices().len() + jj] as int)
                            < self.spec_vertices().len());
                        assert((self.spec_vertices()[self.spec_indices()[vpre.spec_indices().len()
                            + jj] as int].x as int, self.spec_vertices()[self.spec_indices()[vpre.spec_indices().len()
                            + jj] as int].y as int) == cross_point_v(g, ns, c as int, lk[jj]));
                        assert(lv[li as int] == c);
                    }
                }
                assert forall|j1: int, j2: int|
                    #![trigger es_new[j1], es_new[j2]]
                    0 <= j1 < es_new.len() && 0 <= j2 < es_new.len() && es_new[j1] == es_new[j2]
                    implies self.spec_indices()[j1] == self.spec_indices()[j2] by {
                    if j1 < es_pre.len() && j2 < es_pre.len() {
                        assert(es_new[j1] == es_pre[j1] && es_new[j2] == es_pre[j2]);
                        assert(vpre.spec_indices()[j1] == vpre.spec_indices()[j2]);
                        assert(self.spec_indices()[j1] == vpre.spec_indices()[j1]);
                        assert(self.spec_indices()[j2] == vpre.spec_indices()[j2]);
                    } else if j1 >= es_pre.len() && j2 >= es_pre.len() {
                        let a1 = j1 - es_pre.len();
                        let a2 = j2 - es_pre.len();
                        assert(es_new[j1] == tail[a1] && es_new[j2] == tail[a2]);
                        assert(tail[a1] == (li as int, lk[a1]));
                        assert(tail[a2] == (li as int, lk[a2]));
                        assert(lk[a1] == lk[a2]);
                        assert(self.spec_indices()[vpre.spec_indices().len() + a1]
                            == self.spec_indices()[vpre.spec_indices().len() + a2]);
                    } else if j1 < es_pre.len() {
                        assert(es_new[j1] == es_pre[j1]);
                        assert(0 <= es_pre[j1].0 < li as int);
                        assert(es_new[j2] == tail[j2 - es_pre.len()]);
                        assert(es_new[j2].0 == li as int);
                    } else {
                        assert(es_new[j2] == es_pre[j2]);
                        assert(0 <= es_pre[j2].0 < li as int);
                        assert(es_new[j1] == tail[j1 - es_pre.len()]);
                        assert(es_new[j1].0 == li as int);
                    }
                }
            }
            li = li + 1;
        }
        proof {
            assert(emissions(g, ns, cs, lv) == emissions_prefix(g, ns, cs, lv, lv.len() as int));
        }
    }

    /// The threshold levels, ascending.
    pub fn levels(&self) -> (r: &Vec<i64>)
        ensures
            r@ == self.spec_levels(),
    {
        &self.c_values
    }

    /// The contour vertices built by the last `process`.
    pub fn vertices(&self) -> (r: &Vec<Vertex>)
        ensures
            r@ == self.spec_vertices(),
    {
        &self.vertices
    }

    /// The line-list indices built by the last `process` (consecutive
    /// pairs form segments).
    pub fn indices(&self) -> (r: &Vec<u32>)
        ensures
            r@ == self.spec_indices(),
    {
        &self.indices
    }
}

} // verus!
