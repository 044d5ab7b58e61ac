//! The integer skeleton of scan conversion: which scanlines a polygon spans,
//! which sides cross each scanline, and the even-odd inside test.
use vstd::prelude::*;
use crate::cyclic::{changes_upto, cyclic_changes, count_true_upto, lemma_cyclic_changes_even};

verus! {

/// Smallest element of a non-empty sequence (0 for the empty one).
pub open spec fn seq_min(s: Seq<usize>) -> int
    decreases s.len(),
{
    if s.len() == 0 {
        0
    } else if s.len() == 1 {
        s[0] as int
    } else {
        let m = seq_min(s.drop_last());
        if s.last() < m {
            s.last() as int
        } else {
            m
        }
    }
}

/// Largest element of a non-empty sequence (0 for the empty one).
pub open spec fn seq_max(s: Seq<usize>) -> int
    decreases s.len(),
{
    if s.len() == 0 {
        0
    } else if s.len() == 1 {
        s[0] as int
    } else {
        let m = seq_max(s.drop_last());
        if s.last() > m {
            s.last() as int
        } else {
            m
        }
    }
}

/// `seq_min` and `seq_max` are the least and greatest elements, and occur in the sequence.
pub proof fn lemma_min_max(s: Seq<usize>)
    requires
        s.len() > 0,
    ensures
        forall|i: int| 0 <= i < s.len() ==> seq_min(s) <= #[trigger] s[i] <= seq_max(s),
        exists|i: int| 0 <= i < s.len() && s[i] == seq_min(s),
        exists|i: int| 0 <= i < s.len() && s[i] == seq_max(s),
    decreases s.len(),
{
    if s.len() > 1 {
        let t = s.drop_last();
        lemma_min_max(t);
        let imin = choose|i: int| 0 <= i < t.len() && t[i] == seq_min(t);
        let imax = choose|i: int| 0 <= i < t.len() && t[i] == seq_max(t);
        assert(s[imin] == t[imin]);
        assert(s[imax] == t[imax]);
        assert forall|i: int| 0 <= i < s.len() implies seq_min(s) <= #[trigger] s[i] <= seq_max(s) by {
            if i < t.len() {
                assert(s[i] == t[i]);
            }
        }
        if s.last() < seq_min(t) {
            assert(s[s.len() - 1] == seq_min(s));
        } else {
            assert(s[imin] == seq_min(s));
        }
        if s.last() > seq_max(t) {
            assert(s[s.len() - 1] == seq_max(s));
        } else {
            assert(s[imax] == seq_max(s));
        }
    } else {
        assert(s[0] == seq_min(s));
    }
}

/// First scanline and number of scanlines of a polygon whose vertices lie on
/// the rows `ys`: the lowest row, and the distance from the lowest to the
/// highest row; `(0, 0)` when there is no vertex.
pub fn get_poly_info(ys: &[usize]) -> (res: (usize, usize))
    ensures
        res.0 == seq_min(ys@),
        res.1 == seq_max(ys@) - seq_min(ys@),
        ys@.len() == 0 ==> res == (0usize, 0usize),
        ys@.len() > 0 ==> (exists|i: int| 0 <= i < ys@.len() && ys@[i] == res.0) && (exists|i: int|
            0 <= i < ys@.len() && ys@[i] == res.0 + res.1),
        forall|i: int| 0 <= i < ys@.len() ==> res.0 <= #[trigger] ys@[i] <= res.0 + res.1,
{
    let n = ys.len();
    if n == 0 {
        return (0, 0);
    }
    let mut lo: usize = ys[0];
    let mut hi: usize = ys[0];
    let mut i: usize = 1;
    assert(ys@.subrange(0, 1) =~= seq![ys@[0]]);
    while i < n
        invariant
            n == ys@.len(),
            1 <= i <= n,
            lo == seq_min(ys@.subrange(0, i as int)),
            hi == seq_max(ys@.subrange(0, i as int)),
        decreases n - i,
    {
        assert(ys@.subrange(0, i + 1).drop_last() =~= ys@.subrange(0, i as int));
        if ys[i] < lo {
            lo = ys[i];
        }
        if ys[i] > hi {
            hi = ys[i];
        }
        i = i + 1;
    }
    assert(ys@.subrange(0, n as int) =~= ys@);
    proof {
        lemma_min_max(ys@);
    }
    (lo, hi - lo)
}

/// One crossing of a scanline by a side of a polygon: side `edge` (from
/// vertex `edge` to the next vertex), `step` rows above its lower end.
#[derive(Clone, Copy, Debug, PartialEq, Eq, Structural)]
pub struct EdgeStep {
    pub edge: usize,
    pub step: usize,
}

/// Index of the vertex after `i` in a closed polygon of `n` vertices.
pub open spec fn next_index(n: int, i: int) -> int {
    if i + 1 == n {
        0
    } else {
        i + 1
    }
}

/// Lower row of side `e`.
pub open spec fn edge_lo(ys: Seq<usize>, e: int) -> int {
    let a = ys[e];
    let b = ys[next_index(ys.len() as int, e)];
    if a <= b {
        a as int
    } else {
        b as int
    }
}

/// Upper row of side `e`.
pub open spec fn edge_hi(ys: Seq<usize>, e: int) -> int {
    let a = ys[e];
    let b = ys[next_index(ys.len() as int, e)];
    if a <= b {
        b as int
    } else {
        a as int
    }
}

/// Side `e` covers the rows `edge_lo .. edge_hi` (its upper row excluded).
pub open spec fn edge_covers(ys: Seq<usize>, e: int, row: int) -> bool {
    edge_lo(ys, e) <= row < edge_hi(ys, e)
}

/// The crossings of row `row` by the sides `0 .. e`, in the order of the sides.
pub open spec fn row_crossings_upto(ys: Seq<usize>, row: int, e: int) -> Seq<EdgeStep>
    decreases e,
{
    if e <= 0 {
        seq![]
    } else {
        row_crossings_upto(ys, row, e - 1) + (if edge_covers(ys, e - 1, row) {
            seq![EdgeStep { edge: (e - 1) as usize, step: (row - edge_lo(ys, e - 1)) as usize }]
        } else {
            seq![]
        })
    }
}

/// The crossings of row `row` by all sides of the closed polygon.
pub open spec fn row_crossings(ys: Seq<usize>, row: int) -> Seq<EdgeStep> {
    row_crossings_upto(ys, row, ys.len() as int)
}

/// The far end of side `e`: vertex `e + 1`, or vertex 0 for the last side.
pub open spec fn far_end(ys: Seq<usize>, e: int) -> usize {
    if e + 1 == ys.len() {
        ys[0]
    } else {
        ys[e + 1]
    }
}

/// What a scanline row of a closed polygon with vertex rows `ys` is, for
/// the row at height `level`: it lists, in increasing order of the sides,
/// exactly the sides `e` whose lower end lies at or below `level` and whose
/// upper end lies above it, each with `step` the number of rows from the
/// side's own lower end up to `level`, whichever way the side runs.
pub open spec fn is_scanline_row(ys: Seq<usize>, level: int, row: Seq<EdgeStep>) -> bool {
    &&& forall|j: int|
        0 <= j < row.len() ==> {
            let e = (#[trigger] row[j]).edge as int;
            let a = ys[e] as int;
            let b = far_end(ys, e) as int;
            &&& 0 <= e < ys.len()
            &&& (a <= level < b && row[j].step == level - a) || (b <= level < a && row[j].step == level
                - b)
        }
    &&& forall|j: int, l: int| 0 <= j < l < row.len() ==> (#[trigger] row[j]).edge < (#[trigger] row[l]).edge
    &&& forall|e: int|
        0 <= e < ys.len() && ((ys[e] <= level < #[trigger] far_end(ys, e)) || (far_end(ys, e) <= level
            < ys[e])) ==> exists|j: int| 0 <= j < row.len() && #[trigger] row[j].edge == e
}

#[verifier::rlimit(40)]
proof fn lemma_row_crossings_upto_props(ys: Seq<usize>, level: int, e: int)
    requires
        0 <= e <= ys.len() <= usize::MAX,
        0 <= level <= usize::MAX,
    ensures
        forall|j: int|
            0 <= j < row_crossings_upto(ys, level, e).len() ==> (#[trigger] row_crossings_upto(
                ys,
                level,
                e,
            )[j]).edge < e,
        forall|j: int|
            0 <= j < row_crossings_upto(ys, level, e).len() ==> {
                let x = #[trigger] row_crossings_upto(ys, level, e)[j];
                let a = ys[x.edge as int] as int;
                let b = far_end(ys, x.edge as int) as int;
                &&& 0 <= x.edge < ys.len()
                &&& (a <= level < b && x.step == level - a) || (b <= level < a && x.step == level - b)
            },
        forall|j: int, l: int|
            0 <= j < l < row_crossings_upto(ys, level, e).len() ==> (#[trigger] row_crossings_upto(
                ys,
                level,
                e,
            )[j]).edge < (#[trigger] row_crossings_upto(ys, level, e)[l]).edge,
        forall|f: int|
            0 <= f < e && ((ys[f] <= level < #[trigger] far_end(ys, f)) || (far_end(ys, f) <= level
                < ys[f])) ==> exists|j: int|
                0 <= j < row_crossings_upto(ys, level, e).len() && #[trigger] row_crossings_upto(
                    ys,
                    level,
                    e,
                )[j].edge == f,
    decreases e,
{
    if e > 0 {
        lemma_row_crossings_upto_props(ys, level, e - 1);
        let a = row_crossings_upto(ys, level, e - 1);
        let c = row_crossings_upto(ys, level, e);
        let f = e - 1;
        assert(next_index(ys.len() as int, f) == (if f + 1 == ys.len() {
            0
        } else {
            f + 1
        }));
        assert(ys[next_index(ys.len() as int, f)] == far_end(ys, f));
        if edge_covers(ys, f, level) {
            let x = EdgeStep { edge: f as usize, step: (level - edge_lo(ys, f)) as usize };
            assert(c == a.push(x));
            assert forall|j: int| 0 <= j < c.len() implies (#[trigger] c[j]).edge < e by {
                if j < a.len() {
                    assert(c[j] == a[j]);
                }
            }
            assert forall|j: int| 0 <= j < c.len() implies {
                let y = #[trigger] c[j];
                let p = ys[y.edge as int] as int;
                let q = far_end(ys, y.edge as int) as int;
                &&& 0 <= y.edge < ys.len()
                &&& (p <= level < q && y.step == level - p) || (q <= level < p && y.step == level - q)
            } by {
                if j < a.len() {
                    assert(c[j] == a[j]);
                } else {
                    assert(c[j] == x);
                }
            }
            assert forall|j: int, l: int| 0 <= j < l < c.len() implies (#[trigger] c[j]).edge < (
            #[trigger] c[l]).edge by {
                if l < a.len() {
                    assert(c[j] == a[j] && c[l] == a[l]);
                } else {
                    assert(c[j] == a[j] && c[l] == x);
                }
            }
            assert forall|g: int|
                0 <= g < e && ((ys[g] <= level < #[trigger] far_end(ys, g)) || (far_end(ys, g) <= level
                    < ys[g])) implies exists|j: int| 0 <= j < c.len() && #[trigger] c[j].edge == g by {
                if g < f {
                    let j = choose|j: int| 0 <= j < a.len() && #[trigger] a[j].edge == g;
                    assert(c[j] == a[j]);
                } else {
                    assert(c[a.len() as int] == x);
                }
            }
        } else {
            assert(c =~= a);
            assert forall|g: int|
                0 <= g < e && ((ys[g] <= level < #[trigger] far_end(ys, g)) || (far_end(ys, g) <= level
                    < ys[g])) implies exists|j: int| 0 <= j < c.len() && #[trigger] c[j].edge == g by {
                if g == f {
                    assert(edge_covers(ys, f, level));
                }
            }
        }
    }
}

/// Every row of the scanline table is the scanline row of the polygon at
/// its height (see `is_scanline_row`).
pub proof fn lemma_row_crossings_are_scanline_rows(ys: Seq<usize>, level: int)
    requires
        ys.len() <= usize::MAX,
        0 <= level <= usize::MAX,
    ensures
        is_scanline_row(ys, level, row_crossings(ys, level)),
{
    lemma_row_crossings_upto_props(ys, level, ys.len() as int);
}

/// Builds the scanline table of a closed polygon whose vertices lie on the
/// rows `ys`: the first row `y_min` and, for each of the `ns` rows above it
/// (as `get_poly_info` gives them), the sides crossing that row in the
/// order of the sides, each with its distance from the side's lower row.
pub fn build_scanlines(ys: &[usize]) -> (res: (usize, Vec<Vec<EdgeStep>>))
    ensures
        res.0 == seq_min(ys@),
        res.1@.len() == seq_max(ys@) - seq_min(ys@),
        forall|r: int|
            0 <= r < res.1@.len() ==> (#[trigger] res.1@[r])@ == row_crossings(
                ys@,
                res.0 + r,
            ),
        ys@.len() > 0 ==> (exists|i: int| 0 <= i < ys@.len() && ys@[i] == res.0) && (exists|i: int|
            0 <= i < ys@.len() && ys@[i] == res.0 + res.1@.len()),
        forall|i: int| 0 <= i < ys@.len() ==> res.0 <= #[trigger] ys@[i] <= res.0 + res.1@.len(),
        ys@.len() == 0 ==> res.0 == 0 && res.1@.len() == 0,
        forall|r: int|
            0 <= r < res.1@.len() ==> is_scanline_row(ys@, res.0 + r, (#[trigger] res.1@[r])@),
{
    let (y_min, ns) = get_poly_info(ys);
    let n = ys.len();
    let mut rows: Vec<Vec<EdgeStep>> = Vec::new();
    let mut r: usize = 0;
    proof {
        if n > 0 {
            lemma_min_max(ys@);
            let im = choose|i: int| 0 <= i < ys@.len() && ys@[i] == seq_max(ys@);
            assert(ys@[im] <= usize::MAX);
        }
    }
    while r < ns
        invariant
            n == ys@.len(),
            y_min == seq_min(ys@),
            ns == seq_max(ys@) - seq_min(ys@),
            n == 0 ==> ns == 0,
            seq_max(ys@) <= usize::MAX,
            r <= ns,
            rows@.len() == r,
            forall|q: int| 0 <= q < r ==> (#[trigger] rows@[q])@ == row_crossings(ys@, y_min + q),
        decreases ns - r,
    {
        let level: usize = y_min + r;
        let mut row: Vec<EdgeStep> = Vec::new();
        let mut e: usize = 0;
        while e < n
            invariant
                n == ys@.len(),
                n > 0,
                level == y_min + r,
                e <= n,
                row@ == row_crossings_upto(ys@, level as int, e as int),
            decreases n - e,
        {
            let a = ys[e];
            let b = ys[if e + 1 == n {
                0
            } else {
                e + 1
            }];
            let lo = if a <= b {
                a
            } else {
                b
            };
            let hi = if a <= b {
                b
            } else {
                a
            };
            if lo <= level && level < hi {
                row.push(EdgeStep { edge: e, step: level - lo });
            }
            assert(row@ =~= row_crossings_upto(ys@, level as int, e + 1));
            e = e + 1;
        }
        rows.push(row);
        r = r + 1;
    }
    proof {
        assert forall|q: int| 0 <= q < rows@.len() implies is_scanline_row(
            ys@,
            y_min + q,
            (#[trigger] rows@[q])@,
        ) by {
            lemma_row_crossings_are_scanline_rows(ys@, y_min + q);
        }
        if n > 0 {
            lemma_min_max(ys@);
        }
    }
    (y_min, rows)
}

/// Flags telling, for each vertex, whether it lies above row `row`.
pub open spec fn above_row(ys: Seq<usize>, row: int) -> Seq<bool> {
    Seq::new(ys.len(), |i: int| ys[i] > row)
}

proof fn lemma_row_crossings_count(ys: Seq<usize>, row: int, e: int)
    requires
        0 <= e < ys.len(),
    ensures
        row_crossings_upto(ys, row, e).len() == changes_upto(above_row(ys, row), e + 1),
    decreases e,
{
    let b = above_row(ys, row);
    if e > 0 {
        lemma_row_crossings_count(ys, row, e - 1);
        assert(next_index(ys.len() as int, e - 1) == e);
        assert(edge_covers(ys, e - 1, row) == (b[e] != b[e - 1]));
    }
}

/// Every scanline of a closed polygon is crossed by an even number of sides,
/// so the crossings pair up into spans.
pub proof fn lemma_row_crossings_even(ys: Seq<usize>, row: int)
    ensures
        row_crossings(ys, row).len() == cyclic_changes(above_row(ys, row)),
        row_crossings(ys, row).len() % 2 == 0,
{
    let n = ys.len() as int;
    let b = above_row(ys, row);
    if n > 0 {
        lemma_row_crossings_count(ys, row, n - 1);
        assert(next_index(n, n - 1) == 0);
        assert(edge_covers(ys, n - 1, row) == (b[n - 1] != b[0]));
        assert(changes_upto(b, n) == changes_upto(b, n - 1 + 1));
    }
    lemma_cyclic_changes_even(b);
}

/// Even-odd rule: a point lies inside a polygon of at least four vertices
/// when a ray from it crosses an odd number of the polygon's sides;
/// `crossings[i]` tells whether the ray crosses the side arriving at vertex `i`.
/// Polygons of fewer than four vertices contain no point.
pub fn point_in_polygon(crossings: &[bool]) -> (inside: bool)
    ensures
        inside == (crossings@.len() >= 4 && count_true_upto(crossings@, crossings@.len() as int)
            % 2 == 1),
{
    let n = crossings.len();
    if n < 4 {
        return false;
    }
    let mut inside = false;
    let mut i: usize = 0;
    while i < n
        invariant
            n == crossings@.len(),
            i <= n,
            inside == (count_true_upto(crossings@, i as int) % 2 == 1),
        decreases n - i,
    {
        if crossings[i] {
            inside = !inside;
        }
        i = i + 1;
    }
    inside
}

proof fn lemma_count_true_flip(b: Seq<bool>, j: int, k: int)
    requires
        0 <= j < b.len(),
        0 <= k <= b.len(),
    ensures
        count_true_upto(b.update(j, !b[j]), k) == if j < k {
            if b[j] {
                count_true_upto(b, k) - 1
            } else {
                count_true_upto(b, k) + 1int
            }
        } else {
            count_true_upto(b, k) as int
        },
        j < k && b[j] ==> count_true_upto(b, k) >= 1,
    decreases k,
{
    if k > 0 {
        lemma_count_true_flip(b, j, k - 1);
        assert(b.update(j, !b[j])[k - 1] == (if k - 1 == j {
            !b[j]
        } else {
            b[k - 1]
        }));
    }
}

/// Moving the probe across one side of the polygon flips the answer: two
/// crossing lists that differ in exactly one flag give opposite results for
/// a polygon of at least four vertices; a ray that crosses no side is outside.
pub proof fn lemma_point_in_polygon_flips(crossings: Seq<bool>, j: int)
    requires
        crossings.len() >= 4,
        0 <= j < crossings.len(),
    ensures
        (count_true_upto(crossings, crossings.len() as int) % 2 == 1) != (count_true_upto(
            crossings.update(j, !crossings[j]),
            crossings.len() as int,
        ) % 2 == 1),
        (forall|i: int| 0 <= i < crossings.len() ==> !#[trigger] crossings[i]) ==> count_true_upto(
            crossings,
            crossings.len() as int,
        ) == 0,
{
    lemma_count_true_flip(crossings, j, crossings.len() as int);
    if forall|i: int| 0 <= i < crossings.len() ==> !#[trigger] crossings[i] {
        lemma_count_true_none(crossings, crossings.len() as int);
    }
}

proof fn lemma_count_true_none(b: Seq<bool>, k: int)
    requires
        0 <= k <= b.len(),
        forall|i: int| 0 <= i < b.len() ==> !#[trigger] b[i],
    ensures
        count_true_upto(b, k) == 0,
    decreases k,
{
    if k > 0 {
        lemma_count_true_none(b, k - 1);
    }
}

} // verus!
