//! The decisions of Sutherland-Hodgman clipping against one plane.
//!
//! Clipping a polygon against a plane only needs to know, for each vertex,
//! whether it lies on the inner side. From those flags this module decides
//! which vertices are kept and on which sides an intersection point is
//! inserted; computing the intersection points is left to the caller.
use vstd::prelude::*;
use crate::cyclic::{differs, changes_upto, cyclic_changes, count_true_upto, lemma_cyclic_changes_even};

verus! {

/// One vertex of a clipped polygon.
#[derive(Clone, Copy, Debug, PartialEq, Eq, Structural)]
pub enum ClipStep {
    /// Vertex `i` of the input polygon, which lies inside.
    Keep(usize),
    /// Intersection of the side from vertex `from` to vertex `to` with the plane.
    Cut(usize, usize),
}

/// Index of the vertex before `i` in a closed polygon of `n` vertices.
pub open spec fn prev_index(n: int, i: int) -> int {
    if i == 0 {
        n - 1
    } else {
        i - 1
    }
}

/// Output contributed by vertex `i` (and the side arriving at it):
/// entering the inner side gives the intersection then the vertex, staying
/// inside gives the vertex, leaving gives the intersection, staying outside
/// gives nothing.
pub open spec fn clip_step_spec(inside: Seq<bool>, i: int) -> Seq<ClipStep> {
    let p = prev_index(inside.len() as int, i);
    if inside[i] {
        if !inside[p] {
            seq![ClipStep::Cut(p as usize, i as usize), ClipStep::Keep(i as usize)]
        } else {
            seq![ClipStep::Keep(i as usize)]
        }
    } else if inside[p] {
        seq![ClipStep::Cut(p as usize, i as usize)]
    } else {
        seq![]
    }
}

/// Output contributed by the vertices `0 .. k`, in order.
pub open spec fn clip_plan_upto(inside: Seq<bool>, k: int) -> Seq<ClipStep>
    decreases k,
{
    if k <= 0 {
        seq![]
    } else {
        clip_plan_upto(inside, k - 1) + clip_step_spec(inside, k - 1)
    }
}

/// The clipped polygon for the given inside flags.
pub open spec fn clip_plan(inside: Seq<bool>) -> Seq<ClipStep> {
    clip_plan_upto(inside, inside.len() as int)
}

/// Every step names vertices of the input: a kept vertex lies inside, and a
/// cut lies on a side `prev -> i` whose ends lie on different sides.
pub open spec fn step_valid(inside: Seq<bool>, s: ClipStep) -> bool {
    match s {
        ClipStep::Keep(i) => i < inside.len() && inside[i as int],
        ClipStep::Cut(p, i) => i < inside.len() && p as int == prev_index(inside.len() as int, i as int)
            && inside[p as int] != inside[i as int],
    }
}

/// Number of kept vertices in a plan.
pub open spec fn count_keeps(s: Seq<ClipStep>) -> nat
    decreases s.len(),
{
    if s.len() == 0 {
        0
    } else {
        count_keeps(s.drop_last()) + (if s.last() is Keep {
            1nat
        } else {
            0nat
        })
    }
}

/// Number of intersection points in a plan.
pub open spec fn count_cuts(s: Seq<ClipStep>) -> nat
    decreases s.len(),
{
    if s.len() == 0 {
        0
    } else {
        count_cuts(s.drop_last()) + (if s.last() is Cut {
            1nat
        } else {
            0nat
        })
    }
}

proof fn lemma_counts_append(a: Seq<ClipStep>, b: Seq<ClipStep>)
    ensures
        count_keeps(a + b) == count_keeps(a) + count_keeps(b),
        count_cuts(a + b) == count_cuts(a) + count_cuts(b),
    decreases b.len(),
{
    if b.len() > 0 {
        assert((a + b).drop_last() =~= a + b.drop_last());
        lemma_counts_append(a, b.drop_last());
    } else {
        assert(a + b =~= a);
    }
}

proof fn lemma_step_counts(inside: Seq<bool>, i: int)
    requires
        0 <= i < inside.len(),
    ensures
        count_keeps(clip_step_spec(inside, i)) == (if inside[i] {
            1nat
        } else {
            0nat
        }),
        count_cuts(clip_step_spec(inside, i)) == differs(
            inside[prev_index(inside.len() as int, i)],
            inside[i],
        ),
{
    let b = clip_step_spec(inside, i);
    let e = Seq::<ClipStep>::empty();
    assert(count_keeps(e) == 0 && count_cuts(e) == 0);
    if b.len() == 2 {
        assert(b.drop_last() =~= seq![b[0]]);
        assert(seq![b[0]].drop_last() =~= e);
        assert(count_keeps(seq![b[0]]) == 0);
        assert(count_cuts(seq![b[0]]) == 1);
    } else if b.len() == 1 {
        assert(b.drop_last() =~= e);
    }
}

proof fn lemma_step_valid(inside: Seq<bool>, i: int)
    requires
        0 <= i < inside.len() <= usize::MAX,
    ensures
        forall|j: int|
            0 <= j < clip_step_spec(inside, i).len() ==> step_valid(
                inside,
                #[trigger] clip_step_spec(inside, i)[j],
            ),
{
}

proof fn lemma_plan_upto_valid(inside: Seq<bool>, k: int)
    requires
        0 <= k <= inside.len() <= usize::MAX,
    ensures
        forall|j: int|
            0 <= j < clip_plan_upto(inside, k).len() ==> step_valid(
                inside,
                #[trigger] clip_plan_upto(inside, k)[j],
            ),
    decreases k,
{
    if k > 0 {
        lemma_plan_upto_valid(inside, k - 1);
        lemma_step_valid(inside, k - 1);
        let a = clip_plan_upto(inside, k - 1);
        let b = clip_step_spec(inside, k - 1);
        assert forall|j: int| 0 <= j < (a + b).len() implies step_valid(inside, #[trigger] (a + b)[j]) by {
            if j >= a.len() {
                assert((a + b)[j] == b[j - a.len()]);
            } else {
                assert((a + b)[j] == a[j]);
            }
        }
    }
}

proof fn lemma_plan_upto_counts(inside: Seq<bool>, k: int)
    requires
        1 <= k <= inside.len(),
    ensures
        count_keeps(clip_plan_upto(inside, k)) == count_true_upto(inside, k),
        count_cuts(clip_plan_upto(inside, k)) == differs(inside[0], inside[inside.len() - 1])
            + changes_upto(inside, k),
    decreases k,
{
    let a = clip_plan_upto(inside, k - 1);
    let b = clip_step_spec(inside, k - 1);
    lemma_counts_append(a, b);
    lemma_step_counts(inside, k - 1);
    if k > 1 {
        lemma_plan_upto_counts(inside, k - 1);
    } else {
        assert(a =~= Seq::<ClipStep>::empty());
        assert(count_keeps(a) == 0 && count_cuts(a) == 0);
        assert(count_true_upto(inside, 0) == 0);
    }
    assert(clip_plan_upto(inside, k) == a + b);
    assert(count_keeps(a + b) == count_keeps(a) + count_keeps(b));
    assert(count_true_upto(inside, k) == count_true_upto(inside, k - 1) + (if inside[k - 1] {
        1nat
    } else {
        0nat
    }));
}

/// The vertex a step belongs to: the kept vertex, or the end of the cut side.
pub open spec fn step_vertex(s: ClipStep) -> int {
    match s {
        ClipStep::Keep(i) => i as int,
        ClipStep::Cut(_, i) => i as int,
    }
}

/// Place of a step along the clipped polygon: the intersection on the side
/// arriving at vertex `i` comes right before vertex `i`, and both come after
/// everything that belongs to the vertices before `i`.
pub open spec fn step_rank(s: ClipStep) -> int {
    match s {
        ClipStep::Keep(i) => 2 * i + 1,
        ClipStep::Cut(_, i) => 2 * i,
    }
}

/// Index of the vertex before `i` among `n`, written out.
pub open spec fn before(n: int, i: int) -> int {
    if i == 0 {
        n - 1
    } else {
        i - 1
    }
}

/// Each kept vertex lies inside, and each cut lies on a side `prev -> i`
/// whose ends lie on different sides of the plane.
pub open spec fn steps_on_polygon(inside: Seq<bool>, plan: Seq<ClipStep>) -> bool {
    forall|j: int|
        0 <= j < plan.len() ==> match #[trigger] plan[j] {
            ClipStep::Keep(i) => i < inside.len() && inside[i as int],
            ClipStep::Cut(p, i) => i < inside.len() && p == before(inside.len() as int, i as int)
                && inside[p as int] != inside[i as int],
        }
}

/// Every inner vertex is kept.
pub open spec fn keeps_inner(inside: Seq<bool>, plan: Seq<ClipStep>) -> bool {
    forall|i: int|
        0 <= i < inside.len() && #[trigger] inside[i] ==> exists|j: int|
            0 <= j < plan.len() && #[trigger] plan[j] == ClipStep::Keep(i as usize)
}

/// Every side whose ends lie on different sides of the plane is cut.
pub open spec fn cuts_crossings(inside: Seq<bool>, plan: Seq<ClipStep>) -> bool {
    forall|i: int|
        0 <= i < inside.len() && #[trigger] inside[i] != inside[before(inside.len() as int, i)]
            ==> exists|j: int|
            0 <= j < plan.len() && #[trigger] plan[j] == ClipStep::Cut(
                before(inside.len() as int, i) as usize,
                i as usize,
            )
}

/// What a clipped polygon is, for inside flags `inside`: its steps come in
/// polygon order (`step_rank` strictly increases); each kept vertex lies
/// inside and each cut lies on a side `prev -> i` whose ends lie on
/// different sides of the plane; every inner vertex is kept and every
/// crossing side is cut.
pub open spec fn is_clipping_of(inside: Seq<bool>, plan: Seq<ClipStep>) -> bool {
    &&& ranks_increasing(plan)
    &&& steps_on_polygon(inside, plan)
    &&& keeps_inner(inside, plan)
    &&& cuts_crossings(inside, plan)
}

/// The steps come in strictly increasing rank.
pub open spec fn ranks_increasing(s: Seq<ClipStep>) -> bool {
    forall|j: int, l: int| 0 <= j < l < s.len() ==> step_rank(#[trigger] s[j]) < step_rank(#[trigger] s[l])
}

/// Every step belongs to a vertex below `k`.
pub open spec fn vertices_below(s: Seq<ClipStep>, k: int) -> bool {
    forall|j: int| 0 <= j < s.len() ==> step_vertex(#[trigger] s[j]) < k
}

proof fn lemma_step_shape(inside: Seq<bool>, i: int)
    requires
        0 <= i < inside.len() <= usize::MAX,
    ensures
        clip_step_spec(inside, i).len() <= 2,
        forall|t: int|
            0 <= t < clip_step_spec(inside, i).len() ==> step_vertex(
                #[trigger] clip_step_spec(inside, i)[t],
            ) == i,
        ranks_increasing(clip_step_spec(inside, i)),
        inside[i] ==> clip_step_spec(inside, i).len() >= 1 && clip_step_spec(inside, i)[clip_step_spec(
            inside,
            i,
        ).len() - 1] == ClipStep::Keep(i as usize),
        inside[i] != inside[prev_index(inside.len() as int, i)] ==> clip_step_spec(inside, i).len()
            >= 1 && clip_step_spec(inside, i)[0] == ClipStep::Cut(
            prev_index(inside.len() as int, i) as usize,
            i as usize,
        ),
{
}

proof fn lemma_append_ranked(a: Seq<ClipStep>, b: Seq<ClipStep>, k: int)
    requires
        vertices_below(a, k - 1),
        ranks_increasing(a),
        ranks_increasing(b),
        forall|t: int| 0 <= t < b.len() ==> step_vertex(#[trigger] b[t]) == k - 1,
    ensures
        vertices_below(a + b, k),
        ranks_increasing(a + b),
{
    let c = a + b;
    assert forall|j: int| 0 <= j < c.len() implies step_vertex(#[trigger] c[j]) < k by {
        if j >= a.len() {
            assert(c[j] == b[j - a.len()]);
        } else {
            assert(c[j] == a[j]);
        }
    }
    assert forall|j: int, l: int| 0 <= j < l < c.len() implies step_rank(#[trigger] c[j]) < step_rank(
        #[trigger] c[l],
    ) by {
        if l < a.len() {
            assert(c[j] == a[j] && c[l] == a[l]);
        } else if j < a.len() {
            assert(c[j] == a[j] && c[l] == b[l - a.len()]);
            assert(step_vertex(a[j]) < k - 1);
        } else {
            assert(c[j] == b[j - a.len()] && c[l] == b[l - a.len()]);
        }
    }
}

proof fn lemma_upto_ranked(inside: Seq<bool>, k: int)
    requires
        0 <= k <= inside.len() <= usize::MAX,
    ensures
        vertices_below(clip_plan_upto(inside, k), k),
        ranks_increasing(clip_plan_upto(inside, k)),
    decreases k,
{
    if k > 0 {
        lemma_upto_ranked(inside, k - 1);
        lemma_step_shape(inside, k - 1);
        lemma_append_ranked(clip_plan_upto(inside, k - 1), clip_step_spec(inside, k - 1), k);
    }
}

#[verifier::rlimit(40)]
proof fn lemma_upto_keeps(inside: Seq<bool>, k: int)
    requires
        0 <= k <= inside.len() <= usize::MAX,
    ensures
        forall|i: int|
            0 <= i < k && #[trigger] inside[i] ==> exists|j: int|
                0 <= j < clip_plan_upto(inside, k).len() && #[trigger] clip_plan_upto(inside, k)[j]
                    == ClipStep::Keep(i as usize),
    decreases k,
{
    if k > 0 {
        lemma_upto_keeps(inside, k - 1);
        lemma_step_shape(inside, k - 1);
        let a = clip_plan_upto(inside, k - 1);
        let b = clip_step_spec(inside, k - 1);
        let c = clip_plan_upto(inside, k);
        assert(c == a + b);
        assert forall|i: int| 0 <= i < k && #[trigger] inside[i] implies exists|j: int|
            0 <= j < c.len() && #[trigger] c[j] == ClipStep::Keep(i as usize) by {
            if i < k - 1 {
                let j = choose|j: int| 0 <= j < a.len() && #[trigger] a[j] == ClipStep::Keep(i as usize);
                assert(c[j] == a[j]);
            } else {
                let j = (a.len() + b.len() - 1) as int;
                assert(c[j] == b[b.len() - 1]);
            }
        }
    }
}

#[verifier::rlimit(40)]
proof fn lemma_upto_cuts(inside: Seq<bool>, k: int)
    requires
        0 <= k <= inside.len() <= usize::MAX,
    ensures
        forall|i: int|
            0 <= i < k && #[trigger] inside[i] != inside[prev_index(inside.len() as int, i)]
                ==> exists|j: int|
                0 <= j < clip_plan_upto(inside, k).len() && #[trigger] clip_plan_upto(inside, k)[j]
                    == ClipStep::Cut(prev_index(inside.len() as int, i) as usize, i as usize),
    decreases k,
{
    if k > 0 {
        lemma_upto_cuts(inside, k - 1);
        lemma_step_shape(inside, k - 1);
        let a = clip_plan_upto(inside, k - 1);
        let b = clip_step_spec(inside, k - 1);
        let c = clip_plan_upto(inside, k);
        assert(c == a + b);
        let n = inside.len() as int;
        assert forall|i: int| 0 <= i < k && #[trigger] inside[i] != inside[prev_index(n, i)] implies exists|
            j: int,
        |
            0 <= j < c.len() && #[trigger] c[j] == ClipStep::Cut(prev_index(n, i) as usize, i as usize) by {
            if i < k - 1 {
                let j = choose|j: int|
                    0 <= j < a.len() && #[trigger] a[j] == ClipStep::Cut(prev_index(n, i) as usize, i as usize);
                assert(c[j] == a[j]);
            } else {
                let j = a.len() as int;
                assert(c[j] == b[0]);
            }
        }
    }
}

/// The plan is the clipped polygon: see `is_clipping_of`.
pub proof fn lemma_clip_is_clipping(inside: Seq<bool>)
    requires
        inside.len() <= usize::MAX,
    ensures
        is_clipping_of(inside, clip_plan(inside)),
{
    let n = inside.len() as int;
    let plan = clip_plan(inside);
    lemma_upto_ranked(inside, n);
    lemma_upto_keeps(inside, n);
    lemma_upto_cuts(inside, n);
    lemma_plan_upto_valid(inside, n);
    assert forall|j: int| 0 <= j < plan.len() implies match #[trigger] plan[j] {
        ClipStep::Keep(i) => i < n && inside[i as int],
        ClipStep::Cut(p, i) => i < n && p == before(n, i as int) && inside[p as int] != inside[i as int],
    } by {
        assert(step_valid(inside, plan[j]));
    }
    assert forall|i: int| 0 <= i < n && #[trigger] inside[i] != inside[before(n, i)] implies exists|j: int|
        0 <= j < plan.len() && #[trigger] plan[j] == ClipStep::Cut(before(n, i) as usize, i as usize) by {
        assert(prev_index(n, i) == before(n, i));
        assert(inside[i] != inside[prev_index(n, i)]);
    }
}

/// In a clipped polygon, entering the inner side puts the intersection
/// point right before the vertex it enters at, and leaving it puts the
/// intersection right after the vertex it leaves from: every cut `p -> i`
/// with `i` inside is immediately followed by `i`, and every kept vertex `i`
/// whose predecessor lies outside is immediately preceded by that cut.
#[verifier::rlimit(60)]
pub proof fn lemma_clip_entering_cut_precedes_vertex(inside: Seq<bool>, plan: Seq<ClipStep>)
    requires
        is_clipping_of(inside, plan),
    ensures
        forall|j: int|
            0 <= j < plan.len() && (#[trigger] plan[j] matches ClipStep::Cut(_, i) && inside[i as int])
                ==> j + 1 < plan.len() && plan[j + 1] == ClipStep::Keep(step_vertex(plan[j]) as usize),
        forall|j: int|
            0 <= j < plan.len() && (#[trigger] plan[j] matches ClipStep::Keep(i) && !inside[before(
                inside.len() as int,
                i as int,
            )]) ==> 0 < j && plan[j - 1] == ClipStep::Cut(
                before(inside.len() as int, step_vertex(plan[j])) as usize,
                step_vertex(plan[j]) as usize,
            ),
{
    let n = inside.len() as int;
    assert forall|j: int|
        0 <= j < plan.len() && (#[trigger] plan[j] matches ClipStep::Cut(_, i) && inside[i as int]) implies j + 1
        < plan.len() && plan[j + 1] == ClipStep::Keep(step_vertex(plan[j]) as usize) by {
        let i = step_vertex(plan[j]);
        assert(0 <= i < n && inside[i]);
        let l = choose|l: int| 0 <= l < plan.len() && #[trigger] plan[l] == ClipStep::Keep(i as usize);
        assert(step_rank(plan[l]) == 2 * i + 1);
        assert(step_rank(plan[j]) == 2 * i);
        if l < j {
            assert(step_rank(plan[l]) < step_rank(plan[j]));
        }
        assert(l > j);
        if l > j + 1 {
            assert(step_rank(plan[j]) < step_rank(plan[j + 1]));
            assert(step_rank(plan[j + 1]) < step_rank(plan[l]));
        }
    }
    assert forall|j: int|
        0 <= j < plan.len() && (#[trigger] plan[j] matches ClipStep::Keep(i) && !inside[before(n, i as int)]) implies 0
        < j && plan[j - 1] == ClipStep::Cut(before(n, step_vertex(plan[j])) as usize, step_vertex(plan[j]) as usize) by {
        let i = step_vertex(plan[j]);
        let p = before(n, i);
        assert(0 <= i < n && inside[i] && !inside[p]);
        assert(inside[i] != inside[p]);
        let m = choose|m: int|
            0 <= m < plan.len() && #[trigger] plan[m] == ClipStep::Cut(p as usize, i as usize);
        assert(step_rank(plan[m]) == 2 * i);
        assert(step_rank(plan[j]) == 2 * i + 1);
        if m > j {
            assert(step_rank(plan[j]) < step_rank(plan[m]));
        }
        assert(m < j);
        if m < j - 1 {
            assert(step_rank(plan[m]) < step_rank(plan[j - 1]));
            assert(step_rank(plan[j - 1]) < step_rank(plan[j]));
        }
    }
}

/// Decides the clipped polygon from the inside flags of the vertices of a
/// closed polygon: for each vertex `i` in order, with `prev` the vertex
/// before it, an entering side `prev -> i` gives its intersection then
/// vertex `i`, an inner vertex gives itself, a leaving side gives its
/// intersection.
pub fn clip_against_plane(inside: &[bool]) -> (plan: Vec<ClipStep>)
    ensures
        plan@ == clip_plan(inside@),
        forall|j: int| 0 <= j < plan@.len() ==> step_valid(inside@, #[trigger] plan@[j]),
        is_clipping_of(inside@, plan@),
{
    let mut out: Vec<ClipStep> = Vec::new();
    let n = inside.len();
    if n == 0 {
        return out;
    }
    let mut i: usize = 0;
    while i < n
        invariant
            n == inside@.len(),
            n > 0,
            i <= n,
            out@ == clip_plan_upto(inside@, i as int),
        decreases n - i,
    {
        let p: usize = if i == 0 {
            n - 1
        } else {
            i - 1
        };
        let curr_in = inside[i];
        let prev_in = inside[p];
        let ghost before = out@;
        if curr_in {
            if !prev_in {
                out.push(ClipStep::Cut(p, i));
            }
            out.push(ClipStep::Keep(i));
        } else if prev_in {
            out.push(ClipStep::Cut(p, i));
        }
        assert(out@ =~= before + clip_step_spec(inside@, i as int));
        i = i + 1;
    }
    proof {
        lemma_plan_upto_valid(inside@, n as int);
        lemma_clip_is_clipping(inside@);
    }
    out
}

/// Clipping keeps exactly the vertices that lie inside.
pub proof fn lemma_clip_keeps_inner_vertices(inside: Seq<bool>)
    ensures
        count_keeps(clip_plan(inside)) == count_true_upto(inside, inside.len() as int),
{
    if inside.len() > 0 {
        lemma_plan_upto_counts(inside, inside.len() as int);
    }
}

/// Clipping a closed polygon inserts one intersection point per side that
/// crosses the plane, hence an even number of them.
pub proof fn lemma_clip_cuts_even(inside: Seq<bool>)
    ensures
        count_cuts(clip_plan(inside)) == cyclic_changes(inside),
        count_cuts(clip_plan(inside)) % 2 == 0,
{
    if inside.len() > 0 {
        lemma_plan_upto_counts(inside, inside.len() as int);
    }
    lemma_cyclic_changes_even(inside);
}

/// The indices of the kept vertices of a plan, in order.
pub open spec fn kept_vertices(s: Seq<ClipStep>) -> Seq<usize>
    decreases s.len(),
{
    if s.len() == 0 {
        seq![]
    } else {
        kept_vertices(s.drop_last()) + (match s.last() {
            ClipStep::Keep(i) => seq![i],
            ClipStep::Cut(_, _) => seq![],
        })
    }
}

/// The indices `i < k` with `inside[i]`, in increasing order.
pub open spec fn inner_vertices_upto(inside: Seq<bool>, k: int) -> Seq<usize>
    decreases k,
{
    if k <= 0 {
        seq![]
    } else {
        inner_vertices_upto(inside, k - 1) + (if inside[k - 1] {
            seq![(k - 1) as usize]
        } else {
            seq![]
        })
    }
}

proof fn lemma_kept_append(a: Seq<ClipStep>, b: Seq<ClipStep>)
    ensures
        kept_vertices(a + b) == kept_vertices(a) + kept_vertices(b),
    decreases b.len(),
{
    if b.len() > 0 {
        assert((a + b).drop_last() =~= a + b.drop_last());
        lemma_kept_append(a, b.drop_last());
        assert(kept_vertices(a + b) =~= kept_vertices(a) + kept_vertices(b));
    } else {
        assert(a + b =~= a);
        assert(kept_vertices(a) + kept_vertices(b) =~= kept_vertices(a));
    }
}

proof fn lemma_kept_upto(inside: Seq<bool>, k: int)
    requires
        0 <= k <= inside.len(),
    ensures
        kept_vertices(clip_plan_upto(inside, k)) == inner_vertices_upto(inside, k),
    decreases k,
{
    if k > 0 {
        lemma_kept_upto(inside, k - 1);
        let a = clip_plan_upto(inside, k - 1);
        let b = clip_step_spec(inside, k - 1);
        lemma_kept_append(a, b);
        let e = Seq::<ClipStep>::empty();
        assert(kept_vertices(e) =~= Seq::<usize>::empty());
        if b.len() == 2 {
            assert(b.drop_last() =~= seq![b[0]]);
            assert(seq![b[0]].drop_last() =~= e);
            assert(kept_vertices(seq![b[0]]) =~= Seq::<usize>::empty());
            assert(kept_vertices(b) =~= seq![(k - 1) as usize]);
        } else if b.len() == 1 {
            assert(b.drop_last() =~= e);
        } else {
            assert(b =~= e);
        }
        assert(kept_vertices(clip_plan_upto(inside, k)) =~= inner_vertices_upto(inside, k));
    } else {
        assert(clip_plan_upto(inside, k) =~= Seq::<ClipStep>::empty());
    }
}

/// Clipping keeps the inner vertices in their original order.
pub proof fn lemma_clip_keeps_order(inside: Seq<bool>)
    ensures
        kept_vertices(clip_plan(inside)) == inner_vertices_upto(inside, inside.len() as int),
{
    lemma_kept_upto(inside, inside.len() as int);
}

/// A polygon that lies wholly inside is left unchanged.
pub proof fn lemma_clip_all_inside(inside: Seq<bool>)
    requires
        forall|i: int| 0 <= i < inside.len() ==> #[trigger] inside[i],
    ensures
        clip_plan(inside) == Seq::new(inside.len(), |i: int| ClipStep::Keep(i as usize)),
{
    let n = inside.len() as int;
    assert forall|k: int| 0 <= k <= n implies #[trigger] clip_plan_upto(inside, k) =~= Seq::new(
        k as nat,
        |i: int| ClipStep::Keep(i as usize),
    ) by {
        lemma_all_inside_upto(inside, k);
    }
    assert(clip_plan_upto(inside, n) =~= Seq::new(n as nat, |i: int| ClipStep::Keep(i as usize)));
}

proof fn lemma_all_inside_upto(inside: Seq<bool>, k: int)
    requires
        forall|i: int| 0 <= i < inside.len() ==> #[trigger] inside[i],
        0 <= k <= inside.len(),
    ensures
        clip_plan_upto(inside, k) =~= Seq::new(k as nat, |i: int| ClipStep::Keep(i as usize)),
    decreases k,
{
    if k > 0 {
        lemma_all_inside_upto(inside, k - 1);
        let p = prev_index(inside.len() as int, k - 1);
        assert(inside[p]);
        assert(inside[k - 1]);
    }
}

/// A polygon that lies wholly outside is clipped away.
pub proof fn lemma_clip_all_outside(inside: Seq<bool>)
    requires
        forall|i: int| 0 <= i < inside.len() ==> !#[trigger] inside[i],
    ensures
        clip_plan(inside).len() == 0,
{
    lemma_all_outside_upto(inside, inside.len() as int);
}

proof fn lemma_all_outside_upto(inside: Seq<bool>, k: int)
    requires
        forall|i: int| 0 <= i < inside.len() ==> !#[trigger] inside[i],
        0 <= k <= inside.len(),
    ensures
        clip_plan_upto(inside, k).len() == 0,
    decreases k,
{
    if k > 0 {
        lemma_all_outside_upto(inside, k - 1);
        let p = prev_index(inside.len() as int, k - 1);
        assert(!inside[p]);
        assert(!inside[k - 1]);
    }
}

} // verus!
