//! Pad blueprint processing: splitting a pad blueprint into the nesting
//! levels of its rings, and keeping the pad parts that host supports.
use vstd::prelude::*;
use crate::geometry::{
    BoundingBox, ExPolyView, ExPolygon, Point, Polygon, expoly_ok, expoly_overlaps, expoly_view,
    expolys_view, extents, point_ok, points_ok, polys_view, ring_contains, ring_contains_point,
};
use crate::sla::spat_index::{BoxIndex, QueryType, lemma_query_exact, query_spec, spec_boxes_intersect};
use crate::sla::support_point_generator::expolygon_overlaps;

verus! {

/// All rings of a blueprint in order: each expolygon's contour followed by
/// its holes.
pub open spec fn flatten_rings(bp: Seq<ExPolyView>) -> Seq<Seq<Point>>
    decreases bp.len(),
{
    if bp.len() == 0 {
        Seq::empty()
    } else {
        flatten_rings(bp.drop_last()) + seq![bp.last().0] + bp.last().1
    }
}

/// Number of rings among the first `m`, other than ring `i`, that contain
/// the first vertex of ring `i`.
pub open spec fn containing_count(rings: Seq<Seq<Point>>, i: int, m: int) -> nat
    decreases m,
{
    if m <= 0 {
        0
    } else {
        containing_count(rings, i, m - 1) + if m - 1 != i && ring_contains(
            rings[m - 1],
            rings[i][0],
        ) {
            1nat
        } else {
            0nat
        }
    }
}

/// Nesting depth of ring `i`: how many other rings contain its first vertex
/// (0 for an empty ring). Even depths are solid, odd depths are holes.
pub open spec fn ring_depth(rings: Seq<Seq<Point>>, i: int) -> nat {
    if rings[i].len() == 0 {
        0
    } else {
        containing_count(rings, i, rings.len() as int)
    }
}

/// Ring `k` lies directly inside ring `p`: one level deeper and holding its
/// first vertex inside `p`.
pub open spec fn is_child(rings: Seq<Seq<Point>>, p: int, k: int) -> bool {
    &&& k != p
    &&& rings[p].len() > 0
    &&& rings[k].len() > 0
    &&& ring_depth(rings, k) == ring_depth(rings, p) + 1
    &&& ring_contains(rings[p], rings[k][0])
}

/// The children of ring `p` among the first `m` rings, in order.
pub open spec fn children_upto(rings: Seq<Seq<Point>>, p: int, m: int) -> Seq<int>
    decreases m,
{
    if m <= 0 {
        Seq::empty()
    } else if is_child(rings, p, m - 1) {
        children_upto(rings, p, m - 1).push(m - 1)
    } else {
        children_upto(rings, p, m - 1)
    }
}

pub open spec fn children(rings: Seq<Seq<Point>>, p: int) -> Seq<int> {
    children_upto(rings, p, rings.len() as int)
}

/// The children of the first `j` of the rings `cs`, concatenated.
pub open spec fn children_of_all(rings: Seq<Seq<Point>>, cs: Seq<int>, j: int) -> Seq<int>
    decreases j,
{
    if j <= 0 {
        Seq::empty()
    } else {
        children_of_all(rings, cs, j - 1) + children(rings, cs[j - 1])
    }
}

/// The rings two levels below ring `p`: the children of its holes.
pub open spec fn grandchildren(rings: Seq<Seq<Point>>, p: int) -> Seq<int> {
    children_of_all(rings, children(rings, p), children(rings, p).len() as int)
}

/// Ring `idx` with its children as holes.
pub open spec fn assembled(rings: Seq<Seq<Point>>, idx: int) -> ExPolyView {
    (rings[idx], children(rings, idx).map_values(|k: int| rings[k]))
}

/// The top-level rings among the first `m`: the solid nodes at depth 0 with
/// their holes, in order.
pub open spec fn outer_upto(rings: Seq<Seq<Point>>, m: int) -> Seq<ExPolyView>
    decreases m,
{
    if m <= 0 {
        Seq::empty()
    } else if ring_depth(rings, m - 1) == 0 {
        outer_upto(rings, m - 1).push(assembled(rings, m - 1))
    } else {
        outer_upto(rings, m - 1)
    }
}

/// The grandchildren of the top-level rings among the first `m`, in order.
pub open spec fn initial_queue(rings: Seq<Seq<Point>>, m: int) -> Seq<int>
    decreases m,
{
    if m <= 0 {
        Seq::empty()
    } else if ring_depth(rings, m - 1) == 0 {
        initial_queue(rings, m - 1) + grandchildren(rings, m - 1)
    } else {
        initial_queue(rings, m - 1)
    }
}

/// The inner parts as a stack of ring indices is worked off: the top ring
/// is assembled, then its grandchildren are worked off, then the rest of the
/// stack. `levels` bounds the nesting; every nesting level takes two depths
/// and depths stay below the number of rings, so `rings.len()` levels are
/// never exhausted.
pub open spec fn work_off(rings: Seq<Seq<Point>>, stack: Seq<int>, levels: nat) -> Seq<ExPolyView>
    decreases levels, stack.len(),
{
    if stack.len() == 0 || levels == 0 {
        Seq::empty()
    } else {
        let x = stack.last();
        seq![assembled(rings, x)] + work_off(rings, grandchildren(rings, x), (levels - 1) as nat)
            + work_off(rings, stack.drop_last(), levels)
    }
}

/// The pad skeleton of a blueprint: the top-level parts with their holes,
/// and every solid part nested inside a hole, with its own holes.
pub open spec fn divide_spec(bp: Seq<ExPolyView>) -> (Seq<ExPolyView>, Seq<ExPolyView>) {
    let rings = flatten_rings(bp);
    let n = rings.len() as int;
    (work_off(rings, initial_queue(rings, n), n as nat), outer_upto(rings, n))
}

/// Every vertex of every ring of the blueprint lies within the coordinate
/// limits.
pub open spec fn blueprint_ok(bp: Seq<ExPolyView>) -> bool {
    forall|i: int|
        0 <= i < bp.len() ==> points_ok((#[trigger] bp[i]).0) && forall|h: int|
            0 <= h < bp[i].1.len() ==> points_ok(#[trigger] bp[i].1[h])
}

proof fn lemma_children_upto(rv: Seq<Seq<Point>>, p: int, m: int)
    requires
        m <= rv.len(),
    ensures
        forall|k: int|
            0 <= k < children_upto(rv, p, m).len() ==> 0 <= #[trigger] children_upto(rv, p, m)[k]
                < m && is_child(rv, p, children_upto(rv, p, m)[k]),
    decreases m,
{
    if m > 0 {
        lemma_children_upto(rv, p, m - 1);
        let a = children_upto(rv, p, m - 1);
        if is_child(rv, p, m - 1) {
            assert forall|k: int| 0 <= k < a.push(m - 1).len() implies 0 <= #[trigger] a.push(
                m - 1,
            )[k] < m && is_child(rv, p, a.push(m - 1)[k]) by {
                if k < a.len() {
                    assert(a.push(m - 1)[k] == a[k]);
                }
            }
        }
    }
}

proof fn lemma_children_of_all(rv: Seq<Seq<Point>>, cs: Seq<int>, j: int, d: nat)
    requires
        j <= cs.len(),
        forall|t: int| 0 <= t < cs.len() ==> ring_depth(rv, #[trigger] cs[t]) == d,
    ensures
        forall|k: int|
            0 <= k < children_of_all(rv, cs, j).len() ==> 0 <= #[trigger] children_of_all(
                rv,
                cs,
                j,
            )[k] < rv.len() && ring_depth(rv, children_of_all(rv, cs, j)[k]) == d + 1,
    decreases j,
{
    if j > 0 {
        lemma_children_of_all(rv, cs, j - 1, d);
        lemma_children_upto(rv, cs[j - 1], rv.len() as int);
        let a = children_of_all(rv, cs, j - 1);
        let b = children(rv, cs[j - 1]);
        assert(ring_depth(rv, cs[j - 1]) == d);
        assert forall|k: int| 0 <= k < (a + b).len() implies 0 <= #[trigger] (a + b)[k] < rv.len()
            && ring_depth(rv, (a + b)[k]) == d + 1 by {
            if k >= a.len() {
                assert((a + b)[k] == b[k - a.len()]);
            }
        }
    }
}

proof fn lemma_grandchildren(rv: Seq<Seq<Point>>, x: int)
    ensures
        forall|k: int|
            0 <= k < grandchildren(rv, x).len() ==> 0 <= #[trigger] grandchildren(rv, x)[k]
                < rv.len() && ring_depth(rv, grandchildren(rv, x)[k]) == ring_depth(rv, x) + 2,
{
    let cs = children(rv, x);
    lemma_children_upto(rv, x, rv.len() as int);
    assert forall|t: int| 0 <= t < cs.len() implies ring_depth(rv, #[trigger] cs[t]) == ring_depth(
        rv,
        x,
    ) + 1 by {
        assert(is_child(rv, x, cs[t]));
    }
    lemma_children_of_all(rv, cs, cs.len() as int, ring_depth(rv, x) + 1);
}

proof fn lemma_depth_bound(rv: Seq<Seq<Point>>, k: int)
    requires
        0 <= k < rv.len(),
    ensures
        ring_depth(rv, k) < rv.len(),
{
    if rv[k].len() > 0 {
        lemma_containing_count_excl(rv, k, rv.len() as int);
    }
}

/// One more level changes nothing while every ring on the stack is deep
/// enough for the levels left.
proof fn lemma_work_off_enough(rv: Seq<Seq<Point>>, s: Seq<int>, levels: nat)
    requires
        forall|k: int|
            0 <= k < s.len() ==> 0 <= #[trigger] s[k] < rv.len() && ring_depth(rv, s[k]) + 2
                * levels >= rv.len() + 1,
    ensures
        work_off(rv, s, levels + 1) == work_off(rv, s, levels),
    decreases levels, s.len(),
{
    if s.len() > 0 {
        let x = s.last();
        assert(s[s.len() - 1] == x);
        lemma_depth_bound(rv, x);
        if levels > 0 {
            let gc = grandchildren(rv, x);
            lemma_grandchildren(rv, x);
            lemma_work_off_enough(rv, gc, (levels - 1) as nat);
            let t = s.drop_last();
            assert forall|k: int| 0 <= k < t.len() implies 0 <= #[trigger] t[k] < rv.len()
                && ring_depth(rv, t[k]) + 2 * levels >= rv.len() + 1 by {
                assert(t[k] == s[k]);
            }
            lemma_work_off_enough(rv, t, levels);
        }
    }
}

proof fn lemma_initial_queue(rv: Seq<Seq<Point>>, m: int)
    ensures
        forall|k: int|
            0 <= k < initial_queue(rv, m).len() ==> 0 <= #[trigger] initial_queue(rv, m)[k]
                < rv.len() && ring_depth(rv, initial_queue(rv, m)[k]) == 2,
    decreases m,
{
    if m > 0 {
        lemma_initial_queue(rv, m - 1);
        if ring_depth(rv, m - 1) == 0 {
            let a = initial_queue(rv, m - 1);
            let b = grandchildren(rv, m - 1);
            lemma_grandchildren(rv, m - 1);
            assert forall|k: int| 0 <= k < (a + b).len() implies 0 <= #[trigger] (a + b)[k]
                < rv.len() && ring_depth(rv, (a + b)[k]) == 2 by {
                if k >= a.len() {
                    assert((a + b)[k] == b[k - a.len()]);
                }
            }
            assert(initial_queue(rv, m) == a + b);
        } else {
            assert(initial_queue(rv, m) == initial_queue(rv, m - 1));
        }
    }
}

/// Splitting a blueprint never runs out of nesting levels: allowing any
/// number of further levels gives the same inner parts.
pub proof fn lemma_divide_levels_suffice(bp: Seq<ExPolyView>, extra: nat)
    ensures
        work_off(
            flatten_rings(bp),
            initial_queue(flatten_rings(bp), flatten_rings(bp).len() as int),
            flatten_rings(bp).len() + extra,
        ) == divide_spec(bp).0,
    decreases extra,
{
    let rv = flatten_rings(bp);
    let n = rv.len();
    let q = initial_queue(rv, n as int);
    if extra > 0 {
        lemma_divide_levels_suffice(bp, (extra - 1) as nat);
        lemma_initial_queue(rv, n as int);
        let l = (n + extra - 1) as nat;
        assert forall|k: int| 0 <= k < q.len() implies 0 <= #[trigger] q[k] < rv.len()
            && ring_depth(rv, q[k]) + 2 * l >= rv.len() + 1 by {}
        lemma_work_off_enough(rv, q, l);
    }
}

/// `e` is ring `idx` of `rings`, inside no other ring, with the rings
/// directly inside it as holes.
pub open spec fn top_part_at(rings: Seq<Seq<Point>>, e: ExPolyView, idx: int) -> bool {
    solid_part_at(rings, e, idx, 0) && ring_depth(rings, idx) == 0
}

/// `e` is a top-level part of `rings`: some ring inside no other ring, with
/// the rings directly inside it as holes.
pub open spec fn is_outer_part(rings: Seq<Seq<Point>>, e: ExPolyView) -> bool {
    exists|idx: int| #[trigger] top_part_at(rings, e, idx)
}

/// `e` is a solid part nested in a hole: some ring of `rings` at an even
/// depth of at least 2, with the rings directly inside it as holes.
pub open spec fn is_inner_part(rings: Seq<Seq<Point>>, e: ExPolyView) -> bool {
    exists|idx: int| #[trigger] solid_part_at(rings, e, idx, 2)
}

/// `e` is ring `idx` of `rings` with the rings directly inside it as holes,
/// and the ring lies at an even depth of at least `min_depth`.
pub open spec fn solid_part_at(rings: Seq<Seq<Point>>, e: ExPolyView, idx: int, min_depth: nat) -> bool {
    &&& 0 <= idx < rings.len()
    &&& ring_depth(rings, idx) % 2 == 0
    &&& ring_depth(rings, idx) >= min_depth
    &&& e == assembled(rings, idx)
}

proof fn lemma_work_off_parts(rv: Seq<Seq<Point>>, s: Seq<int>, levels: nat)
    requires
        forall|k: int|
            0 <= k < s.len() ==> 0 <= #[trigger] s[k] < rv.len() && ring_depth(rv, s[k]) % 2 == 0
                && ring_depth(rv, s[k]) >= 2,
    ensures
        forall|i: int|
            #![trigger work_off(rv, s, levels)[i]]
            0 <= i < work_off(rv, s, levels).len() ==> is_inner_part(rv, work_off(rv, s, levels)[i]),
    decreases levels, s.len(),
{
    if s.len() > 0 && levels > 0 {
        let x = s.last();
        assert(s[s.len() - 1] == x);
        let gc = grandchildren(rv, x);
        lemma_grandchildren(rv, x);
        lemma_work_off_parts(rv, gc, (levels - 1) as nat);
        let t = s.drop_last();
        assert forall|k: int| 0 <= k < t.len() implies 0 <= #[trigger] t[k] < rv.len() && ring_depth(
            rv,
            t[k],
        ) % 2 == 0 && ring_depth(rv, t[k]) >= 2 by {
            assert(t[k] == s[k]);
        }
        lemma_work_off_parts(rv, t, levels);
        let a = seq![assembled(rv, x)];
        let b = work_off(rv, gc, (levels - 1) as nat);
        let c = work_off(rv, t, levels);
        let w = work_off(rv, s, levels);
        assert(w == a + b + c);
        assert forall|i: int| #![trigger w[i]] 0 <= i < w.len() implies is_inner_part(rv, w[i]) by {
            if i == 0 {
                assert(w[i] == assembled(rv, x));
                assert(solid_part_at(rv, w[i], x, 2));
            } else if i < 1 + b.len() {
                let j = i - 1;
                assert(w[i] == b[j]);
                let e = b[j];
                assert(is_inner_part(rv, e));
            } else {
                let j = i - 1 - b.len();
                assert(w[i] == c[j]);
                let e = c[j];
                assert(is_inner_part(rv, e));
            }
        }
    } else {
        assert(work_off(rv, s, levels).len() == 0);
    }
}

proof fn lemma_outer_upto_parts(rv: Seq<Seq<Point>>, m: int)
    requires
        m <= rv.len(),
    ensures
        forall|i: int|
            #![trigger outer_upto(rv, m)[i]]
            0 <= i < outer_upto(rv, m).len() ==> is_outer_part(rv, outer_upto(rv, m)[i]),
        forall|idx: int|
            0 <= idx < m && ring_depth(rv, idx) == 0 ==> outer_upto(rv, m).contains(
                #[trigger] assembled(rv, idx),
            ),
    decreases m,
{
    if m > 0 {
        lemma_outer_upto_parts(rv, m - 1);
        let a = outer_upto(rv, m - 1);
        if ring_depth(rv, m - 1) == 0 {
            let b = a.push(assembled(rv, m - 1));
            assert(outer_upto(rv, m) == b);
            assert forall|i: int| #![trigger b[i]] 0 <= i < b.len() implies is_outer_part(rv, b[i]) by {
                if i < a.len() {
                    assert(b[i] == a[i]);
                    let e = a[i];
                    assert(is_outer_part(rv, e));
                } else {
                    assert(top_part_at(rv, b[i], m - 1));
                }
            }
            assert forall|idx: int| 0 <= idx < m && ring_depth(rv, idx) == 0 implies b.contains(
                #[trigger] assembled(rv, idx),
            ) by {
                if idx < m - 1 {
                    let j = choose|j: int| 0 <= j < a.len() && a[j] == assembled(rv, idx);
                    assert(b[j] == a[j]);
                } else {
                    assert(b[a.len() as int] == assembled(rv, idx));
                }
            }
        } else {
            assert(outer_upto(rv, m) == a);
        }
    } else {
        assert(outer_upto(rv, m).len() == 0);
    }
}

/// How a blueprint is split. Every outer part is a ring of the blueprint at
/// depth 0 (inside no other ring), and every such ring gives an outer part;
/// every inner part is a ring at an even depth of at least 2 (a solid
/// inside a hole). Each part holds as holes exactly the rings directly
/// inside its contour: one level deeper, with their first vertex inside it.
pub proof fn lemma_divide_parts(bp: Seq<ExPolyView>)
    ensures
        forall|i: int|
            #![trigger divide_spec(bp).1[i]]
            0 <= i < divide_spec(bp).1.len() ==> is_outer_part(flatten_rings(bp), divide_spec(bp).1[i]),
        forall|idx: int|
            0 <= idx < flatten_rings(bp).len() && ring_depth(flatten_rings(bp), idx) == 0
                ==> divide_spec(bp).1.contains(#[trigger] assembled(flatten_rings(bp), idx)),
        forall|i: int|
            #![trigger divide_spec(bp).0[i]]
            0 <= i < divide_spec(bp).0.len() ==> is_inner_part(flatten_rings(bp), divide_spec(bp).0[i]),
        forall|idx: int, h: int|
            0 <= h < children(flatten_rings(bp), idx).len() ==> is_child(
                flatten_rings(bp),
                idx,
                #[trigger] children(flatten_rings(bp), idx)[h],
            ),
{
    let rv = flatten_rings(bp);
    let n = rv.len() as int;
    lemma_outer_upto_parts(rv, n);
    lemma_initial_queue(rv, n);
    let q = initial_queue(rv, n);
    assert forall|k: int| 0 <= k < q.len() implies 0 <= #[trigger] q[k] < rv.len() && ring_depth(
        rv,
        q[k],
    ) % 2 == 0 && ring_depth(rv, q[k]) >= 2 by {}
    lemma_work_off_parts(rv, q, n as nat);
    assert forall|idx: int, h: int|
        0 <= h < children(rv, idx).len() implies is_child(rv, idx, #[trigger] children(rv, idx)[h]) by {
        lemma_children_upto(rv, idx, n);
    }
}

/// The depth-0 rings among the first `m`, in order.
pub open spec fn outer_indices_upto(rings: Seq<Seq<Point>>, m: int) -> Seq<int>
    decreases m,
{
    if m <= 0 {
        Seq::empty()
    } else if ring_depth(rings, m - 1) == 0 {
        outer_indices_upto(rings, m - 1).push(m - 1)
    } else {
        outer_indices_upto(rings, m - 1)
    }
}

/// The rings whose parts are outer, in order.
pub open spec fn outer_indices(rings: Seq<Seq<Point>>) -> Seq<int> {
    outer_indices_upto(rings, rings.len() as int)
}

/// The rings `work_off` assembles, in order.
pub open spec fn work_indices(rings: Seq<Seq<Point>>, stack: Seq<int>, levels: nat) -> Seq<int>
    decreases levels, stack.len(),
{
    if stack.len() == 0 || levels == 0 {
        Seq::empty()
    } else {
        let x = stack.last();
        seq![x] + work_indices(rings, grandchildren(rings, x), (levels - 1) as nat) + work_indices(
            rings,
            stack.drop_last(),
            levels,
        )
    }
}

/// The rings whose parts are inner, in order.
pub open spec fn inner_indices(rings: Seq<Seq<Point>>) -> Seq<int> {
    work_indices(rings, initial_queue(rings, rings.len() as int), rings.len() as nat)
}

proof fn lemma_outer_indices(rv: Seq<Seq<Point>>, m: int)
    requires
        m <= rv.len(),
    ensures
        outer_upto(rv, m) == outer_indices_upto(rv, m).map_values(|x: int| assembled(rv, x)),
        outer_indices_upto(rv, m).no_duplicates(),
        forall|k: int| #[trigger] outer_indices_upto(rv, m).contains(k) <==> 0 <= k < m && ring_depth(rv, k) == 0,
    decreases m,
{
    if m > 0 {
        lemma_outer_indices(rv, m - 1);
        let a = outer_indices_upto(rv, m - 1);
        if ring_depth(rv, m - 1) == 0 {
            let b = a.push(m - 1);
            assert(outer_indices_upto(rv, m) == b);
            assert(b.map_values(|x: int| assembled(rv, x)) =~= a.map_values(
                |x: int| assembled(rv, x),
            ).push(assembled(rv, m - 1)));
            assert forall|k: int| #[trigger] b.contains(k) <==> 0 <= k < m && ring_depth(rv, k) == 0 by {
                if b.contains(k) {
                    let i = choose|i: int| 0 <= i < b.len() && b[i] == k;
                    if i < a.len() {
                        assert(a[i] == k);
                        assert(a.contains(k));
                    }
                }
                if 0 <= k < m && ring_depth(rv, k) == 0 {
                    if k < m - 1 {
                        assert(a.contains(k));
                        let i = choose|i: int| 0 <= i < a.len() && a[i] == k;
                        assert(b[i] == k);
                    } else {
                        assert(b[a.len() as int] == k);
                    }
                }
            }
            assert forall|i: int, j: int| 0 <= i < b.len() && 0 <= j < b.len() && i != j
                implies b[i] != b[j] by {
                if i < a.len() && j < a.len() {
                } else if i < a.len() {
                    assert(a.contains(a[i]));
                } else if j < a.len() {
                    assert(a.contains(a[j]));
                }
            }
        } else {
            assert(outer_indices_upto(rv, m) == a);
        }
    } else {
        assert(outer_indices_upto(rv, m) =~= Seq::<int>::empty());
    }
}

proof fn lemma_work_indices(rv: Seq<Seq<Point>>, s: Seq<int>, levels: nat)
    ensures
        work_off(rv, s, levels) == work_indices(rv, s, levels).map_values(|x: int| assembled(rv, x)),
    decreases levels, s.len(),
{
    if s.len() > 0 && levels > 0 {
        let x = s.last();
        lemma_work_indices(rv, grandchildren(rv, x), (levels - 1) as nat);
        lemma_work_indices(rv, s.drop_last(), levels);
        let a = work_indices(rv, grandchildren(rv, x), (levels - 1) as nat);
        let b = work_indices(rv, s.drop_last(), levels);
        assert((seq![x] + a + b).map_values(|x: int| assembled(rv, x)) =~= seq![assembled(rv, x)]
            + a.map_values(|x: int| assembled(rv, x)) + b.map_values(|x: int| assembled(rv, x)));
    }
}

/// The children of a ring: exactly the rings directly inside it, each once.
proof fn lemma_children_members(rv: Seq<Seq<Point>>, p: int, m: int)
    requires
        m <= rv.len(),
    ensures
        children_upto(rv, p, m).no_duplicates(),
        forall|k: int| #[trigger] children_upto(rv, p, m).contains(k) <==> 0 <= k < m && is_child(rv, p, k),
    decreases m,
{
    if m > 0 {
        lemma_children_members(rv, p, m - 1);
        lemma_children_upto(rv, p, m - 1);
        let a = children_upto(rv, p, m - 1);
        if is_child(rv, p, m - 1) {
            let b = a.push(m - 1);
            assert(children_upto(rv, p, m) == b);
            assert forall|k: int| #[trigger] b.contains(k) <==> 0 <= k < m && is_child(rv, p, k) by {
                if b.contains(k) {
                    let i = choose|i: int| 0 <= i < b.len() && b[i] == k;
                    if i < a.len() {
                        assert(a[i] == k);
                        assert(a.contains(k));
                    }
                }
                if 0 <= k < m && is_child(rv, p, k) {
                    if k < m - 1 {
                        assert(a.contains(k));
                        let i = choose|i: int| 0 <= i < a.len() && a[i] == k;
                        assert(b[i] == k);
                    } else {
                        assert(b[a.len() as int] == k);
                    }
                }
            }
            assert forall|i: int, j: int| 0 <= i < b.len() && 0 <= j < b.len() && i != j
                implies b[i] != b[j] by {
                if i < a.len() && j < a.len() {
                } else if i < a.len() {
                    assert(a.contains(a[i]));
                } else if j < a.len() {
                    assert(a.contains(a[j]));
                }
            }
        } else {
            assert(children_upto(rv, p, m) == a);
        }
    } else {
        assert(children_upto(rv, p, m) =~= Seq::<int>::empty());
    }
}

/// Ring `k` lies directly inside exactly one ring.
pub open spec fn one_parent(rings: Seq<Seq<Point>>, k: int) -> bool {
    exists|p: int|
        0 <= p < rings.len() && #[trigger] is_child(rings, p, k) && forall|q: int|
            0 <= q < rings.len() && #[trigger] is_child(rings, q, k) ==> q == p
}

/// The rings are properly nested: every ring inside some other ring lies
/// directly inside exactly one. This holds where rings neither cross nor
/// touch, as the rings containing a point then form a chain.
pub open spec fn nested(rings: Seq<Seq<Point>>) -> bool {
    forall|k: int| 0 <= k < rings.len() && ring_depth(rings, k) >= 1 ==> #[trigger] one_parent(rings, k)
}

/// Ring `y` lies two levels below ring `x`.
pub open spec fn is_grandchild(rings: Seq<Seq<Point>>, x: int, y: int) -> bool {
    &&& 0 <= y < rings.len()
    &&& exists|c: int| 0 <= c < rings.len() && #[trigger] is_child(rings, x, c) && is_child(rings, c, y)
}

proof fn lemma_unique_parent(rv: Seq<Seq<Point>>, p: int, q: int, k: int)
    requires
        nested(rv),
        0 <= p < rv.len(),
        0 <= q < rv.len(),
        0 <= k < rv.len(),
        is_child(rv, p, k),
        is_child(rv, q, k),
    ensures
        p == q,
{
    assert(one_parent(rv, k));
    let p0 = choose|p0: int|
        0 <= p0 < rv.len() && #[trigger] is_child(rv, p0, k) && forall|q0: int|
            0 <= q0 < rv.len() && #[trigger] is_child(rv, q0, k) ==> q0 == p0;
    assert(p == p0);
    assert(q == p0);
}

proof fn parent_of(rv: Seq<Seq<Point>>, k: int) -> (p: int)
    requires
        nested(rv),
        0 <= k < rv.len(),
        ring_depth(rv, k) >= 1,
    ensures
        0 <= p < rv.len(),
        is_child(rv, p, k),
{
    assert(one_parent(rv, k));
    choose|p0: int|
        0 <= p0 < rv.len() && #[trigger] is_child(rv, p0, k) && forall|q0: int|
            0 <= q0 < rv.len() && #[trigger] is_child(rv, q0, k) ==> q0 == p0
}

proof fn lemma_concat_nd(a: Seq<int>, b: Seq<int>)
    requires
        a.no_duplicates(),
        b.no_duplicates(),
        forall|y: int| #[trigger] a.contains(y) ==> !b.contains(y),
    ensures
        (a + b).no_duplicates(),
        forall|y: int| #[trigger] (a + b).contains(y) <==> a.contains(y) || b.contains(y),
{
    let c = a + b;
    assert forall|i: int, j: int| 0 <= i < c.len() && 0 <= j < c.len() && i != j implies c[i] != c[j] by {
        if i < a.len() && j >= a.len() {
            assert(c[i] == a[i]);
            assert(c[j] == b[j - a.len()]);
            assert(a.contains(a[i]));
            assert(b.contains(b[j - a.len()]));
        } else if j < a.len() && i >= a.len() {
            assert(c[j] == a[j]);
            assert(c[i] == b[i - a.len()]);
            assert(a.contains(a[j]));
            assert(b.contains(b[i - a.len()]));
        } else if i < a.len() {
            assert(c[i] == a[i] && c[j] == a[j]);
        } else {
            assert(c[i] == b[i - a.len()] && c[j] == b[j - a.len()]);
        }
    }
    assert forall|y: int| #[trigger] c.contains(y) <==> a.contains(y) || b.contains(y) by {
        if c.contains(y) {
            let i = choose|i: int| 0 <= i < c.len() && c[i] == y;
            if i < a.len() {
                assert(a[i] == y);
            } else {
                assert(b[i - a.len()] == y);
            }
        }
        if a.contains(y) {
            let i = choose|i: int| 0 <= i < a.len() && a[i] == y;
            assert(c[i] == y);
        }
        if b.contains(y) {
            let i = choose|i: int| 0 <= i < b.len() && b[i] == y;
            assert(c[a.len() + i] == y);
        }
    }
}

proof fn lemma_children_of_all_members(rv: Seq<Seq<Point>>, cs: Seq<int>, j: int)
    requires
        nested(rv),
        0 <= j <= cs.len(),
        cs.no_duplicates(),
        forall|t: int| 0 <= t < cs.len() ==> 0 <= #[trigger] cs[t] < rv.len(),
    ensures
        children_of_all(rv, cs, j).no_duplicates(),
        forall|y: int|
            #[trigger] children_of_all(rv, cs, j).contains(y) <==> 0 <= y < rv.len() && exists|t: int|
                0 <= t < j && #[trigger] is_child(rv, cs[t], y),
    decreases j,
{
    if j > 0 {
        lemma_children_of_all_members(rv, cs, j - 1);
        let a = children_of_all(rv, cs, j - 1);
        let b = children(rv, cs[j - 1]);
        lemma_children_members(rv, cs[j - 1], rv.len() as int);
        assert forall|y: int| #[trigger] a.contains(y) implies !b.contains(y) by {
            if b.contains(y) {
                let t = choose|t: int| 0 <= t < j - 1 && #[trigger] is_child(rv, cs[t], y);
                lemma_unique_parent(rv, cs[t], cs[j - 1], y);
            }
        }
        lemma_concat_nd(a, b);
        assert(children_of_all(rv, cs, j) == a + b);
        assert forall|y: int|
            #[trigger] (a + b).contains(y) <==> 0 <= y < rv.len() && exists|t: int|
                0 <= t < j && #[trigger] is_child(rv, cs[t], y) by {
            if 0 <= y < rv.len() && exists|t: int| 0 <= t < j && #[trigger] is_child(rv, cs[t], y) {
                let t = choose|t: int| 0 <= t < j && #[trigger] is_child(rv, cs[t], y);
                if t == j - 1 {
                    assert(b.contains(y));
                } else {
                    assert(a.contains(y));
                }
            }
        }
    } else {
        assert(children_of_all(rv, cs, j) =~= Seq::<int>::empty());
    }
}

/// The grandchildren of a ring: exactly the rings two levels below it, each
/// once.
proof fn lemma_grandchildren_members(rv: Seq<Seq<Point>>, x: int)
    requires
        nested(rv),
    ensures
        grandchildren(rv, x).no_duplicates(),
        forall|y: int| #[trigger] grandchildren(rv, x).contains(y) <==> is_grandchild(rv, x, y),
{
    let cs = children(rv, x);
    lemma_children_members(rv, x, rv.len() as int);
    assert forall|t: int| 0 <= t < cs.len() implies 0 <= #[trigger] cs[t] < rv.len() by {
        assert(cs.contains(cs[t]));
    }
    lemma_children_of_all_members(rv, cs, cs.len() as int);
    assert forall|y: int| #[trigger] grandchildren(rv, x).contains(y) <==> is_grandchild(rv, x, y) by {
        if grandchildren(rv, x).contains(y) {
            let t = choose|t: int| 0 <= t < cs.len() && #[trigger] is_child(rv, cs[t], y);
            assert(cs.contains(cs[t]));
            assert(is_child(rv, x, cs[t]));
        }
        if is_grandchild(rv, x, y) {
            let c = choose|c: int| 0 <= c < rv.len() && #[trigger] is_child(rv, x, c) && is_child(rv, c, y);
            assert(cs.contains(c));
            let t = choose|t: int| 0 <= t < cs.len() && cs[t] == c;
            assert(is_child(rv, cs[t], y));
        }
    }
}

/// A ring two levels above ring `y`, if there is one.
pub open spec fn grandparent(rings: Seq<Seq<Point>>, y: int) -> int {
    choose|c: int| 0 <= c < rings.len() && is_grandchild(rings, c, y)
}

/// Ring `y` lies `2 * t` levels below ring `x`: `t` steps up from `y`, each
/// to a grandparent, end at `x`.
pub open spec fn desc(rings: Seq<Seq<Point>>, x: int, y: int, t: nat) -> bool
    decreases t,
{
    if t == 0 {
        x == y
    } else {
        let c = grandparent(rings, y);
        &&& 0 <= c < rings.len()
        &&& is_grandchild(rings, c, y)
        &&& desc(rings, x, c, (t - 1) as nat)
    }
}

proof fn lemma_grandchild_depth(rv: Seq<Seq<Point>>, x: int, y: int)
    requires
        is_grandchild(rv, x, y),
    ensures
        ring_depth(rv, y) == ring_depth(rv, x) + 2,
{
    let c = choose|c: int| 0 <= c < rv.len() && #[trigger] is_child(rv, x, c) && is_child(rv, c, y);
}

proof fn lemma_grandparent_unique(rv: Seq<Seq<Point>>, x: int, y: int)
    requires
        nested(rv),
        0 <= x < rv.len(),
        is_grandchild(rv, x, y),
    ensures
        grandparent(rv, y) == x,
        is_grandchild(rv, grandparent(rv, y), y),
{
    let c = grandparent(rv, y);
    assert(is_grandchild(rv, c, y));
    let m1 = choose|m: int| 0 <= m < rv.len() && #[trigger] is_child(rv, x, m) && is_child(rv, m, y);
    let m2 = choose|m: int| 0 <= m < rv.len() && #[trigger] is_child(rv, c, m) && is_child(rv, m, y);
    lemma_unique_parent(rv, m1, m2, y);
    lemma_unique_parent(rv, x, c, m1);
}

proof fn lemma_desc_depth(rv: Seq<Seq<Point>>, x: int, y: int, t: nat)
    requires
        0 <= x < rv.len(),
        desc(rv, x, y, t),
    ensures
        0 <= y < rv.len(),
        ring_depth(rv, y) == ring_depth(rv, x) + 2 * t,
    decreases t,
{
    if t > 0 {
        let c = grandparent(rv, y);
        lemma_desc_depth(rv, x, c, (t - 1) as nat);
        lemma_grandchild_depth(rv, c, y);
    }
}

proof fn lemma_desc_front(rv: Seq<Seq<Point>>, x: int, z: int, y: int, t: nat)
    requires
        nested(rv),
        0 <= x < rv.len(),
        is_grandchild(rv, x, z),
        desc(rv, z, y, t),
    ensures
        desc(rv, x, y, t + 1),
    decreases t,
{
    if t == 0 {
        assert(z == y);
        lemma_grandparent_unique(rv, x, y);
        assert(desc(rv, x, x, 0));
        assert(desc(rv, x, y, 1));
    } else {
        let c = grandparent(rv, y);
        assert(desc(rv, z, c, (t - 1) as nat));
        lemma_desc_front(rv, x, z, c, (t - 1) as nat);
        assert(((t + 1) - 1) as nat == t);
    }
}

proof fn lemma_desc_split(rv: Seq<Seq<Point>>, x: int, y: int, t: nat) -> (z: int)
    requires
        desc(rv, x, y, t + 1),
    ensures
        is_grandchild(rv, x, z),
        desc(rv, z, y, t),
    decreases t,
{
    let c = grandparent(rv, y);
    assert(((t + 1) - 1) as nat == t);
    assert(desc(rv, x, c, t));
    if t == 0 {
        assert(c == x);
        y
    } else {
        let z = lemma_desc_split(rv, x, c, (t - 1) as nat);
        z
    }
}

proof fn lemma_desc_unique(rv: Seq<Seq<Point>>, x1: int, x2: int, y: int, t: nat)
    requires
        desc(rv, x1, y, t),
        desc(rv, x2, y, t),
    ensures
        x1 == x2,
    decreases t,
{
    if t > 0 {
        lemma_desc_unique(rv, x1, x2, grandparent(rv, y), (t - 1) as nat);
    }
}

/// A ring at depth `2 + 2 * t` lies `2 * t` levels below some ring at
/// depth 2.
proof fn lemma_ancestor(rv: Seq<Seq<Point>>, y: int, t: nat) -> (z: int)
    requires
        nested(rv),
        0 <= y < rv.len(),
        ring_depth(rv, y) == 2 + 2 * t,
    ensures
        0 <= z < rv.len(),
        ring_depth(rv, z) == 2,
        desc(rv, z, y, t),
    decreases t,
{
    if t == 0 {
        y
    } else {
        let m = parent_of(rv, y);
        let c = parent_of(rv, m);
        assert(is_grandchild(rv, c, y));
        lemma_grandparent_unique(rv, c, y);
        let z = lemma_ancestor(rv, c, (t - 1) as nat);
        z
    }
}

proof fn lemma_concat_contains(a: Seq<int>, b: Seq<int>)
    ensures
        forall|y: int| #[trigger] (a + b).contains(y) <==> a.contains(y) || b.contains(y),
{
    assert forall|y: int| #[trigger] (a + b).contains(y) <==> a.contains(y) || b.contains(y) by {
        let c = a + b;
        if c.contains(y) {
            let i = choose|i: int| 0 <= i < c.len() && c[i] == y;
            if i < a.len() {
                assert(a[i] == y);
            } else {
                assert(b[i - a.len()] == y);
            }
        }
        if a.contains(y) {
            let i = choose|i: int| 0 <= i < a.len() && a[i] == y;
            assert(c[i] == y);
        }
        if b.contains(y) {
            let i = choose|i: int| 0 <= i < b.len() && b[i] == y;
            assert(c[a.len() + i] == y);
        }
    }
}

proof fn lemma_work_unfold(rv: Seq<Seq<Point>>, s: Seq<int>, levels: nat)
    requires
        s.len() > 0,
        levels > 0,
    ensures
        work_indices(rv, s, levels) == seq![s.last()] + work_indices(rv, grandchildren(rv, s.last()), (levels - 1) as nat)
            + work_indices(rv, s.drop_last(), levels),
        forall|y: int|
            #[trigger] work_indices(rv, s, levels).contains(y) <==> y == s.last() || work_indices(
                rv,
                grandchildren(rv, s.last()),
                (levels - 1) as nat,
            ).contains(y) || work_indices(rv, s.drop_last(), levels).contains(y),
{
    let x = s.last();
    let a = work_indices(rv, grandchildren(rv, x), (levels - 1) as nat);
    let b = work_indices(rv, s.drop_last(), levels);
    lemma_concat_contains(seq![x], a);
    lemma_concat_contains(seq![x] + a, b);
    assert forall|y: int| #[trigger] seq![x].contains(y) <==> y == x by {
        if y == x {
            assert(seq![x][0] == y);
        }
    }
}

/// Every ring `work_off` assembles from a stack lies an even number of
/// levels below a ring of the stack.
proof fn lemma_work_sound(rv: Seq<Seq<Point>>, s: Seq<int>, levels: nat, y: int) -> (r: (int, nat))
    requires
        nested(rv),
        forall|k: int| 0 <= k < s.len() ==> 0 <= #[trigger] s[k] < rv.len(),
        work_indices(rv, s, levels).contains(y),
    ensures
        0 <= r.0 < s.len(),
        desc(rv, s[r.0], y, r.1),
    decreases levels, s.len(),
{
    lemma_work_unfold(rv, s, levels);
    let x = s.last();
    let gc = grandchildren(rv, x);
    assert(s[s.len() - 1] == x);
    if y == x {
        (s.len() - 1, 0nat)
    } else if work_indices(rv, gc, (levels - 1) as nat).contains(y) {
        lemma_grandchildren(rv, x);
        lemma_grandchildren_members(rv, x);
        let (i, t) = lemma_work_sound(rv, gc, (levels - 1) as nat, y);
        assert(gc.contains(gc[i]));
        lemma_desc_front(rv, x, gc[i], y, t);
        (s.len() - 1, t + 1)
    } else {
        let t = s.drop_last();
        assert forall|k: int| 0 <= k < t.len() implies 0 <= #[trigger] t[k] < rv.len() by {
            assert(t[k] == s[k]);
        }
        let (i, u) = lemma_work_sound(rv, t, levels, y);
        assert(t[i] == s[i]);
        (i, u)
    }
}

/// Every ring fewer than `levels` grandchild steps below a ring of the
/// stack is assembled by `work_off`.
proof fn lemma_work_complete(rv: Seq<Seq<Point>>, s: Seq<int>, levels: nat, i: int, t: nat, y: int)
    requires
        nested(rv),
        forall|k: int| 0 <= k < s.len() ==> 0 <= #[trigger] s[k] < rv.len(),
        0 <= i < s.len(),
        desc(rv, s[i], y, t),
        t < levels,
    ensures
        work_indices(rv, s, levels).contains(y),
    decreases levels, s.len(),
{
    lemma_work_unfold(rv, s, levels);
    let x = s.last();
    let gc = grandchildren(rv, x);
    assert(s[s.len() - 1] == x);
    if i == s.len() - 1 {
        if t > 0 {
            let z = lemma_desc_split(rv, x, y, (t - 1) as nat);
            lemma_grandchildren(rv, x);
            lemma_grandchildren_members(rv, x);
            assert(gc.contains(z));
            let j = choose|j: int| 0 <= j < gc.len() && gc[j] == z;
            lemma_work_complete(rv, gc, (levels - 1) as nat, j, (t - 1) as nat, y);
        }
    } else {
        let sd = s.drop_last();
        assert forall|k: int| 0 <= k < sd.len() implies 0 <= #[trigger] sd[k] < rv.len() by {
            assert(sd[k] == s[k]);
        }
        assert(sd[i] == s[i]);
        lemma_work_complete(rv, sd, levels, i, t, y);
    }
}

/// `work_off` assembles no ring twice from a stack of distinct rings at one
/// depth.
proof fn lemma_work_nd(rv: Seq<Seq<Point>>, s: Seq<int>, levels: nat, d: nat)
    requires
        nested(rv),
        s.no_duplicates(),
        forall|k: int| 0 <= k < s.len() ==> 0 <= #[trigger] s[k] < rv.len() && ring_depth(rv, s[k]) == d,
    ensures
        work_indices(rv, s, levels).no_duplicates(),
    decreases levels, s.len(),
{
    if s.len() > 0 && levels > 0 {
        lemma_work_unfold(rv, s, levels);
        let x = s.last();
        assert(s[s.len() - 1] == x);
        let gc = grandchildren(rv, x);
        let sd = s.drop_last();
        lemma_grandchildren(rv, x);
        lemma_grandchildren_members(rv, x);
        lemma_work_nd(rv, gc, (levels - 1) as nat, d + 2);
        assert forall|k: int| 0 <= k < sd.len() implies 0 <= #[trigger] sd[k] < rv.len() && ring_depth(rv, sd[k]) == d by {
            assert(sd[k] == s[k]);
        }
        assert forall|i: int, j: int| 0 <= i < sd.len() && 0 <= j < sd.len() && i != j implies sd[i] != sd[j] by {
            assert(sd[i] == s[i] && sd[j] == s[j]);
        }
        lemma_work_nd(rv, sd, levels, d);
        let a = work_indices(rv, gc, (levels - 1) as nat);
        let b = work_indices(rv, sd, levels);
        assert forall|y: int| #[trigger] seq![x].contains(y) implies !a.contains(y) by {
            assert(seq![x][0] == x);
            if a.contains(y) {
                let (i, t) = lemma_work_sound(rv, gc, (levels - 1) as nat, y);
                lemma_desc_depth(rv, gc[i], y, t);
            }
        }
        assert(seq![x].no_duplicates());
        lemma_concat_nd(seq![x], a);
        assert forall|y: int| #[trigger] (seq![x] + a).contains(y) implies !b.contains(y) by {
            if b.contains(y) {
                let (j, t2) = lemma_work_sound(rv, sd, levels, y);
                lemma_desc_depth(rv, sd[j], y, t2);
                assert(sd[j] == s[j]);
                if y == x {
                    assert(t2 == 0);
                    assert(s[j] == x);
                } else {
                    assert(a.contains(y));
                    let (i, t) = lemma_work_sound(rv, gc, (levels - 1) as nat, y);
                    assert(gc.contains(gc[i]));
                    lemma_desc_front(rv, x, gc[i], y, t);
                    lemma_desc_depth(rv, x, y, t + 1);
                    assert(t2 == t + 1);
                    lemma_desc_unique(rv, x, sd[j], y, t2);
                }
            }
        }
        lemma_concat_nd(seq![x] + a, b);
    }
}

proof fn lemma_initial_queue_members(rv: Seq<Seq<Point>>, m: int)
    requires
        nested(rv),
        m <= rv.len(),
    ensures
        initial_queue(rv, m).no_duplicates(),
        forall|y: int|
            #[trigger] initial_queue(rv, m).contains(y) <==> exists|r: int|
                0 <= r < m && ring_depth(rv, r) == 0 && #[trigger] is_grandchild(rv, r, y),
    decreases m,
{
    if m > 0 {
        lemma_initial_queue_members(rv, m - 1);
        let a = initial_queue(rv, m - 1);
        if ring_depth(rv, m - 1) == 0 {
            let b = grandchildren(rv, m - 1);
            lemma_grandchildren_members(rv, m - 1);
            assert forall|y: int| #[trigger] a.contains(y) implies !b.contains(y) by {
                if b.contains(y) {
                    let r = choose|r: int| 0 <= r < m - 1 && ring_depth(rv, r) == 0 && #[trigger] is_grandchild(rv, r, y);
                    lemma_grandparent_unique(rv, r, y);
                    lemma_grandparent_unique(rv, m - 1, y);
                }
            }
            lemma_concat_nd(a, b);
            assert(initial_queue(rv, m) == a + b);
            assert forall|y: int|
                #[trigger] (a + b).contains(y) <==> exists|r: int|
                    0 <= r < m && ring_depth(rv, r) == 0 && #[trigger] is_grandchild(rv, r, y) by {
                if exists|r: int| 0 <= r < m && ring_depth(rv, r) == 0 && #[trigger] is_grandchild(rv, r, y) {
                    let r = choose|r: int| 0 <= r < m && ring_depth(rv, r) == 0 && #[trigger] is_grandchild(rv, r, y);
                    if r == m - 1 {
                        assert(b.contains(y));
                    } else {
                        assert(a.contains(y));
                    }
                }
                if b.contains(y) {
                    assert(is_grandchild(rv, m - 1, y));
                }
            }
        } else {
            assert(initial_queue(rv, m) == a);
        }
    } else {
        assert(initial_queue(rv, m) =~= Seq::<int>::empty());
    }
}

/// Splitting a properly nested blueprint keeps every ring exactly once.
/// With the rings of the blueprint numbered in order (`flatten_rings`), the
/// outer parts are the rings inside no other ring and the inner parts the
/// rings inside an even number (at least 2) of rings, each once and in the
/// order `outer_indices` and `inner_indices` give; every other ring (inside
/// an odd number of rings) is a hole of exactly one part, the part whose
/// contour it lies directly inside, and it comes once among that part's
/// holes; no contour of a part is a hole of a part.
pub proof fn lemma_divide_each_ring_once(bp: Seq<ExPolyView>)
    requires
        nested(flatten_rings(bp)),
    ensures
        ({
            let rv = flatten_rings(bp);
            let n = rv.len() as int;
            let o = outer_indices(rv);
            let i = inner_indices(rv);
            &&& divide_spec(bp).1 == o.map_values(|x: int| assembled(rv, x))
            &&& divide_spec(bp).0 == i.map_values(|x: int| assembled(rv, x))
            &&& o.no_duplicates()
            &&& i.no_duplicates()
            &&& forall|k: int| #[trigger] o.contains(k) <==> 0 <= k < n && ring_depth(rv, k) == 0
            &&& forall|k: int|
                #[trigger] i.contains(k) <==> 0 <= k < n && ring_depth(rv, k) % 2 == 0 && ring_depth(rv, k) >= 2
            &&& forall|p: int| 0 <= p < n ==> (#[trigger] children(rv, p)).no_duplicates()
            &&& forall|p: int, k: int|
                0 <= p < n && (o.contains(p) || i.contains(p)) && #[trigger] children(rv, p).contains(k)
                    ==> ring_depth(rv, k) % 2 == 1
            &&& forall|k: int|
                0 <= k < n && #[trigger] ring_depth(rv, k) % 2 == 1 ==> exists|p: int|
                    0 <= p < n && (o.contains(p) || i.contains(p)) && #[trigger] children(rv, p).contains(k)
            &&& forall|p: int, q: int, k: int|
                0 <= p < n && 0 <= q < n && #[trigger] children(rv, p).contains(k) && #[trigger] children(
                    rv,
                    q,
                ).contains(k) ==> p == q
        }),
{
    let rv = flatten_rings(bp);
    let n = rv.len() as int;
    let o = outer_indices(rv);
    let q = initial_queue(rv, n);
    let i = inner_indices(rv);
    lemma_outer_indices(rv, n);
    lemma_work_indices(rv, q, n as nat);
    lemma_initial_queue(rv, n);
    lemma_initial_queue_members(rv, n);
    assert forall|k: int| 0 <= k < q.len() implies 0 <= #[trigger] q[k] < rv.len() && ring_depth(rv, q[k]) == 2 by {}
    lemma_work_nd(rv, q, n as nat, 2);
    assert forall|k: int|
        #[trigger] i.contains(k) <==> 0 <= k < n && ring_depth(rv, k) % 2 == 0 && ring_depth(rv, k) >= 2 by {
        if i.contains(k) {
            let (j, t) = lemma_work_sound(rv, q, n as nat, k);
            lemma_desc_depth(rv, q[j], k, t);
        }
        if 0 <= k < n && ring_depth(rv, k) % 2 == 0 && ring_depth(rv, k) >= 2 {
            let t = ((ring_depth(rv, k) - 2) / 2) as nat;
            assert(ring_depth(rv, k) == 2 + 2 * t);
            let z = lemma_ancestor(rv, k, t);
            let m = parent_of(rv, z);
            let r = parent_of(rv, m);
            assert(is_grandchild(rv, r, z));
            assert(q.contains(z));
            let j = choose|j: int| 0 <= j < q.len() && q[j] == z;
            lemma_depth_bound(rv, k);
            lemma_work_complete(rv, q, n as nat, j, t, k);
        }
    }
    assert forall|p: int| 0 <= p < n implies (#[trigger] children(rv, p)).no_duplicates() by {
        lemma_children_members(rv, p, n);
    }
    assert forall|p: int, k: int|
        0 <= p < n && (o.contains(p) || i.contains(p)) && #[trigger] children(rv, p).contains(k) implies ring_depth(
        rv,
        k,
    ) % 2 == 1 by {
        lemma_children_members(rv, p, n);
    }
    assert forall|k: int| 0 <= k < n && #[trigger] ring_depth(rv, k) % 2 == 1 implies exists|p: int|
        0 <= p < n && (o.contains(p) || i.contains(p)) && #[trigger] children(rv, p).contains(k) by {
        let p = parent_of(rv, k);
        lemma_children_members(rv, p, n);
        assert(children(rv, p).contains(k));
        assert(o.contains(p) || i.contains(p));
    }
    assert forall|p: int, q2: int, k: int|
        0 <= p < n && 0 <= q2 < n && #[trigger] children(rv, p).contains(k) && #[trigger] children(rv, q2).contains(k)
        implies p == q2 by {
        lemma_children_members(rv, p, n);
        lemma_children_members(rv, q2, n);
        lemma_unique_parent(rv, p, q2, k);
    }
}

/// Outer parts of the skeleton get the waffled edges of the pad; inner parts
/// (holes of the model blueprint and what lies in them) are kept as they are.
#[derive(Debug)]
pub struct PadSkeleton {
    pub inner: Vec<ExPolygon>,
    pub outer: Vec<ExPolygon>,
}

proof fn lemma_flatten_ok(bp: Seq<ExPolyView>)
    requires
        blueprint_ok(bp),
    ensures
        forall|r: int| 0 <= r < flatten_rings(bp).len() ==> points_ok(#[trigger] flatten_rings(bp)[r]),
    decreases bp.len(),
{
    if bp.len() > 0 {
        let t = bp.drop_last();
        assert forall|i: int| 0 <= i < t.len() implies points_ok((#[trigger] t[i]).0) && forall|
            h: int,
        | 0 <= h < t[i].1.len() ==> points_ok(#[trigger] t[i].1[h]) by {
            assert(t[i] == bp[i]);
        }
        lemma_flatten_ok(t);
        let f = flatten_rings(bp);
        let g = flatten_rings(t);
        assert(bp.last() == bp[bp.len() - 1]);
        assert forall|r: int| 0 <= r < f.len() implies points_ok(#[trigger] f[r]) by {
            if r < g.len() {
                assert(f[r] == g[r]);
            } else if r == g.len() {
                assert(f[r] == bp.last().0);
            } else {
                assert(f[r] == bp.last().1[r - g.len() - 1]);
            }
        }
    }
}

/// The rings of the blueprint, flattened.
fn flatten(bp: &Vec<ExPolygon>) -> (r: Vec<Vec<Point>>)
    ensures
        r@.map_values(|v: Vec<Point>| v@) == flatten_rings(expolys_view(bp@)),
{
    let mut out: Vec<Vec<Point>> = Vec::new();
    let mut i: usize = 0;
    while i < bp.len()
        invariant
            i <= bp@.len(),
            out@.map_values(|v: Vec<Point>| v@) == flatten_rings(expolys_view(bp@.take(i as int))),
        decreases bp@.len() - i,
    {
        let ghost before = out@.map_values(|v: Vec<Point>| v@);
        out.push(bp[i].contour.points.clone());
        let mut h: usize = 0;
        while h < bp[i].holes.len()
            invariant
                i < bp@.len(),
                h <= bp@[i as int].holes@.len(),
                out@.map_values(|v: Vec<Point>| v@) == before + seq![bp@[i as int].contour.points@]
                    + polys_view(bp@[i as int].holes@.take(h as int)),
            decreases bp@[i as int].holes@.len() - h,
        {
            let ghost o = out@.map_values(|v: Vec<Point>| v@);
            out.push(bp[i].holes[h].points.clone());
            assert(out@.map_values(|v: Vec<Point>| v@) =~= o.push(bp@[i as int].holes@[h as int].points@));
            assert(polys_view(bp@[i as int].holes@.take(h as int + 1)) =~= polys_view(
                bp@[i as int].holes@.take(h as int),
            ).push(bp@[i as int].holes@[h as int].points@));
            h += 1;
        }
        assert(bp@[i as int].holes@.take(bp@[i as int].holes@.len() as int) =~= bp@[i as int].holes@);
        assert(expolys_view(bp@.take(i as int + 1)).drop_last() =~= expolys_view(bp@.take(i as int)));
        assert(expolys_view(bp@.take(i as int + 1)).last() == expoly_view(bp@[i as int]));
        i += 1;
    }
    assert(bp@.take(bp@.len() as int) =~= bp@);
    out
}

/// The vertex sequences of ring vectors.
pub open spec fn rings_view(rings: Seq<Vec<Point>>) -> Seq<Seq<Point>> {
    rings.map_values(|v: Vec<Point>| v@)
}

proof fn lemma_containing_count_bound(rings: Seq<Seq<Point>>, i: int, m: int)
    requires
        0 <= m,
    ensures
        containing_count(rings, i, m) <= m,
    decreases m,
{
    if m > 0 {
        lemma_containing_count_bound(rings, i, m - 1);
    }
}

/// The nesting depth of every ring.
fn ring_depths(rings: &Vec<Vec<Point>>) -> (r: Vec<usize>)
    requires
        forall|k: int| 0 <= k < rings@.len() ==> points_ok(#[trigger] rings@[k]@),
    ensures
        r@.len() == rings@.len(),
        forall|k: int| 0 <= k < rings@.len() ==> #[trigger] r@[k] == ring_depth(rings_view(rings@), k),
{
    let ghost rv = rings_view(rings@);
    let n = rings.len();
    let mut depth: Vec<usize> = Vec::new();
    let mut i: usize = 0;
    while i < n
        invariant
            n == rings@.len(),
            rv == rings_view(rings@),
            i <= n,
            depth@.len() == i,
            forall|k: int| 0 <= k < rings@.len() ==> points_ok(#[trigger] rings@[k]@),
            forall|k: int| 0 <= k < i ==> #[trigger] depth@[k] == ring_depth(rv, k),
        decreases n - i,
    {
        if rings[i].len() == 0 {
            depth.push(0);
        } else {
            let p = rings[i][0];
            assert(points_ok(rings@[i as int]@));
            assert(point_ok(rings@[i as int]@[0]));
            let mut count: usize = 0;
            let mut j: usize = 0;
            while j < n
                invariant
                    n == rings@.len(),
                    rv == rings_view(rings@),
                    i < n,
                    j <= n,
                    rings@[i as int]@.len() > 0,
                    p == rings@[i as int]@[0],
                    point_ok(p),
                    forall|k: int| 0 <= k < rings@.len() ==> points_ok(#[trigger] rings@[k]@),
                    count == containing_count(rv, i as int, j as int),
                    count <= j,
                decreases n - j,
            {
                assert(points_ok(rings@[j as int]@));
                if i != j && ring_contains_point(&rings[j], &p) {
                    count = count + 1;
                }
                j += 1;
            }
            depth.push(count);
        }
        i += 1;
    }
    depth
}

/// The children of ring `parent`, in order.
fn immediate_children(rings: &Vec<Vec<Point>>, depth: &Vec<usize>, parent: usize) -> (r: Vec<usize>)
    requires
        parent < rings@.len(),
        depth@.len() == rings@.len(),
        forall|k: int| 0 <= k < rings@.len() ==> points_ok(#[trigger] rings@[k]@),
        forall|k: int| 0 <= k < rings@.len() ==> #[trigger] depth@[k] == ring_depth(rings_view(rings@), k),
    ensures
        r@.map_values(|k: usize| k as int) == children(rings_view(rings@), parent as int),
        forall|k: int| 0 <= k < r@.len() ==> #[trigger] r@[k] < rings@.len(),
{
    let ghost rv = rings_view(rings@);
    let n = rings.len();
    let mut out: Vec<usize> = Vec::new();
    if rings[parent].len() == 0 {
        assert forall|m: int| 0 <= m <= n implies children_upto(rv, parent as int, m)
            == Seq::<int>::empty() by {
            lemma_no_children(rv, parent as int, m);
        }
        assert(out@.map_values(|k: usize| k as int) =~= Seq::<int>::empty());
        return out;
    }
    proof {
        lemma_containing_count_excl(rv, parent as int, n as int);
    }
    let mut k: usize = 0;
    while k < n
        invariant
            n == rings@.len(),
            rv == rings_view(rings@),
            parent < n,
            k <= n,
            depth@.len() == n,
            rings@[parent as int]@.len() > 0,
            depth@[parent as int] < n,
            forall|q: int| 0 <= q < rings@.len() ==> points_ok(#[trigger] rings@[q]@),
            forall|q: int| 0 <= q < rings@.len() ==> #[trigger] depth@[q] == ring_depth(rv, q),
            out@.map_values(|q: usize| q as int) == children_upto(rv, parent as int, k as int),
            forall|q: int| 0 <= q < out@.len() ==> #[trigger] out@[q] < n,
        decreases n - k,
    {
        assert(points_ok(rings@[parent as int]@));
        assert(points_ok(rings@[k as int]@));
        if k != parent && rings[k].len() > 0 && depth[k] == depth[parent] + 1 {
            assert(point_ok(rings@[k as int]@[0]));
            if ring_contains_point(&rings[parent], &rings[k][0]) {
                let ghost before = out@;
                out.push(k);
                assert(out@.map_values(|q: usize| q as int) =~= before.map_values(
                    |q: usize| q as int,
                ).push(k as int));
            }
        }
        k += 1;
    }
    out
}

proof fn lemma_containing_count_excl(rings: Seq<Seq<Point>>, i: int, m: int)
    requires
        0 <= i < m,
    ensures
        containing_count(rings, i, m) < m,
    decreases m,
{
    if m - 1 == i {
        lemma_containing_count_bound(rings, i, m - 1);
    } else {
        lemma_containing_count_excl(rings, i, m - 1);
    }
}

proof fn lemma_no_children(rv: Seq<Seq<Point>>, p: int, m: int)
    requires
        0 <= p < rv.len(),
        rv[p].len() == 0,
    ensures
        children_upto(rv, p, m) == Seq::<int>::empty(),
    decreases m,
{
    if m > 0 {
        lemma_no_children(rv, p, m - 1);
    }
}

/// The grandchildren of ring `idx`: the children of each of its children.
fn grandchildren_of(rings: &Vec<Vec<Point>>, depth: &Vec<usize>, kids: &Vec<usize>) -> (r: Vec<usize>)
    requires
        depth@.len() == rings@.len(),
        forall|k: int| 0 <= k < rings@.len() ==> points_ok(#[trigger] rings@[k]@),
        forall|k: int| 0 <= k < rings@.len() ==> #[trigger] depth@[k] == ring_depth(rings_view(rings@), k),
        forall|k: int| 0 <= k < kids@.len() ==> #[trigger] kids@[k] < rings@.len(),
    ensures
        r@.map_values(|k: usize| k as int) == children_of_all(
            rings_view(rings@),
            kids@.map_values(|k: usize| k as int),
            kids@.len() as int,
        ),
        forall|k: int| 0 <= k < r@.len() ==> #[trigger] r@[k] < rings@.len(),
{
    let ghost rv = rings_view(rings@);
    let ghost ks = kids@.map_values(|k: usize| k as int);
    let mut out: Vec<usize> = Vec::new();
    let mut j: usize = 0;
    while j < kids.len()
        invariant
            j <= kids@.len(),
            rv == rings_view(rings@),
            ks == kids@.map_values(|k: usize| k as int),
            depth@.len() == rings@.len(),
            forall|k: int| 0 <= k < rings@.len() ==> points_ok(#[trigger] rings@[k]@),
            forall|k: int| 0 <= k < rings@.len() ==> #[trigger] depth@[k] == ring_depth(rv, k),
            forall|k: int| 0 <= k < kids@.len() ==> #[trigger] kids@[k] < rings@.len(),
            out@.map_values(|k: usize| k as int) == children_of_all(rv, ks, j as int),
            forall|k: int| 0 <= k < out@.len() ==> #[trigger] out@[k] < rings@.len(),
        decreases kids@.len() - j,
    {
        let c = immediate_children(rings, depth, kids[j]);
        let ghost before = out@;
        let mut t: usize = 0;
        while t < c.len()
            invariant
                t <= c@.len(),
                out@ == before + c@.take(t as int),
                forall|k: int| 0 <= k < c@.len() ==> #[trigger] c@[k] < rings@.len(),
                forall|k: int| 0 <= k < before.len() ==> #[trigger] before[k] < rings@.len(),
            decreases c@.len() - t,
        {
            out.push(c[t]);
            assert(c@.take(t as int + 1) =~= c@.take(t as int).push(c@[t as int]));
            t += 1;
        }
        assert(c@.take(c@.len() as int) =~= c@);
        assert(ks[j as int] == kids@[j as int] as int);
        assert(out@.map_values(|k: usize| k as int) =~= before.map_values(|k: usize| k as int)
            + c@.map_values(|k: usize| k as int));
        j += 1;
    }
    assert(ks.len() == kids@.len());
    out
}

/// Ring `idx` with its children as holes, and its grandchildren.
fn assemble(rings: &Vec<Vec<Point>>, depth: &Vec<usize>, idx: usize) -> (r: (ExPolygon, Vec<usize>))
    requires
        idx < rings@.len(),
        depth@.len() == rings@.len(),
        forall|k: int| 0 <= k < rings@.len() ==> points_ok(#[trigger] rings@[k]@),
        forall|k: int| 0 <= k < rings@.len() ==> #[trigger] depth@[k] == ring_depth(rings_view(rings@), k),
    ensures
        expoly_view(r.0) == assembled(rings_view(rings@), idx as int),
        r.1@.map_values(|k: usize| k as int) == grandchildren(rings_view(rings@), idx as int),
        forall|k: int| 0 <= k < r.1@.len() ==> #[trigger] r.1@[k] < rings@.len(),
{
    let ghost rv = rings_view(rings@);
    let kids = immediate_children(rings, depth, idx);
    let mut holes: Vec<Polygon> = Vec::new();
    let mut h: usize = 0;
    while h < kids.len()
        invariant
            h <= kids@.len(),
            rv == rings_view(rings@),
            forall|k: int| 0 <= k < kids@.len() ==> #[trigger] kids@[k] < rings@.len(),
            polys_view(holes@) == kids@.take(h as int).map_values(|k: usize| rv[k as int]),
        decreases kids@.len() - h,
    {
        let ghost before = holes@;
        holes.push(Polygon { points: rings[kids[h]].clone() });
        assert(polys_view(holes@) =~= polys_view(before).push(rv[kids@[h as int] as int]));
        assert(kids@.take(h as int + 1).map_values(|k: usize| rv[k as int]) =~= kids@.take(
            h as int,
        ).map_values(|k: usize| rv[k as int]).push(rv[kids@[h as int] as int]));
        h += 1;
    }
    assert(kids@.take(kids@.len() as int) =~= kids@);
    let ghost ch = children(rv, idx as int);
    assert(ch =~= kids@.map_values(|k: usize| k as int));
    assert(polys_view(holes@) =~= ch.map_values(|k: int| rv[k]));
    let contour = Polygon { points: rings[idx].clone() };
    let gc = grandchildren_of(rings, depth, &kids);
    (ExPolygon { contour, holes }, gc)
}

/// Work off a stack of ring indices (top at the end): assemble the top
/// ring, work off its grandchildren, then the rest of the stack.
fn work_off_stack(
    rings: &Vec<Vec<Point>>,
    depth: &Vec<usize>,
    stack: &Vec<usize>,
    levels: usize,
    out: &mut Vec<ExPolygon>,
)
    requires
        depth@.len() == rings@.len(),
        forall|k: int| 0 <= k < rings@.len() ==> points_ok(#[trigger] rings@[k]@),
        forall|k: int| 0 <= k < rings@.len() ==> #[trigger] depth@[k] == ring_depth(rings_view(rings@), k),
        forall|k: int| 0 <= k < stack@.len() ==> #[trigger] stack@[k] < rings@.len(),
    ensures
        expolys_view(final(out)@) == expolys_view(old(out)@) + work_off(
            rings_view(rings@),
            stack@.map_values(|k: usize| k as int),
            levels as nat,
        ),
    decreases levels,
{
    let ghost rv = rings_view(rings@);
    let ghost s = stack@.map_values(|k: usize| k as int);
    if levels == 0 {
        assert(expolys_view(out@) =~= expolys_view(old(out)@) + work_off(rv, s, 0));
        return;
    }
    let mut i: usize = stack.len();
    assert(s.take(i as int) =~= s);
    while i > 0
        invariant
            i <= stack@.len(),
            levels > 0,
            rv == rings_view(rings@),
            s == stack@.map_values(|k: usize| k as int),
            depth@.len() == rings@.len(),
            forall|k: int| 0 <= k < rings@.len() ==> points_ok(#[trigger] rings@[k]@),
            forall|k: int| 0 <= k < rings@.len() ==> #[trigger] depth@[k] == ring_depth(rv, k),
            forall|k: int| 0 <= k < stack@.len() ==> #[trigger] stack@[k] < rings@.len(),
            expolys_view(out@) + work_off(rv, s.take(i as int), levels as nat) == expolys_view(
                old(out)@,
            ) + work_off(rv, s, levels as nat),
        decreases i,
    {
        let x = stack[i - 1];
        let (e, gc) = assemble(rings, depth, x);
        let ghost o1 = expolys_view(out@);
        out.push(e);
        assert(expolys_view(out@) =~= o1.push(expoly_view(e)));
        let ghost o2 = expolys_view(out@);
        work_off_stack(rings, depth, &gc, levels - 1, out);
        proof {
            let t = s.take(i as int);
            assert(t.last() == x as int);
            assert(t.drop_last() =~= s.take(i - 1));
            assert(work_off(rv, t, levels as nat) == seq![assembled(rv, x as int)] + work_off(
                rv,
                grandchildren(rv, x as int),
                (levels - 1) as nat,
            ) + work_off(rv, s.take(i - 1), levels as nat));
            assert(expolys_view(out@) + work_off(rv, s.take(i - 1), levels as nat) =~= o1 + work_off(
                rv,
                t,
                levels as nat,
            ));
        }
        i -= 1;
    }
    assert(work_off(rv, s.take(0), levels as nat) == Seq::<ExPolyView>::empty());
    assert(expolys_view(out@) =~= expolys_view(out@) + Seq::<ExPolyView>::empty());
    assert(s.take(stack@.len() as int) =~= s);
}

/// Split a blueprint into the pad skeleton: the top-level parts (rings at
/// depth 0 with their holes) are outer; every solid part nested inside a
/// hole, at any deeper level, is inner.
pub fn divide_blueprint(bp: &Vec<ExPolygon>) -> (r: PadSkeleton)
    requires
        blueprint_ok(expolys_view(bp@)),
    ensures
        (expolys_view(r.inner@), expolys_view(r.outer@)) == divide_spec(expolys_view(bp@)),
{
    let rings = flatten(bp);
    let ghost rv = rings_view(rings@);
    proof {
        assert(rv =~= flatten_rings(expolys_view(bp@)));
        lemma_flatten_ok(expolys_view(bp@));
        assert forall|k: int| 0 <= k < rings@.len() implies points_ok(#[trigger] rings@[k]@) by {
            assert(rv[k] == rings@[k]@);
        }
    }
    let depth = ring_depths(&rings);
    let n = rings.len();
    let mut outer: Vec<ExPolygon> = Vec::new();
    let mut queue: Vec<usize> = Vec::new();
    let mut idx: usize = 0;
    while idx < n
        invariant
            n == rings@.len(),
            idx <= n,
            rv == rings_view(rings@),
            depth@.len() == n,
            forall|k: int| 0 <= k < rings@.len() ==> points_ok(#[trigger] rings@[k]@),
            forall|k: int| 0 <= k < rings@.len() ==> #[trigger] depth@[k] == ring_depth(rv, k),
            expolys_view(outer@) == outer_upto(rv, idx as int),
            queue@.map_values(|k: usize| k as int) == initial_queue(rv, idx as int),
            forall|k: int| 0 <= k < queue@.len() ==> #[trigger] queue@[k] < n,
        decreases n - idx,
    {
        if depth[idx] == 0 {
            let (poly, gc) = assemble(&rings, &depth, idx);
            let ghost o = expolys_view(outer@);
            outer.push(poly);
            assert(expolys_view(outer@) =~= o.push(expoly_view(poly)));
            let ghost q0 = queue@;
            let mut t: usize = 0;
            while t < gc.len()
                invariant
                    t <= gc@.len(),
                    queue@ == q0 + gc@.take(t as int),
                    forall|k: int| 0 <= k < gc@.len() ==> #[trigger] gc@[k] < n,
                    forall|k: int| 0 <= k < q0.len() ==> #[trigger] q0[k] < n,
                decreases gc@.len() - t,
            {
                queue.push(gc[t]);
                assert(gc@.take(t as int + 1) =~= gc@.take(t as int).push(gc@[t as int]));
                t += 1;
            }
            assert(gc@.take(gc@.len() as int) =~= gc@);
            assert(queue@.map_values(|k: usize| k as int) =~= q0.map_values(|k: usize| k as int)
                + gc@.map_values(|k: usize| k as int));
        }
        idx += 1;
    }
    let mut inner: Vec<ExPolygon> = Vec::new();
    work_off_stack(&rings, &depth, &queue, n, &mut inner);
    assert(expolys_view(inner@) =~= Seq::<ExPolyView>::empty() + work_off(
        rv,
        initial_queue(rv, n as int),
        n as nat,
    ));
    PadSkeleton { inner, outer }
}

/// A support polygon answers for a pad part: their contour boxes intersect
/// and the part overlaps it.
pub open spec fn part_hits_support(part: ExPolyView, supp: ExPolyView) -> bool {
    spec_boxes_intersect(extents(supp.0), extents(part.0)) && expoly_overlaps(part, supp)
}

/// What the pad skeleton asks of the polygons that hold supports: polygons
/// are added, and a pad part is asked whether it intersects them.
pub trait IntersectorLike: Sized {
    /// The internal state is consistent.
    spec fn inv(&self) -> bool;

    /// The number of polygons kept.
    spec fn count(&self) -> nat;

    /// The answer `intersects` gives for a part.
    spec fn hits(&self, part: ExPolyView) -> bool;

    /// Add a support polygon.
    fn add(&mut self, ep: &ExPolygon)
        requires
            old(self).inv(),
            old(self).count() <= u32::MAX,
            expoly_ok(expoly_view(*ep)),
        ensures
            final(self).inv(),
            final(self).count() <= old(self).count() + 1,
            forall|p: ExPolyView|
                #[trigger] final(self).hits(p) == (old(self).hits(p) || part_hits_support(
                    p,
                    expoly_view(*ep),
                )),
    ;

    /// Whether the part intersects the polygons added so far.
    fn intersects(&self, poly: &ExPolygon) -> (r: bool)
        requires
            self.inv(),
            expoly_ok(expoly_view(*poly)),
            poly.contour.points@.len() > 0,
        ensures
            r == self.hits(expoly_view(*poly)),
    ;
}

/// Support polygons with a spatial index of their contour boxes.
pub struct Intersector {
    m_index: BoxIndex,
    m_polys: Vec<ExPolygon>,
}

impl View for Intersector {
    type V = Seq<ExPolyView>;

    closed spec fn view(&self) -> Seq<ExPolyView> {
        expolys_view(self.m_polys@)
    }
}

impl Intersector {
    /// An intersector without polygons.
    pub fn new() -> (r: Intersector)
        ensures
            r@ == Seq::<ExPolyView>::empty(),
            r.inv(),
    {
        let r = Intersector { m_index: BoxIndex::new(), m_polys: Vec::new() };
        assert(r@ =~= Seq::<ExPolyView>::empty());
        r
    }
}

impl IntersectorLike for Intersector {
    closed spec fn inv(&self) -> bool {
        &&& self.m_index@.len() == self.m_polys@.len()
        &&& forall|i: int|
            0 <= i < self.m_polys@.len() ==> (#[trigger] self.m_index@[i]).0 == extents(
                self.m_polys@[i].contour.points@,
            ) && self.m_index@[i].1 as int == i
        &&& forall|i: int| 0 <= i < self.m_polys@.len() ==> expoly_ok(#[trigger] self@[i])
    }

    closed spec fn count(&self) -> nat {
        self.m_polys@.len()
    }

    open spec fn hits(&self, part: ExPolyView) -> bool {
        exists|i: int| 0 <= i < self@.len() && #[trigger] part_hits_support(part, self@[i])
    }

    fn add(&mut self, ep: &ExPolygon) {
        let ghost old_view = self@;
        let n = self.m_index.size();
        self.m_polys.push(ep.clone());
        self.m_index.insert_box(BoundingBox::new_from_points_slice(&ep.contour.points), n as u32);
        assert(self@ =~= old_view.push(expoly_view(*ep)));
        assert(self.m_polys@[n as int].contour.points@ == ep.contour.points@);
        assert forall|p: ExPolyView|
            #[trigger] self.hits(p) == (old(self).hits(p) || part_hits_support(
                p,
                expoly_view(*ep),
            )) by {
            if old(self).hits(p) {
                let i = choose|i: int|
                    0 <= i < old_view.len() && #[trigger] part_hits_support(p, old_view[i]);
                assert(self@[i] == old_view[i]);
            }
            if part_hits_support(p, expoly_view(*ep)) {
                assert(self@[n as int] == expoly_view(*ep));
            }
            if self.hits(p) {
                let i = choose|i: int|
                    0 <= i < self@.len() && #[trigger] part_hits_support(p, self@[i]);
                if i < n {
                    assert(self@[i] == old_view[i]);
                }
            }
        }
    }

    fn intersects(&self, poly: &ExPolygon) -> (r: bool) {
        let ghost pv = expoly_view(*poly);
        let bb = BoundingBox::new_from_points_slice(&poly.contour.points);
        let qres = self.m_index.query(&bb, QueryType::Intersects);
        proof {
            lemma_query_exact(self.m_index@, bb, QueryType::Intersects);
        }
        let mut is_overlap = false;
        let mut k: usize = 0;
        while k < qres.len() && !is_overlap
            invariant
                k <= qres@.len(),
                self.inv(),
                pv == expoly_view(*poly),
                bb == extents(poly.contour.points@),
                expoly_ok(pv),
                poly.contour.points@.len() > 0,
                qres@ == query_spec(self.m_index@, bb, QueryType::Intersects),
                forall|j: int|
                    0 <= j < qres@.len() ==> spec_boxes_intersect((#[trigger] qres@[j]).0, bb)
                        && self.m_index@.contains(qres@[j]),
                is_overlap ==> self.hits(pv),
                !is_overlap ==> forall|j: int|
                    0 <= j < k ==> !#[trigger] expoly_overlaps(
                        pv,
                        self@[qres@[j].1 as int],
                    ),
            decreases qres@.len() - k,
        {
            let el = qres[k];
            let ghost w = choose|w: int| 0 <= w < self.m_index@.len() && self.m_index@[w] == el;
            assert(self.m_index@[w] == el);
            assert(el.1 as int == w);
            assert(self@[w] == expoly_view(self.m_polys@[w]));
            is_overlap = expolygon_overlaps(poly, &self.m_polys[el.1 as usize]);
            if is_overlap {
                assert(part_hits_support(pv, self@[w]));
            }
            k += 1;
        }
        proof {
            if !is_overlap && self.hits(pv) {
                let i = choose|i: int| 0 <= i < self@.len() && #[trigger] part_hits_support(pv, self@[i]);
                assert(spec_boxes_intersect(self.m_index@[i].0, bb));
                assert(crate::sla::spat_index::query_pred(
                    self.m_index@[i],
                    bb,
                    QueryType::Intersects,
                ));
                assert(qres@.contains(self.m_index@[i]));
                let j = choose|j: int| 0 <= j < qres@.len() && qres@[j] == self.m_index@[i];
                assert(qres@[j].1 as int == i);
                assert(!expoly_overlaps(pv, self@[qres@[j].1 as int]));
            }
        }
        is_overlap
    }
}

/// The intersector that finds every part supported, for a pad everywhere.
pub struct DummyIntersector;

impl IntersectorLike for DummyIntersector {
    open spec fn inv(&self) -> bool {
        true
    }

    open spec fn count(&self) -> nat {
        0
    }

    open spec fn hits(&self, part: ExPolyView) -> bool {
        true
    }

    fn add(&mut self, ep: &ExPolygon) {
    }

    fn intersects(&self, poly: &ExPolygon) -> (r: bool) {
        true
    }
}

/// With the intersector of a pad everywhere, removing the parts that host no
/// support keeps every part.
pub proof fn lemma_pad_everywhere(d: DummyIntersector, parts: Seq<ExPolyView>)
    ensures
        parts.filter(|p: ExPolyView| d.hits(p)) == parts,
    decreases parts.len(),
{
    reveal(Seq::filter);
    if parts.len() > 0 {
        lemma_pad_everywhere(d, parts.drop_last());
        assert(parts.drop_last().push(parts.last()) =~= parts);
    }
}

/// Some support polygon of `supp` answers for the part.
pub open spec fn some_support_hits(part: ExPolyView, supp: Seq<ExPolyView>) -> bool {
    exists|i: int| 0 <= i < supp.len() && #[trigger] part_hits_support(part, supp[i])
}

/// Add the support blueprint to the intersector.
pub fn add_supports_to_index<I: IntersectorLike>(m_intersector: &mut I, supp_bp: &Vec<ExPolygon>)
    requires
        old(m_intersector).inv(),
        old(m_intersector).count() + supp_bp@.len() <= u32::MAX + 1,
        forall|i: int| 0 <= i < supp_bp@.len() ==> expoly_ok(expoly_view(#[trigger] supp_bp@[i])),
    ensures
        final(m_intersector).inv(),
        forall|p: ExPolyView|
            #[trigger] final(m_intersector).hits(p) == (old(m_intersector).hits(p)
                || some_support_hits(p, expolys_view(supp_bp@))),
{
    let ghost sv = expolys_view(supp_bp@);
    let mut i: usize = 0;
    while i < supp_bp.len()
        invariant
            i <= supp_bp@.len(),
            sv == expolys_view(supp_bp@),
            m_intersector.inv(),
            m_intersector.count() <= old(m_intersector).count() + i,
            old(m_intersector).count() + supp_bp@.len() <= u32::MAX + 1,
            forall|k: int| 0 <= k < supp_bp@.len() ==> expoly_ok(expoly_view(#[trigger] supp_bp@[k])),
            forall|p: ExPolyView|
                #[trigger] m_intersector.hits(p) == (old(m_intersector).hits(p) || some_support_hits(
                    p,
                    sv.take(i as int),
                )),
        decreases supp_bp@.len() - i,
    {
        let ghost before = *m_intersector;
        m_intersector.add(&supp_bp[i]);
        assert forall|p: ExPolyView|
            #[trigger] m_intersector.hits(p) == (old(m_intersector).hits(p) || some_support_hits(
                p,
                sv.take(i + 1),
            )) by {
            let t = sv.take(i as int);
            let t1 = sv.take(i + 1);
            assert(t1[i as int] == expoly_view(supp_bp@[i as int]));
            if some_support_hits(p, t) {
                let k = choose|k: int| 0 <= k < t.len() && #[trigger] part_hits_support(p, t[k]);
                assert(t1[k] == t[k]);
            }
            if some_support_hits(p, t1) {
                let k = choose|k: int| 0 <= k < t1.len() && #[trigger] part_hits_support(p, t1[k]);
                if k < i {
                    assert(t1[k] == t[k]);
                }
            }
            assert(before.hits(p) == (old(m_intersector).hits(p) || some_support_hits(p, t)));
        }
        i += 1;
    }
    assert(sv.take(supp_bp@.len() as int) =~= sv);
}

/// Keep only the parts that the intersector finds supported, in order.
pub fn remove_redundant_parts<I: IntersectorLike>(m_intersector: &I, parts: &mut Vec<ExPolygon>)
    requires
        m_intersector.inv(),
        forall|i: int|
            0 <= i < old(parts)@.len() ==> expoly_ok(expoly_view(#[trigger] old(parts)@[i]))
                && old(parts)@[i].contour.points@.len() > 0,
    ensures
        expolys_view(final(parts)@) == expolys_view(old(parts)@).filter(
            |p: ExPolyView| m_intersector.hits(p),
        ),
{
    let ghost pv = expolys_view(parts@);
    let ghost pred = |p: ExPolyView| m_intersector.hits(p);
    let mut kept: Vec<ExPolygon> = Vec::new();
    let mut i: usize = 0;
    while i < parts.len()
        invariant
            i <= parts@.len(),
            parts@ == old(parts)@,
            pv == expolys_view(parts@),
            m_intersector.inv(),
            pred == (|p: ExPolyView| m_intersector.hits(p)),
            forall|k: int|
                0 <= k < parts@.len() ==> expoly_ok(expoly_view(#[trigger] parts@[k]))
                    && parts@[k].contour.points@.len() > 0,
            expolys_view(kept@) == pv.take(i as int).filter(pred),
        decreases parts@.len() - i,
    {
        proof {
            reveal(Seq::filter);
            assert(pv.take(i + 1).drop_last() =~= pv.take(i as int));
            assert(pv.take(i + 1).last() == expoly_view(parts@[i as int]));
        }
        if m_intersector.intersects(&parts[i]) {
            let ghost k0 = expolys_view(kept@);
            kept.push(parts[i].clone());
            assert(expolys_view(kept@) =~= k0.push(expoly_view(parts@[i as int])));
        }
        i += 1;
    }
    assert(pv.take(parts@.len() as int) =~= pv);
    *parts = kept;
}

} // verus!
