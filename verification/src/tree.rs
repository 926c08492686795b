use vstd::prelude::*;

use crate::error::{NegativeRangeError, OutOfRangeError};
use crate::octant::{Leaf, Node, Octant};
use crate::octant_id::Id;
use crate::sign::Sign;
use crate::util::{half_int, Abs, Half, NonNegative};
use vstd::pervasive::unreached;

verus! {

/// The absolute value of a mathematical integer.
pub open spec fn abs_int(x: int) -> int {
    if x >= 0 {
        x
    } else {
        -x
    }
}

/// The sign of a coordinate relative to a center on one axis: `Negative` iff
/// the coordinate is strictly below the center. A tie resolves to
/// `Positive`; this fixed tie-break keeps bucketing reproducible.
pub open spec fn sign_of(c: int, p: int) -> Sign {
    if p < c {
        Sign::Negative
    } else {
        Sign::Positive
    }
}

/// The center of the child octant on one axis: the parent's center shifted
/// by the child's own range (half the parent's), toward positive or negative
/// as the sign says.
pub open spec fn child_center(c: int, r: int, s: Sign) -> int {
    if s == Sign::Positive {
        c + half_int(r)
    } else {
        c - half_int(r)
    }
}

/// The range on one axis after `d` subdivisions of a root range `r0`.
pub open spec fn range_at(r0: int, d: int) -> int
    decreases d,
{
    if d <= 0 {
        r0
    } else {
        half_int(range_at(r0, d - 1))
    }
}

/// The sign recorded by path `id` at level `j` for axis `a` (0 is x, 1 is y,
/// 2 is z).
pub open spec fn axis_sign<const N: usize>(id: Id<N>, a: int, j: int) -> Sign {
    if a == 0 {
        crate::octant_id::byte_sign_x(id.bits@[j])
    } else if a == 1 {
        crate::octant_id::byte_sign_y(id.bits@[j])
    } else {
        crate::octant_id::byte_sign_z(id.bits@[j])
    }
}

/// The center on axis `a` of the octant reached by following the first `d`
/// levels of path `id`, starting from a root volume with center `c0` and
/// range `r0` on that axis.
pub open spec fn path_center<const N: usize>(c0: int, r0: int, id: Id<N>, a: int, d: int) -> int
    decreases d,
{
    if d <= 0 {
        c0
    } else {
        child_center(path_center(c0, r0, id, a, d - 1), range_at(r0, d - 1), axis_sign(id, a, d - 1))
    }
}

/// The center on one axis of the octant a point descends into after `d`
/// levels: at each level the point picks the side its coordinate lies on.
/// This is the canonical path of the point; it depends only on the root
/// geometry and the point itself.
pub open spec fn canon_center(c0: int, r0: int, p: int, d: int) -> int
    decreases d,
{
    if d <= 0 {
        c0
    } else {
        let c = canon_center(c0, r0, p, d - 1);
        child_center(c, range_at(r0, d - 1), sign_of(c, p))
    }
}

/// The sign a point resolves to at level `d` of its canonical path.
pub open spec fn canon_sign(c0: int, r0: int, p: int, d: int) -> Sign {
    sign_of(canon_center(c0, r0, p, d), p)
}

/// Two paths agree on every level below `d`.
pub open spec fn shares_prefix<const N: usize>(a: Id<N>, b: Id<N>, d: int) -> bool {
    forall|j: int| 0 <= j < d ==> a.bits@[j] == b.bits@[j]
}

/// The sign triple of a point relative to a center, axis by axis.
pub open spec fn point_signs(center: [i64; 3], p: [i64; 3]) -> (Sign, Sign, Sign) {
    (
        sign_of(center[0] as int, p[0] as int),
        sign_of(center[1] as int, p[1] as int),
        sign_of(center[2] as int, p[2] as int),
    )
}

/// The points among `pts`, in their original order, that classify to the
/// sign triple `s` relative to `center`.
pub open spec fn points_in_octant<U>(
    center: [i64; 3],
    pts: Seq<([i64; 3], U)>,
    s: (Sign, Sign, Sign),
) -> Seq<([i64; 3], U)>
    decreases pts.len(),
{
    if pts.len() == 0 {
        Seq::empty()
    } else if point_signs(center, pts.last().0) == s {
        points_in_octant(center, pts.drop_last(), s).push(pts.last())
    } else {
        points_in_octant(center, pts.drop_last(), s)
    }
}

/// Appending a point extends exactly the classified sequence of its own sign
/// triple and no other.
pub proof fn lemma_points_in_octant_push<U>(
    center: [i64; 3],
    pts: Seq<([i64; 3], U)>,
    e: ([i64; 3], U),
    s: (Sign, Sign, Sign),
)
    ensures
        point_signs(center, e.0) == s ==> points_in_octant(center, pts.push(e), s)
            == points_in_octant(center, pts, s).push(e),
        point_signs(center, e.0) != s ==> points_in_octant(center, pts.push(e), s)
            == points_in_octant(center, pts, s),
{
    assert(pts.push(e).drop_last() =~= pts);
    assert(pts.push(e).last() == e);
}

/// A non-empty classified sequence names a point with that sign triple.
pub proof fn lemma_points_in_octant_nonempty<U>(
    center: [i64; 3],
    pts: Seq<([i64; 3], U)>,
    s: (Sign, Sign, Sign),
)
    requires
        points_in_octant(center, pts, s).len() > 0,
    ensures
        exists|i: int| 0 <= i < pts.len() && point_signs(center, (#[trigger] pts[i]).0) == s,
    decreases pts.len(),
{
    if pts.len() > 0 {
        if point_signs(center, pts.last().0) == s {
            assert(point_signs(center, pts[pts.len() - 1].0) == s);
        } else {
            lemma_points_in_octant_nonempty(center, pts.drop_last(), s);
            let i = choose|i: int|
                0 <= i < pts.drop_last().len() && point_signs(
                    center,
                    (#[trigger] pts.drop_last()[i]).0,
                ) == s;
            assert(point_signs(center, pts[i].0) == s);
        }
    }
}

/// A well-formed path of depth `d` that lies on the point's canonical path:
/// on every level it records exactly the signs the point resolves to.
pub open spec fn canonical_id<const N: usize>(
    c0: [i64; 3],
    r0: [i64; 3],
    p: [i64; 3],
    id: Id<N>,
    d: int,
) -> bool {
    &&& id.wf()
    &&& id.depth() == d
    &&& forall|a: int, j: int|
        0 <= a < 3 && 0 <= j < d ==> #[trigger] axis_sign(id, a, j) == canon_sign(
            c0[a] as int,
            r0[a] as int,
            p[a] as int,
            j,
        )
}

/// A point's canonical path has exactly one well-formed id per depth: the
/// canonical signs determine every active byte.
pub proof fn lemma_canonical_id_unique<const N: usize>(
    c0: [i64; 3],
    r0: [i64; 3],
    p: [i64; 3],
    x: Id<N>,
    y: Id<N>,
    d: int,
)
    requires
        canonical_id(c0, r0, p, x, d),
        canonical_id(c0, r0, p, y, d),
    ensures
        x == y,
{
    crate::octant_id::lemma_first_zero(x.bits@);
    crate::octant_id::lemma_first_zero(y.bits@);
    assert forall|j: int| 0 <= j < d implies x.bits@[j] == y.bits@[j] by {
        assert(8 <= x.bits@[j] < 16);
        assert(8 <= y.bits@[j] < 16);
        crate::octant_id::lemma_byte_determined(x.bits@[j]);
        crate::octant_id::lemma_byte_determined(y.bits@[j]);
        assert(axis_sign(x, 0, j) == axis_sign(y, 0, j));
        assert(axis_sign(x, 1, j) == axis_sign(y, 1, j));
        assert(axis_sign(x, 2, j) == axis_sign(y, 2, j));
    }
    lemma_wf_id_eq(x, y);
}

/// Two well-formed children of the same position that record the same sign
/// triple are the same path.
pub proof fn lemma_child_id_determined<const N: usize>(a: Id<N>, b: Id<N>, base: Id<N>)
    requires
        a.wf(),
        b.wf(),
        0 <= base.depth(),
        a.depth() == base.depth() + 1,
        b.depth() == base.depth() + 1,
        shares_prefix(a, base, base.depth()),
        shares_prefix(b, base, base.depth()),
        a.signs_at(base.depth()) == b.signs_at(base.depth()),
    ensures
        a == b,
{
    let d = base.depth();
    crate::octant_id::lemma_first_zero(a.bits@);
    crate::octant_id::lemma_first_zero(b.bits@);
    assert(8 <= a.bits@[d] < 16);
    assert(8 <= b.bits@[d] < 16);
    crate::octant_id::lemma_byte_determined(a.bits@[d]);
    crate::octant_id::lemma_byte_determined(b.bits@[d]);
    assert(a.bits@[d] == b.bits@[d]);
    lemma_wf_id_eq(a, b);
}

/// A well-formed path is determined by its depth and its active bytes:
/// everything deeper is zero either way.
pub proof fn lemma_wf_id_eq<const N: usize>(a: Id<N>, b: Id<N>)
    requires
        a.wf(),
        b.wf(),
        a.depth() == b.depth(),
        shares_prefix(a, b, a.depth()),
    ensures
        a == b,
{
    assert(a.bits =~= b.bits);
}

/// Subdivision keeps ranges non-negative and shrinks the reach of any
/// octant: on each axis, the magnitude of the center plus twice the range
/// never grows past the root's. All arithmetic on octant geometry stays in
/// bounds because of this.
pub proof fn lemma_path_geometry<const N: usize>(c0: int, r0: int, id: Id<N>, a: int, d: int)
    requires
        r0 >= 0,
        d >= 0,
    ensures
        0 <= range_at(r0, d) <= r0,
        abs_int(path_center(c0, r0, id, a, d)) + 2 * range_at(r0, d) <= abs_int(c0) + 2 * r0,
    decreases d,
{
    if d > 0 {
        lemma_path_geometry(c0, r0, id, a, d - 1);
    }
}

/// The geometry reached through a path depends only on the levels actually
/// followed: paths that agree below `d` reach the same octant geometry.
pub proof fn lemma_path_center_congruent<const N: usize>(
    c0: int,
    r0: int,
    id1: Id<N>,
    id2: Id<N>,
    a: int,
    d: int,
)
    requires
        shares_prefix(id1, id2, d),
    ensures
        path_center(c0, r0, id1, a, d) == path_center(c0, r0, id2, a, d),
    decreases d,
{
    if d > 0 {
        lemma_path_center_congruent(c0, r0, id1, id2, a, d - 1);
    }
}

/// If a path records, on every level below `d`, exactly the signs the point
/// resolves to, then the path's geometry is the point's canonical geometry.
pub proof fn lemma_path_center_canon<const N: usize>(
    c0: int,
    r0: int,
    id: Id<N>,
    a: int,
    p: int,
    d: int,
)
    requires
        forall|j: int| 0 <= j < d ==> axis_sign(id, a, j) == canon_sign(c0, r0, p, j),
    ensures
        path_center(c0, r0, id, a, d) == canon_center(c0, r0, p, d),
    decreases d,
{
    if d > 0 {
        lemma_path_center_canon(c0, r0, id, a, p, d - 1);
    }
}

/// Law: sibling volumes tile their parent. On each axis, the positive
/// child's volume is `[c, c + 2*(r/2)]` and the negative child's is
/// `[c - 2*(r/2), c]`: they meet exactly at the parent's center and never
/// overlap beyond it. For an even range the two children cover the parent's
/// `[c - r, c + r]` exactly, with no gap; an odd range loses the truncated
/// half-unit at each outer edge.
pub proof fn lemma_children_tile_parent(c: int, r: int)
    requires
        r >= 0,
    ensures
        half_int(r) >= 0,
        child_center(c, r, Sign::Positive) - half_int(r) == c,
        child_center(c, r, Sign::Negative) + half_int(r) == c,
        child_center(c, r, Sign::Positive) + half_int(r) == c + 2 * half_int(r),
        child_center(c, r, Sign::Negative) - half_int(r) == c - 2 * half_int(r),
        r % 2 == 0 ==> child_center(c, r, Sign::Positive) + half_int(r) == c + r,
        r % 2 == 0 ==> child_center(c, r, Sign::Negative) - half_int(r) == c - r,
{
}

/// The total number of points stored across a sequence of octant entries.
pub open spec fn count_points<U, const N: usize>(s: Seq<(Id<N>, Octant<U>)>) -> nat
    decreases s.len(),
{
    if s.len() == 0 {
        0
    } else {
        count_points(s.drop_last()) + s.last().1.point_count()
    }
}

/// Appending an entry adds exactly its points to the total.
pub proof fn lemma_count_push<U, const N: usize>(s: Seq<(Id<N>, Octant<U>)>, e: (Id<N>, Octant<U>))
    ensures
        count_points(s.push(e)) == count_points(s) + e.1.point_count(),
{
    assert(s.push(e).drop_last() =~= s);
    assert(s.push(e).last() == e);
}

/// Replacing an entry adjusts the total by the difference of the two
/// entries' points.
pub proof fn lemma_count_update<U, const N: usize>(
    s: Seq<(Id<N>, Octant<U>)>,
    k: int,
    e: (Id<N>, Octant<U>),
)
    requires
        0 <= k < s.len(),
    ensures
        count_points(s.update(k, e)) + s[k].1.point_count() == count_points(s) + e.1.point_count(),
    decreases s.len(),
{
    if k == s.len() - 1 {
        assert(s.update(k, e).drop_last() =~= s.drop_last());
        assert(s.update(k, e).last() == e);
    } else {
        assert(s.update(k, e).drop_last() =~= s.drop_last().update(k, e));
        assert(s.update(k, e).last() == s.last());
        lemma_count_update(s.drop_last(), k, e);
    }
}

/// A node prefix stays present when entries keep their ids and nodes stay
/// nodes, whatever else is appended or changed.
pub proof fn lemma_has_node_prefix_mono<U, const N: usize>(
    s1: Seq<(Id<N>, Octant<U>)>,
    s2: Seq<(Id<N>, Octant<U>)>,
    id: Id<N>,
    j: int,
)
    requires
        has_node_prefix(s1, id, j),
        s2.len() >= s1.len(),
        forall|m: int|
            0 <= m < s1.len() ==> (#[trigger] s2[m]).0 == s1[m].0 && (s1[m].1 is Node
                ==> s2[m].1 is Node),
    ensures
        has_node_prefix(s2, id, j),
{
    let m = choose|m: int|
        {
            &&& 0 <= m < s1.len()
            &&& (#[trigger] s1[m]).1 is Node
            &&& s1[m].0.depth() == j
            &&& shares_prefix(s1[m].0, id, j)
        };
    assert(0 <= m < s2.len() && s2[m].1 is Node && s2[m].0.depth() == j && shares_prefix(
        s2[m].0,
        id,
        j,
    ));
}

/// Whether some entry of the mapping is stored under the given path.
pub open spec fn map_contains<U, const N: usize>(s: Seq<(Id<N>, Octant<U>)>, id: Id<N>) -> bool {
    exists|k: int| 0 <= k < s.len() && (#[trigger] s[k]).0 == id
}

/// An id stays present when entries keep their ids, whatever else changes
/// or is appended.
pub proof fn lemma_contains_mono<U, const N: usize>(
    s1: Seq<(Id<N>, Octant<U>)>,
    s2: Seq<(Id<N>, Octant<U>)>,
    id: Id<N>,
)
    requires
        map_contains(s1, id),
        s2.len() >= s1.len(),
        forall|m: int| 0 <= m < s1.len() ==> (#[trigger] s2[m]).0 == s1[m].0,
    ensures
        map_contains(s2, id),
{
    let k = choose|k: int| 0 <= k < s1.len() && (#[trigger] s1[k]).0 == id;
    assert(s2[k].0 == id);
}

/// Whether path `e` lies strictly below path `base` in the tree: it is
/// deeper and agrees with `base` on every level `base` uses.
pub open spec fn extends_at<const N: usize>(e: Id<N>, base: Id<N>) -> bool {
    e.depth() > base.depth() && shares_prefix(e, base, base.depth())
}

/// A node prefix of one path is also a node prefix of any path that agrees
/// with it on the levels below `j`.
pub proof fn lemma_has_node_prefix_shares<U, const N: usize>(
    s: Seq<(Id<N>, Octant<U>)>,
    id1: Id<N>,
    id2: Id<N>,
    j: int,
)
    requires
        has_node_prefix(s, id1, j),
        shares_prefix(id2, id1, j),
    ensures
        has_node_prefix(s, id2, j),
{
    let m = choose|m: int|
        {
            &&& 0 <= m < s.len()
            &&& (#[trigger] s[m]).1 is Node
            &&& s[m].0.depth() == j
            &&& shares_prefix(s[m].0, id1, j)
        };
    assert(0 <= m < s.len() && s[m].1 is Node && s[m].0.depth() == j && shares_prefix(
        s[m].0,
        id2,
        j,
    ));
}

/// The entry stored at a position is the one looked up under its id, as
/// long as ids are unique keys.
pub proof fn lemma_octant_at<U, const N: usize>(t: &Octree<U, N>, k: int)
    requires
        forall|k1: int, k2: int|
            0 <= k1 < k2 < t.tree@.len() ==> (#[trigger] t.tree@[k1]).0 != (#[trigger] t.tree@[k2]).0,
        0 <= k < t.tree@.len(),
    ensures
        t.contains(t.tree@[k].0),
        t.spec_index_of(t.tree@[k].0) == k,
        t.octant_at(t.tree@[k].0) == t.tree@[k].1,
{
    assert(t.contains(t.tree@[k].0));
    let k2 = t.spec_index_of(t.tree@[k].0);
    if k2 < k {
        assert(t.tree@[k2].0 != t.tree@[k].0);
    } else if k2 > k {
        assert(t.tree@[k].0 != t.tree@[k2].0);
    }
}

/// The leaves of a sequence of entries, kept in entry order.
pub open spec fn leaves_of<U, const N: usize>(s: Seq<(Id<N>, Octant<U>)>) -> Seq<Leaf<U>>
    decreases s.len(),
{
    if s.len() == 0 {
        Seq::empty()
    } else {
        match s.last().1 {
            Octant::Leaf(leaf) => leaves_of(s.drop_last()).push(leaf),
            Octant::Node(_) => leaves_of(s.drop_last()),
        }
    }
}

/// The sum of the point counts of a sequence of leaves.
pub open spec fn leaf_points_total<U>(ls: Seq<Leaf<U>>) -> nat
    decreases ls.len(),
{
    if ls.len() == 0 {
        0
    } else {
        leaf_points_total(ls.drop_last()) + ls.last().points@.len()
    }
}

/// Law: nodes hold no points, so the tree's total point count is exactly
/// the sum over its leaves.
pub proof fn lemma_total_points_in_leaves<U, const N: usize>(s: Seq<(Id<N>, Octant<U>)>)
    ensures
        count_points(s) == leaf_points_total(leaves_of(s)),
    decreases s.len(),
{
    if s.len() > 0 {
        lemma_total_points_in_leaves(s.drop_last());
        match s.last().1 {
            Octant::Leaf(leaf) => {
                assert(leaves_of(s) == leaves_of(s.drop_last()).push(leaf));
                assert(leaves_of(s).drop_last() =~= leaves_of(s.drop_last()));
            },
            Octant::Node(_) => {},
        }
    }
}

/// The root geometry a tree may be built over: no negative range, a center
/// whose magnitude is representable, and enough headroom that every derived
/// octant's geometry stays within the coordinate type.
pub open spec fn root_geometry_ok(center: [i64; 3], ranges: [i64; 3]) -> bool {
    forall|a: int|
        0 <= a < 3 ==> {
            &&& (center[a] as int) > i64::MIN as int
            &&& (ranges[a] as int) >= 0
            &&& abs_int(center[a] as int) + 2 * (ranges[a] as int) <= i64::MAX as int
        }
}

/// The geometry of one entry agrees, on every axis, with the geometry
/// derived by following its path from the root volume.
pub open spec fn octant_geometry_ok<U, const N: usize>(
    center: [i64; 3],
    ranges: [i64; 3],
    id: Id<N>,
    oct: Octant<U>,
) -> bool {
    forall|a: int|
        0 <= a < 3 ==> {
            &&& (#[trigger] oct.spec_center()[a]) as int == path_center(
                center[a] as int,
                ranges[a] as int,
                id,
                a,
                id.depth(),
            )
            &&& (oct.spec_ranges()[a]) as int == range_at(ranges[a] as int, id.depth())
        }
}

/// Every point of a leaf lies on the leaf's path, which is the point's own
/// canonical path: level by level, the leaf's recorded signs are the signs
/// the point itself resolves to. Points are bucketed by their coordinates
/// and never migrate to a region they do not classify into.
pub open spec fn leaf_points_canonical<U, const N: usize>(
    center: [i64; 3],
    ranges: [i64; 3],
    id: Id<N>,
    leaf: Leaf<U>,
) -> bool {
    forall|i: int, a: int, j: int|
        #![trigger axis_sign(id, a, j), leaf.points@[i]]
        0 <= i < leaf.points@.len() && 0 <= a < 3 && 0 <= j < id.depth() ==> axis_sign(id, a, j)
            == canon_sign(
            center[a] as int,
            ranges[a] as int,
            leaf.points@[i].0[a] as int,
            j,
        )
}

/// What holds of the entry at position `k` on its own: a well-formed path of
/// depth 1 to `N`, a node only above the last level, a leaf within the
/// threshold unless it sits at the last level, geometry derived from the
/// root volume along its path, and points that all classify onto that path.
pub open spec fn entry_wf<U, const N: usize>(
    center: [i64; 3],
    ranges: [i64; 3],
    threshold: usize,
    s: Seq<(Id<N>, Octant<U>)>,
    k: int,
) -> bool {
    let id = s[k].0;
    let oct = s[k].1;
    &&& id.wf()
    &&& 1 <= id.depth() <= N
    &&& (oct is Node ==> id.depth() < N)
    &&& (oct is Leaf ==> oct.point_count() <= threshold || id.depth() == N)
    &&& octant_geometry_ok(center, ranges, id, oct)
    &&& (oct is Leaf ==> leaf_points_canonical(center, ranges, id, oct->Leaf_0))
}

/// Some entry of the mapping is a node whose depth-`j` path agrees with the
/// first `j` levels of `id`.
pub open spec fn has_node_prefix<U, const N: usize>(
    s: Seq<(Id<N>, Octant<U>)>,
    id: Id<N>,
    j: int,
) -> bool {
    exists|m: int|
        {
            &&& 0 <= m < s.len()
            &&& (#[trigger] s[m]).1 is Node
            &&& s[m].0.depth() == j
            &&& shares_prefix(s[m].0, id, j)
        }
}

/// Every strict prefix of the entry at position `k` is present as a node:
/// the mapping encodes a tree whose interior positions are all nodes, and a
/// leaf never has descendants.
pub open spec fn entry_chain_wf<U, const N: usize>(s: Seq<(Id<N>, Octant<U>)>, k: int) -> bool {
    forall|j: int| 1 <= j < s[k].0.depth() ==> #[trigger] has_node_prefix(s, s[k].0, j)
}

/// The whole mapping is well-formed over the given root volume: ids are
/// unique keys, and every entry is locally well-formed with its prefix
/// chain present.
pub open spec fn map_wf<U, const N: usize>(
    center: [i64; 3],
    ranges: [i64; 3],
    threshold: usize,
    s: Seq<(Id<N>, Octant<U>)>,
) -> bool {
    &&& forall|k1: int, k2: int| 0 <= k1 < k2 < s.len() ==> s[k1].0 != s[k2].0
    &&& forall|k: int| 0 <= k < s.len() ==> #[trigger] entry_wf(center, ranges, threshold, s, k)
    &&& forall|k: int| 0 <= k < s.len() ==> #[trigger] entry_chain_wf(s, k)
}

/// Appending one point to a stored leaf preserves well-formedness and raises
/// the total by one, provided the grown leaf keeps within the threshold or
/// sits at the last level, and the point classifies onto the leaf's path.
pub proof fn lemma_wf_after_leaf_append<U, const N: usize>(
    center: [i64; 3],
    ranges: [i64; 3],
    threshold: usize,
    s1: Seq<(Id<N>, Octant<U>)>,
    s2: Seq<(Id<N>, Octant<U>)>,
    k: int,
    e: ([i64; 3], U),
)
    requires
        map_wf(center, ranges, threshold, s1),
        0 <= k < s1.len(),
        s1[k].1 is Leaf,
        s2.len() == s1.len(),
        forall|m: int| 0 <= m < s1.len() && m != k ==> (#[trigger] s2[m]) == s1[m],
        s2[k].0 == s1[k].0,
        s2[k].1 is Leaf,
        s2[k].1.spec_center() == s1[k].1.spec_center(),
        s2[k].1.spec_ranges() == s1[k].1.spec_ranges(),
        s2[k].1->Leaf_0.points@ == s1[k].1->Leaf_0.points@.push(e),
        s2[k].1.point_count() <= threshold || s1[k].0.depth() == N,
        forall|a: int, j: int|
            0 <= a < 3 && 0 <= j < s1[k].0.depth() ==> #[trigger] axis_sign(s1[k].0, a, j)
                == canon_sign(center[a] as int, ranges[a] as int, e.0[a] as int, j),
    ensures
        map_wf(center, ranges, threshold, s2),
        count_points(s2) == count_points(s1) + 1,
{
    lemma_count_update(s1, k, s2[k]);
    assert(s2 =~= s1.update(k, s2[k]));
    assert forall|m: int| 0 <= m < s2.len() implies entry_wf(center, ranges, threshold, s2, m) by {
        assert(entry_wf(center, ranges, threshold, s1, m));
        if m == k {
            assert forall|a: int|
                0 <= a < 3 implies (#[trigger] s2[m].1.spec_center()[a]) as int == path_center(
                center[a] as int,
                ranges[a] as int,
                s2[m].0,
                a,
                s2[m].0.depth(),
            ) && (s2[m].1.spec_ranges()[a]) as int == range_at(
                ranges[a] as int,
                s2[m].0.depth(),
            ) by {
                assert((s1[m].1.spec_center()[a]) as int == path_center(
                    center[a] as int,
                    ranges[a] as int,
                    s1[m].0,
                    a,
                    s1[m].0.depth(),
                ));
            }
            assert forall|i: int, a: int, j: int|
                #![trigger axis_sign(s2[m].0, a, j), s2[m].1->Leaf_0.points@[i]]
                0 <= i < s2[m].1->Leaf_0.points@.len() && 0 <= a < 3 && 0 <= j
                    < s2[m].0.depth() implies axis_sign(s2[m].0, a, j) == canon_sign(
                center[a] as int,
                ranges[a] as int,
                s2[m].1->Leaf_0.points@[i].0[a] as int,
                j,
            ) by {
                if i < s1[m].1->Leaf_0.points@.len() {
                    assert(s2[m].1->Leaf_0.points@[i] == s1[m].1->Leaf_0.points@[i]);
                    assert(axis_sign(s1[m].0, a, j) == canon_sign(
                        center[a] as int,
                        ranges[a] as int,
                        s1[m].1->Leaf_0.points@[i].0[a] as int,
                        j,
                    ));
                } else {
                    assert(s2[m].1->Leaf_0.points@[i] == e);
                    assert(axis_sign(s1[k].0, a, j) == canon_sign(
                        center[a] as int,
                        ranges[a] as int,
                        e.0[a] as int,
                        j,
                    ));
                }
            }
            assert(leaf_points_canonical(center, ranges, s2[m].0, s2[m].1->Leaf_0));
        }
    }
    assert forall|m: int| 0 <= m < s2.len() implies entry_chain_wf(s2, m) by {
        assert(entry_chain_wf(s1, m));
        assert forall|j: int| 1 <= j < s2[m].0.depth() implies has_node_prefix(s2, s2[m].0, j) by {
            assert(has_node_prefix(s1, s1[m].0, j));
            lemma_has_node_prefix_mono(s1, s2, s1[m].0, j);
        }
    }
}

/// Replacing a stored leaf below the last level by a node with the same
/// geometry preserves well-formedness; the leaf's points leave the total.
pub proof fn lemma_wf_after_leaf_to_node<U, const N: usize>(
    center: [i64; 3],
    ranges: [i64; 3],
    threshold: usize,
    s1: Seq<(Id<N>, Octant<U>)>,
    s2: Seq<(Id<N>, Octant<U>)>,
    k: int,
)
    requires
        map_wf(center, ranges, threshold, s1),
        0 <= k < s1.len(),
        s1[k].1 is Leaf,
        s1[k].0.depth() < N,
        s2.len() == s1.len(),
        forall|m: int| 0 <= m < s1.len() && m != k ==> (#[trigger] s2[m]) == s1[m],
        s2[k].0 == s1[k].0,
        s2[k].1 is Node,
        s2[k].1.spec_center() == s1[k].1.spec_center(),
        s2[k].1.spec_ranges() == s1[k].1.spec_ranges(),
    ensures
        map_wf(center, ranges, threshold, s2),
        count_points(s2) + s1[k].1.point_count() == count_points(s1),
{
    lemma_count_update(s1, k, s2[k]);
    assert(s2 =~= s1.update(k, s2[k]));
    assert forall|m: int| 0 <= m < s2.len() implies entry_wf(center, ranges, threshold, s2, m) by {
        assert(entry_wf(center, ranges, threshold, s1, m));
        if m == k {
            assert forall|a: int|
                0 <= a < 3 implies (#[trigger] s2[m].1.spec_center()[a]) as int == path_center(
                center[a] as int,
                ranges[a] as int,
                s2[m].0,
                a,
                s2[m].0.depth(),
            ) && (s2[m].1.spec_ranges()[a]) as int == range_at(
                ranges[a] as int,
                s2[m].0.depth(),
            ) by {
                assert((s1[m].1.spec_center()[a]) as int == path_center(
                    center[a] as int,
                    ranges[a] as int,
                    s1[m].0,
                    a,
                    s1[m].0.depth(),
                ));
            }
        }
    }
    assert forall|m: int| 0 <= m < s2.len() implies entry_chain_wf(s2, m) by {
        assert(entry_chain_wf(s1, m));
        assert forall|j: int| 1 <= j < s2[m].0.depth() implies has_node_prefix(s2, s2[m].0, j) by {
            assert(has_node_prefix(s1, s1[m].0, j));
            lemma_has_node_prefix_mono(s1, s2, s1[m].0, j);
        }
    }
}

/// Appending a fresh leaf under an unused path preserves well-formedness,
/// provided the leaf's geometry follows its path, its strict prefixes are
/// stored nodes, and its points classify onto its path.
pub proof fn lemma_wf_after_new_leaf<U, const N: usize>(
    center: [i64; 3],
    ranges: [i64; 3],
    threshold: usize,
    s1: Seq<(Id<N>, Octant<U>)>,
    s2: Seq<(Id<N>, Octant<U>)>,
)
    requires
        map_wf(center, ranges, threshold, s1),
        s2.len() == s1.len() + 1,
        forall|m: int| 0 <= m < s1.len() ==> (#[trigger] s2[m]) == s1[m],
        s2.last().0.wf(),
        1 <= s2.last().0.depth() <= N,
        s2.last().1 is Leaf,
        s2.last().1.point_count() <= threshold || s2.last().0.depth() == N,
        octant_geometry_ok(center, ranges, s2.last().0, s2.last().1),
        leaf_points_canonical(center, ranges, s2.last().0, s2.last().1->Leaf_0),
        forall|m: int| 0 <= m < s1.len() ==> (#[trigger] s1[m]).0 != s2.last().0,
        forall|j: int| 1 <= j < s2.last().0.depth() ==> has_node_prefix(s1, s2.last().0, j),
    ensures
        map_wf(center, ranges, threshold, s2),
        count_points(s2) == count_points(s1) + s2.last().1.point_count(),
{
    assert(s2 =~= s1.push(s2.last()));
    lemma_count_push(s1, s2.last());
    assert forall|m: int| 0 <= m < s2.len() implies entry_wf(center, ranges, threshold, s2, m) by {
        if m < s1.len() {
            assert(entry_wf(center, ranges, threshold, s1, m));
        }
    }
    assert forall|m: int| 0 <= m < s2.len() implies entry_chain_wf(s2, m) by {
        if m < s1.len() {
            assert(entry_chain_wf(s1, m));
            assert forall|j: int|
                1 <= j < s2[m].0.depth() implies has_node_prefix(s2, s2[m].0, j) by {
                assert(has_node_prefix(s1, s1[m].0, j));
                lemma_has_node_prefix_mono(s1, s2, s1[m].0, j);
            }
        } else {
            assert forall|j: int|
                1 <= j < s2[m].0.depth() implies has_node_prefix(s2, s2[m].0, j) by {
                assert(has_node_prefix(s1, s2.last().0, j));
                lemma_has_node_prefix_mono(s1, s2, s2.last().0, j);
            }
        }
    }
}

/// An incremental, bounded-depth octree over `i64` coordinates, carrying a
/// payload of type `U` with every point.
///
/// `N` is the maximum depth, 0-indexed and exclusive: a leaf at depth `N - 1`
/// never splits, whatever its point count.
pub struct Octree<U, const N: usize> {
    pub center: [i64; 3],
    pub ranges: [i64; 3],
    pub threshold: usize,
    pub tree: Vec<(Id<N>, Octant<U>)>,
}

impl<U, const N: usize> Octree<U, N> {
    /// The tree's structural invariant: established by `new`, preserved by
    /// `push`.
    pub open spec fn wf(&self) -> bool {
        &&& N >= 1
        &&& root_geometry_ok(self.center, self.ranges)
        &&& map_wf(self.center, self.ranges, self.threshold, self.tree@)
    }

    /// The total number of points stored anywhere in the tree.
    pub open spec fn total_points(&self) -> nat {
        count_points(self.tree@)
    }

    /// Whether some octant is stored under the given path.
    pub open spec fn contains(&self, id: Id<N>) -> bool {
        map_contains(self.tree@, id)
    }

    /// The position of the entry stored under the given path.
    pub open spec fn spec_index_of(&self, id: Id<N>) -> int {
        choose|k: int| 0 <= k < self.tree@.len() && (#[trigger] self.tree@[k]).0 == id
    }

    /// The octant stored under the given path.
    pub open spec fn octant_at(&self, id: Id<N>) -> Octant<U> {
        self.tree@[self.spec_index_of(id)].1
    }

    /// A stored leaf that the given point must land in: the leaf lies on the
    /// point's canonical sign path and has room — fewer points than the
    /// threshold, or it sits at the last level, where a leaf accepts any
    /// number. `push` is deterministic: whenever such a leaf exists, `push`
    /// returns its id, so pushing a point with the same coordinates again
    /// right after a push that left its leaf with room yields the same id.
    pub open spec fn target_leaf(&self, point: [i64; 3], id0: Id<N>) -> bool {
        &&& self.contains(id0)
        &&& self.octant_at(id0) is Leaf
        &&& forall|a: int, j: int|
            0 <= a < 3 && 0 <= j < id0.depth() ==> #[trigger] axis_sign(id0, a, j) == canon_sign(
                self.center[a] as int,
                self.ranges[a] as int,
                point[a] as int,
                j,
            )
        &&& (self.octant_at(id0)->Leaf_0.points@.len() < self.threshold || id0.depth() == N)
    }

    /// Create a tree over a root volume with the given center, per-axis
    /// ranges and split threshold. Fails iff some range component is
    /// negative; an all-zero range is accepted and degenerates to a tree
    /// that can only hold points on its center.
    pub fn new(center: [i64; 3], ranges: [i64; 3], threshold: usize) -> (r: Result<Octree<U, N>, NegativeRangeError>)
        requires
            N >= 1,
            forall|a: int|
                0 <= a < 3 ==> (center[a] as int) > i64::MIN as int && ((ranges[a] as int) >= 0
                    ==> abs_int(center[a] as int) + 2 * (ranges[a] as int) <= i64::MAX as int),
        ensures
            (match r {
                Ok(tree) => {
                    &&& forall|a: int| 0 <= a < 3 ==> (#[trigger] ranges[a]) as int >= 0
                    &&& tree.wf()
                    &&& tree.center == center
                    &&& tree.ranges == ranges
                    &&& tree.threshold == threshold
                    &&& tree.tree@.len() == 0
                    &&& tree.total_points() == 0
                },
                Err(_) => exists|a: int| 0 <= a < 3 && ((#[trigger] ranges[a]) as int) < 0,
            }),
    {
        let mut i: usize = 0;
        while i < 3
            invariant
                0 <= i <= 3,
                forall|a: int| 0 <= a < i ==> (#[trigger] ranges[a]) as int >= 0,
            decreases 3 - i,
        {
            if !ranges[i].is_non_negative() {
                return Err(NegativeRangeError);
            }
            i += 1;
        }
        Ok(Octree { center, ranges, threshold, tree: Vec::new() })
    }

    /// All the leaves of the tree, in storage order. The order carries no
    /// meaning and must not be relied on.
    pub fn leaves(&self) -> (r: Vec<&Leaf<U>>)
        ensures
            r@.map_values(|leaf: &Leaf<U>| *leaf) == leaves_of(self.tree@),
    {
        let ghost s = self.tree@;
        let mut r: Vec<&Leaf<U>> = Vec::new();
        let mut i: usize = 0;
        while i < self.tree.len()
            invariant
                0 <= i <= self.tree@.len(),
                s == self.tree@,
                r@.map_values(|leaf: &Leaf<U>| *leaf) == leaves_of(s.take(i as int)),
            decreases self.tree@.len() - i,
        {
            proof {
                assert(s.take(i + 1).drop_last() =~= s.take(i as int));
                assert(s.take(i + 1).last() == s[i as int]);
            }
            match &self.tree[i].1 {
                Octant::Leaf(leaf) => {
                    r.push(leaf);
                    proof {
                        assert(r@.map_values(|leaf: &Leaf<U>| *leaf) =~= leaves_of(
                            s.take(i + 1),
                        ));
                    }
                },
                Octant::Node(_) => {
                    proof {
                        assert(r@.map_values(|leaf: &Leaf<U>| *leaf) =~= leaves_of(
                            s.take(i + 1),
                        ));
                    }
                },
            }
            i += 1;
        }
        proof {
            assert(s.take(s.len() as int) =~= s);
        }
        r
    }

    /// Redistribute the points of a leaf that has just been replaced in the
    /// mapping by a node under `original_id`: each point is re-classified
    /// against the node's center and moved into the matching child, creating
    /// child leaves on first need.
    fn split_octant_to_next_depth(&mut self, original_id: Id<N>, original: Octant<U>)
        requires
            old(self).wf(),
            original_id.wf(),
            1 <= original_id.depth() < N,
            original is Leaf,
            original->Leaf_0.points@.len() <= old(self).threshold,
            octant_geometry_ok(old(self).center, old(self).ranges, original_id, original),
            leaf_points_canonical(
                old(self).center,
                old(self).ranges,
                original_id,
                original->Leaf_0,
            ),
            old(self).contains(original_id),
            old(self).octant_at(original_id) is Node,
            forall|m: int|
                0 <= m < old(self).tree@.len() ==> !extends_at(
                    (#[trigger] old(self).tree@[m]).0,
                    original_id,
                ),
        ensures
            final(self).wf(),
            final(self).center == old(self).center,
            final(self).ranges == old(self).ranges,
            final(self).threshold == old(self).threshold,
            final(self).total_points() == old(self).total_points()
                + original->Leaf_0.points@.len(),
            final(self).tree@.len() >= old(self).tree@.len(),
            forall|m: int|
                0 <= m < old(self).tree@.len() ==> (#[trigger] final(self).tree@[m]) == old(
                    self,
                ).tree@[m],
            // every entry the call adds is a child of the split position,
            // holding exactly the leaf's points that classify to its sign
            // triple, in their original order — and nothing else is touched
            forall|m: int|
                old(self).tree@.len() <= m < final(self).tree@.len() ==> {
                    let e = #[trigger] final(self).tree@[m];
                    &&& e.0.wf()
                    &&& e.0.depth() == original_id.depth() + 1
                    &&& shares_prefix(e.0, original_id, original_id.depth())
                    &&& e.1 is Leaf
                    &&& e.1->Leaf_0.points@ == points_in_octant(
                        original->Leaf_0.center,
                        original->Leaf_0.points@,
                        e.0.signs_at(original_id.depth()),
                    )
                    &&& e.1->Leaf_0.points@.len() > 0
                },
    {
        let ghost s0 = self.tree@;
        let ghost pts0 = original->Leaf_0.points@;
        let ghost dd = original_id.depth();
        let ghost k0 = self.spec_index_of(original_id);
        let ghost count0 = count_points(s0);

        let (center, ranges, mut points) = match original {
            Octant::Leaf(leaf) => (leaf.center, leaf.ranges, leaf.points),
            Octant::Node(_) => unreached(),
        };
        proof {
            assert(s0[k0].0 == original_id && s0[k0].1 is Node);
            assert forall|a: int|
                0 <= a < 3 implies (#[trigger] center[a]) as int == path_center(
                old(self).center[a] as int,
                old(self).ranges[a] as int,
                original_id,
                a,
                dd,
            ) by {
                assert((original.spec_center()[a]) as int == path_center(
                    old(self).center[a] as int,
                    old(self).ranges[a] as int,
                    original_id,
                    a,
                    dd,
                ));
            }
            assert forall|a: int|
                0 <= a < 3 implies (#[trigger] ranges[a]) as int == range_at(
                old(self).ranges[a] as int,
                dd,
            ) by {
                assert((original.spec_center()[a]) as int == path_center(
                    old(self).center[a] as int,
                    old(self).ranges[a] as int,
                    original_id,
                    a,
                    dd,
                ));
                assert((original.spec_ranges()[a]) as int == range_at(
                    old(self).ranges[a] as int,
                    dd,
                ));
            }
        }
        let ghost mut done: int = 0;
        while points.len() > 0
            invariant
                self.wf(),
                self.center == old(self).center,
                self.ranges == old(self).ranges,
                self.threshold == old(self).threshold,
                1 <= dd < N,
                original_id.wf(),
                original_id.depth() == dd,
                0 <= done <= pts0.len(),
                points@ == pts0.subrange(done, pts0.len() as int),
                pts0.len() <= self.threshold,
                forall|i: int, a: int, j: int|
                    #![trigger axis_sign(original_id, a, j), pts0[i]]
                    0 <= i < pts0.len() && 0 <= a < 3 && 0 <= j < dd ==> axis_sign(
                        original_id,
                        a,
                        j,
                    ) == canon_sign(
                        old(self).center[a] as int,
                        old(self).ranges[a] as int,
                        pts0[i].0[a] as int,
                        j,
                    ),
                count_points(self.tree@) == count0 + done,
                s0.len() <= self.tree@.len(),
                forall|m: int| 0 <= m < s0.len() ==> (#[trigger] self.tree@[m]) == s0[m],
                forall|m: int|
                    s0.len() <= m < self.tree@.len() ==> {
                        let e = #[trigger] self.tree@[m];
                        &&& e.0.wf()
                        &&& e.0.depth() == dd + 1
                        &&& shares_prefix(e.0, original_id, dd)
                        &&& e.1 is Leaf
                        &&& e.1.point_count() <= done
                        &&& e.1->Leaf_0.points@ == points_in_octant(
                            center,
                            pts0.take(done),
                            e.0.signs_at(dd),
                        )
                        &&& e.1->Leaf_0.points@.len() > 0
                    },
                forall|i: int|
                    #![trigger pts0[i]]
                    0 <= i < done ==> exists|m: int|
                        {
                            &&& s0.len() <= m < self.tree@.len()
                            &&& (#[trigger] self.tree@[m]).0.signs_at(dd) == point_signs(
                                center,
                                pts0[i].0,
                            )
                        },
                0 <= k0 < s0.len(),
                s0[k0].0 == original_id,
                s0[k0].1 is Node,
                forall|m: int|
                    0 <= m < s0.len() ==> !extends_at((#[trigger] s0[m]).0, original_id),
                forall|a: int|
                    0 <= a < 3 ==> (#[trigger] center[a]) as int == path_center(
                        old(self).center[a] as int,
                        old(self).ranges[a] as int,
                        original_id,
                        a,
                        dd,
                    ),
                forall|a: int|
                    0 <= a < 3 ==> (#[trigger] ranges[a]) as int == range_at(
                        old(self).ranges[a] as int,
                        dd,
                    ),
            decreases points@.len(),
        {
            let ghost s1 = self.tree@;
            let point = points.remove(0);
            proof {
                assert(points@ =~= pts0.subrange(done + 1, pts0.len() as int));
                assert(point == pts0[done]);
            }
            let signs = position_to_octant(&center, &point.0);
            let id = Id::child(original_id, signs[0], signs[1], signs[2]);
            proof {
                assert(id.wf() && id.depth() == dd + 1);
                assert(shares_prefix(id, original_id, dd));
                assert forall|a: int| 0 <= a < 3 implies axis_sign(id, a, dd) == signs[a] by {
                    assert(id.signs_at(dd) == (signs[0int], signs[1int], signs[2int]));
                }
                assert forall|a: int|
                    0 <= a < 3 implies path_center(
                        old(self).center[a] as int,
                        old(self).ranges[a] as int,
                        id,
                        a,
                        dd + 1,
                    ) == child_center(center[a] as int, ranges[a] as int, signs[a]) by {
                    lemma_path_center_congruent(
                        old(self).center[a] as int,
                        old(self).ranges[a] as int,
                        id,
                        original_id,
                        a,
                        dd,
                    );
                }
                assert forall|a: int|
                    0 <= a < 3 implies (#[trigger] ranges[a]) as int >= 0 && abs_int(
                    center[a] as int) + 2 * (ranges[a] as int) <= i64::MAX as int by {
                    lemma_path_geometry(
                        old(self).center[a] as int,
                        old(self).ranges[a] as int,
                        original_id,
                        a,
                        dd,
                    );
                }
                // the point lies on its own canonical path through the split
                // position, by the leaf's invariant
                assert forall|a: int, j: int|
                    0 <= a < 3 && 0 <= j < dd implies #[trigger] axis_sign(original_id, a, j)
                    == canon_sign(
                    old(self).center[a] as int,
                    old(self).ranges[a] as int,
                    point.0[a] as int,
                    j,
                ) by {
                    assert(pts0[done] == point);
                    assert(axis_sign(original_id, a, j) == canon_sign(
                        old(self).center[a] as int,
                        old(self).ranges[a] as int,
                        pts0[done].0[a] as int,
                        j,
                    ));
                }
                // and the classification against the leaf's center extends it
                // one level: that center is the point's canonical center here
                assert forall|a: int, j: int|
                    0 <= a < 3 && 0 <= j < dd + 1 implies #[trigger] axis_sign(id, a, j)
                    == canon_sign(
                    old(self).center[a] as int,
                    old(self).ranges[a] as int,
                    point.0[a] as int,
                    j,
                ) by {
                    if j < dd {
                        assert(id.bits@[j] == original_id.bits@[j]);
                        assert(axis_sign(original_id, a, j) == canon_sign(
                            old(self).center[a] as int,
                            old(self).ranges[a] as int,
                            point.0[a] as int,
                            j,
                        ));
                    } else {
                        lemma_path_center_canon(
                            old(self).center[a] as int,
                            old(self).ranges[a] as int,
                            original_id,
                            a,
                            point.0[a] as int,
                            dd,
                        );
                    }
                }
                assert(id.signs_at(dd) == point_signs(center, point.0));
            }
            match find_octant(&self.tree, &id) {
                Some(k) => {
                    proof {
                        assert(extends_at(self.tree@[k as int].0, original_id));
                        assert(k as int >= s0.len());
                        assert(self.tree@[k as int].1 is Leaf);
                        assert(entry_wf(
                            self.center,
                            self.ranges,
                            self.threshold,
                            self.tree@,
                            k as int,
                        ));
                    }
                    let mut slot = (id, Octant::Node(Node { center, ranges }));
                    core::mem::swap(&mut self.tree[k], &mut slot);
                    match slot.1 {
                        Octant::Leaf(mut leaf) => {
                            leaf.points.push(point);
                            self.tree[k] = (id, Octant::Leaf(leaf));
                            proof {
                                let s2 = self.tree@;
                                assert(s2 =~= s1.update(k as int, s2[k as int]));
                                assert(s2[k as int].1->Leaf_0.points@
                                    == s1[k as int].1->Leaf_0.points@.push(point));
                                assert(s2[k as int].1.point_count() <= done + 1 <= self.threshold);
                                assert forall|a: int, j: int|
                                    0 <= a < 3 && 0 <= j < s1[k as int].0.depth()
                                        implies #[trigger] axis_sign(s1[k as int].0, a, j)
                                    == canon_sign(
                                    self.center[a] as int,
                                    self.ranges[a] as int,
                                    point.0[a] as int,
                                    j,
                                ) by {
                                    assert(axis_sign(id, a, j) == canon_sign(
                                        old(self).center[a] as int,
                                        old(self).ranges[a] as int,
                                        point.0[a] as int,
                                        j,
                                    ));
                                }
                                lemma_wf_after_leaf_append(
                                    self.center,
                                    self.ranges,
                                    self.threshold,
                                    s1,
                                    s2,
                                    k as int,
                                    point,
                                );
                                assert(count_points(s2) == count0 + done + 1);
                                // the point joins the classified sequence of its
                                // own sign triple; every other child keeps its own
                                assert(pts0.take(done + 1) =~= pts0.take(done).push(pts0[done]));
                                lemma_points_in_octant_push(
                                    center,
                                    pts0.take(done),
                                    pts0[done],
                                    point_signs(center, point.0),
                                );
                                assert(s2[k as int].0.signs_at(dd) == point_signs(
                                    center,
                                    point.0,
                                ));
                                assert(s2[k as int].1->Leaf_0.points@ == points_in_octant(
                                    center,
                                    pts0.take(done + 1),
                                    s2[k as int].0.signs_at(dd),
                                ));
                                assert forall|m: int|
                                    s0.len() <= m < s2.len() && m != k as int implies (#[trigger] s2[m]).1->Leaf_0.points@
                                    == points_in_octant(
                                    center,
                                    pts0.take(done + 1),
                                    s2[m].0.signs_at(dd),
                                ) by {
                                    assert(s2[m] == s1[m]);
                                    if s1[m].0.signs_at(dd) == point_signs(center, point.0) {
                                        lemma_child_id_determined(s1[m].0, id, original_id);
                                        if m < k as int {
                                            assert(s1[m].0 != s1[k as int].0);
                                        } else {
                                            assert(s1[k as int].0 != s1[m].0);
                                        }
                                        assert(false);
                                    }
                                    lemma_points_in_octant_push(
                                        center,
                                        pts0.take(done),
                                        pts0[done],
                                        s1[m].0.signs_at(dd),
                                    );
                                }
                                assert forall|i: int|
                                    #![trigger pts0[i]]
                                    0 <= i < done + 1 implies exists|m: int|
                                        {
                                            &&& s0.len() <= m < s2.len()
                                            &&& (#[trigger] s2[m]).0.signs_at(dd) == point_signs(
                                                center,
                                                pts0[i].0,
                                            )
                                        } by {
                                    if i < done {
                                        let mm = choose|mm: int|
                                            {
                                                &&& s0.len() <= mm < s1.len()
                                                &&& (#[trigger] s1[mm]).0.signs_at(dd)
                                                    == point_signs(center, pts0[i].0)
                                            };
                                        assert(s2[mm].0.signs_at(dd) == point_signs(
                                            center,
                                            pts0[i].0,
                                        ));
                                    } else {
                                        assert(s2[k as int].0.signs_at(dd) == point_signs(
                                            center,
                                            pts0[i].0,
                                        ));
                                    }
                                }
                            }
                        },
                        Octant::Node(_) => {
                            proof {
                                assert(false);
                            }
                        },
                    }
                },
                None => {
                    let (ccenter, cranges) = range_and_center_for_octant(center, ranges, signs);
                    let mut pts: Vec<([i64; 3], U)> = Vec::new();
                    pts.push(point);
                    self.tree.push(
                        (id, Octant::Leaf(Leaf { center: ccenter, ranges: cranges, points: pts })),
                    );
                    proof {
                        let s2 = self.tree@;
                        let e = s2[s2.len() - 1];
                        lemma_count_push(s1, e);
                        assert(e.1.point_count() == 1);
                        // no child of this triple existed, so nothing classified
                        // to it yet: the lookup just missed its id
                        assert forall|m: int|
                            s0.len() <= m < s1.len() implies (#[trigger] s1[m]).0.signs_at(dd)
                            != point_signs(center, point.0) by {
                            if s1[m].0.signs_at(dd) == point_signs(center, point.0) {
                                lemma_child_id_determined(s1[m].0, id, original_id);
                                assert(s1[m].0 != id);
                                assert(false);
                            }
                        }
                        if points_in_octant(
                            center,
                            pts0.take(done),
                            point_signs(center, point.0),
                        ).len() > 0 {
                            lemma_points_in_octant_nonempty(
                                center,
                                pts0.take(done),
                                point_signs(center, point.0),
                            );
                            let i0 = choose|i0: int|
                                0 <= i0 < pts0.take(done).len() && point_signs(
                                    center,
                                    (#[trigger] pts0.take(done)[i0]).0,
                                ) == point_signs(center, point.0);
                            assert(pts0.take(done)[i0] == pts0[i0]);
                            let mm = choose|mm: int|
                                {
                                    &&& s0.len() <= mm < s1.len()
                                    &&& (#[trigger] s1[mm]).0.signs_at(dd) == point_signs(
                                        center,
                                        pts0[i0].0,
                                    )
                                };
                            assert(false);
                        }
                        assert(pts0.take(done + 1) =~= pts0.take(done).push(pts0[done]));
                        lemma_points_in_octant_push(
                            center,
                            pts0.take(done),
                            pts0[done],
                            point_signs(center, point.0),
                        );
                        assert(e.0.signs_at(dd) == point_signs(center, point.0));
                        assert(e.1->Leaf_0.points@ =~= points_in_octant(
                            center,
                            pts0.take(done + 1),
                            e.0.signs_at(dd),
                        ));
                        assert forall|m: int|
                            s0.len() <= m < s1.len() implies (#[trigger] s2[m]).1->Leaf_0.points@
                            == points_in_octant(
                            center,
                            pts0.take(done + 1),
                            s2[m].0.signs_at(dd),
                        ) by {
                            assert(s2[m] == s1[m]);
                            lemma_points_in_octant_push(
                                center,
                                pts0.take(done),
                                pts0[done],
                                s1[m].0.signs_at(dd),
                            );
                        }
                        assert forall|i: int|
                            #![trigger pts0[i]]
                            0 <= i < done + 1 implies exists|m: int|
                                {
                                    &&& s0.len() <= m < s2.len()
                                    &&& (#[trigger] s2[m]).0.signs_at(dd) == point_signs(
                                        center,
                                        pts0[i].0,
                                    )
                                } by {
                            if i < done {
                                let mm = choose|mm: int|
                                    {
                                        &&& s0.len() <= mm < s1.len()
                                        &&& (#[trigger] s1[mm]).0.signs_at(dd) == point_signs(
                                            center,
                                            pts0[i].0,
                                        )
                                    };
                                assert(s2[mm].0.signs_at(dd) == point_signs(center, pts0[i].0));
                            } else {
                                assert(s2[s2.len() - 1].0.signs_at(dd) == point_signs(
                                    center,
                                    pts0[i].0,
                                ));
                            }
                        }
                        assert forall|i: int, a: int, j: int|
                            #![trigger axis_sign(e.0, a, j), e.1->Leaf_0.points@[i]]
                            0 <= i < e.1->Leaf_0.points@.len() && 0 <= a < 3 && 0 <= j
                                < e.0.depth() implies axis_sign(e.0, a, j) == canon_sign(
                            self.center[a] as int,
                            self.ranges[a] as int,
                            e.1->Leaf_0.points@[i].0[a] as int,
                            j,
                        ) by {
                            assert(e.1->Leaf_0.points@[i] == point);
                            assert(axis_sign(id, a, j) == canon_sign(
                                self.center[a] as int,
                                self.ranges[a] as int,
                                point.0[a] as int,
                                j,
                            ));
                        }
                        assert(leaf_points_canonical(self.center, self.ranges, e.0, e.1->Leaf_0));
                        // the new child's geometry follows its path
                        assert forall|a: int|
                            0 <= a < 3 implies (#[trigger] e.1.spec_center()[a]) as int
                            == path_center(
                            self.center[a] as int,
                            self.ranges[a] as int,
                            id,
                            a,
                            dd + 1,
                        ) && (e.1.spec_ranges()[a]) as int == range_at(
                            self.ranges[a] as int,
                            dd + 1,
                        ) by {
                            assert((ccenter[a]) as int == child_center(
                                center[a] as int,
                                ranges[a] as int,
                                signs[a],
                            ));
                        }
                        assert(entry_wf(self.center, self.ranges, self.threshold, s2, s2.len() - 1));
                        assert forall|m: int| 0 <= m < s2.len() implies entry_wf(
                            self.center,
                            self.ranges,
                            self.threshold,
                            s2,
                            m,
                        ) by {
                            if m < s2.len() - 1 {
                                assert(entry_wf(self.center, self.ranges, self.threshold, s1, m));
                            }
                        }
                        // prefix chains: old entries keep their witnesses, the
                        // new child's chain runs through the split node and its
                        // own chain
                        assert forall|m: int| 0 <= m < s2.len() implies entry_chain_wf(s2, m) by {
                            if m < s2.len() - 1 {
                                assert(entry_chain_wf(s1, m));
                                assert forall|j: int|
                                    1 <= j < s2[m].0.depth() implies has_node_prefix(
                                    s2,
                                    s2[m].0,
                                    j,
                                ) by {
                                    assert(has_node_prefix(s1, s1[m].0, j));
                                    lemma_has_node_prefix_mono(s1, s2, s1[m].0, j);
                                }
                            } else {
                                assert forall|j: int| 1 <= j < dd + 1 implies has_node_prefix(
                                    s2,
                                    id,
                                    j,
                                ) by {
                                    if j == dd {
                                        assert(s2[k0].1 is Node && s2[k0].0.depth() == dd
                                            && shares_prefix(s2[k0].0, id, dd));
                                        assert(has_node_prefix(s2, id, j));
                                    } else {
                                        assert(entry_chain_wf(s1, k0));
                                        assert(has_node_prefix(s1, original_id, j));
                                        lemma_has_node_prefix_mono(s1, s2, original_id, j);
                                        lemma_has_node_prefix_shares(s2, original_id, id, j);
                                    }
                                }
                            }
                        }
                    }
                },
            }
            proof {
                done = done + 1;
            }
        }
        proof {
            assert(pts0.subrange(done, pts0.len() as int).len() == 0);
            assert(done == pts0.len());
            assert(pts0.take(done) =~= pts0);
        }
    }

    /// Insert a point with its payload. Fails with [`OutOfRangeError`], and
    /// changes nothing, iff on some axis `|point| - |center|` exceeds half
    /// the range — a check symmetric about the origin, not about the
    /// configured center. Otherwise the point descends from the root along
    /// its canonical sign path, landing in the first leaf that has room;
    /// a full leaf above the last level is split on the way down. Returns
    /// the id of the leaf that received the point: its signs are exactly the
    /// point's canonical signs, the point stands last in that leaf, and the
    /// tree holds one point more.
    #[verifier::rlimit(100)]
    pub fn push(&mut self, point: [i64; 3], data: U) -> (r: Result<Id<N>, OutOfRangeError>)
        requires
            old(self).wf(),
            forall|a: int| 0 <= a < 3 ==> ((#[trigger] point[a]) as int) > i64::MIN as int,
        ensures
            final(self).wf(),
            final(self).center == old(self).center,
            final(self).ranges == old(self).ranges,
            final(self).threshold == old(self).threshold,
            (r is Err) <==> exists|a: int|
                0 <= a < 3 && abs_int((#[trigger] point[a]) as int) - abs_int(
                    old(self).center[a] as int,
                ) > half_int(old(self).ranges[a] as int),
            r is Err ==> *final(self) == *old(self),
            r is Ok ==> {
                let id = r->Ok_0;
                &&& id.wf()
                &&& 1 <= id.depth() <= N
                &&& forall|a: int, j: int|
                    0 <= a < 3 && 0 <= j < id.depth() ==> #[trigger] axis_sign(id, a, j)
                        == canon_sign(
                        old(self).center[a] as int,
                        old(self).ranges[a] as int,
                        point[a] as int,
                        j,
                    )
                &&& final(self).contains(id)
                &&& final(self).octant_at(id) is Leaf
                &&& final(self).octant_at(id)->Leaf_0.points@.len() >= 1
                &&& final(self).octant_at(id)->Leaf_0.points@.last() == (point, data)
                &&& final(self).total_points() == old(self).total_points() + 1
                &&& forall|id2: Id<N>|
                    old(self).contains(id2) ==> #[trigger] final(self).contains(id2)
                &&& forall|id0: Id<N>|
                    #[trigger] old(self).target_leaf(point, id0) ==> r->Ok_0 == id0
                &&& final(self).tree@.len() >= old(self).tree@.len()
                &&& forall|m: int|
                    0 <= m < old(self).tree@.len() ==> {
                        let e0 = (#[trigger] old(self).tree@[m]);
                        let e1 = final(self).tree@[m];
                        &&& e1.0 == e0.0
                        &&& (e0.1 is Node ==> e1.1 == e0.1)
                        &&& (e0.1 is Leaf ==> {
                            ||| e1.1 == e0.1
                            ||| (e1.0 == r->Ok_0 && e1.1 is Leaf && e1.1->Leaf_0.points@
                                == e0.1->Leaf_0.points@.push((point, data)))
                            ||| (e1.1 is Node && e1.1.spec_center() == e0.1.spec_center()
                                && e1.1.spec_ranges() == e0.1.spec_ranges()
                                && e0.1->Leaf_0.points@.len() >= old(self).threshold
                                && e0.0.depth() < N)
                        })
                    }
            },
    {
        let mut i: usize = 0;
        while i < 3
            invariant
                0 <= i <= 3,
                self.wf(),
                *self == *old(self),
                forall|a: int| 0 <= a < 3 ==> ((#[trigger] point[a]) as int) > i64::MIN as int,
                forall|a: int|
                    0 <= a < i ==> abs_int((#[trigger] point[a]) as int) - abs_int(
                        self.center[a] as int,
                    ) <= half_int(self.ranges[a] as int),
            decreases 3 - i,
        {
            if Abs::abs(&point[i]) - Abs::abs(&self.center[i]) > Half::half(&self.ranges[i]) {
                return Err(OutOfRangeError);
            }
            i += 1;
        }

        let mut center = self.center;
        let mut ranges = self.ranges;
        let mut signs = position_to_octant(&center, &point);
        let mut id = Id::root(signs[0], signs[1], signs[2]);
        let mut level: usize = 0;
        proof {
            assert forall|a: int| 0 <= a < 3 implies #[trigger] axis_sign(id, a, 0) == canon_sign(
                old(self).center[a] as int,
                old(self).ranges[a] as int,
                point[a] as int,
                0,
            ) by {
                assert(id.signs_at(0) == (signs[0int], signs[1int], signs[2int]));
            }
            assert forall|id0: Id<N>| #[trigger] old(self).target_leaf(point, id0) implies {
                &&& self.tree@ == old(self).tree@
                &&& 1 <= id0.depth()
                &&& shares_prefix(id, id0, 1)
            } by {
                let kk = old(self).spec_index_of(id0);
                assert(0 <= kk < old(self).tree@.len() && old(self).tree@[kk].0 == id0);
                assert(entry_wf(
                    old(self).center,
                    old(self).ranges,
                    old(self).threshold,
                    old(self).tree@,
                    kk,
                ));
                lemma_target_byte(old(self), point, id0, 0);
                assert(id.bits@[0] == crate::octant_id::level_byte(
                    signs[0int],
                    signs[1int],
                    signs[2int],
                ));
            }
        }
        loop
            invariant
                self.wf(),
                self.center == old(self).center,
                self.ranges == old(self).ranges,
                self.threshold == old(self).threshold,
                0 <= level < N,
                id.wf(),
                id.depth() == level + 1,
                forall|a: int| 0 <= a < 3 ==> ((#[trigger] point[a]) as int) > i64::MIN as int,
                forall|a: int|
                    0 <= a < 3 ==> abs_int((#[trigger] point[a]) as int) - abs_int(
                        old(self).center[a] as int,
                    ) <= half_int(old(self).ranges[a] as int),
                forall|a: int|
                    0 <= a < 3 ==> (#[trigger] center[a]) as int == canon_center(
                        old(self).center[a] as int,
                        old(self).ranges[a] as int,
                        point[a] as int,
                        level as int,
                    ),
                forall|a: int|
                    0 <= a < 3 ==> (#[trigger] center[a]) as int == path_center(
                        old(self).center[a] as int,
                        old(self).ranges[a] as int,
                        id,
                        a,
                        level as int,
                    ),
                forall|a: int|
                    0 <= a < 3 ==> (#[trigger] ranges[a]) as int == range_at(
                        old(self).ranges[a] as int,
                        level as int,
                    ),
                forall|a: int|
                    0 <= a < 3 ==> #[trigger] signs[a] == canon_sign(
                        old(self).center[a] as int,
                        old(self).ranges[a] as int,
                        point[a] as int,
                        level as int,
                    ),
                forall|a: int, j: int|
                    0 <= a < 3 && 0 <= j <= level ==> #[trigger] axis_sign(id, a, j) == canon_sign(
                        old(self).center[a] as int,
                        old(self).ranges[a] as int,
                        point[a] as int,
                        j,
                    ),
                forall|j: int| 1 <= j <= level ==> has_node_prefix(self.tree@, id, j),
                count_points(self.tree@) == old(self).total_points(),
                forall|id2: Id<N>|
                    old(self).contains(id2) ==> #[trigger] map_contains(self.tree@, id2),
                forall|id0: Id<N>|
                    #[trigger] old(self).target_leaf(point, id0) ==> {
                        &&& self.tree@ == old(self).tree@
                        &&& level + 1 <= id0.depth()
                        &&& shares_prefix(id, id0, level + 1)
                    },
                self.tree@.len() >= old(self).tree@.len(),
                forall|m: int|
                    0 <= m < old(self).tree@.len() ==> {
                        let e0 = (#[trigger] old(self).tree@[m]);
                        let e1 = self.tree@[m];
                        &&& e1.0 == e0.0
                        &&& (e0.1 is Node ==> e1.1 == e0.1)
                        &&& (e0.1 is Leaf ==> {
                            ||| e1.1 == e0.1
                            ||| (e1.1 is Node && e1.1.spec_center() == e0.1.spec_center()
                                && e1.1.spec_ranges() == e0.1.spec_ranges()
                                && e0.1->Leaf_0.points@.len() >= old(self).threshold
                                && e0.0.depth() < N)
                        })
                    },
            decreases N - level,
        {
            proof {
                assert forall|a: int|
                    0 <= a < 3 implies (#[trigger] ranges[a]) as int >= 0 && abs_int(
                    center[a] as int) + 2 * (ranges[a] as int) <= i64::MAX as int by {
                    lemma_path_geometry(
                        old(self).center[a] as int,
                        old(self).ranges[a] as int,
                        id,
                        a,
                        level as int,
                    );
                }
            }
            let k: usize = match find_octant(&self.tree, &id) {
                Some(k) => k,
                None => {
                    let ghost s1 = self.tree@;
                    proof {
                        // nothing is stored under this path, so no leaf on the
                        // point's canonical path awaits it
                        assert forall|id0: Id<N>|
                            !(#[trigger] old(self).target_leaf(point, id0)) by {
                            if old(self).target_leaf(point, id0) {
                                lemma_target_prefix_entry(old(self), point, id0, id);
                                let kk = choose|kk: int|
                                    0 <= kk < old(self).tree@.len() && (#[trigger] old(
                                        self,
                                    ).tree@[kk]).0 == id;
                                assert(s1[kk].0 != id);
                                assert(false);
                            }
                        }
                    }
                    let (ccenter, cranges) = range_and_center_for_octant(center, ranges, signs);
                    self.tree.push(
                        (
                            id,
                            Octant::Leaf(
                                Leaf { center: ccenter, ranges: cranges, points: Vec::new() },
                            ),
                        ),
                    );
                    proof {
                        let s2 = self.tree@;
                        let e = s2[s2.len() - 1];
                        lemma_count_push(s1, e);
                        assert forall|a: int|
                            0 <= a < 3 implies (#[trigger] e.1.spec_center()[a]) as int
                            == path_center(
                            self.center[a] as int,
                            self.ranges[a] as int,
                            id,
                            a,
                            level + 1,
                        ) && (e.1.spec_ranges()[a]) as int == range_at(
                            self.ranges[a] as int,
                            level + 1,
                        ) by {
                            assert((ccenter[a]) as int == child_center(
                                center[a] as int,
                                ranges[a] as int,
                                signs[a],
                            ));
                            assert(axis_sign(id, a, level as int) == signs[a]);
                        }
                        assert(octant_geometry_ok(self.center, self.ranges, e.0, e.1));
                        assert(leaf_points_canonical(self.center, self.ranges, e.0, e.1->Leaf_0));
                        lemma_wf_after_new_leaf(
                            self.center,
                            self.ranges,
                            self.threshold,
                            s1,
                            s2,
                        );
                        assert forall|j: int| 1 <= j <= level implies has_node_prefix(
                            self.tree@,
                            id,
                            j,
                        ) by {
                            lemma_has_node_prefix_mono(s1, s2, id, j);
                        }
                        assert forall|id2: Id<N>|
                            old(self).contains(id2) implies #[trigger] map_contains(
                            self.tree@,
                            id2,
                        ) by {
                            lemma_contains_mono(s1, s2, id2);
                        }
                    }
                    self.tree.len() - 1
                },
            };
            let (is_leaf, oc, orr, olen) = match &self.tree[k].1 {
                Octant::Leaf(leaf) => (true, leaf.center, leaf.ranges, leaf.points.len()),
                Octant::Node(node) => (false, node.center, node.ranges, 0),
            };
            proof {
                assert(entry_wf(self.center, self.ranges, self.threshold, self.tree@, k as int));
            }
            if is_leaf && (level == N - 1 || olen < self.threshold) {
                let ghost s1 = self.tree@;
                let mut slot = (id, Octant::Node(Node { center, ranges }));
                core::mem::swap(&mut self.tree[k], &mut slot);
                match slot.1 {
                    Octant::Leaf(mut leaf) => {
                        leaf.points.push((point, data));
                        self.tree[k] = (id, Octant::Leaf(leaf));
                        proof {
                            let s2 = self.tree@;
                            assert(s2 =~= s1.update(k as int, s2[k as int]));
                            assert(s2[k as int].1->Leaf_0.points@
                                == s1[k as int].1->Leaf_0.points@.push((point, data)));
                            assert(s2[k as int].1.point_count() <= self.threshold || s1[
                                k as int].0.depth() == N);
                            assert forall|a: int, j: int|
                                0 <= a < 3 && 0 <= j < s1[k as int].0.depth()
                                    implies #[trigger] axis_sign(s1[k as int].0, a, j)
                                == canon_sign(
                                self.center[a] as int,
                                self.ranges[a] as int,
                                point[a] as int,
                                j,
                            ) by {
                                assert(axis_sign(id, a, j) == canon_sign(
                                    old(self).center[a] as int,
                                    old(self).ranges[a] as int,
                                    point[a] as int,
                                    j,
                                ));
                            }
                            lemma_wf_after_leaf_append(
                                self.center,
                                self.ranges,
                                self.threshold,
                                s1,
                                s2,
                                k as int,
                                (point, data),
                            );
                            assert(count_points(s2) == old(self).total_points() + 1);
                            assert(self.wf());
                            lemma_octant_at(self, k as int);
                            assert forall|id2: Id<N>|
                                old(self).contains(id2) implies #[trigger] final(self).contains(
                                id2,
                            ) by {
                                lemma_contains_mono(s1, s2, id2);
                            }
                            assert forall|id0: Id<N>|
                                #[trigger] old(self).target_leaf(point, id0) implies id == id0 by {
                                lemma_target_prefix_entry(old(self), point, id0, id);
                                if id.depth() < id0.depth() {
                                    // the entry under this path would have to be a
                                    // node, yet we appended to a leaf there
                                    lemma_octant_at(old(self), k as int);
                                    assert(false);
                                }
                            }
                        }
                        return Ok(id);
                    },
                    Octant::Node(_) => unreached(),
                }
            }
            let ghost prev_id = id;
            let ghost s_pre = self.tree@;
            if is_leaf {
                // a full leaf above the last level: split it and descend
                proof {
                    assert(level < N - 1);
                    assert(olen <= self.threshold);
                    // a leaf that is full and above the last level is no
                    // target, and it blocks any deeper target on this path
                    assert forall|id0: Id<N>| !(#[trigger] old(self).target_leaf(point, id0)) by {
                        if old(self).target_leaf(point, id0) {
                            lemma_target_prefix_entry(old(self), point, id0, id);
                            lemma_octant_at(old(self), k as int);
                            if id.depth() < id0.depth() {
                                assert(false);
                            } else {
                                assert(old(self).octant_at(id0)->Leaf_0.points@.len() == olen);
                                assert(false);
                            }
                        }
                    }
                    assert forall|m: int|
                        0 <= m < self.tree@.len() implies !extends_at(
                        (#[trigger] self.tree@[m]).0,
                        id,
                    ) by {
                        let s = self.tree@;
                        if extends_at(s[m].0, id) {
                            assert(entry_wf(self.center, self.ranges, self.threshold, s, m));
                            assert(entry_chain_wf(s, m));
                            assert(has_node_prefix(s, s[m].0, id.depth()));
                            let m2 = choose|m2: int|
                                {
                                    &&& 0 <= m2 < s.len()
                                    &&& (#[trigger] s[m2]).1 is Node
                                    &&& s[m2].0.depth() == id.depth()
                                    &&& shares_prefix(s[m2].0, s[m].0, id.depth())
                                };
                            assert(entry_wf(self.center, self.ranges, self.threshold, s, m2));
                            assert(shares_prefix(s[m2].0, id, id.depth()));
                            lemma_wf_id_eq(s[m2].0, id);
                            if m2 < k as int {
                                assert(s[m2].0 != s[k as int].0);
                            } else if m2 > k as int {
                                assert(s[k as int].0 != s[m2].0);
                            }
                            assert(false);
                        }
                    }
                }
                let mut slot = (id, Octant::Node(Node { center: oc, ranges: orr }));
                core::mem::swap(&mut self.tree[k], &mut slot);
                proof {
                    let s2 = self.tree@;
                    assert(s2 =~= s_pre.update(k as int, s2[k as int]));
                    lemma_wf_after_leaf_to_node(
                        self.center,
                        self.ranges,
                        self.threshold,
                        s_pre,
                        s2,
                        k as int,
                    );
                    assert(count_points(s2) + olen == old(self).total_points());
                    assert(self.wf());
                    lemma_octant_at(self, k as int);
                    assert forall|m: int|
                        0 <= m < s2.len() implies !extends_at((#[trigger] s2[m]).0, id) by {
                        assert(!extends_at(s_pre[m].0, id));
                    }
                }
                match slot.1 {
                    Octant::Leaf(leaf) => {
                        self.split_octant_to_next_depth(id, Octant::Leaf(leaf));
                    },
                    Octant::Node(_) => unreached(),
                }
                proof {
                    let s2 = s_pre.update(k as int, (id, Octant::Node(Node { center: oc, ranges: orr })));
                    let s3 = self.tree@;
                    assert(0 <= k < s_pre.len() && s2.len() == s_pre.len());
                    assert(count_points(s3) == old(self).total_points());
                    assert(s3[k as int] == s2[k as int]);
                    assert forall|j: int| 1 <= j <= level implies has_node_prefix(s3, id, j) by {
                        assert(has_node_prefix(s_pre, id, j));
                        lemma_has_node_prefix_mono(s_pre, s2, id, j);
                        lemma_has_node_prefix_mono(s2, s3, id, j);
                    }
                    assert forall|id2: Id<N>|
                        old(self).contains(id2) implies #[trigger] map_contains(s3, id2) by {
                        lemma_contains_mono(s_pre, s2, id2);
                        lemma_contains_mono(s2, s3, id2);
                    }
                }
            }
            // descend into the node's volume and derive the next level's id
            center = oc;
            ranges = orr;
            signs = position_to_octant(&center, &point);
            id = Id::child(id, signs[0], signs[1], signs[2]);
            level += 1;
            proof {
                let s3 = self.tree@;
                let lev = level - 1;
                assert(0 <= k < s3.len() && s3[k as int].0 == prev_id && s3[k as int].1 is Node);
                assert(entry_wf(self.center, self.ranges, self.threshold, s3, k as int));
                assert(prev_id.depth() == lev + 1 && lev + 1 < N);
                assert forall|a: int|
                    0 <= a < 3 implies (#[trigger] center[a]) as int == path_center(
                    old(self).center[a] as int,
                    old(self).ranges[a] as int,
                    prev_id,
                    a,
                    lev + 1,
                ) && (ranges[a]) as int == range_at(old(self).ranges[a] as int, lev + 1) by {
                    assert((s3[k as int].1.spec_center()[a]) as int == path_center(
                        old(self).center[a] as int,
                        old(self).ranges[a] as int,
                        prev_id,
                        a,
                        lev + 1,
                    ));
                }
                assert forall|a: int|
                    0 <= a < 3 implies (#[trigger] center[a]) as int == canon_center(
                    old(self).center[a] as int,
                    old(self).ranges[a] as int,
                    point[a] as int,
                    lev + 1,
                ) by {
                    lemma_path_center_canon(
                        old(self).center[a] as int,
                        old(self).ranges[a] as int,
                        prev_id,
                        a,
                        point[a] as int,
                        lev + 1,
                    );
                }
                assert(id.wf() && id.depth() == lev + 2);
                assert(shares_prefix(id, prev_id, lev + 1));
                assert forall|a: int, j: int|
                    0 <= a < 3 && 0 <= j <= lev + 1 implies #[trigger] axis_sign(id, a, j)
                    == canon_sign(
                    old(self).center[a] as int,
                    old(self).ranges[a] as int,
                    point[a] as int,
                    j,
                ) by {
                    if j == lev + 1 {
                        assert(id.signs_at(lev + 1) == (signs[0int], signs[1int], signs[2int]));
                    } else {
                        assert(id.signs_at(j) == prev_id.signs_at(j));
                        assert(axis_sign(id, a, j) == axis_sign(prev_id, a, j));
                    }
                }
                assert forall|a: int|
                    0 <= a < 3 implies (#[trigger] center[a]) as int == path_center(
                    old(self).center[a] as int,
                    old(self).ranges[a] as int,
                    id,
                    a,
                    lev + 1,
                ) by {
                    lemma_path_center_congruent(
                        old(self).center[a] as int,
                        old(self).ranges[a] as int,
                        id,
                        prev_id,
                        a,
                        lev + 1,
                    );
                }
                assert forall|j: int| 1 <= j <= lev + 1 implies has_node_prefix(s3, id, j) by {
                    if j == lev + 1 {
                        assert(0 <= k < s3.len() && s3[k as int].1 is Node && s3[k as int].0.depth()
                            == j && shares_prefix(s3[k as int].0, id, j));
                        assert(has_node_prefix(s3, id, j));
                    } else {
                        assert(has_node_prefix(s3, prev_id, j));
                        lemma_has_node_prefix_shares(s3, prev_id, id, j);
                    }
                }
                assert forall|id0: Id<N>| #[trigger] old(self).target_leaf(point, id0) implies {
                    &&& self.tree@ == old(self).tree@
                    &&& level + 1 <= id0.depth()
                    &&& shares_prefix(id, id0, level + 1)
                } by {
                    lemma_target_prefix_entry(old(self), point, id0, prev_id);
                    if prev_id.depth() == id0.depth() {
                        // the target would be the very entry we descended out
                        // of, yet that entry is a node and a target is a leaf
                        lemma_octant_at(old(self), k as int);
                        assert(false);
                    }
                    lemma_target_byte(old(self), point, id0, lev + 1);
                    assert(id.bits@[lev + 1] == crate::octant_id::level_byte(
                        signs[0int],
                        signs[1int],
                        signs[2int],
                    ));
                    assert(shares_prefix(id, id0, lev + 2));
                }
            }
        }
    }
}

/// In a well-formed tree, a leaf the point must land in (a target) pins down
/// the whole path toward it: any well-formed path that agrees with the
/// target's path and is no deeper is itself stored — as a node above the
/// target, and as the target itself at its depth.
pub proof fn lemma_target_prefix_entry<U, const N: usize>(
    t: &Octree<U, N>,
    point: [i64; 3],
    id0: Id<N>,
    cur: Id<N>,
)
    requires
        t.wf(),
        t.target_leaf(point, id0),
        cur.wf(),
        1 <= cur.depth() <= id0.depth(),
        shares_prefix(cur, id0, cur.depth()),
    ensures
        map_contains(t.tree@, cur),
        cur.depth() < id0.depth() ==> t.octant_at(cur) is Node,
        cur.depth() == id0.depth() ==> cur == id0,
{
    let s = t.tree@;
    let kk = t.spec_index_of(id0);
    assert(0 <= kk < s.len() && s[kk].0 == id0);
    assert(entry_wf(t.center, t.ranges, t.threshold, s, kk));
    if cur.depth() == id0.depth() {
        lemma_wf_id_eq(cur, id0);
        assert(s[kk].0 == cur);
    } else {
        assert(entry_chain_wf(s, kk));
        assert(has_node_prefix(s, id0, cur.depth()));
        let m2 = choose|m2: int|
            {
                &&& 0 <= m2 < s.len()
                &&& (#[trigger] s[m2]).1 is Node
                &&& s[m2].0.depth() == cur.depth()
                &&& shares_prefix(s[m2].0, id0, cur.depth())
            };
        assert(entry_wf(t.center, t.ranges, t.threshold, s, m2));
        assert(shares_prefix(s[m2].0, cur, cur.depth()));
        lemma_wf_id_eq(s[m2].0, cur);
        assert(s[m2].0 == cur);
        lemma_octant_at(t, m2);
    }
}

/// On every level toward a target leaf, the target's path byte is exactly
/// the byte encoding the point's canonical signs on that level.
pub proof fn lemma_target_byte<U, const N: usize>(
    t: &Octree<U, N>,
    point: [i64; 3],
    id0: Id<N>,
    j: int,
)
    requires
        t.wf(),
        t.target_leaf(point, id0),
        0 <= j < id0.depth(),
    ensures
        id0.bits@[j] == crate::octant_id::level_byte(
            canon_sign(t.center[0] as int, t.ranges[0] as int, point[0] as int, j),
            canon_sign(t.center[1] as int, t.ranges[1] as int, point[1] as int, j),
            canon_sign(t.center[2] as int, t.ranges[2] as int, point[2] as int, j),
        ),
{
    let s = t.tree@;
    let kk = t.spec_index_of(id0);
    assert(0 <= kk < s.len() && s[kk].0 == id0);
    assert(entry_wf(t.center, t.ranges, t.threshold, s, kk));
    assert(id0.wf() && 0 <= j < id0.depth() <= N);
    assert(8 <= id0.bits@[j] < 16);
    crate::octant_id::lemma_byte_determined(id0.bits@[j]);
    assert(axis_sign(id0, 0, j) == canon_sign(
        t.center[0] as int,
        t.ranges[0] as int,
        point[0] as int,
        j,
    ));
    assert(axis_sign(id0, 1, j) == canon_sign(
        t.center[1] as int,
        t.ranges[1] as int,
        point[1] as int,
        j,
    ));
    assert(axis_sign(id0, 2, j) == canon_sign(
        t.center[2] as int,
        t.ranges[2] as int,
        point[2] as int,
        j,
    ));
}

/// The per-axis signs of a point relative to a center: `Negative` where the
/// point's coordinate is strictly below the center's, `Positive` otherwise.
fn position_to_octant(center: &[i64; 3], point: &[i64; 3]) -> (signs: [Sign; 3])
    ensures
        forall|a: int|
            0 <= a < 3 ==> #[trigger] signs[a] == sign_of(center[a] as int, point[a] as int),
{
    let mut signs = [Sign::Positive; 3];
    let mut i: usize = 0;
    while i < 3
        invariant
            0 <= i <= 3,
            forall|a: int|
                0 <= a < i ==> #[trigger] signs[a] == sign_of(center[a] as int, point[a] as int),
            forall|a: int| i <= a < 3 ==> #[trigger] signs[a] == Sign::Positive,
        decreases 3 - i,
    {
        if point[i] < center[i] {
            signs[i] = Sign::Negative;
        }
        i += 1;
    }
    signs
}

/// The geometry of the child octant picked by `signs` out of a parent
/// octant: each axis range halves, and each axis center shifts by the
/// child's own range in the direction of the sign.
fn range_and_center_for_octant(
    parent_center: [i64; 3],
    parent_ranges: [i64; 3],
    signs: [Sign; 3],
) -> (r: ([i64; 3], [i64; 3]))
    requires
        forall|a: int| 0 <= a < 3 ==> (#[trigger] parent_ranges[a]) as int >= 0,
        forall|a: int|
            0 <= a < 3 ==> abs_int((#[trigger] parent_center[a]) as int) + 2 * (
            parent_ranges[a] as int) <= i64::MAX as int,
    ensures
        forall|a: int|
            0 <= a < 3 ==> (#[trigger] r.0[a]) as int == child_center(
                parent_center[a] as int,
                parent_ranges[a] as int,
                signs[a],
            ),
        forall|a: int|
            0 <= a < 3 ==> (#[trigger] r.1[a]) as int == half_int(parent_ranges[a] as int),
{
    let mut center = parent_center;
    let mut ranges = parent_ranges;
    let mut i: usize = 0;
    while i < 3
        invariant
            0 <= i <= 3,
            forall|a: int| 0 <= a < 3 ==> (#[trigger] parent_ranges[a]) as int >= 0,
            forall|a: int|
                0 <= a < 3 ==> abs_int((#[trigger] parent_center[a]) as int) + 2 * (
                parent_ranges[a] as int) <= i64::MAX as int,
            forall|a: int|
                0 <= a < i ==> (#[trigger] center[a]) as int == child_center(
                    parent_center[a] as int,
                    parent_ranges[a] as int,
                    signs[a],
                ),
            forall|a: int| 0 <= a < i ==> (#[trigger] ranges[a]) as int == half_int(parent_ranges[a] as int),
            forall|a: int| i <= a < 3 ==> (#[trigger] center[a]) == parent_center[a],
            forall|a: int| i <= a < 3 ==> (#[trigger] ranges[a]) == parent_ranges[a],
        decreases 3 - i,
    {
        let h = ranges[i].half();
        if signs[i] == Sign::Positive {
            center[i] = center[i] + h;
        } else {
            center[i] = center[i] - h;
        }
        ranges[i] = h;
        i += 1;
    }
    (center, ranges)
}

/// The position of the entry stored under `id`, if any.
fn find_octant<U, const N: usize>(tree: &Vec<(Id<N>, Octant<U>)>, id: &Id<N>) -> (r: Option<
    usize,
>)
    ensures
        match r {
            Some(k) => k < tree@.len() && tree@[k as int].0 == *id,
            None => forall|m: int| 0 <= m < tree@.len() ==> (#[trigger] tree@[m]).0 != *id,
        },
{
    let mut i: usize = 0;
    while i < tree.len()
        invariant
            0 <= i <= tree@.len(),
            forall|m: int| 0 <= m < i ==> (#[trigger] tree@[m]).0 != *id,
        decreases tree@.len() - i,
    {
        if tree[i].0 == *id {
            return Some(i);
        }
        i += 1;
    }
    None
}

} // verus!
