use vstd::prelude::*;

verus! {

/// A triangle, as three vertex indices in counter-clockwise order.
pub type Face = (u32, u32, u32);

/// Corner `k` (0, 1 or 2) of a face.
pub open spec fn corner(f: Face, k: int) -> int {
    if k == 0 {
        f.0 as int
    } else if k == 1 {
        f.1 as int
    } else {
        f.2 as int
    }
}

pub open spec fn is_corner(k: int) -> bool {
    0 <= k < 3
}

pub open spec fn next(k: int) -> int {
    if k == 2 {
        0
    } else {
        k + 1
    }
}

pub open spec fn prev(k: int) -> int {
    if k == 0 {
        2
    } else {
        k - 1
    }
}

/// The directed edge that leaves corner `k` of a face.
pub open spec fn edge(f: Face, k: int) -> (int, int) {
    (corner(f, k), corner(f, next(k)))
}

pub open spec fn reversed(e: (int, int)) -> (int, int) {
    (e.1, e.0)
}

pub open spec fn has_vertex(f: Face, v: int) -> bool {
    corner(f, 0) == v || corner(f, 1) == v || corner(f, 2) == v
}

/// Every vertex of `f` is a vertex of `g`.
pub open spec fn same_vertices(f: Face, g: Face) -> bool {
    has_vertex(g, corner(f, 0)) && has_vertex(g, corner(f, 1)) && has_vertex(g, corner(f, 2))
}

/// Every vertex index is below `nv`.
pub open spec fn indices_below(faces: Seq<Face>, nv: int) -> bool {
    forall|i: int, k: int|
        0 <= i < faces.len() && is_corner(k) ==> #[trigger] corner(faces[i], k) < nv
}

/// No face repeats a vertex.
pub open spec fn non_degenerate(faces: Seq<Face>) -> bool {
    forall|i: int|
        0 <= i < faces.len() ==> {
            let f = #[trigger] faces[i];
            f.0 != f.1 && f.1 != f.2 && f.0 != f.2
        }
}

/// No directed edge occurs twice.
pub open spec fn edges_unique(faces: Seq<Face>) -> bool {
    forall|i: int, k: int, j: int, l: int|
        0 <= i < faces.len() && 0 <= j < faces.len() && is_corner(k) && is_corner(l) && #[trigger]
            edge(faces[i], k) == #[trigger] edge(faces[j], l) ==> i == j && k == l
}

/// Some face holds the reverse of the directed edge `e`.
#[verifier::opaque]
pub open spec fn has_twin(faces: Seq<Face>, e: (int, int)) -> bool {
    exists|j: int, l: int|
        0 <= j < faces.len() && is_corner(l) && #[trigger] edge(faces[j], l) == reversed(e)
}

/// Every directed edge is matched by its reverse in some face.
pub open spec fn edges_paired(faces: Seq<Face>) -> bool {
    forall|i: int, k: int|
        0 <= i < faces.len() && is_corner(k) ==> has_twin(faces, #[trigger] edge(faces[i], k))
}

/// No two faces span the same three vertices.
pub open spec fn faces_distinct(faces: Seq<Face>) -> bool {
    forall|i: int, j: int|
        0 <= i < faces.len() && 0 <= j < faces.len() && i != j ==> !same_vertices(
            #[trigger] faces[i],
            #[trigger] faces[j],
        )
}

/// A closed, consistently oriented triangle surface over vertices `0..nv`.
#[verifier::opaque]
pub open spec fn closed_manifold(faces: Seq<Face>, nv: int) -> bool {
    &&& indices_below(faces, nv)
    &&& non_degenerate(faces)
    &&& edges_unique(faces)
    &&& edges_paired(faces)
    &&& faces_distinct(faces)
}

/// Key of the unordered vertex pair `{x, y}`: the smaller index in the high
/// 32 bits, the larger in the low 32 bits.
pub open spec fn edge_key(x: int, y: int) -> int {
    if x <= y {
        x * 0x1_0000_0000 + y
    } else {
        y * 0x1_0000_0000 + x
    }
}

pub open spec fn is_index(x: int) -> bool {
    0 <= x < 0x1_0000_0000
}

pub proof fn lemma_edge_key(x: int, y: int, z: int, w: int)
    requires
        is_index(x),
        is_index(y),
        is_index(z),
        is_index(w),
    ensures
        0 <= edge_key(x, y) <= u64::MAX,
        edge_key(x, y) == edge_key(z, w) <==> ((x == z && y == w) || (x == w && y == z)),
{
}

pub proof fn lemma_edge_keys()
    ensures
        forall|x: int, y: int, z: int, w: int|
            is_index(x) && is_index(y) && is_index(z) && is_index(w) ==> (#[trigger] edge_key(x, y)
                == #[trigger] edge_key(z, w) <==> ((x == z && y == w) || (x == w && y == z))),
        forall|x: int, y: int|
            is_index(x) && is_index(y) ==> 0 <= #[trigger] edge_key(x, y) <= u64::MAX,
{
    assert forall|x: int, y: int, z: int, w: int|
        is_index(x) && is_index(y) && is_index(z) && is_index(w) implies (#[trigger] edge_key(x, y)
            == #[trigger] edge_key(z, w) <==> ((x == z && y == w) || (x == w && y == z))) by {
        lemma_edge_key(x, y, z, w);
    }
    assert forall|x: int, y: int| is_index(x) && is_index(y) implies 0 <= #[trigger] edge_key(x, y)
        <= u64::MAX by {
        lemma_edge_key(x, y, x, y);
    }
}

/// The key of a directed edge, with no regard to its direction.
pub open spec fn key_of(e: (int, int)) -> int {
    edge_key(e.0, e.1)
}

/// The midpoint vertex that `cache` records for the edge `e`.
pub open spec fn mid(cache: Map<u64, u32>, e: (int, int)) -> int {
    cache[key_of(e) as u64] as int
}

/// Corner `l` of child `c` of face `f`: children 0, 1 and 2 keep corner `c`
/// of `f` and the midpoints of the two edges that meet there; child 3 joins
/// the three midpoints.
pub open spec fn child_corner(cache: Map<u64, u32>, f: Face, c: int, l: int) -> int {
    if c < 3 {
        if l == 0 {
            corner(f, c)
        } else if l == 1 {
            mid(cache, edge(f, c))
        } else {
            mid(cache, edge(f, prev(c)))
        }
    } else {
        mid(cache, edge(f, l))
    }
}

pub open spec fn child_edge(cache: Map<u64, u32>, f: Face, c: int, l: int) -> (int, int) {
    (child_corner(cache, f, c, l), child_corner(cache, f, c, next(l)))
}

/// `cache` gives every edge of `faces` a midpoint in `nv0..nv1`, one per
/// unordered edge.
pub open spec fn midpoints_fresh(faces: Seq<Face>, cache: Map<u64, u32>, nv0: int, nv1: int) -> bool {
    &&& forall|i: int, k: int|
        0 <= i < faces.len() && is_corner(k) ==> #[trigger] cache.contains_key(
            key_of(edge(faces[i], k)) as u64,
        )
    &&& forall|i: int, k: int|
        0 <= i < faces.len() && is_corner(k) ==> nv0 <= #[trigger] mid(cache, edge(faces[i], k))
            < nv1
    &&& forall|i: int, k: int, j: int, l: int|
        0 <= i < faces.len() && 0 <= j < faces.len() && is_corner(k) && is_corner(l) && #[trigger]
            mid(cache, edge(faces[i], k)) == #[trigger] mid(cache, edge(faces[j], l)) ==> key_of(
            edge(faces[i], k),
        ) == key_of(edge(faces[j], l))
}

/// `new` replaces each face `i` of `faces` by its four children, at `4 * i .. 4 * i + 4`.
pub open spec fn subdivided(faces: Seq<Face>, cache: Map<u64, u32>, new: Seq<Face>) -> bool {
    &&& new.len() == 4 * faces.len()
    &&& forall|i: int, c: int, l: int|
        0 <= i < faces.len() && 0 <= c < 4 && is_corner(l) ==> corner(new[4 * i + c], l)
            == #[trigger] child_corner(cache, faces[i], c, l)
}

proof fn lemma_face_facts(faces: Seq<Face>, nv0: int, cache: Map<u64, u32>, nv1: int, i: int)
    requires
        closed_manifold(faces, nv0),
        midpoints_fresh(faces, cache, nv0, nv1),
        0 <= i < faces.len(),
    ensures
        forall|k: int| is_corner(k) ==> 0 <= #[trigger] corner(faces[i], k) < nv0,
        forall|k: int| is_corner(k) ==> nv0 <= #[trigger] mid(cache, edge(faces[i], k)) < nv1,
        forall|k: int| is_corner(k) ==> is_index(#[trigger] edge(faces[i], k).0) && is_index(edge(faces[i], k).1),
{
    reveal(closed_manifold);
    assert(faces[i] == faces[i]);
    assert forall|k: int| is_corner(k) implies nv0 <= #[trigger] mid(cache, edge(faces[i], k)) < nv1 by {
    }
}

/// Reads child `j / 4` of face `j / 4` back from a subdivided face list.
proof fn lemma_child(faces: Seq<Face>, cache: Map<u64, u32>, new: Seq<Face>, j: int)
    requires
        subdivided(faces, cache, new),
        0 <= j < new.len(),
    ensures
        0 <= j / 4 < faces.len(),
        0 <= j % 4 < 4,
        forall|l: int| is_corner(l) ==> #[trigger] corner(new[j], l) == child_corner(cache, faces[j / 4], j % 4, l),
        forall|l: int| is_corner(l) ==> #[trigger] edge(new[j], l) == child_edge(cache, faces[j / 4], j % 4, l),
{
    let i = j / 4;
    let c = j % 4;
    assert(j == 4 * i + c);
    assert(child_corner(cache, faces[i], c, 0) == corner(new[j], 0));
    assert(child_corner(cache, faces[i], c, 1) == corner(new[j], 1));
    assert(child_corner(cache, faces[i], c, 2) == corner(new[j], 2));
}

/// Two different edges of `f` whose unordered keys are edges of `g` make `g`
/// hold every vertex of `f`.
proof fn lemma_two_edges(f: Face, g: Face, k1: int, k2: int, m1: int, m2: int)
    requires
        is_corner(k1),
        is_corner(k2),
        is_corner(m1),
        is_corner(m2),
        k1 != k2,
        key_of(edge(f, k1)) == key_of(edge(g, m1)),
        key_of(edge(f, k2)) == key_of(edge(g, m2)),
    ensures
        same_vertices(f, g),
{
    lemma_edge_key(edge(f, k1).0, edge(f, k1).1, edge(g, m1).0, edge(g, m1).1);
    lemma_edge_key(edge(f, k2).0, edge(f, k2).1, edge(g, m2).0, edge(g, m2).1);
}

#[verifier::rlimit(40)]
proof fn lemma_child_edges_unique(
    faces: Seq<Face>,
    nv0: int,
    cache: Map<u64, u32>,
    nv1: int,
    i: int,
    c: int,
    l: int,
    i2: int,
    c2: int,
    l2: int,
)
    requires
        closed_manifold(faces, nv0),
        midpoints_fresh(faces, cache, nv0, nv1),
        0 <= i < faces.len(),
        0 <= i2 < faces.len(),
        0 <= c < 4,
        0 <= c2 < 4,
        is_corner(l),
        is_corner(l2),
        child_edge(cache, faces[i], c, l) == child_edge(cache, faces[i2], c2, l2),
    ensures
        i == i2 && c == c2 && l == l2,
{
    reveal(closed_manifold);
    let f = faces[i];
    let g = faces[i2];
    lemma_face_facts(faces, nv0, cache, nv1, i);
    lemma_face_facts(faces, nv0, cache, nv1, i2);
    assert(f.0 != f.1 && f.1 != f.2 && f.0 != f.2);
    assert(g.0 != g.1 && g.1 != g.2 && g.0 != g.2);
    if c < 3 && l == 0 {
        // (corner, midpoint of the edge leaving it)
        assert(c2 < 3 && l2 == 0);
        assert(mid(cache, edge(f, c)) == mid(cache, edge(g, c2)));
        lemma_edge_key(edge(f, c).0, edge(f, c).1, edge(g, c2).0, edge(g, c2).1);
        assert(edge(f, c) == edge(g, c2));
    } else if c < 3 && l == 2 {
        // (midpoint of the edge arriving, corner)
        assert(c2 < 3 && l2 == 2);
        assert(mid(cache, edge(f, prev(c))) == mid(cache, edge(g, prev(c2))));
        lemma_edge_key(
            edge(f, prev(c)).0,
            edge(f, prev(c)).1,
            edge(g, prev(c2)).0,
            edge(g, prev(c2)).1,
        );
        assert(edge(f, prev(c)) == edge(g, prev(c2)));
    } else {
        // both ends are midpoints
        assert(c2 == 3 || l2 == 1);
        let (k1, k2) = if c < 3 {
            (c, prev(c))
        } else {
            (l, next(l))
        };
        let (m1, m2) = if c2 < 3 {
            (c2, prev(c2))
        } else {
            (l2, next(l2))
        };
        assert(mid(cache, edge(f, k1)) == mid(cache, edge(g, m1)));
        assert(mid(cache, edge(f, k2)) == mid(cache, edge(g, m2)));
        lemma_two_edges(f, g, k1, k2, m1, m2);
        assert(i == i2);
        lemma_edge_key(edge(f, k1).0, edge(f, k1).1, edge(g, m1).0, edge(g, m1).1);
        lemma_edge_key(edge(f, k2).0, edge(f, k2).1, edge(g, m2).0, edge(g, m2).1);
    }
}

proof fn lemma_child_edge_paired(
    faces: Seq<Face>,
    nv0: int,
    cache: Map<u64, u32>,
    nv1: int,
    i: int,
    c: int,
    l: int,
) -> (r: (int, int, int))
    requires
        closed_manifold(faces, nv0),
        midpoints_fresh(faces, cache, nv0, nv1),
        0 <= i < faces.len(),
        0 <= c < 4,
        is_corner(l),
    ensures
        0 <= r.0 < faces.len(),
        0 <= r.1 < 4,
        is_corner(r.2),
        child_edge(cache, faces[r.0], r.1, r.2) == reversed(child_edge(cache, faces[i], c, l)),
{
    reveal(closed_manifold);
    let f = faces[i];
    reveal(has_twin);
    if c < 3 && l == 0 {
        assert(edge(f, c) == edge(faces[i], c));
        let (j, m) = choose|j: int, m: int|
            0 <= j < faces.len() && is_corner(m) && #[trigger] edge(faces[j], m) == reversed(
                edge(faces[i], c),
            );
        (j, next(m), 2)
    } else if c < 3 && l == 2 {
        assert(edge(f, prev(c)) == edge(faces[i], prev(c)));
        let (j, m) = choose|j: int, m: int|
            0 <= j < faces.len() && is_corner(m) && #[trigger] edge(faces[j], m) == reversed(
                edge(faces[i], prev(c)),
            );
        (j, m, 0)
    } else if c < 3 {
        (i, 3, prev(c))
    } else {
        (i, next(l), 1)
    }
}

pub open spec fn child_has_vertex(cache: Map<u64, u32>, f: Face, c: int, v: int) -> bool {
    child_corner(cache, f, c, 0) == v || child_corner(cache, f, c, 1) == v || child_corner(
        cache,
        f,
        c,
        2,
    ) == v
}

#[verifier::rlimit(80)]
proof fn lemma_child_faces_distinct(
    faces: Seq<Face>,
    nv0: int,
    cache: Map<u64, u32>,
    nv1: int,
    i: int,
    c: int,
    i2: int,
    c2: int,
)
    requires
        closed_manifold(faces, nv0),
        midpoints_fresh(faces, cache, nv0, nv1),
        0 <= i < faces.len(),
        0 <= i2 < faces.len(),
        0 <= c < 4,
        0 <= c2 < 4,
        child_has_vertex(cache, faces[i2], c2, child_corner(cache, faces[i], c, 0)),
        child_has_vertex(cache, faces[i2], c2, child_corner(cache, faces[i], c, 1)),
        child_has_vertex(cache, faces[i2], c2, child_corner(cache, faces[i], c, 2)),
    ensures
        i == i2 && c == c2,
{
    reveal(closed_manifold);
    let f = faces[i];
    let g = faces[i2];
    lemma_face_facts(faces, nv0, cache, nv1, i);
    lemma_face_facts(faces, nv0, cache, nv1, i2);
    lemma_edge_keys();
    assert(f.0 != f.1 && f.1 != f.2 && f.0 != f.2);
    assert(g.0 != g.1 && g.1 != g.2 && g.0 != g.2);
    // the three midpoints of a face differ
    assert forall|a: int, b: int| is_corner(a) && is_corner(b) && a != b implies mid(
        cache,
        edge(faces[i], a),
    ) != mid(cache, edge(faces[i], b)) && mid(cache, edge(faces[i2], a)) != mid(
        cache,
        edge(faces[i2], b),
    ) by {
        if mid(cache, edge(faces[i], a)) == mid(cache, edge(faces[i], b)) {
            lemma_edge_key(edge(f, a).0, edge(f, a).1, edge(f, b).0, edge(f, b).1);
        }
        if mid(cache, edge(faces[i2], a)) == mid(cache, edge(faces[i2], b)) {
            lemma_edge_key(edge(g, a).0, edge(g, a).1, edge(g, b).0, edge(g, b).1);
        }
    }
    let (k1, k2) = if c < 3 { (c, prev(c)) } else { (0int, 1int) };
    let (m1, m2) = if c2 < 3 {
        if mid(cache, edge(f, k1)) == mid(cache, edge(g, c2)) {
            (c2, prev(c2))
        } else {
            (prev(c2), c2)
        }
    } else {
        (
            if mid(cache, edge(f, k1)) == mid(cache, edge(g, 0)) {
                0int
            } else if mid(cache, edge(f, k1)) == mid(cache, edge(g, 1)) {
                1int
            } else {
                2int
            },
            if mid(cache, edge(f, k2)) == mid(cache, edge(g, 0)) {
                0int
            } else if mid(cache, edge(f, k2)) == mid(cache, edge(g, 1)) {
                1int
            } else {
                2int
            },
        )
    };
    if c < 3 && c2 == 3 {
        assert(false);
    }
    if c == 3 && c2 < 3 {
        assert(false);
    }
    assert(mid(cache, edge(f, k1)) == mid(cache, edge(g, m1)));
    assert(mid(cache, edge(f, k2)) == mid(cache, edge(g, m2)));
    lemma_two_edges(f, g, k1, k2, m1, m2);
    assert(i == i2);
}

/// One subdivision pass keeps a closed manifold closed and manifold.
pub proof fn lemma_subdivision_manifold(
    faces: Seq<Face>,
    nv0: int,
    cache: Map<u64, u32>,
    nv1: int,
    new: Seq<Face>,
)
    requires
        closed_manifold(faces, nv0),
        midpoints_fresh(faces, cache, nv0, nv1),
        subdivided(faces, cache, new),
    ensures
        closed_manifold(new, nv1),
{
    reveal(closed_manifold);
    assert forall|j: int, k: int| 0 <= j < new.len() && is_corner(k) implies #[trigger] corner(
        new[j],
        k,
    ) < nv1 by {
        lemma_child(faces, cache, new, j);
        lemma_face_facts(faces, nv0, cache, nv1, j / 4);
    }
    assert forall|j: int| 0 <= j < new.len() implies {
        let f = #[trigger] new[j];
        f.0 != f.1 && f.1 != f.2 && f.0 != f.2
    } by {
        lemma_child(faces, cache, new, j);
        lemma_child_edges_unique(faces, nv0, cache, nv1, j / 4, j % 4, 0, j / 4, j % 4, 0);
        assert(edge(new[j], 0).0 == corner(new[j], 0));
        if corner(new[j], 0) == corner(new[j], 1) || corner(new[j], 1) == corner(new[j], 2)
            || corner(new[j], 0) == corner(new[j], 2) {
            lemma_child_faces_distinct(faces, nv0, cache, nv1, j / 4, j % 4, j / 4, j % 4);
            let f = faces[j / 4];
            lemma_face_facts(faces, nv0, cache, nv1, j / 4);
            lemma_edge_keys();
            assert(f.0 != f.1 && f.1 != f.2 && f.0 != f.2);
            assert forall|a: int, b: int| is_corner(a) && is_corner(b) && a != b implies mid(
                cache,
                edge(faces[j / 4], a),
            ) != mid(cache, edge(faces[j / 4], b)) by {
                if mid(cache, edge(faces[j / 4], a)) == mid(cache, edge(faces[j / 4], b)) {
                    lemma_edge_key(edge(f, a).0, edge(f, a).1, edge(f, b).0, edge(f, b).1);
                }
            }
        }
    }
    assert forall|j: int, k: int, j2: int, k2: int|
        0 <= j < new.len() && 0 <= j2 < new.len() && is_corner(k) && is_corner(k2) && #[trigger]
            edge(new[j], k) == #[trigger] edge(new[j2], k2) implies j == j2 && k == k2 by {
        lemma_child(faces, cache, new, j);
        lemma_child(faces, cache, new, j2);
        lemma_child_edges_unique(faces, nv0, cache, nv1, j / 4, j % 4, k, j2 / 4, j2 % 4, k2);
    }
    reveal(has_twin);
    assert forall|j: int, k: int|
        #![trigger edge(new[j], k)]
        0 <= j < new.len() && is_corner(k) implies exists|j2: int, k2: int|
        #![trigger edge(new[j2], k2)]
        0 <= j2 < new.len() && is_corner(k2) && edge(new[j2], k2) == reversed(edge(new[j], k)) by {
        lemma_child(faces, cache, new, j);
        let r = lemma_child_edge_paired(faces, nv0, cache, nv1, j / 4, j % 4, k);
        let j2 = 4 * r.0 + r.1;
        lemma_child(faces, cache, new, j2);
        assert(j2 / 4 == r.0 && j2 % 4 == r.1);
        assert(edge(new[j2], r.2) == reversed(edge(new[j], k)));
    }
    assert forall|j: int, j2: int| 0 <= j < new.len() && 0 <= j2 < new.len() && j != j2 implies !same_vertices(
        #[trigger] new[j],
        #[trigger] new[j2],
    ) by {
        lemma_child(faces, cache, new, j);
        lemma_child(faces, cache, new, j2);
        if same_vertices(new[j], new[j2]) {
            lemma_child_faces_distinct(faces, nv0, cache, nv1, j / 4, j % 4, j2 / 4, j2 % 4);
        }
    }
    assert(indices_below(new, nv1));
    assert(non_degenerate(new));
    assert(edges_unique(new));
    assert(edges_paired(new));
    assert(faces_distinct(new));
}

/// In a closed manifold every edge lies on exactly two faces: the directed
/// edge leaving corner `k` of face `i` occurs nowhere else, and its reverse
/// occurs exactly once, on another face (returned with its corner).
pub proof fn lemma_edge_on_two_faces(faces: Seq<Face>, nv: int, i: int, k: int) -> (r: (int, int))
    requires
        closed_manifold(faces, nv),
        0 <= i < faces.len(),
        is_corner(k),
    ensures
        0 <= r.0 < faces.len(),
        is_corner(r.1),
        r.0 != i,
        edge(faces[r.0], r.1) == reversed(edge(faces[i], k)),
        forall|j: int, l: int|
            0 <= j < faces.len() && is_corner(l) && (#[trigger] edge(faces[j], l) == edge(faces[i], k)
                || edge(faces[j], l) == reversed(edge(faces[i], k))) ==> (j == i && l == k) || (j
                == r.0 && l == r.1),
{
    reveal(closed_manifold);
    reveal(has_twin);
    assert(has_twin(faces, edge(faces[i], k)));
    let (j, l) = choose|j: int, l: int|
        0 <= j < faces.len() && is_corner(l) && #[trigger] edge(faces[j], l) == reversed(
            edge(faces[i], k),
        );
    let f = faces[i];
    assert(f.0 != f.1 && f.1 != f.2 && f.0 != f.2);
    (j, l)
}

} // verus!
