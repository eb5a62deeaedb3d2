use vstd::prelude::*;
use std::collections::HashMap;
use crate::topology::{
    child_corner, closed_manifold, corner, edge, edge_key, has_twin, is_corner, is_index, key_of,
    lemma_edge_key, lemma_subdivision_manifold, mid, midpoints_fresh, next, reversed, same_vertices,
    subdivided, Face,
};

verus! {

/// Face `i` of the base icosahedron.
pub open spec fn icosahedron_face(i: int) -> Face {
    if i == 0 {
        (0, 11, 5)
    } else if i == 1 {
        (0, 5, 1)
    } else if i == 2 {
        (0, 1, 7)
    } else if i == 3 {
        (0, 7, 10)
    } else if i == 4 {
        (0, 10, 11)
    } else if i == 5 {
        (1, 5, 9)
    } else if i == 6 {
        (5, 11, 4)
    } else if i == 7 {
        (11, 10, 2)
    } else if i == 8 {
        (10, 7, 6)
    } else if i == 9 {
        (7, 1, 8)
    } else if i == 10 {
        (3, 9, 4)
    } else if i == 11 {
        (3, 4, 2)
    } else if i == 12 {
        (3, 2, 6)
    } else if i == 13 {
        (3, 6, 8)
    } else if i == 14 {
        (3, 8, 9)
    } else if i == 15 {
        (4, 9, 5)
    } else if i == 16 {
        (2, 4, 11)
    } else if i == 17 {
        (6, 2, 10)
    } else if i == 18 {
        (8, 6, 7)
    } else {
        (9, 8, 1)
    }
}

/// The twenty faces of the base icosahedron, over vertices `0..12`.
pub open spec fn icosahedron_faces() -> Seq<Face> {
    Seq::new(20, |i: int| icosahedron_face(i))
}

#[verifier::rlimit(100)]
proof fn lemma_icosahedron_edge(i: int, k: int)
    requires
        0 <= i < 20,
        is_corner(k),
    ensures
        forall|j: int, l: int|
            0 <= j < 20 && is_corner(l) && #[trigger] edge(icosahedron_face(j), l) == edge(
                icosahedron_face(i),
                k,
            ) ==> j == i && l == k,
{
}

/// Searches faces `j..` for the reverse of `e`.
spec fn twin_from(faces: Seq<Face>, e: (int, int), j: int) -> bool
    decreases faces.len() - j,
{
    if j < 0 || j >= faces.len() {
        false
    } else {
        edge(faces[j], 0) == reversed(e) || edge(faces[j], 1) == reversed(e) || edge(faces[j], 2)
            == reversed(e) || twin_from(faces, e, j + 1)
    }
}

proof fn lemma_twin_from(faces: Seq<Face>, e: (int, int), j: int)
    requires
        twin_from(faces, e, j),
    ensures
        has_twin(faces, e),
    decreases faces.len() - j,
{
    reveal(has_twin);
    if edge(faces[j], 0) == reversed(e) {
        assert(edge(faces[j], 0) == reversed(e));
    } else if edge(faces[j], 1) == reversed(e) {
        assert(edge(faces[j], 1) == reversed(e));
    } else if edge(faces[j], 2) == reversed(e) {
        assert(edge(faces[j], 2) == reversed(e));
    } else {
        lemma_twin_from(faces, e, j + 1);
    }
}

#[verifier::rlimit(100)]
proof fn lemma_icosahedron_face(i: int)
    requires
        0 <= i < 20,
    ensures
        forall|k: int| is_corner(k) ==> corner(icosahedron_face(i), k) < 12,
        ({
            let f = icosahedron_face(i);
            f.0 != f.1 && f.1 != f.2 && f.0 != f.2
        }),
        forall|j: int|
            0 <= j < 20 && j != i ==> !same_vertices(icosahedron_face(i), #[trigger] icosahedron_face(j)),
        forall|k: int| is_corner(k) ==> twin_from(icosahedron_faces(), #[trigger] edge(icosahedron_face(i), k), 0),
{
    reveal_with_fuel(twin_from, 21);
}

/// The base icosahedron is a closed manifold over its twelve vertices.
pub proof fn lemma_icosahedron_manifold()
    ensures
        icosahedron_faces().len() == 20,
        closed_manifold(icosahedron_faces(), 12),
{
    reveal(closed_manifold);
    let faces = icosahedron_faces();
    assert forall|i: int, k: int| 0 <= i < faces.len() && is_corner(k) implies #[trigger] corner(
        faces[i],
        k,
    ) < 12 && has_twin(faces, edge(faces[i], k)) by {
        lemma_icosahedron_face(i);
        lemma_twin_from(faces, edge(faces[i], k), 0);
    }
    assert forall|i: int| 0 <= i < faces.len() implies {
        let f = #[trigger] faces[i];
        f.0 != f.1 && f.1 != f.2 && f.0 != f.2
    } by {
        lemma_icosahedron_face(i);
    }
    assert forall|i: int, j: int| 0 <= i < faces.len() && 0 <= j < faces.len() && i != j implies !same_vertices(
        #[trigger] faces[i],
        #[trigger] faces[j],
    ) by {
        lemma_icosahedron_face(i);
        assert(faces[j] == icosahedron_face(j));
    }
    assert forall|i: int, k: int, j: int, l: int|
        0 <= i < faces.len() && 0 <= j < faces.len() && is_corner(k) && is_corner(l) && #[trigger]
            edge(faces[i], k) == #[trigger] edge(faces[j], l) implies i == j && k == l by {
        lemma_icosahedron_edge(i, k);
        assert(edge(icosahedron_face(j), l) == edge(faces[j], l));
    }
}

broadcast use vstd::std_specs::hash::group_hash_axioms;

/// Number of vertices of the base icosahedron.
pub const BASE_VERTICES: u32 = 12;

/// The parent pair of a midpoint, as an edge.
pub open spec fn pair(m: (u32, u32)) -> (int, int) {
    (m.0 as int, m.1 as int)
}

/// Cache key of the edge `e`.
pub open spec fn cache_key(e: (int, int)) -> u64 {
    key_of(e) as u64
}

/// Bookkeeping of a subdivision pass over the directed edges `seen` so far:
/// `pending` holds the reverses still to be met, and `cache` maps
/// each met edge to the midpoint recorded at `midpoints[v - 12]`, for the
/// midpoints from `base` on.
spec fn pass_state(
    seen: Set<(int, int)>,
    pending: Set<(int, int)>,
    cache: Map<u64, u32>,
    midpoints: Seq<(u32, u32)>,
    base: int,
) -> bool {
    &&& seen.finite()
    &&& pending.finite()
    &&& 0 <= base <= midpoints.len()
    &&& forall|p: (int, int)| #[trigger]
        pending.contains(p) <==> (!seen.contains(p) && seen.contains(reversed(p)))
    &&& 2 * (midpoints.len() - base) == seen.len() + pending.len()
    &&& forall|p: (int, int)| #[trigger]
        seen.contains(p) ==> is_index(p.0) && is_index(p.1) && p.0 != p.1 && cache.contains_key(
            cache_key(p),
        )
    &&& forall|key: u64| #[trigger]
        cache.contains_key(key) ==> {
            let v = cache[key] - BASE_VERTICES;
            &&& base <= v < midpoints.len()
            &&& key == cache_key(pair(midpoints[v]))
        }
    &&& forall|v: int|
        base <= v < midpoints.len() ==> {
            let p = pair(#[trigger] midpoints[v]);
            &&& cache.contains_key(cache_key(p))
            &&& cache[cache_key(p)] == v + BASE_VERTICES
            &&& seen.contains(p) || seen.contains(reversed(p))
        }
}

spec fn pending_after(seen: Set<(int, int)>, pending: Set<(int, int)>, e: (int, int)) -> Set<
    (int, int),
> {
    if seen.contains(reversed(e)) {
        pending.remove(e)
    } else {
        pending.insert(reversed(e))
    }
}

proof fn lemma_cache_key(p: (int, int), q: (int, int))
    requires
        is_index(p.0),
        is_index(p.1),
        is_index(q.0),
        is_index(q.1),
    ensures
        cache_key(p) == cache_key(q) <==> (p == q || p == reversed(q)),
        cache_key(p) == key_of(p),
{
    lemma_edge_key(p.0, p.1, q.0, q.1);
    lemma_edge_key(p.0, p.1, p.0, p.1);
    lemma_edge_key(q.0, q.1, q.0, q.1);
}

/// Meeting the directed edge `e` for the first time: the cache already knows
/// it exactly when its reverse was met.
proof fn lemma_cache_hit(
    seen: Set<(int, int)>,
    pending: Set<(int, int)>,
    cache: Map<u64, u32>,
    midpoints: Seq<(u32, u32)>,
    base: int,
    e: (int, int),
)
    requires
        pass_state(seen, pending, cache, midpoints, base),
        !seen.contains(e),
        is_index(e.0),
        is_index(e.1),
        e.0 != e.1,
    ensures
        cache.contains_key(cache_key(e)) <==> seen.contains(reversed(e)),
{
    if seen.contains(reversed(e)) {
        lemma_cache_key(e, reversed(e));
    }
    if cache.contains_key(cache_key(e)) {
        let v = cache[cache_key(e)] - BASE_VERTICES;
        let p = pair(midpoints[v]);
        assert(seen.contains(p) || seen.contains(reversed(p)));
        lemma_cache_key(e, p);
    }
}

/// One step of a pass keeps its bookkeeping.
proof fn lemma_pass_step(
    seen: Set<(int, int)>,
    pending: Set<(int, int)>,
    cache: Map<u64, u32>,
    midpoints: Seq<(u32, u32)>,
    base: int,
    e: (int, int),
    cache2: Map<u64, u32>,
    midpoints2: Seq<(u32, u32)>,
    m: (u32, u32),
)
    requires
        pass_state(seen, pending, cache, midpoints, base),
        !seen.contains(e),
        is_index(e.0),
        is_index(e.1),
        e.0 != e.1,
        pair(m) == e || pair(m) == reversed(e),
        seen.contains(reversed(e)) ==> cache2 == cache && midpoints2 == midpoints,
        !seen.contains(reversed(e)) ==> midpoints2 == midpoints.push(m) && cache2 == cache.insert(
            cache_key(e),
            (BASE_VERTICES + midpoints.len()) as u32,
        ),
        BASE_VERTICES + midpoints.len() <= u32::MAX,
    ensures
        pass_state(seen.insert(e), pending_after(seen, pending, e), cache2, midpoints2, base),
        forall|key: u64| #[trigger]
            cache.contains_key(key) ==> cache2.contains_key(key) && cache2[key] == cache[key],
        midpoints2.subrange(0, midpoints.len() as int) == midpoints,
{
    let seen2 = seen.insert(e);
    let pending2 = pending_after(seen, pending, e);
    lemma_cache_key(e, reversed(e));
    lemma_cache_key(e, pair(m));
    if seen.contains(reversed(e)) {
        assert(pending.contains(e));
        assert forall|p: (int, int)| #[trigger]
            pending2.contains(p) <==> (!seen2.contains(p) && seen2.contains(reversed(p))) by {
            if p == e || p == reversed(e) {
            }
        }
        assert(pending2.len() + 1 == pending.len());
    } else {
        lemma_cache_hit(seen, pending, cache, midpoints, base, e);
        assert(!pending.contains(reversed(e)));
        assert forall|p: (int, int)| #[trigger]
            pending2.contains(p) <==> (!seen2.contains(p) && seen2.contains(reversed(p))) by {
            if p == e || p == reversed(e) {
            }
        }
        assert forall|key: u64| #[trigger] cache2.contains_key(key) implies {
            let v = cache2[key] - BASE_VERTICES;
            &&& base <= v < midpoints2.len()
            &&& key == cache_key(pair(midpoints2[v]))
        } by {
            if key != cache_key(e) {
                let v = cache[key] - BASE_VERTICES;
                assert(midpoints2[v] == midpoints[v]);
            }
        }
        assert forall|v: int| base <= v < midpoints2.len() implies {
            let p = pair(#[trigger] midpoints2[v]);
            &&& cache2.contains_key(cache_key(p))
            &&& cache2[cache_key(p)] == v + BASE_VERTICES
            &&& seen2.contains(p) || seen2.contains(reversed(p))
        } by {
            if v < midpoints.len() {
                assert(midpoints2[v] == midpoints[v]);
                let p = pair(midpoints[v]);
                if cache_key(p) == cache_key(e) {
                    assert(seen.contains(p) || seen.contains(reversed(p)));
                    lemma_cache_key(p, e);
                    assert(false);
                }
            }
        }
    }
    assert(midpoints2.subrange(0, midpoints.len() as int) =~= midpoints);
}

/// Cache key of the unordered pair `{a, b}`.
fn edge_key_of(a: u32, b: u32) -> (r: u64)
    ensures
        r == cache_key((a as int, b as int)),
{
    proof {
        lemma_edge_key(a as int, b as int, a as int, b as int);
    }
    if a <= b {
        (a as u64) * 0x1_0000_0000 + (b as u64)
    } else {
        (b as u64) * 0x1_0000_0000 + (a as u64)
    }
}

/// The midpoint vertex of the edge `{a, b}`: the one already recorded in
/// `cache` for this pass, or else a new vertex, numbered after all others,
/// whose parents `(a, b)` are appended to `midpoints`.
fn get_middle_vertex(
    cache: &mut HashMap<u64, u32>,
    midpoints: &mut Vec<(u32, u32)>,
    a: u32,
    b: u32,
) -> (m: u32)
    requires
        BASE_VERTICES + old(midpoints)@.len() <= u32::MAX,
    ensures
        old(cache)@.contains_key(cache_key((a as int, b as int))) ==> {
            &&& m == old(cache)@[cache_key((a as int, b as int))]
            &&& final(cache)@ == old(cache)@
            &&& final(midpoints)@ == old(midpoints)@
        },
        !old(cache)@.contains_key(cache_key((a as int, b as int))) ==> {
            &&& m == BASE_VERTICES + old(midpoints)@.len()
            &&& final(midpoints)@ == old(midpoints)@.push((a, b))
            &&& final(cache)@ == old(cache)@.insert(cache_key((a as int, b as int)), m)
        },
{
    let key = edge_key_of(a, b);
    match cache.get(&key) {
        Some(index) => *index,
        None => {
            let index = BASE_VERTICES + midpoints.len() as u32;
            midpoints.push((a, b));
            cache.insert(key, index);
            index
        },
    }
}

/// Every midpoint from `base` on has as parents the two ends of an edge of
/// `faces`, and `cache` numbers that edge's midpoint after it.
pub open spec fn midpoints_recorded(
    faces: Seq<Face>,
    cache: Map<u64, u32>,
    midpoints: Seq<(u32, u32)>,
    base: int,
) -> bool {
    forall|v: int|
        base <= v < midpoints.len() ==> {
            let p = pair(#[trigger] midpoints[v]);
            &&& cache.contains_key(cache_key(p))
            &&& cache[cache_key(p)] == v + BASE_VERTICES
            &&& exists|i: int, k: int|
                0 <= i < faces.len() && is_corner(k) && #[trigger] key_of(edge(faces[i], k))
                    == key_of(p)
        }
}

/// The directed edges of faces `0..t` are exactly `seen`, and `owner` says
/// where each one sits.
#[verifier::opaque]
spec fn edges_met(
    faces: Seq<Face>,
    t: int,
    seen: Set<(int, int)>,
    owner: Map<(int, int), (int, int)>,
) -> bool {
    &&& forall|i: int, k: int|
        0 <= i < t && is_corner(k) ==> seen.contains(#[trigger] edge(faces[i], k))
    &&& forall|p: (int, int)| #[trigger]
        seen.contains(p) ==> {
            &&& owner.contains_key(p)
            &&& 0 <= owner[p].0 < t
            &&& is_corner(owner[p].1)
            &&& edge(faces[owner[p].0], owner[p].1) == p
        }
}

/// Faces `0..t` have been replaced by their children in `new`.
#[verifier::opaque]
spec fn children_built(
    faces: Seq<Face>,
    t: int,
    cache: Map<u64, u32>,
    new: Seq<Face>,
) -> bool {
    &&& new.len() == 4 * t
    &&& forall|i: int, c: int, l: int|
        0 <= i < t && 0 <= c < 4 && is_corner(l) ==> corner(new[4 * i + c], l)
            == #[trigger] child_corner(cache, faces[i], c, l)
}

proof fn lemma_face_fresh(
    faces: Seq<Face>,
    nv0: int,
    t: int,
    seen: Set<(int, int)>,
    owner: Map<(int, int), (int, int)>,
)
    requires
        closed_manifold(faces, nv0),
        nv0 <= u32::MAX,
        0 <= t < faces.len(),
        edges_met(faces, t, seen, owner),
    ensures
        ({
            let f = faces[t];
            &&& f.0 != f.1 && f.1 != f.2 && f.0 != f.2
            &&& f.0 < nv0 && f.1 < nv0 && f.2 < nv0
        }),
        forall|k: int| is_corner(k) ==> !seen.contains(#[trigger] edge(faces[t], k)),
{
    reveal(closed_manifold);
    reveal(edges_met);
    assert(corner(faces[t], 0) < nv0 && corner(faces[t], 1) < nv0 && corner(faces[t], 2) < nv0);
    assert forall|k: int| is_corner(k) implies !seen.contains(#[trigger] edge(faces[t], k)) by {
        if seen.contains(edge(faces[t], k)) {
            let p = edge(faces[t], k);
            assert(edge(faces[owner[p].0], owner[p].1) == edge(faces[t], k));
        }
    }
}

proof fn lemma_face_met(
    faces: Seq<Face>,
    t: int,
    seen: Set<(int, int)>,
    owner: Map<(int, int), (int, int)>,
)
    requires
        0 <= t < faces.len(),
        edges_met(faces, t, seen, owner),
    ensures
        edges_met(
            faces,
            t + 1,
            seen.insert(edge(faces[t], 0)).insert(edge(faces[t], 2)).insert(edge(faces[t], 1)),
            owner.insert(edge(faces[t], 0), (t, 0)).insert(edge(faces[t], 2), (t, 2)).insert(
                edge(faces[t], 1),
                (t, 1),
            ),
        ),
{
    reveal(edges_met);
    let seen2 = seen.insert(edge(faces[t], 0)).insert(edge(faces[t], 2)).insert(edge(faces[t], 1));
    assert forall|i: int, k: int| 0 <= i < t + 1 && is_corner(k) implies seen2.contains(
        #[trigger] edge(faces[i], k),
    ) by {
        if i < t {
            assert(seen.contains(edge(faces[i], k)));
        }
    }
}

proof fn lemma_children_step(
    faces: Seq<Face>,
    t: int,
    seen: Set<(int, int)>,
    owner: Map<(int, int), (int, int)>,
    cache: Map<u64, u32>,
    cache2: Map<u64, u32>,
    new: Seq<Face>,
    new2: Seq<Face>,
)
    requires
        0 <= t < faces.len(),
        edges_met(faces, t, seen, owner),
        children_built(faces, t, cache, new),
        forall|p: (int, int)| #[trigger] seen.contains(p) ==> cache.contains_key(cache_key(p)),
        forall|key: u64| #[trigger]
            cache.contains_key(key) ==> cache2.contains_key(key) && cache2[key] == cache[key],
        new2.len() == new.len() + 4,
        forall|c: int, l: int|
            0 <= c < 4 && is_corner(l) ==> corner(new2[4 * t + c], l) == #[trigger] child_corner(
                cache2,
                faces[t],
                c,
                l,
            ),
        new2.subrange(0, new.len() as int) == new,
    ensures
        children_built(faces, t + 1, cache2, new2),
{
    reveal(edges_met);
    reveal(children_built);
    assert forall|i: int, c: int, l: int|
        0 <= i < t + 1 && 0 <= c < 4 && is_corner(l) implies corner(new2[4 * i + c], l)
        == #[trigger] child_corner(cache2, faces[i], c, l) by {
        if i < t {
            assert(seen.contains(edge(faces[i], 0)));
            assert(seen.contains(edge(faces[i], 1)));
            assert(seen.contains(edge(faces[i], 2)));
            assert(child_corner(cache, faces[i], c, l) == corner(new[4 * i + c], l));
            assert(new2[4 * i + c] == new[4 * i + c]);
        }
    }
}

/// After the last face no reverse is still to be met.
proof fn lemma_pass_end(
    faces: Seq<Face>,
    nv0: int,
    seen: Set<(int, int)>,
    owner: Map<(int, int), (int, int)>,
    pending: Set<(int, int)>,
)
    requires
        closed_manifold(faces, nv0),
        edges_met(faces, faces.len() as int, seen, owner),
        pending.finite(),
        forall|p: (int, int)| #[trigger]
            pending.contains(p) <==> (!seen.contains(p) && seen.contains(reversed(p))),
    ensures
        pending.len() == 0,
{
    reveal(closed_manifold);
    reveal(edges_met);
    reveal(has_twin);
    assert forall|p: (int, int)| !pending.contains(p) by {
        if pending.contains(p) {
            let q = reversed(p);
            let i = owner[q].0;
            let k = owner[q].1;
            assert(has_twin(faces, edge(faces[i], k)));
            let (j, l) = choose|j: int, l: int|
                0 <= j < faces.len() && is_corner(l) && #[trigger] edge(faces[j], l) == reversed(
                    edge(faces[i], k),
                );
            assert(seen.contains(edge(faces[j], l)));
        }
    }
    assert(pending =~= Set::empty());
}

proof fn lemma_pass_result(
    faces: Seq<Face>,
    nv0: int,
    seen: Set<(int, int)>,
    owner: Map<(int, int), (int, int)>,
    pending: Set<(int, int)>,
    cache: Map<u64, u32>,
    midpoints: Seq<(u32, u32)>,
    base: int,
    new: Seq<Face>,
)
    requires
        closed_manifold(faces, nv0),
        nv0 == BASE_VERTICES + base,
        edges_met(faces, faces.len() as int, seen, owner),
        pass_state(seen, pending, cache, midpoints, base),
        children_built(faces, faces.len() as int, cache, new),
    ensures
        midpoints_fresh(faces, cache, nv0, BASE_VERTICES + midpoints.len()),
        subdivided(faces, cache, new),
        midpoints_recorded(faces, cache, midpoints, base),
        closed_manifold(new, BASE_VERTICES + midpoints.len()),
{
    reveal(edges_met);
    reveal(children_built);
    let nv1 = BASE_VERTICES + midpoints.len();
    assert forall|i: int, k: int, j: int, l: int|
        0 <= i < faces.len() && 0 <= j < faces.len() && is_corner(k) && is_corner(l) && #[trigger]
            mid(cache, edge(faces[i], k)) == #[trigger] mid(cache, edge(faces[j], l)) implies key_of(
        edge(faces[i], k),
    ) == key_of(edge(faces[j], l)) by {
        let p = edge(faces[i], k);
        let q = edge(faces[j], l);
        assert(seen.contains(p) && seen.contains(q));
        lemma_cache_key(p, q);
        lemma_cache_key(q, q);
        lemma_edge_key(p.0, p.1, q.0, q.1);
    }
    assert forall|i: int, k: int|
        0 <= i < faces.len() && is_corner(k) implies nv0 <= #[trigger] mid(cache, edge(faces[i], k))
        < nv1 by {
        assert(seen.contains(edge(faces[i], k)));
    }
    assert forall|i: int, k: int| 0 <= i < faces.len() && is_corner(k) implies #[trigger] cache.contains_key(
        key_of(edge(faces[i], k)) as u64,
    ) by {
        assert(seen.contains(edge(faces[i], k)));
    }
    assert(midpoints_fresh(faces, cache, nv0, nv1));
    lemma_subdivision_manifold(faces, nv0, cache, nv1, new);
    assert forall|v: int| base <= v < midpoints.len() implies exists|i: int, k: int|
        0 <= i < faces.len() && is_corner(k) && #[trigger] key_of(edge(faces[i], k)) == key_of(
            pair(#[trigger] midpoints[v]),
        ) by {
        let p = pair(midpoints[v]);
        let q = if seen.contains(p) {
            p
        } else {
            reversed(p)
        };
        assert(seen.contains(q));
        let i = owner[q].0;
        let k = owner[q].1;
        lemma_cache_key(p, q);
        lemma_cache_key(q, q);
        lemma_cache_key(p, p);
        assert(key_of(edge(faces[i], k)) == key_of(p));
    }
}

/// The directed edges of faces `0..t`.
spec fn edges_upto(faces: Seq<Face>, t: int) -> Set<(int, int)>
    decreases t,
{
    if t <= 0 {
        Set::empty()
    } else {
        edges_upto(faces, t - 1).insert(edge(faces[t - 1], 0)).insert(edge(faces[t - 1], 1)).insert(
            edge(faces[t - 1], 2),
        )
    }
}

proof fn lemma_edges_upto(faces: Seq<Face>, t: int)
    requires
        0 <= t <= faces.len(),
    ensures
        edges_upto(faces, t).finite(),
        edges_upto(faces, t).len() <= 3 * t,
        forall|i: int, k: int|
            0 <= i < t && is_corner(k) ==> edges_upto(faces, t).contains(#[trigger] edge(faces[i], k)),
        forall|p: (int, int)| #[trigger]
            edges_upto(faces, t).contains(p) ==> exists|i: int, k: int|
                0 <= i < t && is_corner(k) && #[trigger] edge(faces[i], k) == p,
    decreases t,
{
    if t > 0 {
        lemma_edges_upto(faces, t - 1);
        let d = edges_upto(faces, t);
        assert forall|p: (int, int)| #[trigger] d.contains(p) implies exists|i: int, k: int|
            0 <= i < t && is_corner(k) && #[trigger] edge(faces[i], k) == p by {
            if p == edge(faces[t - 1], 0) {
                assert(edge(faces[t - 1], 0) == p);
            } else if p == edge(faces[t - 1], 1) {
                assert(edge(faces[t - 1], 1) == p);
            } else if p == edge(faces[t - 1], 2) {
                assert(edge(faces[t - 1], 2) == p);
            } else {
                assert(edges_upto(faces, t - 1).contains(p));
            }
        }
    }
}

/// The directed edges of a closed manifold form a finite set of at most three
/// per face that holds the reverse of each of its edges.
proof fn lemma_all_edges(faces: Seq<Face>, nv: int)
    requires
        closed_manifold(faces, nv),
    ensures
        ({
            let d = edges_upto(faces, faces.len() as int);
            &&& d.finite()
            &&& d.len() <= 3 * faces.len()
            &&& forall|i: int, k: int|
                0 <= i < faces.len() && is_corner(k) ==> d.contains(#[trigger] edge(faces[i], k))
            &&& forall|p: (int, int)| #[trigger] d.contains(p) ==> d.contains(reversed(p))
        }),
{
    reveal(closed_manifold);
    reveal(has_twin);
    let d = edges_upto(faces, faces.len() as int);
    lemma_edges_upto(faces, faces.len() as int);
    assert forall|p: (int, int)| #[trigger] d.contains(p) implies d.contains(reversed(p)) by {
        let (i, k) = choose|i: int, k: int|
            0 <= i < faces.len() && is_corner(k) && #[trigger] edge(faces[i], k) == p;
        assert(has_twin(faces, edge(faces[i], k)));
        let (j, l) = choose|j: int, l: int|
            0 <= j < faces.len() && is_corner(l) && #[trigger] edge(faces[j], l) == reversed(
                edge(faces[i], k),
            );
        assert(d.contains(edge(faces[j], l)));
    }
}

/// What has been met and what is still to be met are disjoint parts of all edges.
proof fn lemma_pending_bound(d: Set<(int, int)>, seen: Set<(int, int)>, pending: Set<(int, int)>)
    requires
        d.finite(),
        seen.finite(),
        pending.finite(),
        forall|p: (int, int)| #[trigger] seen.contains(p) ==> d.contains(p),
        forall|p: (int, int)| #[trigger] d.contains(p) ==> d.contains(reversed(p)),
        forall|p: (int, int)| #[trigger]
            pending.contains(p) <==> (!seen.contains(p) && seen.contains(reversed(p))),
    ensures
        seen.len() + pending.len() <= d.len(),
{
    assert forall|p: (int, int)| #[trigger] pending.contains(p) implies d.contains(p) by {
        assert(d.contains(reversed(p)));
        assert(reversed(reversed(p)) == p);
    }
    vstd::set_lib::lemma_set_disjoint_lens(seen, pending);
    vstd::set_lib::lemma_len_subset(seen + pending, d);
}

/// `next` is `faces`, over vertices `0..12 + base`, with each face split in
/// four at the midpoints of its edges, and `midpoints[base..]` lists those
/// midpoints' parents.
pub open spec fn one_pass(
    faces: Seq<Face>,
    base: int,
    midpoints: Seq<(u32, u32)>,
    next: Seq<Face>,
) -> bool {
    exists|cache: Map<u64, u32>|
        {
            &&& #[trigger] subdivided(faces, cache, next)
            &&& midpoints_fresh(faces, cache, BASE_VERTICES + base, BASE_VERTICES + midpoints.len())
            &&& midpoints_recorded(faces, cache, midpoints, base)
        }
}

/// `faces` and `midpoints` are the base icosahedron after `p` passes.
pub open spec fn is_geodesic(faces: Seq<Face>, midpoints: Seq<(u32, u32)>, p: nat) -> bool
    decreases p,
{
    if p == 0 {
        faces == icosahedron_faces() && midpoints.len() == 0
    } else {
        exists|prev: Seq<Face>, base: int|
            0 <= base <= midpoints.len() && is_geodesic(prev, midpoints.subrange(0, base), (p - 1) as nat)
                && #[trigger] one_pass(prev, base, midpoints, faces)
    }
}

/// One subdivision pass: every face becomes four, each edge gets one midpoint
/// vertex, shared by the two faces along it, and the midpoints' parent pairs
/// are appended to `midpoints` in the order they are first met.
pub fn subdivide(faces: &Vec<Face>, midpoints: &mut Vec<(u32, u32)>) -> (r: Vec<Face>)
    requires
        closed_manifold(faces@, BASE_VERTICES + old(midpoints)@.len()),
        2 * (BASE_VERTICES + old(midpoints)@.len()) + 3 * faces@.len() <= 2 * u32::MAX,
    ensures
        ({
            let nv0 = BASE_VERTICES + old(midpoints)@.len();
            let nv1 = BASE_VERTICES + final(midpoints)@.len();
            &&& 2 * (nv1 - nv0) == 3 * faces@.len()
            &&& final(midpoints)@.subrange(0, old(midpoints)@.len() as int) == old(midpoints)@
            &&& r@.len() == 4 * faces@.len()
            &&& closed_manifold(r@, nv1)
            &&& one_pass(faces@, old(midpoints)@.len() as int, final(midpoints)@, r@)
        }),
{
    let ghost base = midpoints@.len() as int;
    let ghost nv0 = BASE_VERTICES + base;
    let ghost mut seen: Set<(int, int)> = Set::empty();
    let ghost mut pending: Set<(int, int)> = Set::empty();
    let ghost all = edges_upto(faces@, faces@.len() as int);
    let ghost mut owner: Map<(int, int), (int, int)> = Map::empty();
    let mut cache: HashMap<u64, u32> = HashMap::new();
    let mut new_faces: Vec<Face> = Vec::new();
    proof {
        reveal(edges_met);
        reveal(children_built);
        lemma_all_edges(faces@, nv0);
    }
    let mut t: usize = 0;
    while t < faces.len()
        invariant
            0 <= t <= faces@.len(),
            closed_manifold(faces@, nv0),
            nv0 == BASE_VERTICES + base,
            base == old(midpoints)@.len(),
            2 * nv0 + 3 * faces@.len() <= 2 * u32::MAX,
            midpoints@.subrange(0, base) == old(midpoints)@,
            all == edges_upto(faces@, faces@.len() as int),
            all.finite(),
            all.len() <= 3 * faces@.len(),
            forall|i: int, k: int|
                0 <= i < faces@.len() && is_corner(k) ==> all.contains(#[trigger] edge(faces@[i], k)),
            forall|p: (int, int)| #[trigger] all.contains(p) ==> all.contains(reversed(p)),
            forall|p: (int, int)| #[trigger] seen.contains(p) ==> all.contains(p),
            seen.len() == 3 * t,
            pass_state(seen, pending, cache@, midpoints@, base),
            edges_met(faces@, t as int, seen, owner),
            children_built(faces@, t as int, cache@, new_faces@),
            new_faces@.len() == 4 * t,
        decreases faces@.len() - t,
    {
        let f = faces[t];
        let a = f.0;
        let b = f.1;
        let c = f.2;
        let ghost e0 = edge(f, 0);
        let ghost e1 = edge(f, 1);
        let ghost e2 = edge(f, 2);
        proof {
            lemma_face_fresh(faces@, nv0, t as int, seen, owner);
            lemma_cache_key(e0, e0);
            lemma_cache_key(e1, e1);
            lemma_cache_key(e2, (a as int, c as int));
        }
        let ghost seen0 = seen;
        let ghost cache0 = cache@;
        let ghost mids0 = midpoints@;
        let ghost new0 = new_faces@;
        proof {
            lemma_cache_hit(seen, pending, cache@, midpoints@, base, e0);
            lemma_pending_bound(all, seen, pending);
        }
        let m1 = get_middle_vertex(&mut cache, midpoints, a, b);
        proof {
            lemma_pass_step(seen, pending, cache0, mids0, base, e0, cache@, midpoints@, (a, b));
            pending = pending_after(seen, pending, e0);
            seen = seen.insert(e0);
        }
        let ghost cache1 = cache@;
        let ghost mids1 = midpoints@;
        proof {
            lemma_cache_hit(seen, pending, cache@, midpoints@, base, e2);
            lemma_pending_bound(all, seen, pending);
        }
        let m2 = get_middle_vertex(&mut cache, midpoints, a, c);
        proof {
            lemma_pass_step(seen, pending, cache1, mids1, base, e2, cache@, midpoints@, (a, c));
            pending = pending_after(seen, pending, e2);
            seen = seen.insert(e2);
        }
        let ghost cache2 = cache@;
        let ghost mids2 = midpoints@;
        proof {
            lemma_cache_hit(seen, pending, cache@, midpoints@, base, e1);
            lemma_pending_bound(all, seen, pending);
        }
        let m3 = get_middle_vertex(&mut cache, midpoints, b, c);
        proof {
            lemma_pass_step(seen, pending, cache2, mids2, base, e1, cache@, midpoints@, (b, c));
            pending = pending_after(seen, pending, e1);
            seen = seen.insert(e1);
        }
        new_faces.push((a, m1, m2));
        new_faces.push((b, m3, m1));
        new_faces.push((c, m2, m3));
        new_faces.push((m1, m3, m2));
        proof {
            assert(m1 == mid(cache@, e0));
            assert(m2 == mid(cache@, e2));
            assert(m3 == mid(cache@, e1));
            assert(new_faces@.subrange(0, new0.len() as int) =~= new0);
            let n = 4 * t as int;
            assert(new_faces@[n] == (a, m1, m2));
            assert(new_faces@[n + 1] == (b, m3, m1));
            assert(new_faces@[n + 2] == (c, m2, m3));
            assert(new_faces@[n + 3] == (m1, m3, m2));
            assert forall|c: int, l: int| 0 <= c < 4 && is_corner(l) implies corner(
                new_faces@[4 * t + c],
                l,
            ) == #[trigger] child_corner(cache@, faces@[t as int], c, l) by {
                assert(faces@[t as int] == f);
            }
            lemma_children_step(
                faces@,
                t as int,
                seen0,
                owner,
                cache0,
                cache@,
                new0,
                new_faces@,
            );
            lemma_face_met(faces@, t as int, seen0, owner);
            owner = owner.insert(e0, (t as int, 0)).insert(e2, (t as int, 2)).insert(
                e1,
                (t as int, 1),
            );
            assert(midpoints@.subrange(0, base) =~= old(midpoints)@) by {
                assert(midpoints@.subrange(0, base) =~= mids0.subrange(0, base));
            }
        }
        t = t + 1;
    }
    proof {
        lemma_pass_end(faces@, nv0, seen, owner, pending);
        lemma_pass_result(faces@, nv0, seen, owner, pending, cache@, midpoints@, base, new_faces@);
        assert(subdivided(faces@, cache@, new_faces@));
    }
    new_faces
}

/// The faces of the base icosahedron, counter-clockwise seen from outside.
pub fn initial_triangles() -> (r: Vec<Face>)
    ensures
        r@ == icosahedron_faces(),
        closed_manifold(r@, BASE_VERTICES as int),
{
    let r: Vec<Face> = vec![
        (0, 11, 5),
        (0, 5, 1),
        (0, 1, 7),
        (0, 7, 10),
        (0, 10, 11),
        (1, 5, 9),
        (5, 11, 4),
        (11, 10, 2),
        (10, 7, 6),
        (7, 1, 8),
        (3, 9, 4),
        (3, 4, 2),
        (3, 2, 6),
        (3, 6, 8),
        (3, 8, 9),
        (4, 9, 5),
        (2, 4, 11),
        (6, 2, 10),
        (8, 6, 7),
        (9, 8, 1),
    ];
    proof {
        lemma_icosahedron_manifold();
        assert(r@ =~= icosahedron_faces());
    }
    r
}

pub open spec fn pow4(n: nat) -> nat
    decreases n,
{
    if n == 0 {
        1
    } else {
        4 * pow4((n - 1) as nat)
    }
}

/// Number of subdivision passes for a level of detail: depths 0 and 1 both
/// give the bare icosahedron.
pub open spec fn passes(lod_depth: u32) -> nat {
    if lod_depth == 0 {
        0
    } else {
        (lod_depth - 1) as nat
    }
}

/// Each midpoint joins two different vertices numbered before it.
pub open spec fn midpoints_ordered(midpoints: Seq<(u32, u32)>) -> bool {
    forall|v: int|
        0 <= v < midpoints.len() ==> {
            let m = #[trigger] midpoints[v];
            &&& m.0 != m.1
            &&& m.0 < BASE_VERTICES + v
            &&& m.1 < BASE_VERTICES + v
        }
}

proof fn lemma_pow4_bound(n: nat)
    requires
        n <= 13,
    ensures
        1 <= pow4(n) <= 67108864,
    decreases n,
{
    reveal_with_fuel(pow4, 14);
    if n > 0 {
        lemma_pow4_bound((n - 1) as nat);
    }
}

proof fn lemma_recorded_ordered(
    faces: Seq<Face>,
    nv0: int,
    cache: Map<u64, u32>,
    midpoints: Seq<(u32, u32)>,
    base: int,
)
    requires
        closed_manifold(faces, nv0),
        nv0 == BASE_VERTICES + base,
        0 <= base <= midpoints.len(),
        midpoints_ordered(midpoints.subrange(0, base)),
        midpoints_recorded(faces, cache, midpoints, base),
    ensures
        midpoints_ordered(midpoints),
{
    reveal(closed_manifold);
    assert forall|v: int| 0 <= v < midpoints.len() implies {
        let m = #[trigger] midpoints[v];
        &&& m.0 != m.1
        &&& m.0 < BASE_VERTICES + v
        &&& m.1 < BASE_VERTICES + v
    } by {
        if v < base {
            assert(midpoints.subrange(0, base)[v] == midpoints[v]);
        } else {
            let p = pair(midpoints[v]);
            let (i, k) = choose|i: int, k: int|
                0 <= i < faces.len() && is_corner(k) && #[trigger] key_of(edge(faces[i], k))
                    == key_of(p);
            let e = edge(faces[i], k);
            assert(faces[i] == faces[i]);
            assert(corner(faces[i], k) < nv0 && corner(faces[i], next(k)) < nv0);
            lemma_edge_key(e.0, e.1, p.0, p.1);
        }
    }
}

/// The vertex and face structure of a geodesic sphere: vertices `0..12` are
/// those of the base icosahedron, and vertex `12 + v` is the midpoint of the
/// two vertices `midpoints[v]`, pushed back onto the unit sphere.
pub struct Geodesic {
    pub triangles: Vec<Face>,
    pub midpoints: Vec<(u32, u32)>,
}

impl Geodesic {
    pub open spec fn num_vertices_spec(&self) -> int {
        BASE_VERTICES + self.midpoints@.len()
    }

    /// Number of vertices.
    pub fn num_vertices(&self) -> (r: usize)
        requires
            self.num_vertices_spec() <= usize::MAX,
        ensures
            r == self.num_vertices_spec(),
    {
        BASE_VERTICES as usize + self.midpoints.len()
    }
}

/// Subdivides the base icosahedron `lod_depth - 1` times (not at all for
/// depths 0 and 1), with a fresh midpoint cache for each pass. Vertex
/// indices are `u32`: depth 15 gives `10 * 4^14 + 2` vertices, the most
/// that fit.
pub fn build_topology(lod_depth: u32) -> (r: Geodesic)
    requires
        lod_depth <= 15,
    ensures
        r.triangles@.len() == 20 * pow4(passes(lod_depth)),
        r.num_vertices_spec() == 10 * pow4(passes(lod_depth)) + 2,
        closed_manifold(r.triangles@, r.num_vertices_spec()),
        midpoints_ordered(r.midpoints@),
        is_geodesic(r.triangles@, r.midpoints@, passes(lod_depth)),
{
    let mut triangles = initial_triangles();
    let mut midpoints: Vec<(u32, u32)> = Vec::new();
    let total: u32 = if lod_depth == 0 {
        0
    } else {
        lod_depth - 1
    };
    let mut pass: u32 = 0;
    proof {
        reveal_with_fuel(pow4, 1);
    }
    while pass < total
        invariant
            total == passes(lod_depth),
            total <= 14,
            pass <= total,
            triangles@.len() == 20 * pow4(pass as nat),
            BASE_VERTICES + midpoints@.len() == 10 * pow4(pass as nat) + 2,
            closed_manifold(triangles@, BASE_VERTICES + midpoints@.len()),
            midpoints_ordered(midpoints@),
            is_geodesic(triangles@, midpoints@, pass as nat),
        decreases total - pass,
    {
        let ghost mids0 = midpoints@;
        let ghost faces0 = triangles@;
        proof {
            lemma_pow4_bound(pass as nat);
        }
        let next_triangles = subdivide(&triangles, &mut midpoints);
        proof {
            let cache = choose|cache: Map<u64, u32>|
                {
                    &&& #[trigger] subdivided(faces0, cache, next_triangles@)
                    &&& midpoints_fresh(faces0, cache, BASE_VERTICES + mids0.len(), BASE_VERTICES + midpoints@.len())
                    &&& midpoints_recorded(faces0, cache, midpoints@, mids0.len() as int)
                };
            lemma_recorded_ordered(
                faces0,
                BASE_VERTICES + mids0.len(),
                cache,
                midpoints@,
                mids0.len() as int,
            );
            assert(pow4((pass + 1) as nat) == 4 * pow4(pass as nat));
            assert(one_pass(faces0, mids0.len() as int, midpoints@, next_triangles@));
            assert(midpoints@.subrange(0, mids0.len() as int) == mids0);
            assert(is_geodesic(next_triangles@, midpoints@, (pass + 1) as nat));
        }
        triangles = next_triangles;
        pass = pass + 1;
    }
    Geodesic { triangles, midpoints }
}

} // verus!
