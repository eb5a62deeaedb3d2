use planet_mesh::icosphere::{build_topology, initial_triangles, subdivide, Geodesic};
use std::collections::HashMap;

fn undirected_edge_counts(g: &Geodesic) -> HashMap<(u32, u32), usize> {
    let mut counts = HashMap::new();
    for &(a, b, c) in &g.triangles {
        for (x, y) in [(a, b), (b, c), (c, a)] {
            let key = if x < y { (x, y) } else { (y, x) };
            *counts.entry(key).or_insert(0) += 1;
        }
    }
    counts
}

#[test]
fn depth_zero_and_one_give_the_icosahedron() {
    for depth in [0, 1] {
        let g = build_topology(depth);
        assert_eq!(g.num_vertices(), 12);
        assert_eq!(g.triangles.len(), 20);
        assert!(g.midpoints.is_empty());
        assert_eq!(g.triangles, initial_triangles());
    }
}

#[test]
fn counts_follow_powers_of_four() {
    for depth in 1..=6u32 {
        let g = build_topology(depth);
        let p = 4usize.pow(depth - 1);
        assert_eq!(g.num_vertices(), 10 * p + 2);
        assert_eq!(g.triangles.len(), 20 * p);
    }
}

#[test]
fn every_edge_is_shared_by_two_faces() {
    for depth in 1..=5u32 {
        let g = build_topology(depth);
        let counts = undirected_edge_counts(&g);
        assert!(counts.values().all(|&n| n == 2));
        assert_eq!(counts.len(), g.triangles.len() * 3 / 2);
    }
}

#[test]
fn every_vertex_is_used() {
    let g = build_topology(4);
    let mut used = vec![false; g.num_vertices()];
    for &(a, b, c) in &g.triangles {
        used[a as usize] = true;
        used[b as usize] = true;
        used[c as usize] = true;
    }
    assert!(used.iter().all(|&u| u));
}

#[test]
fn midpoints_join_earlier_vertices() {
    let g = build_topology(5);
    for (v, &(a, b)) in g.midpoints.iter().enumerate() {
        assert_ne!(a, b);
        assert!((a as usize) < 12 + v);
        assert!((b as usize) < 12 + v);
    }
}

#[test]
fn first_face_is_split_into_four() {
    let faces = initial_triangles();
    let mut midpoints = Vec::new();
    let next = subdivide(&faces, &mut midpoints);
    assert_eq!(next.len(), 80);
    assert_eq!(midpoints.len(), 30);
    assert_eq!(midpoints[0], (0, 11));
    assert_eq!(midpoints[1], (0, 5));
    assert_eq!(midpoints[2], (11, 5));
    assert_eq!(&next[0..4], &[(0, 12, 13), (11, 14, 12), (5, 13, 14), (12, 14, 13)]);
    // second face (0, 5, 1) reuses the midpoint of edge 0-5
    assert_eq!(next[4], (0, 13, 15));
    assert_eq!(midpoints[3], (0, 1));
}

#[test]
fn shared_edges_get_one_midpoint() {
    let faces = initial_triangles();
    let mut midpoints = Vec::new();
    subdivide(&faces, &mut midpoints);
    let mut keys: Vec<(u32, u32)> = midpoints
        .iter()
        .map(|&(a, b)| if a < b { (a, b) } else { (b, a) })
        .collect();
    keys.sort();
    keys.dedup();
    assert_eq!(keys.len(), 30);
}

#[test]
fn icosahedron_faces_are_the_fixed_table() {
    let faces = initial_triangles();
    assert_eq!(faces.len(), 20);
    assert_eq!(faces[0], (0, 11, 5));
    assert_eq!(faces[9], (7, 1, 8));
    assert_eq!(faces[19], (9, 8, 1));
    for &(a, b, c) in &faces {
        assert!(a < 12 && b < 12 && c < 12);
        assert!(a != b && b != c && a != c);
    }
}
