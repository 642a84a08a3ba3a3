use terminal_renderer::math::{
    ray_aabb_intersects, triangle_aabb_intersects, Mesh, Octree, Ray, Tri, Vec3,
};
use terminal_renderer::renderer::nearest_hit;

fn v(x: i64, y: i64, z: i64) -> Vec3 {
    Vec3::new(x, y, z)
}

fn unit_tri_at_z5() -> Tri {
    Tri::new(v(-1, -1, 5), v(1, -1, 5), v(0, 1, 5), v(255, 255, 255))
}

#[test]
fn tri_new_caches_bounds() {
    let t = unit_tri_at_z5();
    assert_eq!(t.v_min, v(-1, -1, 5));
    assert_eq!(t.v_max, v(1, 1, 5));
    assert_eq!(t.color, v(255, 255, 255));
}

#[test]
fn normal_of_unit_tri() {
    let t = unit_tri_at_z5();
    assert_eq!(t.normal(), v(0, 0, 4));
}

#[test]
fn hit_forward_ray_at_distance_five() {
    // a ray down +z from the origin meets the triangle exactly at t = 5
    let t = unit_tri_at_z5();
    let ray = Ray::new(v(0, 0, 0), v(0, 0, 1));
    let h = t.hit(&ray).expect("forward ray must hit");
    assert!(h.den > 0);
    assert_eq!(h.num, 5 * h.den);
}

#[test]
fn hit_parallel_ray_misses() {
    // direction in the triangle's plane: no hit
    let t = unit_tri_at_z5();
    let ray = Ray::new(v(0, 0, 0), v(1, 0, 0));
    assert!(t.hit(&ray).is_none());
}

#[test]
fn hit_behind_origin_misses() {
    let t = unit_tri_at_z5();
    let ray = Ray::new(v(0, 0, 10), v(0, 0, 1));
    assert!(t.hit(&ray).is_none());
}

#[test]
fn hit_outside_barycentric_bounds_misses() {
    // aimed well to the side of the triangle: u/v conditions reject it
    let t = unit_tri_at_z5();
    let ray = Ray::new(v(100, 0, 0), v(0, 0, 1));
    assert!(t.hit(&ray).is_none());
}

#[test]
fn hit_translation_invariant() {
    let t = unit_tri_at_z5();
    let ray = Ray::new(v(0, 0, 0), v(0, 0, 1));
    let h = t.hit(&ray).unwrap();
    let off = (7, -3, 11);
    let t2 = Tri::new(
        v(-1 + off.0, -1 + off.1, 5 + off.2),
        v(1 + off.0, -1 + off.1, 5 + off.2),
        v(0 + off.0, 1 + off.1, 5 + off.2),
        v(255, 255, 255),
    );
    let ray2 = Ray::new(v(off.0, off.1, off.2), v(0, 0, 1));
    let h2 = t2.hit(&ray2).unwrap();
    // identical rational distance
    assert_eq!(h.num * h2.den, h2.num * h.den);
}

#[test]
fn tri_inside_box_overlaps() {
    let t = unit_tri_at_z5();
    assert!(triangle_aabb_intersects(v(-2, -2, 0), v(2, 2, 10), &t));
}

#[test]
fn tri_far_from_box_does_not_overlap() {
    let t = unit_tri_at_z5();
    assert!(!triangle_aabb_intersects(v(50, 50, 50), v(60, 60, 60), &t));
}

#[test]
fn tri_box_overlap_translation_invariant() {
    let t = unit_tri_at_z5();
    let t2 = Tri::new(v(9, 9, 15), v(11, 9, 15), v(10, 11, 15), v(255, 255, 255));
    let a = triangle_aabb_intersects(v(-2, -2, 0), v(2, 2, 10), &t);
    let b = triangle_aabb_intersects(v(8, 8, 10), v(12, 12, 20), &t2);
    assert_eq!(a, b);
    assert!(a);
}

#[test]
fn slab_hits_and_misses() {
    // forward ray through the box
    assert!(ray_aabb_intersects(v(-2, -2, 0), v(2, 2, 10), v(0, 0, -5), v(0, 0, 1)));
    // box behind the ray
    assert!(!ray_aabb_intersects(v(-2, -2, 0), v(2, 2, 10), v(0, 0, 20), v(0, 0, 1)));
    // axis-aligned ray beside the box (zero direction components)
    assert!(!ray_aabb_intersects(v(-2, -2, 0), v(2, 2, 10), v(5, 0, -5), v(0, 0, 1)));
}

#[test]
fn mesh_keeps_triangles() {
    let t = unit_tri_at_z5();
    let m = Mesh::new(vec![t]);
    assert_eq!(m.tris.len(), 1);
    assert_eq!(m.tris[0], t);
}

#[test]
fn octree_query_returns_candidate() {
    // octree over the single triangle: a forward ray query returns it
    let t = unit_tri_at_z5();
    let mut o = Octree::new(v(-2, -2, 0), v(2, 2, 10));
    o.insert(t);
    let found = o.ray_search_tree(v(0, 0, 0), v(0, 0, 1));
    assert!(found.iter().any(|c| *c == t));
}

#[test]
fn octree_query_away_ray_has_no_hit() {
    let t = unit_tri_at_z5();
    let mut o = Octree::new(v(-2, -2, 0), v(2, 2, 10));
    o.insert(t);
    let found = o.ray_search_tree(v(0, 0, 0), v(0, 0, -1));
    let ray = Ray::new(v(0, 0, 0), v(0, 0, -1));
    assert!(found.iter().all(|c| c.hit(&ray).is_none()));
}

#[test]
fn octree_matches_brute_force_nearest() {
    // several triangles, forced splits; the octree's candidates reproduce
    // the brute-force nearest hit
    let mut tris = Vec::new();
    for i in 0..12i64 {
        let z = 4 + i;
        tris.push(Tri::new(
            v(-1 - i % 3, -1, z),
            v(1 + i % 3, -1, z),
            v(0, 1 + i % 2, z),
            v(255, 255, 255),
        ));
    }
    let mut o = Octree::new(v(-8, -8, 0), v(8, 8, 32));
    for t in &tris {
        o.insert(*t);
    }
    let ray = Ray::new(v(0, 0, 0), v(0, 0, 1));

    let brute = nearest_hit(&tris, &ray);
    let cand = o.ray_search_tree(v(0, 0, 0), v(0, 0, 1));
    let fast = nearest_hit(&cand, &ray);
    let (bi, bh) = brute.expect("brute force finds a hit");
    let (_, fh) = fast.expect("octree path finds a hit");
    assert_eq!(bh.num * fh.den, fh.num * bh.den);
    assert_eq!(bh.num, 4 * bh.den);
    assert_eq!(bi, 0);
}

#[test]
fn empty_octree_query_is_empty() {
    let o = Octree::new(v(0, 0, 0), v(1, 1, 1));
    let found = o.ray_search_tree(v(0, 0, 0), v(0, 0, 1));
    assert!(found.is_empty());
}

#[test]
fn nearest_hit_none_when_all_miss() {
    let t = unit_tri_at_z5();
    let ray = Ray::new(v(0, 0, 0), v(0, 0, -1));
    assert!(nearest_hit(&vec![t], &ray).is_none());
}

#[test]
fn nearest_hit_first_seen_wins_ties() {
    // two copies of the same plane at z = 5: the earlier index wins
    let a = unit_tri_at_z5();
    let b = Tri::new(v(-1, -1, 5), v(1, -1, 5), v(0, 1, 5), v(9, 9, 9));
    let ray = Ray::new(v(0, 0, 0), v(0, 0, 1));
    let (i, h) = nearest_hit(&vec![a, b], &ray).expect("hit");
    assert_eq!(i, 0);
    assert_eq!(h.num, 5 * h.den);
}

#[test]
fn with_max_nodes_keeps_contents() {
    let t = unit_tri_at_z5();
    let mut o = Octree::new(v(-2, -2, 0), v(2, 2, 10));
    o.insert(t);
    let o2 = o.with_max_nodes(7);
    let found = o2.ray_search_tree(v(0, 0, 0), v(0, 0, 1));
    assert!(found.iter().any(|c| *c == t));
}
