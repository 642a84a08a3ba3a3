//! The verified compute part of the render pass: resolving the nearest
//! forward hit among a list of candidate triangles. Building camera rays
//! (floating-point rotation) and shading are a front end's concern; the
//! resolution itself is exact.

use vstd::prelude::*;

use crate::geom::hit_spec;
use crate::geom::lemma_hit_point_in_tri_bbox;
use crate::geom::lemma_mul_range;
use crate::geom::lemma_rat_lt_le_trans;
use crate::geom::rat_le;
use crate::geom::rat_lt;
use crate::math::in_range;
use crate::math::ray_aabb_intersects;
use crate::math::seq_all_wf;
use crate::math::Hit;
use crate::math::Ray;
use crate::math::Tri;
use crate::math::HIT_DEN_LIMIT;
use crate::math::HIT_NUM_LIMIT;

verus! {

/// The nearest forward hit among `tris` along `ray`, with its index; `None`
/// when no triangle is hit. Ties go to the first triangle seen: the result's
/// distance is a lower bound for every hit, and strictly below the distance
/// of every earlier triangle. Each candidate is first screened with the
/// coarse box test on its cached bounds, which (proved) never discards a
/// true hit.
pub fn nearest_hit(tris: &Vec<Tri>, ray: &Ray) -> (res: Option<(usize, Hit)>)
    requires
        seq_all_wf(tris@),
        ray.wf(),
    ensures
        match res {
            Some((i, h)) => 0 <= i < tris@.len() && h.wf() && hit_spec(tris@[i as int]@, ray@)
                == Some((h.num as int, h.den as int)) && forall|j: int|
                0 <= j < tris@.len() ==> (match hit_spec(#[trigger] tris@[j]@, ray@) {
                    Some(p) => rat_le(h.num as int, h.den as int, p.0, p.1) && (i as int > j
                        ==> rat_lt(h.num as int, h.den as int, p.0, p.1)),
                    None => true,
                }),
            None => forall|j: int| 0 <= j < tris@.len() ==> hit_spec(
                #[trigger] tris@[j]@,
                ray@,
            ) is None,
        },
{
    let mut best: Option<(usize, Hit)> = None;
    let mut k: usize = 0;
    while k < tris.len()
        invariant
            0 <= k <= tris@.len(),
            seq_all_wf(tris@),
            ray.wf(),
            match best {
                Some((i, h)) => 0 <= i < k && h.wf() && hit_spec(tris@[i as int]@, ray@) == Some(
                    (h.num as int, h.den as int),
                ) && forall|j: int|
                    0 <= j < k ==> (match hit_spec(#[trigger] tris@[j]@, ray@) {
                        Some(p) => rat_le(h.num as int, h.den as int, p.0, p.1) && (i as int > j
                            ==> rat_lt(h.num as int, h.den as int, p.0, p.1)),
                        None => true,
                    }),
                None => forall|j: int| 0 <= j < k ==> hit_spec(
                    #[trigger] tris@[j]@,
                    ray@,
                ) is None,
            },
        decreases tris@.len() - k,
    {
        let t = tris[k];
        proof {
            assert(tris@[k as int].wf());
            assert(in_range(t@.v_min) && in_range(t@.v_max));
        }
        // coarse box screen: a triangle whose bounds the ray misses cannot
        // be hit (its hit point would lie inside those bounds)
        let coarse = ray_aabb_intersects(t.v_min, t.v_max, ray.origin, ray.dir);
        if !coarse {
            proof {
                if hit_spec(t@, ray@) is Some {
                    let p = hit_spec(t@, ray@)->0;
                    lemma_hit_point_in_tri_bbox(t@, ray@, p.0, p.1);
                }
            }
        } else {
            let cand = t.hit(ray);
            if let Some(h) = cand {
                let ghost prev = best;
                let better = match &best {
                    None => true,
                    Some((_, b)) => {
                        proof {
                            lemma_mul_range(
                                h.num as int,
                                b.den as int,
                                HIT_NUM_LIMIT as int,
                                HIT_DEN_LIMIT as int,
                            );
                            lemma_mul_range(
                                b.num as int,
                                h.den as int,
                                HIT_NUM_LIMIT as int,
                                HIT_DEN_LIMIT as int,
                            );
                        }
                        h.num * b.den < b.num * h.den
                    },
                };
                if better {
                    best = Some((k, h));
                    proof {
                        if let Some((i0, b)) = prev {
                            assert forall|j: int|
                                0 <= j < k implies (match hit_spec(#[trigger] tris@[j]@, ray@) {
                                Some(p) => rat_lt(h.num as int, h.den as int, p.0, p.1),
                                None => true,
                            }) by {
                                if hit_spec(tris@[j]@, ray@) is Some {
                                    let p = hit_spec(tris@[j]@, ray@)->0;
                                    crate::geom::lemma_hit_point_barycentric(
                                        tris@[j]@,
                                        ray@,
                                        p.0,
                                        p.1,
                                    );
                                    lemma_rat_lt_le_trans(
                                        h.num as int,
                                        h.den as int,
                                        b.num as int,
                                        b.den as int,
                                        p.0,
                                        p.1,
                                    );
                                }
                            }
                        }
                    }
                }
            }
        }
        k = k + 1;
    }
    best
}

} // verus!
