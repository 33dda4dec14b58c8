use ray_tracer::intersections::{hit_index, refraction_boundaries};

// The library carries a ray distance as an order-preserving key: this is the
// usual monotone embedding of the binary32 total order into the unsigned
// integers, so smaller distances give smaller keys.
fn key(t: f32) -> u64 {
    let bits = t.to_bits();
    let k = if t.is_sign_negative() {
        !bits
    } else {
        bits | 0x8000_0000
    };
    k as u64
}

fn hit(ts: &[f32]) -> Option<usize> {
    let keys = ts.iter().map(|&t| key(t)).collect::<Vec<u64>>();
    let nonneg = ts.iter().map(|&t| t >= 0.0).collect::<Vec<bool>>();
    hit_index(&keys, &nonneg)
}

#[test]
fn the_hit_when_all_intersections_have_positive_t() {
    let ts = [2.0f32, 1.0];
    let i = hit(&ts).unwrap();
    assert_eq!(ts[i], 1.0);
}

#[test]
fn the_hit_when_some_intersections_have_negative_t() {
    let ts = [1.0f32, -1.0];
    let i = hit(&ts).unwrap();
    assert_eq!(ts[i], 1.0);
}

#[test]
fn the_hit_when_all_intersections_have_negative_t() {
    let ts = [-1.0f32, -2.0];
    assert!(hit(&ts).is_none());
}

#[test]
fn the_hit_is_always_the_lowest_nonnegative_intersection() {
    let ts = [5.0f32, 7.0, -3.0, 2.0];
    let i = hit(&ts).unwrap();
    assert_eq!(i, 3);
    assert_eq!(ts[i], 2.0);
}

#[test]
fn the_hit_of_an_empty_list_is_none() {
    assert!(hit(&[]).is_none());
}

#[test]
fn the_hit_of_equally_near_intersections_is_the_first() {
    let ts = [3.0f32, 1.0, 1.0];
    assert_eq!(hit(&ts).unwrap(), 1);
}

#[test]
fn the_hit_at_the_ray_origin_counts() {
    let ts = [-2.0f32, 0.0, 4.0];
    assert_eq!(hit(&ts).unwrap(), 1);
}

// Three overlapping glass spheres pierced by one ray.  Sphere 1 surrounds
// spheres 2 and 3, which overlap each other; the hit list enters them in the
// order 1, 2, 3 and leaves in the order 2, 3, 1.  Refractive indices:
// sphere 1 has 1.5, sphere 2 has 2.0, sphere 3 has 2.5.
#[test]
fn finding_n1_and_n2_at_various_intersections() {
    let ids: Vec<u64> = vec![1, 2, 3, 2, 3, 1];
    let ts = [2.0f32, 2.75, 3.25, 4.75, 5.25, 6.0];
    let index_of = |medium: Option<u64>| -> f32 {
        match medium {
            None => 1.0,
            Some(1) => 1.5,
            Some(2) => 2.0,
            Some(3) => 2.5,
            Some(_) => unreachable!(),
        }
    };
    let mut observed: Vec<(f32, f32)> = Vec::new();
    for k in 0..ids.len() {
        let at_hit = ts.iter().map(|&t| t == ts[k]).collect::<Vec<bool>>();
        let (n1, n2) = refraction_boundaries(&ids, &at_hit);
        observed.push((index_of(n1), index_of(n2)));
    }
    assert_eq!(
        observed,
        vec![
            (1.0, 1.5),
            (1.5, 2.0),
            (2.0, 2.5),
            (2.5, 2.5),
            (2.5, 1.5),
            (1.5, 1.0),
        ]
    );
}

#[test]
fn entering_and_leaving_a_single_glass_sphere() {
    let ids: Vec<u64> = vec![7, 7];
    let entering = refraction_boundaries(&ids, &vec![true, false]);
    assert_eq!(entering, (None, Some(7)));
    let leaving = refraction_boundaries(&ids, &vec![false, true]);
    assert_eq!(leaving, (Some(7), None));
}

#[test]
fn a_list_without_the_hit_stays_in_the_surrounding_medium() {
    let ids: Vec<u64> = vec![4, 4];
    let r = refraction_boundaries(&ids, &vec![false, false]);
    assert_eq!(r, (None, None));
}
