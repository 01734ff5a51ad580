use raylib::geometry::bbox::BBox;
use raylib::light::Light;
use raylib::raytracer::intersection::Intersection;
use raylib::raytracer::octree::Octree;
use raylib::raytracer::ray::{NearestHit, Ray, T_MIN_BITS};
use raylib::scalar::Scalar;
use raylib::scene::Scene;
use raylib::vec3::Vec3;

fn scalar(x: f64) -> Scalar {
    Scalar::from_bits(x.to_bits())
}

fn number(s: Scalar) -> f64 {
    f64::from_bits(s.to_bits())
}

fn vec3(x: f64, y: f64, z: f64) -> Vec3 {
    Vec3 { x: scalar(x), y: scalar(y), z: scalar(z) }
}

fn ray(origin: [f64; 3], direction: [f64; 3]) -> Ray {
    Ray::new(
        vec3(origin[0], origin[1], origin[2]),
        vec3(direction[0], direction[1], direction[2]),
        vec3(1.0 / direction[0], 1.0 / direction[1], 1.0 / direction[2]),
    )
}

fn sphere_hit(center: [f64; 3], radius: f64, ray: &Ray, t_min: f64, t_max: f64) -> Option<Intersection> {
    let o = [number(ray.origin.x), number(ray.origin.y), number(ray.origin.z)];
    let d = [number(ray.direction.x), number(ray.direction.y), number(ray.direction.z)];
    let i = [o[0] - center[0], o[1] - center[1], o[2] - center[2]];
    let b = 2.0 * (d[0] * i[0] + d[1] * i[1] + d[2] * i[2]);
    let c = i[0] * i[0] + i[1] * i[1] + i[2] * i[2] - radius * radius;
    let discriminant = b * b - 4.0 * c;
    if discriminant <= 0.0 {
        return None;
    }
    let root = discriminant.sqrt();
    let t1 = (-b - root) / 2.0;
    let t2 = (-b + root) / 2.0;
    let t = if t1 >= t_min && t1 <= t_max {
        t1
    } else if t2 >= t_min && t2 <= t_max {
        t2
    } else {
        return None;
    };
    let p = [o[0] + d[0] * t, o[1] + d[1] * t, o[2] + d[2] * t];
    Some(Intersection {
        n: vec3((p[0] - center[0]) / radius, (p[1] - center[1]) / radius, (p[2] - center[2]) / radius),
        t: scalar(t),
        u: scalar(0.0),
        v: scalar(0.0),
        position: vec3(p[0], p[1], p[2]),
        material: 0,
    })
}

fn sphere_box(center: [f64; 3], radius: f64) -> Option<BBox> {
    Some(BBox {
        min: vec3(center[0] - radius, center[1] - radius, center[2] - radius),
        max: vec3(center[0] + radius, center[1] + radius, center[2] + radius),
    })
}

fn middle(b: &BBox) -> Vec3 {
    vec3(
        (number(b.min.x) + number(b.max.x)) / 2.0,
        (number(b.min.y) + number(b.max.y)) / 2.0,
        (number(b.min.z) + number(b.max.z)) / 2.0,
    )
}

fn ray_hits_box(ray: &Ray, b: &BBox) -> bool {
    let o = [number(ray.origin.x), number(ray.origin.y), number(ray.origin.z)];
    let inv = [number(ray.inverse_dir.x), number(ray.inverse_dir.y), number(ray.inverse_dir.z)];
    let lo = [number(b.min.x), number(b.min.y), number(b.min.z)];
    let hi = [number(b.max.x), number(b.max.y), number(b.max.z)];
    let mut t_near = 0.0f64;
    let mut t_far = f64::INFINITY;
    for axis in 0..3 {
        let (near, far) = if ray.signs[axis] { (lo[axis], hi[axis]) } else { (hi[axis], lo[axis]) };
        t_near = t_near.max((near - o[axis]) * inv[axis]);
        t_far = t_far.min((far - o[axis]) * inv[axis]);
    }
    t_near <= t_far
}

fn scene_of(centers: &[[f64; 3]]) -> Scene {
    let lights: Vec<Light> = Vec::new();
    let boxes: Vec<Option<BBox>> = centers.iter().map(|c| sphere_box(*c, 1.0)).collect();
    Scene { lights, octree: Octree::build(&boxes, 2, middle), background: vec3(1.0, 1.0, 1.0) }
}

fn nearest_in_scene(centers: &[[f64; 3]], ray: &Ray) -> Option<Intersection> {
    let scene = scene_of(centers);
    ray.get_nearest_hit(&scene, &ray_hits_box, &|r: &Ray, i: usize, t_min: Scalar, t_max: Scalar| {
        sphere_hit(centers[i], 1.0, r, number(t_min), number(t_max))
    })
}

fn nearest(centers: &[[f64; 3]], ray: &Ray) -> Option<Intersection> {
    let mut search = NearestHit::new();
    for center in centers {
        let t_max = number(search.t_max);
        search = search.offer(sphere_hit(*center, 1.0, ray, 0.000001, t_max));
    }
    search.hit
}

fn hit_at(t: f64, material: usize) -> Option<Intersection> {
    Some(Intersection {
        n: vec3(0.0, 0.0, 1.0),
        t: scalar(t),
        u: scalar(0.0),
        v: scalar(0.0),
        position: vec3(0.0, 0.0, t),
        material,
    })
}

#[test]
fn it_gets_the_nearest_hit() {
    let centers = [[0.0, 0.0, 0.0], [-1.0, 0.0, 0.0], [-2.0, 0.0, 0.0]];

    let intersecting_ray = ray([10.0, 0.0, 0.0], [-1.0, 0.0, 0.0]);
    let intersection = nearest_in_scene(&centers, &intersecting_ray);
    assert_eq!(1.0, number(intersection.unwrap().position.x));

    let non_intersecting_ray = ray([10.0, 0.0, 0.0], [1.0, 0.0, 0.0]);
    let non_intersection = nearest_in_scene(&centers, &non_intersecting_ray);
    assert!(non_intersection.is_none());
}

#[test]
fn ray_outside_every_box_hits_nothing() {
    let centers = [[0.0, 0.0, 0.0], [4.0, 0.0, 0.0], [0.0, 4.0, 0.0], [0.0, 0.0, 4.0], [4.0, 4.0, 4.0]];
    let scene = scene_of(&centers);
    for (origin, direction) in [
        ([10.0, 10.0, 10.0], [1.0, 0.0, 0.0]),
        ([-5.0, 2.0, 2.0], [0.0, 0.0, 1.0]),
        ([2.0, 2.0, -9.0], [0.0, 0.0, 1.0]),
        ([0.0, 0.0, 8.0], [0.0, 0.0, 1.0]),
    ] {
        let r = ray(origin, direction);
        let asked = std::cell::Cell::new(0);
        let hit = r.get_nearest_hit(&scene, &ray_hits_box, &|r: &Ray, i: usize, lo: Scalar, hi: Scalar| {
            asked.set(asked.get() + 1);
            sphere_hit(centers[i], 1.0, r, number(lo), number(hi))
        });
        assert!(hit.is_none());
        assert_eq!(asked.get(), 0);
    }
}

#[test]
fn scene_gives_the_hit_that_asking_every_primitive_gives() {
    let centers = [
        [0.0, 0.0, 0.0], [3.0, 0.5, 0.0], [-3.0, 0.0, 0.5], [0.0, 3.0, 0.0], [0.5, -3.0, 0.0],
        [0.0, 0.0, 3.0], [0.0, 0.5, -3.0], [6.0, 6.0, 6.0], [-6.0, 6.0, -6.0], [2.0, 2.0, 2.0],
    ];
    let directions = [
        [1.0, 0.0, 0.0], [-1.0, 0.0, 0.0], [0.0, 1.0, 0.0], [0.0, -1.0, 0.0], [0.0, 0.0, 1.0],
        [0.0, 0.0, -1.0], [0.6, 0.8, 0.0], [0.0, -0.6, 0.8], [-0.8, 0.0, -0.6],
    ];
    let origins = [[-10.0, 0.0, 0.0], [10.0, 0.2, 0.1], [0.0, -10.0, 0.3], [0.1, 10.0, 0.0], [0.0, 0.0, -10.0], [0.0, 0.3, 10.0], [-6.0, -8.0, 0.0], [8.0, 8.0, 8.0]];
    let mut hits = 0;
    for origin in origins {
        for direction in directions {
            let r = ray(origin, direction);
            let through_index = nearest_in_scene(&centers, &r);
            let every: Vec<Option<Intersection>> =
                centers.iter().map(|c| sphere_hit(*c, 1.0, &r, 0.000001, f64::INFINITY)).collect();
            let by_all = NearestHit::nearest(&every);
            assert_eq!(through_index.map(|h| h.t), by_all.map(|h| h.t));
            if by_all.is_some() {
                hits += 1;
            }
        }
    }
    assert!(hits >= 6);
}

#[test]
fn unit_sphere_is_hit_at_distance_nine() {
    let r = ray([10.0, 0.0, 0.0], [-1.0, 0.0, 0.0]);
    let hit = nearest(&[[0.0, 0.0, 0.0]], &r).unwrap();
    assert_eq!(number(hit.t), 9.0);
    assert_eq!(number(hit.position.x), 1.0);
    assert_eq!(number(hit.n.x), 1.0);
}

#[test]
fn ray_pointing_away_hits_nothing() {
    let r = ray([10.0, 0.0, 0.0], [1.0, 0.0, 0.0]);
    assert!(nearest(&[[0.0, 0.0, 0.0]], &r).is_none());
}

#[test]
fn nearest_hit_does_not_depend_on_order() {
    let r = ray([10.0, 0.0, 0.0], [-1.0, 0.0, 0.0]);
    let a = [0.0, 0.0, 0.0];
    let b = [-1.0, 0.0, 0.0];
    let c = [-2.0, 0.0, 0.0];
    for order in [[a, b, c], [a, c, b], [b, a, c], [b, c, a], [c, a, b], [c, b, a]] {
        let with_pruning = nearest(&order, &r).unwrap();
        assert_eq!(number(with_pruning.t), 9.0);
        let candidates: Vec<Option<Intersection>> =
            order.iter().map(|s| sphere_hit(*s, 1.0, &r, 0.000001, f64::INFINITY)).collect();
        let all_at_once = NearestHit::nearest(&candidates).unwrap();
        assert_eq!(number(all_at_once.t), 9.0);
        assert_eq!(number(all_at_once.position.x), 1.0);
        let in_scene = nearest_in_scene(&order, &r).unwrap();
        assert_eq!(number(in_scene.t), 9.0);
        assert_eq!(number(in_scene.position.x), 1.0);
    }
}

#[test]
fn first_of_equal_distances_wins() {
    let hit = NearestHit::nearest(&vec![hit_at(5.0, 1), hit_at(2.0, 2), None, hit_at(2.0, 3), hit_at(7.0, 4)]);
    assert_eq!(hit.unwrap().material, 2);
}

#[test]
fn hits_out_of_reach_are_passed_over() {
    assert!(NearestHit::nearest(&vec![]).is_none());
    assert!(NearestHit::nearest(&vec![None, None]).is_none());
    assert!(NearestHit::nearest(&vec![hit_at(0.0, 1)]).is_none());
    assert!(NearestHit::nearest(&vec![hit_at(-3.0, 1)]).is_none());
    assert!(NearestHit::nearest(&vec![hit_at(0.000001, 1)]).is_none());
    assert!(NearestHit::nearest(&vec![hit_at(f64::INFINITY, 1)]).is_none());
    assert!(NearestHit::nearest(&vec![hit_at(f64::NAN, 1)]).is_none());
    let just_above = f64::from_bits(T_MIN_BITS + 1);
    let hit = NearestHit::nearest(&vec![hit_at(f64::NAN, 1), hit_at(just_above, 2), hit_at(-1.0, 3)]);
    assert_eq!(hit.unwrap().material, 2);
    assert_eq!(NearestHit::nearest(&vec![hit_at(f64::MAX, 9)]).unwrap().material, 9);
}

#[test]
fn least_distance_is_one_millionth() {
    assert_eq!(f64::from_bits(T_MIN_BITS), 0.000001);
}

#[test]
fn search_keeps_the_bound_at_the_nearest_hit() {
    let start = NearestHit::new();
    assert!(start.hit.is_none());
    assert_eq!(number(start.t_max), f64::INFINITY);
    let one = start.offer(hit_at(4.0, 1));
    assert_eq!(number(one.t_max), 4.0);
    let two = one.offer(hit_at(6.0, 2));
    assert_eq!(two, one);
    let three = two.offer(None);
    assert_eq!(three, one);
    let four = three.offer(hit_at(4.0, 3));
    assert_eq!(four.hit.unwrap().material, 1);
    let five = four.offer(hit_at(3.5, 4));
    assert_eq!(five.hit.unwrap().material, 4);
    assert_eq!(number(five.t_max), 3.5);
}

#[test]
fn signs_follow_the_reciprocal_direction() {
    let r = ray([0.0, 0.0, 0.0], [1.0, -2.0, 0.0]);
    assert_eq!(r.signs, [true, false, true]);
    assert_eq!(number(r.inverse_dir.x), 1.0);
    assert_eq!(number(r.inverse_dir.y), -0.5);
    assert_eq!(number(r.inverse_dir.z), f64::INFINITY);
    assert_eq!(number(r.origin.x), 0.0);
    assert_eq!(number(r.direction.y), -2.0);

    let r = ray([0.0, 0.0, 0.0], [-0.0, f64::INFINITY, f64::NAN]);
    assert_eq!(r.signs, [false, false, false]);
    for d in [[3.0, 0.25, -7.0], [-1e-300, 1e300, 5e-324], [0.0, -0.0, 1.0]] {
        let r = ray([1.0, 2.0, 3.0], d);
        assert_eq!(r.signs, [1.0 / d[0] > 0.0, 1.0 / d[1] > 0.0, 1.0 / d[2] > 0.0]);
    }
}

#[test]
fn random_offset_is_brought_to_the_side_of_the_direction() {
    let v = vec3(1.0, -2.0, 0.0);
    assert_eq!(v.toward(scalar(0.5)), v);
    assert_eq!(v.toward(scalar(0.0)), v);
    assert_eq!(v.toward(scalar(-0.0)), v);
    assert_eq!(v.toward(scalar(f64::NAN)), v);
    let flipped = v.toward(scalar(-0.5));
    assert_eq!(number(flipped.x), -1.0);
    assert_eq!(number(flipped.y), 2.0);
    assert_eq!(flipped.z.to_bits(), (-0.0f64).to_bits());
    assert_eq!(flipped, v.neg());
    assert_eq!(flipped.neg(), v);
}

#[test]
fn candidate_that_misses_changes_nothing() {
    let hits = vec![hit_at(5.0, 1), hit_at(2.0, 2), hit_at(7.0, 3)];
    let expected = NearestHit::nearest(&hits);
    for miss in [None, hit_at(0.0, 9), hit_at(-4.0, 9), hit_at(f64::NAN, 9), hit_at(f64::INFINITY, 9)] {
        for place in 0..=hits.len() {
            let mut with = hits.clone();
            with.insert(place, miss);
            assert_eq!(NearestHit::nearest(&with), expected);
        }
    }
    let r = ray([10.0, 0.0, 0.0], [-1.0, 0.0, 0.0]);
    let alone = nearest_in_scene(&[[0.0, 0.0, 0.0]], &r).unwrap();
    let among_misses =
        nearest_in_scene(&[[0.0, 5.0, 0.0], [0.0, 0.0, 0.0], [0.0, -5.0, 0.0], [3.0, 0.0, 9.0]], &r).unwrap();
    assert_eq!((alone.t, alone.position, alone.n), (among_misses.t, among_misses.position, among_misses.n));
}

#[test]
fn order_shows_only_at_equal_distances() {
    let distinct = [hit_at(5.0, 1), hit_at(2.0, 2), None, hit_at(7.0, 3)];
    for order in [[0, 1, 2, 3], [3, 2, 1, 0], [1, 0, 3, 2], [2, 3, 0, 1]] {
        let list: Vec<Option<Intersection>> = order.iter().map(|i| distinct[*i]).collect();
        assert_eq!(NearestHit::nearest(&list), hit_at(2.0, 2));
    }
    let tied = [hit_at(2.0, 1), hit_at(2.0, 2)];
    assert_eq!(NearestHit::nearest(&vec![tied[0], tied[1]]).unwrap().material, 1);
    assert_eq!(NearestHit::nearest(&vec![tied[1], tied[0]]).unwrap().material, 2);
    assert_eq!(
        NearestHit::nearest(&vec![tied[0], tied[1]]).unwrap().t,
        NearestHit::nearest(&vec![tied[1], tied[0]]).unwrap().t
    );
}

#[test]
fn asking_with_the_bound_changes_nothing() {
    let full = vec![hit_at(5.0, 1), hit_at(6.0, 2), hit_at(2.0, 3), hit_at(4.0, 4), None, hit_at(1.5, 5)];
    let mut search = NearestHit::new();
    for answer in full.iter() {
        let bound = number(search.t_max);
        let pruned = match answer {
            Some(hit) if number(hit.t) < bound => *answer,
            _ => None,
        };
        search = search.offer(pruned);
    }
    assert_eq!(search.hit, NearestHit::nearest(&full));
    assert_eq!(search.hit.unwrap().material, 5);
}
