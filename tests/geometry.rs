use raytracer::aabb::{Point, AABB};
use raytracer::slab::slab_hit;

fn bx(min: (u64, u64, u64), max: (u64, u64, u64)) -> AABB {
    AABB::new(Point::new(min.0, min.1, min.2), Point::new(max.0, max.1, max.2))
}

fn contains(outer: &AABB, inner: &AABB) -> bool {
    outer.min.x <= inner.min.x
        && outer.min.y <= inner.min.y
        && outer.min.z <= inner.min.z
        && inner.max.x <= outer.max.x
        && inner.max.y <= outer.max.y
        && inner.max.z <= outer.max.z
}

#[test]
fn union_takes_componentwise_min_and_max() {
    let a = bx((1, 5, 3), (4, 9, 6));
    let b = bx((2, 0, 7), (3, 12, 8));
    let u = a.union(&b);
    assert_eq!((u.min.x, u.min.y, u.min.z), (1, 0, 3));
    assert_eq!((u.max.x, u.max.y, u.max.z), (4, 12, 8));
}

#[test]
fn union_contains_both_and_is_commutative() {
    let boxes = [
        bx((0, 0, 0), (1, 1, 1)),
        bx((5, 2, 9), (6, 3, 10)),
        bx((3, 3, 3), (3, 3, 3)),
        bx((0, 100, 2), (50, 200, 4)),
    ];
    for a in boxes.iter() {
        for b in boxes.iter() {
            let ab = a.union(b);
            let ba = b.union(a);
            assert!(contains(&ab, a));
            assert!(contains(&ab, b));
            assert_eq!((ab.min.x, ab.min.y, ab.min.z), (ba.min.x, ba.min.y, ba.min.z));
            assert_eq!((ab.max.x, ab.max.y, ab.max.z), (ba.max.x, ba.max.y, ba.max.z));
        }
    }
}

#[test]
fn union_of_point_boxes_is_valid() {
    let a = bx((7, 1, 4), (7, 1, 4));
    let b = bx((2, 8, 4), (2, 8, 4));
    let u = a.union(&b);
    assert!(u.min.x <= u.max.x && u.min.y <= u.max.y && u.min.z <= u.max.z);
    assert_eq!((u.min.x, u.max.x), (2, 7));
}

#[test]
fn point_axis_reads_each_coordinate() {
    let p = Point::new(10, 20, 30);
    assert_eq!(p.axis(0), 10);
    assert_eq!(p.axis(1), 20);
    assert_eq!(p.axis(2), 30);
}

#[test]
fn slab_hit_when_all_intervals_overlap() {
    assert!(slab_hit(0, 100, &[(10, 50), (20, 60), (5, 40)]));
}

#[test]
fn slab_miss_when_two_intervals_are_disjoint() {
    assert!(!slab_hit(0, 100, &[(10, 20), (30, 40), (0, 100)]));
}

#[test]
fn slab_miss_outside_window() {
    assert!(!slab_hit(0, 10, &[(20, 30), (15, 40), (12, 50)]));
    assert!(!slab_hit(60, 100, &[(20, 30), (15, 40), (12, 50)]));
}

#[test]
fn slab_touching_intervals_do_not_hit() {
    // The narrowed interval is [20, 20]: empty under the strict test.
    assert!(!slab_hit(0, 100, &[(10, 20), (20, 30), (0, 100)]));
    assert!(!slab_hit(5, 5, &[(0, 10), (0, 10), (0, 10)]));
}

#[test]
fn slab_result_is_independent_of_order_and_orientation() {
    let cases: [[(u64, u64); 3]; 4] = [
        [(10, 50), (20, 60), (5, 40)],
        [(10, 20), (30, 40), (0, 100)],
        [(70, 30), (35, 90), (40, 45)],
        [(1, 2), (2, 1), (0, 3)],
    ];
    let perms = [[0, 1, 2], [0, 2, 1], [1, 0, 2], [1, 2, 0], [2, 0, 1], [2, 1, 0]];
    for s in cases.iter() {
        let expected = slab_hit(0, 1000, s);
        for p in perms.iter() {
            for flips in 0..8u32 {
                let mut q = [(0u64, 0u64); 3];
                for k in 0..3 {
                    let (a, b) = s[p[k]];
                    q[k] = if flips & (1 << k) != 0 { (b, a) } else { (a, b) };
                }
                assert_eq!(slab_hit(0, 1000, &q), expected);
            }
        }
    }
}

#[test]
fn slab_exact_reference_values() {
    assert!(slab_hit(0, 100, &[(70, 30), (35, 90), (40, 45)]));
    assert!(slab_hit(0, 100, &[(70, 30), (35, 90), (50, 45)]));
    assert!(!slab_hit(0, 100, &[(70, 30), (35, 90), (71, 80)]));
}
