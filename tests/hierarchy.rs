use raytracer::aabb::{Point, AABB};
use raytracer::bvh_node::BvhNode;
use raytracer::hitable::{nearer, nearest_of, Hit};
use raytracer::hitable_list::HitableList;

fn bx(min: (u64, u64, u64), max: (u64, u64, u64)) -> AABB {
    AABB::new(Point::new(min.0, min.1, min.2), Point::new(max.0, max.1, max.2))
}

fn contains(outer: &AABB, inner: &AABB) -> bool {
    outer.min.x <= inner.min.x
        && outer.min.y <= inner.min.y
        && outer.min.z <= inner.min.z
        && inner.max.x <= outer.max.x
        && inner.max.y <= outer.max.y
        && inner.max.z <= outer.max.z
}

struct Lcg(u64);

impl Lcg {
    fn next(&mut self) -> u64 {
        self.0 = self.0.wrapping_mul(6364136223846793005).wrapping_add(1442695040888963407);
        self.0 >> 33
    }
}

fn random_box(rng: &mut Lcg) -> AABB {
    let x = rng.next() % 1000;
    let y = rng.next() % 1000;
    let z = rng.next() % 1000;
    bx((x, y, z), (x + 1 + rng.next() % 50, y + 1 + rng.next() % 50, z + 1 + rng.next() % 50))
}

#[test]
fn nearer_prefers_smaller_parameter_and_second_on_tie() {
    let a = Some(Hit::new(5, 0));
    let b = Some(Hit::new(3, 1));
    assert_eq!(nearer(a, b).unwrap().item, 1);
    assert_eq!(nearer(b, a).unwrap().item, 1);
    let c = Some(Hit::new(3, 2));
    assert_eq!(nearer(b, c).unwrap().item, 2);
    assert_eq!(nearer(a, None).unwrap().item, 0);
    assert_eq!(nearer(None, b).unwrap().item, 1);
    assert!(nearer(None, None).is_none());
}

#[test]
fn scan_keeps_first_of_equal_hits() {
    let ts = [None, Some(9), Some(4), Some(4), None, Some(7)];
    let r = nearest_of(ts.len(), &|k: usize| ts[k]).unwrap();
    assert_eq!((r.t, r.item), (4, 2));
    assert!(nearest_of(3, &|_k: usize| None).is_none());
    assert!(nearest_of(0, &|k: usize| ts[k]).is_none());
}

#[test]
fn list_hit_scans_every_surface() {
    let list = HitableList::new(vec![Some(bx((0, 0, 0), (1, 1, 1))); 4]);
    assert_eq!(list.len(), 4);
    let ts = [Some(30), None, Some(12), Some(20)];
    let r = list.hit(&|k: usize| ts[k]).unwrap();
    assert_eq!((r.t, r.item), (12, 2));
}

#[test]
fn list_bounding_box_is_union_of_all() {
    let list = HitableList::new(vec![
        Some(bx((4, 4, 4), (5, 5, 5))),
        Some(bx((0, 6, 2), (1, 9, 3))),
        Some(bx((2, 1, 8), (3, 2, 10))),
    ]);
    let b = list.bounding_box().unwrap();
    assert_eq!((b.min.x, b.min.y, b.min.z), (0, 1, 2));
    assert_eq!((b.max.x, b.max.y, b.max.z), (5, 9, 10));
}

#[test]
fn list_bounding_box_absent_when_empty_or_a_box_is_missing() {
    assert!(HitableList::new(vec![]).bounding_box().is_none());
    let list = HitableList::new(vec![Some(bx((0, 0, 0), (1, 1, 1))), None]);
    assert!(list.bounding_box().is_none());
    let list = HitableList::new(vec![None, Some(bx((0, 0, 0), (1, 1, 1)))]);
    assert!(list.bounding_box().is_none());
}

#[test]
fn single_surface_tree() {
    let b = bx((1, 2, 3), (4, 5, 6));
    let tree = BvhNode::build(vec![b]);
    let root = tree.bounding_box();
    assert_eq!((root.min.x, root.max.z), (1, 6));
    let r = tree.hit(&|_b: AABB| true, &|_k: usize| Some(17)).unwrap();
    assert_eq!((r.t, r.item), (17, 0));
    assert!(tree.hit(&|_b: AABB| false, &|_k: usize| None).is_none());
}

#[test]
fn two_surface_tree_box_is_union() {
    let tree = BvhNode::build(vec![bx((0, 0, 0), (1, 1, 1)), bx((5, 5, 5), (6, 7, 8))]);
    let root = tree.bounding_box();
    assert_eq!((root.min.x, root.min.y, root.min.z), (0, 0, 0));
    assert_eq!((root.max.x, root.max.y, root.max.z), (6, 7, 8));
    let ts = [Some(40), Some(25)];
    let r = tree.hit(&|_b: AABB| true, &|k: usize| ts[k]).unwrap();
    assert_eq!((r.t, r.item), (25, 1));
}

#[test]
fn tree_box_holds_every_surface() {
    let mut rng = Lcg(7);
    let boxes: Vec<AABB> = (0..37).map(|_| random_box(&mut rng)).collect();
    let tree = BvhNode::build(boxes.clone());
    let root = tree.bounding_box();
    for b in boxes.iter() {
        assert!(contains(&root, b));
    }
}

#[test]
fn tree_finds_each_surface_exactly_once() {
    let mut rng = Lcg(99);
    let n = 23;
    let boxes: Vec<AABB> = (0..n).map(|_| random_box(&mut rng)).collect();
    let tree = BvhNode::build(boxes);
    for target in 0..n {
        let r = tree.hit(&|_b: AABB| true, &|k: usize| if k == target { Some(5) } else { None });
        assert_eq!(r.unwrap().item, target);
    }
}

#[test]
fn tree_nearest_hit_equals_brute_force_scan() {
    let mut rng = Lcg(2024);
    for scene in 0..40 {
        let n = 1 + (scene % 17) as usize + (rng.next() % 5) as usize;
        let boxes: Vec<AABB> = (0..n).map(|_| random_box(&mut rng)).collect();
        let list = HitableList::new(boxes.iter().map(|b| Some(*b)).collect());
        let tree = BvhNode::build(boxes.clone());
        for _ray in 0..25 {
            // A ray hits each surface or not, at a parameter; the box test
            // reports a hit for every box holding a surface that is hit.
            let ts: Vec<Option<u64>> = (0..n)
                .map(|_| if rng.next() % 3 == 0 { Some(rng.next() % 100) } else { None })
                .collect();
            let hit_boxes: Vec<AABB> =
                (0..n).filter(|k| ts[*k].is_some()).map(|k| boxes[k]).collect();
            let box_hit = |b: AABB| hit_boxes.iter().any(|h| contains(&b, h));
            let surface_hit = |k: usize| ts[k];
            let from_tree = tree.hit(&box_hit, &surface_hit);
            let from_scan = list.hit(&surface_hit);
            assert_eq!(from_tree.is_some(), from_scan.is_some());
            if let (Some(a), Some(b)) = (from_tree, from_scan) {
                assert_eq!(a.t, b.t);
                assert_eq!(ts[a.item], Some(a.t));
            }
        }
    }
}

#[test]
fn tree_skips_subtrees_whose_box_is_missed() {
    let boxes = vec![
        bx((0, 0, 0), (1, 1, 1)),
        bx((10, 10, 10), (11, 11, 11)),
        bx((20, 20, 20), (21, 21, 21)),
        bx((30, 30, 30), (31, 31, 31)),
    ];
    let tree = BvhNode::build(boxes.clone());
    let far = boxes[3];
    let calls = std::cell::Cell::new(0usize);
    // Only boxes holding the last surface are hit.
    let r = tree.hit(&|b: AABB| contains(&b, &far), &|k: usize| {
        calls.set(calls.get() + 1);
        if k == 3 { Some(8) } else { None }
    });
    assert_eq!(r.unwrap().item, 3);
    assert_eq!(calls.get(), 1);
}
