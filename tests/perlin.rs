use raytracer::perlin::{corner_indices, Permutation};

#[test]
fn permutation_holds_each_index_once() {
    let p = Permutation::new();
    let mut seen = vec![0u32; 256];
    for c in 0..256u64 {
        let (a, _) = p.lookup(c);
        assert!(a < 256);
        seen[a] += 1;
    }
    assert!(seen.iter().all(|&n| n == 1));
}

#[test]
fn permutation_is_shuffled() {
    // The chance that three draws all leave every index in place is nil.
    let moved = (0..3).any(|_| {
        let p = Permutation::new();
        (0..256u64).any(|c| p.lookup(c).0 != c as usize)
    });
    assert!(moved);
}

#[test]
fn lookup_wraps_around_the_period() {
    let p = Permutation::new();
    assert_eq!(p.lookup(255).1, p.lookup(0).0);
    assert_eq!(p.lookup(256), p.lookup(0));
    assert_eq!(p.lookup(1000), p.lookup(1000 % 256));
    assert_eq!(p.lookup(7).1, p.lookup(8).0);
}

#[test]
fn lookup_of_negative_cell_in_twos_complement() {
    let p = Permutation::new();
    assert_eq!(p.lookup((-1i64) as u64), p.lookup(255));
    assert_eq!(p.lookup((-256i64) as u64), p.lookup(0));
}

#[test]
fn corners_combine_the_three_axes() {
    let px = Permutation::new();
    let py = Permutation::new();
    let pz = Permutation::new();
    for (cx, cy, cz) in [(0u64, 0u64, 0u64), (3, 250, 255), ((-4i64) as u64, 17, 9000)] {
        let k = corner_indices(&px, &py, &pz, cx, cy, cz);
        let (x0, x1) = px.lookup(cx);
        let (y0, y1) = py.lookup(cy);
        let (z0, z1) = pz.lookup(cz);
        assert_eq!(k, [
            x0 ^ y0 ^ z0, x0 ^ y0 ^ z1, x0 ^ y1 ^ z0, x0 ^ y1 ^ z1,
            x1 ^ y0 ^ z0, x1 ^ y0 ^ z1, x1 ^ y1 ^ z0, x1 ^ y1 ^ z1,
        ]);
        assert!(k.iter().all(|&i| i < 256));
    }
}
