use arbor::quadtree::QuadTree;

fn sorted(mut v: Vec<usize>) -> Vec<usize> {
    v.sort();
    v.dedup();
    v
}

#[test]
fn query_finds_exactly_the_near_points() {
    let mut t = QuadTree::new(-100, -100, 100, 100);
    let pts: [(i64, i64); 6] = [(0, 0), (3, 4), (10, 0), (-7, -7), (50, 50), (0, -6)];
    for (i, p) in pts.iter().enumerate() {
        t.insert(i, p.0, p.1);
    }
    // radius 5 around the origin: (0,0) at 0, (3,4) at 5, (0,-6) is out
    assert_eq!(sorted(t.query_radius(0, 0, 5)), vec![0, 1]);
    // radius 6 also catches (0,-6)
    assert_eq!(sorted(t.query_radius(0, 0, 6)), vec![0, 1, 5]);
    // radius 0 is the point itself
    assert_eq!(sorted(t.query_radius(50, 50, 0)), vec![4]);
    // far away and small: nothing
    assert!(t.query_radius(90, -90, 3).is_empty());
}

#[test]
fn query_matches_exhaustive_scan() {
    // a deterministic scatter, far more points than one node holds
    let mut t = QuadTree::new(-128, -128, 128, 128);
    let mut pts: Vec<(i64, i64)> = Vec::new();
    let mut x: i64 = 1;
    for i in 0..200usize {
        x = (x * 37 + 11) % 241;
        let px = (x % 200) - 100;
        let py = ((x * 7) % 200) - 100;
        pts.push((px, py));
        t.insert(i, px, py);
    }
    for &(qx, qy, r) in [(0i64, 0i64, 30i64), (-50, 20, 45), (99, -99, 10), (0, 0, 300)].iter() {
        let got = sorted(t.query_radius(qx, qy, r));
        let want: Vec<usize> = (0..pts.len())
            .filter(|&i| {
                let dx = pts[i].0 - qx;
                let dy = pts[i].1 - qy;
                dx * dx + dy * dy <= r * r
            })
            .collect();
        assert_eq!(got, want, "query at ({}, {}) radius {}", qx, qy, r);
    }
}

#[test]
fn insert_outside_the_region_is_a_no_op() {
    let mut t = QuadTree::new(-10, -10, 10, 10);
    t.insert(0, 0, 0);
    t.insert(1, 11, 0);
    t.insert(2, 0, -11);
    // a giant radius sees everything the index holds: only the first
    assert_eq!(sorted(t.query_radius(0, 0, 1000)), vec![0]);
}

#[test]
fn coincident_points_are_all_reported() {
    let mut t = QuadTree::new(-10, -10, 10, 10);
    for i in 0..12usize {
        t.insert(i, 5, 5);
    }
    assert_eq!(sorted(t.query_radius(5, 5, 0)), (0..12).collect::<Vec<usize>>());
    assert!(t.query_radius(-5, -5, 3).is_empty());
}

#[test]
fn splits_keep_every_point() {
    // fill one quadrant so nodes split several times
    let mut t = QuadTree::new(0, 0, 64, 64);
    let mut n: usize = 0;
    for x in 0..8i64 {
        for y in 0..8i64 {
            t.insert(n, x, y);
            n += 1;
        }
    }
    assert_eq!(sorted(t.query_radius(4, 4, 100)), (0..64).collect::<Vec<usize>>());
    // a unit-radius query near a corner
    assert_eq!(sorted(t.query_radius(0, 0, 1)), vec![0, 1, 8]);
}
