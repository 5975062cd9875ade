use rustic_raycaster::frac::Frac;
use rustic_raycaster::geometry::{Grid, Interceptor, Raycaster, Vector, v};
use rustic_raycaster::loader::Direction;

fn fr(num: i64, den: i64) -> Frac {
    Frac::new(num, den)
}

fn vec2(xn: i64, xd: i64, yn: i64, yd: i64) -> Vector {
    v(fr(xn, xd), fr(yn, yd))
}

// value equality of two fractions by cross multiplication
fn same(a: Frac, bn: i128, bd: i128) -> bool {
    a.num * bd == bn * a.den
}

#[test]
fn test_interceptor() {
    let start = vec2(1, 2, 3, 2); // (0.5, 1.5)
    let dir = vec2(2, 1, 1, 1); // (2.0, 1.0)

    let mut it = Interceptor::new(start, dir, 6);
    let expected: Vec<(usize, (i128, i128), (i128, i128))> = vec![
        (1, (5, 16), (7, 4)),   // (1, 5/16, (1, 1.75))
        (2, (45, 16), (9, 4)),  // (2, 45/16, (2, 2.25))
        (3, (125, 16), (11, 4)),// (3, 125/16, (3, 2.75))
        (4, (245, 16), (13, 4)),// (4, 245/16, (4, 3.25))
        (5, (405, 16), (15, 4)),// (5, 405/16, (5, 3.75))
    ];
    for (i, dist, py) in expected {
        let c = it.next().expect("candidate expected");
        assert_eq!(c.index, i);
        assert!(same(c.dist, dist.0, dist.1));
        assert!(same(c.point.x, i as i128, 1));
        assert!(same(c.point.y, py.0, py.1));
    }
    assert!(it.next().is_none());
}

#[test]
fn test_raycaster() {
    let middle = vec2(5, 2, 5, 2); // (2.5, 2.5)
    let grid = Grid { height: 5, width: 5 };

    let mut rc = Raycaster::new(middle, vec2(0, 1, -1, 1), grid);
    let expected = vec![
        // x, y, direction, position, distance
        (2usize, 1usize, Direction::S, (1i128, 2i128), (1i128, 4i128)),
        (2, 0, Direction::S, (1, 2), (9, 4)),
    ];
    for (x, y, dir, pos, dist) in expected {
        let h = rc.next().expect("hit expected");
        assert_eq!(h.x, x);
        assert_eq!(h.y, y);
        assert_eq!(h.direction, dir);
        assert!(same(h.position, pos.0, pos.1));
        assert!(same(h.distance, dist.0, dist.1));
    }

    let mut rc = Raycaster::new(vec2(1, 2, 3, 2), vec2(2, 1, 1, 1), grid);
    let expected = vec![
        (1usize, 1usize, Direction::W, (3i128, 4i128), (5i128, 16i128)),
        (1, 2, Direction::N, (1, 2), (5, 4)),
        (2, 2, Direction::W, (1, 4), (45, 16)),
        (3, 2, Direction::W, (3, 4), (125, 16)),
        (3, 3, Direction::N, (1, 2), (45, 4)),
        (4, 3, Direction::W, (1, 4), (245, 16)),
    ];
    for (x, y, dir, pos, dist) in expected {
        let h = rc.next().expect("hit expected");
        assert_eq!(h.x, x);
        assert_eq!(h.y, y);
        assert_eq!(h.direction, dir);
        assert!(same(h.position, pos.0, pos.1));
        assert!(same(h.distance, dist.0, dist.1));
    }
    assert!(rc.next().is_none());
}

#[test]
fn zero_axis_component_yields_no_candidates() {
    // a ray with d.x == 0 produces no crossings from the x stepper
    let p = vec2(5, 2, 5, 2);
    let d = vec2(0, 1, -1, 1);
    let mut it = Interceptor::new(p, d, 5);
    assert!(it.next().is_none());
}

#[test]
fn raycaster_distances_nondecreasing_and_in_bounds() {
    let grid = Grid { height: 7, width: 9 };
    let starts = vec![vec2(5, 2, 5, 2), vec2(1, 2, 3, 2), vec2(13, 3, 9, 4)];
    let dirs = vec![
        vec2(2, 1, 1, 1),
        vec2(-3, 2, 1, 3),
        vec2(0, 1, 1, 1),
        vec2(1, 1, 0, 1),
        vec2(-1, 1, -1, 1),
    ];
    for p in &starts {
        for d in &dirs {
            let mut rc = Raycaster::new(*p, *d, grid);
            let mut count = 0;
            let mut prev: Option<Frac> = None;
            while let Some(h) = rc.next() {
                assert!(h.x < grid.width && h.y < grid.height);
                if let Some(q) = prev {
                    // q <= h.distance
                    assert!(q.num * h.distance.den <= h.distance.num * q.den);
                }
                prev = Some(h.distance);
                count += 1;
                assert!(count <= 9 + 7 + 2, "sequence must be finite");
            }
        }
    }
}

#[test]
fn vector_ops_exact() {
    let a = vec2(1, 2, 3, 2);
    let b = a.flip();
    assert!(same(b.x, 3, 2) && same(b.y, 1, 2));
    let t = a.turn();
    assert!(same(t.x, -3, 2) && same(t.y, 1, 2));
    let s = a.plus(vec2(1, 1, -1, 4));
    assert!(same(s.x, 3, 2) && same(s.y, 5, 4));
    let m = a.scale(fr(2, 3));
    assert!(same(m.x, 1, 3) && same(m.y, 1, 1));
    let n = vec2(3, 1, 4, 1).squared_norm();
    assert!(same(n, 25, 1));
    let d = vec2(1, 2, 3, 2).squared_distance(&vec2(1, 1, 7, 4));
    assert!(same(d, 5, 16));
}

#[test]
fn frac_floor_and_le() {
    assert_eq!(fr(-3, 2).floor(), -2);
    assert_eq!(fr(3, 2).floor(), 1);
    assert_eq!(fr(4, 2).floor(), 2);
    assert_eq!(fr(-4, 2).floor(), -2);
    assert!(fr(1, 3).le(&fr(1, 2)));
    assert!(!fr(1, 2).le(&fr(1, 3)));
    assert!(fr(2, 4).le(&fr(1, 2)));
}
