use rustic_raycaster::frac::Frac;
use rustic_raycaster::geometry::v;
use rustic_raycaster::loader::{Color, Direction, MapCell, MapData, Spawn};
use rustic_raycaster::render::{clip, first_wall_hit, spawn_position, wall_tex_u};

fn fr(num: i64, den: i64) -> Frac {
    Frac::new(num, den)
}

fn bordered_map(width: usize, height: usize) -> MapData {
    let mut data = Vec::new();
    for y in 0..height {
        for x in 0..width {
            let border = x == 0 || y == 0 || x == width - 1 || y == height - 1;
            data.push(if border { MapCell::Wall } else { MapCell::Space });
        }
    }
    MapData {
        resolution: (640, 480),
        floor: Color { r: 220, g: 100, b: 0 },
        ceiling: Color { r: 225, g: 30, b: 0 },
        width,
        height,
        data,
        spawn: Spawn { direction: Direction::N, x: 2, y: 2 },
    }
}

#[test]
fn clip_always_lands_inside_the_screen() {
    let cases = vec![
        fr(-5, 1),
        fr(-1, 7),
        fr(0, 1),
        fr(1, 2),
        fr(479, 1),
        fr(480, 1),
        fr(100_000, 3),
    ];
    for x in cases {
        let r = clip(x, 480);
        assert!(r < 480);
    }
    assert_eq!(clip(fr(-5, 1), 480), 0);
    assert_eq!(clip(fr(961, 2), 480), 479);
    assert_eq!(clip(fr(7, 2), 480), 3);
}

#[test]
fn every_direction_strikes_a_wall_in_a_bordered_map() {
    let m = bordered_map(5, 5);
    assert!(m.check_borders());
    let p = spawn_position(&m.spawn);
    // fan directions the way render fans its columns, plus the axes
    let mut dirs = vec![(0i64, -1i64), (0, 1), (1, 0), (-1, 0)];
    for k in -8i64..=8 {
        dirs.push((16, k));
        dirs.push((-16, k));
        dirs.push((k, 16));
        dirs.push((k, -16));
    }
    for (dx, dy) in dirs {
        let d = v(Frac::from_int(dx), Frac::from_int(dy));
        let h = first_wall_hit(p, d, &m).expect("a wall-enclosed map never lets a ray escape");
        assert!(m.cell(h.x, h.y) == MapCell::Wall);
    }
}

#[test]
fn a_hole_in_the_border_is_caught() {
    let mut m = bordered_map(4, 4);
    m.data[1] = MapCell::Space; // top row, second column
    assert!(!m.check_borders());
}

#[test]
fn texture_u_mirrors_north_and_east_faces() {
    let pos = fr(1, 4);
    let u = wall_tex_u(Direction::S, pos);
    assert!(u.num * 4 == 1 * u.den);
    let u = wall_tex_u(Direction::W, pos);
    assert!(u.num * 4 == 1 * u.den);
    let u = wall_tex_u(Direction::N, pos);
    assert!(u.num * 4 == 3 * u.den);
    let u = wall_tex_u(Direction::E, pos);
    assert!(u.num * 4 == 3 * u.den);
}

#[test]
fn spawn_stands_at_the_cell_center() {
    let p = spawn_position(&Spawn { direction: Direction::E, x: 2, y: 3 });
    assert_eq!(p.x.num, 5);
    assert_eq!(p.x.den, 2);
    assert_eq!(p.y.num, 7);
    assert_eq!(p.y.den, 2);
}

#[test]
fn pointer_chars() {
    assert_eq!(Direction::N.pointer(), '^');
    assert_eq!(Direction::S.pointer(), 'v');
    assert_eq!(Direction::W.pointer(), '<');
    assert_eq!(Direction::E.pointer(), '>');
}

#[test]
fn texel_coordinates_floor_and_wrap() {
    // u = 3/4 on a 64-wide texture lands on texel 48
    let (x, y) = rustic_raycaster::render::tex_coords(fr(3, 4), fr(1, 2), 64, 32);
    assert_eq!((x, y), (48, 16));
    // u = 1 wraps back to texel 0
    let (x, _) = rustic_raycaster::render::tex_coords(fr(1, 1), fr(0, 1), 64, 32);
    assert_eq!(x, 0);
    // u = 5/2 wraps one and a half times around
    let (x, _) = rustic_raycaster::render::tex_coords(fr(5, 2), fr(0, 1), 64, 32);
    assert_eq!(x, 32);
}
