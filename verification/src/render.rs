use vstd::prelude::*;
use crate::frac::{Frac, frac_inv, frac_le, rat_le, rat_floor, lemma_mul_bounds,
    lemma_ceil_props, lemma_rat_lt_le_trans};
use crate::geometry::{Vector, Grid, Hit, Raycaster, ray_vec_ok, vflip, winner_x, cand_cell,
    cross_num, cross_den, icpt_count, icpt_index, icpt_desc, icpt_ceil, icpt_degenerate, dist_num,
    dist_den, cand_props, cross_floor, t_num_of, t_den_of, strictly_inside,
    lemma_interceptor_monotone, lemma_cross_floor_link, lemma_oob_crossing_after_border};
use crate::loader::{Direction, MapData, MapCell, Spawn};

verus! {

/// The camera stands at the center of the spawn cell: each coordinate
/// is the cell index plus one half, held exactly over denominator 2.
pub fn spawn_position(s: &Spawn) -> (r: Vector)
    requires
        s.x <= 32767,
        s.y <= 32767,
    ensures
        r.x.num == 2 * s.x + 1,
        r.x.den == 2,
        r.y.num == 2 * s.y + 1,
        r.y.den == 2,
        ray_vec_ok(r),
{
    Vector {
        x: Frac { num: 2 * (s.x as i128) + 1, den: 2 },
        y: Frac { num: 2 * (s.y as i128) + 1, den: 2 },
    }
}

/// The texture u-coordinate for a wall hit: south and west faces use
/// the face offset as is, north and east faces mirror it, so the
/// texture reads the same way whichever side the ray came from.
pub fn wall_tex_u(d: Direction, position: Frac) -> (r: Frac)
    requires
        frac_inv(position),
        0 <= position.num <= position.den,
    ensures
        (d == Direction::S || d == Direction::W) ==> r == position,
        (d == Direction::N || d == Direction::E) ==> r.num == position.den - position.num
            && r.den == position.den,
        frac_inv(r),
        0 <= r.num <= r.den,
{
    match d {
        Direction::S | Direction::W => position,
        Direction::N | Direction::E => Frac {
            num: position.den - position.num,
            den: position.den,
        },
    }
}

/// Walk one ray's hit sequence and return its first crossing whose
/// cell is a wall; `None` when the ray leaves the grid without ever
/// striking one. The caster emits hits nearest first, so the wall
/// returned is the nearest one: no crossing candidate of either axis
/// whose cell is a wall lies strictly closer to the origin.
pub fn first_wall_hit(p: Vector, d: Vector, m: &MapData) -> (r: Option<Hit>)
    requires
        ray_vec_ok(p),
        ray_vec_ok(d),
        m.grid_wf(),
    ensures
        r matches Some(h) ==> {
            &&& h.x < m.width && h.y < m.height
            &&& m.cell_at(h.x as int, h.y as int) == MapCell::Wall
            &&& h.distance.den > 0 && h.distance.num >= 0
            &&& 0 <= h.position.num < h.position.den
        },
        r matches Some(h) ==> forall|k: int|
            #![trigger cand_cell(p, d, k)]
            0 <= k < icpt_count(p, d, m.width as int) && 0 <= cand_cell(p, d, k).0 < m.width && 0
                <= cand_cell(p, d, k).1 < m.height && m.cell_at(
                cand_cell(p, d, k).0,
                cand_cell(p, d, k).1,
            ) == MapCell::Wall ==> rat_le(
                h.distance.num as int,
                h.distance.den as int,
                dist_num(p, d, icpt_index(p, d, k)),
                dist_den(p, d),
            ),
        r matches Some(h) ==> forall|k: int|
            #![trigger cand_cell(vflip(p), vflip(d), k)]
            0 <= k < icpt_count(vflip(p), vflip(d), m.height as int) && 0 <= cand_cell(
                vflip(p),
                vflip(d),
                k,
            ).1 < m.width && 0 <= cand_cell(vflip(p), vflip(d), k).0 < m.height && m.cell_at(
                cand_cell(vflip(p), vflip(d), k).1,
                cand_cell(vflip(p), vflip(d), k).0,
            ) == MapCell::Wall ==> rat_le(
                h.distance.num as int,
                h.distance.den as int,
                dist_num(vflip(p), vflip(d), icpt_index(vflip(p), vflip(d), k)),
                dist_den(vflip(p), vflip(d)),
            ),
        m.wall_enclosed() && strictly_inside(p, m.width as int, m.height as int) && (d.x.num != 0
            || d.y.num != 0) ==> r is Some,
{
    let grid = Grid { height: m.height, width: m.width };
    let mut rc = Raycaster::new(p, d, grid);
    loop
        invariant
            !rc.done,
            rc.wf(),
            rc.g == grid,
            grid.height == m.height,
            grid.width == m.width,
            rc.xint.p == p,
            rc.d == d,
            m.grid_wf(),
            ray_vec_ok(p),
            ray_vec_ok(d),
            forall|k: int|
                #![trigger cand_cell(p, d, k)]
                0 <= k < rc.xdone() ==> 0 <= cand_cell(p, d, k).0 < m.width && 0 <= cand_cell(
                    p,
                    d,
                    k,
                ).1 < m.height && m.cell_at(cand_cell(p, d, k).0, cand_cell(p, d, k).1)
                    != MapCell::Wall,
            forall|k: int|
                #![trigger cand_cell(vflip(p), vflip(d), k)]
                0 <= k < rc.ydone() ==> 0 <= cand_cell(vflip(p), vflip(d), k).1 < m.width && 0
                    <= cand_cell(vflip(p), vflip(d), k).0 < m.height && m.cell_at(
                    cand_cell(vflip(p), vflip(d), k).1,
                    cand_cell(vflip(p), vflip(d), k).0,
                ) != MapCell::Wall,
        decreases rc.measure(),
    {
        let ghost pre = rc;
        match rc.next() {
            None => {
                proof {
                    if m.wall_enclosed() && strictly_inside(p, m.width as int, m.height as int)
                        && (d.x.num != 0 || d.y.num != 0) {
                        lemma_live_caster_stays_in_grid(pre, p, d, m);
                        assert(false);
                    }
                }
                return None;
            },
            Some(h) => {
                proof {
                    lemma_hit_matches_candidate(pre, rc, h, p, d, m);
                }
                let c = m.cell(h.x, h.y);
                if c == MapCell::Wall {
                    proof {
                        lemma_returned_hit_is_nearest(pre, rc, h, p, d, m);
                    }
                    return Some(h);
                }
            },
        }
    }
}

/// Law (render totality): a live caster over a wall-enclosed map,
/// standing strictly inside the grid with a moving ray, whose
/// consumed candidates so far all struck non-wall cells inside the
/// grid, cannot end the sequence: exhaustion would have consumed a
/// border-cell (wall) crossing, and a candidate leaving the grid
/// sideways is always preceded by a border-line crossing of the other
/// axis, which again strikes a wall.
proof fn lemma_live_caster_stays_in_grid(pre: Raycaster, p: Vector, d: Vector, m: &MapData)
    requires
        pre.live_wf(),
        !pre.done,
        pre.xint.p == p,
        pre.d == d,
        pre.xint.size == m.width,
        pre.yint.size == m.height,
        m.grid_wf(),
        m.wall_enclosed(),
        ray_vec_ok(p),
        ray_vec_ok(d),
        strictly_inside(p, m.width as int, m.height as int),
        d.x.num != 0 || d.y.num != 0,
        forall|k: int|
            #![trigger cand_cell(p, d, k)]
            0 <= k < pre.xdone() ==> 0 <= cand_cell(p, d, k).0 < m.width && 0 <= cand_cell(
                p,
                d,
                k,
            ).1 < m.height && m.cell_at(cand_cell(p, d, k).0, cand_cell(p, d, k).1)
                != MapCell::Wall,
        forall|k: int|
            #![trigger cand_cell(vflip(p), vflip(d), k)]
            0 <= k < pre.ydone() ==> 0 <= cand_cell(vflip(p), vflip(d), k).1 < m.width && 0
                <= cand_cell(vflip(p), vflip(d), k).0 < m.height && m.cell_at(
                cand_cell(vflip(p), vflip(d), k).1,
                cand_cell(vflip(p), vflip(d), k).0,
            ) != MapCell::Wall,
        pre.g.width == m.width,
        pre.g.height == m.height,
    ensures
        pre.xbuf is Some || pre.ybuf is Some,
        winner_x(pre) ==> (pre.xbuf matches Some(c) ==> 0 <= (if icpt_desc(pre.d) {
            c.index - 1
        } else {
            c.index as int
        }) < pre.g.width && 0 <= rat_floor(c.point.y.num as int, c.point.y.den as int)
            < pre.g.height),
        !winner_x(pre) ==> (pre.ybuf matches Some(c) ==> 0 <= (if icpt_desc(vflip(pre.d)) {
            c.index - 1
        } else {
            c.index as int
        }) < pre.g.height && 0 <= rat_floor(c.point.y.num as int, c.point.y.den as int)
            < pre.g.width),
{
    let w_ = m.width as int;
    let h_ = m.height as int;
    let pf = vflip(p);
    let df = vflip(d);
    assert(vflip(pf) == p && vflip(df) == d);
    lemma_ceil_props(p.x.num as int, p.x.den as int);
    lemma_ceil_props(p.y.num as int, p.y.den as int);
    let ex = icpt_ceil(p);
    let ey = icpt_ceil(pf);
    assert(w_ >= 3) by (nonlinear_arith)
        requires
            p.x.num < (w_ - 1) * p.x.den,
            p.x.num > p.x.den,
            p.x.den > 0,
    ;
    assert(h_ >= 3) by (nonlinear_arith)
        requires
            p.y.num < (h_ - 1) * p.y.den,
            p.y.num > p.y.den,
            p.y.den > 0,
    ;
    assert(ex <= w_ - 1) by (nonlinear_arith)
        requires
            p.x.den * ex < p.x.num + p.x.den,
            p.x.num < (w_ - 1) * p.x.den,
            p.x.den > 0,
    ;
    assert(ex >= 2) by (nonlinear_arith)
        requires
            p.x.num > p.x.den,
            p.x.num <= p.x.den * ex,
            p.x.den > 0,
    ;
    assert(ey <= h_ - 1) by (nonlinear_arith)
        requires
            p.y.den * ey < p.y.num + p.y.den,
            p.y.num < (h_ - 1) * p.y.den,
            p.y.den > 0,
    ;
    assert(ey >= 2) by (nonlinear_arith)
        requires
            p.y.num > p.y.den,
            p.y.num <= p.y.den * ey,
            p.y.den > 0,
    ;
    if pre.xbuf is None && pre.ybuf is None {
        // both steppers exhausted: every candidate was consumed, yet
        // the extreme candidate of a moving axis strikes a border cell
        assert(pre.xdone() == icpt_count(p, d, w_));
        assert(pre.ydone() == icpt_count(pf, df, h_));
        if d.x.num != 0 {
            assert(!icpt_degenerate(p, d, w_));
            let ks = icpt_count(p, d, w_) - 1;
            if d.x.num > 0 {
                assert(icpt_count(p, d, w_) == w_ - ex);
                assert(icpt_index(p, d, ks) == w_ - 1);
                assert(cand_cell(p, d, ks).0 == w_ - 1);
            } else {
                assert(icpt_count(p, d, w_) == ex - 1);
                assert(icpt_index(p, d, ks) == 1);
                assert(cand_cell(p, d, ks).0 == 0);
            }
            assert(0 <= ks < pre.xdone());
            assert(m.cell_at(cand_cell(p, d, ks).0, cand_cell(p, d, ks).1) != MapCell::Wall);
            assert(m.cell_at(cand_cell(p, d, ks).0, cand_cell(p, d, ks).1) == MapCell::Wall);
        } else {
            assert(df.x.num != 0);
            assert(!icpt_degenerate(pf, df, h_));
            let ks = icpt_count(pf, df, h_) - 1;
            if d.y.num > 0 {
                assert(icpt_count(pf, df, h_) == h_ - ey);
                assert(icpt_index(pf, df, ks) == h_ - 1);
                assert(cand_cell(pf, df, ks).0 == h_ - 1);
            } else {
                assert(icpt_count(pf, df, h_) == ey - 1);
                assert(icpt_index(pf, df, ks) == 1);
                assert(cand_cell(pf, df, ks).0 == 0);
            }
            assert(0 <= ks < pre.ydone());
            assert(m.cell_at(cand_cell(pf, df, ks).1, cand_cell(pf, df, ks).0) != MapCell::Wall);
            assert(m.cell_at(cand_cell(pf, df, ks).1, cand_cell(pf, df, ks).0) == MapCell::Wall);
        }
    } else if winner_x(pre) {
        let c = pre.xbuf->0;
        let kc = pre.xdone();
        assert(cand_props(p, d, w_, kc, c));
        let i = c.index as int;
        assert(i == icpt_index(p, d, kc));
        // the entered column always stays inside the grid when the
        // origin does, so the row must be what left it
        if icpt_desc(d) {
            assert(1 <= i <= ex - 1);
            assert(0 <= i - 1 < w_);
        } else {
            assert(ex <= i <= w_ - 1);
        }
        let fy = rat_floor(c.point.y.num as int, c.point.y.den as int);
        if !(0 <= fy < h_) {
            lemma_cross_floor_link(p, d, w_, kc, c);
            assert(cross_floor(p, d, i) < 0 || cross_floor(p, d, i) >= h_);
            lemma_oob_crossing_after_border(p, d, w_, h_, kc);
            let kw = icpt_count(pf, df, h_) - 1;
            let jw = icpt_index(pf, df, kw);
            match pre.ybuf {
            Some(cy) => {
                let kb = pre.ydone();
                assert(cand_props(pf, df, h_, kb, cy));
                assert(kb <= kw);
                assert(rat_le(
                    t_num_of(p, d, i),
                    t_den_of(p, d),
                    t_num_of(pf, df, cy.index as int),
                    t_den_of(pf, df),
                ));
                lemma_rat_lt_le_trans(
                    t_num_of(pf, df, jw),
                    t_den_of(pf, df),
                    t_num_of(p, d, i),
                    t_den_of(p, d),
                    t_num_of(pf, df, cy.index as int),
                    t_den_of(pf, df),
                );
                if kb < kw {
                    lemma_interceptor_monotone(pf, df, h_, kb, kw);
                }
                crate::frac::lemma_scale_le(
                    t_num_of(pf, df, cy.index as int),
                    t_num_of(pf, df, jw),
                    t_den_of(pf, df),
                );
                assert(false);
            },
            None => {
                assert(pre.ydone() == icpt_count(pf, df, h_));
                assert(0 <= kw < pre.ydone());
                assert(m.cell_at(cand_cell(pf, df, kw).1, cand_cell(pf, df, kw).0)
                    != MapCell::Wall);
                assert(m.cell_at(cand_cell(pf, df, kw).1, cand_cell(pf, df, kw).0)
                    == MapCell::Wall);
            },
            }
        }
    } else {
        let c = pre.ybuf->0;
        let kc = pre.ydone();
        assert(cand_props(pf, df, h_, kc, c));
        let i = c.index as int;
        assert(i == icpt_index(pf, df, kc));
        if icpt_desc(df) {
            assert(1 <= i <= ey - 1);
            assert(0 <= i - 1 < h_);
        } else {
            assert(ey <= i <= h_ - 1);
        }
        let fx = rat_floor(c.point.y.num as int, c.point.y.den as int);
        if !(0 <= fx < w_) {
            lemma_cross_floor_link(pf, df, h_, kc, c);
            assert(cross_floor(pf, df, i) < 0 || cross_floor(pf, df, i) >= w_);
            assert(strictly_inside(pf, h_, w_));
            lemma_oob_crossing_after_border(pf, df, h_, w_, kc);
            let kw = icpt_count(p, d, w_) - 1;
            let jw = icpt_index(p, d, kw);
            match pre.xbuf {
            Some(cx) => {
                let kb = pre.xdone();
                assert(cand_props(p, d, w_, kb, cx));
                assert(kb <= kw);
                assert(rat_le(
                    t_num_of(pf, df, i),
                    t_den_of(pf, df),
                    t_num_of(p, d, cx.index as int),
                    t_den_of(p, d),
                ));
                lemma_rat_lt_le_trans(
                    t_num_of(p, d, jw),
                    t_den_of(p, d),
                    t_num_of(pf, df, i),
                    t_den_of(pf, df),
                    t_num_of(p, d, cx.index as int),
                    t_den_of(p, d),
                );
                if kb < kw {
                    lemma_interceptor_monotone(p, d, w_, kb, kw);
                }
                crate::frac::lemma_scale_le(
                    t_num_of(p, d, cx.index as int),
                    t_num_of(p, d, jw),
                    t_den_of(p, d),
                );
                assert(false);
            },
            None => {
                assert(pre.xdone() == icpt_count(p, d, w_));
                assert(0 <= kw < pre.xdone());
                assert(m.cell_at(cand_cell(p, d, kw).0, cand_cell(p, d, kw).1) != MapCell::Wall);
                assert(m.cell_at(cand_cell(p, d, kw).0, cand_cell(p, d, kw).1) == MapCell::Wall);
            },
            }
        }
    }
}

/// The hit that `Raycaster::next` just emitted is exactly the cell of
/// the candidate it consumed: the new fully-consumed step derives the
/// cell `(h.x, h.y)`.
proof fn lemma_hit_matches_candidate(
    pre: Raycaster,
    post: Raycaster,
    h: Hit,
    p: Vector,
    d: Vector,
    m: &MapData,
)
    requires
        pre.live_wf(),
        !pre.done,
        pre.xint.p == p,
        pre.d == d,
        pre.xint.size == m.width,
        pre.yint.size == m.height,
        m.grid_wf(),
        next_emits(pre, post, h),
    ensures
        winner_x(pre) ==> {
            &&& post.xdone() == pre.xdone() + 1 && post.ydone() == pre.ydone()
            &&& cand_cell(p, d, pre.xdone()) == (h.x as int, h.y as int)
            &&& 0 <= pre.xdone() < icpt_count(p, d, m.width as int)
        },
        !winner_x(pre) ==> {
            &&& post.ydone() == pre.ydone() + 1 && post.xdone() == pre.xdone()
            &&& cand_cell(vflip(p), vflip(d), pre.ydone()) == (h.y as int, h.x as int)
            &&& 0 <= pre.ydone() < icpt_count(vflip(p), vflip(d), m.height as int)
        },
{
    if winner_x(pre) {
        let c = pre.xbuf->0;
        let i = c.index as int;
        let cdn = cross_den(p, d);
        assert(cdn != 0) by (nonlinear_arith)
            requires
                cdn == p.y.den * (p.x.den * (d.y.den * d.x.num)),
                p.y.den > 0,
                p.x.den > 0,
                d.y.den > 0,
                d.x.num != 0,
        ;
        if cdn < 0 {
            assert(c.point.y.num * -cdn == -(c.point.y.num * cdn) && (-cross_num(p, d, i))
                * c.point.y.den == -(cross_num(p, d, i) * c.point.y.den)) by (nonlinear_arith);
            crate::frac::lemma_floor_of_eq(
                c.point.y.num as int,
                c.point.y.den as int,
                -cross_num(p, d, i),
                -cdn,
            );
        } else {
            crate::frac::lemma_floor_of_eq(
                c.point.y.num as int,
                c.point.y.den as int,
                cross_num(p, d, i),
                cdn,
            );
        }
    } else {
        let c = pre.ybuf->0;
        let i = c.index as int;
        let pf = vflip(p);
        let df = vflip(d);
        let cdn = cross_den(pf, df);
        assert(cdn != 0) by (nonlinear_arith)
            requires
                cdn == pf.y.den * (pf.x.den * (df.y.den * df.x.num)),
                pf.y.den > 0,
                pf.x.den > 0,
                df.y.den > 0,
                df.x.num != 0,
        ;
        if cdn < 0 {
            assert(c.point.y.num * -cdn == -(c.point.y.num * cdn) && (-cross_num(pf, df, i))
                * c.point.y.den == -(cross_num(pf, df, i) * c.point.y.den)) by (nonlinear_arith);
            crate::frac::lemma_floor_of_eq(
                c.point.y.num as int,
                c.point.y.den as int,
                -cross_num(pf, df, i),
                -cdn,
            );
        } else {
            crate::frac::lemma_floor_of_eq(
                c.point.y.num as int,
                c.point.y.den as int,
                cross_num(pf, df, i),
                cdn,
            );
        }
    }
}

/// What `Raycaster::next` promises when it emits `h` from state
/// `pre`, gathered so the lemmas above can take it as one premise.
pub open spec fn next_emits(pre: Raycaster, post: Raycaster, h: Hit) -> bool {
    &&& post.wf()
    &&& !post.done
    &&& post.g == pre.g && post.d == pre.d && post.xint.p == pre.xint.p
    &&& h.x < pre.g.width && h.y < pre.g.height
    &&& h.distance.den > 0 && h.distance.num >= 0
    &&& post.last@ == h.distance
    &&& (winner_x(pre) ==> {
        &&& post.yint == pre.yint && post.ybuf == pre.ybuf
        &&& post.xdone() == pre.xdone() + 1 && post.ydone() == pre.ydone()
        &&& (pre.xbuf matches Some(c) ==> h.distance == c.dist && h.x as int == (
        if icpt_desc(pre.d) {
            c.index - 1
        } else {
            c.index as int
        }) && h.y as int == rat_floor(c.point.y.num as int, c.point.y.den as int))
        &&& (pre.ybuf matches Some(cy) ==> frac_le(h.distance, cy.dist))
    })
    &&& (!winner_x(pre) ==> {
        &&& post.xint == pre.xint && post.xbuf == pre.xbuf
        &&& post.ydone() == pre.ydone() + 1 && post.xdone() == pre.xdone()
        &&& (pre.ybuf matches Some(c) ==> h.distance == c.dist && h.y as int == (
        if icpt_desc(vflip(pre.d)) {
            c.index - 1
        } else {
            c.index as int
        }) && h.x as int == rat_floor(c.point.y.num as int, c.point.y.den as int))
        &&& (pre.xbuf matches Some(cx) ==> frac_le(h.distance, cx.dist))
    })
}

/// At the moment the walk stops on a wall, no wall candidate of
/// either axis lies strictly nearer: everything consumed earlier was
/// not a wall, and everything still pending is at least as far.
proof fn lemma_returned_hit_is_nearest(
    pre: Raycaster,
    post: Raycaster,
    h: Hit,
    p: Vector,
    d: Vector,
    m: &MapData,
)
    requires
        pre.live_wf(),
        !pre.done,
        pre.xint.p == p,
        pre.d == d,
        pre.xint.size == m.width,
        pre.yint.size == m.height,
        m.grid_wf(),
        next_emits(pre, post, h),
        forall|k: int|
            #![trigger cand_cell(p, d, k)]
            0 <= k < pre.xdone() ==> m.cell_at(cand_cell(p, d, k).0, cand_cell(p, d, k).1)
                != MapCell::Wall,
        forall|k: int|
            #![trigger cand_cell(vflip(p), vflip(d), k)]
            0 <= k < pre.ydone() ==> m.cell_at(
                cand_cell(vflip(p), vflip(d), k).1,
                cand_cell(vflip(p), vflip(d), k).0,
            ) != MapCell::Wall,
    ensures
        forall|k: int|
            #![trigger cand_cell(p, d, k)]
            0 <= k < icpt_count(p, d, m.width as int) && m.cell_at(
                cand_cell(p, d, k).0,
                cand_cell(p, d, k).1,
            ) == MapCell::Wall ==> rat_le(
                h.distance.num as int,
                h.distance.den as int,
                dist_num(p, d, icpt_index(p, d, k)),
                dist_den(p, d),
            ),
        forall|k: int|
            #![trigger cand_cell(vflip(p), vflip(d), k)]
            0 <= k < icpt_count(vflip(p), vflip(d), m.height as int) && m.cell_at(
                cand_cell(vflip(p), vflip(d), k).1,
                cand_cell(vflip(p), vflip(d), k).0,
            ) == MapCell::Wall ==> rat_le(
                h.distance.num as int,
                h.distance.den as int,
                dist_num(vflip(p), vflip(d), icpt_index(vflip(p), vflip(d), k)),
                dist_den(vflip(p), vflip(d)),
            ),
{
    let w_ = m.width as int;
    let h_ = m.height as int;
    let pf = vflip(p);
    let df = vflip(d);
    assert forall|k: int|
        0 <= k < icpt_count(p, d, w_) && m.cell_at(
            #[trigger] cand_cell(p, d, k).0,
            cand_cell(p, d, k).1,
        ) == MapCell::Wall implies rat_le(
        h.distance.num as int,
        h.distance.den as int,
        dist_num(p, d, icpt_index(p, d, k)),
        dist_den(p, d),
    ) by {
        if k >= pre.xdone() {
            if winner_x(pre) {
                let c = pre.xbuf->0;
                if k > pre.xdone() {
                    lemma_interceptor_monotone(p, d, w_, pre.xdone(), k);
                }
            } else {
                assert(pre.xbuf is Some);
                let cx = pre.xbuf->0;
                if k > pre.xdone() {
                    lemma_interceptor_monotone(p, d, w_, pre.xdone(), k);
                    crate::frac::lemma_rat_le_trans(
                        h.distance.num as int,
                        h.distance.den as int,
                        cx.dist.num as int,
                        cx.dist.den as int,
                        dist_num(p, d, icpt_index(p, d, k)),
                        dist_den(p, d),
                    );
                }
            }
        }
    };
    assert forall|k: int|
        0 <= k < icpt_count(pf, df, h_) && m.cell_at(
            cand_cell(pf, df, k).1,
            #[trigger] cand_cell(pf, df, k).0,
        ) == MapCell::Wall implies rat_le(
        h.distance.num as int,
        h.distance.den as int,
        dist_num(pf, df, icpt_index(pf, df, k)),
        dist_den(pf, df),
    ) by {
        if k >= pre.ydone() {
            if !winner_x(pre) {
                let c = pre.ybuf->0;
                if k > pre.ydone() {
                    lemma_interceptor_monotone(pf, df, h_, pre.ydone(), k);
                }
            } else {
                assert(pre.ybuf is Some);
                let cy = pre.ybuf->0;
                if k > pre.ydone() {
                    lemma_interceptor_monotone(pf, df, h_, pre.ydone(), k);
                    crate::frac::lemma_rat_le_trans(
                        h.distance.num as int,
                        h.distance.den as int,
                        cy.dist.num as int,
                        cy.dist.den as int,
                        dist_num(pf, df, icpt_index(pf, df, k)),
                        dist_den(pf, df),
                    );
                }
            }
        }
    };
}

/// Which texel a texture sample lands on: scale the fractional
/// coordinates by the texture's dimensions, floor, and wrap modulo
/// the dimensions. Nearest-neighbor, no filtering.
pub fn tex_coords(u: Frac, tv: Frac, width: u32, height: u32) -> (r: (u32, u32))
    requires
        frac_inv(u),
        frac_inv(tv),
        width >= 1,
        height >= 1,
        0 <= u.num <= 0x1_0000_0000_0000_0000_0000,
        0 <= tv.num <= 0x1_0000_0000_0000_0000_0000,
        u.den <= 0x1_0000_0000_0000_0000_0000,
        tv.den <= 0x1_0000_0000_0000_0000_0000,
    ensures
        r.0 == rat_floor(u.num * width, u.den as int) % (width as int),
        r.1 == rat_floor(tv.num * height, tv.den as int) % (height as int),
        r.0 < width,
        r.1 < height,
{
    proof {
        lemma_mul_bounds(u.num as int, 0x1_0000_0000_0000_0000_0000, width as int, 0x1_0000_0000);
        lemma_mul_bounds(
            tv.num as int,
            0x1_0000_0000_0000_0000_0000,
            height as int,
            0x1_0000_0000,
        );
    }
    let mx = (u.num * (width as i128)) as u128;
    let my = (tv.num * (height as i128)) as u128;
    let x = ((mx / (u.den as u128)) % (width as u128)) as u32;
    let y = ((my / (tv.den as u128)) % (height as u128)) as u32;
    (x, y)
}

/// Clamp the integer part of `x` into `[0, bound - 1]`: negative
/// values go to 0, values at or above `bound` go to `bound - 1`, and
/// anything between is floored. Used to turn projected wall tops and
/// bottoms into screen rows.
pub fn clip(x: Frac, bound: u32) -> (r: u32)
    requires
        frac_inv(x),
        bound >= 1,
        -0x4000_0000_0000_0000_0000_0000_0000_0000 <= x.num
            <= 0x4000_0000_0000_0000_0000_0000_0000_0000,
        x.den <= 0x4000_0000_0000_0000,
    ensures
        x.num < 0 ==> r == 0,
        x.num >= bound * x.den ==> r == bound - 1,
        0 <= x.num < bound * x.den ==> r == rat_floor(x.num as int, x.den as int),
        0 <= r < bound,
{
    proof {
        lemma_mul_bounds(bound as int, 0x1_0000_0000, x.den as int, 0x4000_0000_0000_0000);
    }
    if x.num < 0 {
        0
    } else if x.num >= (bound as i128) * x.den {
        bound - 1
    } else {
        let f = x.floor();
        proof {
            vstd::arithmetic::div_mod::lemma_fundamental_div_mod(x.num as int, x.den as int);
            let q = x.num as int / x.den as int;
            let m = (x.num as int) % (x.den as int);
            assert(0 <= q < bound) by (nonlinear_arith)
                requires
                    0 < x.den,
                    0 <= x.num < bound * x.den,
                    x.num as int == x.den as int * q + m,
                    0 <= m < x.den as int,
            ;
        }
        f as u32
    }
}

} // verus!
