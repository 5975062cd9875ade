use vstd::prelude::*;
use crate::frac::{Frac, frac_inv, frac_bounded, frac_le, rat_ceil, rat_floor, lemma_frac_abs,
    lemma_mul_bounds, lemma_mul_pos};
use crate::loader::Direction;
use vstd::arithmetic::div_mod::lemma_fundamental_div_mod;

verus! {

/// Coordinates handed to the linear vector operations keep their
/// value and their denominator within this bound, so that every
/// product they form fits in an `i128`.
pub const COORD_BOUND: i128 = 32768;

/// Tighter bound for the inputs of `squared_distance` and
/// `squared_norm`: their sums of squared cross products grow four
/// powers faster than the linear operations, so they ask their
/// operands to stay within this bound.
pub const NORM_BOUND: i128 = 4096;

/// A 2D point or direction with exact rational coordinates.
#[derive(Clone, Copy, Debug)]
pub struct Vector {
    pub x: Frac,
    pub y: Frac,
}

/// A coordinate fit for ray casting: value within `COORD_BOUND`,
/// denominator at most `COORD_BOUND`.
pub open spec fn coord_ok(f: Frac) -> bool {
    frac_bounded(f, COORD_BOUND as int, COORD_BOUND as int)
}

/// Both coordinates of `v` fit for ray casting.
pub open spec fn vec_ok(v: Vector) -> bool {
    coord_ok(v.x) && coord_ok(v.y)
}

impl Vector {
    /// Swap the two coordinates. This maps the horizontal-line
    /// crossing problem onto the vertical-line one.
    pub fn flip(self) -> (r: Vector)
        ensures
            r.x == self.y,
            r.y == self.x,
    {
        Vector { x: self.y, y: self.x }
    }

    /// Rotate a quarter turn counterclockwise: `(x, y) -> (-y, x)`.
    pub fn turn(self) -> (r: Vector)
        requires
            frac_inv(self.x),
            frac_inv(self.y),
            -0x7fff_ffff_ffff_ffff_ffff <= self.y.num <= 0x7fff_ffff_ffff_ffff_ffff,
        ensures
            r.x.num == -self.y.num,
            r.x.den == self.y.den,
            r.y == self.x,
    {
        Vector { x: Frac { num: -self.y.num, den: self.y.den }, y: self.x }
    }

    /// Componentwise sum, over a common denominator.
    pub fn plus(self, rhs: Vector) -> (r: Vector)
        requires
            vec_ok(self),
            vec_ok(rhs),
        ensures
            r.x.num == self.x.num * rhs.x.den + rhs.x.num * self.x.den,
            r.x.den == self.x.den * rhs.x.den,
            r.y.num == self.y.num * rhs.y.den + rhs.y.num * self.y.den,
            r.y.den == self.y.den * rhs.y.den,
            frac_inv(r.x),
            frac_inv(r.y),
    {
        proof {
            lemma_frac_abs(self.x, COORD_BOUND as int, COORD_BOUND as int);
            lemma_frac_abs(self.y, COORD_BOUND as int, COORD_BOUND as int);
            lemma_frac_abs(rhs.x, COORD_BOUND as int, COORD_BOUND as int);
            lemma_frac_abs(rhs.y, COORD_BOUND as int, COORD_BOUND as int);
            lemma_mul_bounds(self.x.num as int, 0x4000_0000, rhs.x.den as int, 0x8000);
            lemma_mul_bounds(rhs.x.num as int, 0x4000_0000, self.x.den as int, 0x8000);
            lemma_mul_bounds(self.y.num as int, 0x4000_0000, rhs.y.den as int, 0x8000);
            lemma_mul_bounds(rhs.y.num as int, 0x4000_0000, self.y.den as int, 0x8000);
            lemma_mul_pos(self.x.den as int, rhs.x.den as int);
            lemma_mul_bounds(self.x.den as int, 0x8000, rhs.x.den as int, 0x8000);
            lemma_mul_pos(self.y.den as int, rhs.y.den as int);
            lemma_mul_bounds(self.y.den as int, 0x8000, rhs.y.den as int, 0x8000);
        }
        Vector {
            x: Frac {
                num: self.x.num * rhs.x.den + rhs.x.num * self.x.den,
                den: self.x.den * rhs.x.den,
            },
            y: Frac {
                num: self.y.num * rhs.y.den + rhs.y.num * self.y.den,
                den: self.y.den * rhs.y.den,
            },
        }
    }

    /// Componentwise scaling by the fraction `rhs`.
    pub fn scale(self, rhs: Frac) -> (r: Vector)
        requires
            vec_ok(self),
            frac_bounded(rhs, COORD_BOUND as int, COORD_BOUND as int),
        ensures
            r.x.num == self.x.num * rhs.num,
            r.x.den == self.x.den * rhs.den,
            r.y.num == self.y.num * rhs.num,
            r.y.den == self.y.den * rhs.den,
            frac_inv(r.x),
            frac_inv(r.y),
    {
        proof {
            lemma_frac_abs(self.x, COORD_BOUND as int, COORD_BOUND as int);
            lemma_frac_abs(self.y, COORD_BOUND as int, COORD_BOUND as int);
            lemma_frac_abs(rhs, COORD_BOUND as int, COORD_BOUND as int);
            lemma_mul_bounds(self.x.num as int, 0x4000_0000, rhs.num as int, 0x4000_0000);
            lemma_mul_bounds(self.y.num as int, 0x4000_0000, rhs.num as int, 0x4000_0000);
            lemma_mul_pos(self.x.den as int, rhs.den as int);
            lemma_mul_bounds(self.x.den as int, 0x8000, rhs.den as int, 0x8000);
            lemma_mul_pos(self.y.den as int, rhs.den as int);
            lemma_mul_bounds(self.y.den as int, 0x8000, rhs.den as int, 0x8000);
        }
        Vector {
            x: Frac { num: self.x.num * rhs.num, den: self.x.den * rhs.den },
            y: Frac { num: self.y.num * rhs.num, den: self.y.den * rhs.den },
        }
    }

    /// The squared length `x*x + y*y`, exactly.
    pub fn squared_norm(self) -> (r: Frac)
        requires
            frac_bounded(self.x, NORM_BOUND as int, NORM_BOUND as int),
            frac_bounded(self.y, NORM_BOUND as int, NORM_BOUND as int),
        ensures
            r.num == self.x.num * self.x.num * (self.y.den * self.y.den) + self.y.num * self.y.num
                * (self.x.den * self.x.den),
            r.den == self.x.den * self.x.den * (self.y.den * self.y.den),
            frac_inv(r),
    {
        proof {
            lemma_frac_abs(self.x, NORM_BOUND as int, NORM_BOUND as int);
            lemma_frac_abs(self.y, NORM_BOUND as int, NORM_BOUND as int);
            lemma_mul_bounds(self.x.num as int, 0x100_0000, self.x.num as int, 0x100_0000);
            lemma_mul_bounds(self.y.num as int, 0x100_0000, self.y.num as int, 0x100_0000);
            lemma_mul_bounds(self.x.den as int, 0x1000, self.x.den as int, 0x1000);
            lemma_mul_bounds(self.y.den as int, 0x1000, self.y.den as int, 0x1000);
            lemma_mul_pos(self.x.den as int, self.x.den as int);
            lemma_mul_pos(self.y.den as int, self.y.den as int);
            lemma_mul_bounds(
                (self.x.num * self.x.num) as int,
                0x1_0000_0000_0000,
                (self.y.den * self.y.den) as int,
                0x100_0000,
            );
            lemma_mul_bounds(
                (self.y.num * self.y.num) as int,
                0x1_0000_0000_0000,
                (self.x.den * self.x.den) as int,
                0x100_0000,
            );
            lemma_mul_pos((self.x.den * self.x.den) as int, (self.y.den * self.y.den) as int);
            lemma_mul_bounds(
                (self.x.den * self.x.den) as int,
                0x100_0000,
                (self.y.den * self.y.den) as int,
                0x100_0000,
            );
        }
        Frac {
            num: self.x.num * self.x.num * (self.y.den * self.y.den) + self.y.num * self.y.num * (
            self.x.den * self.x.den),
            den: self.x.den * self.x.den * (self.y.den * self.y.den),
        }
    }

    /// The squared distance between `self` and `rhs`, exactly.
    pub fn squared_distance(&self, rhs: &Vector) -> (r: Frac)
        requires
            frac_bounded(self.x, NORM_BOUND as int, NORM_BOUND as int),
            frac_bounded(self.y, NORM_BOUND as int, NORM_BOUND as int),
            frac_bounded(rhs.x, NORM_BOUND as int, NORM_BOUND as int),
            frac_bounded(rhs.y, NORM_BOUND as int, NORM_BOUND as int),
        ensures
            ({
                let dxn = rhs.x.num * self.x.den - self.x.num * rhs.x.den;
                let dxd = self.x.den * rhs.x.den;
                let dyn_ = rhs.y.num * self.y.den - self.y.num * rhs.y.den;
                let dyd = self.y.den * rhs.y.den;
                r.num == dxn * dxn * (dyd * dyd) + dyn_ * dyn_ * (dxd * dxd) && r.den == dxd * dxd
                    * (dyd * dyd)
            }),
            frac_inv(r),
    {
        proof {
            lemma_frac_abs(self.x, NORM_BOUND as int, NORM_BOUND as int);
            lemma_frac_abs(self.y, NORM_BOUND as int, NORM_BOUND as int);
            lemma_frac_abs(rhs.x, NORM_BOUND as int, NORM_BOUND as int);
            lemma_frac_abs(rhs.y, NORM_BOUND as int, NORM_BOUND as int);
            lemma_mul_bounds(rhs.x.num as int, 0x100_0000, self.x.den as int, 0x1000);
            lemma_mul_bounds(self.x.num as int, 0x100_0000, rhs.x.den as int, 0x1000);
            lemma_mul_bounds(rhs.y.num as int, 0x100_0000, self.y.den as int, 0x1000);
            lemma_mul_bounds(self.y.num as int, 0x100_0000, rhs.y.den as int, 0x1000);
            lemma_mul_pos(self.x.den as int, rhs.x.den as int);
            lemma_mul_bounds(self.x.den as int, 0x1000, rhs.x.den as int, 0x1000);
            lemma_mul_pos(self.y.den as int, rhs.y.den as int);
            lemma_mul_bounds(self.y.den as int, 0x1000, rhs.y.den as int, 0x1000);
        }
        let dxn = rhs.x.num * self.x.den - self.x.num * rhs.x.den;
        let dxd = self.x.den * rhs.x.den;
        let dyn_ = rhs.y.num * self.y.den - self.y.num * rhs.y.den;
        let dyd = self.y.den * rhs.y.den;
        proof {
            lemma_mul_bounds(dxn as int, 0x40_0000_0000, dxn as int, 0x40_0000_0000);
            lemma_mul_bounds(dyn_ as int, 0x40_0000_0000, dyn_ as int, 0x40_0000_0000);
            lemma_mul_bounds(dxd as int, 0x100_0000, dxd as int, 0x100_0000);
            lemma_mul_bounds(dyd as int, 0x100_0000, dyd as int, 0x100_0000);
            lemma_mul_pos(dxd as int, dxd as int);
            lemma_mul_pos(dyd as int, dyd as int);
            lemma_mul_bounds(
                (dxn * dxn) as int,
                0x1000_0000_0000_0000_0000,
                (dyd * dyd) as int,
                0x1_0000_0000_0000,
            );
            lemma_mul_bounds(
                (dyn_ * dyn_) as int,
                0x1000_0000_0000_0000_0000,
                (dxd * dxd) as int,
                0x1_0000_0000_0000,
            );
            lemma_mul_pos((dxd * dxd) as int, (dyd * dyd) as int);
            lemma_mul_bounds(
                (dxd * dxd) as int,
                0x1_0000_0000_0000,
                (dyd * dyd) as int,
                0x1_0000_0000_0000,
            );
        }
        Frac { num: dxn * dxn * (dyd * dyd) + dyn_ * dyn_ * (dxd * dxd), den: dxd * dxd * (dyd * dyd) }
    }
}

/// Shorthand constructor for a vector, as the callers write it.
pub fn v(x: Frac, y: Frac) -> (r: Vector)
    ensures
        r.x == x,
        r.y == y,
{
    Vector { x, y }
}

/// Rectangular map bounds: a grid of `height` rows and `width` columns.
#[derive(Clone, Copy, PartialEq, Eq, Structural, Debug)]
pub struct Grid {
    pub height: usize,
    pub width: usize,
}

impl Grid {
    /// True exactly when `(x, y)` names a cell of the grid.
    pub fn contains(&self, x: usize, y: usize) -> (r: bool)
        ensures
            r == (x < self.width && y < self.height),
    {
        y < self.height && x < self.width
    }
}

/// Largest numerator magnitude of a coordinate handed to the caster.
pub const RAY_NUM_BOUND: i128 = 65536;

/// Largest denominator of a coordinate handed to the caster, and the
/// largest grid side length the caster accepts.
pub const RAY_DEN_BOUND: i128 = 32768;

/// A coordinate the caster accepts: the absolute bounds under which
/// all of the crossing arithmetic below fits in `i128`.
pub open spec fn ray_coord_ok(f: Frac) -> bool {
    &&& 0 < f.den <= RAY_DEN_BOUND
    &&& -RAY_NUM_BOUND <= f.num <= RAY_NUM_BOUND
}

/// Both coordinates fit for casting.
pub open spec fn ray_vec_ok(v: Vector) -> bool {
    ray_coord_ok(v.x) && ray_coord_ok(v.y)
}

/// The first grid line at or after the origin's axis coordinate.
pub open spec fn icpt_ceil(p: Vector) -> int {
    rat_ceil(p.x.num as int, p.x.den as int)
}

/// The stepper yields nothing when the axis has no extent, the origin
/// lies on the negative side, or the ray does not move along the axis.
pub open spec fn icpt_degenerate(p: Vector, d: Vector, size: int) -> bool {
    size == 0 || p.x.num < 0 || d.x.num == 0
}

/// The ray travels toward smaller axis coordinates.
pub open spec fn icpt_desc(d: Vector) -> bool {
    d.x.num < 0
}

/// How many grid lines the stepper will visit in all.
pub open spec fn icpt_count(p: Vector, d: Vector, size: int) -> int {
    if icpt_degenerate(p, d, size) {
        0
    } else if icpt_desc(d) {
        if icpt_ceil(p) >= 1 {
            icpt_ceil(p) - 1
        } else {
            0
        }
    } else if size > icpt_ceil(p) {
        size - icpt_ceil(p)
    } else {
        0
    }
}

/// The grid line visited in step `k`: ascending from the ceiling of
/// the origin, or descending from just below it.
pub open spec fn icpt_index(p: Vector, d: Vector, k: int) -> int {
    if icpt_desc(d) {
        icpt_ceil(p) - 1 - k
    } else {
        icpt_ceil(p) + k
    }
}

/// `(i - p.x)` scaled by the denominator of `p.x`.
pub open spec fn shift_num(p: Vector, i: int) -> int {
    i * p.x.den - p.x.num
}

/// Numerator of the ray parameter at which line `i` is crossed.
pub open spec fn tee_num(p: Vector, d: Vector, i: int) -> int {
    shift_num(p, i) * d.x.den
}

/// Denominator of the ray parameter (sign follows `d.x`).
pub open spec fn tee_den(p: Vector, d: Vector) -> int {
    p.x.den * d.x.num
}

/// Numerator of the ray parameter at line `i`, sign-normalized so
/// that the denominator below is positive.
pub open spec fn t_num_of(p: Vector, d: Vector, i: int) -> int {
    if tee_den(p, d) < 0 {
        -tee_num(p, d, i)
    } else {
        tee_num(p, d, i)
    }
}

/// The matching positive denominator of the ray parameter.
pub open spec fn t_den_of(p: Vector, d: Vector) -> int {
    if tee_den(p, d) < 0 {
        -tee_den(p, d)
    } else {
        tee_den(p, d)
    }
}

/// The floor of the crossing's other coordinate at line `i`.
pub open spec fn cross_floor(p: Vector, d: Vector, i: int) -> int {
    if cross_den(p, d) < 0 {
        rat_floor(-cross_num(p, d, i), -cross_den(p, d))
    } else {
        rat_floor(cross_num(p, d, i), cross_den(p, d))
    }
}

/// The cell the stepper's step-`k` candidate derives: `.0` along the
/// stepped axis (the entered cell, by travel sign), `.1` the floored
/// cross coordinate.
pub open spec fn cand_cell(p: Vector, d: Vector, k: int) -> (int, int) {
    (
        if icpt_desc(d) {
            icpt_index(p, d, k) - 1
        } else {
            icpt_index(p, d, k)
        },
        cross_floor(p, d, icpt_index(p, d, k)),
    )
}

/// Numerator of the crossing's other coordinate,
/// `p.y + (i - p.x) * d.y / d.x`, over `cross_den`.
pub open spec fn cross_num(p: Vector, d: Vector, i: int) -> int {
    p.y.num * (p.x.den * (d.y.den * d.x.num)) + shift_num(p, i) * (d.y.num * (d.x.den * p.y.den))
}

/// Denominator of the crossing's other coordinate (sign follows `d.x`).
pub open spec fn cross_den(p: Vector, d: Vector) -> int {
    p.y.den * (p.x.den * (d.y.den * d.x.num))
}

/// Numerator of the squared direction length over `(d.x.den * d.y.den)^2`.
pub open spec fn dir_sq(d: Vector) -> int {
    d.x.num * d.x.num * (d.y.den * d.y.den) + d.y.num * d.y.num * (d.x.den * d.x.den)
}

/// Numerator of the squared distance from `p` to the crossing at line `i`.
pub open spec fn dist_num(p: Vector, d: Vector, i: int) -> int {
    (shift_num(p, i) * shift_num(p, i)) * dir_sq(d)
}

/// Denominator of that squared distance; positive whenever `d.x != 0`.
pub open spec fn dist_den(p: Vector, d: Vector) -> int {
    (p.x.den * p.x.den) * ((d.x.num * d.x.num) * (d.y.den * d.y.den))
}

/// One pending grid-line crossing: the line's index, the nonnegative
/// ray parameter `t` at which it is crossed (used to merge the two
/// axes), the exact squared distance, and the crossing point.
#[derive(Clone, Copy, Debug)]
pub struct Candidate {
    pub index: usize,
    pub t: Frac,
    pub dist: Frac,
    pub point: Vector,
}

/// Everything the stepper guarantees of the candidate it emits in
/// step `k`: which line it is, and that `t`, the squared distance and
/// the crossing point all carry their exact rational values, within
/// the stated machine bounds.
pub open spec fn cand_props(p: Vector, d: Vector, size: int, k: int, c: Candidate) -> bool {
    &&& 0 <= k < icpt_count(p, d, size)
    &&& c.index == icpt_index(p, d, k)
    &&& c.index <= 0x10000
    &&& 0 <= c.t.num <= 0x1_0000_0000_0000
    &&& 0 < c.t.den <= 0x1_0000_0000
    &&& c.t.num == t_num_of(p, d, c.index as int)
    &&& c.t.den == t_den_of(p, d)
    &&& c.dist.num == dist_num(p, d, c.index as int)
    &&& c.dist.den == dist_den(p, d)
    &&& c.dist.den > 0
    &&& c.dist.num >= 0
    &&& c.point.x.num == c.index
    &&& c.point.x.den == 1
    &&& 0 < c.point.y.den <= 0x2000_0000_0000_0000
    &&& -0x8000_0000_0000_0000_0000 <= c.point.y.num <= 0x8000_0000_0000_0000_0000
    &&& c.point.y.num * cross_den(p, d) == cross_num(p, d, c.index as int) * c.point.y.den
}

/// Single-axis incremental stepper: a cursor over every integer grid
/// line the ray can cross along one axis, visited in the order the
/// ray travels.
pub struct Interceptor {
    pub p: Vector,
    pub d: Vector,
    pub size: usize,
    pub cur: usize,
    pub desc: bool,
}

impl Interceptor {
    /// The origin this stepper was built over.
    pub open spec fn origin(self) -> Vector {
        self.p
    }

    /// The direction this stepper was built over.
    pub open spec fn dir(self) -> Vector {
        self.d
    }

    /// The axis extent this stepper was built over.
    pub open spec fn extent(self) -> int {
        self.size as int
    }

    /// Well-formed cursor: the inputs are in range and the cursor
    /// stands inside the candidate range that matches its direction.
    pub open spec fn wf(self) -> bool {
        &&& ray_vec_ok(self.p)
        &&& ray_vec_ok(self.d)
        &&& self.size <= RAY_DEN_BOUND
        &&& if icpt_degenerate(self.p, self.d, self.size as int) {
            !self.desc && self.cur == self.size
        } else if icpt_desc(self.d) {
            self.desc && self.cur <= icpt_count(self.p, self.d, self.size as int)
        } else {
            !self.desc && self.cur <= self.size && self.size - self.cur <= icpt_count(
                self.p,
                self.d,
                self.size as int,
            )
        }
    }

    /// How many candidates are still pending.
    pub open spec fn remaining(self) -> int {
        if self.desc {
            self.cur as int
        } else {
            self.size - self.cur
        }
    }

    /// How many candidates have been handed out.
    pub open spec fn emitted(self) -> int {
        icpt_count(self.p, self.d, self.size as int) - self.remaining()
    }

    /// Build the stepper for origin `p`, direction `d` and axis
    /// extent `size`.
    pub fn new(p: Vector, d: Vector, size: usize) -> (r: Interceptor)
        requires
            ray_vec_ok(p),
            ray_vec_ok(d),
            size <= RAY_DEN_BOUND,
        ensures
            r.wf(),
            r.origin() == p,
            r.dir() == d,
            r.extent() == size,
            r.emitted() == 0,
            r.remaining() == icpt_count(p, d, size as int),
    {
        if size == 0 || p.x.num < 0 || d.x.num == 0 {
            Interceptor { p, d, size, cur: size, desc: false }
        } else {
            proof {
                crate::frac::lemma_ceil_props(p.x.num as int, p.x.den as int);
            }
            let c128 = (((p.x.num + p.x.den - 1) as u128) / (p.x.den as u128)) as i128;
            proof {
                lemma_fundamental_div_mod((p.x.num + p.x.den - 1) as int, p.x.den as int);
                let e = rat_ceil(p.x.num as int, p.x.den as int);
                assert(c128 == e) by (nonlinear_arith)
                    requires
                        p.x.den > 0,
                        p.x.num >= 0,
                        p.x.num <= p.x.den * e < p.x.num + p.x.den,
                        c128 == (p.x.num + p.x.den - 1) as int / p.x.den as int,
                        (p.x.num + p.x.den - 1) as int == p.x.den * ((p.x.num + p.x.den - 1) as int
                            / p.x.den as int) + ((p.x.num + p.x.den - 1) as int) % (p.x.den as int),
                        0 <= ((p.x.num + p.x.den - 1) as int) % (p.x.den as int) < p.x.den as int,
                ;
            }
            let ceil = c128 as usize;
            if d.x.num < 0 {
                let start = if ceil >= 1 {
                    ceil - 1
                } else {
                    0
                };
                Interceptor { p, d, size, cur: start, desc: true }
            } else {
                let start = if ceil > size {
                    size
                } else {
                    ceil
                };
                Interceptor { p, d, size, cur: start, desc: false }
            }
        }
    }

    /// Hand out the next pending crossing, advancing the cursor. The
    /// candidate returned in step `k` satisfies `cand_props` for `k`.
    pub fn next(&mut self) -> (r: Option<Candidate>)
        requires
            old(self).wf(),
        ensures
            final(self).wf(),
            final(self).p == old(self).p,
            final(self).d == old(self).d,
            final(self).size == old(self).size,
            final(self).desc == old(self).desc,
            old(self).remaining() == 0 ==> r is None && *final(self) == *old(self),
            old(self).remaining() > 0 ==> {
                &&& r matches Some(c) && cand_props(
                    old(self).p,
                    old(self).d,
                    old(self).size as int,
                    old(self).emitted(),
                    c,
                )
                &&& final(self).remaining() == old(self).remaining() - 1
            },
    {
        let exhausted = if self.desc {
            self.cur == 0
        } else {
            self.cur >= self.size
        };
        if exhausted {
            return None;
        }
        let i = self.cur;
        if self.desc {
            self.cur = self.cur - 1;
        } else {
            self.cur = self.cur + 1;
        }
        let p = self.p;
        let d = self.d;
        let ghost k = old(self).emitted();
        proof {
            crate::frac::lemma_ceil_props(p.x.num as int, p.x.den as int);
            let e = icpt_ceil(p);
            // the emitted line index equals the spec index for step k
            if self.desc {
                assert(icpt_count(p, d, self.size as int) == e - 1);
                assert(i == icpt_index(p, d, k));
            } else {
                assert(icpt_count(p, d, self.size as int) == self.size - e);
                assert(i == icpt_index(p, d, k));
            }
            assert(i <= 0x10000);
        }
        let ii = i as i128;
        proof {
            lemma_mul_bounds(ii as int, 0x1_0000, p.x.den as int, 0x8000);
        }
        let a = ii * p.x.den - p.x.num;
        proof {
            // sign of the shift follows the travel direction
            let e = icpt_ceil(p);
            if self.desc {
                assert(a <= 0) by (nonlinear_arith)
                    requires
                        a == ii * p.x.den - p.x.num,
                        ii <= e - 1,
                        p.x.den > 0,
                        p.x.num <= p.x.den * e < p.x.num + p.x.den,
                ;
            } else {
                assert(a >= 0) by (nonlinear_arith)
                    requires
                        a == ii * p.x.den - p.x.num,
                        ii >= e,
                        p.x.den > 0,
                        p.x.num <= p.x.den * e,
                ;
            }
            lemma_mul_bounds(d.y.den as int, 0x8000, d.x.num as int, 0x1_0000);
        }
        let s1 = d.y.den * d.x.num;
        proof {
            lemma_mul_bounds(p.x.den as int, 0x8000, s1 as int, 0x8000_0000);
            lemma_mul_bounds(p.y.num as int, 0x1_0000, (p.x.den * s1) as int, 0x4000_0000_0000);
            lemma_mul_bounds(d.x.den as int, 0x8000, p.y.den as int, 0x8000);
            lemma_mul_bounds(d.y.num as int, 0x1_0000, (d.x.den * p.y.den) as int, 0x4000_0000);
        }
        let cn1 = p.y.num * (p.x.den * s1);
        let s2 = d.y.num * (d.x.den * p.y.den);
        proof {
            lemma_mul_bounds(a as int, 0x8001_0000, s2 as int, 0x4000_0000_0000);
            lemma_mul_bounds(p.y.den as int, 0x8000, (p.x.den * s1) as int, 0x4000_0000_0000);
        }
        let cn = cn1 + a * s2;
        let cd = p.y.den * (p.x.den * s1);
        proof {
            assert(cd != 0) by (nonlinear_arith)
                requires
                    cd == p.y.den * (p.x.den * s1),
                    s1 == d.y.den * d.x.num,
                    p.y.den > 0,
                    p.x.den > 0,
                    d.y.den > 0,
                    d.x.num != 0,
            ;
        }
        let yfr = if cd < 0 {
            Frac { num: -cn, den: -cd }
        } else {
            Frac { num: cn, den: cd }
        };
        proof {
            assert(yfr.num * cross_den(p, d) == cross_num(p, d, ii as int) * yfr.den)
                by (nonlinear_arith)
                requires
                    cross_num(p, d, ii as int) == cn,
                    cross_den(p, d) == cd,
                    cd != 0,
                    (cd < 0 ==> yfr.num == -cn && yfr.den == -cd),
                    (cd >= 0 ==> yfr.num == cn && yfr.den == cd),
            ;
            lemma_mul_bounds(a as int, 0x8001_0000, d.x.den as int, 0x8000);
            lemma_mul_bounds(p.x.den as int, 0x8000, d.x.num as int, 0x1_0000);
        }
        let tn0 = a * d.x.den;
        let td0 = p.x.den * d.x.num;
        proof {
            // the parameter t is nonnegative along the travel direction
            if self.desc {
                assert(td0 < 0 && tn0 <= 0) by (nonlinear_arith)
                    requires
                        td0 == p.x.den * d.x.num,
                        tn0 == a * d.x.den,
                        p.x.den > 0,
                        d.x.num < 0,
                        d.x.den > 0,
                        a <= 0,
                ;
            } else {
                assert(td0 > 0 && tn0 >= 0) by (nonlinear_arith)
                    requires
                        td0 == p.x.den * d.x.num,
                        tn0 == a * d.x.den,
                        p.x.den > 0,
                        d.x.num > 0,
                        d.x.den > 0,
                        a >= 0,
                ;
            }
        }
        let tfr = if td0 < 0 {
            Frac { num: -tn0, den: -td0 }
        } else {
            Frac { num: tn0, den: td0 }
        };
        proof {
            assert(tee_num(p, d, ii as int) == tn0);
            assert(tee_den(p, d) == td0);
            lemma_mul_bounds(a as int, 0x8001_0000, a as int, 0x8001_0000);
            lemma_mul_bounds(d.x.num as int, 0x1_0000, d.x.num as int, 0x1_0000);
            lemma_mul_bounds(d.y.den as int, 0x8000, d.y.den as int, 0x8000);
            lemma_mul_bounds(d.y.num as int, 0x1_0000, d.y.num as int, 0x1_0000);
            lemma_mul_bounds(d.x.den as int, 0x8000, d.x.den as int, 0x8000);
            lemma_mul_bounds(
                (d.x.num * d.x.num) as int,
                0x1_0000_0000,
                (d.y.den * d.y.den) as int,
                0x4000_0000,
            );
            lemma_mul_bounds(
                (d.y.num * d.y.num) as int,
                0x1_0000_0000,
                (d.x.den * d.x.den) as int,
                0x4000_0000,
            );
        }
        let q = a * a;
        let s3 = d.x.num * d.x.num * (d.y.den * d.y.den);
        let s4 = d.y.num * d.y.num * (d.x.den * d.x.den);
        proof {
            lemma_mul_bounds(
                q as int,
                (0x8001_0000 * 0x8001_0000) as int,
                (s3 + s4) as int,
                0x8000_0000_0000_0000,
            );
            lemma_mul_bounds(p.x.den as int, 0x8000, p.x.den as int, 0x8000);
            lemma_mul_bounds(
                (d.x.num * d.x.num) as int,
                0x1_0000_0000,
                (d.y.den * d.y.den) as int,
                0x4000_0000,
            );
            lemma_mul_bounds(
                (p.x.den * p.x.den) as int,
                0x4000_0000,
                ((d.x.num * d.x.num) * (d.y.den * d.y.den)) as int,
                0x4000_0000_0000_0000,
            );
            assert(q >= 0) by (nonlinear_arith)
                requires
                    q == a * a,
            ;
            assert(s3 >= 0 && s4 >= 0) by (nonlinear_arith)
                requires
                    s3 == d.x.num * d.x.num * (d.y.den * d.y.den),
                    s4 == d.y.num * d.y.num * (d.x.den * d.x.den),
                    d.y.den > 0,
                    d.x.den > 0,
            ;
            assert(q * (s3 + s4) >= 0) by (nonlinear_arith)
                requires
                    q >= 0,
                    s3 + s4 >= 0,
            ;
            assert((p.x.den * p.x.den) * ((d.x.num * d.x.num) * (d.y.den * d.y.den)) > 0)
                by (nonlinear_arith)
                requires
                    p.x.den > 0,
                    d.x.num != 0,
                    d.y.den > 0,
            ;
        }
        let dn = q * (s3 + s4);
        let dd = (p.x.den * p.x.den) * ((d.x.num * d.x.num) * (d.y.den * d.y.den));
        Some(
            Candidate {
                index: i,
                t: tfr,
                dist: Frac { num: dn, den: dd },
                point: Vector { x: Frac { num: ii, den: 1 }, y: yfr },
            },
        )
    }
}

/// Law: the stepper's emissions move strictly away from the origin.
/// For any two steps `k1 < k2`, the squared distance emitted at `k2`
/// is strictly larger than at `k1`, and the line indices strictly
/// ascend when the ray travels positively, strictly descend when it
/// travels negatively.
pub proof fn lemma_interceptor_monotone(p: Vector, d: Vector, size: int, k1: int, k2: int)
    requires
        ray_vec_ok(p),
        ray_vec_ok(d),
        0 <= k1 < k2 < icpt_count(p, d, size),
    ensures
        dist_den(p, d) > 0,
        crate::frac::rat_lt(
            dist_num(p, d, icpt_index(p, d, k1)),
            dist_den(p, d),
            dist_num(p, d, icpt_index(p, d, k2)),
            dist_den(p, d),
        ),
        !icpt_desc(d) ==> icpt_index(p, d, k1) < icpt_index(p, d, k2),
        icpt_desc(d) ==> icpt_index(p, d, k2) < icpt_index(p, d, k1),
        t_den_of(p, d) > 0,
        t_num_of(p, d, icpt_index(p, d, k1)) < t_num_of(p, d, icpt_index(p, d, k2)),
{
    crate::frac::lemma_ceil_props(p.x.num as int, p.x.den as int);
    let e = icpt_ceil(p);
    let i1 = icpt_index(p, d, k1);
    let i2 = icpt_index(p, d, k2);
    let a1 = shift_num(p, i1);
    let a2 = shift_num(p, i2);
    let s = dir_sq(d);
    assert(s > 0) by (nonlinear_arith)
        requires
            s == d.x.num * d.x.num * (d.y.den * d.y.den) + d.y.num * d.y.num * (d.x.den * d.x.den),
            d.x.num != 0,
            d.y.den > 0,
            d.x.den > 0,
    ;
    assert(dist_den(p, d) > 0) by (nonlinear_arith)
        requires
            dist_den(p, d) == (p.x.den * p.x.den) * ((d.x.num * d.x.num) * (d.y.den * d.y.den)),
            p.x.den > 0,
            d.x.num != 0,
            d.y.den > 0,
    ;
    if icpt_desc(d) {
        assert(a2 < a1 <= 0) by (nonlinear_arith)
            requires
                a1 == i1 * p.x.den - p.x.num,
                a2 == i2 * p.x.den - p.x.num,
                i2 < i1 <= e - 1,
                p.x.den > 0,
                p.x.num <= p.x.den * e < p.x.num + p.x.den,
        ;
        crate::frac::lemma_sq_lt(-a1, -a2);
        assert(a1 * a1 < a2 * a2) by (nonlinear_arith)
            requires
                (-a1) * (-a1) < (-a2) * (-a2),
        ;
        assert(tee_den(p, d) < 0) by (nonlinear_arith)
            requires
                tee_den(p, d) == p.x.den * d.x.num,
                p.x.den > 0,
                d.x.num < 0,
        ;
        assert(-(a1 * d.x.den) < -(a2 * d.x.den)) by (nonlinear_arith)
            requires
                a2 < a1,
                d.x.den > 0,
        ;
    } else {
        assert(0 <= a1 < a2) by (nonlinear_arith)
            requires
                a1 == i1 * p.x.den - p.x.num,
                a2 == i2 * p.x.den - p.x.num,
                e <= i1 < i2,
                p.x.den > 0,
                p.x.num <= p.x.den * e,
        ;
        crate::frac::lemma_sq_lt(a1, a2);
        lemma_mul_pos(p.x.den as int, d.x.num as int);
        assert(a1 * d.x.den < a2 * d.x.den) by (nonlinear_arith)
            requires
                a1 < a2,
                d.x.den > 0,
        ;
    }
    assert((a1 * a1) * s < (a2 * a2) * s) by (nonlinear_arith)
        requires
            a1 * a1 < a2 * a2,
            s > 0,
    ;
    assert(dist_num(p, d, i1) * dist_den(p, d) < dist_num(p, d, i2) * dist_den(p, d))
        by (nonlinear_arith)
        requires
            dist_num(p, d, i1) == (a1 * a1) * s,
            dist_num(p, d, i2) == (a2 * a2) * s,
            (a1 * a1) * s < (a2 * a2) * s,
            dist_den(p, d) > 0,
    ;
}

/// Law: a ray with no motion along an axis produces no crossing
/// candidates from that axis's stepper, whatever the origin and the
/// axis extent.
pub proof fn lemma_zero_axis_no_candidates(p: Vector, d: Vector, size: int)
    requires
        d.x.num == 0,
    ensures
        icpt_count(p, d, size) == 0,
{
}

/// Law: for any ray the crossing sequence is finite. The two
/// steppers start with at most this many candidates between them;
/// `Raycaster::new` starts with `measure` equal to their sum, and
/// every hit emitted by `Raycaster::next` strictly decreases
/// `measure`, so the sequence ends after at most
/// `width + height + 131072` hits — and when the origin stands
/// inside the grid, after at most `width` vertical-line and `height`
/// horizontal-line hits.
pub proof fn lemma_raycaster_finite(p: Vector, d: Vector, g: Grid)
    requires
        ray_vec_ok(p),
        ray_vec_ok(d),
    ensures
        icpt_count(p, d, g.width as int) + icpt_count(vflip(p), vflip(d), g.height as int)
            <= g.width + g.height + 0x2_0000,
        strictly_inside(p, g.width as int, g.height as int) ==> icpt_count(p, d, g.width as int)
            <= g.width && icpt_count(vflip(p), vflip(d), g.height as int) <= g.height,
{
    crate::frac::lemma_ceil_props(p.x.num as int, p.x.den as int);
    crate::frac::lemma_ceil_props(p.y.num as int, p.y.den as int);
    if strictly_inside(p, g.width as int, g.height as int) {
        assert(icpt_ceil(p) <= g.width) by (nonlinear_arith)
            requires
                p.x.den * icpt_ceil(p) < p.x.num + p.x.den,
                p.x.num < (g.width - 1) * p.x.den,
                p.x.den > 0,
                icpt_ceil(p) == rat_ceil(p.x.num as int, p.x.den as int),
        ;
        assert(icpt_ceil(vflip(p)) <= g.height) by (nonlinear_arith)
            requires
                p.y.den * icpt_ceil(vflip(p)) < p.y.num + p.y.den,
                p.y.num < (g.height - 1) * p.y.den,
                p.y.den > 0,
                icpt_ceil(vflip(p)) == rat_ceil(p.y.num as int, p.y.den as int),
        ;
    }
}

/// The coordinate swap, at the spec level.
pub open spec fn vflip(v: Vector) -> Vector {
    Vector { x: v.y, y: v.x }
}

/// The ray origin keeps a one-cell margin to the grid border, as the
/// camera does whenever it stands in a non-border cell of a
/// wall-enclosed map.
pub open spec fn strictly_inside(p: Vector, w: int, h: int) -> bool {
    &&& p.x.den < p.x.num
    &&& p.x.num < (w - 1) * p.x.den
    &&& p.y.den < p.y.num
    &&& p.y.num < (h - 1) * p.y.den
}

/// Law: comparing two candidates by their ray parameter `t` is the
/// same as comparing them by squared distance, even across the two
/// axes. `cx` comes from the stepper over `(p, d)`, `cy` from the
/// stepper over the flipped pair; both measure distance along the
/// same ray, so the squared distance is `t * t` times the shared
/// squared direction length.
pub proof fn lemma_t_dist_order(
    p: Vector,
    d: Vector,
    size_x: int,
    size_y: int,
    kx: int,
    ky: int,
    cx: Candidate,
    cy: Candidate,
)
    requires
        ray_vec_ok(p),
        ray_vec_ok(d),
        cand_props(p, d, size_x, kx, cx),
        cand_props(vflip(p), vflip(d), size_y, ky, cy),
    ensures
        frac_le(cx.t, cy.t) == frac_le(cx.dist, cy.dist),
{
    let u = cx.t.num as int;
    let vv = cx.t.den as int;
    let w = cy.t.num as int;
    let z = cy.t.den as int;
    let ax = shift_num(p, cx.index as int);
    let ay = shift_num(vflip(p), cy.index as int);
    let s = dir_sq(d);
    assert(dir_sq(vflip(d)) == s);
    assert(s > 0) by (nonlinear_arith)
        requires
            s == d.x.num * d.x.num * (d.y.den * d.y.den) + d.y.num * d.y.num * (d.x.den * d.x.den),
            d.x.num != 0,
            d.y.den as int > 0,
            d.x.den as int > 0,
    ;
    // the exact factors of the two t values
    let e1 = ax * d.x.den;
    let e2 = p.x.den * d.x.num;
    let f1 = ay * d.y.den;
    let f2 = p.y.den * d.y.num;
    assert(tee_num(p, d, cx.index as int) == e1);
    assert(tee_den(p, d) == e2);
    assert(tee_num(vflip(p), vflip(d), cy.index as int) == f1);
    assert(tee_den(vflip(p), vflip(d)) == f2);
    // squares of the t components, independent of the sign cases
    assert((-e1) * (-e1) == e1 * e1) by (nonlinear_arith);
    assert((-e2) * (-e2) == e2 * e2) by (nonlinear_arith);
    assert((-f1) * (-f1) == f1 * f1) by (nonlinear_arith);
    assert((-f2) * (-f2) == f2 * f2) by (nonlinear_arith);
    assert(u * u == e1 * e1);
    assert(vv * vv == e2 * e2);
    assert(w * w == f1 * f1);
    assert(z * z == f2 * f2);
    // the two cross products, squared
    let gbig = e1 * f2;
    let hbig = f1 * e2;
    assert((u * z) * (u * z) == (u * u) * (z * z)) by (nonlinear_arith);
    assert((e1 * e1) * (f2 * f2) == (e1 * f2) * (e1 * f2)) by (nonlinear_arith);
    assert((u * z) * (u * z) == gbig * gbig);
    assert((w * vv) * (w * vv) == (w * w) * (vv * vv)) by (nonlinear_arith);
    assert((f1 * f1) * (e2 * e2) == (f1 * e2) * (f1 * e2)) by (nonlinear_arith);
    assert((w * vv) * (w * vv) == hbig * hbig);
    // each side of the distance comparison is such a square times s
    assert(cx.dist.num == (ax * ax) * s);
    assert(cx.dist.den == (p.x.den * p.x.den) * ((d.x.num * d.x.num) * (d.y.den * d.y.den)));
    assert(cy.dist.num == (ay * ay) * s);
    assert(cy.dist.den == (p.y.den * p.y.den) * ((d.y.num * d.y.num) * (d.x.den * d.x.den)));
    crate::frac::lemma_sq_mul(e1, f2);
    crate::frac::lemma_sq_mul(ax, d.x.den as int);
    crate::frac::lemma_sq_mul(p.y.den as int, d.y.num as int);
    assert(gbig * gbig == ((ax * ax) * (d.x.den * d.x.den)) * ((p.y.den * p.y.den) * (d.y.num
        * d.y.num)));
    let a2 = ax * ax;
    let b2 = (d.x.den * d.x.den) as int;
    let c2 = (p.y.den * p.y.den) as int;
    let d2 = (d.y.num * d.y.num) as int;
    assert((a2 * s) * (c2 * (d2 * b2)) == ((a2 * b2) * (c2 * d2)) * s) by (nonlinear_arith);
    assert(cx.dist.num * cy.dist.den == (gbig * gbig) * s);
    crate::frac::lemma_sq_mul(f1, e2);
    crate::frac::lemma_sq_mul(ay, d.y.den as int);
    crate::frac::lemma_sq_mul(p.x.den as int, d.x.num as int);
    assert(hbig * hbig == ((ay * ay) * (d.y.den * d.y.den)) * ((p.x.den * p.x.den) * (d.x.num
        * d.x.num)));
    let a3 = ay * ay;
    let b3 = (d.y.den * d.y.den) as int;
    let c3 = (p.x.den * p.x.den) as int;
    let d3 = (d.x.num * d.x.num) as int;
    assert((a3 * s) * (c3 * (d3 * b3)) == ((a3 * b3) * (c3 * d3)) * s) by (nonlinear_arith);
    assert(cy.dist.num * cx.dist.den == (hbig * hbig) * s);
    // transfer: scale by s, drop the squares
    crate::frac::lemma_scale_le(gbig * gbig, hbig * hbig, s);
    crate::frac::lemma_mul_nonneg(u, z);
    crate::frac::lemma_mul_nonneg(w, vv);
    crate::frac::lemma_sq_le(u * z, w * vv);
    assert(frac_le(cx.t, cy.t) == (u * z <= w * vv));
    assert(frac_le(cx.dist, cy.dist) == (cx.dist.num * cy.dist.den <= cy.dist.num * cx.dist.den));
}

/// The floored cross coordinate of a candidate equals the spec-level
/// `cross_floor` at its line: the candidate's point carries the same
/// rational value.
pub proof fn lemma_cross_floor_link(p: Vector, d: Vector, size: int, k: int, c: Candidate)
    requires
        ray_vec_ok(p),
        ray_vec_ok(d),
        cand_props(p, d, size, k, c),
    ensures
        cross_floor(p, d, c.index as int) == rat_floor(c.point.y.num as int, c.point.y.den as int),
{
    let i = c.index as int;
    let cdn = cross_den(p, d);
    assert(cdn != 0) by (nonlinear_arith)
        requires
            cdn == p.y.den * (p.x.den * (d.y.den * d.x.num)),
            p.y.den > 0,
            p.x.den > 0,
            d.y.den > 0,
            d.x.num != 0,
    ;
    if cdn < 0 {
        assert(c.point.y.num * -cdn == -(c.point.y.num * cdn) && (-cross_num(p, d, i))
            * c.point.y.den == -(cross_num(p, d, i) * c.point.y.den)) by (nonlinear_arith);
        crate::frac::lemma_floor_of_eq(
            c.point.y.num as int,
            c.point.y.den as int,
            -cross_num(p, d, i),
            -cdn,
        );
    } else {
        crate::frac::lemma_floor_of_eq(
            c.point.y.num as int,
            c.point.y.den as int,
            cross_num(p, d, i),
            cdn,
        );
    }
}

/// Law behind render totality: when a crossing's cell leaves the grid
/// sideways (its floored cross coordinate falls outside `[0, h)`),
/// the ray has already crossed the matching border line of the other
/// axis. That axis's stepper is nonempty, its last candidate derives
/// the border row (`h - 1` when the ray left upward, `0` downward),
/// and that candidate lies strictly nearer along the ray.
pub proof fn lemma_oob_crossing_after_border(p: Vector, d: Vector, w: int, h: int, kc: int)
    requires
        ray_vec_ok(p),
        ray_vec_ok(d),
        strictly_inside(p, w, h),
        0 <= kc < icpt_count(p, d, w),
        cross_floor(p, d, icpt_index(p, d, kc)) < 0 || cross_floor(p, d, icpt_index(p, d, kc))
            >= h,
    ensures
        icpt_count(vflip(p), vflip(d), h) >= 1,
        ({
            let kw = icpt_count(vflip(p), vflip(d), h) - 1;
            let jw = icpt_index(vflip(p), vflip(d), kw);
            &&& cand_cell(vflip(p), vflip(d), kw).0 == (if cross_floor(p, d, icpt_index(p, d, kc))
                >= h {
                h - 1
            } else {
                0int
            })
            &&& crate::frac::rat_lt(
                t_num_of(vflip(p), vflip(d), jw),
                t_den_of(vflip(p), vflip(d)),
                t_num_of(p, d, icpt_index(p, d, kc)),
                t_den_of(p, d),
            )
        }),
{
    let pxn = p.x.num as int;
    let pxd = p.x.den as int;
    let pyn = p.y.num as int;
    let pyd = p.y.den as int;
    let dxn = d.x.num as int;
    let dxd = d.x.den as int;
    let dyn_ = d.y.num as int;
    let dyd = d.y.den as int;
    let i = icpt_index(p, d, kc);
    let a = shift_num(p, i);
    crate::frac::lemma_ceil_props(pxn, pxd);
    crate::frac::lemma_ceil_props(pyn, pyd);
    let e = icpt_ceil(p);
    let tn0 = tee_num(p, d, i);
    let td0 = tee_den(p, d);
    let cn0 = cross_num(p, d, i);
    let cd0 = cross_den(p, d);
    assert(tn0 == a * dxd);
    assert(td0 == pxd * dxn);
    assert(cn0 == pyn * (pxd * (dyd * dxn)) + a * (dyn_ * (dxd * pyd)));
    assert(cd0 == pyd * (pxd * (dyd * dxn)));
    assert(dxn != 0);
    assert(td0 != 0) by (nonlinear_arith)
        requires
            td0 == pxd * dxn,
            pxd > 0,
            dxn != 0,
    ;
    assert(cd0 == td0 * (pyd * dyd)) by (nonlinear_arith)
        requires
            td0 == pxd * dxn,
            cd0 == pyd * (pxd * (dyd * dxn)),
    ;
    assert((td0 < 0) == (cd0 < 0) && cd0 != 0) by (nonlinear_arith)
        requires
            cd0 == td0 * (pyd * dyd),
            pyd > 0,
            dyd > 0,
            td0 != 0,
    ;
    let tnum = t_num_of(p, d, i);
    let tden = t_den_of(p, d);
    // the shift's sign follows the travel direction, so t is nonnegative
    if icpt_desc(d) {
        assert(i <= e - 1);
        assert(a < 0) by (nonlinear_arith)
            requires
                a == i * pxd - pxn,
                i <= e - 1,
                pxd > 0,
                pxd * e < pxn + pxd,
        ;
        assert(td0 < 0) by (nonlinear_arith)
            requires
                td0 == pxd * dxn,
                pxd > 0,
                dxn < 0,
        ;
        assert(tnum == -(a * dxd) && tden == -(pxd * dxn));
        assert(tnum >= 0 && tden > 0) by (nonlinear_arith)
            requires
                a < 0,
                dxd > 0,
                pxd > 0,
                dxn < 0,
                tnum == -(a * dxd),
                tden == -(pxd * dxn),
        ;
    } else {
        assert(i >= e);
        assert(a >= 0) by (nonlinear_arith)
            requires
                a == i * pxd - pxn,
                i >= e,
                pxd > 0,
                pxn <= pxd * e,
        ;
        assert(dxn > 0);
        assert(td0 > 0) by (nonlinear_arith)
            requires
                td0 == pxd * dxn,
                pxd > 0,
                dxn > 0,
        ;
        assert(tnum == a * dxd && tden == pxd * dxn);
        assert(tnum >= 0 && tden > 0) by (nonlinear_arith)
            requires
                a >= 0,
                dxd > 0,
                pxd > 0,
                dxn > 0,
                tnum == a * dxd,
                tden == pxd * dxn,
        ;
    }
    // sign-normalized cross pair, and the bridge to the ray parameter:
    // the crossing's other coordinate is p.y plus t times d.y
    let nn = if cd0 < 0 {
        -cn0
    } else {
        cn0
    };
    let dd_ = if cd0 < 0 {
        -cd0
    } else {
        cd0
    };
    assert(dd_ > 0);
    let p1 = pyn * (pxd * (dyd * dxn));
    let p2 = a * (dyn_ * (dxd * pyd));
    assert((p1 + p2) * pyd == p1 * pyd + p2 * pyd) by (nonlinear_arith);
    assert((pyn * (pxd * (dyd * dxn))) * pyd == pyn * (pyd * (pxd * (dyd * dxn))))
        by (nonlinear_arith);
    assert((a * (dyn_ * (dxd * pyd))) * pyd == (a * dxd) * (dyn_ * (pyd * pyd)))
        by (nonlinear_arith);
    assert(p1 * pyd == pyn * (pyd * (pxd * (dyd * dxn))));
    assert(p2 * pyd == (a * dxd) * (dyn_ * (pyd * pyd)));
    assert(cn0 * pyd - pyn * cd0 == tn0 * (dyn_ * (pyd * pyd)));
    if td0 < 0 {
        assert((-cn0) * pyd == -(cn0 * pyd)) by (nonlinear_arith);
        assert(pyn * (-cd0) == -(pyn * cd0)) by (nonlinear_arith);
        assert((-tn0) * (dyn_ * (pyd * pyd)) == -(tn0 * (dyn_ * (pyd * pyd)))) by (nonlinear_arith);
        assert(nn * pyd - pyn * dd_ == tnum * (dyn_ * (pyd * pyd)));
        assert((-td0) * (pyd * dyd) == -(td0 * (pyd * dyd))) by (nonlinear_arith);
        assert(dd_ == tden * (pyd * dyd));
    } else {
        assert(nn * pyd - pyn * dd_ == tnum * (dyn_ * (pyd * pyd)));
        assert(dd_ == tden * (pyd * dyd));
    }
    assert(cross_floor(p, d, i) == rat_floor(nn, dd_));
    let pf = vflip(p);
    let df = vflip(d);
    crate::frac::lemma_ceil_props(pf.x.num as int, pf.x.den as int);
    let ef = icpt_ceil(pf);
    assert(h >= 3) by (nonlinear_arith)
        requires
            pyn < (h - 1) * pyd,
            pyn > pyd,
            pyd > 0,
    ;
    if cross_floor(p, d, i) >= h {
        // the ray leaves upward: it crossed the line h - 1 first
        crate::frac::lemma_floor_threshold(nn, dd_, h);
        assert(nn >= h * dd_);
        assert(tnum * (dyn_ * (pyd * pyd)) >= dd_ * (h * pyd - pyn)) by (nonlinear_arith)
            requires
                nn * pyd - pyn * dd_ == tnum * (dyn_ * (pyd * pyd)),
                nn >= h * dd_,
                pyd > 0,
                dd_ > 0,
        ;
        assert(h * pyd - pyn > 0) by (nonlinear_arith)
            requires
                pyn < (h - 1) * pyd,
                pyd > 0,
        ;
        assert(dd_ * (h * pyd - pyn) > 0) by (nonlinear_arith)
            requires
                dd_ > 0,
                h * pyd - pyn > 0,
        ;
        assert(tnum > 0 && dyn_ > 0) by (nonlinear_arith)
            requires
                tnum * (dyn_ * (pyd * pyd)) > 0,
                tnum >= 0,
                pyd > 0,
        ;
        assert(!icpt_degenerate(pf, df, h));
        assert(ef <= h - 1) by (nonlinear_arith)
            requires
                pyd * ef < pyn + pyd,
                pyn < (h - 1) * pyd,
                pyd > 0,
                ef == icpt_ceil(pf),
                icpt_ceil(pf) == rat_ceil(pyn, pyd),
                pyd * rat_ceil(pyn, pyd) < pyn + pyd,
        ;
        assert(icpt_count(pf, df, h) == h - ef);
        let kw = icpt_count(pf, df, h) - 1;
        let jw = icpt_index(pf, df, kw);
        assert(jw == h - 1);
        assert(cand_cell(pf, df, kw).0 == h - 1);
        let aw = shift_num(pf, jw);
        assert(aw == (h - 1) * pyd - pyn);
        let tnw = t_num_of(pf, df, jw);
        let tdw = t_den_of(pf, df);
        assert(tee_den(pf, df) == pyd * dyn_);
        assert(pyd * dyn_ > 0) by (nonlinear_arith)
            requires
                pyd > 0,
                dyn_ > 0,
        ;
        assert(tnw == aw * dyd && tdw == pyd * dyn_);
        assert(tnum * (dyn_ * (pyd * pyd)) >= (tden * (pyd * dyd)) * (h * pyd - pyn));
        assert((tden * (pyd * dyd)) * (h * pyd - pyn) > (tden * (pyd * dyd)) * ((h - 1) * pyd
            - pyn)) by (nonlinear_arith)
            requires
                tden > 0,
                pyd > 0,
                dyd > 0,
        ;
        assert(tnum * (dyn_ * (pyd * pyd)) == (tnum * (pyd * dyn_)) * pyd) by (nonlinear_arith);
        assert((tden * (pyd * dyd)) * ((h - 1) * pyd - pyn) == ((((h - 1) * pyd - pyn) * dyd)
            * tden) * pyd) by (nonlinear_arith);
        assert((tnw * tden) * pyd < (tnum * tdw) * pyd);
        crate::frac::lemma_scale_lt(tnw * tden, tnum * tdw, pyd);
        assert(crate::frac::rat_lt(tnw, tdw, tnum, tden));
    } else {
        // the ray leaves downward: it crossed the line 1 first
        crate::frac::lemma_floor_threshold(nn, dd_, 0);
        assert(nn < 0);
        assert(tnum * (dyn_ * (pyd * pyd)) < 0) by (nonlinear_arith)
            requires
                nn * pyd - pyn * dd_ == tnum * (dyn_ * (pyd * pyd)),
                nn < 0,
                pyn > 0,
                dd_ > 0,
                pyd > 0,
        ;
        assert(tnum > 0 && dyn_ < 0) by (nonlinear_arith)
            requires
                tnum * (dyn_ * (pyd * pyd)) < 0,
                tnum >= 0,
                pyd > 0,
        ;
        assert(!icpt_degenerate(pf, df, h));
        assert(ef >= 2) by (nonlinear_arith)
            requires
                pyn > pyd,
                pyn <= pyd * ef,
                pyd > 0,
        ;
        assert(icpt_count(pf, df, h) == ef - 1);
        let kw = icpt_count(pf, df, h) - 1;
        let jw = icpt_index(pf, df, kw);
        assert(jw == 1);
        assert(cand_cell(pf, df, kw).0 == 0);
        let aw = shift_num(pf, jw);
        assert(aw == pyd - pyn);
        let tnw = t_num_of(pf, df, jw);
        let tdw = t_den_of(pf, df);
        assert(tee_den(pf, df) == pyd * dyn_);
        assert(pyd * dyn_ < 0) by (nonlinear_arith)
            requires
                pyd > 0,
                dyn_ < 0,
        ;
        assert(tnw == -(aw * dyd) && tdw == -(pyd * dyn_));
        assert(-(aw * dyd) == (pyn - pyd) * dyd) by (nonlinear_arith)
            requires
                aw == pyd - pyn,
        ;
        assert((pyn - pyd) * dd_ < pyn * dd_ - nn * pyd) by (nonlinear_arith)
            requires
                nn < 0,
                dd_ > 0,
                pyd > 0,
        ;
        assert((((pyn - pyd) * dyd) * tden) * pyd == (pyn - pyd) * (tden * (pyd * dyd)))
            by (nonlinear_arith);
        assert((tnum * (-(pyd * dyn_))) * pyd == -(tnum * (dyn_ * (pyd * pyd))))
            by (nonlinear_arith);
        assert(pyn * dd_ - nn * pyd == -(tnum * (dyn_ * (pyd * pyd))) + (pyn * dd_ - nn * pyd + (
        tnum * (dyn_ * (pyd * pyd))))) by (nonlinear_arith);
        assert((tnw * tden) * pyd < (tnum * tdw) * pyd);
        crate::frac::lemma_scale_lt(tnw * tden, tnum * tdw, pyd);
        assert(crate::frac::rat_lt(tnw, tdw, tnum, tden));
    }
}

/// One candidate or actual wall-face crossing: the cell struck, which
/// of its faces, the fractional coordinate along that face (the
/// texture u-coordinate, in `[0, 1)`), and the squared distance from
/// the ray origin.
#[derive(Clone, Copy, Debug)]
pub struct Hit {
    pub x: usize,
    pub y: usize,
    pub direction: Direction,
    pub position: Frac,
    pub distance: Frac,
}

/// Merges the two per-axis steppers into one ordered sequence of
/// wall-face hits for a single ray: the nearer pending candidate wins
/// each round (ties favor the vertical axis), and the sequence ends
/// for good the moment a candidate falls outside the grid.
pub struct Raycaster {
    pub g: Grid,
    pub d: Vector,
    pub xint: Interceptor,
    pub yint: Interceptor,
    pub xbuf: Option<Candidate>,
    pub ybuf: Option<Candidate>,
    pub done: bool,
    pub last: Ghost<Frac>,
}

/// The vertical-axis candidate wins the next round: it exists and is
/// at most as far as the horizontal one (ties go to the vertical
/// axis).
pub open spec fn winner_x(s: Raycaster) -> bool {
    match (s.xbuf, s.ybuf) {
        (Some(cx), Some(cy)) => frac_le(cx.t, cy.t),
        (Some(_), None) => true,
        _ => false,
    }
}

impl Raycaster {
    /// Well-formed merge state: either the sequence has ended for
    /// good, or the caster is live and `live_wf` holds.
    pub open spec fn wf(self) -> bool {
        self.done || self.live_wf()
    }

    /// A live caster: both steppers run over the same ray (one on
    /// flipped coordinates), each lookahead buffer holds that
    /// stepper's most recently emitted candidate, and everything still
    /// pending lies at least as far as the last hit handed out.
    pub open spec fn live_wf(self) -> bool {
        &&& self.xint.wf()
        &&& self.yint.wf()
        &&& self.xint.d == self.d
        &&& self.yint.d == vflip(self.d)
        &&& self.yint.p == vflip(self.xint.p)
        &&& self.xint.size == self.g.width
        &&& self.yint.size == self.g.height
        &&& self.last@.den > 0
        &&& match self.xbuf {
            Some(c) => self.xint.emitted() >= 1 && cand_props(
                self.xint.p,
                self.d,
                self.g.width as int,
                self.xint.emitted() - 1,
                c,
            ) && frac_le(self.last@, c.dist),
            None => self.xint.remaining() == 0,
        }
        &&& match self.ybuf {
            Some(c) => self.yint.emitted() >= 1 && cand_props(
                vflip(self.xint.p),
                vflip(self.d),
                self.g.height as int,
                self.yint.emitted() - 1,
                c,
            ) && frac_le(self.last@, c.dist),
            None => self.yint.remaining() == 0,
        }
    }

    /// How many vertical-axis candidates have been consumed outright:
    /// handed out by the stepper and no longer waiting in the buffer.
    pub open spec fn xdone(self) -> int {
        self.xint.emitted() - (if self.xbuf is Some {
            1int
        } else {
            0int
        })
    }

    /// The horizontal-axis counterpart of `xdone`.
    pub open spec fn ydone(self) -> int {
        self.yint.emitted() - (if self.ybuf is Some {
            1int
        } else {
            0int
        })
    }

    /// How much work is left: pending candidates inside the steppers
    /// plus the lookahead buffers. Strictly decreases with every hit,
    /// so every ray's sequence is finite.
    pub open spec fn measure(self) -> int {
        self.xint.remaining() + self.yint.remaining() + (if self.xbuf is Some {
            1int
        } else {
            0int
        }) + (if self.ybuf is Some {
            1int
        } else {
            0int
        })
    }

    /// Build the caster for origin `p`, direction `d` and grid `g`:
    /// one stepper over vertical lines, one over horizontal lines via
    /// the coordinate flip.
    pub fn new(p: Vector, d: Vector, g: Grid) -> (r: Raycaster)
        requires
            ray_vec_ok(p),
            ray_vec_ok(d),
            g.width <= 32768,
            g.height <= 32768,
        ensures
            r.wf(),
            r.g == g,
            r.d == d,
            r.xint.p == p,
            !r.done,
            r.xdone() == 0,
            r.ydone() == 0,
            r.last@.num == 0 && r.last@.den == 1,
            r.measure() == icpt_count(p, d, g.width as int) + icpt_count(
                vflip(p),
                vflip(d),
                g.height as int,
            ),
    {
        let mut xint = Interceptor::new(p, d, g.width);
        let mut yint = Interceptor::new(p.flip(), d.flip(), g.height);
        let xbuf = xint.next();
        let ybuf = yint.next();
        Raycaster { g, d, xint, yint, xbuf, ybuf, done: false, last: Ghost(Frac { num: 0, den: 1 }) }
    }

    /// Emit the next wall-face hit, or end the sequence: the nearer
    /// pending candidate is consumed, its cell, face, texture offset
    /// and squared distance derived, and the sequence ends for good
    /// when both axes are exhausted or the winning candidate's cell
    /// leaves the grid.
    pub fn next(&mut self) -> (r: Option<Hit>)
        requires
            old(self).wf(),
        ensures
            final(self).wf(),
            final(self).g == old(self).g,
            final(self).d == old(self).d,
            final(self).xint.p == old(self).xint.p,
            old(self).done ==> r is None && *final(self) == *old(self),
            r is None ==> final(self).done,
            r matches Some(h) ==> {
                &&& h.x < old(self).g.width && h.y < old(self).g.height
                &&& h.distance.den > 0 && h.distance.num >= 0
                &&& frac_le(old(self).last@, h.distance)
                &&& final(self).last@ == h.distance
                &&& 0 <= h.position.num < h.position.den
                &&& final(self).measure() < old(self).measure()
                &&& !final(self).done
            },
            r is Some && winner_x(*old(self)) ==> {
                &&& final(self).yint == old(self).yint
                &&& final(self).ybuf == old(self).ybuf
                &&& final(self).xdone() == old(self).xdone() + 1
                &&& final(self).ydone() == old(self).ydone()
            },
            r is Some && !winner_x(*old(self)) ==> {
                &&& final(self).xint == old(self).xint
                &&& final(self).xbuf == old(self).xbuf
                &&& final(self).ydone() == old(self).ydone() + 1
                &&& final(self).xdone() == old(self).xdone()
            },
            !old(self).done && winner_x(*old(self)) ==> (old(self).xbuf matches Some(c) ==> {
                let cellx = if icpt_desc(old(self).d) {
                    c.index - 1
                } else {
                    c.index as int
                };
                let celly = rat_floor(c.point.y.num as int, c.point.y.den as int);
                &&& (0 <= cellx < old(self).g.width && 0 <= celly < old(self).g.height) ==> (r
                    matches Some(h) && {
                    &&& h.x == cellx && h.y == celly
                    &&& h.direction == (if icpt_desc(old(self).d) {
                        Direction::E
                    } else {
                        Direction::W
                    })
                    &&& h.distance == c.dist
                    &&& h.position.den == c.point.y.den
                    &&& h.position.num == c.point.y.num - celly * c.point.y.den
                    &&& (old(self).ybuf matches Some(cy) ==> frac_le(h.distance, cy.dist))
                })
                &&& !(0 <= cellx < old(self).g.width && 0 <= celly < old(self).g.height) ==> r
                    is None
            }),
            !old(self).done && !winner_x(*old(self)) ==> (old(self).ybuf matches Some(c) ==> {
                let celly = if icpt_desc(vflip(old(self).d)) {
                    c.index - 1
                } else {
                    c.index as int
                };
                let cellx = rat_floor(c.point.y.num as int, c.point.y.den as int);
                &&& (0 <= cellx < old(self).g.width && 0 <= celly < old(self).g.height) ==> (r
                    matches Some(h) && {
                    &&& h.x == cellx && h.y == celly
                    &&& h.direction == (if icpt_desc(vflip(old(self).d)) {
                        Direction::S
                    } else {
                        Direction::N
                    })
                    &&& h.distance == c.dist
                    &&& h.position.den == c.point.y.den
                    &&& h.position.num == c.point.y.num - cellx * c.point.y.den
                    &&& (old(self).xbuf matches Some(cx) ==> frac_le(h.distance, cx.dist))
                })
                &&& !(0 <= cellx < old(self).g.width && 0 <= celly < old(self).g.height) ==> r
                    is None
            }),
            !old(self).done && old(self).xbuf is None && old(self).ybuf is None ==> r is None,
    {
        if self.done {
            return None;
        }
        let take_x = match (&self.xbuf, &self.ybuf) {
            (None, None) => {
                self.done = true;
                return None;
            },
            (Some(_), None) => true,
            (None, Some(_)) => false,
            (Some(cx), Some(cy)) => cx.t.le(&cy.t),
        };
        let ghost p = self.xint.p;
        let ghost d = self.d;
        if take_x {
            let c = self.xbuf.unwrap();
            proof {
                if self.ybuf is Some {
                    lemma_t_dist_order(
                        p,
                        d,
                        self.g.width as int,
                        self.g.height as int,
                        self.xint.emitted() - 1,
                        self.yint.emitted() - 1,
                        c,
                        self.ybuf->0,
                    );
                }
            }
            let nxt = self.xint.next();
            proof {
                if nxt is Some {
                    lemma_interceptor_monotone(
                        p,
                        d,
                        self.g.width as int,
                        self.xint.emitted() - 2,
                        self.xint.emitted() - 1,
                    );
                }
            }
            self.xbuf = nxt;
            let cellx = if self.d.x.num < 0 {
                c.index - 1
            } else {
                c.index
            };
            let fy = c.point.y.floor();
            proof {
                lemma_fundamental_div_mod(c.point.y.num as int, c.point.y.den as int);
                assert(fy * c.point.y.den == c.point.y.den * fy) by (nonlinear_arith);
            }
            if fy < 0 || fy >= self.g.height as i128 || cellx >= self.g.width {
                self.done = true;
                return None;
            }
            let pos = Frac { num: c.point.y.num - fy * c.point.y.den, den: c.point.y.den };
            let h = Hit {
                x: cellx,
                y: fy as usize,
                direction: if self.d.x.num < 0 {
                    Direction::E
                } else {
                    Direction::W
                },
                position: pos,
                distance: c.dist,
            };
            proof {
                self.last@ = c.dist;
            }
            Some(h)
        } else {
            let c = self.ybuf.unwrap();
            proof {
                if self.xbuf is Some {
                    lemma_t_dist_order(
                        p,
                        d,
                        self.g.width as int,
                        self.g.height as int,
                        self.xint.emitted() - 1,
                        self.yint.emitted() - 1,
                        self.xbuf->0,
                        c,
                    );
                }
            }
            let nxt = self.yint.next();
            proof {
                if nxt is Some {
                    lemma_interceptor_monotone(
                        vflip(p),
                        vflip(d),
                        self.g.height as int,
                        self.yint.emitted() - 2,
                        self.yint.emitted() - 1,
                    );
                }
            }
            self.ybuf = nxt;
            let celly = if self.d.y.num < 0 {
                c.index - 1
            } else {
                c.index
            };
            let fx = c.point.y.floor();
            proof {
                lemma_fundamental_div_mod(c.point.y.num as int, c.point.y.den as int);
                assert(fx * c.point.y.den == c.point.y.den * fx) by (nonlinear_arith);
            }
            if fx < 0 || fx >= self.g.width as i128 || celly >= self.g.height {
                self.done = true;
                return None;
            }
            let pos = Frac { num: c.point.y.num - fx * c.point.y.den, den: c.point.y.den };
            let h = Hit {
                x: fx as usize,
                y: celly,
                direction: if self.d.y.num < 0 {
                    Direction::S
                } else {
                    Direction::N
                },
                position: pos,
                distance: c.dist,
            };
            proof {
                self.last@ = c.dist;
            }
            Some(h)
        }
    }
}

} // verus!
