use vstd::prelude::*;

use crate::chance::{self, Pick};
use crate::world::SCALE;
use crate::{HEIGHT, WIDTH};

verus! {

/// Largest life a particle can have; a fresh particle starts with it.
pub const LIFE: i32 = 200;

/// Height of the tree that the particles climb; the depth `z` grows towards it.
pub const TREE_H: i32 = 255;

/// Quotient of `a` by a positive `d`, rounded toward zero (the rounding of Rust's `/`).
pub open spec fn div_toward_zero(a: int, d: int) -> int {
    if a >= 0 { a / d } else { -((-a) / d) }
}

/// Remainder of `a` by a positive `d` with the sign of `a` (the remainder of Rust's `%`).
pub open spec fn rem_toward_zero(a: int, d: int) -> int {
    if a >= 0 { a % d } else { -((-a) % d) }
}

/// The depth from which climbing stops: `TREE_H / (10 + z)` is 0 from here on.
pub open spec fn rest_depth() -> int {
    TREE_H - 9
}

/// How far a particle at depth `z` climbs in one step: `TREE_H / (10 + z)`, rounded
/// toward zero.
pub open spec fn climb(z: int) -> int {
    if 10 + z > 0 {
        (TREE_H as int) / (10 + z)
    } else {
        -((TREE_H as int) / (-(10 + z)))
    }
}

/// A point of light that drifts over the frame.
///
/// `x`, `y` are its position in sub-pixel units (`SCALE` per pixel), `z` its height
/// on the tree, `vx`, `vy`, `vz` its velocity, `px`, `py` the frame pixel it was last
/// seen at and `pind` the byte offset of that pixel in an RGBA frame.
#[derive(Clone, Copy, Debug, PartialEq, Eq, Structural)]
pub struct Particle {
    pub x: i32,
    pub y: i32,
    pub z: i32,
    pub vx: i8,
    pub vy: i8,
    pub vz: i8,
    pub px: usize,
    pub py: usize,
    pub pind: usize,
    pub r: u8,
    pub g: u8,
    pub b: u8,
    pub life: i32,
}

/// The random values one particle consumes in one step: its new velocity, whether it
/// forks, and the velocity of the fork.
#[derive(Clone, Copy, Debug, PartialEq, Eq, Structural)]
pub struct ParticleDraw {
    pub vx: i8,
    pub vy: i8,
    pub fork: bool,
    pub fork_vx: i8,
    pub fork_vy: i8,
}

/// Byte offset of pixel (`px`, `py`) in an RGBA frame of `WIDTH` columns.
pub open spec fn pixel_offset(px: int, py: int) -> int {
    4 * WIDTH * py + 4 * px
}

/// Column of the frame pixel that sub-pixel position `x` falls on: the frame's centre
/// column plus the offset from the centre in pixels, rounded toward zero. This is the
/// perspective projection with focal parameter 1, whose scale factor
/// `max(1 - 0 * z / TREE_H, 1)` is exactly 1 at every depth.
pub open spec fn screen_x(x: int) -> int {
    WIDTH / 2 + div_toward_zero(x - SCALE * WIDTH / 2, SCALE as int)
}

/// Row of the frame pixel that sub-pixel position `y` falls on, projected as in
/// `screen_x`.
pub open spec fn screen_y(y: int) -> int {
    HEIGHT / 2 + div_toward_zero(y - SCALE * HEIGHT / 2, SCALE as int)
}

/// The column, row, red and green of `p` are the values of the draws `dx`, `dy`, `dr`
/// and `dg`, taken below `WIDTH`, `HEIGHT`, `brightness` and `brightness`.
pub open spec fn drawn_from(p: Particle, brightness: u8, dx: Pick, dy: Pick, dr: Pick, dg: Pick) -> bool {
    &&& dx.bound() == WIDTH && dx.value() == p.px
    &&& dy.bound() == HEIGHT && dy.value() == p.py
    &&& dr.bound() == brightness && dr.value() == p.r
    &&& dg.bound() == brightness && dg.value() == p.g
}

impl Particle {
    /// What every particle of a world satisfies.
    pub open spec fn inv(self) -> bool {
        &&& -1 <= self.life <= LIFE
        &&& 1 <= self.z
        &&& self.z + (if self.life > 0 { self.life as int } else { 0 }) <= rest_depth() + LIFE
        &&& self.px < WIDTH
        &&& self.py < HEIGHT
        &&& self.pind == pixel_offset(self.px as int, self.py as int)
    }

    /// The next drift of `self` stays within `i32`: moving by its velocity, and by the
    /// wind, does not overflow.
    pub open spec fn drift_fits(self) -> bool {
        &&& i32::MIN <= self.x + self.vx <= i32::MAX
        &&& i32::MIN <= self.y + SCALE / 10 + self.vy <= i32::MAX
    }

    /// `glide` can move `self` without overflow: its drift fits, and the climb from its
    /// depth is defined and fits.
    pub open spec fn glide_fits(self) -> bool {
        &&& self.drift_fits()
        &&& self.z != -10
        &&& self.z <= i32::MAX - 10
        &&& i32::MIN <= self.z + climb(self.z as int) <= i32::MAX
    }

    /// The particle that starts at pixel (`px`, `py`) with colour (`r`, `g`, `brightness`).
    pub open spec fn spawned(px: usize, py: usize, r: u8, g: u8, brightness: u8) -> Particle {
        Particle {
            x: (px * SCALE) as i32,
            y: (py * SCALE) as i32,
            z: 1,
            vx: 0,
            vy: 0,
            vz: 1,
            px,
            py,
            pind: pixel_offset(px as int, py as int) as usize,
            r,
            g,
            b: brightness,
            life: LIFE,
        }
    }

    /// `self` is a particle that `new_random(brightness)` can return: a fresh particle
    /// whose column, row, red and green are values drawn below `WIDTH`, `HEIGHT`,
    /// `brightness` and `brightness`.
    pub open spec fn is_fresh(self, brightness: u8) -> bool {
        &&& self.px < WIDTH
        &&& self.py < HEIGHT
        &&& self.r < brightness
        &&& self.g < brightness
        &&& self == Particle::spawned(self.px, self.py, self.r, self.g, brightness)
        &&& exists|dx: Pick, dy: Pick, dr: Pick, dg: Pick|
            #[trigger] drawn_from(self, brightness, dx, dy, dr, dg)
    }

    /// The copy of `self` that `fork` returns.
    pub open spec fn forked(self) -> Particle {
        Particle {
            life: if self.life - 1 <= LIFE / 2 { self.life - 1 } else { LIFE / 2 } as i32,
            z: (self.z + 1) as i32,
            ..self
        }
    }

    /// `self` after one drift: moved by its velocity plus a constant downward wind,
    /// wrapped into the frame's extent, and a little higher on the tree.
    pub open spec fn drifted(self) -> Particle {
        Particle {
            x: rem_toward_zero(self.x + self.vx, SCALE * WIDTH) as i32,
            y: rem_toward_zero(self.y + SCALE / 10 + self.vy, SCALE * HEIGHT) as i32,
            z: (self.z + climb(self.z as int)) as i32,
            ..self
        }
    }

    /// `self` moved by its velocity plus the constant downward wind, without wrapping,
    /// and a little higher on the tree.
    pub open spec fn shifted(self) -> Particle {
        Particle {
            x: (self.x + self.vx) as i32,
            y: (self.y + SCALE / 10 + self.vy) as i32,
            z: (self.z + climb(self.z as int)) as i32,
            ..self
        }
    }

    /// The green channel `self` is shown with: half its green, brightened by half its
    /// life (rounded toward zero), saturating at 255.
    pub open spec fn green_shade(self) -> u8 {
        let lift = div_toward_zero(self.life as int, 2) as u8;
        if self.g / 2 + lift > 255 {
            255
        } else {
            (self.g / 2 + lift) as u8
        }
    }

    /// The blue channel `self` is shown with: its blue scaled by `life / LIFE`, rounded
    /// toward zero and saturating at 255, and 0 for a particle without life.
    pub open spec fn blue_shade(self) -> u8 {
        if self.life > 0 {
            let v = self.b * self.life / (LIFE as int);
            if v > 255 { 255 } else { v as u8 }
        } else {
            0
        }
    }

    /// The opaque RGBA colour `self` is drawn with.
    pub open spec fn shade(self) -> Seq<u8> {
        seq![self.r, self.green_shade(), self.blue_shade(), 0xffu8]
    }

    /// `self` with its frame pixel brought up to date: if its position falls inside
    /// the frame the pixel and offset are updated, otherwise a living particle dies.
    pub open spec fn projected(self) -> Particle {
        let sx = screen_x(self.x as int);
        let sy = screen_y(self.y as int);
        if 0 <= sx < WIDTH && 0 <= sy < HEIGHT {
            Particle { px: sx as usize, py: sy as usize, pind: pixel_offset(sx, sy) as usize, ..self }
        } else if self.life > 0 {
            Particle { life: 0, ..self }
        } else {
            self
        }
    }

    /// One step of a particle with the random values `d`: the particle afterwards, the
    /// fork it spawns if any, and whether it died in this step.
    pub open spec fn evolved(self, d: ParticleDraw) -> (Particle, Option<Particle>, bool) {
        let q = self.drifted().projected();
        if q.life > 0 {
            let moving = Particle {
                vx: div_toward_zero(d.vx as int, 4) as i8,
                vy: div_toward_zero(d.vy as int, 4) as i8,
                ..q
            };
            let child = if d.fork {
                Some(Particle { vx: d.fork_vx, vy: d.fork_vy, ..moving.forked() })
            } else {
                None
            };
            (Particle { life: (moving.life - 1) as i32, ..moving }, child, false)
        } else {
            let died = q.life == 0;
            (Particle { life: if died { -1 } else { q.life as int } as i32, vx: 0, vy: 0, ..q }, None, died)
        }
    }
}


/// Rust's `/` on a signed byte by 4.
fn quarter(a: i8) -> (q: i8)
    ensures
        q == div_toward_zero(a as int, 4),
{
    a / 4
}

/// Rust's `%` on a signed position by a positive modulus.
fn wrap(a: i32, m: i32) -> (r: i32)
    requires
        m > 0,
    ensures
        r == rem_toward_zero(a as int, m as int),
{
    a % m
}

/// Rust's `/` on a signed offset by a positive divisor.
fn shrink(a: i32, d: i32) -> (q: i32)
    requires
        d > 0,
    ensures
        q == div_toward_zero(a as int, d as int),
{
    a / d
}


/// Rust's `/` on a signed sub-pixel offset by `SCALE`, for any offset an `i32` position
/// can give.
fn to_pixels(a: i64) -> (q: i64)
    requires
        -0x1_0000_0000 <= a <= 0x1_0000_0000,
    ensures
        q == div_toward_zero(a as int, SCALE as int),
        -0x1000_0000 <= q <= 0x1000_0000,
{
    let q = a / SCALE as i64;
    proof {
        let s = SCALE as int;
        let w = a as int;
        if w >= 0 {
            assert(0 <= w / s <= 0x1000_0000) by (nonlinear_arith)
                requires
                    0 <= w <= 0x1_0000_0000,
                    s == 32,
            ;
        } else {
            assert(0 <= (-w) / s <= 0x1000_0000) by (nonlinear_arith)
                requires
                    0 < -w <= 0x1_0000_0000,
                    s == 32,
            ;
        }
    }
    q
}

/// How far a particle at depth `z` climbs in one step: Rust's `TREE_H / (10 + z)`.
fn climb_from(z: i32) -> (c: i32)
    requires
        z != -10,
        z <= i32::MAX - 10,
    ensures
        c == climb(z as int),
{
    if 10 + z > 0 {
        TREE_H / (10 + z)
    } else {
        -(TREE_H / (-(10 + z)))
    }
}

/// Column of the frame pixel that sub-pixel position `x` falls on.
pub(crate) fn column_of(x: i32) -> (c: i32)
    ensures
        c == screen_x(x as int),
{
    (WIDTH as i64 / 2 + to_pixels(x as i64 - SCALE as i64 * WIDTH as i64 / 2)) as i32
}

/// Row of the frame pixel that sub-pixel position `y` falls on.
pub(crate) fn row_of(y: i32) -> (c: i32)
    ensures
        c == screen_y(y as int),
{
    (HEIGHT as i64 / 2 + to_pixels(y as i64 - SCALE as i64 * HEIGHT as i64 / 2)) as i32
}

/// Below the resting depth, one climb of `TREE_H / (10 + z)` stays below it; from the
/// resting depth on, the climb is 0.
proof fn lemma_climb(z: int)
    requires
        1 <= z,
    ensures
        z <= rest_depth() ==> z + climb(z) <= rest_depth(),
        z > rest_depth() ==> climb(z) == 0,
        climb(z) >= 0,
{
    if z <= rest_depth() {
        assert((rest_depth() - z + 1) * (10 + z) > TREE_H) by (nonlinear_arith)
            requires
                1 <= z <= rest_depth(),
                rest_depth() == TREE_H - 9,
        ;
        let q = climb(z);
        vstd::arithmetic::div_mod::lemma_fundamental_div_mod(TREE_H as int, 10 + z);
        vstd::arithmetic::div_mod::lemma_mod_pos_bound(TREE_H as int, 10 + z);
        assert(q < rest_depth() - z + 1) by (nonlinear_arith)
            requires
                q == (TREE_H as int) / (10 + z),
                TREE_H == (10 + z) * q + (TREE_H as int) % (10 + z),
                (TREE_H as int) % (10 + z) >= 0,
                (rest_depth() - z + 1) * (10 + z) > TREE_H,
                1 <= z,
        ;
    } else {
        vstd::arithmetic::div_mod::lemma_basic_div(TREE_H as int, 10 + z);
    }
    vstd::arithmetic::div_mod::lemma_div_pos_is_pos(TREE_H as int, 10 + z);
}

/// One step keeps the particle invariant, and a fork satisfies it too.
pub proof fn lemma_evolved_inv(p: Particle, d: ParticleDraw)
    requires
        p.inv(),
        p.drift_fits(),
    ensures
        p.evolved(d).0.inv(),
        p.evolved(d).0.drift_fits(),
        p.evolved(d).1 matches Some(c) ==> c.inv() && c.drift_fits(),
{
    lemma_climb(p.z as int);
}

/// Rust's remainder of `a` by a positive `m` differs from `a` by a multiple of `m`, lies
/// strictly within `m` of 0, and has the sign of `a`.
proof fn lemma_rem_toward_zero(a: int, m: int)
    requires
        m > 0,
    ensures
        (rem_toward_zero(a, m) - a) % m == 0,
        -m < rem_toward_zero(a, m) < m,
        a >= 0 ==> rem_toward_zero(a, m) >= 0,
        a <= 0 ==> rem_toward_zero(a, m) <= 0,
{
    if a >= 0 {
        let q = a / m;
        vstd::arithmetic::div_mod::lemma_fundamental_div_mod(a, m);
        vstd::arithmetic::div_mod::lemma_mod_pos_bound(a, m);
        assert(a % m - a == (-q) * m) by (nonlinear_arith)
            requires
                a == m * q + a % m,
        ;
        vstd::arithmetic::div_mod::lemma_mod_multiples_basic(-q, m);
    } else {
        let b = -a;
        let q = b / m;
        vstd::arithmetic::div_mod::lemma_fundamental_div_mod(b, m);
        vstd::arithmetic::div_mod::lemma_mod_pos_bound(b, m);
        assert(-(b % m) - a == q * m) by (nonlinear_arith)
            requires
                b == m * q + b % m,
                b == -a,
        ;
        vstd::arithmetic::div_mod::lemma_mod_multiples_basic(q, m);
    }
}

/// A step wraps a particle into the frame's extent with Rust's remainder: its new `x`
/// differs from `x + vx` by a whole number of frame widths (`SCALE * WIDTH`) and its new
/// `y` from `y + SCALE / 10 + vy` by a whole number of frame heights (`SCALE * HEIGHT`);
/// each lies strictly within one width (height) of 0 and keeps the sign of the moved
/// coordinate. So a moved coordinate already inside `0..SCALE * WIDTH` (`HEIGHT`) is kept,
/// and one that drifts past the far edge comes back near the near edge.
pub proof fn lemma_step_wraps(p: Particle, d: ParticleDraw)
    requires
        p.inv(),
        p.drift_fits(),
    ensures
        (p.evolved(d).0.x - (p.x + p.vx)) % (SCALE * WIDTH) == 0,
        -(SCALE * WIDTH) < p.evolved(d).0.x < SCALE * WIDTH,
        p.x + p.vx >= 0 ==> p.evolved(d).0.x >= 0,
        p.x + p.vx <= 0 ==> p.evolved(d).0.x <= 0,
        (p.evolved(d).0.y - (p.y + SCALE / 10 + p.vy)) % (SCALE * HEIGHT) == 0,
        -(SCALE * HEIGHT) < p.evolved(d).0.y < SCALE * HEIGHT,
        p.y + SCALE / 10 + p.vy >= 0 ==> p.evolved(d).0.y >= 0,
        p.y + SCALE / 10 + p.vy <= 0 ==> p.evolved(d).0.y <= 0,
{
    lemma_rem_toward_zero(p.x + p.vx, SCALE * WIDTH);
    lemma_rem_toward_zero(p.y + SCALE / 10 + p.vy, SCALE * HEIGHT);
}

/// The blue channel is the particle's own blue scaled by `life / LIFE` and rounded down:
/// for `0 < life <= LIFE` it is the `v` with `v * LIFE <= b * life < (v + 1) * LIFE`, so it
/// never exceeds `b` and equals `b` at full life; a particle without life shows no blue.
pub proof fn lemma_blue_scales_with_life(p: Particle)
    ensures
        0 < p.life <= LIFE ==> p.blue_shade() * LIFE <= p.b * p.life < (p.blue_shade() + 1) * LIFE,
        0 < p.life <= LIFE ==> p.blue_shade() <= p.b,
        p.life == LIFE ==> p.blue_shade() == p.b,
        p.life <= 0 ==> p.blue_shade() == 0,
{
    if 0 < p.life <= LIFE {
        let n = p.b * p.life;
        let l = LIFE as int;
        let v = n / l;
        vstd::arithmetic::div_mod::lemma_fundamental_div_mod(n, l);
        vstd::arithmetic::div_mod::lemma_mod_pos_bound(n, l);
        assert(0 <= n <= p.b * l) by (nonlinear_arith)
            requires
                n == p.b * p.life,
                0 < p.life <= l,
                0 <= p.b,
        ;
        assert(0 <= v <= p.b) by (nonlinear_arith)
            requires
                n == l * v + n % l,
                0 <= n % l < l,
                0 <= n <= p.b * l,
                l > 0,
        ;
        if p.life == LIFE {
            assert(v == p.b) by (nonlinear_arith)
                requires
                    n == l * v + n % l,
                    0 <= n % l < l,
                    n == p.b * l,
            ;
        }
        assert(v * l <= n < (v + 1) * l) by (nonlinear_arith)
            requires
                n == l * v + n % l,
                0 <= n % l < l,
        ;
    }
}

/// A glide keeps the particle invariant and never makes a particle lifeless.
pub proof fn lemma_glide_inv(p: Particle)
    requires
        p.inv(),
    ensures
        p.shifted().projected().inv(),
        (p.shifted().projected().life == -1) == (p.life == -1),
{
    lemma_climb(p.z as int);
}

/// Life only runs down: a step never raises a particle's life, a particle without life
/// stays without life and at rest, and a fork has less life than its parent had and at
/// most half of `LIFE`.
pub proof fn lemma_life_runs_down(p: Particle, d: ParticleDraw)
    requires
        p.inv(),
    ensures
        p.evolved(d).0.life <= p.life,
        p.life == -1 ==> p.evolved(d).0.life == -1 && p.evolved(d).0.vx == 0 && p.evolved(d).0.vy == 0,
        p.evolved(d).1 matches Some(c) ==> c.life < p.life && c.life <= LIFE / 2,
{
}

impl Particle {
    /// The particle that starts at pixel (`px`, `py`) with colour (`r`, `g`, `brightness`)
    /// and full life, at the foot of the tree and at rest.
    pub fn spawn_at(px: usize, py: usize, r: u8, g: u8, brightness: u8) -> (p: Particle)
        requires
            px < WIDTH,
            py < HEIGHT,
        ensures
            p == Particle::spawned(px, py, r, g, brightness),
            p.inv(),
    {
        let x = px as i32 * SCALE as i32;
        let y = py as i32 * SCALE as i32;
        Particle {
            x,
            y,
            px,
            py,
            pind: py * WIDTH * 4 + 4 * px,
            z: 1,
            vx: 0,
            vy: 0,
            vz: 1,
            r,
            g: g,
            b: brightness,
            life: LIFE,
        }
    }

    /// A particle at a random pixel of the frame, with random red and green below
    /// `brightness` and blue equal to `brightness`.
    pub fn new_random(brightness: u8) -> (p: Particle)
        requires
            brightness > 0,
        ensures
            p.is_fresh(brightness),
            p.inv(),
    {
        let dx = chance::below(WIDTH);
        let dy = chance::below(HEIGHT);
        let dr = chance::below(brightness as usize);
        let dg = chance::below(brightness as usize);
        let p = Particle::spawn_at(dx.get(), dy.get(), dr.get() as u8, dg.get() as u8, brightness);
        assert(drawn_from(p, brightness, dx, dy, dr, dg));
        p
    }

    /// A copy of `self` one step higher on the tree, with one life less but at most
    /// half of `LIFE`.
    pub fn fork(&self) -> (child: Particle)
        requires
            self.life > i32::MIN,
            self.z < i32::MAX,
        ensures
            child == self.forked(),
    {
        let life = self.life - 1;
        Particle { life: if life <= LIFE / 2 { life } else { LIFE / 2 }, z: self.z + 1, ..*self }
    }

    /// The numerator of the odds, out of `20 * TREE_H`, that the particle forks in its
    /// next step: its depth after that step's climb.
    pub fn fork_odds(&self) -> (n: u32)
        requires
            self.inv(),
        ensures
            n == self.drifted().z,
            n <= 20 * TREE_H,
    {
        proof {
            lemma_climb(self.z as int);
        }
        (self.z + TREE_H / (10 + self.z)) as u32
    }

    /// The colour (red, green, blue) the particle is drawn with.
    pub fn color(&self) -> (rgb: (u8, u8, u8))
        ensures
            rgb == (self.r, self.green_shade(), self.blue_shade()),
    {
        let g = (self.g / 2).saturating_add(shrink(self.life, 2) as u8);
        let b = if self.life > 0 {
            assert(0 <= (self.b as i64) * (self.life as i64) <= 255 * 0x7fff_ffff) by (nonlinear_arith)
                requires
                    0 < self.life <= 0x7fff_ffff,
                    self.b <= 255,
            ;
            let v = self.b as i64 * self.life as i64 / LIFE as i64;
            if v > 255 {
                255
            } else {
                v as u8
            }
        } else {
            0
        };
        (self.r, g, b)
    }

    /// Moves the particle by its velocity and the wind, without wrapping, climbs, and
    /// brings its frame pixel up to date (a living particle that leaves the frame dies).
    pub fn glide(&mut self)
        requires
            old(self).glide_fits(),
        ensures
            *final(self) == old(self).shifted().projected(),
    {
        self.x = self.x + self.vx as i32;
        self.y = self.y + (SCALE as i32 / 10 + self.vy as i32);
        self.z = self.z + climb_from(self.z);
        let px = column_of(self.x);
        let py = row_of(self.y);
        if 0 <= px && px < WIDTH as i32 && 0 <= py && py < HEIGHT as i32 {
            self.px = px as usize;
            self.py = py as usize;
            self.pind = py as usize * 4 * WIDTH + 4 * px as usize;
        } else if self.life > 0 {
            self.life = 0;
        }
    }

    /// One step of the particle with the random values `d`: it drifts, its frame pixel is
    /// brought up to date, and then a living particle takes its new velocity from `d`,
    /// forks when `d.fork` holds and loses one life, while a particle out of life stops
    /// and, if it died just now, says so. Returns the fork and whether it died.
    pub fn advance(&mut self, d: &ParticleDraw) -> (res: (Option<Particle>, bool))
        requires
            old(self).inv(),
            old(self).drift_fits(),
        ensures
            (*final(self), res.0, res.1) == old(self).evolved(*d),
            final(self).inv(),
            final(self).drift_fits(),
            res.0 matches Some(c) ==> c.inv() && c.drift_fits(),
    {
        proof {
            lemma_climb(self.z as int);
        }
        self.x = self.x + self.vx as i32;
        self.y = self.y + (SCALE as i32 / 10 + self.vy as i32);
        self.z = self.z + TREE_H / (10 + self.z);
        self.x = wrap(self.x, SCALE as i32 * WIDTH as i32);
        self.y = wrap(self.y, SCALE as i32 * HEIGHT as i32);
        assert(*self == old(self).drifted());

        let px = column_of(self.x);
        let py = row_of(self.y);
        if 0 <= px && px < WIDTH as i32 && 0 <= py && py < HEIGHT as i32 {
            self.px = px as usize;
            self.py = py as usize;
            self.pind = py as usize * 4 * WIDTH + 4 * px as usize;
        } else if self.life > 0 {
            self.life = 0;
        }
        assert(*self == old(self).drifted().projected());

        let mut child = None;
        let mut died = false;
        if self.life > 0 {
            self.vx = quarter(d.vx);
            self.vy = quarter(d.vy);
            if d.fork {
                let mut c = self.fork();
                c.vx = d.fork_vx;
                c.vy = d.fork_vy;
                child = Some(c);
            }
            self.life = self.life - 1;
        } else {
            if self.life == 0 {
                died = true;
                self.life = self.life - 1;
            }
            self.vx = 0;
            self.vy = 0;
        }
        (child, died)
    }
}

} // verus!
