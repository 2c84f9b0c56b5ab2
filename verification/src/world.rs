use vstd::prelude::*;

use std::collections::VecDeque;

pub mod linebuf;
pub mod particle;

use crate::chance::{self, Chance};
use crate::rotation::{rotate_segment_left, rotated_left, rotated_right};
use crate::{HEIGHT, WIDTH};
use linebuf::{
    copied_into, faded, lemma_offset_split, lemma_row_offset, lemma_rows_in_full,
    lemma_shift_undone, lemma_shifted_index, painted, scrolled_rows, shifted_rows, turned_line,
    LineBuf, LINE_BYTES,
};
use particle::{screen_x, screen_y, Particle, ParticleDraw, LIFE, TREE_H};

verus! {

/// Sub-pixel resolution: one frame pixel spans `SCALE` units of particle position.
pub const SCALE: u8 = 32;

/// Brightness, and so blue channel, of every particle the world emits.
pub const BRIGHTNESS: u8 = 200;

/// Number of particles without life in `ps`.
pub open spec fn dead_count(ps: Seq<Particle>) -> nat
    decreases ps.len(),
{
    if ps.len() == 0 {
        0
    } else {
        dead_count(ps.drop_last()) + if ps.last().life == -1 { 1nat } else { 0nat }
    }
}

/// The particles of `ps` after one step each with the matching values of `ds`.
pub open spec fn moved(ps: Seq<Particle>, ds: Seq<ParticleDraw>) -> Seq<Particle> {
    Seq::new(ps.len(), |i: int| ps[i].evolved(ds[i]).0)
}

/// The forks that one step of `ps` with `ds` spawns, in the order of their parents.
pub open spec fn offspring(ps: Seq<Particle>, ds: Seq<ParticleDraw>) -> Seq<Particle>
    decreases ps.len(),
{
    if ps.len() == 0 {
        Seq::empty()
    } else {
        let n = ps.len() - 1;
        let earlier = offspring(ps.take(n), ds.take(n));
        match ps[n].evolved(ds[n]).1 {
            Some(c) => earlier.push(c),
            None => earlier,
        }
    }
}

/// The number of particles of `ps` that die in one step with `ds`.
pub open spec fn deaths(ps: Seq<Particle>, ds: Seq<ParticleDraw>) -> nat
    decreases ps.len(),
{
    if ps.len() == 0 {
        0
    } else {
        let n = ps.len() - 1;
        deaths(ps.take(n), ds.take(n)) + if ps[n].evolved(ds[n]).2 { 1nat } else { 0nat }
    }
}

/// The particles after one step of `ps` with `ds`: the forks, the last spawned first,
/// ahead of the stepped particles.
pub open spec fn stepped(ps: Seq<Particle>, ds: Seq<ParticleDraw>) -> Seq<Particle> {
    offspring(ps, ds).reverse() + moved(ps, ds)
}

/// Particles and pending-dead count after the periodic clean-up in frame `frame`: every
/// tenth frame the last `dead` particles go and the count restarts.
pub open spec fn cleared(ps: Seq<Particle>, dead: nat, frame: nat) -> (Seq<Particle>, nat) {
    if frame % 10 == 0 {
        (ps.take(ps.len() - dead), 0)
    } else {
        (ps, dead)
    }
}

/// The swarm and pending-dead count that `update` leaves, given the two particles it
/// emits (newest first) and the random values of the step.
pub open spec fn updated(
    swarm: Seq<Particle>,
    dead: nat,
    frame: nat,
    fresh: Seq<Particle>,
    draws: Seq<ParticleDraw>,
) -> (Seq<Particle>, nat) {
    let (ps, d) = cleared(fresh + swarm, dead, frame);
    (stepped(ps, draws), d + deaths(ps, draws))
}

/// `draws` hold the random values of one step of `ps` as `update` draws them: whether
/// particle `i` forks is the toss `rolls[i]`, made at odds of its depth after the step's
/// climb out of `20 * TREE_H`.
pub open spec fn fork_tossed(ps: Seq<Particle>, draws: Seq<ParticleDraw>, rolls: Seq<Chance>) -> bool {
    &&& draws.len() == ps.len()
    &&& rolls.len() == ps.len()
    &&& forall|i: int|
        0 <= i < ps.len() ==> {
            &&& (#[trigger] rolls[i]).numerator() == ps[i].drifted().z
            &&& rolls[i].denominator() == 20 * TREE_H
            &&& draws[i].fork == rolls[i].came_up()
        }
}

/// The number of particles of `ps` that fork in one step with `ds`: those still alive
/// after drifting onto the frame whose draw has `fork` set.
pub open spec fn fork_count(ps: Seq<Particle>, ds: Seq<ParticleDraw>) -> nat
    decreases ps.len(),
{
    if ps.len() == 0 {
        0
    } else {
        let n = ps.len() - 1;
        fork_count(ps.take(n), ds.take(n)) + if ps[n].drifted().projected().life > 0 && ds[n].fork {
            1nat
        } else {
            0nat
        }
    }
}

/// `frame` with the four bytes `rgba` written at byte `at`, if they fit; otherwise
/// `frame` unchanged.
pub open spec fn painted_at(frame: Seq<u8>, at: int, rgba: Seq<u8>) -> Seq<u8> {
    if 0 <= at && at + 4 <= frame.len() {
        painted(frame, at, rgba)
    } else {
        frame
    }
}

/// `frame` after drawing each particle of `ps` in turn at its recorded pixel offset
/// `pind`; a later particle covers an earlier one.
pub open spec fn lazily_plotted(frame: Seq<u8>, ps: Seq<Particle>) -> Seq<u8>
    decreases ps.len(),
{
    if ps.len() == 0 {
        frame
    } else {
        painted_at(lazily_plotted(frame, ps.drop_last()), ps.last().pind as int, ps.last().shade())
    }
}

/// Byte offset at which `plot` draws `p`: the offset of the pixel its position falls on,
/// when that pixel lies strictly inside the frame's left and top edges and within its
/// right and bottom edges.
pub open spec fn plot_offset(p: Particle) -> Option<int> {
    let sx = screen_x(p.x as int);
    let sy = screen_y(p.y as int);
    if 0 < sx < WIDTH && 0 < sy < HEIGHT {
        Some(4 * (sy * WIDTH + sx))
    } else {
        None
    }
}

/// `frame` after drawing each particle of `ps` in turn where its position falls now.
pub open spec fn plotted(frame: Seq<u8>, ps: Seq<Particle>) -> Seq<u8>
    decreases ps.len(),
{
    if ps.len() == 0 {
        frame
    } else {
        let earlier = plotted(frame, ps.drop_last());
        match plot_offset(ps.last()) {
            Some(at) => painted_at(earlier, at, ps.last().shade()),
            None => earlier,
        }
    }
}

/// `frame` with every whole row of `LINE_BYTES` bytes turned left by `k` bytes; bytes
/// after the last whole row stay.
#[verifier::opaque]
pub open spec fn turned_rows(frame: Seq<u8>, k: int) -> Seq<u8> {
    let l = LINE_BYTES as int;
    Seq::new(
        frame.len(),
        |q: int|
            if q < l * ((frame.len() as int) / l) {
                frame[q - q % l + (q % l + k) % l]
            } else {
                frame[q]
            },
    )
}

/// `frame` scrolled by (`x`, `y`) with wrap-around: each whole row turns left by `x`
/// pixels (right by `-x` when `x <= 0`), then the whole frame turns down by `y` rows
/// (up by `-y` when `y <= 0`).
#[verifier::opaque]
pub open spec fn scrolled_frame(frame: Seq<u8>, x: int, y: int) -> Seq<u8> {
    let k = if x > 0 { 4 * x } else { LINE_BYTES + 4 * x };
    let turned = turned_rows(frame, k);
    if y > 0 {
        rotated_right(turned, LINE_BYTES * y)
    } else {
        rotated_left(turned, -LINE_BYTES * y)
    }
}

/// `frame` with the rows that start before byte `bytes` turned left by `k` bytes.
pub open spec fn turned_upto(frame: Seq<u8>, k: int, bytes: int) -> Seq<u8> {
    let l = LINE_BYTES as int;
    Seq::new(
        frame.len(),
        |q: int|
            if q < bytes {
                frame[q - q % l + (q % l + k) % l]
            } else {
                frame[q]
            },
    )
}

/// Turning row `c` of a frame whose earlier rows are turned yields a frame whose rows
/// up to and including `c` are turned.
proof fn lemma_turn_one_row(start: Seq<u8>, after: Seq<u8>, k: int, c: int)
    requires
        0 <= k <= LINE_BYTES,
        0 <= c,
        LINE_BYTES * c + LINE_BYTES <= start.len(),
        after == turned_upto(start, k, LINE_BYTES * c).subrange(0, LINE_BYTES * c) + rotated_left(
            turned_upto(start, k, LINE_BYTES * c).subrange(LINE_BYTES * c, LINE_BYTES * c + LINE_BYTES),
            k,
        ) + turned_upto(start, k, LINE_BYTES * c).subrange(LINE_BYTES * c + LINE_BYTES, start.len() as int),
    ensures
        after == turned_upto(start, k, LINE_BYTES * (c + 1)),
{
    let l = LINE_BYTES as int;
    let lo = LINE_BYTES * c;
    let before = turned_upto(start, k, lo);
    let seg = before.subrange(lo, lo + l);
    let target = turned_upto(start, k, LINE_BYTES * (c + 1));
    assert(LINE_BYTES * (c + 1) == lo + l) by (nonlinear_arith)
        requires
            lo == LINE_BYTES * c,
            l == LINE_BYTES,
    ;
    assert forall|q: int| 0 <= q < start.len() implies #[trigger] after[q] == target[q] by {
        if lo <= q < lo + l {
            let a = q - lo;
            lemma_row_offset(c, a);
            lemma_wrap_in_row(a, k);
            crate::rotation::lemma_rotated_left_index(seg, k, a);
            assert(after[q] == rotated_left(seg, k)[a]);
            let idx = if a + k < l { a + k } else { a + k - l };
            assert(seg[idx] == before[lo + idx]);
            assert(before[lo + idx] == start[lo + idx]);
        } else if q < lo {
            assert(after[q] == before[q]);
        } else {
            assert(after[q] == before[q]);
        }
    }
    assert(after =~= target);
}

/// `(a + k) mod LINE_BYTES` for `a` within a row and `k` at most one row.
proof fn lemma_wrap_in_row(a: int, k: int)
    requires
        0 <= a < LINE_BYTES,
        0 <= k <= LINE_BYTES,
    ensures
        (a + k) % (LINE_BYTES as int) == if a + k < LINE_BYTES { a + k } else { a + k - LINE_BYTES },
{
    if a + k < LINE_BYTES {
        vstd::arithmetic::div_mod::lemma_fundamental_div_mod_converse(a + k, LINE_BYTES as int, 0, a + k);
    } else {
        vstd::arithmetic::div_mod::lemma_fundamental_div_mod_converse(a + k, LINE_BYTES as int, 1, a + k - LINE_BYTES);
    }
}

/// Row `i` of a frame of `h` rows, shifted by `y` rows, is row `(i - y) mod h` of the
/// frame, byte for byte.
proof fn lemma_frame_shift_index(t: Seq<u8>, h: int, y: int, i: int, j: int)
    requires
        t.len() == LINE_BYTES * h,
        -h <= y <= h,
        0 <= i < h,
        0 <= j < LINE_BYTES,
    ensures
        shifted_rows(t, LINE_BYTES * y)[LINE_BYTES * i + j] == t[LINE_BYTES * (if 0 <= i - y < h {
            i - y
        } else if i - y < 0 {
            i - y + h
        } else {
            i - y - h
        }) + j],
{
    let l = LINE_BYTES as int;
    let q = l * i + j;
    let d = i - y;
    assert(l * y <= t.len() && -(l * y) <= t.len()) by (nonlinear_arith)
        requires
            -h <= y <= h,
            t.len() == l * h,
            l > 0,
    ;
    assert(0 <= q < t.len()) by (nonlinear_arith)
        requires
            0 <= i < h,
            0 <= j < l,
            q == l * i + j,
            t.len() == l * h,
    ;
    lemma_shifted_index(t, l * y, q);
    assert(q - l * y == l * d + j) by (nonlinear_arith)
        requires
            q == l * i + j,
            d == i - y,
    ;
    if 0 <= d < h {
        assert(0 <= l * d + j < l * h) by (nonlinear_arith)
            requires
                0 <= d < h,
                0 <= j < l,
        ;
    } else if d < 0 {
        assert(l * d + j < 0) by (nonlinear_arith)
            requires
                d < 0,
                0 <= j < l,
        ;
        assert(l * d + j + l * h == l * (d + h) + j) by (nonlinear_arith);
    } else {
        assert(l * d + j >= l * h) by (nonlinear_arith)
            requires
                d >= h,
                0 <= j < l,
        ;
        assert(l * d + j - l * h == l * (d - h) + j) by (nonlinear_arith);
    }
}

/// For a frame of exactly `HEIGHT` rows, scrolling the line buffer and then copying it
/// into the frame gives the same frame as copying it and then scrolling the frame.
pub proof fn lemma_scroll_commutes(rows: Seq<Seq<u8>>, frame: Seq<u8>, x: int, y: int)
    requires
        rows.len() == HEIGHT,
        forall|i: int| 0 <= i < HEIGHT ==> (#[trigger] rows[i]).len() == LINE_BYTES,
        frame.len() == LINE_BYTES * HEIGHT,
        -(WIDTH as int) <= x <= WIDTH,
        -(HEIGHT as int) <= y <= HEIGHT,
    ensures
        copied_into(frame, scrolled_rows(rows, x, y)) == scrolled_frame(copied_into(frame, rows), x, y),
{
    let l = LINE_BYTES as int;
    let h = HEIGHT as int;
    let kk = if x > 0 { 4 * x } else { l + 4 * x };
    let c = copied_into(frame, rows);
    reveal(turned_rows);
    reveal(scrolled_frame);
    let t = turned_rows(c, kk);
    let tr = rows.map_values(|line: Seq<u8>| turned_line(line, x));
    let sr = scrolled_rows(rows, x, y);
    lemma_rows_in_full(frame);
    lemma_row_offset(h, 0);
    assert(t.len() == l * h);
    assert(shifted_rows(t, l * y) == scrolled_frame(c, x, y)) by {
        if y > 0 {
            assert(l * y > 0) by (nonlinear_arith)
                requires
                    y > 0,
                    l > 0,
            ;
        } else {
            assert(l * y <= 0) by (nonlinear_arith)
                requires
                    y <= 0,
                    l > 0,
            ;
            assert(-(l * y) == -l * y) by (nonlinear_arith);
        }
    }
    assert forall|q: int| 0 <= q < frame.len() implies #[trigger] copied_into(frame, sr)[q] == shifted_rows(t, l * y)[q] by {
        lemma_offset_split(q);
        let i = q / l;
        let j = q % l;
        lemma_frame_shift_index(t, h, y, i, j);
        let i2 = if 0 <= i - y < h { i - y } else if i - y < 0 { i - y + h } else { i - y - h };
        lemma_shifted_index(tr, y, i);
        assert(sr[i] == turned_line(rows[i2], x));
        lemma_wrap_in_row(j, kk);
        let jj = if j + kk < l { j + kk } else { j + kk - l };
        if x > 0 {
            crate::rotation::lemma_rotated_left_index(rows[i2], 4 * x, j);
        } else {
            crate::rotation::lemma_rotated_left_index(rows[i2], l + 4 * x, j);
        }
        assert(sr[i][j] == rows[i2][jj]);
        let p = l * i2 + j;
        lemma_row_offset(i2, j);
        assert(l * i2 + l <= l * h) by (nonlinear_arith)
            requires
                0 <= i2 < h,
                l > 0,
        ;
        assert(t[p] == c[p - p % l + (p % l + kk) % l]);
        lemma_row_offset(i2, jj);
        assert(c[l * i2 + jj] == rows[i2][jj]);
    }
    assert(copied_into(frame, sr) =~= shifted_rows(t, l * y));
}

/// The byte offset by which `scrolled_frame` turns each row for a scroll of `x` pixels.
pub open spec fn row_turn(x: int) -> int {
    if x > 0 { 4 * x } else { LINE_BYTES + 4 * x }
}

/// A scrolled frame is its rows turned, then shifted by whole rows.
proof fn lemma_scrolled_as_shift(frame: Seq<u8>, x: int, y: int)
    ensures
        scrolled_frame(frame, x, y) == shifted_rows(turned_rows(frame, row_turn(x)), LINE_BYTES * y),
{
    let l = LINE_BYTES as int;
    reveal(scrolled_frame);
    if y > 0 {
        assert(l * y > 0) by (nonlinear_arith)
            requires
                y > 0,
                l > 0,
        ;
    } else {
        assert(l * y <= 0) by (nonlinear_arith)
            requires
                y <= 0,
                l > 0,
        ;
        assert(-(l * y) == -l * y) by (nonlinear_arith);
    }
}

/// Turning every row of a frame of `h` whole rows by `k1` bytes and then by `k2` bytes,
/// where the two add up to one or two whole rows, gives the frame back.
proof fn lemma_turn_rows_undone(frame: Seq<u8>, h: int, k1: int, k2: int)
    requires
        frame.len() == LINE_BYTES * h,
        0 <= k1 <= LINE_BYTES,
        0 <= k2 <= LINE_BYTES,
        k1 + k2 == LINE_BYTES || k1 + k2 == 2 * LINE_BYTES,
    ensures
        turned_rows(turned_rows(frame, k1), k2) == frame,
{
    let l = LINE_BYTES as int;
    reveal(turned_rows);
    let t1 = turned_rows(frame, k1);
    let t2 = turned_rows(t1, k2);
    assert(0 <= h) by (nonlinear_arith)
        requires
            frame.len() == l * h,
            l > 0,
    ;
    lemma_row_offset(h, 0);
    assert(l * ((frame.len() as int) / l) == frame.len());
    assert forall|q: int| 0 <= q < frame.len() implies #[trigger] t2[q] == frame[q] by {
        lemma_offset_split(q);
        let r = q / l;
        let a = q % l;
        lemma_wrap_in_row(a, k2);
        let b = (a + k2) % l;
        lemma_row_offset(r, b);
        assert(l * r + b < l * h) by (nonlinear_arith)
            requires
                q == l * r + a,
                0 <= a < l,
                0 <= b < l,
                q < l * h,
        ;
        assert(t2[q] == t1[l * r + b]);
        lemma_wrap_in_row(b, k1);
        assert(t1[l * r + b] == frame[l * r + (b + k1) % l]);
    }
    assert(t2 =~= frame);
}

/// Shifting by whole rows and turning every row by `k` bytes may be done in either order.
proof fn lemma_turn_shift_commute(t: Seq<u8>, h: int, y: int, k: int)
    requires
        t.len() == LINE_BYTES * h,
        -h <= y <= h,
        0 <= k <= LINE_BYTES,
    ensures
        turned_rows(shifted_rows(t, LINE_BYTES * y), k) == shifted_rows(turned_rows(t, k), LINE_BYTES * y),
{
    let l = LINE_BYTES as int;
    reveal(turned_rows);
    let tt = turned_rows(t, k);
    assert(l * y <= t.len() && -(l * y) <= t.len()) by (nonlinear_arith)
        requires
            -h <= y <= h,
            t.len() == l * h,
            l > 0,
    ;


    let lhs = turned_rows(shifted_rows(t, l * y), k);
    let rhs = shifted_rows(tt, l * y);
    lemma_row_offset(h, 0);
    assert(l * ((t.len() as int) / l) == t.len());
    assert forall|q: int| 0 <= q < t.len() implies #[trigger] lhs[q] == rhs[q] by {
        lemma_offset_split(q);
        let i = q / l;
        let j = q % l;
        assert(i < h) by (nonlinear_arith)
            requires
                q == l * i + j,
                0 <= j,
                q < l * h,
                l > 0,
        ;
        lemma_wrap_in_row(j, k);
        let jj = (j + k) % l;
        lemma_frame_shift_index(t, h, y, i, jj);
        lemma_frame_shift_index(tt, h, y, i, j);
        let i2 = if 0 <= i - y < h { i - y } else if i - y < 0 { i - y + h } else { i - y - h };
        lemma_row_offset(i2, j);
        assert(l * i2 + j < l * h) by (nonlinear_arith)
            requires
                0 <= i2 < h,
                0 <= j < l,
        ;
        assert(tt[l * i2 + j] == t[l * i2 + jj]);
    }
    assert(lhs =~= rhs);
}

/// Scrolling a frame of `h` whole rows by (`x`, `y`) and then by (`-x`, `-y`) gives the
/// frame back.
pub proof fn lemma_frame_scroll_undone(frame: Seq<u8>, h: int, x: int, y: int)
    requires
        frame.len() == LINE_BYTES * h,
        -(WIDTH as int) <= x <= WIDTH,
        -h <= y <= h,
    ensures
        scrolled_frame(scrolled_frame(frame, x, y), -x, -y) == frame,
{
    let l = LINE_BYTES as int;
    let k1 = row_turn(x);
    let k2 = row_turn(-x);
    let t = turned_rows(frame, k1);
    assert(t.len() == frame.len()) by {
        reveal(turned_rows);
    }
    let f1 = shifted_rows(t, l * y);
    lemma_scrolled_as_shift(frame, x, y);
    assert(l * y <= t.len() && -(l * y) <= t.len()) by (nonlinear_arith)
        requires
            -h <= y <= h,
            t.len() == l * h,
            l > 0,
    ;

    lemma_scrolled_as_shift(f1, -x, -y);
    assert(l * -y == -(l * y)) by (nonlinear_arith);
    lemma_turn_shift_commute(t, h, y, k2);
    let tt = turned_rows(t, k2);
    assert(tt.len() == t.len()) by {
        reveal(turned_rows);
    }
    lemma_shift_undone(tt, l * y);
    lemma_turn_rows_undone(frame, h, k1, k2);
}

/// Writes the four bytes (`r`, `g`, `b`, `a`) at byte `at` of `frame`.
fn paint4(frame: &mut [u8], at: usize, r: u8, g: u8, b: u8, a: u8)
    requires
        at + 4 <= old(frame)@.len(),
    ensures
        final(frame)@ == painted(old(frame)@, at as int, seq![r, g, b, a]),
{
    let ghost start = frame@;
    frame[at] = r;
    frame[at + 1] = g;
    frame[at + 2] = b;
    frame[at + 3] = a;
    assert(frame@ =~= painted(start, at as int, seq![r, g, b, a]));
}

/// Counting the lifeless particles of a concatenation adds up.
pub proof fn lemma_dead_count_concat(a: Seq<Particle>, b: Seq<Particle>)
    ensures
        dead_count(a + b) == dead_count(a) + dead_count(b),
    decreases b.len(),
{
    if b.len() == 0 {
        assert(a + b =~= a);
    } else {
        assert((a + b).drop_last() =~= a + b.drop_last());
        lemma_dead_count_concat(a, b.drop_last());
    }
}

/// There are no more lifeless particles than particles.
pub proof fn lemma_dead_count_bound(ps: Seq<Particle>)
    ensures
        dead_count(ps) <= ps.len(),
    decreases ps.len(),
{
    if ps.len() > 0 {
        lemma_dead_count_bound(ps.drop_last());
    }
}

/// A sequence of particles that all have life `>= 0` has no lifeless particle.
pub proof fn lemma_dead_count_none(ps: Seq<Particle>)
    requires
        forall|i: int| 0 <= i < ps.len() ==> (#[trigger] ps[i]).life >= 0,
    ensures
        dead_count(ps) == 0,
    decreases ps.len(),
{
    if ps.len() > 0 {
        lemma_dead_count_none(ps.drop_last());
    }
}

/// Two sequences with lifeless particles at the same places count the same.
pub proof fn lemma_dead_count_same(a: Seq<Particle>, b: Seq<Particle>)
    requires
        a.len() == b.len(),
        forall|i: int| #![trigger a[i]] 0 <= i < a.len() ==> (a[i].life == -1) == (b[i].life == -1),
    ensures
        dead_count(a) == dead_count(b),
    decreases a.len(),
{
    if a.len() > 0 {
        let n = a.len() - 1;
        assert(a[n].life == -1 <==> b[n].life == -1);
        lemma_dead_count_same(a.drop_last(), b.drop_last());
    }
}

/// One step turns exactly the particles that die into lifeless ones; lifeless particles
/// stay so, and forks are never lifeless.
pub proof fn lemma_evolved_life(p: Particle, d: ParticleDraw)
    requires
        p.inv(),
    ensures
        (p.evolved(d).0.life == -1) == (p.life == -1 || p.evolved(d).2),
        !(p.life == -1 && p.evolved(d).2),
        p.evolved(d).1 matches Some(c) ==> c.life >= 0,
        p.evolved(d).0.life >= -1,
{
}

/// Stepping `ps` with `ds` adds the deaths of the step to the lifeless particles.
pub proof fn lemma_moved_dead_count(ps: Seq<Particle>, ds: Seq<ParticleDraw>)
    requires
        ds.len() == ps.len(),
        forall|i: int| 0 <= i < ps.len() ==> (#[trigger] ps[i]).inv(),
    ensures
        dead_count(moved(ps, ds)) == dead_count(ps) + deaths(ps, ds),
    decreases ps.len(),
{
    if ps.len() > 0 {
        let n = ps.len() - 1;
        lemma_moved_dead_count(ps.take(n), ds.take(n));
        assert(moved(ps, ds).drop_last() =~= moved(ps.take(n), ds.take(n)));
        assert(ps.drop_last() =~= ps.take(n));
        lemma_evolved_life(ps[n], ds[n]);
    }
}

/// Every fork of one step satisfies the particle invariant, can drift, and has life `>= 0`.
pub proof fn lemma_offspring_inv(ps: Seq<Particle>, ds: Seq<ParticleDraw>)
    requires
        ds.len() == ps.len(),
        forall|i: int| 0 <= i < ps.len() ==> (#[trigger] ps[i]).inv() && ps[i].drift_fits(),
    ensures
        forall|i: int| 0 <= i < offspring(ps, ds).len() ==> (#[trigger] offspring(ps, ds)[i]).inv(),
        forall|i: int| 0 <= i < offspring(ps, ds).len() ==> (#[trigger] offspring(ps, ds)[i]).drift_fits(),
        forall|i: int| 0 <= i < offspring(ps, ds).len() ==> (#[trigger] offspring(ps, ds)[i]).life >= 0,
        offspring(ps, ds).len() <= ps.len(),
    decreases ps.len(),
{
    if ps.len() > 0 {
        let n = ps.len() - 1;
        lemma_offspring_inv(ps.take(n), ds.take(n));
        lemma_evolved_life(ps[n], ds[n]);
        particle::lemma_evolved_inv(ps[n], ds[n]);
    }
}

/// The clean-up keeps the front of the swarm: every tenth frame it drops exactly the
/// `dead` back-most (oldest) particles, keeping the others in order, and restarts the
/// count; in other frames it changes nothing.
pub proof fn lemma_clean_up_keeps_front(ps: Seq<Particle>, dead: nat, frame: nat)
    requires
        dead <= ps.len(),
    ensures
        frame % 10 == 0 ==> cleared(ps, dead, frame).0.len() == ps.len() - dead,
        frame % 10 == 0 ==> forall|i: int|
            0 <= i < ps.len() - dead ==> #[trigger] cleared(ps, dead, frame).0[i] == ps[i],
        frame % 10 == 0 ==> cleared(ps, dead, frame).1 == 0,
        frame % 10 != 0 ==> cleared(ps, dead, frame) == (ps, dead),
{
}

/// A step keeps every particle and adds every fork: the swarm grows by exactly the number
/// of particles that are alive after drifting and whose draw forks. The forks come first,
/// each of them a fork (life at most `LIFE / 2`) carrying its draw's velocity, and the
/// stepped particles follow in their old order.
pub proof fn lemma_step_adds_every_fork(ps: Seq<Particle>, ds: Seq<ParticleDraw>)
    requires
        ds.len() == ps.len(),
        forall|i: int| 0 <= i < ps.len() ==> (#[trigger] ps[i]).inv(),
    ensures
        stepped(ps, ds).len() == ps.len() + fork_count(ps, ds),
        offspring(ps, ds).len() == fork_count(ps, ds),
        forall|i: int|
            0 <= i < ps.len() ==> #[trigger] stepped(ps, ds)[fork_count(ps, ds) + i] == ps[i].evolved(ds[i]).0,
        forall|k: int| 0 <= k < fork_count(ps, ds) ==> (#[trigger] stepped(ps, ds)[k]).life <= LIFE / 2,
    decreases ps.len(),
{
    if ps.len() > 0 {
        let n = ps.len() - 1;
        lemma_step_adds_every_fork(ps.take(n), ds.take(n));
        particle::lemma_life_runs_down(ps[n], ds[n]);
    }
    let o = offspring(ps, ds);
    assert forall|k: int| 0 <= k < fork_count(ps, ds) implies (#[trigger] stepped(ps, ds)[k]).life <= LIFE / 2 by {
        lemma_offspring_small(ps, ds, o.len() - 1 - k);
    }
}

/// Every fork of one step has at most `LIFE / 2` life.
proof fn lemma_offspring_small(ps: Seq<Particle>, ds: Seq<ParticleDraw>, k: int)
    requires
        ds.len() == ps.len(),
        forall|i: int| 0 <= i < ps.len() ==> (#[trigger] ps[i]).inv(),
        0 <= k < offspring(ps, ds).len(),
    ensures
        offspring(ps, ds)[k].life <= LIFE / 2,
    decreases ps.len(),
{
    let n = ps.len() - 1;
    particle::lemma_life_runs_down(ps[n], ds[n]);
    if k < offspring(ps.take(n), ds.take(n)).len() {
        lemma_offspring_small(ps.take(n), ds.take(n), k);
    }
}

/// A swarm of particles and the line buffer they may be drawn into.
pub struct World {
    particles: VecDeque<Particle>,
    dead: usize,
    lbuffer: LineBuf,
    frame: u64,
}

impl World {
    /// The particles, the newest first.
    pub closed spec fn swarm(&self) -> Seq<Particle> {
        self.particles@
    }

    /// How many particles have died since the last clean-up.
    pub closed spec fn dead_pending(&self) -> nat {
        self.dead as nat
    }

    /// The number of frames updated so far.
    pub closed spec fn frames(&self) -> nat {
        self.frame as nat
    }

    /// The line buffer.
    pub closed spec fn buffer(&self) -> LineBuf {
        self.lbuffer
    }

    /// Every particle satisfies its invariant, the pending-dead count does not exceed the
    /// number of particles without life, and the line buffer is well formed.
    pub open spec fn wf(&self) -> bool {
        &&& forall|i: int| 0 <= i < self.swarm().len() ==> (#[trigger] self.swarm()[i]).inv()
        &&& self.dead_pending() <= dead_count(self.swarm())
        &&& self.buffer().wf()
    }

    /// Every particle can take its next drift without overflow.
    pub open spec fn drifts_fit(&self) -> bool {
        forall|i: int| 0 <= i < self.swarm().len() ==> (#[trigger] self.swarm()[i]).drift_fits()
    }

    /// An empty world at frame 0 with a blank line buffer.
    pub fn new() -> (w: Self)
        ensures
            w.wf(),
            w.drifts_fit(),
            w.swarm() == Seq::<Particle>::empty(),
            w.dead_pending() == 0,
            w.frames() == 0,
            forall|i: int| 0 <= i < crate::HEIGHT ==> #[trigger] w.buffer().rows()[i] == linebuf::blank_line(),
    {
        World { particles: VecDeque::with_capacity(4096), dead: 0, lbuffer: LineBuf::default(), frame: 0 }
    }

    /// Moves every particle one step with the matching random values of `draws` (see
    /// `Particle::advance`), puts the forks in front, the last spawned first, and adds the
    /// particles that died to the pending-dead count.
    pub fn step(&mut self, draws: &Vec<ParticleDraw>)
        requires
            old(self).wf(),
            old(self).drifts_fit(),
            draws@.len() == old(self).swarm().len(),
        ensures
            final(self).wf(),
            final(self).drifts_fit(),
            final(self).swarm() == stepped(old(self).swarm(), draws@),
            final(self).dead_pending() == old(self).dead_pending() + deaths(old(self).swarm(), draws@),
            final(self).frames() == old(self).frames(),
            final(self).buffer() == old(self).buffer(),
    {
        let ghost start = self.particles@;
        let n = self.particles.len();
        let mut spawned: Vec<Particle> = Vec::new();
        let mut new_dead: usize = 0;
        let mut i: usize = 0;
        while i < n
            invariant
                n == start.len(),
                draws@.len() == n,
                i <= n,
                forall|j: int| 0 <= j < n ==> (#[trigger] start[j]).inv() && start[j].drift_fits(),
                self.particles@ == start.subrange(i as int, n as int) + moved(start.take(i as int), draws@.take(i as int)),
                spawned@ == offspring(start.take(i as int), draws@.take(i as int)),
                new_dead == deaths(start.take(i as int), draws@.take(i as int)),
                new_dead <= i,
                self.dead == old(self).dead,
                self.lbuffer == old(self).lbuffer,
                self.frame == old(self).frame,
            decreases n - i,
        {
            let ghost before = self.particles@;
            proof {
                assert(before[0] == start[i as int]);
            }
            let mut p = self.particles.pop_front().unwrap();
            let (child, died) = p.advance(&draws[i]);
            self.particles.push_back(p);
            match child {
                Some(c) => spawned.push(c),
                None => {},
            }
            if died {
                new_dead = new_dead + 1;
            }
            proof {
                let t = start.take(i + 1);
                let e = draws@.take(i + 1);
                assert(t.take(i as int) =~= start.take(i as int));
                assert(e.take(i as int) =~= draws@.take(i as int));
                assert(moved(t, e) =~= moved(start.take(i as int), draws@.take(i as int)).push(p));
                assert(self.particles@ =~= start.subrange(i + 1, n as int) + moved(t, e));
            }
            i = i + 1;
        }
        proof {
            assert(start.take(n as int) =~= start);
            assert(draws@.take(n as int) =~= draws@);
            assert(start.subrange(n as int, n as int) + moved(start, draws@) =~= moved(start, draws@));
        }
        let ghost base = self.particles@;
        let m = spawned.len();
        let mut j: usize = 0;
        while j < m
            invariant
                m == spawned@.len(),
                j <= m,
                self.particles@ == spawned@.take(j as int).reverse() + base,
                self.dead == old(self).dead,
                self.lbuffer == old(self).lbuffer,
                self.frame == old(self).frame,
            decreases m - j,
        {
            self.particles.push_front(spawned[j]);
            proof {
                assert(spawned@.take(j + 1).reverse() =~= seq![spawned@[j as int]] + spawned@.take(j as int).reverse());
            }
            j = j + 1;
        }
        proof {
            assert(spawned@.take(m as int) =~= spawned@);
            lemma_offspring_inv(start, draws@);
            lemma_moved_dead_count(start, draws@);
            lemma_dead_count_none(spawned@.reverse());
            lemma_dead_count_concat(spawned@.reverse(), base);
            lemma_dead_count_bound(self.particles@);
            assert forall|k: int| 0 <= k < self.particles@.len() implies (#[trigger] self.particles@[k]).inv()
                && self.particles@[k].drift_fits() by {
                if k < m {
                    assert(self.particles@[k] == spawned@[m - 1 - k]);
                } else {
                    particle::lemma_evolved_inv(start[k - m], draws@[k - m]);
                }
            }
        }
        assert(self.particles@ == spawned@.reverse() + moved(start, draws@));
        assert(dead_count(self.particles@) == dead_count(start) + new_dead);
        assert(self.particles@.len() == self.particles.len());
        self.dead = self.dead + new_dead;
    }

    /// Emits `num` fresh particles of brightness `BRIGHTNESS` in front of the others.
    pub fn emit_particles(&mut self, num: u16)
        requires
            old(self).wf(),
        ensures
            final(self).wf(),
            final(self).swarm().len() == old(self).swarm().len() + num,
            final(self).swarm().skip(num as int) == old(self).swarm(),
            forall|i: int| 0 <= i < num ==> (#[trigger] final(self).swarm()[i]).is_fresh(BRIGHTNESS),
            old(self).drifts_fit() ==> final(self).drifts_fit(),
            final(self).dead_pending() == old(self).dead_pending(),
            final(self).frames() == old(self).frames(),
            final(self).buffer() == old(self).buffer(),
    {
        let ghost start = self.particles@;
        if self.frame % 1 == 0 {
            let mut k: u16 = 0;
            while k < num
                invariant
                    k <= num,
                    self.particles@.len() == start.len() + k,
                    self.particles@.skip(k as int) == start,
                    forall|i: int| 0 <= i < k ==> (#[trigger] self.particles@[i]).is_fresh(BRIGHTNESS),
                    forall|i: int| 0 <= i < self.particles@.len() ==> (#[trigger] self.particles@[i]).inv(),
                    old(self).drifts_fit() ==> forall|i: int|
                        0 <= i < self.particles@.len() ==> (#[trigger] self.particles@[i]).drift_fits(),
                    self.dead <= dead_count(self.particles@),
                    self.dead == old(self).dead,
                    self.lbuffer == old(self).lbuffer,
                    self.frame == old(self).frame,
                decreases num - k,
            {
                let p = Particle::new_random(BRIGHTNESS);
                let ghost before = self.particles@;
                self.particles.push_front(p);
                proof {
                    lemma_dead_count_concat(seq![p], before);
                    lemma_dead_count_none(seq![p]);
                    assert(self.particles@.skip(k + 1) =~= before.skip(k as int));
                }
                k = k + 1;
            }
        }
        assert(self.particles@.skip(num as int) == start);
    }

    /// Every tenth frame, drops the last `dead` particles and restarts the count.
    fn clear_particles(&mut self)
        requires
            old(self).wf(),
        ensures
            final(self).wf(),
            (final(self).swarm(), final(self).dead_pending()) == cleared(
                old(self).swarm(),
                old(self).dead_pending(),
                old(self).frames(),
            ),
            old(self).drifts_fit() ==> final(self).drifts_fit(),
            final(self).frames() == old(self).frames(),
            final(self).buffer() == old(self).buffer(),
    {
        if self.frame % 10 == 0 {
            proof {
                lemma_dead_count_bound(self.particles@);
            }
            self.particles.truncate(self.particles.len() - self.dead);
            self.dead = 0;
        }
    }

    /// Random values for one step of every particle, with the fork tosses they hold.
    fn roll_draws(&self) -> (res: (Vec<ParticleDraw>, Vec<Chance>))
        requires
            self.wf(),
        ensures
            fork_tossed(self.swarm(), res.0@, res.1@),
    {
        let n = self.particles.len();
        let mut draws: Vec<ParticleDraw> = Vec::new();
        let mut rolls: Vec<Chance> = Vec::new();
        let mut i: usize = 0;
        while i < n
            invariant
                self.wf(),
                n == self.swarm().len(),
                i <= n,
                draws@.len() == i,
                rolls@.len() == i,
                forall|j: int|
                    0 <= j < i ==> {
                        &&& (#[trigger] rolls@[j]).numerator() == self.swarm()[j].drifted().z
                        &&& rolls@[j].denominator() == 20 * TREE_H
                        &&& draws@[j].fork == rolls@[j].came_up()
                    },
            decreases n - i,
        {
            let p = &self.particles[i];
            assert(self.particles@[i as int].inv());
            let odds = p.fork_odds();
            let vx = chance::any_i8();
            let vy = chance::any_i8();
            let toss = chance::ratio(odds, 20 * TREE_H as u32);
            let fork = toss.hit();
            let fork_vx = chance::any_i8();
            let fork_vy = chance::any_i8();
            draws.push(ParticleDraw { vx, vy, fork, fork_vx, fork_vy });
            rolls.push(toss);
            i = i + 1;
        }
        (draws, rolls)
    }

    /// Advances the world by one frame: counts the frame, emits two fresh particles,
    /// clears the dead every tenth frame, and moves every particle one step with fresh
    /// random values (see `step`), each particle forking with odds of its depth after the
    /// step's climb out of `20 * TREE_H`.
    pub fn update(&mut self)
        requires
            old(self).wf(),
            old(self).drifts_fit(),
            old(self).frames() < u64::MAX,
        ensures
            final(self).wf(),
            final(self).drifts_fit(),
            final(self).frames() == old(self).frames() + 1,
            final(self).buffer() == old(self).buffer(),
            exists|fresh: Seq<Particle>, draws: Seq<ParticleDraw>, rolls: Seq<Chance>|
                #![trigger updated(old(self).swarm(), old(self).dead_pending(), old(self).frames() + 1, fresh, draws), fork_tossed(cleared(fresh + old(self).swarm(), old(self).dead_pending(), old(self).frames() + 1).0, draws, rolls)]
                {
                    &&& fresh.len() == 2
                    &&& forall|i: int| 0 <= i < 2 ==> (#[trigger] fresh[i]).is_fresh(BRIGHTNESS)
                    &&& fork_tossed(
                        cleared(fresh + old(self).swarm(), old(self).dead_pending(), old(self).frames() + 1).0,
                        draws,
                        rolls,
                    )
                    &&& (final(self).swarm(), final(self).dead_pending()) == updated(
                        old(self).swarm(),
                        old(self).dead_pending(),
                        old(self).frames() + 1,
                        fresh,
                        draws,
                    )
                },
    {
        self.frame = self.frame + 1;
        self.emit_particles(2);
        let ghost fresh = self.particles@.take(2);
        proof {
            assert(self.particles@ =~= fresh + old(self).particles@);
        }
        self.clear_particles();
        let ghost cleared_swarm = self.particles@;
        let (draws, rolls) = self.roll_draws();
        self.step(&draws);
        assert(fresh.len() == 2 && forall|i: int| 0 <= i < 2 ==> (#[trigger] fresh[i]).is_fresh(BRIGHTNESS));
        assert(cleared(fresh + old(self).swarm(), old(self).dead_pending(), old(self).frames() + 1).0 == cleared_swarm);
        assert(fork_tossed(cleared_swarm, draws@, rolls@));
        assert(updated(old(self).swarm(), old(self).dead_pending(), old(self).frames() + 1, fresh, draws@)
            == (self.swarm(), self.dead_pending()));
    }

    /// Moves every particle by its velocity and the wind, without wrapping, and brings its
    /// frame pixel up to date (see `Particle::glide`). The positions are left unwrapped;
    /// a well-formed world stays well formed, but its particles may no longer be able to
    /// drift without overflow (see `drifts_fit`).
    pub fn move_particles(&mut self)
        requires
            forall|i: int| 0 <= i < old(self).swarm().len() ==> (#[trigger] old(self).swarm()[i]).glide_fits(),
        ensures
            final(self).swarm() == old(self).swarm().map_values(|p: Particle| p.shifted().projected()),
            old(self).wf() ==> final(self).wf(),
            final(self).dead_pending() == old(self).dead_pending(),
            final(self).frames() == old(self).frames(),
            final(self).buffer() == old(self).buffer(),
    {
        let ghost start = self.particles@;
        let n = self.particles.len();
        let mut i: usize = 0;
        assert forall|j: int| 0 <= j < n implies (#[trigger] start[j]).glide_fits() by {
            assert(old(self).swarm()[j] == start[j]);
        }
        while i < n
            invariant
                n == start.len(),
                i <= n,
                forall|j: int| 0 <= j < n ==> (#[trigger] start[j]).glide_fits(),
                self.particles@ == start.subrange(i as int, n as int) + start.take(i as int).map_values(
                    |p: Particle| p.shifted().projected(),
                ),
                self.dead == old(self).dead,
                self.lbuffer == old(self).lbuffer,
                self.frame == old(self).frame,
            decreases n - i,
        {
            let ghost before = self.particles@;
            assert(before[0] == start[i as int]);
            let mut p = self.particles.pop_front().unwrap();
            p.glide();
            self.particles.push_back(p);
            assert(start.take(i + 1).map_values(|p: Particle| p.shifted().projected())
                =~= start.take(i as int).map_values(|p: Particle| p.shifted().projected()).push(p));
            assert(self.particles@ =~= start.subrange(i + 1, n as int) + start.take(i + 1).map_values(
                |p: Particle| p.shifted().projected(),
            ));
            i = i + 1;
        }
        assert(self.particles@ =~= start.map_values(|p: Particle| p.shifted().projected()));
        proof {
            if old(self).wf() {
                assert forall|k: int| 0 <= k < n implies #[trigger] self.particles@[k].inv()
                    && (self.particles@[k].life == -1) == (start[k].life == -1) by {
                    particle::lemma_glide_inv(start[k]);
                }
                lemma_dead_count_same(start, self.particles@);
            }
        }
    }

    /// Scrolls `frame` by (`x`, `y`) with wrap-around: each whole row turns left by `x`
    /// pixels (right by `-x` when `x <= 0`), then the whole frame turns down by `y` rows
    /// (up by `-y` when `y <= 0`).
    pub fn scroll(frame: &mut [u8], x: i32, y: i32)
        requires
            old(frame)@.len() >= LINE_BYTES ==> -(WIDTH as int) <= x <= WIDTH,
            LINE_BYTES * (if y >= 0 { y as int } else { -y }) <= old(frame)@.len(),
        ensures
            final(frame)@ == scrolled_frame(old(frame)@, x as int, y as int),
    {
        let ghost start = frame@;
        let ghost l = LINE_BYTES as int;
        let n = frame.len();
        let rows = n / LINE_BYTES;
        let ghost kx: int = if x > 0 { 4 * x } else { LINE_BYTES + 4 * x };
        proof {
            vstd::arithmetic::div_mod::lemma_fundamental_div_mod(n as int, l);
            vstd::arithmetic::div_mod::lemma_mod_pos_bound(n as int, l);
            assert(l * (n as int / l) == (n as int / l) * l) by (nonlinear_arith);
            if rows > 0 {
                assert(n >= LINE_BYTES) by (nonlinear_arith)
                    requires
                        rows > 0,
                        LINE_BYTES * rows <= n,
                ;
            }
        }
        let k: usize = if rows == 0 {
            0
        } else if x > 0 {
            4 * x as usize
        } else {
            LINE_BYTES - 4 * (-x) as usize
        };
        let ghost kk: int = k as int;
        let mut c: usize = 0;
        while c < rows
            invariant
                n == start.len(),
                rows == n / LINE_BYTES,
                LINE_BYTES * rows <= n,
                k == kk,
                0 <= kk <= LINE_BYTES,
                c <= rows,
                frame@ == turned_upto(start, kk, LINE_BYTES * c),
            decreases rows - c,
        {
            let ghost before = frame@;
            assert(LINE_BYTES * c + LINE_BYTES <= LINE_BYTES * rows) by (nonlinear_arith)
                requires
                    c < rows,
            ;
            rotate_segment_left(frame, LINE_BYTES * c, LINE_BYTES, k);
            proof {
                lemma_turn_one_row(start, frame@, kk, c as int);
            }
            c = c + 1;
        }
        let ghost turned = frame@;
        reveal(turned_rows);
        reveal(scrolled_frame);
        assert(turned =~= turned_rows(start, kx));
        assert(turned.subrange(0, n as int) =~= turned);
        if y > 0 {
            let m = LINE_BYTES * y as usize;
            rotate_segment_left(frame, 0, n, n - m);
            assert(frame@ =~= rotated_right(turned, LINE_BYTES * y));
        } else {
            let up: usize = if y == 0 { 0 } else { (-(y as i64)) as usize };
            let m = LINE_BYTES * up;
            assert(m == -LINE_BYTES * y) by (nonlinear_arith)
                requires
                    m == LINE_BYTES * up,
                    up == -y,
            ;
            rotate_segment_left(frame, 0, n, m);
            assert(frame@ =~= rotated_left(turned, -LINE_BYTES * y));
        }
    }

    /// Scrolls the line buffer by (`x`, `y`) (see `LineBuf::scroll`).
    pub fn scroll2(&mut self, x: i32, y: i32)
        requires
            old(self).wf(),
            -(WIDTH as int) <= x <= WIDTH,
            -(HEIGHT as int) <= y <= HEIGHT,
        ensures
            final(self).wf(),
            final(self).buffer().rows() == scrolled_rows(old(self).buffer().rows(), x as int, y as int),
            final(self).swarm() == old(self).swarm(),
            final(self).dead_pending() == old(self).dead_pending(),
            final(self).frames() == old(self).frames(),
    {
        self.lbuffer.scroll(x, y);
    }

    /// Fades the line buffer by one step (see `LineBuf::decay`).
    pub fn decay2(&mut self)
        requires
            old(self).wf(),
        ensures
            final(self).wf(),
            final(self).buffer().rows() == old(self).buffer().rows().map_values(
                |line: Seq<u8>| line.map_values(|b: u8| faded(b)),
            ),
            final(self).swarm() == old(self).swarm(),
            final(self).dead_pending() == old(self).dead_pending(),
            final(self).frames() == old(self).frames(),
    {
        self.lbuffer.decay();
    }

    /// Fades `frame` by one step: every byte goes down by one, stopping at 0.
    pub fn decay(frame: &mut [u8])
        ensures
            final(frame)@ == old(frame)@.map_values(|b: u8| faded(b)),
    {
        let ghost start = frame@;
        let n = frame.len();
        let mut c: usize = 0;
        while c < n
            invariant
                n == start.len(),
                c <= n,
                frame@.len() == n,
                forall|q: int| 0 <= q < n ==> #[trigger] frame@[q] == if q < c { faded(start[q]) } else { start[q] },
            decreases n - c,
        {
            let v = frame[c];
            frame[c] = v.saturating_sub(1);
            c = c + 1;
        }
        assert(frame@ =~= start.map_values(|b: u8| faded(b)));
    }

    /// Draws every particle, oldest last so that it ends on top, at the pixel offset it
    /// recorded in its last step; a particle whose four bytes do not fit is skipped.
    pub fn lazy_plot(&mut self, frame: &mut [u8])
        requires
            forall|i: int| 0 <= i < old(self).swarm().len() ==> (#[trigger] old(self).swarm()[i]).pind + 4 <= usize::MAX,
        ensures
            *final(self) == *old(self),
            final(frame)@ == lazily_plotted(old(frame)@, old(self).swarm()),
    {
        let ghost start = frame@;
        let n = self.particles.len();
        let mut i: usize = 0;
        while i < n
            invariant
                forall|j: int| 0 <= j < self.swarm().len() ==> (#[trigger] self.swarm()[j]).pind + 4 <= usize::MAX,
                n == self.swarm().len(),
                i <= n,
                frame@ == lazily_plotted(start, self.swarm().take(i as int)),
            decreases n - i,
        {
            let p = &self.particles[i];
            assert(self.particles@[i as int].pind + 4 <= usize::MAX);
            let ind = p.pind;
            let (r, g, b) = p.color();
            proof {
                assert(self.swarm().take(i + 1).drop_last() =~= self.swarm().take(i as int));
            }
            if ind + 4 <= frame.len() {
                paint4(frame, ind, r, g, b, 0xff);
            }
            i = i + 1;
        }
        assert(self.swarm().take(n as int) =~= self.swarm());
    }

    /// Draws every particle, oldest last, at the pixel its position falls on now, when
    /// that pixel lies strictly inside the left and top edges of the frame.
    pub fn plot(&mut self, frame: &mut [u8])
        ensures
            *final(self) == *old(self),
            final(frame)@ == plotted(old(frame)@, old(self).swarm()),
    {
        let ghost start = frame@;
        let n = self.particles.len();
        let mut i: usize = 0;
        while i < n
            invariant
                n == self.swarm().len(),
                i <= n,
                frame@ == plotted(start, self.swarm().take(i as int)),
            decreases n - i,
        {
            let p = &self.particles[i];
            let x = particle::column_of(p.x);
            let y = particle::row_of(p.y);
            let (r, g, b) = p.color();
            proof {
                assert(self.swarm().take(i + 1).drop_last() =~= self.swarm().take(i as int));
            }
            if x > 0 && x < WIDTH as i32 && y > 0 && y < HEIGHT as i32 {
                let ind = 4 * (y * WIDTH as i32 + x) as usize;
                if ind + 4 <= frame.len() {
                    paint4(frame, ind, r, g, b, 0xff);
                }
            }
            i = i + 1;
        }
        assert(self.swarm().take(n as int) =~= self.swarm());
    }

    /// The particles, newest first.
    pub fn particles(&self) -> (ps: &VecDeque<Particle>)
        ensures
            ps@ == self.swarm(),
    {
        &self.particles
    }

    /// The number of frames updated so far.
    pub fn frame_count(&self) -> (f: u64)
        ensures
            f == self.frames(),
    {
        self.frame
    }

    /// Whether this frame is one on which the picture scrolls: every tenth.
    pub fn scroll_due(&self) -> (due: bool)
        ensures
            due == (self.frames() % 10 == 0),
    {
        self.frame % 10 == 0
    }

    /// The line buffer.
    pub fn line_buffer(&self) -> (b: &LineBuf)
        ensures
            *b == self.buffer(),
    {
        &self.lbuffer
    }

    /// Sets pixel (`x`, `y`) of the line buffer to the opaque colour (`r`, `g`, `b`).
    pub fn plot_pixel(&mut self, x: usize, y: usize, r: u8, g: u8, b: u8)
        requires
            old(self).wf(),
            x < WIDTH,
            y < HEIGHT,
        ensures
            final(self).wf(),
            final(self).buffer().rows() == old(self).buffer().rows().update(
                y as int,
                painted(old(self).buffer().rows()[y as int], 4 * x, seq![r, g, b, 0xffu8]),
            ),
            final(self).swarm() == old(self).swarm(),
            final(self).dead_pending() == old(self).dead_pending(),
            final(self).frames() == old(self).frames(),
    {
        self.lbuffer.plot_rgb_fast(x, y, r, g, b);
    }

    /// The number of particles.
    pub fn count(&self) -> (n: usize)
        ensures
            n == self.swarm().len(),
    {
        self.particles.len()
    }
}

} // verus!
