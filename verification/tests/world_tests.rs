use rusty_pixels::world::linebuf::{LineBuf, LINE_BYTES};
use rusty_pixels::world::particle::{Particle, ParticleDraw, LIFE, TREE_H};
use rusty_pixels::world::{World, BRIGHTNESS};
use rusty_pixels::{HEIGHT, WIDTH};

fn frame_size() -> usize {
    LINE_BYTES * HEIGHT
}

fn pattern_frame() -> Vec<u8> {
    (0..frame_size()).map(|i| (i % 253) as u8).collect()
}

fn draws(n: usize, fork: bool) -> Vec<ParticleDraw> {
    (0..n).map(|_| ParticleDraw { vx: 0, vy: 0, fork, fork_vx: 1, fork_vy: -1 }).collect()
}

#[test]
fn new_world_is_empty() {
    let w = World::new();
    assert_eq!(w.count(), 0);
    assert_eq!(w.frame_count(), 0);
    assert!(w.scroll_due());
}

#[test]
fn emit_particles_adds_fresh_particles_in_front() {
    let mut w = World::new();
    w.emit_particles(3);
    let first: Vec<Particle> = w.particles().iter().copied().collect();
    w.emit_particles(5);
    assert_eq!(w.count(), 8);
    let all: Vec<Particle> = w.particles().iter().copied().collect();
    assert_eq!(&all[5..], &first[..]);
    for p in &all {
        assert_eq!(p.life, LIFE);
        assert_eq!(p.z, 1);
        assert_eq!(p.b, BRIGHTNESS);
        assert!(p.r < BRIGHTNESS && p.g < BRIGHTNESS);
        assert!(p.px < WIDTH && p.py < HEIGHT);
    }
}

#[test]
fn step_without_forks_keeps_count() {
    let mut w = World::new();
    w.emit_particles(4);
    let before: Vec<Particle> = w.particles().iter().copied().collect();
    w.step(&draws(4, false));
    assert_eq!(w.count(), 4);
    for (p, q) in before.iter().zip(w.particles().iter()) {
        let mut expected = *p;
        let _ = expected.advance(&ParticleDraw { vx: 0, vy: 0, fork: false, fork_vx: 1, fork_vy: -1 });
        assert_eq!(*q, expected);
        assert_eq!(q.life, LIFE - 1);
    }
}

#[test]
fn step_with_forks_puts_forks_in_front_newest_first() {
    let mut w = World::new();
    w.emit_particles(3);
    let before: Vec<Particle> = w.particles().iter().copied().collect();
    w.step(&draws(3, true));
    assert!(w.count() >= 6);
    let after: Vec<Particle> = w.particles().iter().copied().collect();
    // the fork of the last particle is in front
    for k in 0..3 {
        let fork = after[2 - k];
        let parent = after[3 + k];
        assert_eq!((fork.x, fork.y), (parent.x, parent.y));
        assert_eq!(fork.life, LIFE / 2);
        assert_eq!(fork.z, parent.z + 1);
        assert_eq!((fork.vx, fork.vy), (1, -1));
        assert_eq!(parent.px, before[k].px);
        assert!(parent.py == before[k].py || parent.py == before[k].py + 1);
    }
}

#[test]
fn update_counts_frames_and_emits() {
    let mut w = World::new();
    for f in 1..=25u64 {
        let before = w.count();
        w.update();
        assert_eq!(w.frame_count(), f);
        assert!(w.count() >= 2);
        if f % 10 != 0 {
            assert!(w.count() >= before + 2);
        }
    }
    assert!(!w.scroll_due());
}

#[test]
fn update_keeps_every_particle_sane() {
    let mut w = World::new();
    for _ in 0..300 {
        w.update();
    }
    for p in w.particles().iter() {
        assert!(-1 <= p.life && p.life <= LIFE);
        assert!(p.px < WIDTH && p.py < HEIGHT);
        assert_eq!(p.pind, 4 * WIDTH * p.py + 4 * p.px);
        assert!(p.z >= 1);
        assert!(p.z + p.life.max(0) <= TREE_H - 9 + LIFE);
    }
}

#[test]
fn decay_fades_the_frame() {
    let mut frame = vec![0u8, 1, 2, 255];
    World::decay(&mut frame);
    assert_eq!(frame, vec![0, 0, 1, 254]);
}

#[test]
fn frame_scroll_down_one_row() {
    let frame = pattern_frame();
    let mut f = frame.clone();
    World::scroll(&mut f, 0, 1);
    assert_eq!(&f[LINE_BYTES..], &frame[..frame_size() - LINE_BYTES]);
    assert_eq!(&f[..LINE_BYTES], &frame[frame_size() - LINE_BYTES..]);
}

#[test]
fn frame_scroll_then_reverse_restores() {
    let frame = pattern_frame();
    let mut f = frame.clone();
    World::scroll(&mut f, -33, 12);
    assert_ne!(f, frame);
    World::scroll(&mut f, 33, -12);
    assert_eq!(f, frame);
}

#[test]
fn frame_scroll_keeps_partial_row_out_of_turning() {
    let mut f: Vec<u8> = (0..LINE_BYTES + 8).map(|i| (i % 200) as u8).collect();
    let orig = f.clone();
    World::scroll(&mut f, 1, 0);
    assert_eq!(&f[..LINE_BYTES - 4], &orig[4..LINE_BYTES]);
    assert_eq!(&f[LINE_BYTES - 4..LINE_BYTES], &orig[..4]);
    assert_eq!(&f[LINE_BYTES..], &orig[LINE_BYTES..]);
}

#[test]
fn buffer_and_frame_scroll_alike() {
    let frame = pattern_frame();
    for (x, y) in [(0, 1), (3, -7), (-(WIDTH as i32), 5), (11, HEIGHT as i32), (0, 0)] {
        let mut f = frame.clone();
        World::scroll(&mut f, x, y);
        let mut buf = LineBuf::default();
        buf.from_frame(&frame);
        buf.scroll(x, y);
        let mut g = vec![0u8; frame_size()];
        buf.copy_to_frame(&mut g);
        assert_eq!(f, g);
    }
}

#[test]
fn buffer_and_frame_fade_alike() {
    let mut w = World::new();
    let mut frame = vec![0u8; frame_size()];
    for (x, y, r, g, b) in [(0, 0, 1, 2, 3), (WIDTH - 1, 7, 0, 200, 9), (13, HEIGHT - 1, 255, 1, 0)] {
        w.plot_pixel(x, y, r, g, b);
        let at = 4 * (y * WIDTH + x);
        frame[at..at + 4].copy_from_slice(&[r, g, b, 255]);
    }
    w.decay2();
    let mut f = frame.clone();
    World::decay(&mut f);
    let mut g = vec![0u8; frame_size()];
    w.line_buffer().copy_to_frame(&mut g);
    assert_eq!(f, g);
}

#[test]
fn scroll2_scrolls_the_buffer() {
    let mut w = World::new();
    w.plot_pixel(0, 0, 1, 2, 3);
    w.scroll2(0, 1);
    let mut g = vec![0u8; frame_size()];
    w.line_buffer().copy_to_frame(&mut g);
    assert_eq!(&g[LINE_BYTES..LINE_BYTES + 4], &[1, 2, 3, 255]);
}

#[test]
fn lazy_plot_draws_oldest_on_top() {
    let mut w = World::new();
    w.emit_particles(40);
    let mut frame = vec![0u8; frame_size()];
    w.lazy_plot(&mut frame);
    let ps: Vec<Particle> = w.particles().iter().copied().collect();
    let oldest = ps[ps.len() - 1];
    let (r, g, b) = oldest.color();
    assert_eq!(&frame[oldest.pind..oldest.pind + 4], &[r, g, b, 255]);
    for p in &ps {
        assert_eq!(frame[p.pind + 3], 255);
    }
    let painted = frame.chunks(4).filter(|c| c[3] == 255).count();
    assert!(painted <= ps.len());
}

#[test]
fn lazy_plot_skips_pixels_past_a_short_frame() {
    let mut w = World::new();
    w.emit_particles(10);
    let mut frame = vec![0u8; 4];
    w.lazy_plot(&mut frame);
    let at_origin = w.particles().iter().rev().find(|p| p.pind == 0);
    match at_origin {
        Some(p) => {
            let (r, g, b) = p.color();
            assert_eq!(frame, vec![r, g, b, 255]);
        }
        None => assert_eq!(frame, vec![0, 0, 0, 0]),
    }
}

#[test]
fn plot_draws_at_current_position_inside_edges() {
    let mut w = World::new();
    w.emit_particles(30);
    let mut frame = vec![0u8; frame_size()];
    w.plot(&mut frame);
    let ps: Vec<Particle> = w.particles().iter().copied().collect();
    let oldest = ps[ps.len() - 1];
    if oldest.px > 0 && oldest.py > 0 {
        let (r, g, b) = oldest.color();
        assert_eq!(&frame[oldest.pind..oldest.pind + 4], &[r, g, b, 255]);
    }
    for p in &ps {
        if p.px == 0 || p.py == 0 {
            continue;
        }
        assert_eq!(frame[p.pind + 3], 255);
    }
    for y in 0..HEIGHT {
        let at = y * LINE_BYTES;
        assert_eq!(frame[at + 3], 0);
    }
}

#[test]
fn move_particles_applies_velocity_without_wrapping() {
    let mut w = World::new();
    w.emit_particles(3);
    let before: Vec<Particle> = w.particles().iter().copied().collect();
    w.move_particles();
    for (p, q) in before.iter().zip(w.particles().iter()) {
        assert_eq!(q.x, p.x);
        assert_eq!(q.y, p.y + 3);
        assert_eq!(q.z, 1 + 255 / 11);
    }
}

#[test]
fn particles_die_and_are_cleared() {
    let mut w = World::new();
    w.emit_particles(2);
    let n = 210;
    for _ in 0..n {
        let k = w.count();
        w.step(&draws(k, false));
    }
    assert!(w.particles().iter().all(|p| p.life == -1));
    assert_eq!(w.count(), 2);
    // the next update happens on frame 1; clean-up waits for frame 10
    for _ in 0..10 {
        w.update();
    }
    assert!(w.particles().iter().all(|p| p.life >= -1));
    assert!(w.count() >= 2);
}

#[test]
fn frame_scroll_of_less_than_a_row_only_turns_vertically() {
    let mut f: Vec<u8> = (0..10).collect();
    World::scroll(&mut f, 100_000, 0);
    assert_eq!(f, (0..10).collect::<Vec<u8>>());
}

#[test]
fn frame_of_three_rows_scrolls_back() {
    let frame: Vec<u8> = (0..3 * LINE_BYTES).map(|i| (i * 7 % 251) as u8).collect();
    let mut f = frame.clone();
    World::scroll(&mut f, 5, -2);
    assert_ne!(f, frame);
    World::scroll(&mut f, -5, 2);
    assert_eq!(f, frame);
    World::scroll(&mut f, 0, 3);
    assert_eq!(f, frame);
}

#[test]
fn moved_world_can_still_be_drawn_and_updated() {
    let mut w = World::new();
    w.emit_particles(4);
    for _ in 0..1000 {
        w.move_particles();
    }
    let mut frame = vec![0u8; frame_size()];
    w.plot(&mut frame);
    w.lazy_plot(&mut frame);
    w.update();
    assert!(w.count() >= 6);
    for p in w.particles().iter() {
        assert!(p.x.abs() < 32 * WIDTH as i32 && p.y.abs() < 32 * HEIGHT as i32);
    }
}
