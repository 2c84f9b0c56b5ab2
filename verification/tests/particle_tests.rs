use rusty_pixels::world::particle::{Particle, ParticleDraw, LIFE, TREE_H};
use rusty_pixels::{HEIGHT, WIDTH};

fn still() -> ParticleDraw {
    ParticleDraw { vx: 0, vy: 0, fork: false, fork_vx: 0, fork_vy: 0 }
}

#[test]
fn spawn_at_places_particle_on_its_pixel() {
    let p = Particle::spawn_at(100, 50, 7, 9, 200);
    assert_eq!(p.x, 3200);
    assert_eq!(p.y, 1600);
    assert_eq!(p.z, 1);
    assert_eq!((p.vx, p.vy, p.vz), (0, 0, 1));
    assert_eq!((p.px, p.py), (100, 50));
    assert_eq!(p.pind, 50 * WIDTH * 4 + 4 * 100);
    assert_eq!((p.r, p.g, p.b), (7, 9, 200));
    assert_eq!(p.life, LIFE);
}

#[test]
fn new_random_stays_in_range() {
    for _ in 0..200 {
        let p = Particle::new_random(200);
        assert!(p.px < WIDTH && p.py < HEIGHT);
        assert!(p.r < 200 && p.g < 200);
        assert_eq!(p.b, 200);
        assert_eq!(p, Particle::spawn_at(p.px, p.py, p.r, p.g, 200));
    }
}

#[test]
fn new_random_brightness_one_gives_black_red_and_green() {
    let p = Particle::new_random(1);
    assert_eq!((p.r, p.g, p.b), (0, 0, 1));
}

#[test]
fn fork_halves_life_and_climbs() {
    let p = Particle::spawn_at(10, 10, 1, 2, 200);
    let c = p.fork();
    assert_eq!(c.life, LIFE / 2);
    assert_eq!(c.z, 2);
    assert_eq!((c.x, c.y, c.r, c.g, c.b), (p.x, p.y, p.r, p.g, p.b));
    let mut weak = p;
    weak.life = 50;
    let c2 = weak.fork();
    assert_eq!(c2.life, 49);
}

#[test]
fn advance_moves_climbs_and_projects() {
    let mut p = Particle::spawn_at(100, 50, 7, 9, 200);
    let d = ParticleDraw { vx: 8, vy: -9, fork: false, fork_vx: 0, fork_vy: 0 };
    let (child, died) = p.advance(&d);
    assert!(child.is_none());
    assert!(!died);
    assert_eq!(p.x, 3200);
    assert_eq!(p.y, 1603);
    assert_eq!(p.z, 1 + TREE_H / 11);
    assert_eq!((p.px, p.py), (100, 51));
    assert_eq!(p.pind, 51 * WIDTH * 4 + 4 * 100);
    // velocities are the draws divided by 4, rounded toward zero
    assert_eq!((p.vx, p.vy), (2, -2));
    assert_eq!(p.life, LIFE - 1);
}

#[test]
fn advance_forks_with_drawn_velocity() {
    let mut p = Particle::spawn_at(300, 200, 1, 2, 200);
    let d = ParticleDraw { vx: 4, vy: 4, fork: true, fork_vx: -7, fork_vy: 13 };
    let (child, died) = p.advance(&d);
    assert!(!died);
    let c = child.expect("a fork");
    assert_eq!(c.life, LIFE / 2);
    assert_eq!(c.z, p.z + 1);
    assert_eq!((c.vx, c.vy), (-7, 13));
    assert_eq!((c.x, c.y, c.px, c.py, c.pind), (p.x, p.y, p.px, p.py, p.pind));
    assert_eq!(p.life, LIFE - 1);
}

#[test]
fn advance_kills_a_particle_that_leaves_the_frame() {
    let mut p = Particle::spawn_at(0, 100, 1, 2, 200);
    p.vx = -40;
    let (child, died) = p.advance(&still());
    assert!(child.is_none());
    assert!(died);
    assert_eq!(p.life, -1);
    assert_eq!((p.vx, p.vy), (0, 0));
    assert_eq!(p.x, -40);
    // the recorded pixel is the last one inside the frame
    assert_eq!((p.px, p.py), (0, 100));
}

#[test]
fn advance_wraps_positions() {
    let mut p = Particle::spawn_at(639, 10, 1, 2, 200);
    p.x = 20470;
    p.vx = 20;
    let _ = p.advance(&still());
    assert_eq!(p.x, 10);
}

#[test]
fn lifeless_particle_stays_lifeless() {
    let mut p = Particle::spawn_at(5, 5, 1, 2, 200);
    p.life = 0;
    let (_, died) = p.advance(&still());
    assert!(died);
    assert_eq!(p.life, -1);
    let (child, died_again) = p.advance(&ParticleDraw { vx: 100, vy: 100, fork: true, fork_vx: 1, fork_vy: 1 });
    assert!(child.is_none());
    assert!(!died_again);
    assert_eq!(p.life, -1);
    assert_eq!((p.vx, p.vy), (0, 0));
}

#[test]
fn climbing_stops_at_resting_depth() {
    let mut p = Particle::spawn_at(5, 5, 1, 2, 200);
    for _ in 0..300 {
        let _ = p.advance(&still());
    }
    assert_eq!(p.z, TREE_H - 9);
}

#[test]
fn color_shades_by_life() {
    let mut p = Particle::spawn_at(5, 5, 30, 100, 200);
    assert_eq!(p.color(), (30, 150, 200));
    p.life = 1;
    assert_eq!(p.color(), (30, 50, 1));
    p.life = 0;
    assert_eq!(p.color(), (30, 50, 0));
    p.life = -1;
    assert_eq!(p.color(), (30, 50, 0));
    p.life = 150;
    p.g = 255;
    assert_eq!(p.color(), (30, 127 + 75, 150));
}

#[test]
fn fork_odds_are_the_depth_after_the_climb() {
    let mut p = Particle::spawn_at(5, 5, 1, 2, 200);
    assert_eq!(p.fork_odds(), (1 + TREE_H / 11) as u32);
    p.life = 100;
    p.z = 300;
    assert_eq!(p.fork_odds(), 300);
    p.z = TREE_H - 9;
    assert_eq!(p.fork_odds(), (TREE_H - 9) as u32);
}

#[test]
fn color_out_of_the_usual_life_range() {
    let mut p = Particle::spawn_at(5, 5, 30, 100, 200);
    p.life = 1000;
    assert_eq!(p.color(), (30, 255, 255));
    p.life = -7;
    assert_eq!(p.color(), (30, 50u8.saturating_add((-3i32) as u8), 0));
}

#[test]
fn new_random_spreads_over_the_frame() {
    let ps: Vec<Particle> = (0..100).map(|_| Particle::new_random(200)).collect();
    assert!(ps.iter().any(|p| p.px != ps[0].px));
    assert!(ps.iter().any(|p| p.py != ps[0].py));
    assert!(ps.iter().any(|p| p.r != ps[0].r));
}

#[test]
fn glide_far_outside_the_frame() {
    let mut p = Particle::spawn_at(5, 5, 1, 2, 200);
    p.x = 1_000_000_000;
    p.vx = 100;
    p.glide();
    assert_eq!(p.x, 1_000_000_100);
    assert_eq!(p.life, 0);
    assert_eq!((p.px, p.py), (5, 5));
}
