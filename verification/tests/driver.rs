use soft::spring::SpringKind;
use soft::world::{Edge, Particle, World, STEP_MICROS};
use std::cell::RefCell;

type P = Particle<i64>;

fn row(x: i64) -> impl Fn(usize, usize) -> P {
    move |i, j| Particle::new(x + 20 * i as i64 + 5 * j as i64, 0)
}

fn cell(p: P) -> (usize, usize) {
    ((p.pos / 10) as usize, 0)
}

fn spring(_kind: SpringKind, a: P, b: P) -> Result<(P, P), i64> {
    let stretch = (b.pos - a.pos).abs();
    if stretch > 100 {
        return Err(stretch);
    }
    Ok((Particle { acc: a.acc + 1, ..a }, Particle { acc: b.acc - 1, ..b }))
}

fn collide(a: P, b: P) -> (P, P) {
    (Particle { vel: a.vel + 1, ..a }, Particle { vel: b.vel + 1, ..b })
}

fn advance(p: P) -> P {
    Particle { pos: p.pos + 1000, vel: p.vel, acc: 0 }
}

fn contact(_edge: Edge<i64>, p: P) -> P {
    Particle { acc: p.acc + 7, ..p }
}

fn run(world: &mut World<i64>) -> Result<(), i64> {
    world.update(&cell, &spring, &collide, &advance, &contact)
}

#[test]
fn step_length() {
    assert_eq!(STEP_MICROS, 1250);
}

#[test]
fn update_without_time_does_nothing() {
    let mut world: World<i64> = World::new();
    assert_eq!(world.spawn_rect(2, 2, row(0)), Ok(()));
    world.end_frame(1249);
    assert_eq!(run(&mut world), Ok(()));
    assert_eq!(world.pending(), 1249);
    assert_eq!(world.particle(0), Particle::new(0, 0));
    assert_eq!(world.particle(3), Particle::new(25, 0));
}

#[test]
fn update_runs_every_whole_step() {
    let mut world: World<i64> = World::new();
    assert_eq!(world.spawn_rect(2, 2, row(0)), Ok(()));
    world.end_frame(16_000);
    assert_eq!(run(&mut world), Ok(()));
    assert_eq!(world.pending(), 16_000 - 12 * 1250);
    for i in 0..4 {
        assert_eq!(world.particle(i).pos, world.particle(0).pos + [0, 5, 20, 25][i]);
    }
    assert_eq!(world.particle(0).pos, 12_000);
}

#[test]
fn time_adds_up_over_frames() {
    let mut world: World<i64> = World::new();
    assert_eq!(world.spawn_rect(2, 2, row(0)), Ok(()));
    world.end_frame(1000);
    assert_eq!(run(&mut world), Ok(()));
    assert_eq!((world.pending(), world.particle(0).pos), (1000, 0));
    world.end_frame(1000);
    assert_eq!(run(&mut world), Ok(()));
    assert_eq!((world.pending(), world.particle(0).pos), (750, 1000));
    world.end_frame(500);
    assert_eq!(run(&mut world), Ok(()));
    assert_eq!((world.pending(), world.particle(0).pos), (0, 2000));
}

#[test]
fn one_step_applies_the_kernels_in_order() {
    let mut world: World<i64> = World::new();
    assert_eq!(world.add_edge(1, 2), Ok(()));
    assert_eq!(world.add_edge(3, 4), Ok(()));
    // Particles at 0, 5, 20, 25: the cells 0, 0, 2, 2.
    assert_eq!(world.spawn_rect(2, 2, row(0)), Ok(()));
    let trace: RefCell<Vec<String>> = RefCell::new(Vec::new());
    let r: Result<(), i64> = world.step(
        &|p: P| {
            trace.borrow_mut().push(format!("cell {}", p.pos));
            cell(p)
        },
        &|kind, a: P, b: P| {
            trace.borrow_mut().push(format!("spring {} {}", a.pos, b.pos));
            spring(kind, a, b)
        },
        &|a: P, b: P| {
            trace.borrow_mut().push(format!("collide {} {}", a.pos, b.pos));
            collide(a, b)
        },
        &|p: P| {
            trace.borrow_mut().push(format!("advance {}", p.pos));
            advance(p)
        },
        &|e: Edge<i64>, p: P| {
            trace.borrow_mut().push(format!("contact {} {}", e.get_start(), p.pos));
            contact(e, p)
        },
    );
    assert_eq!(r, Ok(()));
    let expected = [
        "cell 0",
        "cell 5",
        "cell 20",
        "cell 25",
        "spring 0 20",
        "spring 0 5",
        "spring 0 25",
        "spring 5 25",
        "spring 20 25",
        "spring 20 5",
        "cell 0",
        "collide 0 5",
        "advance 0",
        "cell 5",
        "collide 5 1000",
        "advance 5",
        "cell 20",
        "collide 20 25",
        "advance 20",
        "cell 25",
        "collide 25 1020",
        "advance 25",
        "contact 1 1000",
        "contact 3 1000",
        "contact 1 1020",
        "contact 3 1020",
        "contact 1 1025",
        "contact 3 1025",
        "contact 1 1005",
        "contact 3 1005",
    ];
    assert_eq!(*trace.borrow(), expected);
    assert_eq!(world.pending(), 0);
}

#[test]
fn one_step_leaves_these_particles() {
    let mut world: World<i64> = World::new();
    assert_eq!(world.add_edge(1, 2), Ok(()));
    assert_eq!(world.spawn_rect(2, 2, row(0)), Ok(()));
    assert_eq!(world.step(&cell, &spring, &collide, &advance, &contact), Ok(()));
    // Every particle meets its one cell mate twice, once in each turn.
    assert_eq!(world.particle(0), Particle { pos: 1000, vel: 2, acc: 7 });
    assert_eq!(world.particle(1), Particle { pos: 1005, vel: 2, acc: 7 });
    assert_eq!(world.particle(2), Particle { pos: 1020, vel: 2, acc: 7 });
    assert_eq!(world.particle(3), Particle { pos: 1025, vel: 2, acc: 7 });
}

#[test]
fn inner_particles_do_not_meet_the_edges() {
    let mut world: World<i64> = World::new();
    assert_eq!(world.add_edge(1, 2), Ok(()));
    assert_eq!(
        world.spawn_rect(3, 3, |i, j| Particle::new(1000 * (3 * i + j) as i64, 0)),
        Ok(())
    );
    let quiet = |_k: SpringKind, a: P, b: P| -> Result<(P, P), i64> { Ok((a, b)) };
    assert_eq!(world.step(&cell, &quiet, &collide, &advance, &contact), Ok(()));
    for i in 0..9 {
        assert_eq!(world.particle(i).acc, if i == 4 { 0 } else { 7 });
    }
}

#[test]
fn overstretch_stops_the_update() {
    let mut world: World<i64> = World::new();
    assert_eq!(world.spawn_rect(2, 2, row(0)), Ok(()));
    let mut far = world.particle(3);
    far.pos = 400;
    world.set_particle(3, far);
    world.end_frame(5000);
    // Springs 0 and 1 act, spring 2 ties particle 0 to particle 3.
    assert_eq!(run(&mut world), Err(400));
    assert_eq!(world.pending(), 5000);
    assert_eq!(world.particle(0), Particle { pos: 0, vel: 0, acc: 2 });
    assert_eq!(world.particle(1), Particle { pos: 5, vel: 0, acc: -1 });
    assert_eq!(world.particle(2), Particle { pos: 20, vel: 0, acc: -1 });
    assert_eq!(world.particle(3), Particle { pos: 400, vel: 0, acc: 0 });
    assert_eq!(world.info(), (4, 6, 4, 0, 1));
}

#[test]
fn overstretch_in_a_later_step_keeps_the_steps_before() {
    let mut world: World<i64> = World::new();
    assert_eq!(world.spawn_rect(2, 2, row(0)), Ok(()));
    world.end_frame(3 * 1250 + 10);
    // Particle 3 runs away by 40 in every step: 25, 65, 105 from particle 0.
    let runaway = |p: P| -> P {
        Particle { pos: p.pos + if p.vel == 9 { 40 } else { 0 }, ..p }
    };
    let mut p = world.particle(3);
    p.vel = 9;
    world.set_particle(3, p);
    let still = |a: P, b: P| -> (P, P) { (a, b) };
    assert_eq!(world.update(&cell, &spring, &still, &runaway, &contact), Err(105));
    assert_eq!(world.pending(), 1250 + 10);
    assert_eq!(world.particle(3).pos, 105);
}

#[test]
fn the_world_can_go_on_after_a_reset() {
    let mut world: World<i64> = World::new();
    assert_eq!(world.add_edge(1, 2), Ok(()));
    assert_eq!(world.spawn_rect(2, 2, |i, j| Particle::new(500 * (2 * i + j) as i64, 0)), Ok(()));
    world.end_frame(1250);
    assert_eq!(run(&mut world), Err(1000));
    world.clear();
    assert_eq!(world.info(), (0, 0, 0, 1, 0));
    assert_eq!(world.spawn_rect(2, 2, row(0)), Ok(()));
    assert_eq!(run(&mut world), Ok(()));
    assert_eq!(world.pending(), 0);
    assert_eq!(world.particle(0), Particle { pos: 1000, vel: 2, acc: 7 });
}

#[test]
fn equal_worlds_stay_equal() {
    let mut a: World<i64> = World::new();
    let mut b: World<i64> = World::new();
    for world in [&mut a, &mut b] {
        assert_eq!(world.add_edge(1, 2), Ok(()));
        assert_eq!(world.spawn_rect(3, 2, row(0)), Ok(()));
        assert_eq!(world.spawn_rect(2, 2, row(30)), Ok(()));
        world.end_frame(4000);
    }
    assert_eq!(run(&mut a), run(&mut b));
    assert_eq!(a.info(), b.info());
    for i in 0..a.info().0 {
        assert_eq!(a.particle(i), b.particle(i));
    }
    assert_eq!(a.pending(), b.pending());
}
