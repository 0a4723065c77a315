use soft::object::ObjectDescriptor;
use soft::spring::{Spring, SpringKind};
use soft::world::{Particle, World};

type V = (i64, i64);

fn at(x: i64, y: i64) -> impl Fn(usize, usize) -> Particle<V> {
    move |i, j| Particle::new((x + 21 * i as i64, y + 21 * j as i64), (0, 0))
}

fn springs_of(world: &World<V>) -> Vec<(usize, usize, SpringKind)> {
    let n = world.info().1;
    (0..n)
        .map(|k| {
            let s = world.spring(k);
            (s.a, s.b, s.kind)
        })
        .collect()
}

fn outline_of(world: &World<V>) -> Vec<usize> {
    let n = world.info().2;
    (0..n).map(|k| world.boundary(k)).collect()
}

fn positions_of(world: &World<V>) -> Vec<V> {
    let n = world.info().0;
    (0..n).map(|i| world.particle(i).pos).collect()
}

#[test]
fn new_world_is_empty() {
    let world: World<V> = World::new();
    assert_eq!(world.info(), (0, 0, 0, 0, 0));
    assert_eq!(world.pending(), 0);
}

#[test]
fn spawn_two_by_two() {
    let mut world: World<V> = World::new();
    assert_eq!(world.spawn_rect(2, 2, at(100, 200)), Ok(()));
    assert_eq!(world.info(), (4, 6, 4, 0, 1));
    assert_eq!(
        positions_of(&world),
        vec![(100, 200), (100, 221), (121, 200), (121, 221)]
    );
    assert_eq!(world.particle(0).vel, (0, 0));
    assert_eq!(world.particle(0).acc, (0, 0));
    assert_eq!(
        springs_of(&world),
        vec![
            (0, 2, SpringKind::Orthogonal),
            (0, 1, SpringKind::Orthogonal),
            (0, 3, SpringKind::Diagonal),
            (1, 3, SpringKind::Orthogonal),
            (2, 3, SpringKind::Orthogonal),
            (2, 1, SpringKind::Diagonal),
        ]
    );
    assert_eq!(outline_of(&world), vec![0, 2, 3, 1]);
    assert_eq!(world.object(0), ObjectDescriptor::new(0, 4, 0, 6, 0, 4));
}

#[test]
fn spawn_three_by_two_wires_every_neighbour() {
    let mut world: World<V> = World::new();
    assert_eq!(world.spawn_rect(3, 2, at(0, 0)), Ok(()));
    assert_eq!(
        springs_of(&world),
        vec![
            (0, 2, SpringKind::Orthogonal),
            (0, 1, SpringKind::Orthogonal),
            (0, 3, SpringKind::Diagonal),
            (1, 3, SpringKind::Orthogonal),
            (2, 4, SpringKind::Orthogonal),
            (2, 3, SpringKind::Orthogonal),
            (2, 5, SpringKind::Diagonal),
            (2, 1, SpringKind::Diagonal),
            (3, 5, SpringKind::Orthogonal),
            (4, 5, SpringKind::Orthogonal),
            (4, 3, SpringKind::Diagonal),
        ]
    );
}

#[test]
fn spawn_counts_follow_the_wiring_rule() {
    for (w, h) in [(2usize, 2usize), (2, 5), (5, 2), (3, 3), (4, 7), (10, 10)] {
        let mut world: World<V> = World::new();
        assert_eq!(world.spawn_rect(w, h, at(0, 0)), Ok(()));
        let springs = (w - 1) * h + w * (h - 1) + 2 * (w - 1) * (h - 1);
        assert_eq!(
            world.info(),
            (w * h, springs, 2 * w + 2 * h - 4, 0, 1),
            "{} by {}",
            w,
            h
        );
    }
}

#[test]
fn ten_by_ten_has_342_springs() {
    let mut world: World<V> = World::new();
    assert_eq!(world.spawn_rect(10, 10, at(0, 0)), Ok(()));
    assert_eq!(world.info(), (100, 342, 36, 0, 1));
}

#[test]
fn particles_are_stored_column_by_column() {
    let mut world: World<V> = World::new();
    assert_eq!(world.spawn_rect(3, 4, at(5, 7)), Ok(()));
    for i in 0..3 {
        for j in 0..4 {
            assert_eq!(
                world.particle(i * 4 + j).pos,
                (5 + 21 * i as i64, 7 + 21 * j as i64)
            );
        }
    }
}

#[test]
fn outline_walks_round_the_rim() {
    let mut world: World<V> = World::new();
    assert_eq!(world.spawn_rect(4, 3, at(0, 0)), Ok(()));
    assert_eq!(outline_of(&world), vec![0, 3, 6, 9, 10, 11, 8, 5, 2, 1]);
}

#[test]
fn outline_of_three_by_three_leaves_the_middle_out() {
    let mut world: World<V> = World::new();
    assert_eq!(world.spawn_rect(3, 3, at(0, 0)), Ok(()));
    assert_eq!(outline_of(&world), vec![0, 3, 6, 7, 8, 5, 2, 1]);
}

#[test]
fn outline_steps_to_a_neighbour_and_closes() {
    let (w, h) = (5usize, 4usize);
    let mut world: World<V> = World::new();
    assert_eq!(world.spawn_rect(w, h, at(0, 0)), Ok(()));
    let ring = outline_of(&world);
    let mut seen = vec![false; w * h];
    for t in 0..ring.len() {
        let (i, j) = ((ring[t] / h) as i64, (ring[t] % h) as i64);
        let next = ring[(t + 1) % ring.len()];
        let (i2, j2) = ((next / h) as i64, (next % h) as i64);
        assert_eq!((i - i2).abs() + (j - j2).abs(), 1);
        assert!(i == 0 || j == 0 || i == w as i64 - 1 || j == h as i64 - 1);
        assert!(!seen[ring[t]]);
        seen[ring[t]] = true;
    }
}

#[test]
fn second_body_follows_the_first() {
    let mut world: World<V> = World::new();
    assert_eq!(world.spawn_rect(2, 2, at(0, 0)), Ok(()));
    assert_eq!(world.spawn_rect(2, 3, at(500, 0)), Ok(()));
    assert_eq!(world.info(), (10, 17, 10, 0, 2));
    assert_eq!(world.object(1), ObjectDescriptor::new(4, 10, 6, 17, 4, 10));
    assert_eq!(world.spring(6), Spring::new(4, 7, SpringKind::Orthogonal));
    assert_eq!(
        outline_of(&world),
        vec![0, 2, 3, 1, 4, 7, 8, 9, 6, 5]
    );
    assert_eq!(world.particle(4).pos, (500, 0));
}

#[test]
fn too_small_a_body_is_refused() {
    for (w, h) in [(0usize, 0usize), (1, 1), (1, 5), (5, 1), (0, 7), (2, 1)] {
        let mut world: World<V> = World::new();
        assert_eq!(world.spawn_rect(2, 2, at(0, 0)), Ok(()));
        let before = world.info();
        assert!(!world.can_spawn_rect(w, h));
        assert_eq!(world.spawn_rect(w, h, at(0, 0)), Err((w, h)));
        assert_eq!(world.info(), before);
    }
}

#[test]
fn can_spawn_rect_needs_two_of_each() {
    let world: World<V> = World::new();
    assert!(world.can_spawn_rect(2, 2));
    assert!(world.can_spawn_rect(40, 3));
    assert!(!world.can_spawn_rect(1, 2));
    assert!(!world.can_spawn_rect(2, 1));
}

#[test]
fn remove_last_on_empty_world_changes_nothing() {
    let mut world: World<V> = World::new();
    world.remove_last();
    assert_eq!(world.info(), (0, 0, 0, 0, 0));
    world.remove_last();
    assert_eq!(world.info(), (0, 0, 0, 0, 0));
}

#[test]
fn remove_last_keeps_the_edges() {
    let mut world: World<V> = World::new();
    assert_eq!(world.add_edge((0, 0), (10, 0)), Ok(()));
    assert_eq!(world.spawn_rect(2, 2, at(0, 0)), Ok(()));
    world.remove_last();
    assert_eq!(world.info(), (0, 0, 0, 1, 0));
}

#[test]
fn last_in_first_out() {
    let mut world: World<V> = World::new();
    assert_eq!(world.spawn_rect(3, 2, at(10, 20)), Ok(()));
    let counts = world.info();
    let positions = positions_of(&world);
    let springs = springs_of(&world);
    let outline = outline_of(&world);
    assert_eq!(world.spawn_rect(4, 4, at(300, 20)), Ok(()));
    assert_eq!(world.info(), (6 + 16, 11 + 42, 6 + 12, 0, 2));
    world.remove_last();
    assert_eq!(world.info(), counts);
    assert_eq!(positions_of(&world), positions);
    assert_eq!(springs_of(&world), springs);
    assert_eq!(outline_of(&world), outline);
    world.remove_last();
    assert_eq!(world.info(), (0, 0, 0, 0, 0));
}

#[test]
fn clear_discards_bodies_only() {
    let mut world: World<V> = World::new();
    assert_eq!(world.add_edge((0, 0), (10, 0)), Ok(()));
    assert_eq!(world.spawn_rect(2, 2, at(0, 0)), Ok(()));
    assert_eq!(world.spawn_rect(3, 3, at(100, 0)), Ok(()));
    world.end_frame(700);
    world.clear();
    assert_eq!(world.info(), (0, 0, 0, 1, 0));
    assert_eq!(world.pending(), 700);
    assert_eq!(world.edge(0).get_end(), (10, 0));
}

#[test]
fn polygon_lists_the_rim_positions() {
    let mut world: World<V> = World::new();
    assert_eq!(world.spawn_rect(2, 2, at(0, 0)), Ok(()));
    assert_eq!(world.spawn_rect(2, 2, at(100, 50)), Ok(()));
    assert_eq!(world.polygon(0), vec![(0, 0), (21, 0), (21, 21), (0, 21)]);
    assert_eq!(
        world.polygon(1),
        vec![(100, 50), (121, 50), (121, 71), (100, 71)]
    );
}

#[test]
fn set_particle_replaces_one_particle() {
    let mut world: World<V> = World::new();
    assert_eq!(world.spawn_rect(2, 2, at(0, 0)), Ok(()));
    let mut p = world.particle(2);
    p.vel = (3, 4);
    world.set_particle(2, p);
    assert_eq!(world.particle(2).vel, (3, 4));
    assert_eq!(world.particle(2).pos, (21, 0));
    assert_eq!(world.particle(1).vel, (0, 0));
    assert_eq!(world.info(), (4, 6, 4, 0, 1));
}
