use soft::object::ObjectDescriptor;
use soft::spring::{Spring, SpringKind};
use soft::world::{Edge, Particle, World};

type V = (i64, i64);

struct Parts {
    particles: Vec<Particle<V>>,
    springs: Vec<Spring>,
    boundaries: Vec<usize>,
    objects: Vec<ObjectDescriptor>,
    edges: Vec<Edge<V>>,
    pending: u64,
}

fn take(world: &World<V>) -> Parts {
    let (p, s, b, e, o) = world.info();
    Parts {
        particles: (0..p).map(|i| world.particle(i)).collect(),
        springs: (0..s).map(|i| world.spring(i)).collect(),
        boundaries: (0..b).map(|i| world.boundary(i)).collect(),
        objects: (0..o).map(|i| world.object(i)).collect(),
        edges: (0..e).map(|i| world.edge(i)).collect(),
        pending: world.pending(),
    }
}

fn make(parts: Parts) -> Option<World<V>> {
    World::from_parts(
        parts.particles,
        parts.springs,
        parts.boundaries,
        parts.objects,
        parts.edges,
        parts.pending,
    )
}

fn sample() -> World<V> {
    let mut world: World<V> = World::new();
    assert_eq!(world.add_edge((0, 0), (9, 9)), Ok(()));
    assert_eq!(world.spawn_rect(2, 2, |i, j| Particle::new((i as i64, j as i64), (0, 0))), Ok(()));
    assert_eq!(world.spawn_rect(3, 2, |i, j| Particle::new((i as i64, j as i64), (0, 0))), Ok(()));
    world.end_frame(777);
    world
}

#[test]
fn a_world_comes_back_from_its_parts() {
    let world = sample();
    let back = make(take(&world)).expect("the parts of a world fit");
    assert_eq!(back.info(), world.info());
    assert_eq!(back.pending(), 777);
    assert_eq!(back.particle(7), world.particle(7));
    assert_eq!(back.spring(16), world.spring(16));
    assert_eq!(back.object(1), ObjectDescriptor::new(4, 10, 6, 17, 4, 10));
    assert_eq!(back.edge(0), Edge::new((0, 0), (9, 9)));
}

#[test]
fn the_empty_world_comes_back() {
    let back = make(take(&World::new())).expect("nothing fits nothing");
    assert_eq!(back.info(), (0, 0, 0, 0, 0));
}

#[test]
fn edges_need_no_body() {
    let mut parts = take(&World::new());
    parts.edges.push(Edge::new((1, 1), (2, 2)));
    assert_eq!(make(parts).expect("edges alone fit").info(), (0, 0, 0, 1, 0));
}

#[test]
fn particles_without_a_body_are_refused() {
    let mut parts = take(&World::new());
    parts.particles.push(Particle::new((0, 0), (0, 0)));
    assert!(make(parts).is_none());
}

#[test]
fn a_spring_past_the_particles_is_refused() {
    let mut parts = take(&sample());
    parts.springs[16] = Spring::new(9, 10, SpringKind::Orthogonal);
    assert!(make(parts).is_none());
}

#[test]
fn a_spring_into_a_later_body_is_refused() {
    let mut parts = take(&sample());
    parts.springs[0] = Spring::new(0, 4, SpringKind::Orthogonal);
    assert!(make(parts).is_none());
}

#[test]
fn a_spring_into_an_earlier_body_is_taken() {
    let mut parts = take(&sample());
    parts.springs[16] = Spring::new(9, 0, SpringKind::Orthogonal);
    assert!(make(parts).is_some());
}

#[test]
fn a_spring_at_one_particle_twice_is_refused() {
    let mut parts = take(&sample());
    parts.springs[3] = Spring::new(2, 2, SpringKind::Diagonal);
    assert!(make(parts).is_none());
}

#[test]
fn an_outline_entry_past_the_body_is_refused() {
    let mut parts = take(&sample());
    parts.boundaries[1] = 4;
    assert!(make(parts).is_none());
}

#[test]
fn a_gap_between_bodies_is_refused() {
    let mut parts = take(&sample());
    parts.objects[1] = ObjectDescriptor::new(5, 10, 6, 17, 4, 10);
    assert!(make(parts).is_none());
}

#[test]
fn a_body_that_ends_before_it_starts_is_refused() {
    let mut parts = take(&sample());
    parts.objects[0] = ObjectDescriptor::new(0, 4, 0, 6, 0, 4);
    parts.objects[1] = ObjectDescriptor::new(4, 3, 6, 17, 4, 10);
    assert!(make(parts).is_none());
}

#[test]
fn a_store_longer_than_its_bodies_is_refused() {
    let mut parts = take(&sample());
    parts.boundaries.push(0);
    assert!(make(parts).is_none());
    let mut parts = take(&sample());
    parts.objects.pop();
    assert!(make(parts).is_none());
}
