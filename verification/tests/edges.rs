use soft::world::{Edge, World};

type V = (i64, i64);

#[test]
fn add_edge_appends() {
    let mut world: World<V> = World::new();
    assert!(world.can_add_edge((0, 400), (280, 400)));
    assert_eq!(world.add_edge((0, 400), (280, 400)), Ok(()));
    assert_eq!(world.add_edge((400, 700), (680, 700)), Ok(()));
    assert_eq!(world.info(), (0, 0, 0, 2, 0));
    assert_eq!(world.edge(0), Edge::new((0, 400), (280, 400)));
    assert_eq!(world.edge(1).get_start(), (400, 700));
    assert_eq!(world.edge(1).get_end(), (680, 700));
}

#[test]
fn edge_without_length_is_refused() {
    for p in [(0i64, 0i64), (5, -3), (1920, 1080), (i64::MIN, i64::MAX)] {
        let mut world: World<V> = World::new();
        assert_eq!(world.add_edge((1, 1), (2, 2)), Ok(()));
        assert!(!world.can_add_edge(p, p));
        assert_eq!(world.add_edge(p, p), Err("cant add edge, length cannot be 0"));
        assert_eq!(world.info(), (0, 0, 0, 1, 0));
    }
}

#[test]
fn remove_edge_moves_the_later_ones_up() {
    let mut world: World<V> = World::new();
    assert_eq!(world.add_edge((0, 0), (1, 0)), Ok(()));
    assert_eq!(world.add_edge((0, 0), (2, 0)), Ok(()));
    assert_eq!(world.add_edge((0, 0), (3, 0)), Ok(()));
    world.remove_edge(1);
    assert_eq!(world.info().3, 2);
    assert_eq!(world.edge(0).get_end(), (1, 0));
    assert_eq!(world.edge(1).get_end(), (3, 0));
    world.remove_edge(0);
    world.remove_edge(0);
    assert_eq!(world.info().3, 0);
}

#[test]
fn dragging_one_end_keeps_the_other() {
    let mut world: World<V> = World::new();
    assert_eq!(world.add_edge((0, 0), (10, 0)), Ok(()));
    assert_eq!(world.add_edge((5, 5), (6, 6)), Ok(()));
    world.set_edge_start(0, (-4, 7));
    assert_eq!(world.edge(0), Edge::new((-4, 7), (10, 0)));
    world.set_edge_end(0, (20, 30));
    assert_eq!(world.edge(0), Edge::new((-4, 7), (20, 30)));
    assert_eq!(world.edge(1), Edge::new((5, 5), (6, 6)));
}

#[test]
fn edge_setters() {
    let mut edge: Edge<V> = Edge::new((1, 2), (3, 4));
    edge.set_start((9, 9));
    assert_eq!((edge.get_start(), edge.get_end()), ((9, 9), (3, 4)));
    edge.set_end((0, 0));
    assert_eq!((edge.get_start(), edge.get_end()), ((9, 9), (0, 0)));
}
