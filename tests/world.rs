use gameoflife::world::{mutate, neighboors, CellState, Coord, Coords, InterestingCells, Window, World};

#[test]
fn cell_stays_dead() {
    assert_eq!(mutate(CellState::Dead, 0), CellState::Dead);
    assert_eq!(mutate(CellState::Dead, 1), CellState::Dead);
    assert_eq!(mutate(CellState::Dead, 2), CellState::Dead);
    assert_eq!(mutate(CellState::Dead, 4), CellState::Dead);
    assert_eq!(mutate(CellState::Dead, 5), CellState::Dead);
    assert_eq!(mutate(CellState::Dead, 6), CellState::Dead);
    assert_eq!(mutate(CellState::Dead, 7), CellState::Dead);
    assert_eq!(mutate(CellState::Dead, 8), CellState::Dead);
}

#[test]
fn dead_cell_with_3_neighboord_lives() {
    assert_eq!(mutate(CellState::Dead, 3), CellState::Alive);
}

#[test]
fn live_cell_dies() {
    assert_eq!(mutate(CellState::Alive, 0), CellState::Dead);
    assert_eq!(mutate(CellState::Alive, 1), CellState::Dead);
    assert_eq!(mutate(CellState::Alive, 4), CellState::Dead);
    assert_eq!(mutate(CellState::Alive, 5), CellState::Dead);
    assert_eq!(mutate(CellState::Alive, 6), CellState::Dead);
    assert_eq!(mutate(CellState::Alive, 7), CellState::Dead);
    assert_eq!(mutate(CellState::Alive, 8), CellState::Dead);
}

#[test]
fn live_cell_lives() {
    assert_eq!(mutate(CellState::Alive, 2), CellState::Alive);
    assert_eq!(mutate(CellState::Alive, 3), CellState::Alive);
}

#[test]
fn cell_neighbours() {
    let expected = vec![
        Coord(-1, -1),
        Coord(0, -1),
        Coord(1, -1),
        Coord(1, 0),
        Coord(1, 1),
        Coord(0, 1),
        Coord(-1, 1),
        Coord(-1, 0),
    ];

    assert_eq!(neighboors(Coord(0, 0)).to_vec(), expected);
}

#[test]
fn in_empty_world_no_cell_has_live_neighboors() {
    let mut ic = InterestingCells::new();
    ic.finish();

    let n = ic.live_neighboors(Coord(0, 0));

    assert_eq!(ic.dead.len(), 0);
    assert_eq!(n.len(), 0);
}

#[test]
fn no_cell_has_no_neighboors() {
    let mut ic = InterestingCells::new();
    ic.make_alive(Coord(0, 0));
    ic.finish();

    let n = ic.live_neighboors(Coord(0, 0));

    assert_eq!(ic.dead.len(), 8);
    assert_eq!(n.len(), 0);
}

#[test]
fn cell_with_one_neighboor() {
    let mut ic = InterestingCells::new();

    ic.make_alive(Coord(0, 0)).make_alive(Coord(1, 1));

    ic.finish();

    let n = ic.live_neighboors(Coord(0, 0));

    let expected = vec![Coord(1, 1)];

    assert_eq!(ic.dead.len(), 12);
    assert_eq!(n, expected);
}

#[test]
fn evolve_empty_world_into_empty_world() {
    let mut ic1 = InterestingCells::new();
    ic1.finish();

    let mut ic2 = InterestingCells::new();

    ic1.evolve_into(&mut ic2);

    assert_eq!(ic2.alive.len(), 0);
}

#[test]
fn evolve_one_cell_world_into_empty_world() {
    let mut ic1 = InterestingCells::new();
    ic1.make_alive(Coord(0, 0));
    ic1.finish();

    let mut ic2 = InterestingCells::new();

    ic1.evolve_into(&mut ic2);

    assert_eq!(ic2.alive.len(), 0);
}

#[test]
fn evolve_two_by_two_live_into_the_same_state() {
    let mut ic1 = InterestingCells::new();

    ic1.make_alive(Coord(0, 0));
    ic1.make_alive(Coord(1, 0));
    ic1.make_alive(Coord(0, 1));
    ic1.make_alive(Coord(1, 1));

    ic1.finish();

    let mut ic2 = InterestingCells::new();

    ic1.evolve_into(&mut ic2);

    let mut expected = vec![Coord(0, 0), Coord(1, 0), Coord(0, 1), Coord(1, 1)];

    expected.sort();

    assert_eq!(ic2.alive, expected);
}

#[test]
fn evolve_to_one_cell_only() {
    let mut ic1 = InterestingCells::new();

    ic1.make_alive(Coord(1, 0));
    ic1.make_alive(Coord(0, 2));
    ic1.make_alive(Coord(2, 2));

    ic1.finish();

    let mut ic2 = InterestingCells::new();

    ic1.evolve_into(&mut ic2);

    let mut expected = vec![Coord(1, 1)];

    expected.sort();

    assert_eq!(ic2.alive, expected);
}

#[test]
fn window_of_an_empty_world() {
    let mut world = World::new();
    world.finish();

    let mut cells = Coords::new();
    let window = Window::new(0, 0, 3, 4);

    world.live_cells(&window, &mut cells);

    assert_eq!(cells.len(), 0);
}

#[test]
fn windows_of_one_cell_world() {
    let mut world = World::new();
    world.action(&[
        Coord(2, 0),
        Coord(1, 1),
        Coord(3, 1),
        Coord(0, 2),
        Coord(2, 2),
        Coord(2, 3),
        Coord(4, 2),
        Coord(5, 1),
        Coord(4, 4),
        Coord(2, 5),
        Coord(42, 3),
        Coord(3, 42),
    ]);

    let window = Window::new(2, 1, 3, 4);

    let mut cells = Coords::new();
    world.live_cells(&window, &mut cells);

    let expected = vec![
        Coord(2, 2),
        Coord(2, 3),
        Coord(3, 1),
        Coord(4, 2),
        Coord(4, 4),
    ];

    assert_eq!(cells, expected);
}
