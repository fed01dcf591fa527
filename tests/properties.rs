use gameoflife::display::{apply_key, screen_position};
use gameoflife::rle::{get_x_y, parse, RleError};
use gameoflife::utils::WorldLifePlaceMaker;
use gameoflife::world::{neighboors, Coord, Coords, InterestingCells, Window, World};

fn all_cells(world: &World) -> Coords {
    let mut cells = Coords::new();
    world.live_cells(&Window::new(-1000, -1000, 2000, 2000), &mut cells);
    cells
}

fn seeded(cells: &[Coord]) -> World {
    let mut world = World::new();
    world.action(cells);
    world
}

#[test]
fn neighbours_are_eight_distinct_adjacent_cells() {
    for c in [Coord(0, 0), Coord(-7, 12), Coord(i64::MAX - 1, i64::MIN + 1)] {
        let n = neighboors(c);
        assert_eq!(n.len(), 8);
        for i in 0..8 {
            assert_ne!(n[i], c);
            assert!((n[i].0 as i128 - c.0 as i128).abs() <= 1);
            assert!((n[i].1 as i128 - c.1 as i128).abs() <= 1);
            for j in 0..i {
                assert_ne!(n[i], n[j]);
            }
        }
    }
}

#[test]
fn normalizing_twice_changes_nothing() {
    let mut ic = InterestingCells::new();
    ic.make_alive(Coord(3, 1)).make_alive(Coord(0, 0)).make_alive(Coord(3, 1));
    ic.finish();
    let alive = ic.alive.clone();
    let dead = ic.dead.clone();
    ic.finish();
    assert_eq!(ic.alive, alive);
    assert_eq!(ic.dead, dead);
    assert_eq!(ic.len(), 2);
}

#[test]
fn finish_sorts_and_removes_repeats() {
    let mut ic = InterestingCells::new();
    ic.make_alive(Coord(5, 0)).make_alive(Coord(-2, 7)).make_alive(Coord(5, -1)).make_alive(Coord(-2, 7));
    ic.finish();
    assert_eq!(ic.alive, vec![Coord(-2, 7), Coord(5, -1), Coord(5, 0)]);
    let mut sorted = ic.dead.clone();
    sorted.sort();
    sorted.dedup();
    assert_eq!(ic.dead, sorted);
    assert_eq!(ic.dead.len(), 8 + 10);
}

#[test]
fn empty_world_stays_empty() {
    let mut world = World::new();
    for g in 1..=5 {
        world.evolve();
        assert_eq!(world.population_size(), 0);
        assert_eq!(world.gen(), g);
    }
}

#[test]
fn lone_cell_dies() {
    let mut world = seeded(&[Coord(-40, 17)]);
    assert_eq!(world.population_size(), 1);
    world.evolve();
    assert_eq!(world.population_size(), 0);
}

#[test]
fn block_is_a_still_life() {
    let block = [Coord(0, 0), Coord(1, 0), Coord(0, 1), Coord(1, 1)];
    let mut world = seeded(&block);
    world.evolve();
    world.evolve();
    assert_eq!(all_cells(&world), vec![Coord(0, 0), Coord(0, 1), Coord(1, 0), Coord(1, 1)]);
}

#[test]
fn three_scattered_cells_leave_one() {
    let mut world = seeded(&[Coord(1, 0), Coord(0, 2), Coord(2, 2)]);
    world.evolve();
    assert_eq!(all_cells(&world), vec![Coord(1, 1)]);
    world.evolve();
    assert_eq!(world.population_size(), 0);
}

#[test]
fn blinker_oscillates() {
    let mut world = seeded(&[Coord(0, 1), Coord(1, 1), Coord(2, 1)]);
    world.evolve();
    assert_eq!(all_cells(&world), vec![Coord(1, 0), Coord(1, 1), Coord(1, 2)]);
    world.evolve();
    assert_eq!(all_cells(&world), vec![Coord(0, 1), Coord(1, 1), Coord(2, 1)]);
}

#[test]
fn glider_moves_diagonally() {
    let glider = [Coord(1, 0), Coord(2, 1), Coord(0, 2), Coord(1, 2), Coord(2, 2)];
    let mut world = seeded(&glider);
    for _ in 0..4 {
        world.evolve();
    }
    assert_eq!(
        all_cells(&world),
        vec![Coord(1, 3), Coord(2, 1), Coord(2, 3), Coord(3, 2), Coord(3, 3)]
    );
    assert_eq!(world.gen(), 4);
}

#[test]
fn generation_counter_starts_at_zero_and_counts_steps() {
    let mut world = seeded(&[Coord(0, 0), Coord(1, 0), Coord(2, 0)]);
    assert_eq!(world.gen(), 0);
    world.evolve();
    assert_eq!(world.gen(), 1);
    world.evolve();
    world.evolve();
    assert_eq!(world.gen(), 3);
}

#[test]
fn seeding_counts_distinct_cells() {
    let world = seeded(&[Coord(0, 0), Coord(5, 5), Coord(-3, 2)]);
    assert_eq!(world.population_size(), 3);
    let world = seeded(&[Coord(0, 0), Coord(5, 5), Coord(0, 0), Coord(5, 5)]);
    assert_eq!(world.population_size(), 2);
}

#[test]
fn window_edges_are_half_open() {
    let world = seeded(&[Coord(2, 1), Coord(4, 4), Coord(5, 1), Coord(2, 5), Coord(1, 1)]);
    let mut cells = Coords::new();
    world.live_cells(&Window::new(2, 1, 3, 4), &mut cells);
    assert_eq!(cells, vec![Coord(2, 1), Coord(4, 4)]);
    let mut more = vec![Coord(9, 9)];
    world.live_cells(&Window::new(0, 0, 0, 10), &mut more);
    assert_eq!(more, vec![Coord(9, 9)]);
}

#[test]
fn window_reaching_past_the_largest_column() {
    let far = i64::MAX - 5;
    let world = seeded(&[Coord(far, 0), Coord(far - 10, 0)]);
    let mut cells = Coords::new();
    world.live_cells(&Window::new(far - 1, -1, usize::MAX, 3), &mut cells);
    assert_eq!(cells, vec![Coord(far, 0)]);
}

#[test]
fn room_to_evolve() {
    assert!(seeded(&[Coord(0, 0)]).has_room());
    assert!(!seeded(&[Coord(i64::MAX - 1, 0)]).has_room());
    assert!(seeded(&[Coord(i64::MAX - 2, i64::MIN + 2)]).has_room());
}

#[test]
fn make_alive_shows_after_finish() {
    let mut world = World::new();
    world.make_alive(Coord(3, 3));
    world.make_alive(Coord(3, 3));
    world.finish();
    assert_eq!(world.population_size(), 1);
}

#[test]
fn parse_rejects_malformed_text() {
    let mut storage: Vec<Coord> = vec![];
    assert_eq!(parse("", &mut storage).err(), Some(RleError));
    assert_eq!(parse("y = 3, x = 3\no!", &mut storage).err(), Some(RleError));
    assert_eq!(parse("x = 3, y = 3\nbo$q!", &mut storage).err(), Some(RleError));
    assert_eq!(parse("x = 3, y = 3\n2o$o", &mut storage).err(), Some(RleError));
    assert_eq!(parse("x = 3, y = 3\n3!", &mut storage).err(), Some(RleError));
    assert_eq!(parse("x = 3, y = 3\n99999999999o!", &mut storage).err(), Some(RleError));
    assert_eq!(parse("x = 2147483648, y = 3\no!", &mut storage).err(), Some(RleError));
    assert_eq!(parse("x = , y = 3\no!", &mut storage).err(), Some(RleError));
    assert!(storage.is_empty());
}

#[test]
fn parse_line_ends_with_counts() {
    let mut storage: Vec<Coord> = vec![];
    let parsed = parse("#C two rows apart\nx=2,y=3\n2o2$\n  b o !", &mut storage).unwrap();
    assert_eq!((parsed.x, parsed.y), (2, 3));
    assert_eq!(storage, vec![Coord(0, 0), Coord(1, 0), Coord(1, 2)]);
}

#[test]
fn header_gives_size_and_line_end() {
    let text = b"x = 12, y = 7, rule = B3/S23\nbo!";
    assert_eq!(get_x_y(text), Some((12, 7, 28)));
    assert_eq!(get_x_y(b"#N only a comment\n"), None);
}

#[test]
fn pattern_seeds_a_world_at_an_offset() {
    let mut world = World::new();
    {
        let mut placemaker = WorldLifePlaceMaker::new(Coord(10, -5), &mut world);
        parse("x = 3, y = 1\n3o!", &mut placemaker).unwrap();
    }
    world.finish();
    assert_eq!(all_cells(&world), vec![Coord(10, -5), Coord(11, -5), Coord(12, -5)]);
    world.evolve();
    assert_eq!(all_cells(&world), vec![Coord(11, -6), Coord(11, -5), Coord(11, -4)]);
}

#[test]
fn keys_move_the_window() {
    let mut window = Window::new(10, 20, 80, 24);
    apply_key(&mut window, 'w');
    assert_eq!((window.x, window.y), (10, 17));
    apply_key(&mut window, 'D');
    assert_eq!((window.x, window.y), (40, 17));
    apply_key(&mut window, 'a');
    apply_key(&mut window, 'S');
    assert_eq!((window.x, window.y), (37, 47));
    apply_key(&mut window, 'z');
    assert_eq!((window.x, window.y), (37, 47));
    apply_key(&mut window, 'R');
    assert_eq!((window.x, window.y, window.w, window.h), (0, 0, 80, 24));
}

#[test]
fn cells_land_relative_to_the_window() {
    let window = Window::new(-5, 3, 80, 24);
    assert_eq!(screen_position(Coord(-5, 3), &window), (0, 0));
    assert_eq!(screen_position(Coord(10, 20), &window), (15, 17));
}
