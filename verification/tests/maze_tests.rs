use hyperzen::maze::{Cell, Maze, U2, U3};
use hyperzen::maze::zones::ZoneFilter;

fn c2(x: isize, y: isize) -> Cell {
    Cell { x, y, z: 0 }
}

fn sorted(mut v: Vec<Cell>) -> Vec<Cell> {
    v.sort_by_key(|c| (c.x, c.y, c.z));
    v
}

/// The cells of the border of a `w` by `h` area.
fn border(w: isize, h: isize) -> Vec<Cell> {
    let mut v = vec![];
    for x in 0..w {
        for y in 0..h {
            if x == 0 || y == 0 || x == w - 1 || y == h - 1 {
                v.push(c2(x, y));
            }
        }
    }
    v
}

#[test]
fn kruskal_segments_of_a_five_by_five_maze() {
    assert_eq!(Maze::<U2>::segment_count(&c2(5, 5)), 4);
    assert_eq!(Maze::<U3>::segment_count(&Cell { x: 5, y: 5, z: 5 }), 6);
    assert_eq!(Maze::<U2>::segment_count(&c2(1, 1)), 0);
}

#[test]
fn kruskal_builds_each_drawn_segment_that_joins_three_groups() {
    let m = Maze::<U2>::kruskal_with_choices(c2(5, 5), 0, &vec![0, 0, 0, 0]);
    assert_eq!(m.render(), "\n     \n  # #\n ####\n  # #\n ### \n\n");
}

#[test]
fn kruskal_stops_when_stop_segments_are_left() {
    let m = Maze::<U2>::kruskal_with_choices(c2(5, 5), 2, &vec![0, 0]);
    assert_eq!(m.render(), "\n     \n  # #\n  # #\n  # #\n     \n\n");
    let none = Maze::<U2>::kruskal_with_choices(c2(5, 5), 4, &vec![]);
    assert!(none.walls().is_empty());
}

#[test]
fn random_kruskal_walls_lie_on_candidate_segments() {
    let candidates = vec![
        c2(2, 1), c2(2, 2), c2(2, 3), c2(1, 2), c2(3, 2), c2(1, 4), c2(2, 4), c2(3, 4),
        c2(4, 1), c2(4, 2), c2(4, 3),
    ];
    for _ in 0..20 {
        let m = Maze::<U2>::kruskal(c2(5, 5), 0);
        assert_eq!(m.size(), c2(5, 5));
        for w in m.walls() {
            assert!(candidates.contains(&w));
        }
        // The first segment drawn always joins three groups.
        assert!(m.walls().len() >= 3);
    }
}

#[test]
fn circle_walls_the_border() {
    let mut m = Maze::<U2>::with_walls(c2(4, 3), &vec![]);
    m.circle();
    assert_eq!(m.render(), "\n####\n#  #\n####\n\n");
    assert_eq!(sorted(m.walls()), sorted(border(4, 3)));
}

#[test]
fn with_walls_keeps_the_cells_of_the_area() {
    let m = Maze::<U2>::with_walls(c2(3, 3), &vec![c2(1, 1), c2(5, 5), c2(-1, 0)]);
    assert_eq!(m.walls(), vec![c2(1, 1)]);
    assert!(m.wall(1, 1));
    assert!(!m.wall(5, 5));
    assert_eq!(m.render(), "\n   \n # \n   \n\n");
}

#[test]
fn set_wall_adds_and_removes() {
    let mut m = Maze::<U2>::with_walls(c2(3, 3), &vec![]);
    m.set_wall(&c2(2, 0), true);
    assert!(m.contains(&c2(2, 0)));
    m.set_wall(&c2(2, 0), false);
    assert!(!m.contains(&c2(2, 0)));
}

#[test]
fn reduce_drops_the_outer_rows() {
    let mut walls = border(5, 5);
    walls.push(c2(2, 2));
    walls.push(c2(1, 2));
    let mut m = Maze::<U2>::with_walls(c2(5, 5), &walls);
    m.reduce(1);
    assert_eq!(m.size(), c2(3, 3));
    assert_eq!(m.walls(), vec![c2(0, 1), c2(1, 1)]);
}

#[test]
fn zones_split_by_a_wall() {
    let mut walls = border(5, 5);
    walls.extend(vec![c2(2, 1), c2(2, 2), c2(2, 3)]);
    let m = Maze::<U2>::with_walls(c2(5, 5), &walls);
    let zones = m.compute_zones(ZoneFilter::All);
    assert_eq!(zones.len(), 2);
    assert_eq!(sorted(zones[0].clone()), vec![c2(1, 1), c2(1, 2), c2(1, 3)]);
    assert_eq!(sorted(zones[1].clone()), vec![c2(3, 1), c2(3, 2), c2(3, 3)]);
}

#[test]
fn fill_smallests_keeps_the_last_largest_zone() {
    let mut walls = border(5, 5);
    walls.extend(vec![c2(2, 1), c2(2, 2), c2(2, 3)]);
    let mut m = Maze::<U2>::with_walls(c2(5, 5), &walls);
    assert!(m.fill_smallests());
    assert_eq!(m.render(), "\n#####\n###.#\n###.#\n###.#\n#####\n\n".replace('.', " "));
    assert!(!m.fill_smallests());
}

#[test]
fn fill_smallests_of_a_full_maze_changes_nothing() {
    let mut m = Maze::<U2>::with_walls(c2(3, 3), &border(3, 3));
    m.set_wall(&c2(1, 1), true);
    assert!(!m.fill_smallests());
}

#[test]
fn fill_dead_corridors_fills_a_dead_end_corridor() {
    let mut m = Maze::<U2>::with_walls(c2(7, 3), &border(7, 3));
    assert!(m.fill_dead_corridors());
    assert_eq!(m.walls().len(), 21);
    assert!(!m.fill_dead_corridors());
}

#[test]
fn fill_dead_corridors_leaves_a_room() {
    let mut m = Maze::<U2>::with_walls(c2(5, 5), &border(5, 5));
    assert!(!m.fill_dead_corridors());
    assert_eq!(m.walls().len(), 16);
}

#[test]
fn free_in_square_lists_the_border_of_the_square() {
    let m = Maze::<U2>::with_walls(c2(5, 5), &vec![c2(1, 1)]);
    let v = m.free_in_square(c2(2, 2), 1);
    assert_eq!(
        v,
        vec![
            c2(3, 1), c2(1, 2), c2(3, 2), c2(1, 3), c2(3, 3),
            c2(1, 3), c2(2, 1), c2(2, 3), c2(3, 1), c2(3, 3),
        ]
    );
}

#[test]
fn free_in_square_is_clipped_to_the_maze() {
    let m = Maze::<U2>::with_walls(c2(3, 3), &vec![]);
    let v = m.free_in_square(c2(0, 0), 1);
    assert_eq!(v, vec![c2(0, 0), c2(1, 0), c2(0, 1), c2(1, 1), c2(0, 0), c2(0, 1), c2(1, 0), c2(1, 1)]);
}

#[test]
fn random_free_gives_a_free_cell() {
    let m = Maze::<U2>::with_walls(c2(3, 3), &border(3, 3));
    for _ in 0..10 {
        assert_eq!(m.random_free(), c2(1, 1));
    }
    assert_eq!(m.nth_free(0), Some(c2(1, 1)));
    assert_eq!(m.nth_free(1), None);
}

#[test]
fn find_path_steps_to_the_offsets_of_the_moves() {
    let m = Maze::<U2>::with_walls(c2(5, 5), &vec![]);
    assert_eq!(m.find_path(c2(2, 2), c2(1, 0)), Some(vec![c2(2, 2), c2(1, 0)]));
    assert_eq!(m.find_path(c2(2, 2), c2(2, 2)), Some(vec![c2(2, 2)]));
}

#[test]
fn find_path_fails_when_no_move_is_open() {
    let mut walls = border(5, 5);
    walls.extend(vec![c2(1, 1), c2(1, 3), c2(3, 1), c2(3, 3), c2(2, 1), c2(2, 3), c2(1, 2), c2(3, 2)]);
    let m = Maze::<U2>::with_walls(c2(5, 5), &walls);
    assert_eq!(m.find_path(c2(2, 2), c2(4, 4)), None);
}

#[test]
fn iterate_area_goes_x_slowest() {
    let v = Maze::<U3>::iterate_area(&Cell { x: 2, y: 1, z: 2 });
    assert_eq!(
        v,
        vec![
            Cell { x: 0, y: 0, z: 0 },
            Cell { x: 0, y: 0, z: 1 },
            Cell { x: 1, y: 0, z: 0 },
            Cell { x: 1, y: 0, z: 1 },
        ]
    );
    assert_eq!(Maze::<U2>::iterate_area(&c2(1, 2)), vec![c2(0, 0), c2(0, 1)]);
}

#[test]
fn neighbours_of_each_dimension() {
    assert_eq!(Maze::<U2>::neighbours(), vec![c2(-1, 0), c2(1, 0), c2(0, -1), c2(0, 1)]);
    assert_eq!(Maze::<U3>::neighbours().len(), 6);
    assert_eq!(Maze::<U2>::openings().len(), 8);
}

#[test]
fn wall_of_a_three_dimensional_maze() {
    let m = Maze::<U3>::with_walls(Cell { x: 2, y: 2, z: 2 }, &vec![Cell { x: 1, y: 0, z: 1 }]);
    assert!(m.wall(1, 0, 1));
    assert!(!m.wall(1, 1, 1));
}

#[test]
fn reduce_forgets_the_circle() {
    let walls = vec![c2(2, 2), c2(1, 3), c2(0, 2)];
    let mut plain = Maze::<U2>::with_walls(c2(5, 5), &walls);
    let mut circled = Maze::<U2>::with_walls(c2(5, 5), &walls);
    circled.circle();
    plain.reduce(1);
    circled.reduce(1);
    assert_eq!(plain.size(), circled.size());
    assert_eq!(plain.walls(), circled.walls());
    assert_eq!(plain.walls(), vec![c2(0, 2), c2(1, 1)]);
}

#[test]
fn reduce_keeps_the_first_inner_ring() {
    let mut m = Maze::<U2>::with_walls(c2(5, 5), &vec![c2(1, 1), c2(3, 3), c2(4, 1)]);
    m.reduce(1);
    assert_eq!(m.walls(), vec![c2(0, 0), c2(2, 2)]);
    let mut cube = Maze::<U3>::with_walls(Cell { x: 4, y: 4, z: 4 }, &vec![Cell { x: 1, y: 2, z: 1 }]);
    cube.reduce(1);
    assert_eq!(cube.size(), Cell { x: 2, y: 2, z: 2 });
    assert_eq!(cube.walls(), vec![Cell { x: 0, y: 1, z: 0 }]);
}

#[test]
fn zones_keep_an_empty_group_per_turned_down_cell() {
    let m = Maze::<U2>::with_walls(c2(5, 5), &border(5, 5));
    let corridors = m.compute_zones(ZoneFilter::Corridors);
    assert_eq!(corridors.len(), 9);
    assert!(corridors.iter().all(|z| z.is_empty()));
    let rooms = m.compute_zones(ZoneFilter::Rooms);
    assert_eq!(rooms.len(), 1);
    assert_eq!(rooms[0].len(), 9);
}

#[test]
fn successors_with_their_costs() {
    let m = Maze::<U2>::with_walls(c2(5, 5), &vec![]);
    assert_eq!(
        m.successors(&c2(2, 2)),
        vec![
            (c2(-1, 0), 10), (c2(1, 0), 10), (c2(0, -1), 10), (c2(0, 1), 10),
            (c2(-1, -1), 15), (c2(-1, 1), 15), (c2(1, -1), 15), (c2(1, 1), 15),
        ]
    );
    let walled = Maze::<U2>::with_walls(c2(5, 5), &vec![c2(3, 2)]);
    assert_eq!(
        walled.successors(&c2(2, 2)),
        vec![
            (c2(-1, 0), 10), (c2(0, -1), 10), (c2(0, 1), 10),
            (c2(-1, -1), 15), (c2(-1, 1), 15),
        ]
    );
}
