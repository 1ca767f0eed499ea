use hyperzen::component::GeneratedEntity;
use hyperzen::entity::{create_3d_maze_walls, create_maze_walls, split_entities, EntityConf};
use hyperzen::entity::maze::{Axis, WallSide};
use hyperzen::graphics::colors::Color;
use hyperzen::graphics::primitives::GroupCounter;
use hyperzen::maze::{Cell, Maze, U2, U3};
use hyperzen::resource::{KeyCode, MouseButton};
use hyperzen::system::{key_in_menu, MenuControlSystem, MenuKey};

fn c2(x: isize, y: isize) -> Cell {
    Cell { x, y, z: 0 }
}

fn side(axis: Axis, far: bool, line: isize, start: isize, end: isize) -> WallSide {
    WallSide { axis, far, line, start, end }
}

#[test]
fn turrets_are_placed_apart() {
    assert!(EntityConf::Turret.is_turret_like());
    assert!(!EntityConf::Bouncer { eraser: true }.is_turret_like());
    let g = EntityConf::Generator {
        generated_entity: GeneratedEntity::Avoider,
        salvo: 2,
        time_between_salvo_ms: 10,
        eraser_probability_percent: 50,
    };
    assert!(!g.is_turret_like());
    let counts = split_entities(&vec![(EntityConf::Turret, 2), (EntityConf::Avoider { eraser: false }, 3), (g, 4)]);
    assert_eq!(counts, (2, 7));
}

#[test]
fn wall_runs_of_a_single_wall() {
    let m = Maze::<U2>::with_walls(c2(3, 3), &vec![c2(1, 1)]);
    assert_eq!(
        create_maze_walls(&m),
        vec![
            side(Axis::X, false, 1, 1, 1),
            side(Axis::X, true, 1, 1, 1),
            side(Axis::Y, false, 1, 1, 1),
            side(Axis::Y, true, 1, 1, 1),
        ]
    );
}

#[test]
fn wall_runs_merge_along_a_line() {
    // A wall of two cells along y at x = 0: its faces toward x = -1 and
    // x = 1 are single runs; along y each cell shows its own faces.
    let m = Maze::<U2>::with_walls(c2(2, 2), &vec![c2(0, 0), c2(0, 1)]);
    assert_eq!(
        create_maze_walls(&m),
        vec![
            side(Axis::X, false, 0, 0, 1),
            side(Axis::X, true, 0, 0, 1),
            side(Axis::Y, false, 0, 0, 0),
            side(Axis::Y, true, 1, 0, 0),
        ]
    );
}

#[test]
fn faces_of_a_single_cube() {
    let m = Maze::<U3>::with_walls(Cell { x: 1, y: 1, z: 1 }, &vec![Cell { x: 0, y: 0, z: 0 }]);
    let mut counter = GroupCounter::new();
    let colors = vec![(Cell { x: 1, y: 0, z: 0 }, Color::Red)];
    let faces = create_3d_maze_walls(&colors, &m, &mut counter);
    assert_eq!(faces.len(), 6);
    // Shared groups 1..=6, then the colored face gets group 7.
    assert_eq!(faces[0].offset, Cell { x: -1, y: 0, z: 0 });
    assert_eq!(faces[0].color, None);
    assert_eq!(faces[0].groups, vec![1]);
    assert_eq!(faces[1].offset, Cell { x: 1, y: 0, z: 0 });
    assert_eq!(faces[1].color, Some(Color::Red));
    assert_eq!(faces[1].groups, vec![7]);
    assert_eq!(faces[2].groups, vec![2]);
    assert_eq!(faces[3].groups, vec![2]);
    assert_eq!(faces[4].groups, vec![3]);
    assert_eq!(faces[5].groups, vec![3]);
    assert_eq!(counter.next(), 8);
}

#[test]
fn menu_keys() {
    let k = |n: &str| KeyCode { name: String::from(n) };
    assert_eq!(key_in_menu(&k("Tab")), Some(MenuKey::Key(0)));
    assert_eq!(key_in_menu(&k("Z")), Some(MenuKey::Key(18)));
    assert_eq!(key_in_menu(&k("RControl")), Some(MenuKey::Ctrl));
    assert_eq!(key_in_menu(&k("LWin")), Some(MenuKey::Super));
    assert_eq!(key_in_menu(&k("F1")), None);
}

#[test]
fn menu_mouse_state() {
    let mut s = MenuControlSystem::new();
    assert_eq!(s.mouse_input(MouseButton::Middle, false), [false, false, false, false, false]);
    assert_eq!(s.mouse_input(MouseButton::Right, true), [false, true, false, false, false]);
    assert_eq!(s.mouse_input(MouseButton::Other(1), true), [false, true, false, false, true]);
    assert_eq!(s.mouse_input(MouseButton::Other(2), true), [false, true, false, false, true]);
    assert_eq!(s.mouse_input(MouseButton::Right, false), [false, false, false, false, true]);
}
