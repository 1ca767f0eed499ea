use hyperzen::graphics::primitives::{GroupCounter, Primitive};
use hyperzen::graphics::colors::Color;

#[test]
fn counter_starts_at_one() {
    let mut c = GroupCounter::new();
    assert_eq!(c.next(), 1);
    assert_eq!(c.next(), 2);
    assert_eq!(c.instantiate(3), vec![3, 4, 5]);
    assert_eq!(c.instantiate(0), Vec::<u16>::new());
    assert_eq!(c.next(), 6);
}

#[test]
fn groups_wrap_at_sixteen_bits() {
    let mut c = GroupCounter::new();
    let v = c.instantiate(65537);
    assert_eq!(v[0], 1);
    assert_eq!(v[65534], 65535);
    assert_eq!(v[65535], 0);
    assert_eq!(v[65536], 1);
}

#[test]
fn primitive_numbers_and_groups() {
    assert_eq!(Primitive::Plane.index(), 0);
    assert_eq!(Primitive::Hook.index(), 8);
    assert_eq!(Primitive::PitCube.groups_size(), 11);
    assert_eq!(Primitive::Hook.groups_size(), 500);
}

#[test]
fn instantiate_takes_the_next_groups() {
    let mut c = GroupCounter::new();
    let (i, g) = Primitive::SquarePyramid.instantiate(&mut c);
    assert_eq!(i, 1);
    assert_eq!(g, vec![1, 2, 3, 4, 5]);
    let (i, g) = Primitive::Sphere.instantiate(&mut c);
    assert_eq!(i, 3);
    assert_eq!(g, vec![6]);
}

#[test]
fn reserve_takes_one_run_per_instance() {
    let mut c = GroupCounter::new();
    let r = Primitive::TrianglePyramid.reserve(&mut c, 3);
    assert_eq!(r, vec![vec![1, 2, 3, 4], vec![5, 6, 7, 8], vec![9, 10, 11, 12]]);
    assert_eq!(c.next(), 13);
    assert_eq!(Primitive::Cube.reserve(&mut c, 0), Vec::<Vec<u16>>::new());
}

#[test]
fn color_slots() {
    assert_eq!(Color::Black.index(), 0);
    assert_eq!(Color::DarkBlue.index(), 16);
    assert_eq!(Color::GenPaleBlack.index(), 17);
    assert_eq!(Color::GenBlack.index(), 39);
    assert_eq!(Color::Gen19.index(), 60);
}
