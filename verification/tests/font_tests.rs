use hyperzen::graphics::font::{Operation, operations, glyph_width, _get_size, DEFAULT_CHAR};

fn glyph(c: char) -> Vec<Operation> {
    operations().into_iter().find(|(k, _)| *k == c).map(|(_, ops)| ops).unwrap()
}

#[test]
fn point_coordinates_follow_the_columns() {
    assert_eq!(Operation::point_coordinates(0), (0, 4));
    assert_eq!(Operation::point_coordinates(4), (0, 0));
    assert_eq!(Operation::point_coordinates(7), (1, 2));
    assert_eq!(Operation::point_coordinates(24), (4, 0));
}

#[test]
fn strokes_between_points() {
    assert_eq!(Operation::arc(11, 5), Operation::Arc((2, 3), (1, 4)));
    assert_eq!(Operation::segment(0, 4), Operation::Segment((0, 4), (0, 0)));
    assert_eq!(Operation::segment(17, 22).size(), 4);
    assert_eq!(Operation::arc(4, 12).size(), 2);
}

#[test]
fn the_table_has_every_glyph() {
    let table = operations();
    assert_eq!(table.len(), 41);
    assert_eq!(table[0].0, 'A');
    assert_eq!(table[40].0, DEFAULT_CHAR);
    for (_, ops) in &table {
        assert!(!ops.is_empty());
    }
    assert_eq!(
        glyph('A'),
        vec![
            Operation::Arc((2, 3), (1, 4)),
            Operation::Arc((1, 4), (0, 3)),
            Operation::Segment((0, 3), (0, 0)),
            Operation::Segment((2, 3), (2, 0)),
            Operation::Segment((0, 2), (2, 2)),
        ]
    );
    assert_eq!(glyph('.'), vec![Operation::Segment((0, 0), (1, 0))]);
}

#[test]
fn glyph_widths() {
    assert_eq!(glyph_width(&glyph('I')), 1);
    assert_eq!(glyph_width(&glyph('A')), 3);
    assert_eq!(glyph_width(&glyph('M')), 5);
    assert_eq!(glyph_width(&glyph('G')), 5);
    assert_eq!(glyph_width(&glyph(DEFAULT_CHAR)), 3);
}

#[test]
fn text_sizes() {
    assert_eq!(_get_size(String::new()), 0);
    assert_eq!(_get_size(String::from("I")), 1);
    assert_eq!(_get_size(String::from("A I")), 5);
    assert_eq!(_get_size(String::from("MI")), 6);
    // A character without glyph takes the width of the default glyph.
    assert_eq!(_get_size(String::from("a")), 3);
    assert_eq!(_get_size(String::from("  ")), 2);
}

#[test]
fn sizes_add_over_concatenation() {
    for (a, b) in [("AB", "C D"), ("", "MI"), ("x y", "W")] {
        let whole = format!("{}{}", a, b);
        assert_eq!(_get_size(whole), _get_size(String::from(a)) + _get_size(String::from(b)));
    }
}
