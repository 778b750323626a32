use powerpointrs::error::Error;
use powerpointrs::flatten::{
    contains_bytes, expand, flatten, marks_unknown, sorted_order, ShapeConstState,
};
use powerpointrs::scene::{Color, Referer, Shape, Slide, Z};

fn leaf(v: i32, z: isize) -> Shape {
    Shape::new(v, v, v, v, Z(z, 0, 0), Color::black(), "")
}

fn xs(states: &[ShapeConstState]) -> Vec<i32> {
    states.iter().map(|s| s.x).collect()
}

#[test]
fn sorted_order_is_stable() {
    let keys = vec![Z(2, 0, 0), Z(1, 0, 0), Z(2, 0, 0), Z(0, 5, 0), Z(1, 0, 0), Z(0, 4, 9)];
    assert_eq!(sorted_order(&keys, false), vec![5, 3, 1, 4, 0, 2]);
    assert_eq!(sorted_order(&keys, true), vec![0, 2, 1, 4, 3, 5]);
    assert_eq!(sorted_order(&Vec::new(), false), Vec::<usize>::new());
}

#[test]
fn flatten_orders_entries_by_ascending_key() {
    let mut slide = Slide::new(10, 10);
    slide.add(leaf(30, 3));
    slide.add(leaf(10, 1));
    slide.add(leaf(20, 2));
    slide.add(leaf(11, 1));
    let flat = flatten(&slide.shapes).unwrap();
    assert_eq!(xs(&flat.states), vec![10, 11, 20, 30]);
    assert_eq!(
        flat.refs,
        vec![Referer::Shape(3), Referer::Shape(0), Referer::Shape(2), Referer::Shape(1)]
    );
}

#[test]
fn flatten_expands_groups_by_descending_key() {
    let mut slide = Slide::new(10, 10);
    let r0 = slide.add(leaf(1, 1));
    let r1 = slide.add(leaf(2, 2));
    let r2 = slide.add(leaf(3, 3));
    let r3 = slide.add(Shape::Group {
        z: Z(3, 0, 0),
        shapes: vec![
            leaf(5, 5),
            Shape::Group { z: Z(7, 0, 0), shapes: vec![leaf(7, 7), leaf(8, 8)] },
            leaf(6, 6),
        ],
    });
    assert_eq!((r0, r1, r2, r3), (Referer::Shape(0), Referer::Shape(1), Referer::Shape(2), Referer::Shape(3)));
    let flat = flatten(&slide.shapes).unwrap();
    assert_eq!(xs(&flat.states), vec![1, 2, 3, 8, 7, 6, 5]);
    assert_eq!(
        flat.refs,
        vec![Referer::Shape(0), Referer::Shape(1), Referer::Shape(2), Referer::Group(3, 4)]
    );
}

#[test]
fn flatten_twice_gives_the_same() {
    let mut slide = Slide::new(10, 10);
    for z in [4, -1, 4, 0, -1, 9] {
        slide.add(leaf(z as i32, z));
    }
    slide.add(Shape::Group { z: Z(0, 0, 0), shapes: vec![leaf(100, 1), leaf(101, 1), leaf(102, 2)] });
    let once = flatten(&slide.shapes).unwrap();
    let twice = flatten(&slide.shapes).unwrap();
    assert_eq!(once.refs, twice.refs);
    assert_eq!(once.states, twice.states);
    assert_eq!(xs(&once.states), vec![-1, -1, 0, 102, 100, 101, 4, 4, 9]);
}

#[test]
fn flatten_of_an_empty_group_and_an_empty_scene() {
    let mut slide = Slide::new(1, 1);
    let flat = flatten(&slide.shapes).unwrap();
    assert!(flat.refs.is_empty() && flat.states.is_empty());
    slide.add(Shape::Group { z: Z(0, 0, 0), shapes: vec![] });
    slide.add(leaf(1, 1));
    let flat = flatten(&slide.shapes).unwrap();
    assert_eq!(flat.refs, vec![Referer::Group(0, 0), Referer::Shape(0)]);
}

#[test]
fn flatten_refuses_entries_that_do_not_carry_their_index() {
    let mut slide = Slide::new(1, 1);
    slide.add(leaf(1, 1));
    slide.shapes.push((5, leaf(2, 2)));
    assert!(matches!(flatten(&slide.shapes), Err(Error::IndexOutOfRange)));
}

#[test]
fn expand_appends() {
    let mut out = vec![ShapeConstState { x: 0, y: 0, w: 0, h: 0, color: Color::red(), unknown: false }];
    expand(&Shape::Group { z: Z(0, 0, 0), shapes: vec![leaf(1, 1), leaf(2, 2)] }, &mut out);
    assert_eq!(xs(&out), vec![0, 2, 1]);
}

#[test]
fn names_that_mark_a_shape_unknown() {
    assert!(marks_unknown("CONTROL_C0"));
    assert!(marks_unknown("an UNKNOWN thing"));
    assert!(marks_unknown("xUNKNOWN"));
    assert!(!marks_unknown("RESET"));
    assert!(!marks_unknown("unknown"));
    assert!(!marks_unknown("CONTRO"));
    assert!(!marks_unknown(""));
    let mut out = Vec::new();
    expand(&Shape::new(1, 2, 3, 4, Z(0, 0, 0), Color::blue(), "CONTROL"), &mut out);
    assert_eq!(out, vec![ShapeConstState { x: 1, y: 2, w: 3, h: 4, color: Color::blue(), unknown: true }]);
}

#[test]
fn contains_bytes_finds_runs() {
    assert!(contains_bytes(b"abcabd", b"abd"));
    assert!(contains_bytes(b"abc", b""));
    assert!(contains_bytes(b"", b""));
    assert!(contains_bytes(b"abc", b"abc"));
    assert!(!contains_bytes(b"abc", b"abcd"));
    assert!(!contains_bytes(b"ababab", b"aba b"));
    assert!(contains_bytes(b"aab", b"ab"));
}
