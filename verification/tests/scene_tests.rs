use powerpointrs::render::{clamp, Canvas};
use powerpointrs::bitvec::BinaryFmt;
use powerpointrs::scene::{
    Animation, Color, Direction, Effect, MacroEffect, Preset, Referer, Shape, Slide, Timeline,
    Visibility, Z,
};

#[test]
fn colors() {
    assert_eq!(Color::new(1, 2, 3), Color { r: 1, g: 2, b: 3 });
    assert_eq!(Color::from_u32(0x12_34_56), Color { r: 0x12, g: 0x34, b: 0x56 });
    assert_eq!(Color::from_u32(0xFF_00_00_01), Color { r: 0, g: 0, b: 1 });
    assert_eq!(Color::grey(9), Color { r: 9, g: 9, b: 9 });
    assert_eq!(Color::white(), Color::from_u32(0xFFFFFF));
    assert_eq!(Color::black(), Color::from_u32(0));
    assert_eq!(Color::red(), Color::from_u32(0xFF0000));
    assert_eq!(Color::green(), Color::from_u32(0x00FF00));
    assert_eq!(Color::blue(), Color::from_u32(0x0000FF));
}

#[test]
fn referer_parts() {
    let s = Referer::Shape(4);
    let g = Referer::Group(4, 3);
    assert_eq!((s.index(), s.size(), s.span(), s.bounds()), (4, 1, (4, 1), (4, 5)));
    assert_eq!((g.index(), g.size(), g.span(), g.bounds()), (4, 3, (4, 3), (4, 7)));
    assert_eq!(Referer::default(), Referer::Shape(0));
}

#[test]
fn keys_order_by_their_first_difference() {
    assert!(Z(0, 9, 9).is_below(&Z(1, 0, 0)));
    assert!(Z(1, 0, 9).is_below(&Z(1, 1, 0)));
    assert!(Z(1, 1, 0).is_below(&Z(1, 1, 1)));
    assert!(!Z(1, 1, 1).is_below(&Z(1, 1, 1)));
    assert!(!Z(2, 0, 0).is_below(&Z(1, 9, 9)));
    assert!(Z(-1, 0, 0).is_below(&Z(0, 0, 0)));
}

#[test]
fn presets_of_effects() {
    assert_eq!(Effect::Appear.preset(), Preset::Entr(1, 0));
    assert_eq!(Effect::Disappear.preset(), Preset::Exit(1, 0));
    assert_eq!(Effect::Path { x: 0, y: 0, relative: true }.preset(), Preset::Path(0, 1));
    assert_eq!(Effect::SlideIn { direction: Direction::Up }.preset(), Preset::Entr(0, 0));
    assert_eq!(
        Effect::SlideOut { direction: Direction::Left, complete: true }.preset(),
        Preset::Exit(0, 0)
    );
}

#[test]
fn visibility_is_visible_unless_hidden() {
    assert!(Visibility::Visible.is_visible());
    assert!(Visibility::Unknown.is_visible());
    assert!(!Visibility::Hidden.is_visible());
}

fn leaf(z: isize) -> Shape {
    Shape::new(0, 0, 1, 1, Z(z, 0, 0), Color::black(), "")
}

#[test]
fn shape_size_counts_rectangles() {
    assert_eq!(leaf(1).size(), 1);
    let group = Shape::Group {
        z: Z(3, 0, 0),
        shapes: vec![Shape::Group { z: Z(7, 0, 0), shapes: vec![leaf(8), leaf(7)] }, leaf(6), leaf(5)],
    };
    assert_eq!(group.size(), 4);
    assert_eq!(group.z(), Z(3, 0, 0));
    assert_eq!(Shape::Group { z: Z(0, 0, 0), shapes: vec![] }.size(), 0);
}

#[test]
fn timeline_add_makes_contexts_as_needed() {
    let mut tl = Timeline::default();
    tl.add(Referer::Shape(0), Effect::Appear, false, None);
    tl.add(Referer::Shape(1), Effect::Disappear, true, Some(Referer::Shape(2)));
    tl.add(Referer::Shape(2), Effect::Appear, false, Some(Referer::Shape(2)));
    tl.add(Referer::Shape(3), Effect::Appear, false, Some(Referer::Group(0, 5)));
    assert_eq!(tl.main_context.animations.len(), 1);
    assert_eq!(tl.contexts.len(), 3);
    assert_eq!(tl.contexts[0].animations.len(), 1);
    assert!(tl.contexts[1].animations.is_empty());
    assert_eq!(
        tl.contexts[2].animations,
        vec![
            Animation { target: Referer::Shape(1), click: true, effect: Effect::Disappear },
            Animation { target: Referer::Shape(2), click: false, effect: Effect::Appear },
        ]
    );
}

#[test]
fn slide_add_numbers_the_shapes() {
    let mut slide = Slide::new(40, 30);
    assert_eq!(slide.add(leaf(2)), Referer::Shape(0));
    assert_eq!(slide.add(leaf(1)), Referer::Shape(1));
    assert_eq!(slide.shapes.len(), 2);
    assert_eq!(slide.shapes[1].0, 1);
    assert_eq!((slide.width, slide.height), (40, 30));
}

#[test]
fn clamp_keeps_within_bounds() {
    assert_eq!(clamp(-3, 0, 10), 0);
    assert_eq!(clamp(13, 0, 10), 10);
    assert_eq!(clamp(4, 0, 10), 4);
    assert_eq!(clamp(10, 0, 10), 10);
}

#[test]
fn canvas_new_fill_set_pixel() {
    let mut c = Canvas::new(3, 2, 7u8);
    assert_eq!(c.pixels, vec![7; 6]);
    c.set_pixel(2, 1, 9);
    assert_eq!(c.pixels, vec![7, 7, 7, 7, 7, 9]);
    c.fill(1);
    assert_eq!(c.pixels, vec![1; 6]);
    let empty = Canvas::new(0, 5, 0u8);
    assert!(empty.pixels.is_empty());
}

#[test]
fn fill_rect_is_cut_to_the_canvas() {
    let mut c = Canvas::new(4, 3, 0u8);
    c.fill_rect(-1, 1, 3, 5, 1);
    assert_eq!(c.pixels, vec![0, 0, 0, 0, 1, 1, 0, 0, 1, 1, 0, 0]);
    c.fill_rect(3, -2, 9, 3, 2);
    assert_eq!(c.pixels, vec![0, 0, 0, 2, 1, 1, 0, 0, 1, 1, 0, 0]);
    c.fill_rect(1, 1, 0, 2, 3);
    c.fill_rect(1, 1, -4, 2, 3);
    c.fill_rect(9, 9, 2, 2, 3);
    assert_eq!(c.pixels, vec![0, 0, 0, 2, 1, 1, 0, 0, 1, 1, 0, 0]);
}

#[test]
fn authoring_effects() {
    assert_eq!(Effect::from(MacroEffect::Appear), Effect::Appear);
    assert_eq!(Effect::from(MacroEffect::Disappear), Effect::Disappear);
    assert_eq!(Effect::from(MacroEffect::SlideIn), Effect::SlideIn { direction: Direction::Up });
    assert_eq!(
        Effect::from(MacroEffect::SlideOut),
        Effect::SlideOut { direction: Direction::Up, complete: true }
    );
    assert_eq!(
        Effect::from(MacroEffect::Mark),
        Effect::SlideOut { direction: Direction::Up, complete: false }
    );
    assert_eq!(Effect::from(MacroEffect::Place), Effect::Path { x: 0, y: 0, relative: true });
    assert_eq!(Effect::from(MacroEffect::Target(3, 4)), Effect::Path { x: 3, y: 4, relative: false });
    assert_eq!(Effect::from(MacroEffect::Path(3, 4)), Effect::Path { x: 3, y: 4, relative: true });
}

#[test]
fn binary_digits_of_a_chunk() {
    assert_eq!(BinaryFmt(0b0000_0101u8).digits(), b"00000101".to_vec());
    assert_eq!(BinaryFmt(0x8001u16).digits(), b"1000000000000001".to_vec());
    assert_eq!(BinaryFmt(0u32).digits(), vec![b'0'; 32]);
    assert_eq!(BinaryFmt(u64::MAX).digits(), vec![b'1'; 64]);
}
