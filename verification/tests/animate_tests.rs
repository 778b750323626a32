use powerpointrs::action::{Action, Tri};
use powerpointrs::animate::{
    assumed_before, check_animation, classify, fold_decision, lower, lower_track, resolve, Lowered,
};
use powerpointrs::error::Error;
use powerpointrs::flatten::{flatten, has_group, ShapeConstState};
use powerpointrs::ids::ShapeId;
use powerpointrs::scene::{Animation, Color, Direction, Effect, Referer, Shape, Slide, Z};

fn shape(x: i32, y: i32, name: &'static str) -> Shape {
    Shape::new(x, y, 1, 1, Z(0, 0, 0), Color::black(), name)
}

#[test]
fn classify_effects() {
    let focus = (0, 20);
    assert_eq!(classify(&Effect::Appear, (1, 1), focus), (Tri::T, Tri::U));
    assert_eq!(classify(&Effect::Disappear, (0, 20), focus), (Tri::F, Tri::U));
    let slide_in = Effect::SlideIn { direction: Direction::Up };
    assert_eq!(classify(&slide_in, (0, 20), focus), (Tri::T, Tri::T));
    assert_eq!(classify(&slide_in, (0, 21), focus), (Tri::T, Tri::F));
    let slide_out = Effect::SlideOut { direction: Direction::Down, complete: true };
    assert_eq!(classify(&slide_out, (0, 20), focus), (Tri::F, Tri::F));
    assert_eq!(classify(&Effect::Path { x: 0, y: 20, relative: false }, (7, 7), focus), (Tri::U, Tri::T));
    assert_eq!(classify(&Effect::Path { x: 0, y: 20, relative: true }, (7, 7), focus), (Tri::U, Tri::F));
    assert_eq!(classify(&Effect::Path { x: -7, y: 13, relative: true }, (7, 7), focus), (Tri::U, Tri::T));
    assert_eq!(classify(&Effect::Path { x: 0, y: 0, relative: true }, (0, 20), focus), (Tri::U, Tri::T));
    // the sum does not wrap
    let far = Effect::Path { x: i32::MAX, y: 1, relative: true };
    assert_eq!(classify(&far, (1, i32::MAX), (i32::MIN, i32::MIN)), (Tri::U, Tri::F));
}

#[test]
fn fold_decision_keeps_one_action_per_chunk() {
    let mut actions: Vec<Action<u8>> = Vec::new();
    fold_decision(&mut actions, 9, Tri::T, Tri::U, 3);
    fold_decision(&mut actions, 1, Tri::F, Tri::T, 3);
    fold_decision(&mut actions, 17, Tri::U, Tri::F, 3);
    fold_decision(&mut actions, 10, Tri::F, Tri::F, 3);
    let seen: Vec<(usize, u8, u8, u8, u8)> =
        actions.iter().map(|a| (a.chunk, a.set_t, a.unset_t, a.set_v, a.unset_v)).collect();
    assert_eq!(
        seen,
        vec![(0, 0b10, 0, 0, 0b10), (1, 0, 0b100, 0b10, 0b100), (2, 0, 0b10, 0, 0)]
    );
}

#[test]
fn fold_decision_lets_the_later_decision_win() {
    let mut actions: Vec<Action<u16>> = Vec::new();
    fold_decision(&mut actions, 3, Tri::T, Tri::T, 1);
    fold_decision(&mut actions, 3, Tri::F, Tri::U, 1);
    assert_eq!(actions.len(), 1);
    let a = actions[0];
    assert_eq!((a.set_v, a.unset_v, a.set_t, a.unset_t), (0, 0b1000, 0b1000, 0));
    assert_eq!(a.check(), Ok(()));
    fold_decision(&mut actions, 3, Tri::T, Tri::F, 1);
    let a = actions[0];
    assert_eq!((a.set_v, a.unset_v, a.set_t, a.unset_t), (0b1000, 0, 0, 0b1000));
}

#[test]
fn resolve_finds_shapes_only() {
    let refs = vec![Referer::Shape(2), Referer::Group(0, 2), Referer::Shape(9)];
    assert_eq!(resolve(&refs, 0, 3), Some(2));
    assert_eq!(resolve(&refs, 1, 3), None);
    assert_eq!(resolve(&refs, 2, 3), None);
    assert_eq!(resolve(&refs, 3, 3), None);
}

#[test]
fn check_animation_names_the_fault() {
    let refs = vec![Referer::Shape(0), Referer::Group(1, 2)];
    let a = |target, click, effect| Animation { target, click, effect };
    assert_eq!(check_animation(&refs, &a(Referer::Shape(0), false, Effect::Appear), true, 3), Ok(0));
    assert_eq!(check_animation(&refs, &a(Referer::Shape(0), true, Effect::Appear), false, 3), Ok(0));
    assert_eq!(
        check_animation(&refs, &a(Referer::Shape(0), true, Effect::Appear), true, 3),
        Err(Error::UnsupportedAnimation)
    );
    assert_eq!(
        check_animation(&refs, &a(Referer::Shape(1), false, Effect::Appear), false, 3),
        Err(Error::UnsupportedTarget)
    );
    assert_eq!(
        check_animation(&refs, &a(Referer::Shape(7), false, Effect::Appear), false, 3),
        Err(Error::UnsupportedTarget)
    );
    let half = Effect::SlideOut { direction: Direction::Up, complete: false };
    assert_eq!(
        check_animation(&refs, &a(Referer::Shape(0), false, half), false, 3),
        Err(Error::UnsupportedAnimation)
    );
}

#[test]
fn lower_track_seeds_by_the_first_animation() {
    let refs = vec![Referer::Shape(0), Referer::Shape(1), Referer::Shape(2)];
    let state = |x| ShapeConstState { x, y: 0, w: 1, h: 1, color: Color::black(), unknown: false };
    let states = vec![state(0), state(1), state(2)];
    let a = |i, effect| Animation { target: Referer::Shape(i), click: false, effect };
    let anims = vec![
        a(0, Effect::Appear),
        a(0, Effect::Disappear),
        a(1, Effect::Disappear),
        a(1, Effect::Appear),
    ];
    let mut seed = vec![Tri::U; 3];
    let actions: Vec<Action<u8>> = lower_track(&refs, &states, (0, 0), &anims, false, &mut seed, 1).unwrap();
    assert_eq!(seed, vec![Tri::F, Tri::T, Tri::U]);
    assert_eq!(actions.len(), 1);
    assert_eq!((actions[0].set_v, actions[0].unset_v), (0b10, 0b01));
    // a later context does not change what is settled
    let more = vec![a(1, Effect::Appear), a(2, Effect::Path { x: 0, y: 0, relative: false })];
    let _: Vec<Action<u8>> = lower_track(&refs, &states, (0, 0), &more, false, &mut seed, 1).unwrap();
    assert_eq!(seed, vec![Tri::F, Tri::T, Tri::T]);
}

/// Shape A has a context with a single batch that makes it appear; shape B appears by an
/// animation of the global context.
fn two_shape_scene() -> Slide {
    let mut slide = Slide::new(8, 8);
    let a = slide.add(shape(0, 0, "A"));
    let b = slide.add(shape(5, 5, "B"));
    slide.tl_add(b, Effect::Appear, false, None);
    slide.tl_add(a, Effect::Appear, false, Some(a));
    slide
}

#[test]
fn entrance_in_the_global_context_means_hidden_before() {
    let slide = two_shape_scene();
    let Lowered { context, refs, states_const, seed } = lower::<u8>(&slide, (0, 0)).unwrap();
    assert_eq!(refs, vec![Referer::Shape(0), Referer::Shape(1)]);
    assert_eq!(states_const.len(), 2);
    // both are assumed hidden before anything plays
    assert_eq!(seed, vec![Tri::F, Tri::F]);
    // the global context then shows B; A rests on the focus point
    assert_eq!(context.root.v.chunks, vec![0b10]);
    assert_eq!(context.root.t.chunks, vec![0b01]);
    assert_eq!(context.root.u.chunks, vec![0b00]);
    assert_eq!(context.check(), Ok(()));
    // a click on A shows A and leaves B as it is
    let mut state = context.root.clone();
    state.apply(&context, ShapeId::new(0), &[]);
    assert_eq!(state.v.chunks, vec![0b11]);
    assert_eq!(state.t.chunks, vec![0b01]);
    assert_eq!(state.u.chunks, vec![0b00]);
    assert!(context.actions[1].is_empty());
}

#[test]
fn lower_keeps_marked_shapes_unknown_and_visible() {
    let mut slide = Slide::new(8, 8);
    let c = slide.add(shape(0, 0, "CONTROL_C"));
    let r = slide.add(shape(0, 0, "R"));
    let k = slide.add(shape(1, 0, "UNKNOWN_K"));
    slide.tl_add(c, Effect::Appear, false, Some(r));
    slide.tl_add(k, Effect::Disappear, false, None);
    let l = lower::<u8>(&slide, (0, 0)).unwrap();
    assert_eq!(l.seed, vec![Tri::F, Tri::U, Tri::T]);
    // C is assumed hidden but marked unknown, so it counts as visible; K was hidden by
    // the global context, which makes it known
    assert_eq!(l.context.u.chunks, vec![0b101]);
    assert_eq!(l.context.root.u.chunks, vec![0b001]);
    assert_eq!(l.context.root.v.chunks, vec![0b011]);
    assert_eq!(l.context.root.t.chunks, vec![0b011]);
}

#[test]
fn lower_folds_each_context_into_sorted_actions() {
    let mut slide = Slide::new(8, 8);
    let shapes: Vec<Referer> = (0..10).map(|i| slide.add(shape(i, 0, ""))).collect();
    slide.tl_add(shapes[9], Effect::Disappear, false, Some(shapes[0]));
    slide.tl_add(shapes[1], Effect::Path { x: 0, y: 0, relative: false }, false, Some(shapes[0]));
    slide.tl_add(shapes[9], Effect::Appear, true, Some(shapes[0]));
    slide.tl_add(shapes[8], Effect::SlideIn { direction: Direction::Left }, false, Some(shapes[0]));
    let l = lower::<u8>(&slide, (0, 0)).unwrap();
    assert_eq!(l.context.n, 10);
    assert_eq!(l.context.cap, 2);
    let seen: Vec<(usize, u8, u8, u8, u8)> = l.context.actions[0]
        .iter()
        .map(|a| (a.chunk, a.set_t, a.unset_t, a.set_v, a.unset_v))
        .collect();
    assert_eq!(seen, vec![(0, 0b10, 0, 0, 0), (1, 0, 0b01, 0b11, 0)]);
    for s in 1..10 {
        assert!(l.context.actions[s].is_empty());
    }
}

#[test]
fn lower_reports_faults() {
    let group = |slide: &mut Slide| slide.add(Shape::Group { z: Z(0, 0, 0), shapes: vec![shape(0, 0, "")] });
    let mut slide = Slide::new(8, 8);
    let a = slide.add(shape(0, 0, ""));
    assert!(lower::<u8>(&slide, (0, 0)).is_ok());
    // a group is refused, whether or not anything names it
    let g = group(&mut slide);
    assert!(matches!(lower::<u8>(&slide, (0, 0)), Err(Error::UnsupportedTarget)));
    slide.tl_add(g, Effect::Appear, false, Some(a));
    assert!(matches!(lower::<u8>(&slide, (0, 0)), Err(Error::UnsupportedTarget)));

    let mut slide = Slide::new(8, 8);
    let a = slide.add(shape(0, 0, ""));
    let g = group(&mut slide);
    slide.tl_add(a, Effect::Appear, false, Some(g));
    assert!(matches!(lower::<u8>(&slide, (0, 0)), Err(Error::UnsupportedTarget)));

    let mut slide = Slide::new(8, 8);
    let a = slide.add(shape(0, 0, ""));
    slide.tl_add(Referer::Shape(4), Effect::Appear, false, Some(a));
    assert!(matches!(lower::<u8>(&slide, (0, 0)), Err(Error::UnsupportedTarget)));

    let mut slide = Slide::new(8, 8);
    let a = slide.add(shape(0, 0, ""));
    slide.tl_add(a, Effect::Appear, true, None);
    assert!(matches!(lower::<u8>(&slide, (0, 0)), Err(Error::UnsupportedAnimation)));

    let mut slide = Slide::new(8, 8);
    let a = slide.add(shape(0, 0, ""));
    slide.tl_add(a, Effect::SlideOut { direction: Direction::Up, complete: false }, false, Some(a));
    assert!(matches!(lower::<u8>(&slide, (0, 0)), Err(Error::UnsupportedAnimation)));

    let mut slide = Slide::new(8, 8);
    slide.shapes.push((3, shape(0, 0, "")));
    assert!(matches!(lower::<u8>(&slide, (0, 0)), Err(Error::IndexOutOfRange)));
}

#[test]
fn a_scene_that_holds_a_group_is_not_lowered() {
    // an empty group and an empty timeline
    let mut slide = Slide::new(8, 8);
    slide.add(Shape::Group { z: Z(0, 0, 0), shapes: vec![] });
    assert!(has_group(&slide.shapes));
    assert!(matches!(lower::<u8>(&slide, (0, 0)), Err(Error::UnsupportedTarget)));
    // a group among shapes, with a timeline that is sound otherwise
    let mut slide = two_shape_scene();
    assert!(!has_group(&slide.shapes));
    assert!(lower::<u8>(&slide, (0, 0)).is_ok());
    slide.add(Shape::Group { z: Z(9, 0, 0), shapes: vec![shape(1, 1, ""), shape(2, 2, "")] });
    assert!(has_group(&slide.shapes));
    assert!(matches!(lower::<u64>(&slide, (0, 0)), Err(Error::UnsupportedTarget)));
    // the group is reported before any other fault
    slide.shapes.push((7, shape(0, 0, "")));
    assert!(matches!(lower::<u8>(&slide, (0, 0)), Err(Error::UnsupportedTarget)));
    // flattening still expands it
    let mut slide = Slide::new(8, 8);
    slide.add(Shape::Group { z: Z(0, 0, 0), shapes: vec![shape(1, 1, ""), shape(2, 2, "")] });
    assert_eq!(flatten(&slide.shapes).unwrap().states.len(), 2);
}

#[test]
fn a_move_in_the_global_context_makes_a_marked_shape_known() {
    let mut slide = Slide::new(8, 8);
    let k = slide.add(shape(1, 0, "UNKNOWN_K"));
    slide.add(shape(2, 0, "UNKNOWN_M"));
    slide.tl_add(k, Effect::Path { x: 0, y: 0, relative: false }, false, None);
    let l = lower::<u8>(&slide, (0, 0)).unwrap();
    // both are marked; the global context moves K onto the focus point, which decides it
    assert_eq!(l.context.u.chunks, vec![0b11]);
    assert_eq!(l.context.root.u.chunks, vec![0b10]);
    assert_eq!(l.context.root.t.chunks, vec![0b01]);
    assert_eq!(l.context.root.v.chunks, vec![0b11]);
    assert_eq!(l.context.check(), Ok(()));
}

#[test]
fn a_lowered_scene_is_about_its_shapes_only() {
    let mut slide = Slide::new(8, 8);
    let shapes: Vec<Referer> = (0..10).map(|i| slide.add(shape(i, 0, "UNKNOWN"))).collect();
    for s in &shapes {
        slide.tl_add(*s, Effect::Disappear, false, Some(*s));
        slide.tl_add(shapes[9], Effect::Appear, false, Some(*s));
    }
    let l = lower::<u8>(&slide, (0, 0)).unwrap();
    assert_eq!((l.context.n, l.context.cap), (10, 2));
    assert_eq!(l.context.check(), Ok(()));
    // ten shapes in two chunks of eight: the last six positions stay clear
    let past = 0b1111_1100u8;
    assert_eq!(l.context.root.t.chunks[1] & past, 0);
    assert_eq!(l.context.root.v.chunks[1] & past, 0);
    assert_eq!(l.context.root.u.chunks[1] & past, 0);
    assert_eq!(l.context.u.chunks[1] & past, 0);
    for actions in &l.context.actions {
        for a in actions {
            assert!(a.fits(10));
        }
    }
}

#[test]
fn a_shape_is_assumed_hidden_before_it_enters() {
    assert_eq!(assumed_before(&Effect::Appear), Tri::F);
    assert_eq!(assumed_before(&Effect::SlideIn { direction: Direction::Left }), Tri::F);
    assert_eq!(assumed_before(&Effect::Disappear), Tri::T);
    assert_eq!(assumed_before(&Effect::SlideOut { direction: Direction::Up, complete: true }), Tri::T);
    assert_eq!(assumed_before(&Effect::Path { x: 1, y: 2, relative: true }), Tri::T);
}
