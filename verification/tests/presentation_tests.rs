use powerpointrs::action::Action;
use powerpointrs::compiled;
use powerpointrs::compiler::State;
use powerpointrs::error::Error;
use powerpointrs::flatten::ShapeConstState;
use powerpointrs::graph::Edge;
use powerpointrs::ids::{NodeId, ShapeId};
use powerpointrs::direct::{self, init_context, BasicAnimation, BasicContext, CellOp};
use powerpointrs::playback::{render_state, under, RenderingContext};
use powerpointrs::scene::{Animation, Color, Effect, Referer, Shape, Slide, Z};

fn shape(x: i32, y: i32, w: i32, h: i32, z: isize, color: Color, name: &'static str) -> Shape {
    Shape::new(x, y, w, h, Z(z, 0, 0), color, name)
}

fn rect(x: i32, y: i32, w: i32, h: i32, color: Color) -> ShapeConstState {
    ShapeConstState { x, y, w, h, color, unknown: false }
}

#[test]
fn cell_op_set_and_unset_exclude_each_other() {
    let mut op = CellOp::default();
    op.set(0b0110);
    assert_eq!((op.set, op.unset), (0b0110, 0));
    op.unset(0b0011);
    assert_eq!((op.set, op.unset), (0b0100, 0b0011));
    op.set(0b0001);
    assert_eq!((op.set, op.unset), (0b0101, 0b0010));
}

#[test]
fn basic_animation_as_action() {
    let a = BasicAnimation {
        cell: 2,
        visibility: CellOp { set: 1, unset: 2 },
        targeting: CellOp { set: 4, unset: 8 },
    };
    let action: Action<u64> = a.action();
    assert_eq!(
        (action.chunk, action.set_v, action.unset_v, action.set_t, action.unset_t),
        (2, 1, 2, 4, 8)
    );
}

#[test]
fn advance_of_a_bound_context_wraps() {
    let batch = || vec![Action::<u8>::new(0)];
    let mut ctx: BasicContext<u8> = BasicContext { head: 0, animations: vec![batch(), batch(), batch()] };
    let played: Vec<usize> = (0..7).map(|_| ctx.advance(true).unwrap()).collect();
    assert_eq!(played, vec![0, 1, 2, 0, 1, 2, 0]);
    assert_eq!(ctx.head, 1);
}

#[test]
fn advance_of_the_global_context_ends() {
    let batch = || vec![Action::<u8>::new(0)];
    let mut ctx: BasicContext<u8> = BasicContext { head: 0, animations: vec![batch(), batch()] };
    assert_eq!(ctx.advance(false), Ok(0));
    assert_eq!(ctx.advance(false), Ok(1));
    assert_eq!(ctx.advance(false), Err(Error::ExhaustedGlobalContext));
    assert_eq!(ctx.advance(false), Err(Error::ExhaustedGlobalContext));
    assert_eq!(ctx.head, 2);
    let mut empty: BasicContext<u8> = BasicContext::default();
    assert_eq!(empty.advance(true), Err(Error::ExhaustedGlobalContext));
    assert_eq!(empty.advance(false), Err(Error::ExhaustedGlobalContext));
}

#[test]
fn init_context_splits_batches_at_click_marks() {
    let refs = vec![Referer::Shape(0), Referer::Shape(1)];
    let states = vec![rect(0, 0, 1, 1, Color::black()), rect(3, 0, 1, 1, Color::black())];
    let a = |i, click, effect| Animation { target: Referer::Shape(i), click, effect };
    let anims = vec![
        a(0, true, Effect::Disappear),
        a(1, false, Effect::Disappear),
        a(1, true, Effect::Appear),
        a(0, true, Effect::Appear),
        a(0, false, Effect::Disappear),
    ];
    let ctx: BasicContext<u8> = init_context(&anims, &refs, &states, (0, 0), 1).unwrap();
    assert_eq!(ctx.head, 0);
    let seen: Vec<Vec<(u8, u8)>> = ctx
        .animations
        .iter()
        .map(|batch| batch.iter().map(|a| (a.set_v, a.unset_v)).collect())
        .collect();
    // the mark on the first animation opens no batch; in the last batch the later
    // decision wins
    assert_eq!(seen, vec![vec![(0, 0b11)], vec![(0b10, 0)], vec![(0, 0b01)]]);
    let none: BasicContext<u8> = init_context(&Vec::new(), &refs, &states, (0, 0), 1).unwrap();
    assert!(none.animations.is_empty());
    let bad = vec![a(2, false, Effect::Appear)];
    assert!(matches!(init_context::<u8>(&bad, &refs, &states, (0, 0), 1), Err(Error::UnsupportedTarget)));
}

/// A switch at (0, 0) and a lamp at (4, 0). A click on the switch turns the lamp off, the
/// next one turns it on. A click elsewhere hides the switch, once.
fn switch_and_lamp() -> Slide {
    let mut slide = Slide::new(6, 2);
    let switch = slide.add(shape(0, 0, 1, 1, 0, Color::red(), "switch"));
    let lamp = slide.add(shape(4, 0, 1, 1, 1, Color::green(), "lamp"));
    slide.tl_add(lamp, Effect::Disappear, false, Some(switch));
    slide.tl_add(lamp, Effect::Appear, true, Some(switch));
    slide.tl_add(switch, Effect::Disappear, false, None);
    slide
}

#[test]
fn a_bound_context_starts_over_after_its_last_batch() {
    let mut p: direct::Presentation<u8> = direct::Presentation::from(&switch_and_lamp(), (9, 9)).unwrap();
    assert_eq!(p.states_dyn.v.chunks, vec![0b11]);
    assert_eq!(p.under(0, 0), Some(0));
    let mut lamp = Vec::new();
    for _ in 0..3 {
        assert_eq!(p.click(0, 0), Ok(()));
        lamp.push(p.states_dyn.v.get(1));
    }
    // two batches, three clicks: the third plays the first batch again
    assert_eq!(lamp, vec![false, true, false]);
    assert_eq!(p.timeline.contexts[0].head, 1);
    assert_eq!(p.timeline.main_context.head, 0);
}

#[test]
fn the_global_context_ends_the_presentation_when_played_out() {
    let mut p: direct::Presentation<u8> = direct::Presentation::from(&switch_and_lamp(), (9, 9)).unwrap();
    // the lamp has no batches of its own: a click on it falls to the global context
    assert_eq!(p.under(4, 1), Some(1));
    assert_eq!(p.click(4, 1), Ok(()));
    assert_eq!(p.states_dyn.v.chunks, vec![0b10]);
    assert_eq!(p.timeline.main_context.head, 1);
    // the switch is hidden now, so a click on it lands off every shape
    assert_eq!(p.under(0, 0), None);
    for _ in 0..3 {
        assert_eq!(p.click(0, 0), Err(Error::ExhaustedGlobalContext));
        assert_eq!(p.states_dyn.v.chunks, vec![0b10]);
        assert_eq!(p.timeline.main_context.head, 1);
        assert_eq!(p.timeline.contexts[0].head, 0);
    }
}

#[test]
fn direct_presentation_refuses_what_it_cannot_play() {
    let mut slide = switch_and_lamp();
    assert!(direct::Presentation::<u8>::from(&slide, (0, 0)).is_ok());
    // a group is refused, whether or not anything names it
    let group = slide.add(Shape::Group { z: Z(0, 0, 0), shapes: vec![] });
    assert!(matches!(direct::Presentation::<u8>::from(&slide, (0, 0)), Err(Error::UnsupportedTarget)));
    slide.tl_add(Referer::Shape(0), Effect::Appear, false, Some(group));
    assert!(matches!(direct::Presentation::<u8>::from(&slide, (0, 0)), Err(Error::UnsupportedTarget)));
    // the group is reported before an entry that does not carry its index
    slide.shapes.push((9, shape(0, 0, 1, 1, 0, Color::red(), "")));
    assert!(matches!(direct::Presentation::<u8>::from(&slide, (0, 0)), Err(Error::UnsupportedTarget)));
    let mut slide = switch_and_lamp();
    slide.tl_add(Referer::Shape(5), Effect::Appear, false, None);
    assert!(matches!(direct::Presentation::<u8>::from(&slide, (0, 0)), Err(Error::UnsupportedTarget)));
    let mut slide = switch_and_lamp();
    slide.shapes.push((9, shape(0, 0, 1, 1, 0, Color::red(), "")));
    assert!(matches!(direct::Presentation::<u8>::from(&slide, (0, 0)), Err(Error::IndexOutOfRange)));
}

#[test]
fn compiled_presentation_refuses_a_scene_with_a_group() {
    let mut slide = Slide::new(4, 4);
    slide.add(Shape::Group { z: Z(0, 0, 0), shapes: vec![] });
    assert!(matches!(
        compiled::Presentation::<u8>::from(&slide, (0, 0), 100),
        Err(Error::UnsupportedTarget)
    ));
    let mut slide = switch_and_lamp();
    assert!(compiled::Presentation::<u8>::from(&slide, (0, 0), 100).is_ok());
    slide.add(Shape::Group {
        z: Z(5, 0, 0),
        shapes: vec![shape(1, 1, 1, 1, 0, Color::blue(), "")],
    });
    assert!(matches!(
        compiled::Presentation::<u8>::from(&slide, (0, 0), 100),
        Err(Error::UnsupportedTarget)
    ));
    // not even a node limit of none comes before it
    assert!(matches!(
        compiled::Presentation::<u8>::from(&slide, (0, 0), 0),
        Err(Error::UnsupportedTarget)
    ));
}

#[test]
fn under_takes_the_topmost_visible_shape() {
    let states = vec![rect(0, 0, 2, 2, Color::red()), rect(1, 1, 2, 2, Color::green()), rect(5, 5, 1, 1, Color::blue())];
    let mut state: State<u8> = State::new(1);
    state.v.chunks[0] = 0b111;
    assert_eq!(under(&states, &state, (9, 9), 1, 1), Some(0));
    assert_eq!(under(&states, &state, (9, 9), 3, 3), Some(1));
    assert_eq!(under(&states, &state, (9, 9), 2, 2), Some(0));
    assert_eq!(under(&states, &state, (9, 9), 4, 4), None);
    state.v.chunks[0] = 0b110;
    assert_eq!(under(&states, &state, (9, 9), 1, 1), Some(1));
    // a targeted shape lies on the focus point, not where it rests
    state.t.chunks[0] = 0b100;
    assert_eq!(under(&states, &state, (9, 9), 5, 5), None);
    assert_eq!(under(&states, &state, (9, 9), 10, 9), Some(2));
}

#[test]
fn render_draws_the_topmost_shape_last() {
    let states = vec![rect(0, 0, 2, 1, Color::red()), rect(1, 0, 2, 2, Color::green()), rect(3, 1, 1, 1, Color::blue())];
    let ctx = RenderingContext { states_const: &states, target: (0, 1), width: 4, height: 2 };
    let mut state: State<u8> = State::new(1);
    state.v.chunks[0] = 0b011;
    let (r, g, w) = (Color::red(), Color::green(), Color::white());
    let canvas = render_state(&ctx, &state, 1, w);
    assert_eq!((canvas.width, canvas.height), (4, 2));
    assert_eq!(canvas.pixels, vec![r, r, g, w, w, g, g, w]);
    // the blue shape shows on the focus point once it is visible and targeted
    state.v.chunks[0] = 0b111;
    state.t.chunks[0] = 0b100;
    let canvas = render_state(&ctx, &state, 1, w);
    assert_eq!(canvas.pixels, vec![r, r, g, w, Color::blue(), g, g, w]);
}

#[test]
fn render_scales_and_frames_unknown_shapes() {
    let states = vec![rect(1, 1, 1, 1, Color::red())];
    let ctx = RenderingContext { states_const: &states, target: (0, 0), width: 3, height: 3 };
    let mut state: State<u8> = State::new(1);
    state.v.chunks[0] = 0b1;
    let w = Color::white();
    let canvas = render_state(&ctx, &state, 2, w);
    assert_eq!((canvas.width, canvas.height), (6, 6));
    for y in 0..6 {
        for x in 0..6 {
            let inside = (2..4).contains(&x) && (2..4).contains(&y);
            assert_eq!(canvas.pixels[y * 6 + x], if inside { Color::red() } else { w });
        }
    }
    state.u.chunks[0] = 0b1;
    let canvas = render_state(&ctx, &state, 2, w);
    let yellow = Color::new(255, 255, 0);
    for y in 0..6 {
        for x in 0..6 {
            let inside = (2..4).contains(&x) && (2..4).contains(&y);
            let framed = (1..5).contains(&x) && (1..5).contains(&y);
            let expected = if inside { Color::red() } else if framed { yellow } else { w };
            assert_eq!(canvas.pixels[y * 6 + x], expected);
        }
    }
    // at scale 1 the shape is one pixel wide: no frame unless it is targeted
    let canvas = render_state(&ctx, &state, 1, w);
    assert_eq!(canvas.pixels.iter().filter(|c| **c == yellow).count(), 0);
    state.t.chunks[0] = 0b1;
    let canvas = render_state(&ctx, &state, 1, w);
    assert_eq!(canvas.pixels, vec![Color::red(), yellow, w, yellow, yellow, w, w, w, w]);
}

/// Three shapes on the focus point: two controls that hide themselves, and a reset that
/// hides itself and brings the controls back.
fn controls() -> Slide {
    let mut slide = Slide::new(4, 4);
    let c0 = slide.add(shape(0, 0, 1, 1, 0, Color::red(), "c0"));
    let c1 = slide.add(shape(0, 0, 1, 1, 1, Color::red(), "c1"));
    let reset = slide.add(shape(0, 0, 1, 1, 2, Color::blue(), "reset"));
    slide.tl_add(c0, Effect::Disappear, false, Some(c0));
    slide.tl_add(c1, Effect::Disappear, false, Some(c1));
    slide.tl_add(reset, Effect::Disappear, false, Some(reset));
    slide.tl_add(c0, Effect::Appear, false, Some(reset));
    slide.tl_add(c1, Effect::Appear, false, Some(reset));
    slide
}

#[test]
fn compiled_presentation_builds_the_graph_and_plays() {
    let mut p: compiled::Presentation<u8> = compiled::Presentation::from(&controls(), (0, 0), 100).unwrap();
    assert_eq!(p.states_const.len(), 3);
    assert_eq!(p.context.root.v.chunks, vec![0b111]);
    assert_eq!(p.context.root.t.chunks, vec![0b111]);
    // no state leaves a choice: {c0,c1,r} -c0-> {c1,r} -c1-> {r} -r-> {c0,c1} -c0-> {c1}
    // -c1-> {}, where there is nothing to click
    assert_eq!(p.graph.nodes.len(), 1);
    assert!(p.graph.nodes[0].from.as_slice().is_empty());
    assert_eq!(p.under(0, 0), Some(0));
    assert_eq!(p.click(0, 0), Ok(()));
    assert_eq!(p.state.v.chunks, vec![0b110]);
    assert_eq!(p.under(1, 1), Some(1));
    assert_eq!(p.click(1, 1), Ok(()));
    assert_eq!(p.click(0, 1), Ok(()));
    assert_eq!(p.state.v.chunks, vec![0b011]);
    assert_eq!(p.click(3, 3), Err(Error::ExhaustedGlobalContext));
    assert_eq!(p.state.v.chunks, vec![0b011]);
    let canvas = p.render(1, Color::white());
    assert_eq!(canvas.pixels[0], Color::red());
    assert_eq!(canvas.pixels[2], Color::white());
}

#[test]
fn compiled_presentation_merges_states_met_again() {
    // a toggle: the control hides itself and shows the other
    let mut slide = Slide::new(4, 4);
    let a = slide.add(shape(0, 0, 1, 1, 0, Color::red(), "a"));
    let b = slide.add(shape(0, 0, 1, 1, 1, Color::red(), "b"));
    slide.tl_add(b, Effect::Disappear, false, None);
    slide.tl_add(a, Effect::Disappear, false, Some(a));
    slide.tl_add(b, Effect::Appear, false, Some(a));
    slide.tl_add(b, Effect::Disappear, false, Some(b));
    slide.tl_add(a, Effect::Appear, false, Some(b));
    let p: compiled::Presentation<u16> = compiled::Presentation::from(&slide, (0, 0), 100).unwrap();
    assert_eq!(p.context.root.v.chunks, vec![0b01]);
    // the forced clicks go back and forth; when they are used up, the click is recorded
    assert_eq!(p.graph.nodes.len(), 2);
    assert_eq!(p.graph.nodes[0].from.as_slice(), &[Edge(NodeId::new(1), ShapeId::new(1))]);
    assert_eq!(p.graph.nodes[1].from.as_slice(), &[Edge(NodeId::new(0), ShapeId::new(0))]);
    assert!(matches!(
        compiled::Presentation::<u16>::from(&slide, (0, 0), 1),
        Err(Error::CapacityExceeded)
    ));
}


#[test]
fn presentations_know_when_they_are_damaged() {
    let mut p: compiled::Presentation<u8> = compiled::Presentation::from(&controls(), (0, 0), 100).unwrap();
    assert!(p.check());
    p.states_const.pop();
    assert!(!p.check());
    let mut m: direct::Presentation<u8> = direct::Presentation::from(&switch_and_lamp(), (9, 9)).unwrap();
    assert!(m.check());
    m.timeline.contexts[0].animations[0][0].chunk = 1;
    assert!(!m.check());
    m.timeline.contexts[0].animations[0][0].chunk = 0;
    assert!(m.check());
    m.timeline.contexts.pop();
    assert!(!m.check());
}

/// Two controls whose state is never known, a reset, and four bars that the controls
/// hide; everything on the focus point.
fn controls_and_bars() -> Slide {
    let mut slide = Slide::new(40, 30);
    let red = Color::new(255, 0, 0);
    let c0 = slide.add(shape(0, 0, 1, 1, 0, red, "CONTROL_C0"));
    let c1 = slide.add(shape(0, 0, 1, 1, 0, red, "CONTROL_C1"));
    let reset = slide.add(shape(0, 0, 1, 1, 0, Color::blue(), "RESET"));
    let bars: Vec<Referer> =
        (1..5).map(|w| slide.add(shape(0, 0, w, 1, 0, Color::black(), ""))).collect();
    for (on, targets) in [(c0, [c0, bars[0], bars[1]]), (c1, [c1, bars[0], bars[2]])] {
        for target in targets {
            slide.tl_add(target, Effect::Disappear, false, Some(on));
        }
    }
    slide.tl_add(reset, Effect::Disappear, false, None);
    slide.tl_add(reset, Effect::Disappear, false, Some(reset));
    for target in [c0, c1, bars[0], bars[1], bars[2]] {
        slide.tl_add(target, Effect::Appear, false, Some(reset));
    }
    for bar in bars {
        slide.tl_add(reset, Effect::Appear, false, Some(bar));
    }
    slide
}

#[test]
fn a_scene_with_unknown_controls_compiles_to_a_closed_graph() {
    let p: compiled::Presentation<u8> =
        compiled::Presentation::from(&controls_and_bars(), (0, 0), 1000).unwrap();
    assert_eq!(p.context.u.chunks, vec![0b0000011]);
    // the reset was hidden by the global context, the controls count as visible
    assert_eq!(p.context.root.v.chunks, vec![0b1111011]);
    assert!(p.graph.nodes.len() > 1);
    let mut arena = powerpointrs::graph::Arena::new(p.context.cap);
    let mut firsts = Vec::new();
    for id in 0..p.graph.nodes.len() {
        let node = NodeId::new(id);
        let mut state = p.graph.compute_state(&p.context, &mut arena, node).unwrap();
        // every click that the settled state allows is recorded
        state.forward(&p.context, &mut firsts, powerpointrs::graph::FORWARD_LIMIT);
        for (i, first) in firsts.iter().enumerate() {
            let next = p.graph.successor(node, *first).unwrap();
            let mut after = state.clone();
            after.apply(&p.context, *first, &firsts[..i]);
            let known = p.graph.compute_state(&p.context, &mut arena, next).unwrap();
            assert!(known.can_merge(&after));
        }
        // and no two nodes have the same state
        for other in 0..id {
            let s = p.graph.compute_state(&p.context, &mut arena, NodeId::new(other)).unwrap();
            let t = p.graph.compute_state(&p.context, &mut arena, node).unwrap();
            assert!(s.t != t.t || s.v != t.v || s.u != t.u);
        }
    }
}

#[test]
fn a_shape_that_enters_starts_hidden() {
    let mut slide = Slide::new(8, 2);
    let guest = slide.add(shape(0, 0, 1, 1, 0, Color::red(), "guest"));
    let host = slide.add(shape(2, 0, 1, 1, 0, Color::green(), "host"));
    let _wall = slide.add(shape(4, 0, 1, 1, 0, Color::blue(), "wall"));
    slide.tl_add(guest, Effect::Appear, false, None);
    slide.tl_add(host, Effect::Disappear, true, None);
    let mut p: direct::Presentation<u8> = direct::Presentation::from(&slide, (9, 9)).unwrap();
    // the guest enters later, so it is hidden; the host leaves later, so it is there;
    // the wall is never animated and stays
    assert_eq!(p.states_dyn.v.chunks, vec![0b110]);
    assert_eq!(p.states_dyn.u.chunks, vec![0]);
    assert_eq!(p.click(6, 6), Ok(()));
    assert_eq!(p.states_dyn.v.chunks, vec![0b111]);
    assert_eq!(p.click(6, 6), Ok(()));
    assert_eq!(p.states_dyn.v.chunks, vec![0b101]);
    assert_eq!(p.click(6, 6), Err(Error::ExhaustedGlobalContext));
}

#[test]
fn next_run_ends_before_the_next_click() {
    let flags = [true, false, false, true, false, true];
    assert_eq!(direct::next_run(&flags, 0, false), Ok((0, 3)));
    assert_eq!(direct::next_run(&flags, 3, false), Ok((3, 5)));
    assert_eq!(direct::next_run(&flags, 5, false), Ok((5, 6)));
    // a run that starts in the middle of a batch plays the rest of it
    assert_eq!(direct::next_run(&flags, 1, true), Ok((1, 3)));
    // the first animation is played whether or not it waits for a click
    assert_eq!(direct::next_run(&[false, false, true], 0, true), Ok((0, 2)));
    assert_eq!(direct::next_run(&[true, true, true], 1, true), Ok((1, 2)));
    assert_eq!(direct::next_run(&[false], 0, false), Ok((0, 1)));
}

#[test]
fn next_run_wraps_around_for_a_shape_only() {
    let flags = [true, false, true];
    assert_eq!(direct::next_run(&flags, 3, true), Ok((0, 2)));
    assert_eq!(direct::next_run(&flags, 7, true), Ok((0, 2)));
    assert_eq!(direct::next_run(&flags, 3, false), Err(Error::ExhaustedGlobalContext));
    assert_eq!(direct::next_run(&flags, 4, false), Err(Error::ExhaustedGlobalContext));
    assert_eq!(direct::next_run(&[], 0, true), Err(Error::ExhaustedGlobalContext));
    assert_eq!(direct::next_run(&[], 0, false), Err(Error::ExhaustedGlobalContext));
}

#[test]
fn next_run_plays_a_list_run_by_run() {
    let flags = [true, false, true, true, false, false];
    let mut head = 0;
    let mut runs = Vec::new();
    while let Ok((start, end)) = direct::next_run(&flags, head, false) {
        runs.push((start, end));
        head = end;
    }
    assert_eq!(runs, vec![(0, 2), (2, 3), (3, 6)]);
    assert_eq!(head, flags.len());
}
