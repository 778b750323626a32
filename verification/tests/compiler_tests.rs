use powerpointrs::action::{Action, Tri};
use powerpointrs::compiler::{Context, State};
use powerpointrs::error::Error;
use powerpointrs::explore::compile;
use powerpointrs::graph::{partial_hash, Arena, Edge, Edges, Graph, Node, FORWARD_LIMIT};
use powerpointrs::ids::{NodeId, ShapeId};

fn state_u8(t: u8, v: u8, u: u8) -> State<u8> {
    let mut s: State<u8> = State::new(1);
    s.t.chunks[0] = t;
    s.v.chunks[0] = v;
    s.u.chunks[0] = u;
    s
}

fn action(chunk: usize, set_t: u8, unset_t: u8, set_v: u8, unset_v: u8) -> Action<u8> {
    Action { chunk, set_t, unset_t, set_v, unset_v }
}

#[test]
fn tri_has_three_values() {
    assert_ne!(Tri::T, Tri::F);
    assert_ne!(Tri::T, Tri::U);
    assert_ne!(Tri::F, Tri::U);
}

#[test]
fn action_new_touches_nothing() {
    let a: Action<u16> = Action::new(3);
    assert_eq!(a.chunk, 3);
    assert_eq!((a.set_t, a.unset_t, a.set_v, a.unset_v), (0, 0, 0, 0));
    assert_eq!(a.check(), Ok(()));
}

#[test]
fn overlapping_masks_are_malformed() {
    assert_eq!(action(0, 0b1, 0b1, 0, 0).check(), Err(Error::MalformedAction));
    assert_eq!(action(0, 0, 0, 0b110, 0b010).check(), Err(Error::MalformedAction));
    assert_eq!(action(0, 0b01, 0b10, 0b10, 0b01).check(), Ok(()));
}

#[test]
fn context_new_sizes_its_parts() {
    let ctx: Context<u8> = Context::new(9);
    assert_eq!(ctx.n, 9);
    assert_eq!(ctx.cap, 2);
    assert_eq!(ctx.actions.len(), 9);
    assert_eq!(ctx.root.t.chunks.len(), 2);
    assert_eq!(ctx.u.chunks.len(), 2);
    assert_eq!(ctx.check(), Ok(()));
    let exact: Context<u8> = Context::new(16);
    assert_eq!(exact.cap, 2);
    let none: Context<u64> = Context::new(0);
    assert_eq!(none.cap, 0);
}

#[test]
fn context_check_finds_faults() {
    let mut ctx: Context<u8> = Context::new(3);
    ctx.actions[1].push(action(0, 0b1, 0b1, 0, 0));
    assert_eq!(ctx.check(), Err(Error::MalformedAction));
    let mut ctx: Context<u8> = Context::new(3);
    ctx.actions[2].push(action(1, 0, 0, 0b1, 0));
    assert_eq!(ctx.check(), Err(Error::IndexOutOfRange));
    let mut ctx: Context<u8> = Context::new(3);
    ctx.cap = 2;
    assert_eq!(ctx.check(), Err(Error::IndexOutOfRange));
}

#[test]
fn apply_action_sets_then_unsets_and_decides() {
    let mut s = state_u8(0b0000_0101, 0b0000_0011, 0b0011_1111);
    s.apply_action(&action(0, 0b0000_1000, 0b0000_0001, 0b0000_0100, 0b0000_0010));
    assert_eq!(s.t.chunks[0], 0b0000_1100);
    assert_eq!(s.v.chunks[0], 0b0000_0101);
    // shapes 0 to 3 had an attribute decided; 4 and 5 did not
    assert_eq!(s.u.chunks[0], 0b0011_0000);
}

#[test]
fn a_decision_on_either_attribute_clears_unknown() {
    // each mask on its own
    for (a, left) in [
        (action(0, 0b0001, 0, 0, 0), 0b1110u8),
        (action(0, 0, 0b0010, 0, 0), 0b1101),
        (action(0, 0, 0, 0b0100, 0), 0b1011),
        (action(0, 0, 0, 0, 0b1000), 0b0111),
    ] {
        let mut s = state_u8(0b0101, 0b0011, 0b1111);
        s.apply_action(&a);
        assert_eq!(s.u.chunks[0], left);
    }
    // an action that touches nothing leaves every mark
    let mut s = state_u8(0b0101, 0b0011, 0b1111);
    s.apply_action(&Action::new(0));
    assert_eq!((s.t.chunks[0], s.v.chunks[0], s.u.chunks[0]), (0b0101, 0b0011, 0b1111));
}

#[test]
fn rebuilding_clears_unknown_as_applying_does() {
    // shape 0 is unknown; a click on shape 1 moves shape 0 off the focus point
    let mut ctx: Context<u8> = Context::new(2);
    ctx.root.t.chunks[0] = 0b11;
    ctx.root.v.chunks[0] = 0b10;
    ctx.root.u.chunks[0] = 0b01;
    ctx.u.chunks[0] = 0b01;
    ctx.actions[1].push(action(0, 0, 0b11, 0, 0));
    let mut direct = ctx.root.clone();
    direct.apply(&ctx, ShapeId::new(1), &[]);
    assert_eq!((direct.t.chunks[0], direct.v.chunks[0], direct.u.chunks[0]), (0b00, 0b10, 0b00));
    let mut graph = Graph::new(&ctx);
    graph.nodes.push(Node::new(NodeId::new(0), ShapeId::new(1)));
    let mut arena = Arena::new(ctx.cap);
    let rebuilt = graph.compute_state(&ctx, &mut arena, NodeId::new(1)).unwrap();
    assert_eq!((rebuilt.t.chunks[0], rebuilt.v.chunks[0], rebuilt.u.chunks[0]), (0b00, 0b10, 0b00));
}

#[test]
fn context_check_refuses_what_is_about_no_shape() {
    // three shapes in a chunk of eight: positions 3 to 7 are no shapes
    let mut ctx: Context<u8> = Context::new(3);
    ctx.root.t.chunks[0] = 0b0000_1000;
    assert_eq!(ctx.check(), Err(Error::IndexOutOfRange));
    let mut ctx: Context<u8> = Context::new(3);
    ctx.root.v.chunks[0] = 0b1000_0000;
    assert_eq!(ctx.check(), Err(Error::IndexOutOfRange));
    let mut ctx: Context<u8> = Context::new(3);
    ctx.root.u.chunks[0] = 0b0001_0000;
    assert_eq!(ctx.check(), Err(Error::IndexOutOfRange));
    let mut ctx: Context<u8> = Context::new(3);
    ctx.u.chunks[0] = 0b0000_1000;
    assert_eq!(ctx.check(), Err(Error::IndexOutOfRange));
    for a in [
        action(0, 0b0000_1000, 0, 0, 0),
        action(0, 0, 0b0001_0000, 0, 0),
        action(0, 0, 0, 0b0010_0000, 0),
        action(0, 0, 0, 0, 0b1000_0000),
    ] {
        let mut ctx: Context<u8> = Context::new(3);
        ctx.actions[0].push(a);
        assert_eq!(ctx.check(), Err(Error::IndexOutOfRange));
    }
    // the same marks on the last shape are accepted
    let mut ctx: Context<u8> = Context::new(3);
    ctx.root.t.chunks[0] = 0b0000_0100;
    ctx.root.v.chunks[0] = 0b0000_0100;
    ctx.root.u.chunks[0] = 0b0000_0100;
    ctx.u.chunks[0] = 0b0000_0100;
    ctx.actions[0].push(action(0, 0b0000_0100, 0, 0, 0b0000_0100));
    assert_eq!(ctx.check(), Ok(()));
    // with every position a shape nothing is left over
    let mut ctx: Context<u8> = Context::new(8);
    ctx.root.t.chunks[0] = 0b1000_0000;
    ctx.actions[7].push(action(0, 0, 0, 0b1000_0000, 0));
    assert_eq!(ctx.check(), Ok(()));
}

#[test]
fn an_action_fits_when_it_touches_shapes_only() {
    let a = action(1, 0b0000_0001, 0, 0, 0b0000_0100);
    // chunk 1 of eight-bit chunks: positions 8 and 10
    assert!(a.fits(11));
    assert!(a.fits(16));
    assert!(!a.fits(10));
    assert!(!a.fits(8));
    assert!(!a.fits(0));
    let none: Action<u8> = Action::new(1);
    assert!(none.fits(0));
}

#[test]
fn compile_records_clicks_on_shapes_only() {
    // one unknown shape among eight positions; nothing else may ever be clicked
    let mut ctx: Context<u8> = Context::new(3);
    ctx.root.t.chunks[0] = 0b101;
    ctx.root.v.chunks[0] = 0b101;
    ctx.root.u.chunks[0] = 0b001;
    ctx.u.chunks[0] = 0b001;
    ctx.actions[0].push(action(0, 0, 0, 0, 0b001));
    ctx.actions[2].push(action(0, 0, 0, 0b001, 0b100));
    assert_eq!(ctx.check(), Ok(()));
    let graph = compile(&ctx, 100).unwrap();
    for node in &graph.nodes {
        for edge in node.from.as_slice() {
            assert!(edge.1.index() < ctx.n);
        }
        assert!(node.cleared.iter().all(|s| s.index() < ctx.n));
        assert!(node.forced.iter().all(|s| s.index() < ctx.n));
    }
    for (t, v, u) in states_of(&ctx, &graph) {
        assert_eq!((t | v | u) & 0b1111_1000, 0);
    }
}

#[test]
fn applying_an_action_twice_is_applying_it_once() {
    let a = action(0, 0b1010_0000, 0b0000_0101, 0b0011_0000, 0b0000_1100);
    for (t, v, u) in [(0u8, 0u8, 0u8), (0xFF, 0xFF, 0xFF), (0b1001_0110, 0b0110_1001, 0b1111_0000)] {
        let mut once = state_u8(t, v, u);
        once.apply_action(&a);
        let mut twice = state_u8(t, v, u);
        twice.apply_action(&a);
        twice.apply_action(&a);
        assert_eq!(once.t, twice.t);
        assert_eq!(once.v, twice.v);
        assert_eq!(once.u, twice.u);
    }
}

#[test]
fn apply_clears_the_earlier_candidates_first() {
    let mut ctx: Context<u8> = Context::new(4);
    ctx.actions[2].push(action(0, 0, 0, 0b0000_0001, 0b0000_0100));
    let mut s = state_u8(0b0111, 0b0111, 0b0011);
    s.apply(&ctx, ShapeId::new(2), &[ShapeId::new(0), ShapeId::new(1)]);
    // shape 1 was found hidden; shape 0 too, but the action then shows it; shape 2 hides
    assert_eq!(s.v.chunks[0], 0b0001);
    assert_eq!(s.u.chunks[0], 0b0000);
    assert_eq!(s.t.chunks[0], 0b0111);
}

#[test]
fn firsts_stops_at_the_first_decided_hit() {
    let mut out = vec![ShapeId::new(9)];
    // hits at 1, 3, 4, 6; 1 and 3 unknown, 4 decided
    state_u8(0b0101_1010, 0b0111_1010, 0b0000_1010).firsts(&mut out);
    assert_eq!(out, vec![ShapeId::new(1), ShapeId::new(3), ShapeId::new(4)]);
}

#[test]
fn firsts_lists_every_hit_when_all_are_unknown() {
    let mut out = Vec::new();
    let mut s: State<u8> = State::new(2);
    s.t.chunks = vec![0b1000_0001, 0b1000_0000];
    s.v.chunks = vec![0b1000_0001, 0b1100_0000];
    s.u.chunks = vec![0b1000_0001, 0b1000_0000];
    s.firsts(&mut out);
    assert_eq!(out, vec![ShapeId::new(0), ShapeId::new(7), ShapeId::new(15)]);
}

#[test]
fn firsts_of_a_state_without_hits_is_empty() {
    let mut out = vec![ShapeId::new(1)];
    state_u8(0b0101, 0b1010, 0b1111).firsts(&mut out);
    assert!(out.is_empty());
    let empty: State<u32> = State::new(0);
    empty.firsts(&mut out);
    assert!(out.is_empty());
}

#[test]
fn firsts_with_wide_chunks() {
    let mut s: State<u64> = State::new(1);
    s.t.chunks[0] = (1 << 63) | (1 << 40);
    s.v.chunks[0] = (1 << 63) | (1 << 40) | 1;
    s.u.chunks[0] = 1 << 40;
    let mut out = Vec::new();
    s.firsts(&mut out);
    assert_eq!(out, vec![ShapeId::new(40), ShapeId::new(63)]);
}

#[test]
fn can_merge_when_decided_shapes_agree() {
    let a = state_u8(0b0011, 0b0101, 0b1100);
    // differs from a only where a is unknown
    let b = state_u8(0b1011, 0b0001, 0b0100);
    assert!(a.can_merge(&b));
    assert!(a.can_merge(&a));
}

#[test]
fn cannot_merge_when_a_decided_shape_disagrees() {
    let a = state_u8(0b0011, 0b0101, 0b1100);
    assert!(!a.can_merge(&state_u8(0b0010, 0b0101, 0b1100)));
    assert!(!a.can_merge(&state_u8(0b0011, 0b0111, 0b1100)));
}

#[test]
fn cannot_merge_when_the_other_knows_less() {
    let a = state_u8(0b0011, 0b0101, 0b1100);
    assert!(!a.can_merge(&state_u8(0b0011, 0b0101, 0b1101)));
    // but the other may know more
    assert!(a.can_merge(&state_u8(0b0011, 0b0101, 0b0000)));
}

#[test]
fn partial_hash_depends_on_both_runs() {
    let h = partial_hash(&[1u8, 2], &[3u8, 4]);
    assert_eq!(h, partial_hash(&[1u8, 2], &[3u8, 4]));
    assert_ne!(h, partial_hash(&[1u8, 2], &[3u8, 5]));
    assert_ne!(h, partial_hash(&[0u8, 2], &[3u8, 4]));
    // the chunks are hashed as numbers, whatever their width
    assert_eq!(h, partial_hash(&[1u32, 2], &[3u32, 4]));
}

#[test]
fn ids_keep_their_index() {
    assert_eq!(NodeId::new(7).index(), 7);
    assert_eq!(ShapeId::new(u32::MAX as usize).index(), u32::MAX as usize);
    assert!(NodeId::new(1) < NodeId::new(2));
}

#[test]
fn edges_grow_one_by_one() {
    let mut edges = Edges::Zero;
    assert!(edges.as_slice().is_empty());
    for k in 0..5usize {
        edges.push(NodeId::new(k), ShapeId::new(10 + k));
        let all = edges.as_slice();
        assert_eq!(all.len(), k + 1);
        for (j, edge) in all.iter().enumerate() {
            assert_eq!(*edge, Edge(NodeId::new(j), ShapeId::new(10 + j)));
        }
    }
    assert!(matches!(edges, Edges::Many(_)));
}

#[test]
fn node_new_has_one_edge() {
    let node = Node::new(NodeId::new(3), ShapeId::new(4));
    assert_eq!(node.from.as_slice(), &[Edge(NodeId::new(3), ShapeId::new(4))]);
    assert!(node.cleared.is_empty());
    assert!(node.forced.is_empty());
    let node = Node::reached(NodeId::new(3), ShapeId::new(4), vec![ShapeId::new(1)], vec![ShapeId::new(2)]);
    assert_eq!(node.forced, vec![ShapeId::new(1)]);
    assert_eq!(node.cleared, vec![ShapeId::new(2)]);
    assert_eq!(node.find_parent(NodeId::new(5)), Some(Edge(NodeId::new(3), ShapeId::new(4))));
    assert_eq!(node.find_parent(NodeId::new(3)), None);
}

/// Two shapes on the focus point; a click on either hides it, and a click on the second
/// brings the first back.
fn two_shapes() -> Context<u8> {
    let mut ctx: Context<u8> = Context::new(2);
    ctx.root.t.chunks[0] = 0b11;
    ctx.root.v.chunks[0] = 0b11;
    ctx.actions[0].push(action(0, 0, 0, 0, 0b01));
    ctx.actions[1].push(action(0, 0, 0, 0b01, 0b10));
    ctx
}

/// Two unknown shapes on the focus point and a lamp elsewhere. A click on either shape
/// hides it; a click on the first turns the lamp off as well.
fn two_unknown_and_a_lamp() -> Context<u8> {
    let mut ctx: Context<u8> = Context::new(3);
    ctx.root.t.chunks[0] = 0b011;
    ctx.root.v.chunks[0] = 0b111;
    ctx.root.u.chunks[0] = 0b011;
    ctx.u.chunks[0] = 0b011;
    ctx.actions[0].push(action(0, 0, 0, 0, 0b101));
    ctx.actions[1].push(action(0, 0, 0, 0, 0b010));
    ctx
}

fn states_of(ctx: &Context<u8>, graph: &Graph<u8>) -> Vec<(u8, u8, u8)> {
    let mut arena = Arena::new(ctx.cap);
    (0..graph.nodes.len())
        .map(|id| {
            let s = graph.compute_state(ctx, &mut arena, NodeId::new(id)).unwrap();
            (s.t.chunks[0], s.v.chunks[0], s.u.chunks[0])
        })
        .collect()
}

#[test]
fn forward_plays_the_clicks_that_leave_no_choice() {
    let ctx = two_shapes();
    let mut state = ctx.root.clone();
    let mut firsts = Vec::new();
    // {0,1} -0-> {1} -1-> {0} -0-> {}
    let forced = state.forward(&ctx, &mut firsts, 10);
    assert_eq!(forced, vec![ShapeId::new(0), ShapeId::new(1), ShapeId::new(0)]);
    assert_eq!(state.v.chunks[0], 0b00);
    assert!(firsts.is_empty());
    // with less fuel it stops on the way
    let mut state = ctx.root.clone();
    let forced = state.forward(&ctx, &mut firsts, 2);
    assert_eq!(forced, vec![ShapeId::new(0), ShapeId::new(1)]);
    assert_eq!(state.v.chunks[0], 0b01);
    assert_eq!(firsts, vec![ShapeId::new(0)]);
    // a state with a choice is left as it is
    let ctx = two_unknown_and_a_lamp();
    let mut state = ctx.root.clone();
    assert!(state.forward(&ctx, &mut firsts, 10).is_empty());
    assert_eq!(firsts, vec![ShapeId::new(0), ShapeId::new(1)]);
    assert_eq!(state.v.chunks[0], 0b111);
}

#[test]
fn compile_plays_forced_clicks_without_nodes() {
    let ctx = two_shapes();
    let graph = compile(&ctx, 100).unwrap();
    // every state on the way leaves no choice, and the last one has no candidate
    assert_eq!(graph.nodes.len(), 1);
    assert!(graph.nodes[0].from.as_slice().is_empty());
}

#[test]
fn compile_merges_a_state_met_again() {
    // one shape that a click leaves as it is: when the forced clicks are used up, the
    // click is recorded, and leads back to the root
    let mut ctx: Context<u8> = Context::new(1);
    ctx.root.t.chunks[0] = 0b1;
    ctx.root.v.chunks[0] = 0b1;
    ctx.actions[0].push(action(0, 0b1, 0, 0b1, 0));
    let graph = compile(&ctx, 100).unwrap();
    assert_eq!(graph.nodes.len(), 1);
    assert_eq!(graph.nodes[0].from.as_slice(), &[Edge(NodeId::new(0), ShapeId::new(0))]);
}

#[test]
fn compile_branches_on_unknown_candidates() {
    // shape 0 is unknown, shape 1 is decided; both sit on the focus point
    let mut ctx: Context<u8> = Context::new(2);
    ctx.root.t.chunks[0] = 0b11;
    ctx.root.v.chunks[0] = 0b11;
    ctx.root.u.chunks[0] = 0b01;
    ctx.actions[0].push(action(0, 0, 0b01, 0, 0));
    ctx.actions[1].push(action(0, 0, 0b10, 0, 0));
    let graph = compile(&ctx, 100).unwrap();
    assert_eq!(graph.nodes.len(), 3);
    // click on 0: it leaves the focus point, and is known from then on
    assert_eq!(graph.nodes[1].from.as_slice()[0], Edge(NodeId::new(0), ShapeId::new(0)));
    assert!(graph.nodes[1].cleared.is_empty());
    // click on 1: shape 0 was not there, so it is hidden and known
    assert_eq!(graph.nodes[2].from.as_slice()[0], Edge(NodeId::new(0), ShapeId::new(1)));
    assert_eq!(graph.nodes[2].cleared, vec![ShapeId::new(0)]);
    assert_eq!(
        states_of(&ctx, &graph),
        vec![(0b11, 0b11, 0b01), (0b10, 0b11, 0b00), (0b01, 0b10, 0b00)]
    );
}

#[test]
fn compile_merges_into_the_node_that_subsumes() {
    let ctx = two_unknown_and_a_lamp();
    let graph = compile(&ctx, 100).unwrap();
    // a click on shape 0 turns the lamp off, which the root does not allow: a new node.
    // a click on shape 1 leaves the lamp on and the rest known: the root stands for that
    assert_eq!(states_of(&ctx, &graph), vec![(0b011, 0b111, 0b011), (0b011, 0b010, 0b010)]);
    assert_eq!(graph.nodes[0].from.as_slice(), &[Edge(NodeId::new(0), ShapeId::new(1))]);
    assert_eq!(graph.nodes[1].from.as_slice(), &[Edge(NodeId::new(0), ShapeId::new(0))]);
    assert!(graph.nodes[1].forced.is_empty());
}

#[test]
fn compile_gives_up_beyond_the_node_limit() {
    let ctx = two_unknown_and_a_lamp();
    assert!(matches!(compile(&ctx, 1), Err(Error::CapacityExceeded)));
    assert!(matches!(compile(&ctx, 0), Err(Error::CapacityExceeded)));
    assert!(compile(&ctx, 2).is_ok());
}

#[test]
fn rebuilt_state_is_the_replayed_state() {
    // a long row of shapes that hide themselves one after the other: after every run of
    // forced clicks one click is recorded, so the nodes form a chain that is longer than
    // the distance between stored states
    let n = 160usize;
    let mut ctx: Context<u32> = Context::new(n);
    for c in 0..ctx.cap {
        ctx.root.t.chunks[c] = u32::MAX;
        ctx.root.v.chunks[c] = u32::MAX;
    }
    for k in 0..n {
        ctx.actions[k].push(Action { chunk: k / 32, set_t: 0, unset_t: 0, set_v: 0, unset_v: 1 << (k % 32) });
    }
    let graph = compile(&ctx, 1000).unwrap();
    assert_eq!(graph.nodes.len(), 10);
    // node 8 is the first that rebuilding would have to play eight recorded clicks for
    let mut stored: Vec<u32> = graph.cache.keys().copied().collect();
    stored.sort();
    assert_eq!(stored, vec![8]);
    let mut arena = Arena::new(ctx.cap);
    let mut replayed = ctx.root.clone();
    for id in 1..graph.nodes.len() {
        let node = &graph.nodes[id];
        let edge = node.from.as_slice()[0];
        assert_eq!(edge, Edge(NodeId::new(id - 1), ShapeId::new(id * (FORWARD_LIMIT + 1) - 1)));
        assert_eq!(node.forced.len(), FORWARD_LIMIT);
        for shape in &node.forced {
            replayed.apply(&ctx, *shape, &[]);
        }
        replayed.apply(&ctx, edge.1, &node.cleared);
        let rebuilt = graph.compute_state(&ctx, &mut arena, NodeId::new(id)).unwrap();
        assert_eq!(rebuilt.t, replayed.t);
        assert_eq!(rebuilt.v, replayed.v);
        assert_eq!(rebuilt.u, replayed.u);
    }
}

#[test]
fn compute_state_reports_a_node_without_older_parent() {
    let ctx = two_shapes();
    let mut graph = Graph::new(&ctx);
    graph.nodes.push(Node::new(NodeId::new(1), ShapeId::new(0)));
    graph.nodes.push(Node::new(NodeId::new(1), ShapeId::new(1)));
    let mut arena = Arena::new(ctx.cap);
    assert!(matches!(graph.compute_state(&ctx, &mut arena, NodeId::new(1)), Err(Error::GraphCycle)));
    // node 2 hangs below node 1, whose fault it meets
    assert!(matches!(graph.compute_state(&ctx, &mut arena, NodeId::new(2)), Err(Error::GraphCycle)));
    assert!(graph.compute_state(&ctx, &mut arena, NodeId::new(0)).is_ok());
}

#[test]
fn compute_state_reports_what_does_not_fit() {
    let ctx = two_shapes();
    let mut graph = Graph::new(&ctx);
    let mut arena = Arena::new(ctx.cap);
    let root = NodeId::new(0);
    assert!(matches!(graph.compute_state(&ctx, &mut arena, NodeId::new(1)), Err(Error::IndexOutOfRange)));
    graph.nodes.push(Node::new(root, ShapeId::new(8)));
    assert!(matches!(graph.compute_state(&ctx, &mut arena, NodeId::new(1)), Err(Error::IndexOutOfRange)));
    graph.nodes[1] = Node::reached(root, ShapeId::new(1), vec![], vec![ShapeId::new(8)]);
    assert!(matches!(graph.compute_state(&ctx, &mut arena, NodeId::new(1)), Err(Error::IndexOutOfRange)));
    graph.nodes[1] = Node::reached(root, ShapeId::new(1), vec![ShapeId::new(8)], vec![]);
    assert!(matches!(graph.compute_state(&ctx, &mut arena, NodeId::new(1)), Err(Error::IndexOutOfRange)));
    graph.nodes[1] = Node::reached(root, ShapeId::new(1), vec![], vec![ShapeId::new(0)]);
    let s = graph.compute_state(&ctx, &mut arena, NodeId::new(1)).unwrap();
    assert_eq!((s.t.chunks[0], s.v.chunks[0]), (0b11, 0b01));
    // the forced click on shape 0 hides it; the click on shape 1 then brings it back
    graph.nodes[1] = Node::reached(root, ShapeId::new(1), vec![ShapeId::new(0)], vec![]);
    let s = graph.compute_state(&ctx, &mut arena, NodeId::new(1)).unwrap();
    assert_eq!((s.t.chunks[0], s.v.chunks[0]), (0b11, 0b01));
    graph.nodes[1] = Node::reached(root, ShapeId::new(0), vec![ShapeId::new(0), ShapeId::new(1)], vec![]);
    let s = graph.compute_state(&ctx, &mut arena, NodeId::new(1)).unwrap();
    assert_eq!((s.t.chunks[0], s.v.chunks[0]), (0b11, 0b00));
    graph.cache.insert(1, State::new(3));
    assert!(matches!(graph.compute_state(&ctx, &mut arena, NodeId::new(1)), Err(Error::IndexOutOfRange)));
}

#[test]
fn merge_finds_the_node_that_subsumes() {
    let ctx = two_unknown_and_a_lamp();
    let graph = compile(&ctx, 100).unwrap();
    let mut arena = Arena::new(ctx.cap);
    let same_as_1 = graph.compute_state(&ctx, &mut arena, NodeId::new(1)).unwrap();
    assert_eq!(graph.merge(&ctx, &mut arena, &same_as_1), Ok(Some(NodeId::new(1))));
    let mut other: State<u8> = State::new(1);
    other.t.chunks[0] = 0b01;
    assert_eq!(graph.merge(&ctx, &mut arena, &other), Ok(None));
}

#[test]
fn walk_follows_recorded_clicks() {
    let ctx = two_unknown_and_a_lamp();
    let graph = compile(&ctx, 100).unwrap();
    let (s0, s1) = (ShapeId::new(0), ShapeId::new(1));
    assert_eq!(graph.successor(NodeId::new(0), s0), Some(NodeId::new(1)));
    assert_eq!(graph.successor(NodeId::new(0), s1), Some(NodeId::new(0)));
    assert_eq!(graph.successor(NodeId::new(1), s1), None);
    assert_eq!(graph.successor(NodeId::new(7), s0), None);
    assert_eq!(graph.walk(&[]), Some(NodeId::new(0)));
    assert_eq!(graph.walk(&[s1, s1, s0]), Some(NodeId::new(1)));
    assert_eq!(graph.walk(&[s0, s1]), None);
    assert_eq!(graph.walk(&[s0, s1, s1]), None);
}

#[test]
fn a_new_graph_holds_the_root() {
    let ctx = two_shapes();
    let graph = Graph::new(&ctx);
    assert_eq!(graph.nodes.len(), 1);
    assert!(graph.cache.is_empty());
    assert_eq!(graph.hashes.len(), 1);
    let mut arena = Arena::new(ctx.cap);
    assert_eq!(graph.merge(&ctx, &mut arena, &ctx.root), Ok(Some(NodeId::new(0))));
}
