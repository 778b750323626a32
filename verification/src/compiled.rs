//! A presentation that is compiled to its graph of states before it is played.

use crate::animate::{lower, lower_fault, lowers, Lowered};
use crate::bits::Bits;
use crate::compiler::{Context, State};
use crate::error::Error;
use crate::explore::{compile, too_small};
use crate::flatten::{flat_scene, ShapeConstState};
use crate::graph::Graph;
use crate::ids::{indices, ShapeId};
use crate::playback::{first_hit, render_state, under, Picture, RenderingContext};
use crate::render::Canvas;
use crate::scene::{Color, Slide};
use vstd::prelude::*;

verus! {

/// A compiled scene, the graph of its states, and the state it is in.
#[derive(Debug)]
pub struct Presentation<T: Bits> {
    pub context: Context<T>,
    pub graph: Graph<T>,
    pub state: State<T>,
    pub states_const: Vec<ShapeConstState>,
    pub width: u32,
    pub height: u32,
    pub target: (i32, i32),
}

impl<T: Bits> Presentation<T> {
    /// The context is well formed, and the state and the rectangles are those of its
    /// shapes.
    pub open spec fn wf(&self) -> bool {
        &&& self.context.wf()
        &&& self.state.has_cap(self.context.cap as nat)
        &&& self.states_const@.len() == self.context.n
    }

    /// The focus point.
    pub open spec fn focus(&self) -> (int, int) {
        (self.target.0 as int, self.target.1 as int)
    }

    /// Whether the parts fit together, so that the presentation can be played and drawn.
    pub fn check(&self) -> (r: bool)
        ensures
            r == self.wf(),
    {
        self.context.check().is_ok() && self.state.t.cap() == self.context.cap && self.state.v.cap()
            == self.context.cap && self.state.u.cap() == self.context.cap && self.states_const.len()
            == self.context.n
    }

    /// Compiles a scene, with `target` as the focus point: lowers it, and builds the graph
    /// of the states that clicks on shapes can reach, with at most `max_nodes` nodes. The
    /// presentation starts in the root state. A scene that holds a group is refused with
    /// `UnsupportedTarget`, before anything else is looked at.
    pub fn from(slide: &Slide, target: (i32, i32), max_nodes: u32) -> (r: Result<Self, Error>)
        ensures
            match r {
                Ok(p) => {
                    &&& lower_fault(*slide, T::width()) is None
                    &&& lowers(*slide, (target.0 as int, target.1 as int), &p.context, p.states_const@)
                    &&& p.wf()
                    &&& p.graph.wf(&p.context)
                    &&& p.graph.sound(&p.context)
                    &&& p.graph.closed(&p.context)
                    &&& p.graph.distinct(&p.context)
                    &&& p.graph.exact(&p.context)
                    &&& p.graph.ordered()
                    &&& p.graph.stored_by_stride()
                    &&& p.graph.unique(&p.context)
                    &&& p.graph.filed_in_order(&p.context)
                    &&& p.graph.nodes@.len() <= max_nodes
                    &&& p.state@ == p.context.root@
                    &&& p.target == target
                    &&& p.width == slide.width
                    &&& p.height == slide.height
                },
                Err(e) => lower_fault(*slide, T::width()) == Some(e) || (lower_fault(
                    *slide,
                    T::width(),
                ) is None && e == Error::CapacityExceeded && exists|context: Context<T>|
                    lowers(
                        *slide,
                        (target.0 as int, target.1 as int),
                        &context,
                        flat_scene(slide.shapes@),
                    ) && (max_nodes == 0 || exists|partial: Graph<T>|
                        too_small(&partial, &context, max_nodes))),
            },
    {
        let lowered: Lowered<T> = match lower(slide, target) {
            Ok(lowered) => lowered,
            Err(e) => {
                return Err(e);
            },
        };
        let Lowered { context, refs, states_const, seed } = lowered;
        let graph = match compile(&context, max_nodes) {
            Ok(graph) => graph,
            Err(e) => {
                return Err(e);
            },
        };
        let state = context.root.clone();
        Ok(
            Presentation {
                context,
                graph,
                state,
                states_const,
                width: slide.width,
                height: slide.height,
                target,
            },
        )
    }

    /// The topmost visible shape on which the point `(x, y)` lies, if there is one.
    pub fn under(&self, x: i32, y: i32) -> (r: Option<usize>)
        requires
            self.wf(),
        ensures
            match r {
                Some(i) => i < self.states_const@.len() && first_hit(
                    self.states_const@,
                    self.state@,
                    self.focus(),
                    x as int,
                    y as int,
                    0,
                ) == Some(i as int),
                None => first_hit(self.states_const@, self.state@, self.focus(), x as int, y as int, 0)
                    is None,
            },
    {
        under(self.states_const.as_slice(), &self.state, self.target, x, y)
    }

    /// Plays a click on the point `(x, y)`: the actions of the topmost visible shape on
    /// which the point lies are applied to the state. A click that lands off every shape
    /// fails with `ExhaustedGlobalContext` and changes nothing: the global context was
    /// played to its end when the scene was compiled.
    pub fn click(&mut self, x: i32, y: i32) -> (r: Result<(), Error>)
        requires
            old(self).wf(),
        ensures
            final(self).wf(),
            final(self).context == old(self).context,
            final(self).states_const == old(self).states_const,
            final(self).target == old(self).target,
            match first_hit(
                old(self).states_const@,
                old(self).state@,
                old(self).focus(),
                x as int,
                y as int,
                0,
            ) {
                Some(i) => r.is_ok() && final(self).state@ == old(self).state@.clicked(
                    old(self).context.actions_of(i),
                    Seq::<int>::empty(),
                ),
                None => r == Err::<(), Error>(Error::ExhaustedGlobalContext) && final(self).state
                    == old(self).state,
            },
    {
        match under(self.states_const.as_slice(), &self.state, self.target, x, y) {
            Some(i) => {
                let none: Vec<ShapeId> = Vec::new();
                assert(indices(none@) =~= Seq::<int>::empty());
                self.state.apply(&self.context, ShapeId::new(i), none.as_slice());
                Ok(())
            },
            None => Err(Error::ExhaustedGlobalContext),
        }
    }

    /// Draws the state, `scale` pixels to the scene unit.
    pub fn render(&self, scale: u16, background: Color) -> (canvas: Canvas<Color>)
        requires
            self.wf(),
            self.width * scale <= isize::MAX,
            self.height * scale <= isize::MAX,
            (self.width * scale) * (self.height * scale) <= usize::MAX,
        ensures
            canvas.wf(),
            canvas.width == self.width * scale,
            canvas.height == self.height * scale,
            forall|px: int, py: int|
                0 <= px < canvas.width && 0 <= py < canvas.height ==> #[trigger] canvas.at(px, py) == (Picture {
                    states: self.states_const@,
                    state: self.state@,
                    target: self.focus(),
                    scale: scale as int,
                    width: canvas.width as int,
                    height: canvas.height as int,
                }).pixel(background, 0, px, py),
    {
        let ctx = RenderingContext {
            states_const: self.states_const.as_slice(),
            target: self.target,
            width: self.width,
            height: self.height,
        };
        render_state(&ctx, &self.state, scale, background)
    }
}

} // verus!
