//! Reading a state: which shape lies under a point, and what the scene looks like.
//!
//! The shape of compiled index 0 is the topmost. A visible shape is drawn where it rests,
//! or on the focus point if it is targeted.

use crate::bits::Bits;
use crate::compiler::{State, StateView};
use crate::flatten::ShapeConstState;
use crate::render::{clamped, Canvas};
use crate::scene::Color;
use vstd::prelude::*;

verus! {

/// What drawing needs besides the state: the rectangles, the focus point, and the size of
/// the scene.
#[derive(Debug)]
pub struct RenderingContext<'a> {
    pub states_const: &'a [ShapeConstState],
    pub target: (i32, i32),
    pub width: u32,
    pub height: u32,
}

/// Where the top left corner of a shape is: the focus point if it is targeted, else where
/// it rests.
pub open spec fn origin(shape: ShapeConstState, targeted: bool, target: (int, int)) -> (int, int) {
    if targeted {
        target
    } else {
        (shape.x as int, shape.y as int)
    }
}

/// Whether the point `(x, y)` lies on the shape, edges included.
pub open spec fn contains(
    shape: ShapeConstState,
    targeted: bool,
    target: (int, int),
    x: int,
    y: int,
) -> bool {
    let o = origin(shape, targeted, target);
    x >= o.0 && y >= o.1 && x <= o.0 + shape.w && y <= o.1 + shape.h
}

/// Whether shape `i` is visible and the point `(x, y)` lies on it.
pub open spec fn hit_at(
    states: Seq<ShapeConstState>,
    s: StateView,
    target: (int, int),
    x: int,
    y: int,
    i: int,
) -> bool {
    s.v[i] && contains(states[i], s.t[i], target, x, y)
}

/// The first shape from index `k` on that is visible and on which the point lies.
pub open spec fn first_hit(
    states: Seq<ShapeConstState>,
    s: StateView,
    target: (int, int),
    x: int,
    y: int,
    k: int,
) -> Option<int>
    decreases states.len() - k,
{
    if k < 0 || k >= states.len() {
        None
    } else if hit_at(states, s, target, x, y, k) {
        Some(k)
    } else {
        first_hit(states, s, target, x, y, k + 1)
    }
}

/// The first hit is a hit, and no shape before it is one.
pub proof fn lemma_first_hit(
    states: Seq<ShapeConstState>,
    s: StateView,
    target: (int, int),
    x: int,
    y: int,
    k: int,
)
    requires
        0 <= k,
    ensures
        match first_hit(states, s, target, x, y, k) {
            Some(i) => k <= i < states.len() && hit_at(states, s, target, x, y, i) && forall|j: int|
                k <= j < i ==> !hit_at(states, s, target, x, y, j),
            None => forall|j: int| k <= j < states.len() ==> !hit_at(states, s, target, x, y, j),
        },
    decreases states.len() - k,
{
    if k < states.len() && !hit_at(states, s, target, x, y, k) {
        lemma_first_hit(states, s, target, x, y, k + 1);
    }
}

/// The topmost visible shape on which the point `(x, y)` lies, if there is one.
pub fn under<T: Bits>(
    states_const: &[ShapeConstState],
    state: &State<T>,
    target: (i32, i32),
    x: i32,
    y: i32,
) -> (r: Option<usize>)
    requires
        states_const@.len() <= state.t.bits(),
        state.has_cap(state.t.chunks@.len()),
    ensures
        match r {
            Some(i) => i < states_const@.len() && first_hit(
                states_const@,
                state@,
                (target.0 as int, target.1 as int),
                x as int,
                y as int,
                0,
            ) == Some(i as int),
            None => first_hit(
                states_const@,
                state@,
                (target.0 as int, target.1 as int),
                x as int,
                y as int,
                0,
            ) is None,
        },
{
    let ghost at = (target.0 as int, target.1 as int);
    let mut i: usize = 0;
    while i < states_const.len()
        invariant
            i <= states_const@.len(),
            states_const@.len() <= state.t.bits(),
            state.has_cap(state.t.chunks@.len()),
            at == (target.0 as int, target.1 as int),
            first_hit(states_const@, state@, at, x as int, y as int, 0) == first_hit(
                states_const@,
                state@,
                at,
                x as int,
                y as int,
                i as int,
            ),
        decreases states_const@.len() - i,
    {
        if state.v.get(i) {
            let shape = states_const[i];
            let (sx, sy) = if state.t.get(i) {
                target
            } else {
                (shape.x, shape.y)
            };
            if x >= sx && y >= sy && x as i64 <= sx as i64 + shape.w as i64 && y as i64 <= sy as i64
                + shape.h as i64 {
                return Some(i);
            }
        }
        i += 1;
    }
    None
}

/// The colour of the frame that is drawn around a shape whose state is unknown.
pub open spec fn frame_color() -> Color {
    Color { r: 255, g: 255, b: 0 }
}

/// Whether `p` lies between `low` and `high`, cut to a canvas that is `bound` wide.
pub open spec fn cut(low: int, high: int, bound: int, p: int) -> bool {
    clamped(low, 0, bound) <= p < clamped(high, 0, bound)
}

/// What drawing reads of a scene: its rectangles, its state, the focus point and the
/// scale, and the size of the canvas in pixels.
pub struct Picture {
    pub states: Seq<ShapeConstState>,
    pub state: StateView,
    pub target: (int, int),
    pub scale: int,
    pub width: int,
    pub height: int,
}

impl Picture {
    /// The left edge of shape `k`, in pixels.
    pub open spec fn left(self, k: int) -> int {
        origin(self.states[k], self.state.t[k], self.target).0 * self.scale
    }

    /// The top edge of shape `k`, in pixels.
    pub open spec fn top(self, k: int) -> int {
        origin(self.states[k], self.state.t[k], self.target).1 * self.scale
    }

    /// The right edge of shape `k`, in pixels.
    pub open spec fn right(self, k: int) -> int {
        self.left(k) + self.states[k].w * self.scale
    }

    /// The bottom edge of shape `k`, in pixels.
    pub open spec fn bottom(self, k: int) -> int {
        self.top(k) + self.states[k].h * self.scale
    }

    /// Whether shape `k` covers the pixel.
    pub open spec fn on_body(self, k: int, px: int, py: int) -> bool {
        cut(self.left(k), self.right(k), self.width, px) && cut(
            self.top(k),
            self.bottom(k),
            self.height,
            py,
        )
    }

    /// Whether shape `k` gets a frame: its state is unknown, and it is targeted or more
    /// than a pixel wide and high.
    pub open spec fn framed(self, k: int) -> bool {
        self.state.u[k] && (self.state.t[k] || (self.states[k].w * self.scale > 1 && self.states[k].h
            * self.scale > 1))
    }

    /// Whether the frame of shape `k`, one pixel wide around it, covers the pixel.
    pub open spec fn on_frame(self, k: int, px: int, py: int) -> bool {
        cut(self.left(k) - 1, self.right(k) + 1, self.width, px) && cut(
            self.top(k) - 1,
            self.bottom(k) + 1,
            self.height,
            py,
        )
    }

    /// The colour of a pixel when only the shapes from `k` on are drawn: that of the
    /// topmost visible shape among them that covers it, its frame included, or the
    /// background.
    pub open spec fn pixel(self, background: Color, k: int, px: int, py: int) -> Color
        decreases self.states.len() - k,
    {
        if k < 0 || k >= self.states.len() {
            background
        } else if self.state.v[k] && self.on_body(k, px, py) {
            self.states[k].color
        } else if self.state.v[k] && self.framed(k) && self.on_frame(k, px, py) {
            frame_color()
        } else {
            self.pixel(background, k + 1, px, py)
        }
    }
}

/// The nearest value that fits.
fn saturate(v: i64) -> (r: isize)
    ensures
        r == clamped(v as int, isize::MIN as int, isize::MAX as int),
{
    if v > isize::MAX as i64 {
        isize::MAX
    } else if v < isize::MIN as i64 {
        isize::MIN
    } else {
        v as isize
    }
}

/// Paints one shape between the given edges, and around it its frame if it has one.
fn paint(
    canvas: &mut Canvas<Color>,
    left: i64,
    top: i64,
    right: i64,
    bottom: i64,
    framed: bool,
    color: Color,
)
    requires
        old(canvas).wf(),
        i64::MIN < left && right < i64::MAX,
        i64::MIN < top && bottom < i64::MAX,
    ensures
        final(canvas).wf(),
        final(canvas).width == old(canvas).width,
        final(canvas).height == old(canvas).height,
        forall|px: int, py: int|
            0 <= px < old(canvas).width && 0 <= py < old(canvas).height ==> #[trigger] final(canvas).at(
                px,
                py,
            ) == if cut(left as int, right as int, old(canvas).width as int, px) && cut(
                top as int,
                bottom as int,
                old(canvas).height as int,
                py,
            ) {
                color
            } else if framed && cut(left - 1, right + 1, old(canvas).width as int, px) && cut(
                top - 1,
                bottom + 1,
                old(canvas).height as int,
                py,
            ) {
                frame_color()
            } else {
                old(canvas).at(px, py)
            },
{
    if framed {
        canvas.fill_span(
            saturate(left - 1),
            saturate(top - 1),
            saturate(right + 1),
            saturate(bottom + 1),
            Color::new(255, 255, 0),
        );
    }
    let ghost middle = *canvas;
    canvas.fill_span(saturate(left), saturate(top), saturate(right), saturate(bottom), color);
    proof {
        assert forall|px: int, py: int| 0 <= px < old(canvas).width && 0 <= py < old(
            canvas,
        ).height implies (#[trigger] canvas.at(px, py)) == if cut(
            left as int,
            right as int,
            old(canvas).width as int,
            px,
        ) && cut(top as int, bottom as int, old(canvas).height as int, py) {
            color
        } else if framed && cut(left - 1, right + 1, old(canvas).width as int, px) && cut(
            top - 1,
            bottom + 1,
            old(canvas).height as int,
            py,
        ) {
            frame_color()
        } else {
            old(canvas).at(px, py)
        } by {
            assert(middle.at(px, py) == if framed && cut(
                left - 1,
                right + 1,
                old(canvas).width as int,
                px,
            ) && cut(top - 1, bottom + 1, old(canvas).height as int, py) {
                frame_color()
            } else {
                old(canvas).at(px, py)
            });
        }
    }
}

/// The products of a coordinate and a scale fit comfortably.
proof fn lemma_scaled(v: int, s: int)
    requires
        -0x8000_0000 <= v < 0x8000_0000,
        0 <= s < 0x1_0000,
    ensures
        -0x8000_0000_0000 <= v * s <= 0x8000_0000_0000,
{
    assert(-0x8000_0000_0000 <= v * s <= 0x8000_0000_0000) by (nonlinear_arith)
        requires
            -0x8000_0000 <= v < 0x8000_0000,
            0 <= s < 0x1_0000,
    ;
}

/// Draws a state: every visible shape, the topmost last, each `scale` pixels to the scene
/// unit, on a canvas filled with `background`.
pub fn render_state<T: Bits>(
    ctx: &RenderingContext,
    state: &State<T>,
    scale: u16,
    background: Color,
) -> (canvas: Canvas<Color>)
    requires
        ctx.states_const@.len() <= state.t.bits(),
        state.has_cap(state.t.chunks@.len()),
        ctx.width * scale <= isize::MAX,
        ctx.height * scale <= isize::MAX,
        (ctx.width * scale) * (ctx.height * scale) <= usize::MAX,
    ensures
        canvas.wf(),
        canvas.width == ctx.width * scale,
        canvas.height == ctx.height * scale,
        forall|px: int, py: int|
            0 <= px < canvas.width && 0 <= py < canvas.height ==> #[trigger] canvas.at(px, py) == (Picture {
                states: ctx.states_const@,
                state: state@,
                target: (ctx.target.0 as int, ctx.target.1 as int),
                scale: scale as int,
                width: canvas.width as int,
                height: canvas.height as int,
            }).pixel(background, 0, px, py),
{
    assert(0 <= ctx.width * scale && 0 <= ctx.height * scale) by (nonlinear_arith);
    let width = (ctx.width as u64 * scale as u64) as usize;
    let height = (ctx.height as u64 * scale as u64) as usize;
    let mut canvas = Canvas::new(width, height, background);
    let n = ctx.states_const.len();
    let ghost pic = Picture {
        states: ctx.states_const@,
        state: state@,
        target: (ctx.target.0 as int, ctx.target.1 as int),
        scale: scale as int,
        width: width as int,
        height: height as int,
    };
    proof {
        assert forall|px: int, py: int| 0 <= px < width && 0 <= py < height implies (
        #[trigger] canvas.at(px, py)) == pic.pixel(background, n as int, px, py) by {
            crate::render::lemma_row(px, py, width as int, height as int);
        }
    }
    let mut i: usize = n;
    while i > 0
        invariant
            i <= n,
            n == ctx.states_const@.len(),
            n <= state.t.bits(),
            state.has_cap(state.t.chunks@.len()),
            canvas.wf(),
            canvas.width == width,
            canvas.height == height,
            pic.states == ctx.states_const@,
            pic.state == state@,
            pic.target == (ctx.target.0 as int, ctx.target.1 as int),
            pic.scale == scale,
            pic.width == width,
            pic.height == height,
            forall|px: int, py: int|
                0 <= px < width && 0 <= py < height ==> #[trigger] canvas.at(px, py) == pic.pixel(
                    background,
                    i as int,
                    px,
                    py,
                ),
        decreases i,
    {
        i -= 1;
        let ghost before = canvas;
        if state.v.get(i) {
            let shape = ctx.states_const[i];
            let targeted = state.t.get(i);
            let unknown = state.u.get(i);
            let (ox, oy) = if targeted {
                ctx.target
            } else {
                (shape.x, shape.y)
            };
            let s = scale as i64;
            proof {
                lemma_scaled(ox as int, s as int);
                lemma_scaled(oy as int, s as int);
                lemma_scaled(shape.w as int, s as int);
                lemma_scaled(shape.h as int, s as int);
            }
            let left = ox as i64 * s;
            let top = oy as i64 * s;
            let w = shape.w as i64 * s;
            let h = shape.h as i64 * s;
            let framed = unknown && (targeted || (w > 1 && h > 1));
            paint(&mut canvas, left, top, left + w, top + h, framed, shape.color);
            proof {
                let k = i as int;
                assert(left == pic.left(k) && top == pic.top(k));
                assert(left + w == pic.right(k) && top + h == pic.bottom(k));
                assert(framed == pic.framed(k));
            }
        }
        proof {
            assert forall|px: int, py: int| 0 <= px < width && 0 <= py < height implies (
            #[trigger] canvas.at(px, py)) == pic.pixel(background, i as int, px, py) by {
                assert(before.at(px, py) == pic.pixel(background, i + 1, px, py));
            }
        }
    }
    canvas
}

} // verus!
