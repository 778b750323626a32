//! The scene as it is authored: shapes with a paint order, and a timeline of animations.

use vstd::prelude::*;

verus! {

/// An opaque colour.
#[derive(Clone, Copy, Debug, PartialEq, Eq, Structural)]
pub struct Color {
    pub r: u8,
    pub g: u8,
    pub b: u8,
}

impl Color {
    /// White.
    pub fn white() -> (c: Self)
        ensures
            c == (Color { r: 255, g: 255, b: 255 }),
    {
        Color { r: 255, g: 255, b: 255 }
    }

    /// Black.
    pub fn black() -> (c: Self)
        ensures
            c == (Color { r: 0, g: 0, b: 0 }),
    {
        Color { r: 0, g: 0, b: 0 }
    }

    /// Red.
    pub fn red() -> (c: Self)
        ensures
            c == (Color { r: 255, g: 0, b: 0 }),
    {
        Color { r: 255, g: 0, b: 0 }
    }

    /// Green.
    pub fn green() -> (c: Self)
        ensures
            c == (Color { r: 0, g: 255, b: 0 }),
    {
        Color { r: 0, g: 255, b: 0 }
    }

    /// Blue.
    pub fn blue() -> (c: Self)
        ensures
            c == (Color { r: 0, g: 0, b: 255 }),
    {
        Color { r: 0, g: 0, b: 255 }
    }

    /// The colour with the given red, green and blue parts.
    pub fn new(r: u8, g: u8, b: u8) -> (c: Self)
        ensures
            c == (Color { r, g, b }),
    {
        Color { r, g, b }
    }

    /// The colour whose parts are the three low bytes of `c`: red, then green, then blue.
    pub fn from_u32(c: u32) -> (color: Self)
        ensures
            color.r == (c / 0x10000) % 0x100,
            color.g == (c / 0x100) % 0x100,
            color.b == c % 0x100,
    {
        let r = (c & 0xFF0000) >> 16;
        let g = (c & 0x00FF00) >> 8;
        let b = c & 0x0000FF;
        assert(r == (c / 0x10000) % 0x100 && g == (c / 0x100) % 0x100 && b == c % 0x100 && r < 0x100
            && g < 0x100 && b < 0x100) by (bit_vector)
            requires
                r == (c & 0xFF0000) >> 16,
                g == (c & 0x00FF00) >> 8,
                b == c & 0x0000FF,
        ;
        Color { r: r as u8, g: g as u8, b: b as u8 }
    }

    /// The grey whose three parts are `c`.
    pub fn grey(c: u8) -> (color: Self)
        ensures
            color == (Color { r: c, g: c, b: c }),
    {
        Color { r: c, g: c, b: c }
    }
}

/// A paint-order key: three numbers, the first the most significant. Higher keys are
/// painted later.
#[derive(Clone, Copy, Debug, PartialEq, Eq, Structural)]
pub struct Z(pub isize, pub isize, pub isize);

impl Z {
    /// Whether this key comes strictly before `other`.
    pub open spec fn below(self, other: Z) -> bool {
        self.0 < other.0 || (self.0 == other.0 && (self.1 < other.1 || (self.1 == other.1 && self.2
            < other.2)))
    }

    /// Whether this key comes strictly before `other`.
    pub fn is_below(&self, other: &Z) -> (r: bool)
        ensures
            r == self.below(*other),
    {
        self.0 < other.0 || (self.0 == other.0 && (self.1 < other.1 || (self.1 == other.1 && self.2
            < other.2)))
    }
}

/// Where a shape rests and how large it is, in scene units, and its colour.
#[derive(Clone, Copy, Debug, PartialEq, Eq, Structural)]
pub struct ShapeState {
    pub x: i32,
    pub y: i32,
    pub w: i32,
    pub h: i32,
    pub color: Color,
}

/// A shape, or a group of shapes that is handled as one.
#[derive(Debug)]
pub enum Shape {
    Shape { z: Z, name: &'static str, state: ShapeState },
    Group { z: Z, shapes: Vec<Shape> },
}

impl Shape {
    /// The rectangle at `(x, y)` of size `w` by `h`.
    pub fn new(x: i32, y: i32, w: i32, h: i32, z: Z, color: Color, name: &'static str) -> (r: Shape)
        ensures
            r == (Shape::Shape { z, name, state: ShapeState { x, y, w, h, color } }),
    {
        Shape::Shape { z, name, state: ShapeState { x, y, w, h, color } }
    }

    /// The paint-order key.
    pub open spec fn key(&self) -> Z {
        match self {
            Shape::Shape { z, .. } => *z,
            Shape::Group { z, .. } => *z,
        }
    }

    /// The paint-order key.
    pub fn z(&self) -> (r: Z)
        ensures
            r == self.key(),
    {
        match self {
            Shape::Shape { z, .. } => *z,
            Shape::Group { z, .. } => *z,
        }
    }

    /// Number of rectangles in the shape: one, or those of the members of the group.
    pub open spec fn leaves(&self) -> nat
        decreases self,
    {
        match self {
            Shape::Shape { .. } => 1,
            Shape::Group { shapes, .. } => leaves_of(shapes@, shapes@.len()),
        }
    }

    /// Number of rectangles in the shape.
    #[verifier::loop_isolation(false)]
    pub fn size(&self) -> (r: usize)
        requires
            self.leaves() <= usize::MAX,
        ensures
            r == self.leaves(),
        decreases self,
    {
        match self {
            Shape::Shape { .. } => 1,
            Shape::Group { shapes, .. } => {
                let mut total: usize = 0;
                let mut k: usize = 0;
                while k < shapes.len()
                    invariant
                        k <= shapes@.len(),
                        total == leaves_of(shapes@, k as nat),
                        leaves_of(shapes@, shapes@.len()) <= usize::MAX,
                    decreases shapes@.len() - k,
                {
                    proof {
                        lemma_leaves_monotone(shapes@, k as nat + 1, shapes@.len());
                    }
                    total = total + shapes[k].size();
                    k += 1;
                }
                total
            },
        }
    }
}

/// Number of rectangles in the first `n` shapes of `shapes`.
pub open spec fn leaves_of(shapes: Seq<Shape>, n: nat) -> nat
    decreases shapes, n,
{
    if n == 0 || n > shapes.len() {
        0
    } else {
        leaves_of(shapes, (n - 1) as nat) + shapes[n - 1].leaves()
    }
}

/// More shapes hold at least as many rectangles.
pub proof fn lemma_leaves_monotone(shapes: Seq<Shape>, m: nat, n: nat)
    requires
        m <= n <= shapes.len(),
    ensures
        leaves_of(shapes, m) <= leaves_of(shapes, n),
    decreases n,
{
    if m < n {
        lemma_leaves_monotone(shapes, m, (n - 1) as nat);
    }
}

/// A handle on a flattened shape, or on the run of flattened shapes that a group became.
#[derive(Clone, Copy, Debug, PartialEq, Eq, Structural)]
pub enum Referer {
    /// One shape, by its index.
    Shape(usize),
    /// A run of shapes, by the index of the first and their number.
    Group(usize, usize),
}

impl Default for Referer {
    fn default() -> (r: Self)
        ensures
            r == Referer::Shape(0),
    {
        Referer::Shape(0)
    }
}

impl Referer {
    /// Index of the shape, or of the first shape of the group.
    pub fn index(&self) -> (r: usize)
        ensures
            r == self.span_spec().0,
    {
        match self {
            Referer::Shape(index) => *index,
            Referer::Group(index, _) => *index,
        }
    }

    /// Number of shapes referred to.
    pub fn size(&self) -> (r: usize)
        ensures
            r == self.span_spec().1,
    {
        match self {
            Referer::Shape(_) => 1,
            Referer::Group(_, size) => *size,
        }
    }

    /// Index of the first shape, and number of shapes.
    pub open spec fn span_spec(&self) -> (usize, usize) {
        match self {
            Referer::Shape(index) => (*index, 1),
            Referer::Group(index, size) => (*index, *size),
        }
    }

    /// Index of the first shape, and number of shapes.
    pub fn span(&self) -> (r: (usize, usize))
        ensures
            r == self.span_spec(),
    {
        match self {
            Referer::Shape(index) => (*index, 1),
            Referer::Group(index, size) => (*index, *size),
        }
    }

    /// Index of the first shape, and index past the last one.
    pub fn bounds(&self) -> (r: (usize, usize))
        requires
            self.span_spec().0 + self.span_spec().1 <= usize::MAX,
        ensures
            r.0 == self.span_spec().0,
            r.1 == self.span_spec().0 + self.span_spec().1,
    {
        match self {
            Referer::Shape(index) => (*index, *index + 1),
            Referer::Group(index, size) => (*index, *index + *size),
        }
    }
}

/// The family of an effect, with two numbers that tell its members apart.
#[derive(Clone, Copy, Debug, PartialEq, Eq, Structural)]
pub enum Preset {
    /// Entrance: the shape comes on stage.
    Entr(u8, u8),
    /// Emphasis: the shape stays where and as it is.
    Emph(u8, u8),
    /// The shape moves.
    Path(u8, u8),
    /// Exit: the shape leaves the stage.
    Exit(u8, u8),
}

impl Preset {
    /// Whether the effect brings its shape on stage.
    pub open spec fn is_entrance(self) -> bool {
        self is Entr
    }
}

/// Where a slide comes from or goes to.
#[derive(Clone, Copy, Debug, PartialEq, Eq, Structural)]
pub enum Direction {
    Up,
    Down,
    Right,
    Left,
}

/// Whether a shape is on stage, as far as is known.
#[derive(Clone, Copy, Debug, PartialEq, Eq, Structural)]
pub enum Visibility {
    Hidden,
    Visible,
    Unknown,
}

impl Visibility {
    /// Whether the shape is drawn: it is, unless it is known to be hidden.
    pub fn is_visible(&self) -> (r: bool)
        ensures
            r == (*self != Visibility::Hidden),
    {
        match self {
            Visibility::Hidden => false,
            Visibility::Visible => true,
            Visibility::Unknown => true,
        }
    }
}

/// What an animation does to its shape.
#[derive(Clone, Copy, Debug, PartialEq, Eq, Structural)]
pub enum Effect {
    /// The shape becomes visible.
    Appear,
    /// The shape becomes hidden.
    Disappear,
    /// The shape becomes visible and returns to where it rests.
    SlideIn { direction: Direction },
    /// The shape becomes hidden; `complete` tells whether it leaves the stage entirely.
    SlideOut { direction: Direction, complete: bool },
    /// The shape moves to `(x, y)`, or by `(x, y)` from where it rests if `relative`.
    Path { x: i32, y: i32, relative: bool },
}

impl Effect {
    /// The family of the effect.
    pub open spec fn preset_spec(&self) -> Preset {
        match self {
            Effect::Appear => Preset::Entr(1, 0),
            Effect::Disappear => Preset::Exit(1, 0),
            Effect::Path { .. } => Preset::Path(0, 1),
            Effect::SlideIn { .. } => Preset::Entr(0, 0),
            Effect::SlideOut { .. } => Preset::Exit(0, 0),
        }
    }

    /// The family of the effect.
    pub fn preset(&self) -> (r: Preset)
        ensures
            r == self.preset_spec(),
    {
        match self {
            Effect::Appear => Preset::Entr(1, 0),
            Effect::Disappear => Preset::Exit(1, 0),
            Effect::Path { .. } => Preset::Path(0, 1),
            Effect::SlideIn { .. } => Preset::Entr(0, 0),
            Effect::SlideOut { .. } => Preset::Exit(0, 0),
        }
    }
}

/// An effect as it is written down when a scene is authored.
#[derive(Clone, Copy, Debug, PartialEq, Eq, Structural)]
pub enum MacroEffect {
    Appear,
    Disappear,
    SlideIn,
    SlideOut,
    /// A slide-out that stops half way.
    Mark,
    /// Back to where the shape rests.
    Place,
    /// To the given point.
    Target(i32, i32),
    /// By the given distance from where the shape rests.
    Path(i32, i32),
}

impl MacroEffect {
    /// The effect that is meant.
    pub open spec fn effect(self) -> Effect {
        match self {
            MacroEffect::Appear => Effect::Appear,
            MacroEffect::Disappear => Effect::Disappear,
            MacroEffect::SlideIn => Effect::SlideIn { direction: Direction::Up },
            MacroEffect::SlideOut => Effect::SlideOut { direction: Direction::Up, complete: true },
            MacroEffect::Mark => Effect::SlideOut { direction: Direction::Up, complete: false },
            MacroEffect::Place => Effect::Path { x: 0, y: 0, relative: true },
            MacroEffect::Target(x, y) => Effect::Path { x, y, relative: false },
            MacroEffect::Path(x, y) => Effect::Path { x, y, relative: true },
        }
    }
}

impl From<MacroEffect> for Effect {
    fn from(effect: MacroEffect) -> (r: Self) {
        match effect {
            MacroEffect::Appear => Effect::Appear,
            MacroEffect::Disappear => Effect::Disappear,
            MacroEffect::SlideIn => Effect::SlideIn { direction: Direction::Up },
            MacroEffect::SlideOut => Effect::SlideOut { direction: Direction::Up, complete: true },
            MacroEffect::Mark => Effect::SlideOut { direction: Direction::Up, complete: false },
            MacroEffect::Place => Effect::Path { x: 0, y: 0, relative: true },
            MacroEffect::Target(x, y) => Effect::Path { x, y, relative: false },
            MacroEffect::Path(x, y) => Effect::Path { x, y, relative: true },
        }
    }
}

impl vstd::std_specs::convert::FromSpecImpl<MacroEffect> for Effect {
    open spec fn obeys_from_spec() -> bool {
        true
    }

    open spec fn from_spec(effect: MacroEffect) -> Effect {
        effect.effect()
    }
}

/// One effect on one target. `click` marks the animation as the first of a new batch.
#[derive(Clone, Copy, Debug, PartialEq, Eq, Structural)]
pub struct Animation {
    pub target: Referer,
    pub click: bool,
    pub effect: Effect,
}

/// The animations that clicks on one trigger play, and how far they have played.
#[derive(Debug)]
pub struct Context {
    pub head: usize,
    pub animations: Vec<Animation>,
}

impl Default for Context {
    fn default() -> (r: Self)
        ensures
            r.head == 0,
            r.animations@.len() == 0,
    {
        Context { head: 0, animations: Vec::new() }
    }
}

/// The animations of a scene: those of the global context, which clicks off every shape
/// play, and those that clicks on each shape play, by the authoring index of the shape.
#[derive(Debug)]
pub struct Timeline {
    pub main_context: Context,
    pub contexts: Vec<Context>,
}

impl Default for Timeline {
    fn default() -> (r: Self)
        ensures
            r.main_context.head == 0,
            r.main_context.animations@.len() == 0,
            r.contexts@.len() == 0,
    {
        Timeline { main_context: Context::default(), contexts: Vec::new() }
    }
}

impl Timeline {
    /// The animations that clicks on the shape of authoring index `i` play; none if the
    /// timeline holds no context for it.
    pub open spec fn animations_on(&self, i: int) -> Seq<Animation> {
        if 0 <= i < self.contexts@.len() {
            self.contexts@[i].animations@
        } else {
            Seq::empty()
        }
    }

    /// Whether `after` is this timeline with the animation `animation` added at the end of
    /// the context of trigger `on`, or of the global context if there is no trigger.
    /// Contexts are made as needed, up to that of the trigger.
    pub open spec fn extended_by(&self, after: &Timeline, animation: Animation, on: Option<Referer>) -> bool {
        match on {
            Some(referer) => {
                let index = referer.span_spec().0 as int;
                &&& after.main_context == self.main_context
                &&& after.contexts@.len() == if self.contexts@.len() > index {
                    self.contexts@.len()
                } else {
                    (index + 1) as nat
                }
                &&& after.animations_on(index) == self.animations_on(index).push(animation)
                &&& forall|i: int| i != index ==> #[trigger] after.animations_on(i) == self.animations_on(i)
                &&& forall|i: int|
                    0 <= i < after.contexts@.len() ==> (#[trigger] after.contexts@[i]).head == if i
                        < self.contexts@.len() {
                        self.contexts@[i].head
                    } else {
                        0
                    }
            },
            None => {
                &&& after.contexts == self.contexts
                &&& after.main_context.head == self.main_context.head
                &&& after.main_context.animations@ == self.main_context.animations@.push(animation)
            },
        }
    }

    /// Adds an animation at the end of the context of trigger `on`, or of the global
    /// context if there is no trigger. Contexts are made as needed, up to that of the
    /// trigger.
    pub fn add(&mut self, target: Referer, effect: Effect, click: bool, on: Option<Referer>)
        requires
            on matches Some(referer) ==> referer.span_spec().0 < usize::MAX,
        ensures
            old(self).extended_by(final(self), Animation { target, click, effect }, on),
    {
        let animation = Animation { target, click, effect };
        match on {
            Some(referer) => {
                let index = referer.index();
                while self.contexts.len() < index + 1
                    invariant
                        index < usize::MAX,
                        self.main_context == old(self).main_context,
                        self.contexts@.len() >= old(self).contexts@.len(),
                        self.contexts@.len() <= index + 1 || self.contexts@.len() == old(
                            self,
                        ).contexts@.len(),
                        forall|i: int|
                            0 <= i < old(self).contexts@.len() ==> self.contexts@[i] == old(
                                self,
                            ).contexts@[i],
                        forall|i: int|
                            old(self).contexts@.len() <= i < self.contexts@.len() ==> (
                            #[trigger] self.contexts@[i]).head == 0 && self.contexts@[i].animations@.len()
                                == 0,
                    decreases index + 1 - self.contexts@.len(),
                {
                    self.contexts.push(Context::default());
                }
                let ghost before = self.contexts@;
                let context = &mut self.contexts[index];
                context.animations.push(animation);
                proof {
                    assert(old(self).animations_on(index as int).push(animation)
                        =~= self.animations_on(index as int));
                    assert forall|i: int| i != index implies #[trigger] self.animations_on(i) == old(
                        self,
                    ).animations_on(i) by {
                        if 0 <= i < self.contexts@.len() {
                            assert(self.contexts@[i] == before[i]);
                            if i >= old(self).contexts@.len() {
                                assert(self.contexts@[i].animations@ =~= Seq::<Animation>::empty());
                            }
                        }
                    }
                }
            },
            None => {
                self.main_context.animations.push(animation);
            },
        }
    }
}

/// A scene: its shapes in the order they were added, each with its authoring index, its
/// timeline, and its size.
#[derive(Debug)]
pub struct Slide {
    pub shapes: Vec<(usize, Shape)>,
    pub timeline: Timeline,
    pub width: u32,
    pub height: u32,
}

impl Slide {
    /// Every shape carries the index at which it was added.
    pub open spec fn wf(&self) -> bool {
        forall|i: int| 0 <= i < self.shapes@.len() ==> (#[trigger] self.shapes@[i]).0 == i
    }

    /// The empty scene of the given size.
    pub fn new(width: u32, height: u32) -> (r: Self)
        ensures
            r.wf(),
            r.shapes@.len() == 0,
            r.timeline.main_context.animations@.len() == 0,
            r.timeline.contexts@.len() == 0,
            r.width == width,
            r.height == height,
    {
        Slide { shapes: Vec::new(), timeline: Timeline::default(), width, height }
    }

    /// Adds a shape and returns the handle by which animations name it.
    pub fn add(&mut self, shape: Shape) -> (r: Referer)
        ensures
            r == Referer::Shape(old(self).shapes@.len() as usize),
            final(self).shapes@ == old(self).shapes@.push((old(self).shapes@.len() as usize, shape)),
            final(self).timeline == old(self).timeline,
            final(self).width == old(self).width,
            final(self).height == old(self).height,
            old(self).wf() ==> final(self).wf(),
    {
        let id = self.shapes.len();
        self.shapes.push((id, shape));
        Referer::Shape(id)
    }

    /// Adds an animation to the timeline: at the end of the context of trigger `on`, or of
    /// the global context if there is no trigger.
    pub fn tl_add(&mut self, target: Referer, effect: Effect, click: bool, on: Option<Referer>)
        requires
            on matches Some(referer) ==> referer.span_spec().0 < usize::MAX,
        ensures
            old(self).timeline.extended_by(
                &final(self).timeline,
                Animation { target, click, effect },
                on,
            ),
            final(self).shapes == old(self).shapes,
            final(self).width == old(self).width,
            final(self).height == old(self).height,
    {
        self.timeline.add(target, effect, click, on)
    }
}

} // verus!
