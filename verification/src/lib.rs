//! Click-driven presentations, compiled.
//!
//! A scene is a stack of rectangles; each carries animations that play when it is clicked,
//! and a global list plays when a click lands on no shape. Two facts about a shape matter:
//! whether it is visible, and whether it sits on one distinguished point, the focus point.
//! Each fact is true, false or unknown.
//!
//! - [`bits`] and [`bitvec`] pack booleans into chunks of a chosen width; [`filters`] does
//!   the same over 64-bit cells.
//! - [`scene`] is the scene as it is authored; [`flatten`] puts its shapes in paint order.
//! - [`action`] and [`animate`] lower animations to masks over the packed facts.
//! - [`compiler`] holds the state of a scene and what a click does to it; [`graph`] and
//!   [`explore`] build the graph of all states that clicks can reach, merging states that
//!   one node can stand for.
//! - [`compiled`] and [`direct`] play a scene, from its graph or batch by batch;
//!   [`playback`] and [`render`] find the shape under a point and draw a state.

pub mod action;
pub mod animate;
pub mod bits;
pub mod bitvec;
pub mod compiled;
pub mod compiler;
pub mod direct;
pub mod error;
pub mod explore;
pub mod filters;
pub mod flatten;
pub mod graph;
pub mod ids;
pub mod playback;
pub mod render;
pub mod scene;
