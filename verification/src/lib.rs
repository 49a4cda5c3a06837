//! A streaming-markup-to-layout engine for mathematical expressions.
//!
//! The crate consumes a stream of markup events describing a mathematical
//! expression (MathML tags such as `mi`, `mfrac`, `msup`), builds a typed
//! expression tree with an explicit stack machine, and then computes integer
//! bounding boxes bottom-up (`bounds`) and draw primitives top-down (`draw`).
//! All layout arithmetic is carried out in integer units.

pub mod events;
pub mod geom;
pub mod laws;
pub mod builder;
pub mod model;
pub mod tree;
pub mod metrics;
