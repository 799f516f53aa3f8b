//! Recognition of multi-finger edge swipes on a touch surface.
//!
//! The heart of the crate is the [`gesture_detector`] module: a classifier
//! that is fed one serialized stream of touch begin, update and end events
//! and decides, touch by touch, whether the live touches form one consistent
//! edge swipe. It hands its accept and reject decisions, and the completed
//! gesture, back to the caller as values. The [`actions`] module gives the
//! descriptor language that binds a gesture signature to an effect, and the
//! registry that fires every matching effect. The laws the classifier obeys
//! across whole event streams are stated and proved in [`gesture_laws`].

pub mod actions;
pub mod config;
pub mod gesture_detector;
pub mod gesture_laws;
