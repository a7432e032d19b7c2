//! Cursor trails and jump labels of a text editor.
//!
//! [`cursor_trail`] drives the animation of the newest cursor and [`jump`] lays
//! out the labels of a jump overlay. Both compute in floating point; the
//! numbers are held by their encodings, and [`float`] says what each operation
//! on them is, down to the last bit. What holds of the whole stands in
//! [`laws`], [`cursor_laws`], [`frame_laws`], [`length_laws`],
//! [`motion_laws`], [`mirror_laws`], [`stillness`] and [`canvas`] for the trail, in
//! [`jump_laws`], [`label_laws`] and [`scroll_laws`] for the labels, and in
//! [`spring_laws`], [`spring_inward`], [`spring_flow`] and [`spring_run`] for a
//! spring.

pub mod animation;
pub mod arithmetic;
pub mod canvas;
pub mod cursor_laws;
pub mod cursor_trail;
pub mod double;
pub mod exponential;
pub mod float;
pub mod float_laws;
pub mod frame_laws;
pub mod geometry;
pub mod jump;
pub mod jump_laws;
pub mod label_laws;
pub mod laws;
pub mod length_laws;
pub mod mirror_laws;
pub mod motion_laws;
pub mod numbers;
pub mod reals;
pub mod rounding;
pub mod rounding_laws;
pub mod scroll_laws;
pub mod single;
pub mod spring;
pub mod spring_error;
pub mod spring_flow;
pub mod spring_inward;
pub mod spring_laws;
pub mod spring_run;
pub mod stillness;
