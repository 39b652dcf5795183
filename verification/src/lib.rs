//! A step-synchronised sorting engine.
//!
//! Sorting algorithms mutate an [`model::ArrayModel`] only through its own
//! methods and pause after each significant comparison or mutation by
//! calling [`emitter::StepEmitter::step`], which offers the current snapshot
//! to a frame driver. The driver decides whether a frame is drawn; the
//! algorithms never depend on its answer.
//!
//! Every algorithm is proved to leave the array sorted and to permute it.
//! Its contract also gives the snapshots it emits, one by one, and bounds
//! the number of writes it makes.
//!
//! - [`model`]: the array and the active pair.
//! - [`emitter`]: the frame driver boundary and the step emitter.
//! - [`order`]: sortedness, rearrangement, and the facts about them.
//! - [`insertion`], [`selection`], [`merge`], [`slow`]: the algorithms.
//! - [`algorithm`]: the choice among them and what all of them promise.
//! - [`workload`]: the numbers `1..=n` in random order.

pub mod algorithm;
pub mod emitter;
pub mod insertion;
pub mod merge;
pub mod model;
pub mod order;
pub mod selection;
pub mod slow;
pub mod workload;
