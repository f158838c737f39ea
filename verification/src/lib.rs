//! A resumable, step-wise formulation of array sorting, made for driving a
//! bar-chart animation: a step engine that advances insertion sort or a
//! queue-based Lomuto quicksort by one comparison/swap at a time, a random
//! dataset generator, a render adapter that decides bar heights and
//! highlights, and a session controller that owns the dataset and the
//! Idle/Running state machine.

pub mod dataset;
pub mod engine;
pub mod render;
pub mod session;
