//! Core of an interactive sorting visualizer: an instrumented array whose
//! every read, write and comparison is counted and tagged for rendering, a
//! throttle gate that paces a sorting algorithm by an externally granted
//! operation budget and cancels it on demand, and the sorting strategies
//! that run against the gated array.

pub mod array;
pub mod counting;
pub mod cycle;
pub mod gate;
pub mod gui;
pub mod order;
pub mod recursive;
pub mod sort;
