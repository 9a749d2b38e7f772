//! A fixed-step simulation kernel for block diagrams.
//!
//! Blocks hold handles into one shared storage arena, whose pools are sized
//! up front from the blocks' size signatures and whose cells are handed out
//! by monotone counters. Blocks are wired output-to-input, ordered into a
//! schedule that respects data dependencies (state cells act as one-step
//! delays), and continuous state is advanced by an explicit Euler pass.
//!
//! The arena is generic over the real scalar type `R`; whatever arithmetic a
//! block performs on reals is supplied by the caller as a closure.

pub mod size;
pub mod counters;
pub mod storage;
pub mod block;
pub mod schedule;
pub mod converter_b2f;
pub mod hysteresis;
pub mod thermal_mass;
pub mod temperature_controller;
