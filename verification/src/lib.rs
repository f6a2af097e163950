//! Neuroevolution engine for a turret-defence simulation.
//!
//! A population of small feedforward networks learns to aim and fire a
//! turret at enemies that close in on the world centre.  All quantities are
//! fixed-point integers carrying three decimal digits of fraction, so the
//! whole simulation — inference, mutation, sensing, collision, scoring,
//! generational reseeding and network persistence — is verified.

pub mod fixed;
pub mod trig;
pub mod entity;
mod random;
pub mod neural_network;
pub mod ranking;
pub mod sensor;
pub mod simulation;
pub mod scheduler;
pub mod codec;
pub mod ui;
