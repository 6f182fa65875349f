//! Vaccination-slot alert engine.
//!
//! The library decides which users are notified about which vaccination
//! sessions: it joins alert subscriptions against a district's availability
//! snapshot, filters sessions by dose preference, age eligibility and
//! capacity, and suppresses repeat notifications through a persisted
//! exclusion map.  Everything that decides or computes lives here, verified;
//! the binary around it only fetches, renders, sends and stores.

pub mod alert_session;
pub mod alerts;
pub mod auth;
pub mod centers;
pub mod engine;
pub mod exclusion;
pub mod json;
pub mod matching;
pub mod validation;
