//! A dynamic component toggle engine for entity-component games.
//!
//! Game entities fall into archetypes (ball, paddle, wall, brick, score),
//! and each archetype may carry a fixed set of behavioral component kinds
//! (sprite, transform, collider, velocity, ...). A grid of UI buttons lets a
//! user park (detach while preserving the data) or restore (reattach with
//! the preserved data, unchanged) one component kind for every entity of an
//! archetype
//! at once. This crate holds the applicability rules, the vault that
//! preserves parked payloads, the entity index, the toggle controller, and
//! the edge-triggered button state machine; the hosting engine (rendering,
//! input, scheduling) stays outside.

pub mod assoc;
pub mod controller;
pub mod index;
pub mod kinds;
pub mod matrix;
pub mod regime;
pub mod ui;
pub mod vault;
