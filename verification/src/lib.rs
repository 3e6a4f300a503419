//! Message persistence core for a small contact-form backend.
//!
//! The crate provides self-validating value types (`Name`, `Email`,
//! `Contents`, `PageToken`), the `Message` record built from them, and the
//! pure logic of two storage backends: an append-only line-oriented log of
//! JSON records with offset pagination, and a relational table with keyset
//! pagination.  All storage I/O (file reads and appends, SQL round-trips)
//! is left to the embedding program, which hands the raw data to the
//! functions here and performs the effects they describe.

pub mod codec;
pub mod controller;
pub mod json;
pub mod model;
pub mod numeral;
mod text;
pub mod repository;
pub mod server;
pub mod sqlite;
pub mod validation;
