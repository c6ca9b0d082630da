//! Core of a durable-log-to-live-subscriber event pipeline.
//!
//! Producers build `Squeak` events and publish them, wrapped in an
//! `EventMessage`, onto a durable, append-only stream.  A pull consumer
//! reads that stream in bounded batches through a cursor that only
//! advances on explicit acknowledgment, with a bounded number of
//! redeliveries for records that are never acknowledged.  A process-wide
//! broadcaster fans decoded events out to live subscribers,
//! best-effort, dropping the oldest buffered events when a subscriber
//! falls behind and discarding events outright when nobody listens.
//!
//! The stream, consumer and broadcaster semantics live here as verified
//! state machines; the unverified binaries drive them against the real
//! substrate (the log service, the socket endpoints) and do nothing but
//! move bytes in and out.

pub mod broadcast;
pub mod character;
pub mod codec;
pub mod config;
pub mod error;
pub mod gateway;
pub mod handler;
pub mod ident;
pub mod message;
pub mod squeak;
pub mod stream;
pub mod subject;
pub mod text;
