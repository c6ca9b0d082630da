//! The failure taxonomy of the pipeline.
//!
//! Substrate-side failures (connecting, creating or deleting a stream,
//! publishing, provisioning a consumer, batching) carry no payload
//! here: the outside service's error values stay in the unverified
//! binaries, which map them onto these variants at the boundary.

use crate::character::OblivionError;
use crate::squeak::SqueakError;
use vstd::prelude::*;

verus! {

/// Everything that can go wrong in the pipeline.
#[derive(Debug, PartialEq, Eq)]
pub enum OddbotError {
    Database,
    SerdeError,
    StreamCreate,
    StreamDelete,
    StreamPublish,
    NatsConnect,
    NatsBatch,
    EnvVar,
    InvalidConfig(String),
    SqueakPublish(SqueakError),
    StreamConsumerCreate,
    OblivionError(OblivionError),
    Serenity,
    WebsocketSend(String),
}

/// Failures that the event server reports to its HTTP clients.
#[derive(Debug, PartialEq, Eq)]
pub enum OblivionServerError {
    FailedToSaveEvent,
    FailedToPublishEvent,
}

impl OblivionServerError {
    /// The HTTP status code and body for this failure; both variants
    /// are server-side faults.
    pub fn response_parts(&self) -> (r: (u16, &'static str))
        ensures
            r.0 == 500,
            self is FailedToSaveEvent ==> r.1@ == "Failed to save event"@,
            self is FailedToPublishEvent ==> r.1@ == "Failed to publish event"@,
    {
        match self {
            OblivionServerError::FailedToSaveEvent => (500, "Failed to save event"),
            OblivionServerError::FailedToPublishEvent => (500, "Failed to publish event"),
        }
    }
}

} // verus!
