//! The envelope a squeak travels in: a routing subject and the
//! payload itself.

use crate::squeak::spec_subject;
use crate::squeak::Squeak;
use vstd::prelude::*;

verus! {

/// An event record before it is appended: where it is filed, and
/// what it carries.
#[derive(Debug)]
pub struct EventMessage {
    pub subject: String,
    pub payload: Squeak,
}

impl From<Squeak> for EventMessage {
    /// Wraps a squeak under the squeak subject with the default
    /// prefix; a producer with a configured prefix builds the
    /// envelope through `EventMessage::with_prefix` instead.
    fn from(squeak: Squeak) -> (r: Self)
        ensures
            r.payload == squeak,
            r.subject@ == spec_subject(None),
    {
        let subject = Squeak::get_subject(None);
        EventMessage { subject, payload: squeak }
    }
}

impl vstd::std_specs::convert::FromSpecImpl<Squeak> for EventMessage {
    open spec fn obeys_from_spec() -> bool {
        false
    }

    open spec fn from_spec(squeak: Squeak) -> Self {
        arbitrary()
    }
}

impl EventMessage {
    /// Wraps a squeak under the squeak subject for the given prefix.
    pub fn with_prefix(squeak: Squeak, prefix: Option<&str>) -> (r: Self)
        ensures
            r.payload == squeak,
            r.subject@ == spec_subject(match prefix {
                Some(p) => Some(p@),
                None => None,
            }),
    {
        let subject = Squeak::get_subject(prefix);
        EventMessage { subject, payload: squeak }
    }
}

} // verus!
