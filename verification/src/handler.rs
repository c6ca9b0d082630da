//! Decisions the chat-platform handler makes, on plain values.
//!
//! The handler itself — sessions, HTTP calls, database writes — is an
//! outside collaborator; what belongs to the pipeline is which
//! messages it accepts and what it publishes for them.  Those
//! decisions live here: the channel-and-role gate, and the
//! construction of the squeak a member's message becomes.

use crate::character::Character;
use crate::character::OblivionError;
use crate::error::OddbotError;
use crate::squeak::Squeak;
use crate::squeak::SqueakError;
use vstd::prelude::*;
use vstd::string::StrSliceExecFns;

verus! {

/// Decides whether a list of role identifiers holds the given one.
pub fn has_role(roles: &Vec<u64>, role_id: u64) -> (r: bool)
    ensures
        r == roles@.contains(role_id),
{
    let mut i: usize = 0;
    while i < roles.len()
        invariant
            0 <= i <= roles@.len(),
            forall|j: int| 0 <= j < i ==> roles@[j] != role_id,
        decreases roles@.len() - i,
    {
        if roles[i] == role_id {
            return true;
        }
        i = i + 1;
    }
    false
}

/// Decides whether an inbound message is processed: only one in the
/// configured channel, from a member who holds the configured role.
/// A message without member data is never processed.
pub fn should_process_message(
    channel_id: u64,
    member_roles: Option<&Vec<u64>>,
    role_id: u64,
    target_channel_id: u64,
) -> (r: bool)
    ensures
        r == (channel_id == target_channel_id && (member_roles matches Some(rs) && rs@.contains(
            role_id,
        ))),
{
    let correct_channel = channel_id == target_channel_id;
    let correct_role = match member_roles {
        Some(rs) => has_role(rs, role_id),
        None => false,
    };
    correct_channel && correct_role
}

/// Builds the squeak a member's message becomes: the message text as
/// content, the member's character name as author.  A member with no
/// character cannot squeak; the error names them.
pub fn prepare_squeak(character: Option<&Character>, content: String, discord_id: &str) -> (r:
    Result<Squeak, OddbotError>)
    ensures
        character is None ==> (r matches Err(e) && e matches OddbotError::OblivionError(oe) && oe
            matches OblivionError::NoCharacterFound(d) && d@ == discord_id@),
        character matches Some(ch) ==> (r matches Ok(sq) && sq.content == content && sq.author.name@
            == ch.name@),
{
    match character {
        None => Err(
            OddbotError::OblivionError(OblivionError::NoCharacterFound(discord_id.to_owned())),
        ),
        Some(ch) => {
            let built = Squeak::builder().content(content).user(ch.name.clone()).build();
            match built {
                Ok(sq) => Ok(sq),
                Err(e) => Err(OddbotError::SqueakPublish(e)),
            }
        },
    }
}

} // verus!
