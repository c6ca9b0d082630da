//! Characters: a profile tied to a chat-platform user, stored in a
//! key-value bucket keyed by that user's identifier.
//!
//! The builder validates the three required fields; storage itself is
//! an outside service, so the binaries only move the encoded bytes
//! (see `crate::codec`) in and out of the bucket.

use vstd::prelude::*;
use vstd::string::StringExecFns;

verus! {

/// What went wrong around characters: a missing field at build time, a
/// lookup that found nobody, or a storage-side failure.
#[derive(Debug, PartialEq, Eq)]
pub enum OblivionError {
    SaveCharacter,
    CharacterMissingData(String),
    CreateStore,
    ParseCharacter,
    GetCharacter,
    DeleteCharacter,
    NoCharacterFound(String),
}

/// A character: a display name and description owned by one
/// chat-platform user.
#[derive(Debug)]
pub struct Character {
    pub name: String,
    pub description: String,
    pub discord_id: String,
}

impl Character {
    /// Starts an empty builder.
    pub fn builder() -> (r: CharacterBuilder)
        ensures
            r.discord_id is None,
            r.name is None,
            r.description is None,
    {
        CharacterBuilder::default()
    }

    /// Clones the character, field by field.
    pub fn duplicate(&self) -> (r: Character)
        ensures
            r.name@ == self.name@,
            r.description@ == self.description@,
            r.discord_id@ == self.discord_id@,
    {
        Character {
            name: self.name.clone(),
            description: self.description.clone(),
            discord_id: self.discord_id.clone(),
        }
    }
}

/// Accumulates the fields of a character; `build` checks that all
/// three were set.
pub struct CharacterBuilder {
    pub discord_id: Option<String>,
    pub name: Option<String>,
    pub description: Option<String>,
}

impl Default for CharacterBuilder {
    /// An empty builder: nothing set yet.
    fn default() -> (r: Self)
        ensures
            r.discord_id is None,
            r.name is None,
            r.description is None,
    {
        CharacterBuilder { discord_id: None, name: None, description: None }
    }
}

impl CharacterBuilder {
    /// Sets the owning user's identifier.
    pub fn discord_id(self, discord_id: String) -> (r: Self)
        ensures
            r.discord_id == Some(discord_id),
            r.name == self.name,
            r.description == self.description,
    {
        CharacterBuilder { discord_id: Some(discord_id), ..self }
    }

    /// Sets the character's name.
    pub fn name(self, name: String) -> (r: Self)
        ensures
            r.discord_id == self.discord_id,
            r.name == Some(name),
            r.description == self.description,
    {
        CharacterBuilder { name: Some(name), ..self }
    }

    /// Sets the character's description.
    pub fn description(self, description: String) -> (r: Self)
        ensures
            r.discord_id == self.discord_id,
            r.name == self.name,
            r.description == Some(description),
    {
        CharacterBuilder { description: Some(description), ..self }
    }

    /// Validates the fields and builds the character.  The fields are
    /// checked in the order identifier, name, description, and the
    /// error names the first missing one.
    pub fn build(self) -> (r: Result<Character, OblivionError>)
        ensures
            self.discord_id is None ==> (r matches Err(e) && e matches
                OblivionError::CharacterMissingData(m) && m@ == "discord_id"@),
            self.discord_id is Some && self.name is None ==> (r matches Err(e) && e matches
                OblivionError::CharacterMissingData(m) && m@ == "name"@),
            self.discord_id is Some && self.name is Some && self.description is None ==> (r matches
                Err(e) && e matches OblivionError::CharacterMissingData(m) && m@
                == "description"@),
            self.discord_id is Some && self.name is Some && self.description is Some ==> (r matches
                Ok(c) && c.discord_id == self.discord_id.unwrap() && c.name == self.name.unwrap()
                && c.description == self.description.unwrap()),
    {
        let discord_id = match self.discord_id {
            Some(v) => v,
            None => {
                return Err(OblivionError::CharacterMissingData(String::from_str("discord_id")));
            },
        };
        let name = match self.name {
            Some(v) => v,
            None => {
                return Err(OblivionError::CharacterMissingData(String::from_str("name")));
            },
        };
        let description = match self.description {
            Some(v) => v,
            None => {
                return Err(OblivionError::CharacterMissingData(String::from_str("description")));
            },
        };
        Ok(Character { name, description, discord_id })
    }
}

} // verus!
