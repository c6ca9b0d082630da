//! Squeaks: the event payload that flows through the pipeline.
//!
//! A squeak is a short post with a time-sortable 128-bit identifier,
//! some text content, and an author.  Identifiers are drawn at
//! construction time and never reused; content and author name are
//! required, and building without them fails.

use vstd::prelude::*;

verus! {

/// The author of a squeak.
#[derive(Debug)]
pub struct User {
    pub name: String,
}

/// What went wrong while building a squeak.
#[derive(Debug, PartialEq, Eq)]
pub enum SqueakError {
    UserNameRequired,
    ContentRequired,
}

/// An event payload: a post with a unique, time-sortable identifier.
///
/// The identifier holds a millisecond timestamp in its top 48 bits and
/// random bits below, so byte order matches creation order; it is
/// written on the wire in Crockford base32 (see `crate::ident`).
#[derive(Debug)]
pub struct Squeak {
    pub id: u128,
    pub content: String,
    pub author: User,
}

/// The mathematical content of a squeak: the identifier and the two
/// text fields as character sequences.
pub ghost struct SqueakView {
    pub id: u128,
    pub content: Seq<char>,
    pub author_name: Seq<char>,
}

impl View for Squeak {
    type V = SqueakView;

    open spec fn view(&self) -> SqueakView {
        SqueakView { id: self.id, content: self.content@, author_name: self.author.name@ }
    }
}

impl Squeak {
    /// Starts an empty builder.
    pub fn builder() -> (r: SqueakBuilder)
        ensures
            r.content is None,
            r.user_name is None,
    {
        SqueakBuilder::default()
    }

    /// The subject under which squeaks are published: the given prefix
    /// (or `oddlaws.events` when none is configured) followed by
    /// `.skeever.post`.
    pub fn get_subject(prefix: Option<&str>) -> (r: String)
        ensures
            r@ == spec_subject(match prefix {
                Some(p) => Some(p@),
                None => None,
            }),
    {
        proof {
            reveal_strlit("oddlaws.events");
            reveal_strlit(".skeever.post");
        }
        let base: String = match prefix {
            Some(p) => p.to_owned(),
            None => "oddlaws.events".to_owned(),
        };
        vstd::string::StringExecFns::concat(base, ".skeever.post")
    }

    /// Clones the squeak, field by field.
    pub fn duplicate(&self) -> (r: Squeak)
        ensures
            r@ == self@,
    {
        Squeak {
            id: self.id,
            content: self.content.clone(),
            author: User { name: self.author.name.clone() },
        }
    }
}

/// The subject for squeak events, for a configured prefix or the
/// default one.
pub open spec fn spec_subject(prefix: Option<Seq<char>>) -> Seq<char> {
    (match prefix {
        Some(p) => p,
        None => "oddlaws.events"@,
    }) + ".skeever.post"@
}

/// Accumulates the fields of a squeak; `build` checks that all
/// required ones were set.
pub struct SqueakBuilder {
    pub content: Option<String>,
    pub user_name: Option<String>,
}

impl Default for SqueakBuilder {
    /// An empty builder: nothing set yet.
    fn default() -> (r: Self)
        ensures
            r.content is None,
            r.user_name is None,
    {
        SqueakBuilder { content: None, user_name: None }
    }
}

impl SqueakBuilder {
    /// Sets the content of the squeak.
    pub fn content(self, value: String) -> (r: Self)
        ensures
            r.content == Some(value),
            r.user_name == self.user_name,
    {
        SqueakBuilder { content: Some(value), ..self }
    }

    /// Sets the user name of the squeak.
    pub fn user(self, name: String) -> (r: Self)
        ensures
            r.content == self.content,
            r.user_name == Some(name),
    {
        SqueakBuilder { user_name: Some(name), ..self }
    }

    /// Builds the squeak, drawing a fresh identifier.  The author name
    /// is checked before the content, so a builder missing both fails
    /// on the author name.
    pub fn build(self) -> (r: Result<Squeak, SqueakError>)
        ensures
            self.user_name is None ==> r == Err::<Squeak, SqueakError>(
                SqueakError::UserNameRequired,
            ),
            self.user_name is Some && self.content is None ==> r == Err::<Squeak, SqueakError>(
                SqueakError::ContentRequired,
            ),
            self.user_name is Some && self.content is Some ==> (r matches Ok(sq)
                && sq.content == self.content.unwrap() && sq.author.name
                == self.user_name.unwrap()),
    {
        let id = fresh_ulid();
        self.build_with_id(id)
    }

    /// Builds the squeak around an identifier chosen by the caller.
    pub fn build_with_id(self, id: u128) -> (r: Result<Squeak, SqueakError>)
        ensures
            self.user_name is None ==> r == Err::<Squeak, SqueakError>(
                SqueakError::UserNameRequired,
            ),
            self.user_name is Some && self.content is None ==> r == Err::<Squeak, SqueakError>(
                SqueakError::ContentRequired,
            ),
            self.user_name is Some && self.content is Some ==> (r matches Ok(sq) && sq.id == id
                && sq.content == self.content.unwrap() && sq.author.name
                == self.user_name.unwrap()),
    {
        let user_name = match self.user_name {
            Some(n) => n,
            None => {
                return Err(SqueakError::UserNameRequired);
            },
        };
        let content = match self.content {
            Some(c) => c,
            None => {
                return Err(SqueakError::ContentRequired);
            },
        };
        Ok(Squeak { id, content, author: User { name: user_name } })
    }
}

/// Relies on `ulid::Ulid::generate`, which draws a fresh identifier
/// from the clock and a random source.  The result depends on both, so
/// nothing is promised of its value.
#[verifier::external_body]
pub(crate) fn fresh_ulid() -> u128 {
    ulid::Ulid::generate().0
}

} // verus!
