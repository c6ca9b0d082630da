//! Configuration consumed by the pipeline.
//!
//! The values come from the process environment; reading the
//! environment is left to the binaries, which hand the raw strings to
//! `parse_optional_u64` and store the result here.  The getters then
//! answer from these fields alone.

use vstd::prelude::*;
use vstd::string::StrSliceExecFns;
use vstd::string::StringExecFns;

verus! {

/// Is true when the character is a decimal digit.
pub open spec fn is_digit_char(c: char) -> bool {
    48 <= c as u32 <= 57
}

/// The value of one decimal digit.
pub open spec fn digit_val(c: char) -> int {
    c as u32 - 48
}

/// The value of a sequence of decimal digits, most significant first.
pub open spec fn dec_val(s: Seq<char>) -> int
    decreases s.len(),
{
    if s.len() == 0 {
        0
    } else {
        dec_val(s.drop_last()) * 10 + digit_val(s.last())
    }
}

/// Is true when every character of the sequence is a decimal digit.
pub open spec fn all_digits(s: Seq<char>) -> bool {
    forall|i: int| 0 <= i < s.len() ==> is_digit_char(#[trigger] s[i])
}

/// Is true when the sequence spells a decimal number that fits a
/// `u64`.
pub open spec fn is_dec_u64(s: Seq<char>) -> bool {
    s.len() > 0 && all_digits(s) && dec_val(s) <= u64::MAX
}

/// The value of a digit sequence is never negative.
proof fn lemma_dec_val_nonneg(s: Seq<char>)
    requires
        all_digits(s),
    ensures
        dec_val(s) >= 0,
    decreases s.len(),
{
    if s.len() > 0 {
        assert(all_digits(s.drop_last()));
        lemma_dec_val_nonneg(s.drop_last());
    }
}

/// Extending a digit sequence on the right never shrinks its value.
proof fn lemma_dec_val_prefix_le(s: Seq<char>, i: int)
    requires
        all_digits(s),
        0 <= i <= s.len(),
    ensures
        dec_val(s.take(i)) <= dec_val(s),
    decreases s.len() - i,
{
    if i < s.len() {
        lemma_dec_val_prefix_le(s, i + 1);
        let p = s.take(i + 1);
        assert(p.drop_last() =~= s.take(i));
        assert(all_digits(s.take(i)));
        lemma_dec_val_nonneg(s.take(i));
        assert(dec_val(p) == dec_val(s.take(i)) * 10 + digit_val(s[i]));
    } else {
        assert(s.take(i) =~= s);
    }
}

/// Parses a decimal `u64`: all digits, at least one, value in range.
pub fn parse_u64(s: &str) -> (r: Option<u64>)
    ensures
        is_dec_u64(s@) ==> r == Some(dec_val(s@) as u64),
        !is_dec_u64(s@) ==> r is None,
{
    let len = s.unicode_len();
    if len == 0 {
        return None;
    }
    let mut acc: u64 = 0;
    let mut i: usize = 0;
    while i < len
        invariant
            0 < len == s@.len(),
            0 <= i <= len,
            all_digits(s@.take(i as int)),
            acc == dec_val(s@.take(i as int)),
        decreases len - i,
    {
        let c = s.get_char(i);
        let cv = c as u32;
        if cv < 48 || cv > 57 {
            proof {
                assert(!is_digit_char(s@[i as int]));
            }
            return None;
        }
        let d = (cv - 48) as u64;
        if acc > (u64::MAX - d) / 10 {
            proof {
                let p = s@.take(i + 1);
                assert(p.drop_last() =~= s@.take(i as int));
                assert(all_digits(p)) by {
                    assert(forall|j: int|
                        0 <= j < p.len() ==> p[j] == #[trigger] s@.take(i + 1)[j]);
                }
                assert(dec_val(p) == acc * 10 + d);
                assert(acc * 10 + d > u64::MAX) by (nonlinear_arith)
                    requires
                        acc > (u64::MAX - d) / 10,
                        d <= 9,
                {
                    let q = (u64::MAX - d) / 10;
                    assert(u64::MAX - d == 10 * q + (u64::MAX - d) % 10);
                }
                if all_digits(s@) {
                    lemma_dec_val_prefix_le(s@, i + 1);
                }
                assert(!is_dec_u64(s@));
            }
            return None;
        }
        proof {
            assert(acc * 10 + d <= u64::MAX) by (nonlinear_arith)
                requires
                    acc <= (u64::MAX - d) / 10,
                    d <= 9,
            {
                let q = (u64::MAX - d) / 10;
                assert(u64::MAX - d == 10 * q + (u64::MAX - d) % 10);
            }
            let p = s@.take(i + 1);
            assert(p.drop_last() =~= s@.take(i as int));
            assert(p.last() == s@[i as int]);
        }
        acc = acc * 10 + d;
        i = i + 1;
    }
    proof {
        assert(s@.take(len as int) =~= s@);
    }
    Some(acc)
}

/// Configuration for the pipeline, with each optional numeric
/// identifier already parsed.
pub struct OddbotConfig {
    pub screenshot_channel_id: Option<u64>,
    pub screenshot_role_id: Option<u64>,
    pub published_member_role_id: Option<u64>,
    pub guild_id: Option<u64>,
    pub oblivion_social_channel_id: Option<u64>,
    pub oblivion_social_role_id: Option<u64>,
    pub event_stream_name: Option<String>,
    pub event_stream_prefix: Option<String>,
    pub nats_url: String,
}

impl OddbotConfig {
    /// Get the screenshot channel ID.
    pub fn get_screenshot_channel_id(&self) -> (r: Option<u64>)
        ensures
            r == self.screenshot_channel_id,
    {
        self.screenshot_channel_id
    }

    /// Get the screenshot role ID.
    pub fn get_screenshot_role_id(&self) -> (r: Option<u64>)
        ensures
            r == self.screenshot_role_id,
    {
        self.screenshot_role_id
    }

    /// Get the published member role ID.
    pub fn get_published_member_role_id(&self) -> (r: Option<u64>)
        ensures
            r == self.published_member_role_id,
    {
        self.published_member_role_id
    }

    /// Get the guild ID.
    pub fn get_guild_id(&self) -> (r: Option<u64>)
        ensures
            r == self.guild_id,
    {
        self.guild_id
    }

    /// Get the oblivion social channel ID.
    pub fn get_oblivion_social_channel_id(&self) -> (r: Option<u64>)
        ensures
            r == self.oblivion_social_channel_id,
    {
        self.oblivion_social_channel_id
    }

    /// Get the oblivion social role ID.
    pub fn get_oblivion_social_role_id(&self) -> (r: Option<u64>)
        ensures
            r == self.oblivion_social_role_id,
    {
        self.oblivion_social_role_id
    }

    /// Get the event stream name.
    pub fn get_event_stream_name(&self) -> (r: Option<String>)
        ensures
            r == self.event_stream_name,
    {
        match &self.event_stream_name {
            Some(n) => Some(n.clone()),
            None => None,
        }
    }

    /// Get the event stream prefix.
    pub fn get_event_stream_prefix(&self) -> (r: Option<String>)
        ensures
            r == self.event_stream_prefix,
    {
        match &self.event_stream_prefix {
            Some(n) => Some(n.clone()),
            None => None,
        }
    }

    /// Get the log substrate URL.
    pub fn get_nats_url(&self) -> (r: String)
        ensures
            r@ == self.nats_url@,
    {
        self.nats_url.clone()
    }

    /// Parse an optional decimal identifier, as read from one
    /// environment variable.  An unset variable parses to nothing; a
    /// set one must hold a decimal `u64` (the caller rejects anything
    /// else before asking).
    pub fn parse_optional_u64(raw: Option<&str>) -> (r: Option<u64>)
        requires
            raw matches Some(s) ==> is_dec_u64(s@),
        ensures
            raw matches Some(s) ==> r == Some(dec_val(s@) as u64),
            raw is None ==> r is None,
    {
        match raw {
            Some(s) => parse_u64(s),
            None => None,
        }
    }
}

} // verus!
