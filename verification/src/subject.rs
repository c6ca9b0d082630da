//! Subjects: hierarchical routing keys with trailing-wildcard matching.
//!
//! A subject is a dot-separated list of non-empty tokens, such as
//! `oddlaws.events.skeever.post`.  A filter is a subject whose final
//! token may be the wildcard `>`, which matches any non-empty remainder
//! of the subject; `>` on its own matches every subject.

use crate::text::chars_of;
use vstd::prelude::*;

verus! {

/// Is true when the filter matches the subject: either the filter is
/// the lone wildcard `>`, or it ends in `.>` and its stem (wildcard
/// stripped, dot kept) is a proper prefix of the subject, or it equals
/// the subject outright.
pub open spec fn subject_matches(filter: Seq<char>, subject: Seq<char>) -> bool {
    if filter == seq!['>'] {
        true
    } else if filter.len() >= 2 && filter[filter.len() - 1] == '>' && filter[filter.len() - 2]
        == '.' {
        let stem = filter.take(filter.len() - 1);
        subject.len() > stem.len() && subject.take(stem.len() as int) == stem
    } else {
        filter == subject
    }
}

/// Is true when every character is an acceptable subject character:
/// printable, not a space, and none of the wildcard characters `>` and
/// `*`, which have meaning of their own.
pub open spec fn plain_subject_char(c: char) -> bool {
    &&& c as u32 > 32
    &&& c != '>'
    &&& c != '*'
    &&& c != '.'
}

/// Is true when the sequence is a well-formed filter subject: dot
/// separated non-empty tokens of plain characters, except that the
/// final token may be the wildcard `>`.
pub open spec fn valid_filter_subject(s: Seq<char>) -> bool {
    &&& s.len() > 0
    &&& forall|i: int|
        0 <= i < s.len() ==> (plain_subject_char(#[trigger] s[i]) || s[i] == '.' || (s[i] == '>'
            && i == s.len() - 1))
    &&& s[0] != '.'
    &&& s[s.len() - 1] != '.'
    &&& forall|i: int| 0 < i < s.len() ==> !(#[trigger] s[i] == '.' && s[i - 1] == '.')
    &&& s[s.len() - 1] == '>' && s.len() >= 2 ==> s[s.len() - 2] == '.'
}

/// Decides whether the filter matches the subject.
pub fn filter_matches(filter: &str, subject: &str) -> (r: bool)
    ensures
        r == subject_matches(filter@, subject@),
{
    let f = chars_of(filter);
    let s = chars_of(subject);
    filter_matches_chars(&f, &s)
}

/// Decides whether the filter matches the subject, both given as
/// character vectors.
pub fn filter_matches_chars(f: &Vec<char>, s: &Vec<char>) -> (r: bool)
    ensures
        r == subject_matches(f@, s@),
{
    if f.len() == 1 && f[0] == '>' {
        proof {
            assert(f@ =~= seq!['>']);
        }
        return true;
    }
    proof {
        assert(f@ != seq!['>']) by {
            if f@ == seq!['>'] {
                assert(f@.len() == 1 && f@[0] == '>');
            }
        }
    }
    if f.len() >= 2 && f[f.len() - 1] == '>' && f[f.len() - 2] == '.' {
        let stem_len = f.len() - 1;
        if s.len() <= stem_len {
            return false;
        }
        let mut i: usize = 0;
        while i < stem_len
            invariant
                0 <= i <= stem_len,
                stem_len < f@.len(),
                stem_len < s@.len(),
                forall|j: int| 0 <= j < i ==> s@[j] == f@[j],
            decreases stem_len - i,
        {
            if s[i] != f[i] {
                proof {
                    assert(s@.take(stem_len as int)[i as int] != f@.take(stem_len as int)[
                    i as int]);
                }
                return false;
            }
            i = i + 1;
        }
        proof {
            assert(s@.take(stem_len as int) =~= f@.take(stem_len as int));
        }
        true
    } else {
        crate::text::chars_eq(f, s)
    }
}

/// Decides whether the sequence is a well-formed filter subject.
pub fn check_filter_subject(v: &Vec<char>) -> (r: bool)
    ensures
        r == valid_filter_subject(v@),
{
    if v.len() == 0 {
        return false;
    }
    if v[0] == '.' || v[v.len() - 1] == '.' {
        return false;
    }
    let last = v.len() - 1;
    let mut i: usize = 0;
    let mut ok = true;
    while i < v.len()
        invariant
            0 <= i <= v@.len(),
            last == v@.len() - 1,
            ok == ((forall|j: int|
                0 <= j < i ==> (plain_subject_char(#[trigger] v@[j]) || v@[j] == '.' || (v@[j]
                    == '>' && j == v@.len() - 1))) && (forall|j: int|
                0 < j < i ==> !(#[trigger] v@[j] == '.' && v@[j - 1] == '.'))),
        decreases v@.len() - i,
    {
        let c = v[i];
        let plain = (c as u32) > 32 && c != '>' && c != '*' && c != '.';
        if !(plain || c == '.' || (c == '>' && i == last)) {
            ok = false;
        }
        if i > 0 && c == '.' && v[i - 1] == '.' {
            ok = false;
        }
        i = i + 1;
    }
    if !ok {
        return false;
    }
    if v[last] == '>' && v.len() >= 2 && v[last - 1] != '.' {
        return false;
    }
    true
}

} // verus!
