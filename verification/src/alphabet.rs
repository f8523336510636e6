//! The character classes that tokens are made of.

use vstd::prelude::*;

verus! {

/// Whether `c` is alphabetic or numeric by the Unicode tables of the
/// standard library.
pub uninterp spec fn alphanumeric(c: char) -> bool;

/// `char::is_alphanumeric` of the standard library, which looks the
/// character up in its Unicode tables.
///
/// Assumed, not proved: the result depends on the character alone, so that
/// it is the value that `alphanumeric` names.
pub assume_specification[ char::is_alphanumeric ](c: char) -> (r: bool)
    ensures
        r == alphanumeric(c),
;

/// A class of characters: a token is a run of characters of one class.
#[derive(Clone, Copy, Debug)]
pub enum Alphabet {
    /// Alphanumeric characters and `%`.
    Filter,
    /// The filter alphabet with `_` and `-`.
    Hostname,
}

impl Alphabet {
    /// Whether `c` belongs to the alphabet.
    pub open spec fn admits(self, c: char) -> bool {
        match self {
            Alphabet::Filter => alphanumeric(c) || c == '%',
            Alphabet::Hostname => alphanumeric(c) || c == '%' || c == '_' || c == '-',
        }
    }

    /// Tells whether `ch` belongs to the alphabet.
    pub fn allows(self, ch: char) -> (allowed: bool)
        ensures
            allowed == self.admits(ch),
    {
        match self {
            Alphabet::Filter => is_allowed_filter(ch),
            Alphabet::Hostname => is_allowed_hostname(ch),
        }
    }
}

/// Tells whether `ch` may stand in a token of a filter.
pub fn is_allowed_filter(ch: char) -> (allowed: bool)
    ensures
        allowed == Alphabet::Filter.admits(ch),
{
    ch.is_alphanumeric() || ch == '%'
}

/// Tells whether `ch` may stand in a token of a hostname.
pub fn is_allowed_hostname(ch: char) -> (allowed: bool)
    ensures
        allowed == Alphabet::Hostname.admits(ch),
{
    is_allowed_filter(ch) || ch == '_' || ch == '-'
}

} // verus!
