//! Choosing the entries to unpack by a regular expression on their names.

use vstd::prelude::*;
use crate::error::Error;

verus! {

/// The compiled regular expression of the `regex` crate. Nothing of its
/// inside is known here: it is made by `regex::Regex::new` and handed to
/// `regex::Regex::is_match` as it is.
#[verifier::external_type_specification]
#[verifier::external_body]
pub struct ExRegex(regex::Regex);

/// `regex::Regex::new`, with its error dropped: compiles `pattern`, which
/// fails for a pattern that is no regular expression or grows too large.
/// Nothing is claimed of which patterns these are.
#[verifier::external_body]
fn compile(pattern: &str) -> Option<regex::Regex> {
    match regex::Regex::new(pattern) {
        Ok(regex) => Some(regex),
        Err(_) => None,
    }
}

/// `regex::Regex::is_match`: whether `regex` matches anywhere in `text`.
/// Nothing is claimed of the answer.
#[verifier::external_body]
fn is_match(regex: &regex::Regex, text: &str) -> bool {
    regex.is_match(text)
}

/// Whether an entry is wanted: every entry is where nothing filters, and
/// otherwise those whose name the filter matches.
pub fn wanted(filtered: bool, matched: bool) -> (wanted: bool)
    ensures
        wanted == (!filtered || matched),
{
    !filtered || matched
}

/// A choice of entries by name: all of them, or those whose name a regular
/// expression matches.
pub struct NameFilter {
    regex: Option<regex::Regex>,
}

impl NameFilter {
    /// Whether the filter is a regular expression, and not the choice of
    /// all entries.
    pub closed spec fn filtered(&self) -> bool {
        self.regex is Some
    }

    /// The choice of all entries.
    pub fn all() -> (filter: NameFilter)
        ensures
            !filter.filtered(),
    {
        NameFilter { regex: None }
    }

    /// The filter that compiling a pattern gave, where it gave one.
    pub fn from_compiled(compiled: Option<regex::Regex>) -> (filter: Result<NameFilter, Error>)
        ensures
            filter is Ok <==> compiled is Some,
            filter is Ok ==> filter->Ok_0.filtered(),
            filter is Err ==> filter->Err_0 == Error::InvalidFilter,
    {
        match compiled {
            Some(regex) => Ok(NameFilter { regex: Some(regex) }),
            None => Err(Error::InvalidFilter),
        }
    }

    /// The filter of `pattern`, or the choice of all entries where there is
    /// no pattern. A pattern that does not compile is refused.
    pub fn new(pattern: Option<&str>) -> (filter: Result<NameFilter, Error>)
        ensures
            pattern is None ==> filter is Ok,
            filter is Ok ==> filter->Ok_0.filtered() == (pattern is Some),
            filter is Err ==> filter->Err_0 == Error::InvalidFilter,
    {
        match pattern {
            None => Ok(NameFilter::all()),
            Some(pattern) => NameFilter::from_compiled(compile(pattern)),
        }
    }

    /// Whether the filter is a regular expression.
    pub fn is_filtered(&self) -> (filtered: bool)
        ensures
            filtered == self.filtered(),
    {
        self.regex.is_some()
    }

    /// Whether the entry called `name` is chosen. Where nothing filters,
    /// every entry is.
    pub fn selects(&self, name: &str) -> (chosen: bool)
        ensures
            !self.filtered() ==> chosen,
    {
        match &self.regex {
            None => wanted(false, false),
            Some(regex) => wanted(true, is_match(regex, name)),
        }
    }
}

} // verus!
