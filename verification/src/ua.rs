//! The user agent that a request came from, as the selection sees it.
use vstd::prelude::*;
use crate::range::{version_in_range, range_satisfied};

verus! {

/// A parsed user agent: its browser family, its version, and whether the
/// service knows the browser.
pub struct UA {
    pub family: String,
    pub major: u64,
    pub minor: u64,
    pub patch: u64,
    pub unknown: bool,
}

/// A user agent parsed by the rules of the older service version.
pub type OldUA = UA;

impl UA {
    /// Whether the service does not know this browser.
    pub fn is_unknown(&self) -> (r: bool)
        ensures
            r == self.unknown,
    {
        self.unknown
    }

    /// The browser family.
    pub fn get_family(&self) -> (r: String)
        ensures
            r@ == self.family@,
    {
        self.family.clone()
    }

    /// Whether the browser's version lies in `range`.
    pub fn satisfies(&self, range: String) -> (r: bool)
        ensures
            r == version_in_range(self.major, self.minor, self.patch, range@),
    {
        range_satisfied(self.major, self.minor, self.patch, &range)
    }
}

/// The user agent of a request, parsed by the rules of one service version.
pub enum U {
    Old(OldUA),
    Current(UA),
}

impl U {
    /// The parsed user agent, whichever rules parsed it.
    pub open spec fn parsed(self) -> UA {
        match self {
            U::Old(u) => u,
            U::Current(u) => u,
        }
    }

    /// Whether the service does not know this browser.
    pub fn is_unknown(&self) -> (r: bool)
        ensures
            r == self.parsed().unknown,
    {
        match self {
            U::Old(u) => u.is_unknown(),
            U::Current(u) => u.is_unknown(),
        }
    }

    /// The browser family.
    pub fn get_family(&self) -> (r: String)
        ensures
            r@ == self.parsed().family@,
    {
        match self {
            U::Old(u) => u.get_family(),
            U::Current(u) => u.get_family(),
        }
    }

    /// Whether the browser's version lies in `range`.
    pub fn satisfies(&self, range: String) -> (r: bool)
        ensures
            r == version_in_range(self.parsed().major, self.parsed().minor, self.parsed().patch, range@),
    {
        match self {
            U::Old(u) => u.satisfies(range),
            U::Current(u) => u.satisfies(range),
        }
    }
}

} // verus!
