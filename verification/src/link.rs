//! Link references, their reserved values, and the link triple.

use vstd::prelude::*;

verus! {

/// The reserved reference that stands for "no link".
pub open spec fn null_ref() -> usize {
    0
}

/// The reserved reference that matches every link in a query.
pub open spec fn any_ref() -> usize {
    (usize::MAX - 3) as usize
}

/// The reserved reference that stands for "the link itself".
pub open spec fn itself_ref() -> usize {
    (usize::MAX - 4) as usize
}

/// The largest reference that a stored link can have.
pub open spec fn max_link_ref() -> usize {
    (usize::MAX - 6) as usize
}

/// Whether `r` is one of the three reserved references, which never name
/// stored content.
pub open spec fn is_sentinel(r: usize) -> bool {
    r == null_ref() || r == any_ref() || r == itself_ref()
}

/// Whether `r` can be the index of a stored link.
pub open spec fn is_link_ref(r: usize) -> bool {
    1 <= r <= max_link_ref()
}

/// Whether `r` can stand as the source or target of a content-addressed
/// lookup: it is neither the absent reference nor the wildcard.
pub open spec fn is_addressable(r: usize) -> bool {
    r != null_ref() && r != any_ref()
}

/// The three reserved references of a store.
#[derive(Clone, Copy, PartialEq, Eq, Debug, Structural)]
pub struct Sentinels {
    pub null: usize,
    pub any: usize,
    pub itself: usize,
}

impl Sentinels {
    /// Whether `r` is one of the three.
    pub fn contains(&self, r: usize) -> (b: bool)
        ensures
            b == (r == self.null || r == self.any || r == self.itself),
    {
        r == self.null || r == self.any || r == self.itself
    }
}

/// A stored unit: its own index and the two references it connects.
#[derive(Clone, Copy, PartialEq, Eq, Hash, Debug, Structural)]
pub struct Link {
    pub index: usize,
    pub source: usize,
    pub target: usize,
}

impl Link {
    /// The link `index: source -> target`.
    pub fn new(index: usize, source: usize, target: usize) -> (link: Link)
        ensures
            link == (Link { index, source, target }),
    {
        Link { index, source, target }
    }

    /// The self-referential link at `index`.
    pub fn point(index: usize) -> (link: Link)
        ensures
            link == (Link { index, source: index, target: index }),
    {
        Link { index, source: index, target: index }
    }

    /// A link is a full point when it is both its own source and its own
    /// target.
    pub open spec fn spec_is_full(&self) -> bool {
        self.index == self.source && self.index == self.target
    }

    /// A link is a partial point when it is its own source or its own target.
    pub open spec fn spec_is_partial(&self) -> bool {
        self.index == self.source || self.index == self.target
    }

    #[verifier::when_used_as_spec(spec_is_full)]
    pub fn is_full(&self) -> (b: bool)
        ensures
            b == self.spec_is_full(),
    {
        self.index == self.source && self.index == self.target
    }

    #[verifier::when_used_as_spec(spec_is_partial)]
    pub fn is_partial(&self) -> (b: bool)
        ensures
            b == self.spec_is_partial(),
    {
        self.index == self.source || self.index == self.target
    }
}

} // verus!
