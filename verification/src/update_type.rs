//! Kinds of version bump.

use vstd::prelude::*;

verus! {

/// How far a release moves the version. The stronger bump comes first.
#[derive(Clone, Copy, Debug, PartialEq, Eq, PartialOrd, Ord, Structural)]
pub enum UpdateType {
    Major,
    Minor,
    Patch,
}

impl UpdateType {
    /// Position in the order from the strongest bump to the weakest.
    pub open spec fn rank(self) -> int {
        match self {
            UpdateType::Major => 0,
            UpdateType::Minor => 1,
            UpdateType::Patch => 2,
        }
    }

    /// The stronger of the two bumps.
    pub open spec fn stronger(self, other: UpdateType) -> UpdateType {
        if other.rank() < self.rank() {
            other
        } else {
            self
        }
    }

    /// The stronger of the two bumps.
    pub fn strongest(self, other: UpdateType) -> (result: UpdateType)
        ensures
            result == self.stronger(other),
    {
        match (self, other) {
            (UpdateType::Major, _) => UpdateType::Major,
            (_, UpdateType::Major) => UpdateType::Major,
            (UpdateType::Minor, _) => UpdateType::Minor,
            (_, UpdateType::Minor) => UpdateType::Minor,
            (UpdateType::Patch, UpdateType::Patch) => UpdateType::Patch,
        }
    }
}

} // verus!
