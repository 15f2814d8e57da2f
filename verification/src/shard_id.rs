//! Identifiers of shards.

use vstd::pervasive::cloned;
use vstd::prelude::*;
use vstd::std_specs::cmp::{PartialEqSpec, PartialEqSpecImpl};

verus! {

/// What identifies a shard within one view of the cluster. `==` on
/// identifiers decides whether they are the same, and a clone of an
/// identifier is that identifier: an implementation proves both in
/// `identity_laws`. An implementation in code that is not verified writes
/// `identity_laws` with an empty body, and thereby promises both.
pub trait ShardIdentifier: PartialEq + Eq + Clone {
    /// The two laws of identifiers.
    proof fn identity_laws()
        ensures
            Self::obeys_eq_spec(),
            forall|a: Self, b: Self| #[trigger] a.eq_spec(&b) <==> a == b,
            forall|a: Self, b: Self| #[trigger] cloned(a, b) ==> a == b,
    ;
}

/// The number of a shard of the search index.
#[derive(Clone, Copy, Debug, Eq, Hash)]
pub struct ShardId(pub u64);

impl PartialEq for ShardId {
    fn eq(&self, other: &Self) -> (same: bool) {
        self.0 == other.0
    }
}

impl PartialEqSpecImpl for ShardId {
    open spec fn obeys_eq_spec() -> bool {
        true
    }

    open spec fn eq_spec(&self, other: &Self) -> bool {
        self.0 == other.0
    }
}

impl ShardIdentifier for ShardId {
    proof fn identity_laws() {
    }
}

impl ShardId {
    /// The identifier of the shard with the given number.
    pub fn new(number: u64) -> (id: ShardId)
        ensures
            id == ShardId(number),
    {
        ShardId(number)
    }

    /// The number of the shard.
    pub fn as_u64(&self) -> (number: u64)
        ensures
            number == self.0,
    {
        self.0
    }
}

} // verus!
