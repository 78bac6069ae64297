use vstd::prelude::*;

verus! {

/// Identifier of a client.
pub type ClientId = u64;

/// Identifier of a replica.
pub type ProcessId = u64;

/// Globally unique request identifier: the issuing client and that client's
/// own sequence number.
#[derive(Clone, Copy, Debug, PartialEq, Eq, Structural, Hash)]
pub struct Rifl {
    pub source: ClientId,
    pub sequence: u64,
}

impl Rifl {
    pub fn new(source: ClientId, sequence: u64) -> (r: Rifl)
        ensures
            r.source == source,
            r.sequence == sequence,
    {
        Rifl { source, sequence }
    }

    /// The client that issued this request.
    pub fn source(&self) -> (r: ClientId)
        ensures
            r == self.source,
    {
        self.source
    }

    pub fn sequence(&self) -> (r: u64)
        ensures
            r == self.sequence,
    {
        self.sequence
    }

    /// Canonical total order on request identifiers: by client, then by
    /// sequence number.
    pub open spec fn precedes(self, other: Rifl) -> bool {
        self.source < other.source || (self.source == other.source && self.sequence
            < other.sequence)
    }

    pub fn less_than(&self, other: &Rifl) -> (r: bool)
        ensures
            r == self.precedes(*other),
    {
        self.source < other.source || (self.source == other.source && self.sequence
            < other.sequence)
    }
}

} // verus!
