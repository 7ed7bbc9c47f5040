use vstd::prelude::*;

verus! {

/// The persisted state of one pending upload. The absence of a key in the
/// work store means that no work is pending for it.
#[derive(Clone, Copy, Debug, PartialEq, Eq, Structural)]
pub enum WorkState {
    /// Waiting to be claimed by a worker.
    Queued,
    /// Claimed by a worker whose upload has not been confirmed.
    InProgress,
}

/// The one-byte tag under which a state is persisted.
pub open spec fn tag_of(s: WorkState) -> u8 {
    match s {
        WorkState::Queued => 0,
        WorkState::InProgress => 1,
    }
}

impl WorkState {
    /// The tag that this state is persisted under.
    pub fn tag(&self) -> (r: u8)
        ensures
            r == tag_of(*self),
    {
        match self {
            WorkState::Queued => 0,
            WorkState::InProgress => 1,
        }
    }

    /// Reads a persisted tag back; an unknown tag gives `None`.
    pub fn from_tag(t: u8) -> (r: Option<WorkState>)
        ensures
            r matches Some(s) ==> tag_of(s) == t,
            r is None <==> t > 1,
    {
        if t == 0 {
            Some(WorkState::Queued)
        } else if t == 1 {
            Some(WorkState::InProgress)
        } else {
            None
        }
    }
}

/// Reading back the tag of a state gives that state.
pub proof fn lemma_tag_round_trip(s: WorkState)
    ensures
        tag_of(s) <= 1,
        forall|t: WorkState| tag_of(t) == tag_of(s) ==> t == s,
{
}

} // verus!
