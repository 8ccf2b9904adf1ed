use vstd::prelude::*;

verus! {

/// Policy for judgments a participant never expressed about an option.
///
/// `REJECT` treats every missing judgment as the worst possible rating
/// (the sentinel value 0), so every option is graded by the same number of
/// participants. `IGNORE` leaves missing judgments out, so options may carry
/// judgment sequences of different lengths.
#[derive(Clone, Copy, Debug, PartialEq, Eq, Structural)]
pub enum DefaultVote {
    REJECT,
    IGNORE,
}

impl DefaultVote {
    /// Decodes the stored policy code: 0 is `REJECT`, 1 is `IGNORE`, anything
    /// else is rejected rather than silently defaulted.
    pub fn try_from(v: u32) -> (r: Result<DefaultVote, PollError>)
        ensures
            v == 0 ==> r == Ok::<DefaultVote, PollError>(DefaultVote::REJECT),
            v == 1 ==> r == Ok::<DefaultVote, PollError>(DefaultVote::IGNORE),
            v >= 2 ==> r == Err::<DefaultVote, PollError>(PollError::UnknownDefaultVote),
    {
        match v {
            0 => Ok(DefaultVote::REJECT),
            1 => Ok(DefaultVote::IGNORE),
            _ => Err(PollError::UnknownDefaultVote),
        }
    }

    /// The integer code under which this policy is stored.
    pub fn code(&self) -> (r: u32)
        ensures
            r == 0 <==> *self == DefaultVote::REJECT,
            r == 1 <==> *self == DefaultVote::IGNORE,
    {
        match self {
            DefaultVote::REJECT => 0,
            DefaultVote::IGNORE => 1,
        }
    }
}

/// Errors surfaced by the poll store; the ranking computation itself is total
/// and never fails.
#[derive(Clone, Copy, Debug, PartialEq, Eq, Structural)]
pub enum PollError {
    /// No poll with the given identifier exists.
    PollNotFound,
    /// A vote was attempted against a poll whose open flag is false.
    PollClosed,
    /// A poll with the given identifier already exists.
    DuplicatePoll,
    /// The option number does not name an option of the poll.
    NoSuchOption,
    /// A stored policy code maps to neither `REJECT` nor `IGNORE`.
    UnknownDefaultVote,
}

/// The derived, read-only view of a poll: its text, the per-option normalized
/// judgment sequences and the dense ranking computed from them.
pub struct Poll {
    pub desc: String,
    pub author: u64,
    pub options: Vec<String>,
    pub votes: Vec<Vec<usize>>,
    pub ranking: Vec<usize>,
    pub default_vote: DefaultVote,
    pub is_open: bool,
}

} // verus!
