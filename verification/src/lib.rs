//! Majority Judgment poll ranking.
//!
//! Each participant grades every option of a poll with an integer judgment;
//! options are ordered by iterated-median comparison and given dense ranks
//! (tied options share a rank, the next distinct group is exactly one rank
//! further down). Storage and rendering of polls are left to callers; the
//! library holds the ranking rules and an in-memory poll store.

mod majority;
mod majority_judgment;
mod poll;
mod votes;

pub use majority::Polls;
pub use majority_judgment::compute_ranking;
pub use majority_judgment::fill_out_votes;
pub use majority_judgment::normalize;
pub use poll::DefaultVote;
pub use poll::Poll;
pub use poll::PollError;
pub use votes::MJVotes;
