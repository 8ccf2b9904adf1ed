use mjpolls::{DefaultVote, Poll, PollError, Polls};

fn restaurant_options() -> Vec<String> {
    vec![
        "Mama's Pizza".to_string(),
        "Mega Sushi".to_string(),
        "The Borgir".to_string(),
        "Mec Don Hald".to_string(),
    ]
}

/// Six voters rate four options; voter 1 skips the last option, and voter 5
/// later changes their judgment on the first option to 5.
fn run_restaurant_poll(default_vote: DefaultVote) -> Poll {
    let mut polls = Polls::new();
    polls
        .add_poll(
            1,
            1,
            "Where shall we eat tomorrow ?".to_string(),
            restaurant_options(),
            default_vote,
        )
        .unwrap();
    let user_votes: Vec<Vec<usize>> = vec![
        //   0  1  2  3  options
        vec![3, 5, 3],    // user 1 (forgot to vote for the last option)
        vec![4, 2, 4, 5], // user 2
        vec![3, 3, 3, 3], // user 3
        vec![5, 3, 3, 2], // user 4
        vec![1, 5, 5, 3], // user 5
        vec![2, 1, 2, 4], // user 6
    ];
    for (user, votes) in user_votes.into_iter().enumerate() {
        let user_uuid = (user + 1) as u64;
        for (opt, vote) in votes.into_iter().enumerate() {
            polls.vote(1, opt, user_uuid, vote).unwrap();
        }
    }
    // user 5 changed their mind and gives 5 to the first option
    polls.vote(1, 0, 5, 5).expect("Vote didn't work")
}

#[test]
fn restaurant_poll_ranking_under_reject() {
    let poll = run_restaurant_poll(DefaultVote::REJECT);
    assert_eq!(poll.ranking, vec![1, 3, 2, 4]);
    assert_eq!(
        poll.votes,
        vec![
            vec![2, 3, 3, 4, 5, 5],
            vec![1, 2, 3, 3, 5, 5],
            vec![2, 3, 3, 3, 4, 5],
            vec![0, 2, 3, 3, 4, 5],
        ]
    );
}

#[test]
fn restaurant_poll_ranking_under_ignore() {
    let poll = run_restaurant_poll(DefaultVote::IGNORE);
    assert_eq!(poll.ranking, vec![1, 4, 3, 2]);
    assert_eq!(
        poll.votes,
        vec![
            vec![2, 3, 3, 4, 5, 5],
            vec![1, 2, 3, 3, 5, 5],
            vec![2, 3, 3, 3, 4, 5],
            vec![2, 3, 3, 4, 5],
        ]
    );
}

#[test]
fn default_vote_policy_changes_the_ranking() {
    let reject = run_restaurant_poll(DefaultVote::REJECT);
    let ignore = run_restaurant_poll(DefaultVote::IGNORE);
    assert_eq!(reject.ranking, vec![1, 3, 2, 4]);
    assert_eq!(ignore.ranking, vec![1, 4, 3, 2]);
    assert_ne!(reject.ranking, ignore.ranking);
}

#[test]
fn fresh_poll_view_has_everything_tied() {
    let mut polls = Polls::new();
    let poll = polls
        .add_poll(
            7,
            42,
            "Colour of the bikeshed ?".to_string(),
            vec!["red".to_string(), "green".to_string()],
            DefaultVote::REJECT,
        )
        .unwrap();
    assert_eq!(poll.desc, "Colour of the bikeshed ?");
    assert_eq!(poll.author, 42);
    assert_eq!(poll.options, vec!["red".to_string(), "green".to_string()]);
    assert_eq!(poll.votes, vec![Vec::<usize>::new(), Vec::<usize>::new()]);
    assert_eq!(poll.ranking, vec![1, 1]);
    assert_eq!(poll.default_vote, DefaultVote::REJECT);
    assert!(poll.is_open);
}

#[test]
fn revote_replaces_the_earlier_judgment() {
    let mut polls = Polls::new();
    polls
        .add_poll(
            3,
            1,
            "One option".to_string(),
            vec!["only".to_string()],
            DefaultVote::IGNORE,
        )
        .unwrap();
    polls.vote(3, 0, 9, 1).unwrap();
    let poll = polls.vote(3, 0, 9, 4).unwrap();
    assert_eq!(poll.votes, vec![vec![4]]);
    assert_eq!(poll.ranking, vec![1]);
}

#[test]
fn get_poll_on_unknown_uuid_fails() {
    let polls = Polls::new();
    assert!(matches!(polls.get_poll(99), Err(PollError::PollNotFound)));
}

#[test]
fn vote_on_unknown_poll_fails() {
    let mut polls = Polls::new();
    assert!(matches!(polls.vote(99, 0, 1, 3), Err(PollError::PollNotFound)));
}

#[test]
fn duplicate_poll_uuid_fails() {
    let mut polls = Polls::new();
    polls
        .add_poll(
            5,
            1,
            "First".to_string(),
            vec!["a".to_string()],
            DefaultVote::REJECT,
        )
        .unwrap();
    let second = polls.add_poll(
        5,
        2,
        "Second".to_string(),
        vec!["b".to_string()],
        DefaultVote::IGNORE,
    );
    assert!(matches!(second, Err(PollError::DuplicatePoll)));
    // the stored poll is untouched
    assert_eq!(polls.get_poll(5).unwrap().desc, "First");
}

#[test]
fn vote_on_unknown_option_fails() {
    let mut polls = Polls::new();
    polls
        .add_poll(
            6,
            1,
            "Narrow".to_string(),
            vec!["only".to_string()],
            DefaultVote::REJECT,
        )
        .unwrap();
    assert!(matches!(polls.vote(6, 1, 1, 3), Err(PollError::NoSuchOption)));
}

#[test]
fn vote_on_closed_poll_fails() {
    let mut polls = Polls::new();
    polls
        .add_poll(
            8,
            1,
            "Closing time".to_string(),
            vec!["a".to_string(), "b".to_string()],
            DefaultVote::IGNORE,
        )
        .unwrap();
    polls.vote(8, 0, 1, 5).unwrap();
    let closed = polls.close_poll(8).unwrap();
    assert!(!closed.is_open);
    assert!(matches!(polls.vote(8, 1, 1, 5), Err(PollError::PollClosed)));
    // the poll can still be read after closing
    let view = polls.get_poll(8).unwrap();
    assert!(!view.is_open);
    assert_eq!(view.votes, vec![vec![5], vec![]]);
}

#[test]
fn close_poll_on_unknown_uuid_fails() {
    let mut polls = Polls::new();
    assert!(matches!(polls.close_poll(1), Err(PollError::PollNotFound)));
}

#[test]
fn default_vote_codes_round_trip() {
    assert_eq!(DefaultVote::try_from(0), Ok(DefaultVote::REJECT));
    assert_eq!(DefaultVote::try_from(1), Ok(DefaultVote::IGNORE));
    assert_eq!(DefaultVote::REJECT.code(), 0);
    assert_eq!(DefaultVote::IGNORE.code(), 1);
}

#[test]
fn unknown_default_vote_code_fails() {
    assert_eq!(DefaultVote::try_from(7), Err(PollError::UnknownDefaultVote));
}
