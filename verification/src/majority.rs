use crate::majority_judgment::{compute_ranking, deep, norm_spec, normalize, option_rank};
use crate::poll::{DefaultVote, Poll, PollError};
use vstd::prelude::*;

verus! {

/// One stored poll: its text, its options and the currently effective
/// votes. `votes[o]` holds one `(user, judgment)` pair per participant who
/// rated option `o`; a later vote by the same user replaces the earlier
/// pair.
pub struct PollRecord {
    pub uuid: u64,
    pub desc: String,
    pub author: u64,
    pub default_vote: DefaultVote,
    pub is_open: bool,
    pub options: Vec<String>,
    pub votes: Vec<Vec<(u64, usize)>>,
}

/// The judgments of one option's vote list, in submission order.
pub open spec fn raw_judgments(vs: Seq<(u64, usize)>) -> Seq<usize> {
    vs.map_values(|uv: (u64, usize)| uv.1)
}

/// The per-option raw judgment lists of a stored poll.
pub open spec fn record_raw(r: PollRecord) -> Seq<Seq<usize>> {
    r.votes@.map_values(|vs: Vec<(u64, usize)>| raw_judgments(vs@))
}

/// Each user holds at most one current judgment in the list.
pub open spec fn users_unique(vs: Seq<(u64, usize)>) -> bool {
    forall|a: int, b: int| 0 <= a < b < vs.len() ==> (#[trigger] vs[a]).0 != (#[trigger] vs[b]).0
}

/// The vote list after user `u` judges with `v`: the user's earlier pair is
/// replaced in place, or `(u, v)` is appended if the user had none.
pub open spec fn upsert(vs: Seq<(u64, usize)>, u: u64, v: usize) -> Seq<(u64, usize)>
    decreases vs.len(),
{
    if vs.len() == 0 {
        seq![(u, v)]
    } else if vs[0].0 == u {
        seq![(u, v)] + vs.drop_first()
    } else {
        seq![vs[0]] + upsert(vs.drop_first(), u, v)
    }
}

impl PollRecord {
    /// Well-formed: one vote list per option, at least one option, and at
    /// most one current judgment per user and option.
    pub open spec fn wf(self) -> bool {
        &&& self.votes@.len() == self.options@.len()
        &&& self.options@.len() > 0
        &&& forall|o: int|
            0 <= o < self.votes@.len() ==> users_unique((#[trigger] self.votes@[o])@)
    }
}

/// The derived view of a stored poll: its text copied over, its votes
/// normalized under the poll's policy, and its ranking computed from the
/// normalized votes.
pub open spec fn poll_view_ok(p: Poll, r: PollRecord) -> bool {
    &&& p.desc == r.desc
    &&& p.author == r.author
    &&& p.options@ == r.options@
    &&& p.default_vote == r.default_vote
    &&& p.is_open == r.is_open
    &&& deep(p.votes@) == norm_spec(record_raw(r), r.default_vote)
    &&& p.ranking@.len() == r.options@.len()
    &&& forall|i: int|
        0 <= i < p.ranking@.len() ==> (#[trigger] p.ranking@[i]) as int == option_rank(
            norm_spec(record_raw(r), r.default_vote),
            i,
        )
}

/// An in-memory poll store: the collaborator that holds polls, accepts
/// votes, and serves freshly derived poll views.
pub struct Polls {
    pub polls: Vec<PollRecord>,
}

impl Polls {
    /// Well-formed: every stored poll is, and identifiers are unique.
    pub open spec fn wf(self) -> bool {
        &&& forall|p: int| 0 <= p < self.polls@.len() ==> (#[trigger] self.polls@[p]).wf()
        &&& forall|p: int, q: int|
            0 <= p < q < self.polls@.len() ==> (#[trigger] self.polls@[p]).uuid != (
            #[trigger] self.polls@[q]).uuid
    }

    /// Whether a poll with `uuid` is stored.
    pub open spec fn has_poll(self, uuid: u64) -> bool {
        exists|p: int| 0 <= p < self.polls@.len() && (#[trigger] self.polls@[p]).uuid == uuid
    }

    /// The index of the stored poll with `uuid`.
    pub open spec fn poll_at(self, uuid: u64) -> int {
        choose|p: int| 0 <= p < self.polls@.len() && (#[trigger] self.polls@[p]).uuid == uuid
    }

    /// A fresh store with no polls.
    pub fn new() -> (r: Polls)
        ensures
            r.wf(),
            r.polls@.len() == 0,
    {
        Polls { polls: Vec::new() }
    }

    fn find(&self, poll_uuid: u64) -> (r: Option<usize>)
        ensures
            match r {
                Some(p) => (p as int) < self.polls@.len() && self.polls@[p as int].uuid
                    == poll_uuid,
                None => !self.has_poll(poll_uuid),
            },
    {
        let mut p: usize = 0;
        while p < self.polls.len()
            invariant
                p <= self.polls@.len(),
                forall|m: int| 0 <= m < p ==> (#[trigger] self.polls@[m]).uuid != poll_uuid,
            decreases self.polls@.len() - p,
        {
            if self.polls[p].uuid == poll_uuid {
                return Some(p);
            }
            p += 1;
        }
        None
    }

    proof fn lemma_poll_at_is(self, uuid: u64, p: int)
        requires
            self.wf(),
            0 <= p < self.polls@.len(),
            self.polls@[p].uuid == uuid,
        ensures
            self.has_poll(uuid),
            self.poll_at(uuid) == p,
    {
        let q = self.poll_at(uuid);
        if q != p {
            assert(self.polls@[p].uuid != self.polls@[q].uuid);
        }
    }

    /// Derives the current view of the stored poll at index `p`.
    fn poll_view(&self, p: usize) -> (r: Poll)
        requires
            self.wf(),
            (p as int) < self.polls@.len(),
        ensures
            poll_view_ok(r, self.polls@[p as int]),
    {
        let rec = &self.polls[p];
        let n_options = rec.votes.len();
        let mut raw: Vec<Vec<usize>> = Vec::new();
        for o in 0..n_options
            invariant
                n_options == rec.votes@.len(),
                raw@.len() == o,
                forall|j: int|
                    0 <= j < o ==> (#[trigger] raw@[j])@ == raw_judgments(rec.votes@[j]@),
        {
            let row_len = rec.votes[o].len();
            let mut vals: Vec<usize> = Vec::new();
            for t in 0..row_len
                invariant
                    n_options == rec.votes@.len(),
                    o < n_options,
                    row_len == rec.votes@[o as int]@.len(),
                    vals@.len() == t,
                    forall|m: int|
                        0 <= m < t ==> (#[trigger] vals@[m]) == rec.votes@[o as int]@[m].1,
            {
                vals.push(rec.votes[o][t].1);
            }
            proof {
                assert(vals@ =~= raw_judgments(rec.votes@[o as int]@));
            }
            raw.push(vals);
        }
        proof {
            assert(deep(raw@) =~= record_raw(self.polls@[p as int]));
        }
        let normalized = normalize(&raw, rec.default_vote);
        proof {
            assert(deep(normalized@).len() == norm_spec(
                record_raw(self.polls@[p as int]),
                rec.default_vote,
            ).len());
        }
        let ranking = compute_ranking(&normalized);
        Poll {
            desc: rec.desc.clone(),
            author: rec.author,
            options: rec.options.clone(),
            votes: normalized,
            ranking,
            default_vote: rec.default_vote,
            is_open: rec.is_open,
        }
    }

    /// Creates an open poll with the given options and no votes yet, and
    /// returns its initial view. A second poll under an identifier already
    /// stored is rejected with `DuplicatePoll`, leaving the store unchanged.
    pub fn add_poll(
        &mut self,
        poll_uuid: u64,
        author_uuid: u64,
        desc: String,
        options: Vec<String>,
        default_vote: DefaultVote,
    ) -> (r: Result<Poll, PollError>)
        requires
            old(self).wf(),
            options@.len() > 0,
        ensures
            final(self).wf(),
            old(self).has_poll(poll_uuid) ==> r == Err::<Poll, PollError>(PollError::DuplicatePoll)
                && *final(self) == *old(self),
            !old(self).has_poll(poll_uuid) ==> {
                &&& final(self).polls@.len() == old(self).polls@.len() + 1
                &&& final(self).polls@.subrange(0, old(self).polls@.len() as int) == old(
                    self,
                ).polls@
                &&& final(self).polls@.last().uuid == poll_uuid
                &&& final(self).polls@.last().desc == desc
                &&& final(self).polls@.last().author == author_uuid
                &&& final(self).polls@.last().options@ == options@
                &&& final(self).polls@.last().default_vote == default_vote
                &&& final(self).polls@.last().is_open == true
                &&& record_raw(final(self).polls@.last()) =~~= Seq::new(
                    options@.len(),
                    |o: int| Seq::<usize>::empty(),
                )
                &&& r matches Ok(p) && poll_view_ok(p, final(self).polls@.last())
            },
    {
        match self.find(poll_uuid) {
            Some(_) => Err(PollError::DuplicatePoll),
            None => {
                let n_options = options.len();
                let mut votes: Vec<Vec<(u64, usize)>> = Vec::new();
                for o in 0..n_options
                    invariant
                        votes@.len() == o,
                        forall|j: int| 0 <= j < o ==> (#[trigger] votes@[j])@.len() == 0,
                {
                    votes.push(Vec::new());
                }
                let rec = PollRecord {
                    uuid: poll_uuid,
                    desc,
                    author: author_uuid,
                    default_vote,
                    is_open: true,
                    options,
                    votes,
                };
                self.polls.push(rec);
                let idx = self.polls.len() - 1;
                proof {
                    assert(self.polls@.last().wf());
                    assert(self.polls@.subrange(0, old(self).polls@.len() as int) =~= old(
                        self,
                    ).polls@);
                    assert(record_raw(self.polls@.last()) =~~= Seq::new(
                        self.polls@.last().options@.len(),
                        |o: int| Seq::<usize>::empty(),
                    ));
                }
                Ok(self.poll_view(idx))
            },
        }
    }

    /// Returns the freshly derived view of the stored poll, or
    /// `PollNotFound`.
    pub fn get_poll(&self, poll_uuid: u64) -> (r: Result<Poll, PollError>)
        requires
            self.wf(),
        ensures
            !self.has_poll(poll_uuid) ==> r == Err::<Poll, PollError>(PollError::PollNotFound),
            self.has_poll(poll_uuid) ==> (r matches Ok(p) && poll_view_ok(
                p,
                self.polls@[self.poll_at(poll_uuid)],
            )),
    {
        match self.find(poll_uuid) {
            None => Err(PollError::PollNotFound),
            Some(idx) => {
                proof {
                    self.lemma_poll_at_is(poll_uuid, idx as int);
                }
                Ok(self.poll_view(idx))
            },
        }
    }

    /// Records `value` as `user_uuid`'s current judgment on option
    /// `option_number` of the poll: the user's earlier judgment there, if
    /// any, is replaced, and the poll's fresh view is returned. A missing
    /// poll, a closed poll and an unknown option number are rejected with
    /// the matching error, leaving the store unchanged.
    pub fn vote(
        &mut self,
        poll_uuid: u64,
        option_number: usize,
        user_uuid: u64,
        value: usize,
    ) -> (r: Result<Poll, PollError>)
        requires
            old(self).wf(),
        ensures
            final(self).wf(),
            !old(self).has_poll(poll_uuid) ==> r == Err::<Poll, PollError>(PollError::PollNotFound)
                && *final(self) == *old(self),
            ({
                let before = old(self).polls@[old(self).poll_at(poll_uuid)];
                old(self).has_poll(poll_uuid) && !before.is_open ==> r == Err::<Poll, PollError>(
                    PollError::PollClosed,
                ) && *final(self) == *old(self)
            }),
            ({
                let before = old(self).polls@[old(self).poll_at(poll_uuid)];
                old(self).has_poll(poll_uuid) && before.is_open && option_number
                    >= before.options@.len() ==> r == Err::<Poll, PollError>(
                    PollError::NoSuchOption,
                ) && *final(self) == *old(self)
            }),
            ({
                let idx = old(self).poll_at(poll_uuid);
                let before = old(self).polls@[idx];
                let after = final(self).polls@[idx];
                old(self).has_poll(poll_uuid) && before.is_open && option_number
                    < before.options@.len() ==> {
                &&& final(self).polls@.len() == old(self).polls@.len()
                &&& forall|q: int|
                    0 <= q < old(self).polls@.len() && q != idx ==> final(self).polls@[q] == old(
                        self,
                    ).polls@[q]
                &&& after.uuid == before.uuid
                &&& after.desc == before.desc
                &&& after.author == before.author
                &&& after.default_vote == before.default_vote
                &&& after.is_open == before.is_open
                &&& after.options@ == before.options@
                &&& after.votes@.len() == before.votes@.len()
                &&& forall|o: int|
                    0 <= o < before.votes@.len() && o != option_number ==> (
                    #[trigger] after.votes@[o])@ == before.votes@[o]@
                &&& after.votes@[option_number as int]@ == upsert(
                    before.votes@[option_number as int]@,
                    user_uuid,
                    value,
                )
                &&& r matches Ok(p) && poll_view_ok(p, after)
                }
            }),
    {
        match self.find(poll_uuid) {
            None => Err(PollError::PollNotFound),
            Some(idx) => {
                proof {
                    self.lemma_poll_at_is(poll_uuid, idx as int);
                }
                if !self.polls[idx].is_open {
                    return Err(PollError::PollClosed);
                }
                if option_number >= self.polls[idx].options.len() {
                    return Err(PollError::NoSuchOption);
                }
                let mut rec = self.polls.remove(idx);
                let ghost before = rec;
                let mut row = rec.votes.remove(option_number);
                upsert_votes(&mut row, user_uuid, value);
                proof {
                    lemma_upsert_users_unique(before.votes@[option_number as int]@, user_uuid,
                        value);
                }
                rec.votes.insert(option_number, row);
                self.polls.insert(idx, rec);
                proof {
                    assert(rec.votes@ =~= before.votes@.update(option_number as int, row));
                    assert(self.polls@ =~= old(self).polls@.update(idx as int, rec));
                    assert(self.wf());
                }
                Ok(self.poll_view(idx))
            },
        }
    }

    /// Marks the poll closed, so that later votes are rejected, and returns
    /// its final view; a missing poll is rejected with `PollNotFound`.
    pub fn close_poll(&mut self, poll_uuid: u64) -> (r: Result<Poll, PollError>)
        requires
            old(self).wf(),
        ensures
            final(self).wf(),
            !old(self).has_poll(poll_uuid) ==> r == Err::<Poll, PollError>(PollError::PollNotFound)
                && *final(self) == *old(self),
            old(self).has_poll(poll_uuid) ==> {
                let idx = old(self).poll_at(poll_uuid);
                let before = old(self).polls@[idx];
                let after = final(self).polls@[idx];
                &&& final(self).polls@.len() == old(self).polls@.len()
                &&& forall|q: int|
                    0 <= q < old(self).polls@.len() && q != idx ==> final(self).polls@[q] == old(
                        self,
                    ).polls@[q]
                &&& after == PollRecord { is_open: false, ..before }
                &&& r matches Ok(p) && poll_view_ok(p, after)
            },
    {
        match self.find(poll_uuid) {
            None => Err(PollError::PollNotFound),
            Some(idx) => {
                proof {
                    self.lemma_poll_at_is(poll_uuid, idx as int);
                }
                let mut rec = self.polls.remove(idx);
                rec.is_open = false;
                self.polls.insert(idx, rec);
                proof {
                    assert(self.polls@ =~= old(self).polls@.update(idx as int, rec));
                    assert(self.wf());
                }
                Ok(self.poll_view(idx))
            },
        }
    }
}

proof fn lemma_upsert_at(vs: Seq<(u64, usize)>, u: u64, v: usize, p: int)
    requires
        0 <= p <= vs.len(),
        forall|m: int| 0 <= m < p ==> (#[trigger] vs[m]).0 != u,
        p < vs.len() ==> vs[p].0 == u,
    ensures
        upsert(vs, u, v) == if p < vs.len() {
            vs.update(p, (u, v))
        } else {
            vs.push((u, v))
        },
    decreases vs.len(),
{
    if vs.len() == 0 {
        assert(upsert(vs, u, v) =~= vs.push((u, v)));
    } else if p == 0 {
        assert(upsert(vs, u, v) =~= vs.update(0, (u, v)));
    } else {
        assert forall|m: int| 0 <= m < p - 1 implies (#[trigger] vs.drop_first()[m]).0 != u by {
            assert(vs.drop_first()[m] == vs[m + 1]);
        }
        if p - 1 < vs.drop_first().len() {
            assert(vs.drop_first()[p - 1] == vs[p]);
        }
        lemma_upsert_at(vs.drop_first(), u, v, p - 1);
        if p < vs.len() {
            assert(upsert(vs, u, v) =~= vs.update(p, (u, v)));
        } else {
            assert(upsert(vs, u, v) =~= vs.push((u, v)));
        }
    }
}

/// Replacing or appending a user's judgment keeps users unique.
proof fn lemma_upsert_users_unique(vs: Seq<(u64, usize)>, u: u64, v: usize)
    requires
        users_unique(vs),
    ensures
        users_unique(upsert(vs, u, v)),
        upsert(vs, u, v).len() == if (exists|m: int| 0 <= m < vs.len() && (#[trigger] vs[m]).0
            == u) {
            vs.len() as int
        } else {
            vs.len() + 1int
        },
    decreases vs.len(),
{
    if exists|m: int| 0 <= m < vs.len() && (#[trigger] vs[m]).0 == u {
        let m0 = choose|m: int| 0 <= m < vs.len() && (#[trigger] vs[m]).0 == u;
        assert forall|m: int| 0 <= m < m0 implies (#[trigger] vs[m]).0 != u by {}
        lemma_upsert_at(vs, u, v, m0);
        let out = vs.update(m0, (u, v));
        assert forall|a: int, b: int| 0 <= a < b < out.len() implies (#[trigger] out[a]).0 != (
        #[trigger] out[b]).0 by {
            assert(out[a].0 == if a == m0 {
                u
            } else {
                vs[a].0
            });
            assert(out[b].0 == if b == m0 {
                u
            } else {
                vs[b].0
            });
        }
    } else {
        lemma_upsert_at(vs, u, v, vs.len() as int);
        let out = vs.push((u, v));
        assert forall|a: int, b: int| 0 <= a < b < out.len() implies (#[trigger] out[a]).0 != (
        #[trigger] out[b]).0 by {
            if b == vs.len() {
                assert(out[a].0 == vs[a].0);
                assert(vs[a].0 != u);
            }
        }
    }
}

/// Records user `u`'s judgment `v` in one option's vote list, replacing the
/// user's earlier judgment if there is one.
fn upsert_votes(vs: &mut Vec<(u64, usize)>, u: u64, v: usize)
    ensures
        final(vs)@ == upsert(old(vs)@, u, v),
{
    let ghost orig = vs@;
    let mut p: usize = 0;
    loop
        invariant
            p <= vs@.len(),
            vs@ == orig,
            forall|m: int| 0 <= m < p ==> (#[trigger] vs@[m]).0 != u,
        ensures
            p <= vs@.len(),
            vs@ == orig,
            forall|m: int| 0 <= m < p ==> (#[trigger] vs@[m]).0 != u,
            p < vs@.len() ==> vs@[p as int].0 == u,
        decreases vs@.len() - p,
    {
        if p == vs.len() {
            break ;
        }
        if vs[p].0 == u {
            break ;
        }
        p += 1;
    }
    proof {
        lemma_upsert_at(orig, u, v, p as int);
    }
    if p < vs.len() {
        vs.set(p, (u, v));
    } else {
        vs.push((u, v));
    }
}

} // verus!
