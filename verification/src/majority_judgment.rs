use crate::poll::DefaultVote;
use crate::votes::MJVotes;
use crate::votes::{
    ladder, lemma_lex_equal_iff, lemma_lex_from_flip, lemma_lex_pointwise_gt, lemma_lex_trans,
    lemma_vote_cmp_is_lex, lex_cmp, nth_median_of, vote_cmp_spec,
};
use core::cmp::Ordering;
use vstd::prelude::*;
use vstd::relations::{sorted_by, total_ordering};
use vstd::seq_lib::lemma_sorted_unique;
use vstd::set_lib::lemma_len_subset;

verus! {

broadcast use
    vstd::seq_lib::group_to_multiset_ensures,
    vstd::multiset::group_multiset_axioms,
    vstd::set::group_set_axioms,
    vstd::seq_lib::seq_to_set_is_finite,
;

/// The ascending order on judgment values.
pub open spec fn judgment_leq() -> spec_fn(usize, usize) -> bool {
    |x: usize, y: usize| x <= y
}

/// A judgment sequence sorted ascending.
pub open spec fn sorted_asc(s: Seq<usize>) -> bool {
    sorted_by(s, judgment_leq())
}

/// The ascending sort of a judgment sequence.
pub open spec fn sort_spec(s: Seq<usize>) -> Seq<usize> {
    s.sort_by(judgment_leq())
}

/// The judgment lists of all options, as mathematical sequences.
pub open spec fn deep(s: Seq<Vec<usize>>) -> Seq<Seq<usize>> {
    s.map_values(|v: Vec<usize>| v@)
}

proof fn lemma_judgment_leq_total()
    ensures
        total_ordering(judgment_leq()),
{
    assert forall|x: usize| #[trigger] judgment_leq()(x, x) by {}
    assert forall|x: usize, y: usize|
        #[trigger] judgment_leq()(x, y) && #[trigger] judgment_leq()(y, x) implies x == y by {}
    assert forall|x: usize, y: usize, z: usize|
        #[trigger] judgment_leq()(x, y) && #[trigger] judgment_leq()(y, z) implies judgment_leq()(
        x,
        z,
    ) by {}
    assert forall|x: usize, y: usize| #[trigger]
        judgment_leq()(x, y) || #[trigger] judgment_leq()(y, x) by {}
}

pub proof fn lemma_sort_spec_ensures(s: Seq<usize>)
    ensures
        sort_spec(s).to_multiset() == s.to_multiset(),
        sorted_asc(sort_spec(s)),
        sort_spec(s).len() == s.len(),
{
    lemma_judgment_leq_total();
    s.lemma_sort_by_ensures(judgment_leq());
    assert(sort_spec(s).to_multiset() =~= s.to_multiset());
    assert(sort_spec(s).to_multiset().len() == sort_spec(s).len());
    assert(s.to_multiset().len() == s.len());
}

/// A sorted sequence is its own sort.
pub proof fn lemma_sort_spec_fixes_sorted(s: Seq<usize>)
    requires
        sorted_asc(s),
    ensures
        sort_spec(s) == s,
{
    lemma_judgment_leq_total();
    lemma_sort_spec_ensures(s);
    lemma_sorted_unique(sort_spec(s), s, judgment_leq());
}

/// Sorts one option's judgments ascending, by insertion into a sorted list.
fn sort_judgments(v: &Vec<usize>) -> (r: Vec<usize>)
    ensures
        r@ == sort_spec(v@),
{
    let mut out: Vec<usize> = Vec::new();
    for k in 0..v.len()
        invariant
            out@.to_multiset() == v@.subrange(0, k as int).to_multiset(),
            sorted_asc(out@),
    {
        let x = v[k];
        let ghost prev = out@;
        let mut p: usize = 0;
        loop
            invariant
                p <= out@.len(),
                out@ == prev,
                forall|m: int| 0 <= m < p ==> out@[m] <= x,
            ensures
                p <= out@.len(),
                out@ == prev,
                forall|m: int| 0 <= m < p ==> out@[m] <= x,
                p < out@.len() ==> out@[p as int] > x,
            decreases out@.len() - p,
        {
            if p == out.len() {
                break ;
            }
            if out[p] > x {
                break ;
            }
            p += 1;
        }
        out.insert(p, x);
        proof {
            assert(out@ == prev.insert(p as int, x));
            assert forall|i: int, j: int| 0 <= i < j < out@.len() implies judgment_leq()(
                out@[i],
                out@[j],
            ) by {
                if j < p {
                } else if i < p && j == p {
                    assert(out@[i] == prev[i]);
                } else if i < p && j > p {
                    assert(out@[i] == prev[i] && out@[j] == prev[j - 1]);
                    assert(judgment_leq()(prev[i], prev[j - 1]));
                } else if i == p && j > p {
                    // prev[p] > x and prev is sorted from p on
                    assert(out@[j] == prev[j - 1]);
                    assert(p < prev.len());
                    if j - 1 > p {
                        assert(judgment_leq()(prev[p as int], prev[j - 1]));
                    }
                } else {
                    assert(out@[i] == prev[i - 1] && out@[j] == prev[j - 1]);
                    assert(judgment_leq()(prev[i - 1], prev[j - 1]));
                }
            }
            assert(v@.subrange(0, k + 1) =~= v@.subrange(0, k as int).push(x));
            assert(out@.to_multiset() =~= v@.subrange(0, k + 1).to_multiset());
        }
    }
    proof {
        assert(v@.subrange(0, v@.len() as int) =~= v@);
        lemma_judgment_leq_total();
        lemma_sort_spec_ensures(v@);
        lemma_sorted_unique(out@, sort_spec(v@), judgment_leq());
    }
    out
}

/// The largest number of judgments any option received.
pub open spec fn max_len(s: Seq<Seq<usize>>) -> int
    decreases s.len(),
{
    if s.len() == 0 {
        0
    } else {
        let m = max_len(s.drop_last());
        if s.last().len() > m {
            s.last().len() as int
        } else {
            m
        }
    }
}

pub proof fn lemma_max_len_ge(s: Seq<Seq<usize>>, i: int)
    requires
        0 <= i < s.len(),
    ensures
        s[i].len() <= max_len(s),
    decreases s.len(),
{
    if i < s.len() - 1 {
        lemma_max_len_ge(s.drop_last(), i);
    }
}

/// When every option has exactly `m` judgments, `m` is the maximum.
pub proof fn lemma_max_len_all_equal(s: Seq<Seq<usize>>, m: int)
    requires
        s.len() > 0,
        forall|i: int| 0 <= i < s.len() ==> #[trigger] s[i].len() == m,
    ensures
        max_len(s) == m,
    decreases s.len(),
{
    assert(s[s.len() - 1].len() == m);
    if s.len() == 1 {
        assert(s.drop_last().len() == 0);
        assert(max_len(s.drop_last()) == 0);
    }
    if s.len() > 1 {
        assert forall|i: int| 0 <= i < s.drop_last().len() implies #[trigger] s.drop_last()[i].len()
            == m by {
            assert(s.drop_last()[i] == s[i]);
        }
        lemma_max_len_all_equal(s.drop_last(), m);
    }
}

/// `count` sentinel judgments followed by `s`.
pub open spec fn padded(s: Seq<usize>, count: int) -> Seq<usize> {
    Seq::new(count as nat, |i: int| 0usize) + s
}

/// Every option's judgment list front-padded with the sentinel 0 up to the
/// longest list's length.
pub open spec fn fill_spec(s: Seq<Seq<usize>>) -> Seq<Seq<usize>> {
    s.map_values(|v: Seq<usize>| padded(v, max_len(s) - v.len()))
}

/// Front-padding with zeros keeps a sequence sorted.
pub proof fn lemma_padded_sorted(s: Seq<usize>, count: int)
    requires
        sorted_asc(s),
        count >= 0,
    ensures
        sorted_asc(padded(s, count)),
{
    assert forall|i: int, j: int| 0 <= i < j < padded(s, count).len() implies judgment_leq()(
        padded(s, count)[i],
        padded(s, count)[j],
    ) by {
        if i >= count {
            assert(judgment_leq()(s[i - count], s[j - count]));
        }
    }
}

fn filled_copy(votes: &Vec<Vec<usize>>) -> (r: Vec<Vec<usize>>)
    ensures
        deep(r@) == fill_spec(deep(votes@)),
{
    let n = votes.len();
    let mut participants: usize = 0;
    for k in 0..n
        invariant
            n == votes@.len(),
            participants == max_len(deep(votes@).subrange(0, k as int)),
    {
        proof {
            assert(deep(votes@).subrange(0, k + 1).drop_last() =~= deep(votes@).subrange(
                0,
                k as int,
            ));
            assert(deep(votes@).subrange(0, k + 1).last() == votes@[k as int]@);
        }
        if votes[k].len() > participants {
            participants = votes[k].len();
        }
    }
    proof {
        assert(deep(votes@).subrange(0, n as int) =~= deep(votes@));
    }
    let mut result: Vec<Vec<usize>> = Vec::new();
    for k in 0..n
        invariant
            n == votes@.len(),
            participants == max_len(deep(votes@)),
            result@.len() == k,
            forall|j: int|
                0 <= j < k ==> #[trigger] result@[j]@ == padded(
                    votes@[j]@,
                    participants - votes@[j]@.len(),
                ),
    {
        let len_k = votes[k].len();
        proof {
            lemma_max_len_ge(deep(votes@), k as int);
        }
        let deficit = participants - len_k;
        let mut row: Vec<usize> = Vec::new();
        for t in 0..deficit
            invariant
                row@.len() == t,
                forall|i: int| 0 <= i < t ==> #[trigger] row@[i] == 0usize,
        {
            row.push(0);
        }
        for t in 0..len_k
            invariant
                len_k == votes@[k as int]@.len(),
                k < votes@.len(),
                row@.len() == deficit + t,
                forall|i: int| 0 <= i < deficit ==> #[trigger] row@[i] == 0usize,
                forall|i: int|
                    0 <= i < t ==> #[trigger] row@[deficit + i] == votes@[k as int]@[i],
        {
            row.push(votes[k][t]);
        }
        proof {
            assert forall|i: int| 0 <= i < row@.len() implies row@[i] == padded(
                votes@[k as int]@,
                deficit as int,
            )[i] by {
                if i >= deficit {
                    assert(row@[deficit + (i - deficit)] == votes@[k as int]@[i - deficit]);
                }
            }
            assert(row@ =~= padded(votes@[k as int]@, deficit as int));
        }
        result.push(row);
    }
    proof {
        assert(deep(result@) =~= fill_spec(deep(votes@)));
    }
    result
}

/// Reconciles unequal participation under the `REJECT` policy: every option
/// whose judgment list is shorter than the longest one is front-padded with
/// sentinel zeros, so that every non-voter counts as a full rejection.
pub fn fill_out_votes(options_votes: &mut Vec<Vec<usize>>)
    ensures
        deep(final(options_votes)@) == fill_spec(deep(old(options_votes)@)),
{
    let filled = filled_copy(&*options_votes);
    *options_votes = filled;
}

/// Sorts each option's judgments ascending and, under `REJECT`, pads all
/// options with leading sentinel zeros to the longest option's length.
pub open spec fn norm_spec(s: Seq<Seq<usize>>, policy: DefaultVote) -> Seq<Seq<usize>> {
    let sorted = s.map_values(|v: Seq<usize>| sort_spec(v));
    if policy == DefaultVote::REJECT {
        fill_spec(sorted)
    } else {
        sorted
    }
}

/// Normalizes raw per-option judgment lists under the given default-vote
/// policy: each list is sorted ascending, and under `REJECT` all lists are
/// equalized in length by front-padding with the sentinel judgment 0.
pub fn normalize(votes: &Vec<Vec<usize>>, policy: DefaultVote) -> (r: Vec<Vec<usize>>)
    ensures
        deep(r@) == norm_spec(deep(votes@), policy),
{
    let n = votes.len();
    let mut sorted: Vec<Vec<usize>> = Vec::new();
    for k in 0..n
        invariant
            n == votes@.len(),
            sorted@.len() == k,
            forall|j: int| 0 <= j < k ==> #[trigger] sorted@[j]@ == sort_spec(votes@[j]@),
    {
        sorted.push(sort_judgments(&votes[k]));
    }
    proof {
        assert(deep(sorted@) =~= deep(votes@).map_values(|v: Seq<usize>| sort_spec(v)));
    }
    match policy {
        DefaultVote::REJECT => {
            fill_out_votes(&mut sorted);
        },
        DefaultVote::IGNORE => {},
    }
    sorted
}

/// The option indices `0..k`, in original order.
pub open spec fn idseq(k: int) -> Seq<usize> {
    Seq::new(k as nat, |i: int| i as usize)
}

/// Stable insertion of option `x` into the descending index list `s`: `x`
/// goes in front of the first option it beats, so among equally rated
/// options the one with the lower original index stays first.
pub open spec fn insert_desc(votes: Seq<Seq<usize>>, x: usize, s: Seq<usize>) -> Seq<usize>
    decreases s.len(),
{
    if s.len() == 0 {
        seq![x]
    } else if vote_cmp_spec(votes[x as int], votes[s[0] as int]) == Ordering::Greater {
        seq![x] + s
    } else {
        seq![s[0]] + insert_desc(votes, x, s.drop_first())
    }
}

/// The first `k` options, stably sorted best first.
pub open spec fn sort_desc_upto(votes: Seq<Seq<usize>>, k: int) -> Seq<usize>
    decreases k,
{
    if k <= 0 {
        Seq::empty()
    } else {
        insert_desc(votes, (k - 1) as usize, sort_desc_upto(votes, k - 1))
    }
}

/// All option indices, stably sorted best first by the iterated-median
/// comparison.
pub open spec fn sort_desc(votes: Seq<Seq<usize>>) -> Seq<usize> {
    sort_desc_upto(votes, votes.len() as int)
}

/// The dense rank of the option at position `k` of the ranking order: the
/// first option has rank 1, and each later one repeats its predecessor's
/// rank when they compare `Equal` and adds exactly 1 otherwise.
pub open spec fn rank_at(votes: Seq<Seq<usize>>, k: int) -> int
    decreases k,
{
    if k <= 0 {
        1
    } else {
        let s = sort_desc(votes);
        rank_at(votes, k - 1) + if vote_cmp_spec(votes[s[k] as int], votes[s[k - 1] as int])
            == Ordering::Equal {
            0int
        } else {
            1int
        }
    }
}

/// The position of option `i` in the ranking order.
pub open spec fn sorted_pos(votes: Seq<Seq<usize>>, i: int) -> int {
    choose|k: int| 0 <= k < sort_desc(votes).len() && sort_desc(votes)[k] as int == i
}

/// The dense rank of option `i`, 1 being the best.
pub open spec fn option_rank(votes: Seq<Seq<usize>>, i: int) -> int {
    rank_at(votes, sorted_pos(votes, i))
}

proof fn lemma_insert_desc_multiset(votes: Seq<Seq<usize>>, x: usize, s: Seq<usize>)
    ensures
        insert_desc(votes, x, s).to_multiset() == s.to_multiset().insert(x),
        insert_desc(votes, x, s).len() == s.len() + 1,
    decreases s.len(),
{
    if s.len() == 0 {
        assert(insert_desc(votes, x, s) =~= s.insert(0, x));
    } else if vote_cmp_spec(votes[x as int], votes[s[0] as int]) == Ordering::Greater {
        assert(insert_desc(votes, x, s) =~= s.insert(0, x));
    } else {
        lemma_insert_desc_multiset(votes, x, s.drop_first());
        let tail = insert_desc(votes, x, s.drop_first());
        assert(insert_desc(votes, x, s) =~= tail.insert(0, s[0]));
        assert(s =~= s.drop_first().insert(0, s[0]));
        assert(insert_desc(votes, x, s).to_multiset() =~= s.to_multiset().insert(x));
    }
}

/// The ranking order is a permutation of the option indices.
pub proof fn lemma_sort_desc_upto_perm(votes: Seq<Seq<usize>>, k: int)
    requires
        0 <= k <= usize::MAX,
    ensures
        sort_desc_upto(votes, k).to_multiset() == idseq(k).to_multiset(),
        sort_desc_upto(votes, k).len() == k,
        forall|m: int| 0 <= m < k ==> (#[trigger] sort_desc_upto(votes, k)[m]) < k,
        forall|x: usize|
            #[trigger] sort_desc_upto(votes, k).contains(x) <==> (x as int) < k,
        sort_desc_upto(votes, k).no_duplicates(),
    decreases k,
{
    let s = sort_desc_upto(votes, k);
    if k == 0 {
        assert(s.to_multiset() =~= idseq(0).to_multiset());
    } else {
        lemma_sort_desc_upto_perm(votes, k - 1);
        lemma_insert_desc_multiset(votes, (k - 1) as usize, sort_desc_upto(votes, k - 1));
        assert(idseq(k) =~= idseq(k - 1).push((k - 1) as usize));
        assert(s.to_multiset() =~= idseq(k).to_multiset());
    }
    assert forall|i: int, j: int| 0 <= i < j < k implies idseq(k)[i] != idseq(k)[j] by {
        assert(idseq(k)[i] == i as usize && idseq(k)[j] == j as usize);
    }
    assert(idseq(k).no_duplicates());
    idseq(k).lemma_multiset_has_no_duplicates();
    assert forall|x: usize| s.to_multiset().contains(x) implies idseq(k).to_multiset().contains(
        x,
    ) by {}
    s.lemma_multiset_has_no_duplicates_conv();
    assert forall|m: int| 0 <= m < k implies (#[trigger] s[m]) < k by {
        assert(s.contains(s[m]));
        assert(s.to_multiset().contains(s[m]));
        assert(idseq(k).to_multiset().contains(s[m]));
        assert(idseq(k).contains(s[m]));
        let w = choose|w: int| 0 <= w < k && idseq(k)[w] == s[m];
        assert(idseq(k)[w] == w as usize);
    }
    assert forall|x: usize| #[trigger] s.contains(x) <==> (x as int) < k by {
        if s.contains(x) {
            assert(s.to_multiset().contains(x));
            assert(idseq(k).to_multiset().contains(x));
            assert(idseq(k).contains(x));
            let w = choose|w: int| 0 <= w < k && idseq(k)[w] == x;
            assert(idseq(k)[w] == w as usize);
        }
        if (x as int) < k {
            assert(idseq(k)[x as int] == x);
            assert(idseq(k).contains(x));
            assert(idseq(k).to_multiset().contains(x));
            assert(s.to_multiset().contains(x));
        }
    }
}

/// `insert_desc` puts `x` exactly at the first position whose option `x`
/// beats.
proof fn lemma_insert_desc_at(votes: Seq<Seq<usize>>, x: usize, s: Seq<usize>, p: int)
    requires
        0 <= p <= s.len(),
        forall|m: int|
            0 <= m < p ==> vote_cmp_spec(votes[x as int], votes[(#[trigger] s[m]) as int])
                != Ordering::Greater,
        p < s.len() ==> vote_cmp_spec(votes[x as int], votes[s[p] as int]) == Ordering::Greater,
    ensures
        insert_desc(votes, x, s) == s.insert(p, x),
    decreases s.len(),
{
    if s.len() == 0 {
        assert(insert_desc(votes, x, s) =~= s.insert(0, x));
    } else if p == 0 {
        assert(insert_desc(votes, x, s) =~= s.insert(0, x));
    } else {
        assert(vote_cmp_spec(votes[x as int], votes[s[0] as int]) != Ordering::Greater);
        assert forall|m: int|
            0 <= m < p - 1 implies vote_cmp_spec(
            votes[x as int],
            votes[(#[trigger] s.drop_first()[m]) as int],
        ) != Ordering::Greater by {
            assert(s.drop_first()[m] == s[m + 1]);
        }
        if p - 1 < s.drop_first().len() {
            assert(s.drop_first()[p - 1] == s[p]);
        }
        lemma_insert_desc_at(votes, x, s.drop_first(), p - 1);
        assert(insert_desc(votes, x, s) =~= s.insert(p, x));
    }
}

/// Computes each option's dense rank, 1 the best. Options are ordered by
/// the iterated-median comparison, best first and original order among
/// equals; the first option gets rank 1, and each later option repeats its
/// predecessor's rank when the two compare `Equal` and adds exactly 1
/// otherwise. The result is indexed by original option position.
pub fn compute_ranking(votes: &Vec<Vec<usize>>) -> (res: Vec<usize>)
    requires
        votes@.len() >= 1,
    ensures
        res@.len() == votes@.len(),
        forall|i: int| 0 <= i < votes@.len() ==> (#[trigger] res@[i]) as int == option_rank(
            deep(votes@),
            i,
        ),
{
    let ghost dv = deep(votes@);
    proof {
        assert forall|i: int| 0 <= i < votes@.len() implies #[trigger] dv[i] == votes@[i]@ by {}
    }
    let n = votes.len();
    let mut order: Vec<usize> = Vec::new();
    for i in 0..n
        invariant
            n == votes@.len(),
            dv == deep(votes@),
            order@ == sort_desc_upto(dv, i as int),
            order@.len() == i,
            forall|m: int| 0 <= m < i ==> (#[trigger] order@[m]) < i,
    {
        let ghost prev = order@;
        let mut p: usize = 0;
        loop
            invariant
                p <= order@.len(),
                order@ == prev,
                order@.len() == i < n,
                n == votes@.len(),
                dv == deep(votes@),
                forall|m: int| 0 <= m < i ==> (#[trigger] order@[m]) < i,
                forall|m: int|
                    0 <= m < p ==> vote_cmp_spec(
                        dv[i as int],
                        dv[(#[trigger] order@[m]) as int],
                    ) != Ordering::Greater,
            ensures
                p <= order@.len(),
                order@ == prev,
                forall|m: int|
                    0 <= m < p ==> vote_cmp_spec(
                        dv[i as int],
                        dv[(#[trigger] order@[m]) as int],
                    ) != Ordering::Greater,
                p < order@.len() ==> vote_cmp_spec(dv[i as int], dv[order@[p as int] as int])
                    == Ordering::Greater,
            decreases order@.len() - p,
        {
            if p == order.len() {
                break ;
            }
            let c = votes[i].vote_cmp(&votes[order[p]]);
            proof {
                assert(dv[i as int] == votes@[i as int]@);
                assert(dv[order@[p as int] as int] == votes@[order@[p as int] as int]@);
            }
            match c {
                Ordering::Greater => { break ; },
                _ => {},
            }
            p += 1;
        }
        proof {
            lemma_insert_desc_at(dv, i as usize, prev, p as int);
        }
        order.insert(p, i);
        proof {
            assert(order@ == prev.insert(p as int, i as usize));
            lemma_sort_desc_upto_perm(dv, i + 1);
        }
    }
    proof {
        lemma_sort_desc_upto_perm(dv, n as int);
        assert(order@ == sort_desc(dv));
    }
    let mut res: Vec<usize> = Vec::new();
    for t in 0..n
        invariant
            res@.len() == t,
    {
        res.push(0);
    }
    let first = order[0];
    res.set(first, 1);
    let mut rank: usize = 1;
    for k in 1..n
        invariant
            n == votes@.len(),
            dv == deep(votes@),
            order@ == sort_desc(dv),
            order@.len() == n,
            order@.no_duplicates(),
            forall|m: int| 0 <= m < n ==> (#[trigger] order@[m]) < n,
            res@.len() == n,
            1 <= k <= n,
            1 <= rank <= k,
            rank as int == rank_at(dv, k - 1),
            forall|m: int| 0 <= m < k ==> (#[trigger] res@[order@[m] as int]) as int == rank_at(
                dv,
                m,
            ),
    {
        let c = votes[order[k]].vote_cmp(&votes[order[k - 1]]);
        proof {
            assert(dv[order@[k as int] as int] == votes@[order@[k as int] as int]@);
            assert(dv[order@[k - 1] as int] == votes@[order@[k - 1] as int]@);
        }
        let equal = match c {
            Ordering::Equal => true,
            _ => false,
        };
        if !equal {
            rank += 1;
        }
        let ghost before = res@;
        let target = order[k];
        res.set(target, rank);
        proof {
            assert forall|m: int| 0 <= m < k + 1 implies (#[trigger] res@[order@[m] as int]) as int
                == rank_at(dv, m) by {
                if m < k {
                    assert(order@[m] != order@[k as int]);
                    assert(res@[order@[m] as int] == before[order@[m] as int]);
                }
            }
        }
    }
    proof {
        assert forall|i: int| 0 <= i < votes@.len() implies (#[trigger] res@[i]) as int
            == option_rank(dv, i) by {
            assert(sort_desc(dv).contains(i as usize));
            let m = choose|m: int| 0 <= m < sort_desc(dv).len() && sort_desc(dv)[m] == i as usize;
            assert(sort_desc(dv)[m] as int == i);
            assert(0 <= sorted_pos(dv, i) < n && sort_desc(dv)[sorted_pos(dv, i)] as int == i);
            assert(res@[i] as int == rank_at(dv, sorted_pos(dv, i)));
        }
    }
    res
}

/// Every option got judgments from equally many participants, as `REJECT`
/// normalization guarantees.
pub open spec fn equal_lengths(votes: Seq<Seq<usize>>) -> bool {
    forall|i: int, j: int|
        0 <= i < votes.len() && 0 <= j < votes.len() ==> (#[trigger] votes[i]).len() == (
        #[trigger] votes[j]).len()
}

/// The distinct median ladders among the options.
pub open spec fn ladder_set(votes: Seq<Seq<usize>>) -> Set<Seq<usize>> {
    votes.map_values(|v: Seq<usize>| ladder(v)).to_set()
}

/// The distinct ladders of options rated strictly better than `v`.
pub open spec fn better_ladders(votes: Seq<Seq<usize>>, v: Seq<usize>) -> Set<Seq<usize>> {
    ladder_set(votes).filter(|l: Seq<usize>| lex_cmp(l, ladder(v)) == Ordering::Greater)
}

proof fn lemma_better_ladders_finite(votes: Seq<Seq<usize>>, v: Seq<usize>)
    ensures
        better_ladders(votes, v).finite(),
        better_ladders(votes, v).subset_of(ladder_set(votes)),
        ladder_set(votes).finite(),
{
    let m = votes.map_values(|w: Seq<usize>| ladder(w));
    assert(m.to_set().finite());
    ladder_set(votes).lemma_len_filter(|l: Seq<usize>| lex_cmp(l, ladder(v)) == Ordering::Greater);
}

/// Every entry of `s` is an option index below `n`.
pub open spec fn entries_below(s: Seq<usize>, n: int) -> bool {
    forall|m: int| 0 <= m < s.len() ==> (#[trigger] s[m]) < n
}

/// Earlier positions of an index list never hold a worse-rated option.
pub open spec fn desc_sorted(votes: Seq<Seq<usize>>, s: Seq<usize>) -> bool {
    forall|p: int, q: int|
        0 <= p < q < s.len() ==> lex_cmp(
            ladder(votes[(#[trigger] s[p]) as int]),
            ladder(votes[(#[trigger] s[q]) as int]),
        ) != Ordering::Less
}

proof fn lemma_insert_desc_sorted(votes: Seq<Seq<usize>>, x: usize, s: Seq<usize>)
    requires
        equal_lengths(votes),
        (x as int) < votes.len(),
        entries_below(s, votes.len() as int),
        desc_sorted(votes, s),
    ensures
        desc_sorted(votes, insert_desc(votes, x, s)),
    decreases s.len(),
{
    let lx = ladder(votes[x as int]);
    let out = insert_desc(votes, x, s);
    if s.len() == 0 {
    } else {
        let l0 = ladder(votes[s[0] as int]);
        lemma_vote_cmp_is_lex(votes[x as int], votes[s[0] as int]);
        if vote_cmp_spec(votes[x as int], votes[s[0] as int]) == Ordering::Greater {
            // x leads; it beats the old head and, through it, every later entry
            assert(out =~= seq![x] + s);
            assert forall|p: int, q: int| 0 <= p < q < out.len() implies lex_cmp(
                ladder(votes[(#[trigger] out[p]) as int]),
                ladder(votes[(#[trigger] out[q]) as int]),
            ) != Ordering::Less by {
                if p == 0 {
                    assert(out[0] == x);
                    assert(out[q] == s[q - 1]);
                    if q - 1 > 0 {
                        let lq = ladder(votes[s[q - 1] as int]);
                        assert(lex_cmp(l0, lq) != Ordering::Less);
                        lemma_lex_trans(lx, l0, lq);
                    }
                } else {
                    assert(out[p] == s[p - 1] && out[q] == s[q - 1]);
                }
            }
        } else {
            lemma_lex_from_flip(lx, l0, 0);
            assert(lex_cmp(l0, lx) != Ordering::Less);
            let rest = s.drop_first();
            assert forall|m: int| 0 <= m < rest.len() implies (#[trigger] rest[m])
                < votes.len() by {
                assert(rest[m] == s[m + 1]);
            }
            assert forall|p: int, q: int| 0 <= p < q < rest.len() implies lex_cmp(
                ladder(votes[(#[trigger] rest[p]) as int]),
                ladder(votes[(#[trigger] rest[q]) as int]),
            ) != Ordering::Less by {
                assert(rest[p] == s[p + 1] && rest[q] == s[q + 1]);
            }
            lemma_insert_desc_sorted(votes, x, rest);
            let tail = insert_desc(votes, x, rest);
            lemma_insert_desc_multiset(votes, x, rest);
            assert(out =~= seq![s[0]] + tail);
            assert forall|p: int, q: int| 0 <= p < q < out.len() implies lex_cmp(
                ladder(votes[(#[trigger] out[p]) as int]),
                ladder(votes[(#[trigger] out[q]) as int]),
            ) != Ordering::Less by {
                if p == 0 {
                    let e = tail[q - 1];
                    assert(out[q] == e);
                    assert(tail.contains(e));
                    assert(tail.to_multiset().contains(e));
                    if e == x {
                        assert(lex_cmp(l0, lx) != Ordering::Less);
                    } else {
                        assert(rest.to_multiset().contains(e));
                        assert(rest.contains(e));
                        let w = choose|w: int| 0 <= w < rest.len() && rest[w] == e;
                        assert(rest[w] == s[w + 1]);
                        assert(lex_cmp(l0, ladder(votes[s[w + 1] as int])) != Ordering::Less);
                    }
                } else {
                    assert(out[p] == tail[p - 1] && out[q] == tail[q - 1]);
                }
            }
        }
    }
}

/// Earlier positions of the ranking order never hold a worse-rated option.
pub proof fn lemma_sort_desc_sorted(votes: Seq<Seq<usize>>)
    requires
        equal_lengths(votes),
        votes.len() <= usize::MAX,
    ensures
        desc_sorted(votes, sort_desc(votes)),
{
    lemma_sort_desc_upto_sorted(votes, votes.len() as int);
}

proof fn lemma_sort_desc_upto_sorted(votes: Seq<Seq<usize>>, k: int)
    requires
        equal_lengths(votes),
        0 <= k <= votes.len() <= usize::MAX,
    ensures
        desc_sorted(votes, sort_desc_upto(votes, k)),
    decreases k,
{
    if k > 0 {
        lemma_sort_desc_upto_sorted(votes, k - 1);
        lemma_sort_desc_upto_perm(votes, k - 1);
        assert(entries_below(sort_desc_upto(votes, k - 1), votes.len() as int));
        lemma_insert_desc_sorted(votes, (k - 1) as usize, sort_desc_upto(votes, k - 1));
    }
}

/// Under equal participation, the dense rank at position `k` of the ranking
/// order is exactly one more than the number of distinct median ladders
/// rated strictly better than the option standing there.
pub proof fn lemma_rank_at_is_better_count(votes: Seq<Seq<usize>>, k: int)
    requires
        equal_lengths(votes),
        votes.len() <= usize::MAX,
        0 <= k < votes.len(),
    ensures
        rank_at(votes, k) == 1 + better_ladders(votes, votes[sort_desc(votes)[k] as int]).len(),
    decreases k,
{
    let s = sort_desc(votes);
    let n = votes.len() as int;
    lemma_sort_desc_upto_perm(votes, n);
    lemma_sort_desc_sorted(votes);
    let cur = votes[s[k] as int];
    let lcur = ladder(cur);
    let bk = better_ladders(votes, cur);
    lemma_better_ladders_finite(votes, cur);
    let m = votes.map_values(|w: Seq<usize>| ladder(w));
    if k == 0 {
        assert forall|l: Seq<usize>| !(#[trigger] bk.contains(l)) by {
            if bk.contains(l) {
                assert(ladder_set(votes).contains(l));
                assert(m.contains(l));
                let j = choose|j: int| 0 <= j < m.len() && m[j] == l;
                assert(l == ladder(votes[j]));
                assert(s.contains(j as usize));
                let q = choose|q: int| 0 <= q < s.len() && s[q] == j as usize;
                if q == 0 {
                    lemma_lex_equal_iff(l, lcur);
                    assert(lex_cmp(l, lcur) == Ordering::Equal);
                } else {
                    assert(lex_cmp(ladder(votes[s[0] as int]), ladder(votes[s[q] as int]))
                        != Ordering::Less);
                    lemma_lex_from_flip(ladder(votes[s[q] as int]), lcur, 0);
                }
                assert(false);
            }
        }
        assert(bk =~= Set::<Seq<usize>>::empty());
        assert(bk.len() == 0);
    } else {
        lemma_rank_at_is_better_count(votes, k - 1);
        let prev = votes[s[k - 1] as int];
        let lprev = ladder(prev);
        let bprev = better_ladders(votes, prev);
        lemma_better_ladders_finite(votes, prev);
        lemma_vote_cmp_is_lex(cur, prev);
        if vote_cmp_spec(cur, prev) == Ordering::Equal {
            lemma_lex_equal_iff(lcur, lprev);
            assert(lcur == lprev);
            assert(bk =~= bprev);
        } else {
            // the order is descending, so the predecessor is strictly better
            assert(lex_cmp(lprev, lcur) != Ordering::Less);
            if lex_cmp(lprev, lcur) == Ordering::Equal {
                lemma_lex_equal_iff(lprev, lcur);
                lemma_lex_equal_iff(lcur, lprev);
                assert(false);
            }
            assert(lex_cmp(lprev, lcur) == Ordering::Greater);
            assert forall|l: Seq<usize>| #[trigger] bk.contains(l) implies bprev.insert(
                lprev,
            ).contains(l) by {
                assert(ladder_set(votes).contains(l));
                assert(m.contains(l));
                let j = choose|j: int| 0 <= j < m.len() && m[j] == l;
                assert(l == ladder(votes[j]));
                assert(s.contains(j as usize));
                let q = choose|q: int| 0 <= q < s.len() && s[q] == j as usize;
                if q == k - 1 {
                    assert(l == lprev);
                } else if q < k - 1 {
                    assert(lex_cmp(ladder(votes[s[q] as int]), lprev) != Ordering::Less);
                    if lex_cmp(l, lprev) == Ordering::Equal {
                        lemma_lex_equal_iff(l, lprev);
                        assert(l == lprev);
                    } else {
                        assert(lex_cmp(l, lprev) == Ordering::Greater);
                        assert(bprev.contains(l));
                    }
                } else {
                    // q >= k: positions from k on are rated no better than cur
                    if q == k {
                        lemma_lex_equal_iff(l, lcur);
                        assert(lex_cmp(l, lcur) == Ordering::Equal);
                    } else {
                        assert(lex_cmp(ladder(votes[s[k] as int]), ladder(votes[s[q] as int]))
                            != Ordering::Less);
                        lemma_lex_from_flip(l, lcur, 0);
                    }
                    assert(false);
                }
            }
            assert forall|l: Seq<usize>| #[trigger] bprev.insert(lprev).contains(l) implies
                bk.contains(l) by {
                if l == lprev {
                    assert(m[s[k - 1] as int] == lprev);
                    assert(m.contains(lprev));
                    assert(ladder_set(votes).contains(lprev));
                } else {
                    assert(bprev.contains(l));
                    lemma_lex_trans(l, lprev, lcur);
                }
            }
            assert(bk =~= bprev.insert(lprev));
            lemma_lex_equal_iff(lprev, lprev);
            assert(!bprev.contains(lprev));
            assert(bk.len() == bprev.len() + 1);
        }
    }
}

/// Under equal participation, an option's dense rank is one more than the
/// number of distinct median ladders rated strictly better than its own.
pub proof fn lemma_option_rank_is_better_count(votes: Seq<Seq<usize>>, i: int)
    requires
        equal_lengths(votes),
        votes.len() <= usize::MAX,
        0 <= i < votes.len(),
    ensures
        option_rank(votes, i) == 1 + better_ladders(votes, votes[i]).len(),
{
    let n = votes.len() as int;
    lemma_sort_desc_upto_perm(votes, n);
    let s = sort_desc(votes);
    assert(s.contains(i as usize));
    let w = choose|w: int| 0 <= w < s.len() && s[w] == i as usize;
    assert(0 <= sorted_pos(votes, i) < n && s[sorted_pos(votes, i)] as int == i);
    lemma_rank_at_is_better_count(votes, sorted_pos(votes, i));
}

/// Ranking is a pure function of the judgments: under equal participation,
/// an option's rank depends only on its own judgment sequence and on the
/// multiset of all options' sequences, never on positions in the option
/// list. Reordering the options therefore permutes the ranking with them,
/// and options with identical sequences always share a rank.
pub proof fn lemma_rank_from_judgments_only(
    v1: Seq<Seq<usize>>,
    v2: Seq<Seq<usize>>,
    i: int,
    j: int,
)
    requires
        equal_lengths(v1),
        equal_lengths(v2),
        v1.to_multiset() == v2.to_multiset(),
        v1.len() <= usize::MAX,
        0 <= i < v1.len(),
        0 <= j < v2.len(),
        v1[i] == v2[j],
    ensures
        option_rank(v1, i) == option_rank(v2, j),
{
    assert(v1.to_multiset().len() == v1.len());
    assert(v2.to_multiset().len() == v2.len());
    lemma_option_rank_is_better_count(v1, i);
    lemma_option_rank_is_better_count(v2, j);
    let m1 = v1.map_values(|w: Seq<usize>| ladder(w));
    let m2 = v2.map_values(|w: Seq<usize>| ladder(w));
    assert forall|l: Seq<usize>| #[trigger] m1.contains(l) implies m2.contains(l) by {
        let w = choose|w: int| 0 <= w < m1.len() && m1[w] == l;
        assert(v1.contains(v1[w]));
        assert(v1.to_multiset().contains(v1[w]));
        assert(v2.to_multiset().contains(v1[w]));
        assert(v2.contains(v1[w]));
        let u = choose|u: int| 0 <= u < v2.len() && v2[u] == v1[w];
        assert(m2[u] == l);
    }
    assert forall|l: Seq<usize>| #[trigger] m2.contains(l) implies m1.contains(l) by {
        let w = choose|w: int| 0 <= w < m2.len() && m2[w] == l;
        assert(v2.contains(v2[w]));
        assert(v2.to_multiset().contains(v2[w]));
        assert(v1.to_multiset().contains(v2[w]));
        assert(v1.contains(v2[w]));
        let u = choose|u: int| 0 <= u < v1.len() && v1[u] == v2[w];
        assert(m1[u] == l);
    }
    assert(ladder_set(v1) =~= ladder_set(v2));
    assert(better_ladders(v1, v1[i]) =~= better_ladders(v2, v2[j]));
}

/// Reordering the option list reorders the ranking with it: when the
/// options of `v2` are those of `v1` taken in the order given by `perm`
/// (every original option appearing), each option keeps the rank it had at
/// its place in `v1`, under equal participation.
pub proof fn lemma_rank_permutation_equivariant(
    v1: Seq<Seq<usize>>,
    v2: Seq<Seq<usize>>,
    perm: Seq<int>,
    k: int,
)
    requires
        equal_lengths(v1),
        v1.len() <= usize::MAX,
        perm.len() == v1.len(),
        v2.len() == v1.len(),
        forall|t: int| 0 <= t < perm.len() ==> 0 <= #[trigger] perm[t] < v1.len(),
        forall|i: int| 0 <= i < v1.len() ==> #[trigger] perm.contains(i),
        forall|t: int| 0 <= t < v2.len() ==> #[trigger] v2[t] == v1[perm[t]],
        0 <= k < v2.len(),
    ensures
        option_rank(v2, k) == option_rank(v1, perm[k]),
{
    assert forall|a: int, b: int|
        0 <= a < v2.len() && 0 <= b < v2.len() implies (#[trigger] v2[a]).len() == (
    #[trigger] v2[b]).len() by {
        assert(v2[a] == v1[perm[a]] && v2[b] == v1[perm[b]]);
    }
    lemma_option_rank_is_better_count(v2, k);
    lemma_option_rank_is_better_count(v1, perm[k]);
    let m1 = v1.map_values(|w: Seq<usize>| ladder(w));
    let m2 = v2.map_values(|w: Seq<usize>| ladder(w));
    assert forall|l: Seq<usize>| #[trigger] m2.contains(l) implies m1.contains(l) by {
        let t = choose|t: int| 0 <= t < m2.len() && m2[t] == l;
        assert(v2[t] == v1[perm[t]]);
        assert(m1[perm[t]] == l);
    }
    assert forall|l: Seq<usize>| #[trigger] m1.contains(l) implies m2.contains(l) by {
        let i = choose|i: int| 0 <= i < m1.len() && m1[i] == l;
        assert(perm.contains(i));
        let t = choose|t: int| 0 <= t < perm.len() && perm[t] == i;
        assert(v2[t] == v1[i]);
        assert(m2[t] == l);
    }
    assert(ladder_set(v1) =~= ladder_set(v2));
    assert(v2[k] == v1[perm[k]]);
    assert(better_ladders(v2, v2[k]) =~= better_ladders(v1, v1[perm[k]]));
}

/// Options with identical normalized judgment sequences receive the same
/// rank.
pub proof fn lemma_equal_judgments_equal_rank(votes: Seq<Seq<usize>>, i: int, j: int)
    requires
        equal_lengths(votes),
        votes.len() <= usize::MAX,
        0 <= i < votes.len(),
        0 <= j < votes.len(),
        votes[i] == votes[j],
    ensures
        option_rank(votes, i) == option_rank(votes, j),
{
    lemma_rank_from_judgments_only(votes, votes, i, j);
}

/// Strict improvement wins: under equal participation, if every nth median
/// of option `i` is at least the corresponding nth median of option `j`,
/// and at least one is strictly larger, then option `i` ranks strictly
/// better (its rank number is strictly smaller).
pub proof fn lemma_strict_improvement_better_rank(votes: Seq<Seq<usize>>, i: int, j: int)
    requires
        equal_lengths(votes),
        votes.len() <= usize::MAX,
        0 <= i < votes.len(),
        0 <= j < votes.len(),
        forall|r: int|
            0 <= r < votes[j].len() ==> #[trigger] nth_median_of(votes[i], r) >= nth_median_of(
                votes[j],
                r,
            ),
        exists|r: int|
            0 <= r < votes[j].len() && #[trigger] nth_median_of(votes[i], r) > nth_median_of(
                votes[j],
                r,
            ),
    ensures
        option_rank(votes, i) < option_rank(votes, j),
{
    let li = ladder(votes[i]);
    let lj = ladder(votes[j]);
    assert(votes[i].len() == votes[j].len());
    assert forall|r: int| 0 <= r < li.len() implies li[r] >= lj[r] by {
        assert(nth_median_of(votes[i], r) >= nth_median_of(votes[j], r));
    }
    let r0 = choose|r: int|
        0 <= r < votes[j].len() && #[trigger] nth_median_of(votes[i], r) > nth_median_of(
            votes[j],
            r,
        );
    assert(li[r0] > lj[r0]);
    lemma_lex_pointwise_gt(li, lj, 0);
    assert(lex_cmp(li, lj) == Ordering::Greater);
    lemma_option_rank_is_better_count(votes, i);
    lemma_option_rank_is_better_count(votes, j);
    let bi = better_ladders(votes, votes[i]);
    let bj = better_ladders(votes, votes[j]);
    lemma_better_ladders_finite(votes, votes[i]);
    lemma_better_ladders_finite(votes, votes[j]);
    let m = votes.map_values(|w: Seq<usize>| ladder(w));
    assert forall|l: Seq<usize>| #[trigger] bi.insert(li).contains(l) implies bj.contains(l) by {
        if l == li {
            assert(m[i] == li);
            assert(m.contains(li));
            assert(ladder_set(votes).contains(li));
        } else {
            assert(bi.contains(l));
            assert(ladder_set(votes).contains(l));
            assert(m.contains(l));
            let w = choose|w: int| 0 <= w < m.len() && m[w] == l;
            assert(l == ladder(votes[w]));
            lemma_lex_trans(l, li, lj);
        }
    }
    lemma_lex_equal_iff(li, li);
    assert(!bi.contains(li));
    assert(bi.insert(li).len() == bi.len() + 1);
    lemma_len_subset(bi.insert(li), bj);
}

/// `REJECT` normalization equalizes participation: every normalized option
/// carries as many judgments as the most-judged option, so the ranking laws
/// over equally long sequences apply to every `REJECT`-normalized poll.
pub proof fn lemma_norm_reject_equal_lengths(s: Seq<Seq<usize>>)
    ensures
        equal_lengths(norm_spec(s, DefaultVote::REJECT)),
{
    let sorted = s.map_values(|v: Seq<usize>| sort_spec(v));
    let t = norm_spec(s, DefaultVote::REJECT);
    assert forall|i: int| 0 <= i < t.len() implies (#[trigger] t[i]).len() == max_len(sorted) by {
        lemma_max_len_ge(sorted, i);
    }
}

/// Normalizing under `REJECT` is idempotent: a second pass sorts sequences
/// that are already sorted and pads options that already all have the
/// longest length, so it changes nothing.
pub proof fn lemma_normalize_idempotent(s: Seq<Seq<usize>>)
    ensures
        norm_spec(norm_spec(s, DefaultVote::REJECT), DefaultVote::REJECT) == norm_spec(
            s,
            DefaultVote::REJECT,
        ),
{
    let sorted = s.map_values(|v: Seq<usize>| sort_spec(v));
    let t = fill_spec(sorted);
    let m = max_len(sorted);
    assert forall|i: int| 0 <= i < t.len() implies sorted_asc(#[trigger] t[i]) && t[i].len()
        == m by {
        lemma_sort_spec_ensures(s[i]);
        lemma_max_len_ge(sorted, i);
        lemma_padded_sorted(sorted[i], m - sorted[i].len());
    }
    let t_sorted = t.map_values(|v: Seq<usize>| sort_spec(v));
    assert forall|i: int| 0 <= i < t.len() implies #[trigger] t_sorted[i] == t[i] by {
        lemma_sort_spec_fixes_sorted(t[i]);
    }
    assert(t_sorted =~= t);
    if s.len() == 0 {
        assert(norm_spec(t, DefaultVote::REJECT) =~= t);
    } else {
        lemma_max_len_all_equal(t_sorted, m);
        assert forall|i: int| 0 <= i < t.len() implies #[trigger] fill_spec(t_sorted)[i] == t[i] by {
            assert(padded(t_sorted[i], 0) =~= t_sorted[i]);
        }
        assert(norm_spec(t, DefaultVote::REJECT) =~= t);
    }
}

} // verus!
