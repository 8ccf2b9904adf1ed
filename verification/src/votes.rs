use core::cmp::Ordering;
use vstd::prelude::*;

verus! {

/// Index of the conventional (0th) median of a sorted sequence of length
/// `len`: the last index of the lower half, `ceil(len / 2) - 1`.
pub open spec fn med_index(len: int) -> int {
    (len + 1) / 2 - 1
}

/// Index holding the nth median of a sorted sequence of length `len`.
///
/// The 0th median sits at `med_index(len)`; for n >= 1 the ladder walks
/// outward from there, alternately toward the high and the low end.
pub open spec fn ladder_index(len: int, n: int) -> int {
    let med = med_index(len);
    let i = (n + 1) / 2;
    if (len - n) % 2 == 0 {
        med - i
    } else {
        med + i
    }
}

/// The nth median value of a judgment sequence; meaningful for 0 <= n < len.
pub open spec fn nth_median_of(s: Seq<usize>, n: int) -> usize {
    s[ladder_index(s.len() as int, n)]
}

/// The nth median, extended by the convention that the median of an empty
/// sequence is the sentinel judgment 0.
pub open spec fn median_or_zero(s: Seq<usize>, n: int) -> usize {
    if n < s.len() {
        nth_median_of(s, n)
    } else {
        0
    }
}

/// Number of median comparisons made between `a` and `b`: the shorter length,
/// but at least one, so that even empty sequences are compared once.
pub open spec fn cmp_bound(a: Seq<usize>, b: Seq<usize>) -> int {
    let m = if a.len() <= b.len() {
        a.len() as int
    } else {
        b.len() as int
    };
    if m < 1 {
        1
    } else {
        m
    }
}

/// Outcome of the median ladder from rung `n` on: the first rung where the
/// medians differ decides, the higher median winning; if no rung up to
/// `cmp_bound` decides, the sequences are equally rated.
pub open spec fn vote_cmp_from(a: Seq<usize>, b: Seq<usize>, n: int) -> Ordering
    decreases cmp_bound(a, b) - n,
{
    if n >= cmp_bound(a, b) {
        Ordering::Equal
    } else {
        let am = median_or_zero(a, n);
        let bm = median_or_zero(b, n);
        if am < bm {
            Ordering::Less
        } else if am > bm {
            Ordering::Greater
        } else {
            vote_cmp_from(a, b, n + 1)
        }
    }
}

/// The Majority Judgment order on two judgment sequences; `Greater` means
/// the first is the better-rated one.
pub open spec fn vote_cmp_spec(a: Seq<usize>, b: Seq<usize>) -> Ordering {
    vote_cmp_from(a, b, 0)
}

/// The ladder index is a valid index for every rung 0 <= n < len.
pub proof fn lemma_ladder_index_in_range(len: int, n: int)
    requires
        0 <= n < len,
    ensures
        0 <= ladder_index(len, n) < len,
{
}

/// The median ladder of a judgment sequence: its nth medians, in rung order.
/// Two equally long sequences compare exactly as their ladders compare
/// lexicographically.
pub open spec fn ladder(s: Seq<usize>) -> Seq<usize> {
    Seq::new(s.len(), |n: int| nth_median_of(s, n))
}

/// Lexicographic comparison of two equally long value sequences, from
/// position `n` on.
pub open spec fn lex_from(x: Seq<usize>, y: Seq<usize>, n: int) -> Ordering
    decreases x.len() - n,
{
    if n >= x.len() {
        Ordering::Equal
    } else if x[n] < y[n] {
        Ordering::Less
    } else if x[n] > y[n] {
        Ordering::Greater
    } else {
        lex_from(x, y, n + 1)
    }
}

/// Lexicographic comparison of two equally long value sequences.
pub open spec fn lex_cmp(x: Seq<usize>, y: Seq<usize>) -> Ordering {
    lex_from(x, y, 0)
}

/// For equally long sequences, lexicographic equality is equality.
pub proof fn lemma_lex_from_equal_iff(x: Seq<usize>, y: Seq<usize>, n: int)
    requires
        x.len() == y.len(),
        0 <= n,
    ensures
        (lex_from(x, y, n) == Ordering::Equal) <==> (forall|m: int|
            n <= m < x.len() ==> x[m] == y[m]),
    decreases x.len() - n,
{
    if n < x.len() {
        lemma_lex_from_equal_iff(x, y, n + 1);
    }
}

pub proof fn lemma_lex_equal_iff(x: Seq<usize>, y: Seq<usize>)
    requires
        x.len() == y.len(),
    ensures
        (lex_cmp(x, y) == Ordering::Equal) <==> (x == y),
{
    lemma_lex_from_equal_iff(x, y, 0);
    if forall|m: int| 0 <= m < x.len() ==> x[m] == y[m] {
        assert(x =~= y);
    }
}

/// Lexicographic comparison flips when its arguments swap sides.
pub proof fn lemma_lex_from_flip(x: Seq<usize>, y: Seq<usize>, n: int)
    requires
        x.len() == y.len(),
        0 <= n,
    ensures
        lex_from(x, y, n) == (match lex_from(y, x, n) {
            Ordering::Less => Ordering::Greater,
            Ordering::Equal => Ordering::Equal,
            Ordering::Greater => Ordering::Less,
        }),
    decreases x.len() - n,
{
    if n < x.len() {
        lemma_lex_from_flip(x, y, n + 1);
    }
}

/// Transitivity of the lexicographic order on equally long sequences,
/// covering the mixed strict and non-strict cases at once.
pub proof fn lemma_lex_from_trans(x: Seq<usize>, y: Seq<usize>, z: Seq<usize>, n: int)
    requires
        x.len() == y.len(),
        y.len() == z.len(),
        0 <= n,
        lex_from(x, y, n) != Ordering::Less,
        lex_from(y, z, n) != Ordering::Less,
    ensures
        lex_from(x, z, n) != Ordering::Less,
        (lex_from(x, y, n) == Ordering::Greater || lex_from(y, z, n) == Ordering::Greater)
            ==> lex_from(x, z, n) == Ordering::Greater,
    decreases x.len() - n,
{
    if n < x.len() {
        if x[n] == y[n] && y[n] == z[n] {
            lemma_lex_from_trans(x, y, z, n + 1);
        }
    }
}

pub proof fn lemma_lex_trans(x: Seq<usize>, y: Seq<usize>, z: Seq<usize>)
    requires
        x.len() == y.len(),
        y.len() == z.len(),
        lex_cmp(x, y) != Ordering::Less,
        lex_cmp(y, z) != Ordering::Less,
    ensures
        lex_cmp(x, z) != Ordering::Less,
        (lex_cmp(x, y) == Ordering::Greater || lex_cmp(y, z) == Ordering::Greater) ==> lex_cmp(
            x,
            z,
        ) == Ordering::Greater,
{
    lemma_lex_from_trans(x, y, z, 0);
}

/// A sequence that is pointwise at least another, and strictly larger
/// somewhere, is lexicographically greater.
pub proof fn lemma_lex_pointwise_gt(x: Seq<usize>, y: Seq<usize>, n: int)
    requires
        x.len() == y.len(),
        0 <= n,
        forall|m: int| n <= m < x.len() ==> x[m] >= y[m],
        exists|m: int| n <= m < x.len() && x[m] > y[m],
    ensures
        lex_from(x, y, n) == Ordering::Greater,
    decreases x.len() - n,
{
    if x[n] == y[n] {
        let w = choose|m: int| n <= m < x.len() && x[m] > y[m];
        assert(w > n);
        lemma_lex_pointwise_gt(x, y, n + 1);
    }
}

/// The iterated-median comparison of equally long sequences is exactly the
/// lexicographic comparison of their median ladders.
pub proof fn lemma_vote_cmp_is_lex(a: Seq<usize>, b: Seq<usize>)
    requires
        a.len() == b.len(),
    ensures
        vote_cmp_spec(a, b) == lex_cmp(ladder(a), ladder(b)),
{
    if a.len() == 0 {
        assert(vote_cmp_from(a, b, 1) == Ordering::Equal);
        assert(median_or_zero(a, 0) == 0 && median_or_zero(b, 0) == 0);
        assert(vote_cmp_from(a, b, 0) == Ordering::Equal);
    } else {
        lemma_vote_cmp_is_lex_from(a, b, 0);
    }
}

proof fn lemma_vote_cmp_is_lex_from(a: Seq<usize>, b: Seq<usize>, n: int)
    requires
        a.len() == b.len(),
        a.len() > 0,
        0 <= n,
    ensures
        vote_cmp_from(a, b, n) == lex_from(ladder(a), ladder(b), n),
    decreases a.len() - n,
{
    if n < a.len() {
        lemma_vote_cmp_is_lex_from(a, b, n + 1);
    }
}

/// Comparing a judgment sequence with itself yields `Equal`.
pub proof fn lemma_vote_cmp_refl(a: Seq<usize>)
    ensures
        vote_cmp_spec(a, a) == Ordering::Equal,
{
    lemma_vote_cmp_is_lex(a, a);
    lemma_lex_equal_iff(ladder(a), ladder(a));
}

/// Swapping the sides flips the comparison, whatever the lengths.
pub proof fn lemma_vote_cmp_flip(a: Seq<usize>, b: Seq<usize>)
    ensures
        vote_cmp_spec(a, b) == (match vote_cmp_spec(b, a) {
            Ordering::Less => Ordering::Greater,
            Ordering::Equal => Ordering::Equal,
            Ordering::Greater => Ordering::Less,
        }),
{
    lemma_vote_cmp_from_flip(a, b, 0);
}

proof fn lemma_vote_cmp_from_flip(a: Seq<usize>, b: Seq<usize>, n: int)
    requires
        0 <= n,
    ensures
        vote_cmp_from(a, b, n) == (match vote_cmp_from(b, a, n) {
            Ordering::Less => Ordering::Greater,
            Ordering::Equal => Ordering::Equal,
            Ordering::Greater => Ordering::Less,
        }),
    decreases cmp_bound(a, b) - n,
{
    if n < cmp_bound(a, b) {
        lemma_vote_cmp_from_flip(a, b, n + 1);
    }
}

/// For equally long sequences, comparing `Equal` means having the very same
/// median ladder.
pub proof fn lemma_vote_cmp_equal_iff_ladders(a: Seq<usize>, b: Seq<usize>)
    requires
        a.len() == b.len(),
    ensures
        (vote_cmp_spec(a, b) == Ordering::Equal) <==> ladder(a) == ladder(b),
{
    lemma_vote_cmp_is_lex(a, b);
    lemma_lex_equal_iff(ladder(a), ladder(b));
}

/// On equally long sequences the comparator is transitive, in the strict
/// and the non-strict reading at once; together with reflexivity and the
/// flip law this makes it the strict weak ordering the ranking engine
/// sorts by.
pub proof fn lemma_vote_cmp_trans(a: Seq<usize>, b: Seq<usize>, c: Seq<usize>)
    requires
        a.len() == b.len(),
        b.len() == c.len(),
        vote_cmp_spec(a, b) != Ordering::Less,
        vote_cmp_spec(b, c) != Ordering::Less,
    ensures
        vote_cmp_spec(a, c) != Ordering::Less,
        (vote_cmp_spec(a, b) == Ordering::Greater || vote_cmp_spec(b, c) == Ordering::Greater)
            ==> vote_cmp_spec(a, c) == Ordering::Greater,
{
    lemma_vote_cmp_is_lex(a, b);
    lemma_vote_cmp_is_lex(b, c);
    lemma_vote_cmp_is_lex(a, c);
    lemma_lex_trans(ladder(a), ladder(b), ladder(c));
}

/// A judgment sequence together with the Majority Judgment median ladder
/// over it.
pub trait MJVotes {
    /// The judgment sequence this value carries.
    spec fn judgments(&self) -> Seq<usize>;

    /// The nth median of the sequence: the 0th is the conventional median,
    /// the later ones are the tie-break neighbors, and the ladder ends once
    /// `n` reaches the length.
    fn nth_median(&self, n: usize) -> (r: Option<usize>)
        ensures
            n < self.judgments().len() ==> r == Some(nth_median_of(self.judgments(), n as int)),
            n >= self.judgments().len() ==> r is None,
    ;

    /// Orders two judgment sequences by comparing nth medians in turn until
    /// one wins.
    fn vote_cmp(&self, other: &Self) -> (r: Ordering)
        ensures
            r == vote_cmp_spec(self.judgments(), other.judgments()),
    ;
}

impl MJVotes for Vec<usize> {
    open spec fn judgments(&self) -> Seq<usize> {
        self@
    }

    fn nth_median(&self, n: usize) -> (r: Option<usize>) {
        if n >= self.len() {
            return None;
        }
        let med = (self.len() - 1) / 2;
        let i = (n + 1) / 2;
        proof {
            lemma_ladder_index_in_range(self@.len() as int, n as int);
            assert(med == med_index(self@.len() as int));
        }
        if (self.len() - n) % 2 == 0 {
            Some(self[med - i])
        } else {
            Some(self[med + i])
        }
    }

    fn vote_cmp(&self, other: &Self) -> (r: Ordering) {
        let la = self.len();
        let lb = other.len();
        let shorter = if la <= lb { la } else { lb };
        let bound = if shorter < 1 { 1 } else { shorter };
        assert(bound == cmp_bound(self@, other@));
        for n in 0..bound
            invariant
                bound == cmp_bound(self@, other@),
                n <= bound,
                vote_cmp_spec(self@, other@) == vote_cmp_from(self@, other@, n as int),
        {
            let am = match self.nth_median(n) {
                Some(m) => m,
                None => 0,
            };
            let bm = match other.nth_median(n) {
                Some(m) => m,
                None => 0,
            };
            if am < bm {
                return Ordering::Less;
            }
            if am > bm {
                return Ordering::Greater;
            }
        }
        Ordering::Equal
    }
}

} // verus!
