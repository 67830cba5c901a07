//! The instant-runoff tabulator.
//!
//! One round repeatedly tallies current first preferences over the working
//! ballots and either declares a majority winner, or eliminates the
//! candidate with the fewest first-preference votes (ties broken
//! alphabetically) and re-tallies. After each winner the working set is
//! rebuilt from the original ballots with every ranked candidate removed,
//! so the full ranking is produced by restarting the runoff among the
//! remaining candidates.

use vstd::prelude::*;

use crate::ballot::{ballot_ok, ballots_ok, Ballot, BallotView};
use crate::order::{lex_lt, str_eq, strictly_sorted};
use crate::order::lemma_lex_lt_irreflexive;

verus! {

/// Number of ballots whose current first preference is `name`.
pub open spec fn count_first(name: Seq<char>, bs: Seq<BallotView>) -> nat
    decreases bs.len(),
{
    if bs.len() == 0 {
        0
    } else {
        count_first(name, bs.drop_last()) + if bs.last().choices.len() > 0
            && bs.last().choices[0] == name {
            1nat
        } else {
            0nat
        }
    }
}

/// Number of ballots with at least one remaining choice; this equals the
/// round's total counted votes, since each such ballot casts exactly one
/// first-preference vote.
pub open spec fn count_active(bs: Seq<BallotView>) -> nat
    decreases bs.len(),
{
    if bs.len() == 0 {
        0
    } else {
        count_active(bs.drop_last()) + if bs.last().choices.len() > 0 {
            1nat
        } else {
            0nat
        }
    }
}

/// Total number of remaining choice entries across the working ballots;
/// the termination measure of a round.
pub open spec fn sum_choices(bs: Seq<BallotView>) -> nat
    decreases bs.len(),
{
    if bs.len() == 0 {
        0
    } else {
        sum_choices(bs.drop_last()) + bs.last().choices.len()
    }
}

/// Candidate `cands[j]` holds a strict majority: more than half of the
/// currently counted votes.
pub open spec fn is_majority(cands: Seq<Seq<char>>, bs: Seq<BallotView>, j: int) -> bool {
    count_first(cands[j], bs) > count_active(bs) / 2
}

/// First index at or after `j` holding a strict majority, or `cands.len()`
/// if there is none.
pub open spec fn first_majority_from(cands: Seq<Seq<char>>, bs: Seq<BallotView>, j: int) -> int
    decreases cands.len() - j,
{
    if j < 0 || j >= cands.len() {
        cands.len() as int
    } else if is_majority(cands, bs, j) {
        j
    } else {
        first_majority_from(cands, bs, j + 1)
    }
}

pub open spec fn majority_index(cands: Seq<Seq<char>>, bs: Seq<BallotView>) -> int {
    first_majority_from(cands, bs, 0)
}

/// The elimination choice: among the candidates currently holding at least
/// one first-preference vote, `cands[j]` has the minimum count, and the
/// smallest index (hence, with a sorted candidate list, the alphabetically
/// first name) among those tied at that minimum.
pub open spec fn is_elim_choice(cands: Seq<Seq<char>>, bs: Seq<BallotView>, j: int) -> bool {
    &&& 0 <= j < cands.len()
    &&& count_first(cands[j], bs) > 0
    &&& forall|k: int|
        0 <= k < cands.len() && count_first(#[trigger] cands[k], bs) > 0 ==> {
            ||| count_first(cands[j], bs) < count_first(cands[k], bs)
            ||| (count_first(cands[j], bs) == count_first(cands[k], bs) && j <= k)
        }
}

/// Scans for the elimination choice from index `j` on; `best` is the
/// best index seen so far, with `cands.len()` as the initial sentinel.
pub open spec fn elim_scan(cands: Seq<Seq<char>>, bs: Seq<BallotView>, j: int, best: int) -> int
    decreases cands.len() - j,
{
    if j < 0 || j >= cands.len() {
        best
    } else {
        let c = count_first(cands[j], bs);
        let better = c > 0 && (!(0 <= best < cands.len()) || c < count_first(cands[best], bs));
        elim_scan(cands, bs, j + 1, if better { j } else { best })
    }
}

pub open spec fn elim_index(cands: Seq<Seq<char>>, bs: Seq<BallotView>) -> int {
    elim_scan(cands, bs, 0, cands.len() as int)
}

/// A ballot after eliminating `name` from the head of its choice list.
pub open spec fn strip_head(b: BallotView, name: Seq<char>) -> BallotView {
    if b.choices.len() > 0 && b.choices[0] == name {
        BallotView { id: b.id, choices: b.choices.skip(1) }
    } else {
        b
    }
}

/// One elimination step: every ballot whose current first choice is `name`
/// loses that single leading entry.
pub open spec fn eliminate(bs: Seq<BallotView>, name: Seq<char>) -> Seq<BallotView> {
    bs.map_values(|b: BallotView| strip_head(b, name))
}

/// Eliminating `name` removes exactly one choice entry per ballot whose
/// head is `name`, and never increases any count.
pub proof fn lemma_eliminate_sum(bs: Seq<BallotView>, name: Seq<char>)
    ensures
        sum_choices(eliminate(bs, name)) + count_first(name, bs) == sum_choices(bs),
        count_first(name, bs) <= count_active(bs),
        count_active(bs) <= bs.len(),
    decreases bs.len(),
{
    if bs.len() == 0 {
        assert(eliminate(bs, name) =~= Seq::<BallotView>::empty());
    } else {
        lemma_eliminate_sum(bs.drop_last(), name);
        let e = eliminate(bs, name);
        assert(e.drop_last() =~= eliminate(bs.drop_last(), name));
        assert(e.last() == strip_head(bs.last(), name));
    }
}

/// The outcome of one full elimination round over the working ballots:
/// the winner, if the round produces one, and the final working state.
pub open spec fn round_spec(cands: Seq<Seq<char>>, bs: Seq<BallotView>) -> (Option<Seq<char>>,
    Seq<BallotView>)
    decreases sum_choices(bs),
{
    if count_active(bs) == 0 {
        (None::<Seq<char>>, bs)
    } else {
        let m = majority_index(cands, bs);
        if m < cands.len() {
            (Some(cands[m]), bs)
        } else {
            let e = elim_index(cands, bs);
            if 0 <= e < cands.len() && count_first(cands[e], bs) > 0 {
                proof {
                    lemma_eliminate_sum(bs, cands[e]);
                }
                round_spec(cands, eliminate(bs, cands[e]))
            } else {
                (None::<Seq<char>>, bs)
            }
        }
    }
}

/// A strictly sorted candidate list has pairwise distinct names.
pub proof fn lemma_sorted_distinct(cands: Seq<Seq<char>>, j: int, k: int)
    requires
        strictly_sorted(cands),
        0 <= j < cands.len(),
        0 <= k < cands.len(),
        j != k,
    ensures
        cands[j] != cands[k],
{
    if j < k {
        assert(lex_lt(cands[j], cands[k]));
        if cands[j] == cands[k] {
            lemma_lex_lt_irreflexive(cands[j]);
        }
    } else {
        assert(lex_lt(cands[k], cands[j]));
        if cands[j] == cands[k] {
            lemma_lex_lt_irreflexive(cands[j]);
        }
    }
}

pub proof fn lemma_count_first_le_active(name: Seq<char>, bs: Seq<BallotView>)
    ensures
        count_first(name, bs) <= count_active(bs),
        count_active(bs) <= bs.len(),
    decreases bs.len(),
{
    if bs.len() > 0 {
        lemma_count_first_le_active(name, bs.drop_last());
    }
}

/// If any ballot is still active and all tokens are known candidates, some
/// candidate holds at least one first-preference vote.
pub proof fn lemma_active_positive(bs: Seq<BallotView>, cands: Seq<Seq<char>>)
    requires
        count_active(bs) > 0,
        ballots_ok(bs, cands),
    ensures
        exists|k: int|
            0 <= k < cands.len() && count_first(#[trigger] cands[k], bs) > 0,
    decreases bs.len(),
{
    let last = bs.last();
    if last.choices.len() > 0 {
        let head = last.choices[0];
        assert(cands.contains(head));
        let k = choose|k: int| 0 <= k < cands.len() && cands[k] == head;
        lemma_count_first_le_active(head, bs.drop_last());
        assert(count_first(cands[k], bs) > 0);
    } else {
        assert(count_active(bs.drop_last()) > 0);
        assert(ballots_ok(bs.drop_last(), cands)) by {
            assert(forall|i: int|
                0 <= i < bs.len() - 1 ==> bs.drop_last()[i] == bs[i]);
        }
        lemma_active_positive(bs.drop_last(), cands);
        let k = choose|k: int|
            0 <= k < cands.len() && count_first(#[trigger] cands[k], bs.drop_last()) > 0;
        assert(count_first(cands[k], bs) >= count_first(cands[k], bs.drop_last()));
    }
}

/// What the majority scan returns: the first majority holder, if any.
pub proof fn lemma_majority_scan(cands: Seq<Seq<char>>, bs: Seq<BallotView>, j: int)
    requires
        0 <= j <= cands.len(),
    ensures
        j <= first_majority_from(cands, bs, j) <= cands.len(),
        first_majority_from(cands, bs, j) < cands.len() ==> is_majority(
            cands,
            bs,
            first_majority_from(cands, bs, j),
        ),
        forall|k: int|
            j <= k < first_majority_from(cands, bs, j) ==> !is_majority(cands, bs, k),
    decreases cands.len() - j,
{
    if j < cands.len() && !is_majority(cands, bs, j) {
        lemma_majority_scan(cands, bs, j + 1);
    }
}

/// What the elimination scan returns: either the sentinel, in which case
/// no candidate holds a vote, or the unique elimination choice.
pub proof fn lemma_elim_scan(cands: Seq<Seq<char>>, bs: Seq<BallotView>, j: int, best: int)
    requires
        0 <= j <= cands.len(),
        best == cands.len() || (0 <= best < j && count_first(cands[best], bs) > 0),
        best == cands.len() ==> forall|k: int|
            0 <= k < j ==> count_first(#[trigger] cands[k], bs) == 0,
        0 <= best < j ==> forall|k: int|
            0 <= k < j && count_first(#[trigger] cands[k], bs) > 0 ==> {
                ||| count_first(cands[best], bs) < count_first(cands[k], bs)
                ||| (count_first(cands[best], bs) == count_first(cands[k], bs) && best <= k)
            },
    ensures
        ({
            let r = elim_scan(cands, bs, j, best);
            &&& (r == cands.len() ==> forall|k: int|
                0 <= k < cands.len() ==> count_first(#[trigger] cands[k], bs) == 0)
            &&& (r != cands.len() ==> is_elim_choice(cands, bs, r))
        }),
    decreases cands.len() - j,
{
    if j < cands.len() {
        let c = count_first(cands[j], bs);
        let better = c > 0 && (!(0 <= best < cands.len()) || c < count_first(cands[best], bs));
        if better {
            lemma_elim_scan(cands, bs, j + 1, j);
        } else {
            lemma_elim_scan(cands, bs, j + 1, best);
        }
    }
}

/// Looks up a known candidate name.
fn find_candidate(cands: &Vec<String>, name: &String) -> (j: usize)
    requires
        cands.deep_view().contains(name@),
    ensures
        j < cands@.len(),
        cands.deep_view()[j as int] == name@,
{
    let mut j: usize = 0;
    while j < cands.len()
        invariant
            j <= cands@.len(),
            cands.deep_view().contains(name@),
            forall|k: int| 0 <= k < j ==> cands.deep_view()[k] != name@,
        decreases cands@.len() - j,
    {
        if str_eq(&cands[j], name) {
            return j;
        }
        j = j + 1;
    }
    proof {
        let w = choose|k: int|
            0 <= k < cands.deep_view().len() && cands.deep_view()[k] == name@;
        assert(false);
    }
    0
}

/// Tallies current first preferences: one vote per ballot with a non-empty
/// choice list, none for exhausted ballots. Returns the per-candidate
/// counts (indexed like `cands`) and the total number of counted votes.
pub fn tally_first_preferences(cands: &Vec<String>, bs: &Vec<Ballot>) -> (r: (Vec<usize>, usize))
    requires
        strictly_sorted(cands.deep_view()),
        ballots_ok(bs.deep_view(), cands.deep_view()),
    ensures
        r.0@.len() == cands@.len(),
        forall|k: int|
            0 <= k < cands@.len() ==> r.0@[k] as nat == count_first(
                cands.deep_view()[k],
                bs.deep_view(),
            ),
        r.1 as nat == count_active(bs.deep_view()),
{
    let ghost cs = cands.deep_view();
    let ghost all = bs.deep_view();
    let n = cands.len();
    let mut counts: Vec<usize> = Vec::new();
    while counts.len() < n
        invariant
            counts@.len() <= n,
            forall|k: int| 0 <= k < counts@.len() ==> counts@[k] == 0,
        decreases n - counts@.len(),
    {
        counts.push(0);
    }
    let mut total: usize = 0;
    let mut i: usize = 0;
    proof {
        assert(all.take(0) =~= Seq::<BallotView>::empty());
    }
    while i < bs.len()
        invariant
            i <= bs@.len(),
            all == bs.deep_view(),
            cs == cands.deep_view(),
            strictly_sorted(cs),
            ballots_ok(all, cs),
            counts@.len() == n,
            n == cands@.len(),
            total <= i,
            forall|k: int| 0 <= k < n ==> counts@[k] <= i,
            forall|k: int|
                0 <= k < n ==> counts@[k] as nat == count_first(cs[k], all.take(i as int)),
            total as nat == count_active(all.take(i as int)),
        decreases bs@.len() - i,
    {
        let ghost prefix = all.take(i as int);
        let ghost prefix2 = all.take(i + 1);
        proof {
            assert(prefix2.drop_last() =~= prefix);
            assert(prefix2.last() == all[i as int]);
        }
        if !bs[i].choices.is_empty() {
            proof {
                assert(ballot_ok(all[i as int], cs));
                assert(all[i as int].choices.len() == bs@[i as int].choices@.len());
                assert(all[i as int].choices[0] == bs@[i as int].choices@[0]@);
                assert(cs.contains(all[i as int].choices[0]));
            }
            let j = find_candidate(cands, &bs[i].choices[0]);
            proof {
                assert(all[i as int].choices[0] == bs@[i as int]@.choices[0]);
                assert forall|k: int| 0 <= k < n && k != j implies cs[k]
                    != all[i as int].choices[0] by {
                    lemma_sorted_distinct(cs, j as int, k);
                }
            }
            let c = counts[j];
            counts[j] = c + 1;
            total = total + 1;
        }
        i = i + 1;
    }
    proof {
        assert(all.take(all.len() as int) =~= all);
    }
    (counts, total)
}

/// Finds the first candidate index holding a strict majority of `total`,
/// or `cands.len()` if there is none.
fn find_majority(
    counts: &Vec<usize>,
    total: usize,
    Ghost(cs): Ghost<Seq<Seq<char>>>,
    Ghost(bs): Ghost<Seq<BallotView>>,
) -> (r: usize)
    requires
        counts@.len() == cs.len(),
        forall|k: int| 0 <= k < cs.len() ==> counts@[k] as nat == count_first(cs[k], bs),
        total as nat == count_active(bs),
    ensures
        r as int == majority_index(cs, bs),
        r <= cs.len(),
{
    let n = counts.len();
    let mut j: usize = 0;
    while j < n
        invariant
            j <= n,
            n == counts@.len(),
            counts@.len() == cs.len(),
            forall|k: int| 0 <= k < cs.len() ==> counts@[k] as nat == count_first(cs[k], bs),
            total as nat == count_active(bs),
            majority_index(cs, bs) == first_majority_from(cs, bs, j as int),
        decreases n - j,
    {
        if counts[j] > total / 2 {
            return j;
        }
        j = j + 1;
    }
    n
}

/// Finds the elimination choice among candidates with a positive count:
/// minimum count, earliest (alphabetically first) index on ties. Returns
/// `cands.len()` if no candidate holds a vote.
fn find_elim(
    counts: &Vec<usize>,
    Ghost(cs): Ghost<Seq<Seq<char>>>,
    Ghost(bs): Ghost<Seq<BallotView>>,
) -> (r: usize)
    requires
        counts@.len() == cs.len(),
        forall|k: int| 0 <= k < cs.len() ==> counts@[k] as nat == count_first(cs[k], bs),
    ensures
        r as int == elim_index(cs, bs),
        r <= cs.len(),
{
    let n = counts.len();
    let mut best: usize = n;
    let mut j: usize = 0;
    while j < n
        invariant
            j <= n,
            best <= n,
            n == counts@.len(),
            counts@.len() == cs.len(),
            forall|k: int| 0 <= k < cs.len() ==> counts@[k] as nat == count_first(cs[k], bs),
            best < n ==> count_first(cs[best as int], bs) > 0,
            elim_index(cs, bs) == elim_scan(cs, bs, j as int, best as int),
        decreases n - j,
    {
        let better = counts[j] > 0 && (best == n || counts[j] < counts[best]);
        if better {
            best = j;
        }
        j = j + 1;
    }
    best
}

/// Removes the single leading entry of every ballot whose current first
/// choice is `name`.
pub fn eliminate_head(ballots: Vec<Ballot>, name: &String) -> (r: Vec<Ballot>)
    ensures
        r.deep_view() == eliminate(ballots.deep_view(), name@),
{
    let ghost orig = ballots.deep_view();
    let mut rest = ballots;
    let mut out: Vec<Ballot> = Vec::new();
    while !rest.is_empty()
        invariant
            out@.len() + rest@.len() == orig.len(),
            rest.deep_view() =~= orig.skip(out@.len() as int),
            out.deep_view() =~= eliminate(orig.take(out@.len() as int), name@),
        decreases rest@.len(),
    {
        let ghost i = out@.len() as int;
        let ghost pre_rest = rest.deep_view();
        let mut b = rest.remove(0);
        proof {
            assert(pre_rest[0] == orig.skip(i)[0]);
            assert(pre_rest[0] == b@);
            assert(b@ == orig[i]);
            assert forall|k: int| 0 <= k < rest@.len() implies rest.deep_view()[k] == orig.skip(
                i + 1,
            )[k] by {
                assert(rest.deep_view()[k] == pre_rest[k + 1]);
                assert(pre_rest[k + 1] == orig.skip(i)[k + 1]);
            }
            assert(rest.deep_view() =~= orig.skip(i + 1));
        }
        if !b.choices.is_empty() && str_eq(&b.choices[0], name) {
            let ghost pre = b@;
            b.choices.remove(0);
            proof {
                assert(b@.choices =~= pre.choices.skip(1));
                assert(b@ == strip_head(orig[i], name@));
            }
        } else {
            assert(b@ == strip_head(orig[i], name@));
        }
        out.push(b);
        proof {
            assert(orig.take(i + 1).map_values(|x: BallotView| strip_head(x, name@)) =~= orig
                .take(i).map_values(|x: BallotView| strip_head(x, name@)).push(
                strip_head(orig[i], name@),
            ));
            assert(out.deep_view() =~= eliminate(orig.take(i + 1), name@));
        }
    }
    proof {
        assert(orig.take(orig.len() as int) =~= orig);
    }
    out
}

/// Eliminating a candidate's head entries keeps every remaining token a
/// known candidate.
pub proof fn lemma_eliminate_ok(bs: Seq<BallotView>, cands: Seq<Seq<char>>, name: Seq<char>)
    requires
        ballots_ok(bs, cands),
    ensures
        ballots_ok(eliminate(bs, name), cands),
{
    let e = eliminate(bs, name);
    assert forall|i: int| 0 <= i < e.len() implies ballot_ok(e[i], cands) by {
        assert(e[i] == strip_head(bs[i], name));
        assert(ballot_ok(bs[i], cands));
        if bs[i].choices.len() > 0 && bs[i].choices[0] == name {
            assert forall|j: int| 0 <= j < e[i].choices.len() implies cands.contains(
                #[trigger] e[i].choices[j],
            ) by {
                assert(e[i].choices[j] == bs[i].choices[j + 1]);
            }
        }
    }
}

/// Runs one full elimination round on the working ballots, returning the
/// round's winner (if any) and the final working state.
pub fn run_round(cands: &Vec<String>, working: Vec<Ballot>) -> (r: (Option<String>, Vec<Ballot>))
    requires
        strictly_sorted(cands.deep_view()),
        ballots_ok(working.deep_view(), cands.deep_view()),
    ensures
        r.0.deep_view() == round_spec(cands.deep_view(), working.deep_view()).0,
        r.1.deep_view() == round_spec(cands.deep_view(), working.deep_view()).1,
{
    let ghost cs = cands.deep_view();
    let ghost orig = working.deep_view();
    let mut work = working;
    #[verifier::loop_isolation(false)]
    loop
        invariant
            cs == cands.deep_view(),
            strictly_sorted(cs),
            ballots_ok(work.deep_view(), cs),
            round_spec(cs, orig) == round_spec(cs, work.deep_view()),
        decreases sum_choices(work.deep_view()),
    {
        let ghost cur = work.deep_view();
        let (counts, total) = tally_first_preferences(cands, &work);
        if total == 0 {
            proof {
                assert(count_active(cur) == 0);
                assert(round_spec(cs, cur) == (None::<Seq<char>>, cur));
                assert(work.deep_view() == cur);
            }
            return (None, work);
        }
        let m = find_majority(&counts, total, Ghost(cs), Ghost(cur));
        if m < cands.len() {
            let w = cands[m].clone();
            proof {
                assert(w@ == cs[m as int]);
                assert(count_active(cur) > 0);
                assert(majority_index(cs, cur) == m as int);
                assert(round_spec(cs, cur) == (Some(cs[m as int]), cur));
                assert(Some(w).deep_view() == Some(cs[m as int]));
            }
            return (Some(w), work);
        }
        let e = find_elim(&counts, Ghost(cs), Ghost(cur));
        proof {
            lemma_active_positive(cur, cs);
            lemma_elim_scan(cs, cur, 0, cs.len() as int);
            assert(elim_index(cs, cur) != cs.len());
            assert(is_elim_choice(cs, cur, e as int));
            lemma_eliminate_sum(cur, cs[e as int]);
            lemma_eliminate_ok(cur, cs, cs[e as int]);
        }
        let name = cands[e].clone();
        work = eliminate_head(work, &name);
    }
}

/// A ballot after removing every occurrence of every ranked candidate.
pub open spec fn strip_ranked(b: BallotView, ranked: Seq<Seq<char>>) -> BallotView {
    BallotView { id: b.id, choices: b.choices.filter(|c: Seq<char>| !ranked.contains(c)) }
}

/// The working set for a new outer round: the original ballots with every
/// already-ranked candidate removed wherever it appears, and ballots left
/// without choices dropped.
pub open spec fn rebuild(bs: Seq<BallotView>, ranked: Seq<Seq<char>>) -> Seq<BallotView> {
    bs.map_values(|b: BallotView| strip_ranked(b, ranked)).filter(
        |b: BallotView| b.choices.len() > 0,
    )
}

/// Every element of a filtered sequence satisfies the predicate and comes
/// from the original sequence.
pub proof fn lemma_filter_elem_of<A>(s: Seq<A>, pred: spec_fn(A) -> bool, i: int)
    requires
        0 <= i < s.filter(pred).len(),
    ensures
        s.contains(s.filter(pred)[i]),
        pred(s.filter(pred)[i]),
    decreases s.len(),
{
    reveal(Seq::filter);
    if s.len() > 0 {
        let f = s.filter(pred);
        let fd = s.drop_last().filter(pred);
        if pred(s.last()) && i == f.len() - 1 {
            assert(f[i] == s.last());
            assert(s[s.len() - 1] == s.last());
        } else {
            assert(f[i] == fd[i]);
            lemma_filter_elem_of(s.drop_last(), pred, i);
            let j = choose|j: int| 0 <= j < s.drop_last().len() && s.drop_last()[j] == fd[i];
            assert(s[j] == f[i]);
        }
    }
}

/// Decides whether a candidate list contains a name.
pub fn vec_contains_str(v: &Vec<String>, s: &String) -> (r: bool)
    ensures
        r == v.deep_view().contains(s@),
{
    let mut j: usize = 0;
    while j < v.len()
        invariant
            j <= v@.len(),
            forall|k: int| 0 <= k < j ==> v.deep_view()[k] != s@,
        decreases v@.len() - j,
    {
        if str_eq(&v[j], s) {
            proof {
                assert(v.deep_view()[j as int] == s@);
            }
            return true;
        }
        j = j + 1;
    }
    false
}

/// Rebuilds the working ballots from the original ballot set, excluding
/// every candidate already placed in the ranking.
pub fn rebuild_ballots(orig: &Vec<Ballot>, ranking: &Vec<String>) -> (r: Vec<Ballot>)
    ensures
        r.deep_view() == rebuild(orig.deep_view(), ranking.deep_view()),
{
    let ghost all = orig.deep_view();
    let ghost rk = ranking.deep_view();
    let mut out: Vec<Ballot> = Vec::new();
    let mut i: usize = 0;
    proof {
        reveal(Seq::filter);
        assert(all.take(0).map_values(|b: BallotView| strip_ranked(b, rk)) =~= Seq::<
            BallotView,
        >::empty());
        assert(out.deep_view() =~= rebuild(all.take(0), rk));
    }
    while i < orig.len()
        invariant
            i <= orig@.len(),
            all == orig.deep_view(),
            rk == ranking.deep_view(),
            out.deep_view() == rebuild(all.take(i as int), rk),
        decreases orig@.len() - i,
    {
        let ghost b = all[i as int];
        let mut ch: Vec<String> = Vec::new();
        let mut t: usize = 0;
        proof {
            reveal(Seq::filter);
            assert(b.choices.take(0) =~= Seq::<Seq<char>>::empty());
            assert(ch.deep_view() =~= b.choices.take(0).filter(|c: Seq<char>| !rk.contains(c)));
        }
        while t < orig[i].choices.len()
            invariant
                i < orig@.len(),
                t <= b.choices.len(),
                b == all[i as int],
                all == orig.deep_view(),
                rk == ranking.deep_view(),
                b.choices.len() == orig@[i as int].choices@.len(),
                ch.deep_view() == b.choices.take(t as int).filter(
                    |c: Seq<char>| !rk.contains(c),
                ),
            decreases b.choices.len() - t,
        {
            let ghost pre = ch.deep_view();
            let ghost taken = b.choices.take(t as int);
            proof {
                assert(b.choices.take(t + 1).drop_last() =~= taken);
                assert(b.choices.take(t + 1).last() == b.choices[t as int]);
                assert(b.choices[t as int] == orig@[i as int].choices@[t as int]@);
                reveal(Seq::filter);
            }
            if !vec_contains_str(ranking, &orig[i].choices[t]) {
                let tok = orig[i].choices[t].clone();
                ch.push(tok);
                proof {
                    assert(ch.deep_view() =~= pre.push(b.choices[t as int]));
                }
            }
            proof {
                assert(ch.deep_view() =~= b.choices.take(t + 1).filter(
                    |c: Seq<char>| !rk.contains(c),
                ));
            }
            t = t + 1;
        }
        proof {
            assert(b.choices.take(b.choices.len() as int) =~= b.choices);
        }
        let ghost pre_out = out.deep_view();
        let ghost mapped = all.take(i as int).map_values(
            |x: BallotView| strip_ranked(x, rk),
        );
        if !ch.is_empty() {
            let id = orig[i].id.clone();
            out.push(Ballot { id, choices: ch });
            proof {
                assert(out.deep_view() =~= pre_out.push(strip_ranked(b, rk)));
            }
        }
        proof {
            reveal(Seq::filter);
            assert(all.take(i + 1).map_values(|x: BallotView| strip_ranked(x, rk)) =~= mapped
                .push(strip_ranked(b, rk)));
            assert(mapped.push(strip_ranked(b, rk)).drop_last() =~= mapped);
            assert(mapped.push(strip_ranked(b, rk)).last() == strip_ranked(b, rk));
            assert(strip_ranked(b, rk).choices == ch.deep_view());
            assert(out.deep_view() =~= rebuild(all.take(i + 1), rk));
        }
        i = i + 1;
    }
    proof {
        assert(all.take(all.len() as int) =~= all);
    }
    out
}

/// The full iterated-runoff ranking, continued from an already-produced
/// ranking prefix: rebuild the working set, run one round, append its
/// winner, and repeat until the ranking is full, the working set is empty,
/// or a round ends with no winner.
pub open spec fn rank_rounds(
    cands: Seq<Seq<char>>,
    orig: Seq<BallotView>,
    ranking: Seq<Seq<char>>,
) -> Seq<Seq<char>>
    decreases cands.len() + 1 - ranking.len(),
{
    if ranking.len() > cands.len() {
        ranking
    } else {
        let working = rebuild(orig, ranking);
        if working.len() == 0 {
            ranking
        } else {
            match round_spec(cands, working).0 {
                None => ranking,
                Some(w) => rank_rounds(cands, orig, ranking.push(w)),
            }
        }
    }
}

/// The tabulator's output over a candidate set and the original ballots.
pub open spec fn full_ranking(cands: Seq<Seq<char>>, orig: Seq<BallotView>) -> Seq<Seq<char>> {
    rank_rounds(cands, orig, Seq::<Seq<char>>::empty())
}

/// Tokens surviving a rebuild were always tokens of known candidates.
pub proof fn lemma_rebuild_ok(bs: Seq<BallotView>, cands: Seq<Seq<char>>, ranked: Seq<Seq<char>>)
    requires
        ballots_ok(bs, cands),
    ensures
        ballots_ok(rebuild(bs, ranked), cands),
{
    let mapped = bs.map_values(|b: BallotView| strip_ranked(b, ranked));
    let r = rebuild(bs, ranked);
    assert forall|i: int| 0 <= i < r.len() implies ballot_ok(#[trigger] r[i], cands) by {
        lemma_filter_elem_of(mapped, |b: BallotView| b.choices.len() > 0, i);
        assert(mapped.contains(r[i]));
        let mi = choose|mi: int| 0 <= mi < mapped.len() && mapped[mi] == r[i];
        assert(r[i] == strip_ranked(bs[mi], ranked));
        assert(ballot_ok(bs[mi], cands));
        assert forall|j: int| 0 <= j < r[i].choices.len() implies cands.contains(
            #[trigger] r[i].choices[j],
        ) by {
            lemma_filter_elem_of(bs[mi].choices, |c: Seq<char>| !ranked.contains(c), j);
            let cj = choose|cj: int|
                0 <= cj < bs[mi].choices.len() && bs[mi].choices[cj] == r[i].choices[j];
            assert(cands.contains(bs[mi].choices[cj]));
        }
    }
}

/// Ranks every candidate by iterated instant-runoff elimination, from the
/// first majority winner down to the last surviving candidate.
pub fn rank_ballots(cands: &Vec<String>, ballots: &Vec<Ballot>) -> (r: Vec<String>)
    requires
        strictly_sorted(cands.deep_view()),
        ballots_ok(ballots.deep_view(), cands.deep_view()),
    ensures
        r.deep_view() == full_ranking(cands.deep_view(), ballots.deep_view()),
{
    let ghost cs = cands.deep_view();
    let ghost orig = ballots.deep_view();
    let mut ranking: Vec<String> = Vec::new();
    proof {
        assert(ranking.deep_view() =~= Seq::<Seq<char>>::empty());
    }
    #[verifier::loop_isolation(false)]
    loop
        invariant
            full_ranking(cs, orig) == rank_rounds(cs, orig, ranking.deep_view()),
        decreases cs.len() + 1 - ranking.deep_view().len(),
    {
        let ghost rk = ranking.deep_view();
        if ranking.len() > cands.len() {
            return ranking;
        }
        let working = rebuild_ballots(ballots, &ranking);
        if working.is_empty() {
            proof {
                assert(rebuild(orig, rk).len() == 0);
            }
            return ranking;
        }
        proof {
            lemma_rebuild_ok(orig, cs, rk);
        }
        let (w, _rest) = run_round(cands, working);
        match w {
            None => {
                return ranking;
            },
            Some(name) => {
                let ghost pre = ranking.deep_view();
                ranking.push(name);
                proof {
                    assert(ranking.deep_view() =~= pre.push(name@));
                }
            },
        }
    }
}

/// The token occurs somewhere in some ballot's remaining choices.
pub open spec fn appears(bs: Seq<BallotView>, t: Seq<char>) -> bool {
    exists|i: int, j: int|
        0 <= i < bs.len() && 0 <= j < bs[i].choices.len() && #[trigger] bs[i].choices[j] == t
}

pub proof fn lemma_count_first_appears(name: Seq<char>, bs: Seq<BallotView>)
    requires
        count_first(name, bs) > 0,
    ensures
        appears(bs, name),
    decreases bs.len(),
{
    let last = bs.last();
    if last.choices.len() > 0 && last.choices[0] == name {
        assert(bs[bs.len() - 1].choices[0] == name);
    } else {
        lemma_count_first_appears(name, bs.drop_last());
        let (i, j) = choose|i: int, j: int|
            0 <= i < bs.drop_last().len() && 0 <= j < bs.drop_last()[i].choices.len()
                && #[trigger] bs.drop_last()[i].choices[j] == name;
        assert(bs[i].choices[j] == name);
    }
}

pub proof fn lemma_eliminate_appears(bs: Seq<BallotView>, x: Seq<char>, t: Seq<char>)
    requires
        appears(eliminate(bs, x), t),
    ensures
        appears(bs, t),
{
    let e = eliminate(bs, x);
    let (i, j) = choose|i: int, j: int|
        0 <= i < e.len() && 0 <= j < e[i].choices.len() && #[trigger] e[i].choices[j] == t;
    assert(e[i] == strip_head(bs[i], x));
    if bs[i].choices.len() > 0 && bs[i].choices[0] == x {
        assert(bs[i].choices[j + 1] == t);
    } else {
        assert(bs[i].choices[j] == t);
    }
}

/// A round's winner was present in the working ballots the round started
/// from, and is a known candidate.
pub proof fn lemma_round_winner_appears(cands: Seq<Seq<char>>, bs: Seq<BallotView>)
    ensures
        match round_spec(cands, bs).0 {
            Some(w) => appears(bs, w) && cands.contains(w),
            None => true,
        },
    decreases sum_choices(bs),
{
    if count_active(bs) == 0 {
    } else {
        let m = majority_index(cands, bs);
        if m < cands.len() {
            lemma_majority_scan(cands, bs, 0);
            assert(count_first(cands[m], bs) > 0);
            lemma_count_first_appears(cands[m], bs);
        } else {
            let e = elim_index(cands, bs);
            if 0 <= e < cands.len() && count_first(cands[e], bs) > 0 {
                lemma_eliminate_sum(bs, cands[e]);
                lemma_round_winner_appears(cands, eliminate(bs, cands[e]));
                match round_spec(cands, eliminate(bs, cands[e])).0 {
                    Some(w) => {
                        lemma_eliminate_appears(bs, cands[e], w);
                    },
                    None => {},
                }
            }
        }
    }
}

/// An already-ranked candidate does not occur anywhere in the rebuilt
/// working set.
pub proof fn lemma_rebuild_excludes(orig: Seq<BallotView>, ranked: Seq<Seq<char>>, t: Seq<char>)
    requires
        ranked.contains(t),
    ensures
        !appears(rebuild(orig, ranked), t),
{
    let r = rebuild(orig, ranked);
    if appears(r, t) {
        let mapped = orig.map_values(|b: BallotView| strip_ranked(b, ranked));
        let (i, j) = choose|i: int, j: int|
            0 <= i < r.len() && 0 <= j < r[i].choices.len() && #[trigger] r[i].choices[j] == t;
        lemma_filter_elem_of(mapped, |b: BallotView| b.choices.len() > 0, i);
        let mi = choose|mi: int| 0 <= mi < mapped.len() && mapped[mi] == r[i];
        assert(r[i] == strip_ranked(orig[mi], ranked));
        lemma_filter_elem_of(orig[mi].choices, |c: Seq<char>| !ranked.contains(c), j);
        assert(!ranked.contains(t));
    }
}

/// A candidate appended to the ranking in an earlier round never
/// reappears in a later round's tally: it is absent from the rebuilt
/// working set, so its first-preference count there is zero.
pub proof fn lemma_ranked_never_tallied(
    orig: Seq<BallotView>,
    ranked: Seq<Seq<char>>,
    t: Seq<char>,
)
    requires
        ranked.contains(t),
    ensures
        !appears(rebuild(orig, ranked), t),
        count_first(t, rebuild(orig, ranked)) == 0,
{
    lemma_rebuild_excludes(orig, ranked, t);
    if count_first(t, rebuild(orig, ranked)) > 0 {
        lemma_count_first_appears(t, rebuild(orig, ranked));
    }
}

/// A candidate absent from the working set stays absent, with a zero
/// tally, through any elimination within the round.
pub proof fn lemma_absent_stays_absent(bs: Seq<BallotView>, x: Seq<char>, t: Seq<char>)
    requires
        !appears(bs, t),
    ensures
        !appears(eliminate(bs, x), t),
        count_first(t, eliminate(bs, x)) == 0,
{
    if appears(eliminate(bs, x), t) {
        lemma_eliminate_appears(bs, x, t);
    }
    if count_first(t, eliminate(bs, x)) > 0 {
        lemma_count_first_appears(t, eliminate(bs, x));
        lemma_eliminate_appears(bs, x, t);
    }
}

/// The ranking grows by pushes only, never repeats an entry, and stops
/// once it could exceed the candidate count plus one.
pub proof fn lemma_rank_rounds_props(
    cands: Seq<Seq<char>>,
    orig: Seq<BallotView>,
    ranking: Seq<Seq<char>>,
)
    requires
        ranking.no_duplicates(),
    ensures
        rank_rounds(cands, orig, ranking).no_duplicates(),
        rank_rounds(cands, orig, ranking).len() <= if ranking.len() > cands.len() {
            ranking.len() as int
        } else {
            cands.len() + 1int
        },
        ranking.is_prefix_of(rank_rounds(cands, orig, ranking)),
    decreases cands.len() + 1 - ranking.len(),
{
    if ranking.len() > cands.len() {
    } else {
        let working = rebuild(orig, ranking);
        if working.len() == 0 {
        } else {
            match round_spec(cands, working).0 {
                None => {},
                Some(w) => {
                    lemma_round_winner_appears(cands, working);
                    if ranking.contains(w) {
                        lemma_rebuild_excludes(orig, ranking, w);
                    }
                    assert(!ranking.contains(w));
                    let r2 = ranking.push(w);
                    assert forall|i: int, j: int|
                        0 <= i < r2.len() && 0 <= j < r2.len() && i != j implies r2[i]
                        != r2[j] by {
                        if i < ranking.len() && j < ranking.len() {
                        } else if i < ranking.len() {
                            assert(ranking[i] == r2[i]);
                        } else if j < ranking.len() {
                            assert(ranking[j] == r2[j]);
                        }
                    }
                    lemma_rank_rounds_props(cands, orig, r2);
                },
            }
        }
    }
}

/// The tabulator's output never exceeds the candidate count plus one and
/// contains no duplicate candidate, for every ballot set.
pub proof fn lemma_full_ranking_bounded(cands: Seq<Seq<char>>, orig: Seq<BallotView>)
    ensures
        full_ranking(cands, orig).len() <= cands.len() + 1,
        full_ranking(cands, orig).no_duplicates(),
{
    lemma_rank_rounds_props(cands, orig, Seq::<Seq<char>>::empty());
}

/// Two distinct names cannot together outnumber the counted votes.
pub proof fn lemma_two_counts(a: Seq<char>, b: Seq<char>, bs: Seq<BallotView>)
    requires
        a != b,
    ensures
        count_first(a, bs) + count_first(b, bs) <= count_active(bs),
    decreases bs.len(),
{
    if bs.len() > 0 {
        lemma_two_counts(a, b, bs.drop_last());
    }
}

proof fn lemma_filter_keep_all(s: Seq<Seq<char>>, ranked: Seq<Seq<char>>)
    requires
        ranked.len() == 0,
    ensures
        s.filter(|c: Seq<char>| !ranked.contains(c)) == s,
    decreases s.len(),
{
    reveal(Seq::filter);
    if s.len() > 0 {
        lemma_filter_keep_all(s.drop_last(), ranked);
        assert(s.filter(|c: Seq<char>| !ranked.contains(c)) =~= s);
    } else {
        assert(s.filter(|c: Seq<char>| !ranked.contains(c)) =~= s);
    }
}

proof fn lemma_drop_exhausted_counts(bs: Seq<BallotView>, name: Seq<char>)
    ensures
        count_first(name, bs.filter(|b: BallotView| b.choices.len() > 0)) == count_first(
            name,
            bs,
        ),
        count_active(bs.filter(|b: BallotView| b.choices.len() > 0)) == count_active(bs),
    decreases bs.len(),
{
    reveal(Seq::filter);
    if bs.len() > 0 {
        lemma_drop_exhausted_counts(bs.drop_last(), name);
        let f = bs.filter(|b: BallotView| b.choices.len() > 0);
        let fd = bs.drop_last().filter(|b: BallotView| b.choices.len() > 0);
        if bs.last().choices.len() > 0 {
            assert(f == fd.push(bs.last()));
            assert(f.drop_last() =~= fd);
            assert(f.last() == bs.last());
        }
    }
}

/// Rebuilding with an empty ranking changes no first-preference count and
/// no active-ballot total.
pub proof fn lemma_rebuild_empty_counts(orig: Seq<BallotView>, name: Seq<char>)
    ensures
        count_first(name, rebuild(orig, Seq::<Seq<char>>::empty())) == count_first(name, orig),
        count_active(rebuild(orig, Seq::<Seq<char>>::empty())) == count_active(orig),
    decreases orig.len(),
{
    let ranked = Seq::<Seq<char>>::empty();
    let mapped = orig.map_values(|b: BallotView| strip_ranked(b, ranked));
    assert forall|i: int| 0 <= i < orig.len() implies mapped[i] == orig[i] by {
        lemma_filter_keep_all(orig[i].choices, ranked);
        assert(strip_ranked(orig[i], ranked) =~= orig[i]);
    }
    assert(mapped =~= orig);
    lemma_drop_exhausted_counts(orig, name);
}

/// If a single candidate holds a strict majority of first preferences
/// among all ballots initially, that candidate is ranked first.
pub proof fn lemma_initial_majority_ranked_first(
    cands: Seq<Seq<char>>,
    orig: Seq<BallotView>,
    j: int,
)
    requires
        strictly_sorted(cands),
        ballots_ok(orig, cands),
        0 <= j < cands.len(),
        count_first(cands[j], orig) > count_active(orig) / 2,
    ensures
        full_ranking(cands, orig).len() > 0,
        full_ranking(cands, orig)[0] == cands[j],
{
    let empty = Seq::<Seq<char>>::empty();
    let w0 = rebuild(orig, empty);
    lemma_rebuild_empty_counts(orig, cands[j]);
    let total = count_active(w0);
    let cj = count_first(cands[j], w0);
    assert(cj > total / 2);
    assert(cj >= 1);
    assert(total >= 1) by {
        lemma_count_first_le_active(cands[j], w0);
    }
    assert(w0.len() > 0) by {
        lemma_count_first_le_active(cands[j], w0);
    }
    assert forall|k: int| 0 <= k < cands.len() && k != j implies !is_majority(cands, w0, k) by {
        lemma_sorted_distinct(cands, j, k);
        lemma_two_counts(cands[k], cands[j], w0);
        lemma_rebuild_empty_counts(orig, cands[k]);
        assert(count_first(cands[k], w0) + cj <= total);
    }
    lemma_majority_scan(cands, w0, 0);
    let m = majority_index(cands, w0);
    assert(m < cands.len()) by {
        if m == cands.len() {
            assert(!is_majority(cands, w0, j));
        }
    }
    assert(m == j) by {
        if m != j {
            assert(!is_majority(cands, w0, m));
        }
    }
    assert(round_spec(cands, w0).0 == Some(cands[j]));
    let r1 = empty.push(cands[j]);
    assert(full_ranking(cands, orig) == rank_rounds(cands, orig, r1));
    assert(r1.no_duplicates());
    lemma_rank_rounds_props(cands, orig, r1);
    assert(rank_rounds(cands, orig, r1)[0] == r1[0]);
}

} // verus!
