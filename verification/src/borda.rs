//! The positional ("Borda-style") scorer.
//!
//! Independently of the runoff tabulator, and always over the original,
//! unmodified ballots: a global per-position weight table, a per-candidate
//! table of position occurrence counts, and a weighted total per candidate.

use vstd::prelude::*;

use crate::ballot::{Ballot, BallotView};
use crate::irv::appears;
use crate::order::{lex_le, lex_lt, str_eq, str_lt};
use crate::order::{lemma_lex_lt_transitive, lemma_lex_lt_trichotomy};
use vstd::multiset::Multiset;
use vstd::seq_lib::lemma_multiset_commutative;

verus! {

/// Number of ballots holding a choice at position `i`.
pub open spec fn count_with_position(i: int, bs: Seq<BallotView>) -> nat
    decreases bs.len(),
{
    if bs.len() == 0 {
        0
    } else {
        count_with_position(i, bs.drop_last()) + if bs.last().choices.len() > i {
            1nat
        } else {
            0nat
        }
    }
}

/// Number of ballots on which `name` occupies position `i`.
pub open spec fn count_at_position(name: Seq<char>, i: int, bs: Seq<BallotView>) -> nat
    decreases bs.len(),
{
    if bs.len() == 0 {
        0
    } else {
        count_at_position(name, i, bs.drop_last()) + if 0 <= i < bs.last().choices.len()
            && bs.last().choices[i] == name {
            1nat
        } else {
            0nat
        }
    }
}

/// The weight table entry for position `i` with `n` candidates: every
/// ballot holding a choice at position `i` contributes weight `n - i - 1`,
/// independent of which candidate occupies the position.
pub open spec fn table_entry(n: int, i: int, bs: Seq<BallotView>) -> int {
    count_with_position(i, bs) * (n - i - 1)
}

/// Dot product of two equally indexed value tables, over the first `k`
/// entries of each.
pub open spec fn weighted_sum(a: Seq<u64>, b: Seq<u64>) -> int
    decreases a.len(),
{
    if a.len() == 0 || b.len() == 0 {
        0
    } else {
        weighted_sum(a.drop_last(), b.drop_last()) + a.last() * b.last()
    }
}

/// The Borda total: the dot product of a candidate's position counts with
/// the weight table, guarded to zero when the two tables disagree in
/// length.
pub open spec fn borda_total_spec(a: Seq<u64>, b: Seq<u64>) -> int {
    if a.len() == b.len() {
        weighted_sum(a, b)
    } else {
        0
    }
}

/// The candidate's Borda score over the first `k` positions.
pub open spec fn score_upto(name: Seq<char>, n: int, bs: Seq<BallotView>, k: int) -> int
    decreases k,
{
    if k <= 0 {
        0
    } else {
        score_upto(name, n, bs, k - 1) + count_at_position(name, k - 1, bs) * table_entry(
            n,
            k - 1,
            bs,
        )
    }
}

/// The candidate's full Borda score with `n` candidates.
pub open spec fn borda_score(name: Seq<char>, n: int, bs: Seq<BallotView>) -> int {
    score_upto(name, n, bs, n)
}

/// Computes the position weight table: entry `i` is the number of ballots
/// with a choice at position `i`, multiplied by `n - i - 1` where `n` is
/// the number of candidates. Every entry is non-negative.
#[verifier::loop_isolation(false)]
pub fn borda_count_scores(choices: &Vec<String>, votes: &Vec<Ballot>) -> (r: Vec<u64>)
    requires
        votes@.len() * choices@.len() <= u64::MAX,
    ensures
        r@.len() == choices@.len(),
        forall|i: int|
            0 <= i < choices@.len() ==> r@[i] as int == table_entry(
                choices@.len() as int,
                i,
                votes.deep_view(),
            ),
{
    let ghost all = votes.deep_view();
    let n = choices.len();
    let v = votes.len();
    let mut table: Vec<u64> = Vec::new();
    let mut i: usize = 0;
    while i < n
        invariant
            i <= n,
            table@.len() == i,
            forall|k: int| 0 <= k < i ==> table@[k] as int == table_entry(n as int, k, all),
        decreases n - i,
    {
        let mut c: u64 = 0;
        let mut t: usize = 0;
        proof {
            assert(all.take(0) =~= Seq::<BallotView>::empty());
        }
        while t < v
            invariant
                t <= v,
                c <= t,
                c as int == count_with_position(i as int, all.take(t as int)),
            decreases v - t,
        {
            proof {
                assert(all.take(t + 1).drop_last() =~= all.take(t as int));
                assert(all.take(t + 1).last() == all[t as int]);
                assert(all[t as int].choices.len() == votes@[t as int].choices@.len());
            }
            if votes[t].choices.len() > i {
                c = c + 1;
            }
            t = t + 1;
        }
        proof {
            assert(all.take(v as int) =~= all);
        }
        let w = (n - i - 1) as u64;
        proof {
            assert(c as int * w as int <= v as int * n as int) by (nonlinear_arith)
                requires
                    c as int <= v as int,
                    w as int <= n as int,
                    0 <= c as int,
                    0 <= w as int,
                    0 <= v as int,
            ;
        }
        table.push(c * w);
        i = i + 1;
    }
    table
}

/// Computes a candidate's dense position-count table: entry `i` is the
/// number of ballots on which the candidate occupies position `i`, with
/// zero entries for unobserved positions, up to `num_positions` entries.
#[verifier::loop_isolation(false)]
pub fn position_counts(candidate: &String, votes: &Vec<Ballot>, num_positions: usize) -> (r: Vec<
    u64,
>)
    ensures
        r@.len() == num_positions,
        forall|i: int|
            0 <= i < num_positions ==> r@[i] as int == count_at_position(
                candidate@,
                i,
                votes.deep_view(),
            ),
{
    let ghost all = votes.deep_view();
    let v = votes.len();
    let mut counts: Vec<u64> = Vec::new();
    let mut i: usize = 0;
    while i < num_positions
        invariant
            i <= num_positions,
            counts@.len() == i,
            forall|k: int|
                0 <= k < i ==> counts@[k] as int == count_at_position(candidate@, k, all),
        decreases num_positions - i,
    {
        let mut c: u64 = 0;
        let mut t: usize = 0;
        proof {
            assert(all.take(0) =~= Seq::<BallotView>::empty());
        }
        while t < v
            invariant
                t <= v,
                c <= t,
                c as int == count_at_position(candidate@, i as int, all.take(t as int)),
            decreases v - t,
        {
            proof {
                assert(all.take(t + 1).drop_last() =~= all.take(t as int));
                assert(all.take(t + 1).last() == all[t as int]);
                assert(all[t as int].choices.len() == votes@[t as int].choices@.len());
            }
            if i < votes[t].choices.len() {
                proof {
                    assert(all[t as int].choices[i as int] == votes@[t as int].choices@[
                        i as int]@);
                }
                if str_eq(&votes[t].choices[i], candidate) {
                    c = c + 1;
                }
            }
            t = t + 1;
        }
        proof {
            assert(all.take(v as int) =~= all);
        }
        counts.push(c);
        i = i + 1;
    }
    counts
}

/// A prefix of the dot product never exceeds the whole, and the whole is
/// non-negative: every term is a product of non-negative values.
proof fn lemma_weighted_sum_prefix(a: Seq<u64>, b: Seq<u64>, k: int)
    requires
        a.len() == b.len(),
        0 <= k <= a.len(),
    ensures
        0 <= weighted_sum(a.take(k), b.take(k)) <= weighted_sum(a, b),
    decreases a.len() - k,
{
    if k == a.len() {
        assert(a.take(k) =~= a);
        assert(b.take(k) =~= b);
        lemma_weighted_sum_nonneg(a, b);
    } else {
        lemma_weighted_sum_prefix(a, b, k + 1);
        lemma_weighted_sum_nonneg(a.take(k), b.take(k));
        assert(a.take(k + 1).drop_last() =~= a.take(k));
        assert(b.take(k + 1).drop_last() =~= b.take(k));
        assert(a.take(k + 1).last() == a[k]);
        assert(b.take(k + 1).last() == b[k]);
        assert(a[k] * b[k] >= 0) by (nonlinear_arith)
            requires
                a[k] >= 0,
                b[k] >= 0,
        ;
    }
}

proof fn lemma_weighted_sum_nonneg(a: Seq<u64>, b: Seq<u64>)
    ensures
        weighted_sum(a, b) >= 0,
    decreases a.len(),
{
    if a.len() > 0 && b.len() > 0 {
        lemma_weighted_sum_nonneg(a.drop_last(), b.drop_last());
        assert(a.last() * b.last() >= 0) by (nonlinear_arith)
            requires
                a.last() >= 0,
                b.last() >= 0,
        ;
    }
}

/// Computes the Borda total of a position-count table against the weight
/// table. If the two tables disagree in length the total is zero: a
/// defensive guard, preserved deliberately.
pub fn borda_total(counts: &Vec<u64>, table: &Vec<u64>) -> (r: u64)
    requires
        weighted_sum(counts@, table@) <= u64::MAX,
    ensures
        r as int == borda_total_spec(counts@, table@),
{
    if counts.len() != table.len() {
        return 0;
    }
    let n = counts.len();
    let mut acc: u64 = 0;
    let mut i: usize = 0;
    proof {
        assert(counts@.take(0) =~= Seq::<u64>::empty());
        assert(table@.take(0) =~= Seq::<u64>::empty());
    }
    #[verifier::loop_isolation(false)]
    while i < n
        invariant
            i <= n,
            acc as int == weighted_sum(counts@.take(i as int), table@.take(i as int)),
        decreases n - i,
    {
        proof {
            assert(counts@.take(i + 1).drop_last() =~= counts@.take(i as int));
            assert(table@.take(i + 1).drop_last() =~= table@.take(i as int));
            lemma_weighted_sum_prefix(counts@, table@, i + 1);
            lemma_weighted_sum_prefix(counts@.take(i + 1), table@.take(i + 1), i as int);
            assert(counts@.take(i + 1).take(i as int) =~= counts@.take(i as int));
            assert(table@.take(i + 1).take(i as int) =~= table@.take(i as int));
        }
        acc = acc + counts[i] * table[i];
        i = i + 1;
    }
    proof {
        assert(counts@.take(n as int) =~= counts@);
        assert(table@.take(n as int) =~= table@);
    }
    acc
}

/// The dot product of tables holding a candidate's position counts and the
/// weight-table entries equals the candidate's Borda score.
proof fn lemma_weighted_sum_is_score(
    a: Seq<u64>,
    b: Seq<u64>,
    name: Seq<char>,
    n: int,
    bs: Seq<BallotView>,
    k: int,
)
    requires
        0 <= k <= a.len(),
        a.len() == b.len(),
        forall|i: int| 0 <= i < a.len() ==> a[i] as int == count_at_position(name, i, bs),
        forall|i: int| 0 <= i < b.len() ==> b[i] as int == table_entry(n, i, bs),
    ensures
        weighted_sum(a.take(k), b.take(k)) == score_upto(name, n, bs, k),
    decreases k,
{
    if k == 0 {
        assert(a.take(0) =~= Seq::<u64>::empty());
    } else {
        lemma_weighted_sum_is_score(a, b, name, n, bs, k - 1);
        assert(a.take(k).drop_last() =~= a.take(k - 1));
        assert(b.take(k).drop_last() =~= b.take(k - 1));
    }
}

proof fn lemma_weighted_sum_bound(a: Seq<u64>, b: Seq<u64>, ab: int, bb: int)
    requires
        a.len() == b.len(),
        0 <= ab,
        0 <= bb,
        forall|i: int| 0 <= i < a.len() ==> a[i] <= ab,
        forall|i: int| 0 <= i < b.len() ==> b[i] <= bb,
    ensures
        weighted_sum(a, b) <= a.len() * ab * bb,
    decreases a.len(),
{
    if a.len() == 0 {
    } else {
        lemma_weighted_sum_bound(a.drop_last(), b.drop_last(), ab, bb);
        assert(weighted_sum(a, b) == weighted_sum(a.drop_last(), b.drop_last()) + a.last()
            * b.last());
        assert(a.last() * b.last() <= ab * bb) by (nonlinear_arith)
            requires
                0 <= a.last() <= ab,
                0 <= b.last() <= bb,
        ;
        assert((a.len() - 1) * ab * bb + ab * bb == a.len() * ab * bb) by (nonlinear_arith);
    }
}

proof fn lemma_count_at_position_le(name: Seq<char>, i: int, bs: Seq<BallotView>)
    ensures
        count_at_position(name, i, bs) <= bs.len(),
        count_with_position(i, bs) <= bs.len(),
    decreases bs.len(),
{
    if bs.len() > 0 {
        lemma_count_at_position_le(name, i, bs.drop_last());
    }
}

/// Computes each candidate's position-count table and Borda total, in
/// candidate order: the mapping from candidate to score.
#[verifier::loop_isolation(false)]
pub fn candidate_scores(choices: &Vec<String>, votes: &Vec<Ballot>) -> (r: Vec<(String, u64)>)
    requires
        votes@.len() * choices@.len() < 0x1_0000_0000,
    ensures
        r@.len() == choices@.len(),
        forall|k: int|
            0 <= k < choices@.len() ==> (#[trigger] r@[k]).0@ == choices.deep_view()[k],
        forall|k: int|
            0 <= k < choices@.len() ==> (#[trigger] r@[k]).1 as int == borda_score(
                choices.deep_view()[k],
                choices@.len() as int,
                votes.deep_view(),
            ),
{
    let ghost all = votes.deep_view();
    let ghost nn = choices@.len() as int;
    let ghost vv = votes@.len() as int;
    let n = choices.len();
    let table = borda_count_scores(choices, votes);
    let mut out: Vec<(String, u64)> = Vec::new();
    let mut k: usize = 0;
    while k < n
        invariant
            k <= n,
            out@.len() == k,
            forall|j: int| 0 <= j < k ==> (#[trigger] out@[j]).0@ == choices.deep_view()[j],
            forall|j: int|
                0 <= j < k ==> (#[trigger] out@[j]).1 as int == borda_score(
                    choices.deep_view()[j],
                    nn,
                    all,
                ),
        decreases n - k,
    {
        let ghost name = choices.deep_view()[k as int];
        let pc = position_counts(&choices[k], votes, n);
        proof {
            assert forall|i: int| 0 <= i < n implies pc@[i] <= vv by {
                lemma_count_at_position_le(name, i, all);
            }
            assert forall|i: int| 0 <= i < n implies table@[i] <= vv * nn by {
                lemma_count_at_position_le(name, i, all);
                if nn - i - 1 >= 0 {
                    assert(count_with_position(i, all) * (nn - i - 1) <= vv * nn)
                        by (nonlinear_arith)
                        requires
                            0 <= count_with_position(i, all) <= vv,
                            0 <= nn - i - 1 <= nn,
                            0 <= vv,
                    ;
                } else {
                    assert(count_with_position(i, all) * (nn - i - 1) <= 0)
                        by (nonlinear_arith)
                        requires
                            0 <= count_with_position(i, all),
                            nn - i - 1 < 0,
                    ;
                    assert(0 <= vv * nn) by (nonlinear_arith)
                        requires
                            0 <= vv,
                            0 <= nn,
                    ;
                }
            }
            lemma_weighted_sum_bound(pc@, table@, vv, vv * nn);
            assert(nn * vv * (vv * nn) <= 0xFFFF_FFFFi64 * 0xFFFF_FFFFi64)
                by (nonlinear_arith)
                requires
                    0 <= vv,
                    0 <= nn,
                    vv * nn < 0x1_0000_0000,
            ;
            assert(weighted_sum(pc@, table@) <= u64::MAX);
        }
        let total = borda_total(&pc, &table);
        proof {
            lemma_weighted_sum_is_score(pc@, table@, name, nn, all, nn);
            assert(pc@.take(nn) =~= pc@);
            assert(table@.take(nn) =~= table@);
        }
        let tok = choices[k].clone();
        out.push((tok, total));
        k = k + 1;
    }
    out
}

/// A candidate that occurs on no ballot has an all-zero position-count
/// table and a zero Borda total, whatever the weight table holds.
pub proof fn lemma_unseen_candidate(name: Seq<char>, n: int, bs: Seq<BallotView>, i: int)
    requires
        !appears(bs, name),
    ensures
        count_at_position(name, i, bs) == 0,
        score_upto(name, n, bs, i) == 0,
    decreases bs.len(), i,
{
    assert forall|j: int| true implies count_at_position(name, j, bs) == 0 by {
        lemma_unseen_count(name, j, bs);
    }
    if i > 0 {
        lemma_unseen_candidate(name, n, bs, i - 1);
        assert(count_at_position(name, i - 1, bs) * table_entry(n, i - 1, bs) == 0)
            by (nonlinear_arith)
            requires
                count_at_position(name, i - 1, bs) == 0,
        ;
    }
}

proof fn lemma_unseen_count(name: Seq<char>, i: int, bs: Seq<BallotView>)
    requires
        !appears(bs, name),
    ensures
        count_at_position(name, i, bs) == 0,
    decreases bs.len(),
{
    if bs.len() > 0 {
        assert(!appears(bs.drop_last(), name)) by {
            if appears(bs.drop_last(), name) {
                let (x, y) = choose|x: int, y: int|
                    0 <= x < bs.drop_last().len() && 0 <= y < bs.drop_last()[x].choices.len()
                        && #[trigger] bs.drop_last()[x].choices[y] == name;
                assert(bs[x].choices[y] == name);
            }
        }
        lemma_unseen_count(name, i, bs.drop_last());
        if 0 <= i < bs.last().choices.len() && bs.last().choices[i] == name {
            assert(bs[bs.len() - 1].choices[i] == name);
        }
    }
}

/// Inserting into a sequence adds exactly one occurrence to its multiset.
proof fn lemma_insert_multiset<A>(s: Seq<A>, i: int, x: A)
    requires
        0 <= i <= s.len(),
    ensures
        s.insert(i, x).to_multiset() == s.to_multiset().insert(x),
{
    broadcast use vstd::seq_lib::group_to_multiset_ensures;

    let t = s.insert(i, x);
    assert(t == s.subrange(0, i).push(x) + s.subrange(i, s.len() as int));
    lemma_multiset_commutative(s.subrange(0, i).push(x), s.subrange(i, s.len() as int));
    lemma_multiset_commutative(s.subrange(0, i), s.subrange(i, s.len() as int));
    assert(s =~= s.subrange(0, i) + s.subrange(i, s.len() as int));
    assert(s.subrange(0, i).push(x).to_multiset() =~= s.subrange(0, i).to_multiset().insert(x));
    assert(t.to_multiset() =~= s.to_multiset().insert(x));
}

/// Sorts position-indexed count pairs by ascending position index,
/// preserving the pairs as a multiset.
pub fn sort_hashmap_by_key(pairs: Vec<(usize, u64)>) -> (r: Vec<(usize, u64)>)
    ensures
        r@.to_multiset() == pairs@.to_multiset(),
        forall|i: int, j: int| 0 <= i < j < r@.len() ==> (#[trigger] r@[i]).0 <= (#[trigger] r@[
            j]).0,
{
    let mut rest = pairs;
    let mut out: Vec<(usize, u64)> = Vec::new();
    proof {
        pairs@.to_multiset_ensures();
        out@.to_multiset_ensures();
        vstd::multiset::lemma_multiset_empty_len(out@.to_multiset());
        assert(out@.to_multiset() =~= Multiset::<(usize, u64)>::empty());
    }
    while !rest.is_empty()
        invariant
            out@.to_multiset().add(rest@.to_multiset()) == pairs@.to_multiset(),
            forall|i: int, j: int|
                0 <= i < j < out@.len() ==> (#[trigger] out@[i]).0 <= (#[trigger] out@[j]).0,
        decreases rest@.len(),
    {
        let ghost pre_rest = rest@;
        let x = rest.remove(0);
        proof {
            pre_rest.to_multiset_ensures();
            assert(rest@.to_multiset() =~= pre_rest.to_multiset().remove(x));
            assert(pre_rest.contains(x));
            assert(pre_rest.to_multiset().count(x) > 0);
        }
        let n = out.len();
        let mut pos: usize = 0;
        while pos < n
            invariant
                pos <= n,
                n == out@.len(),
                forall|k: int| 0 <= k < pos ==> (#[trigger] out@[k]).0 <= x.0,
            ensures
                pos <= n,
                forall|k: int| 0 <= k < pos ==> (#[trigger] out@[k]).0 <= x.0,
                pos < n ==> out@[pos as int].0 > x.0,
            decreases n - pos,
        {
            if out[pos].0 <= x.0 {
                pos = pos + 1;
            } else {
                break;
            }
        }
        let ghost pre_out = out@;
        out.insert(pos, x);
        proof {
            let p = pos as int;
            lemma_insert_multiset(pre_out, p, x);
            assert(out@.to_multiset().add(rest@.to_multiset()) =~= pairs@.to_multiset());
            assert forall|i: int, j: int|
                0 <= i < j < out@.len() implies (#[trigger] out@[i]).0 <= (#[trigger] out@[
                j]).0 by {
                pre_out.insert_ensures(p, x);
                if j > p {
                    assert(out@[j] == pre_out[j - 1]);
                    assert(x.0 <= pre_out[j - 1].0);
                }
                if i < p {
                    assert(out@[i] == pre_out[i]);
                    assert(pre_out[i].0 <= x.0);
                }
            }
        }
    }
    proof {
        rest@.to_multiset_ensures();
        vstd::multiset::lemma_multiset_empty_len(rest@.to_multiset());
        assert(rest@.to_multiset() =~= Multiset::<(usize, u64)>::empty());
        assert(out@.to_multiset().add(rest@.to_multiset()) =~= out@.to_multiset());
    }
    out
}

/// The view of a (name, score) pair sequence.
pub open spec fn pair_views(s: Seq<(String, u64)>) -> Seq<(Seq<char>, u64)> {
    s.map_values(|p: (String, u64)| (p.0@, p.1))
}

/// `a` may stand before `b` in the score ranking: strictly higher score,
/// or equal score and alphabetically no later name.
pub open spec fn score_order(a: (Seq<char>, u64), b: (Seq<char>, u64)) -> bool {
    a.1 > b.1 || (a.1 == b.1 && lex_le(a.0, b.0))
}

proof fn lemma_score_order_trans(a: (Seq<char>, u64), b: (Seq<char>, u64), c: (Seq<char>, u64))
    requires
        score_order(a, b),
        score_order(b, c),
    ensures
        score_order(a, c),
{
    if a.1 == b.1 && b.1 == c.1 {
        if lex_lt(a.0, b.0) && lex_lt(b.0, c.0) {
            lemma_lex_lt_transitive(a.0, b.0, c.0);
        }
    }
}

/// Sorts (candidate, score) pairs by descending score, breaking score
/// ties by ascending candidate name, preserving the pairs as a multiset.
pub fn sort_hashmap_by_string_key(pairs: Vec<(String, u64)>) -> (r: Vec<(String, u64)>)
    ensures
        pair_views(r@).to_multiset() == pair_views(pairs@).to_multiset(),
        forall|i: int, j: int|
            0 <= i < j < r@.len() ==> score_order(pair_views(r@)[i], pair_views(r@)[j]),
{
    let mut rest = pairs;
    let mut out: Vec<(String, u64)> = Vec::new();
    proof {
        pair_views(pairs@).to_multiset_ensures();
        pair_views(out@).to_multiset_ensures();
        vstd::multiset::lemma_multiset_empty_len(pair_views(out@).to_multiset());
        assert(pair_views(out@).len() == 0);
        assert(pair_views(out@).to_multiset() =~= Multiset::<(Seq<char>, u64)>::empty());
    }
    while !rest.is_empty()
        invariant
            pair_views(out@).to_multiset().add(pair_views(rest@).to_multiset()) == pair_views(
                pairs@,
            ).to_multiset(),
            forall|i: int, j: int|
                0 <= i < j < out@.len() ==> score_order(
                    #[trigger] pair_views(out@)[i],
                    #[trigger] pair_views(out@)[j],
                ),
        decreases rest@.len(),
    {
        let ghost pre_rest = rest@;
        let x = rest.remove(0);
        let ghost xv = (x.0@, x.1);
        proof {
            pair_views(pre_rest).to_multiset_ensures();
            assert(pair_views(rest@) =~= pair_views(pre_rest).remove(0));
            assert(pair_views(pre_rest)[0] == xv);
            assert(pair_views(rest@).to_multiset() =~= pair_views(pre_rest).to_multiset()
                .remove(xv));
        }
        let n = out.len();
        let mut pos: usize = 0;
        while pos < n
            invariant
                pos <= n,
                n == out@.len(),
                xv == (x.0@, x.1),
                forall|k: int|
                    0 <= k < pos ==> score_order(#[trigger] pair_views(out@)[k], xv),
            ensures
                pos <= n,
                forall|k: int|
                    0 <= k < pos ==> score_order(#[trigger] pair_views(out@)[k], xv),
                pos < n ==> score_order(xv, pair_views(out@)[pos as int]),
            decreases n - pos,
        {
            let cmp_gt = out[pos].1 > x.1;
            let cmp_eq = out[pos].1 == x.1;
            let cmp_lt = str_lt(out[pos].0.as_str(), x.0.as_str());
            proof {
                                assert(cmp_lt == lex_lt(out@[pos as int].0@, x.0@));
                assert(pair_views(out@)[pos as int] == (out@[pos as int].0@, out@[pos as int].1));
            }
            if cmp_gt || (cmp_eq && cmp_lt) {
                proof {
                    assert(score_order(pair_views(out@)[pos as int], xv));
                }
                pos = pos + 1;
            } else {
                proof {
                    let pv = pair_views(out@)[pos as int];
                    if pv.1 == x.1 {
                        lemma_lex_lt_trichotomy(x.0@, pv.0);
                    }
                    assert(score_order(xv, pv));
                }
                break;
            }
        }
        let ghost pre_out = out@;
        out.insert(pos, x);
        proof {
            let p = pos as int;
            assert(pair_views(out@) =~= pair_views(pre_out).insert(p, xv));
            lemma_insert_multiset(pair_views(pre_out), p, xv);
            assert(pair_views(out@).to_multiset().add(pair_views(rest@).to_multiset())
                =~= pair_views(pairs@).to_multiset());
            assert forall|i: int, j: int|
                0 <= i < j < out@.len() implies score_order(
                #[trigger] pair_views(out@)[i],
                #[trigger] pair_views(out@)[j],
            ) by {
                pair_views(pre_out).insert_ensures(p, xv);
                if j > p {
                    assert(pair_views(out@)[j] == pair_views(pre_out)[j - 1]);
                    if p < n {
                        if j - 1 > p {
                            lemma_score_order_trans(
                                xv,
                                pair_views(pre_out)[p],
                                pair_views(pre_out)[j - 1],
                            );
                        }
                        assert(score_order(xv, pair_views(pre_out)[j - 1]));
                    }
                }
                if i < p {
                    assert(pair_views(out@)[i] == pair_views(pre_out)[i]);
                    assert(score_order(pair_views(pre_out)[i], xv));
                    if j > p {
                        lemma_score_order_trans(
                            pair_views(pre_out)[i],
                            xv,
                            pair_views(pre_out)[j - 1],
                        );
                    }
                }
            }
        }
    }
    proof {
        pair_views(rest@).to_multiset_ensures();
        vstd::multiset::lemma_multiset_empty_len(pair_views(rest@).to_multiset());
        assert(pair_views(rest@).to_multiset() =~= Multiset::<(Seq<char>, u64)>::empty());
        assert(pair_views(out@).to_multiset().add(pair_views(rest@).to_multiset())
            =~= pair_views(out@).to_multiset());
    }
    out
}

/// The candidate-to-score mapping, in candidate order.
pub open spec fn scores_model(cands: Seq<Seq<char>>, bs: Seq<BallotView>) -> Seq<
    (Seq<char>, u64),
> {
    Seq::new(
        cands.len(),
        |k: int| (cands[k], borda_score(cands[k], cands.len() as int, bs) as u64),
    )
}

/// The derived Borda ranking: every candidate with its Borda total, sorted
/// by descending total with ties broken by candidate name.
pub fn borda_ranking(choices: &Vec<String>, votes: &Vec<Ballot>) -> (r: Vec<(String, u64)>)
    requires
        votes@.len() * choices@.len() < 0x1_0000_0000,
    ensures
        pair_views(r@).to_multiset() == scores_model(
            choices.deep_view(),
            votes.deep_view(),
        ).to_multiset(),
        forall|i: int, j: int|
            0 <= i < j < r@.len() ==> score_order(
                #[trigger] pair_views(r@)[i],
                #[trigger] pair_views(r@)[j],
            ),
{
    let scores = candidate_scores(choices, votes);
    proof {
        assert(pair_views(scores@) =~= scores_model(choices.deep_view(), votes.deep_view()));
    }
    sort_hashmap_by_string_key(scores)
}

} // verus!
