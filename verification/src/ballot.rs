//! The ballot data model and the line tokenizer.
//!
//! A raw line is comma-delimited: the field before the first comma is an
//! opaque ballot identifier (never a candidate), the remaining fields are
//! ranked preferences in order, with empty fields dropped.

use vstd::prelude::*;

use crate::order::{lex_lt, str_eq, str_lt, strictly_sorted};
use crate::order::{lemma_lex_lt_transitive, lemma_lex_lt_trichotomy};

verus! {

/// One voter's ballot: an opaque identifier and an ordered preference list.
pub struct Ballot {
    pub id: String,
    pub choices: Vec<String>,
}

/// The mathematical model of a ballot.
pub ghost struct BallotView {
    pub id: Seq<char>,
    pub choices: Seq<Seq<char>>,
}

impl View for Ballot {
    type V = BallotView;

    open spec fn view(&self) -> BallotView {
        BallotView { id: self.id@, choices: self.choices.deep_view() }
    }
}

impl DeepView for Ballot {
    type V = BallotView;

    open spec fn deep_view(&self) -> BallotView {
        self.view()
    }
}

/// Every choice token of this ballot is a known candidate.
pub open spec fn ballot_ok(b: BallotView, cands: Seq<Seq<char>>) -> bool {
    forall|j: int| 0 <= j < b.choices.len() ==> cands.contains(#[trigger] b.choices[j])
}

/// Every choice token of every ballot is a known candidate.
pub open spec fn ballots_ok(bs: Seq<BallotView>, cands: Seq<Seq<char>>) -> bool {
    forall|i: int| 0 <= i < bs.len() ==> ballot_ok(#[trigger] bs[i], cands)
}

/// The set of distinct choice tokens observed across a sequence of ballots.
pub open spec fn all_tokens(bs: Seq<BallotView>) -> Set<Seq<char>>
    decreases bs.len(),
{
    if bs.len() == 0 {
        Set::<Seq<char>>::empty()
    } else {
        all_tokens(bs.drop_last()) + bs.last().choices.to_set()
    }
}

/// The comma-separated fields of a line, in order. A line always has at
/// least one field; a trailing field is captured without a closing comma.
pub open spec fn fields_of(s: Seq<char>) -> Seq<Seq<char>>
    decreases s.len(),
{
    if s.len() == 0 {
        seq![Seq::<char>::empty()]
    } else if s[0] == ',' {
        seq![Seq::<char>::empty()] + fields_of(s.skip(1))
    } else {
        let rest = fields_of(s.skip(1));
        seq![seq![s[0]] + rest[0]] + rest.skip(1)
    }
}

/// The identifier of a line: everything before the first comma.
pub open spec fn line_id(s: Seq<char>) -> Seq<char> {
    fields_of(s)[0]
}

/// The preference tokens of a line: the fields after the identifier, in
/// order, with empty fields dropped.
pub open spec fn line_choices(s: Seq<char>) -> Seq<Seq<char>> {
    fields_of(s).skip(1).filter(|f: Seq<char>| f.len() > 0)
}

/// The model of the ballot parsed from a line.
pub open spec fn parsed_ballot(line: Seq<char>) -> BallotView {
    BallotView { id: line_id(line), choices: line_choices(line) }
}

proof fn lemma_fields_of_len(s: Seq<char>)
    ensures
        fields_of(s).len() >= 1,
    decreases s.len(),
{
    if s.len() > 0 && s[0] != ',' {
        lemma_fields_of_len(s.skip(1));
    }
}

/// Splitting at the first delimiter: if no comma occurs before `k` and `k`
/// is either a comma or the end, the fields are the head field up to `k`
/// followed by the fields of the remainder.
proof fn lemma_fields_of_split(s: Seq<char>, k: int)
    requires
        0 <= k <= s.len(),
        forall|j: int| 0 <= j < k ==> s[j] != ',',
        k < s.len() ==> s[k] == ',',
    ensures
        k == s.len() ==> fields_of(s) == seq![s],
        k < s.len() ==> fields_of(s) == seq![s.subrange(0, k)] + fields_of(s.skip(k + 1)),
    decreases k,
{
    if k == 0 {
        if s.len() == 0 {
            assert(fields_of(s) == seq![Seq::<char>::empty()]);
            assert(s =~= Seq::<char>::empty());
        } else {
            assert(s[0] == ',');
            assert(s.subrange(0, 0) =~= Seq::<char>::empty());
        }
    } else {
        assert(s.len() > 0 && s[0] != ',');
        let t = s.skip(1);
        lemma_fields_of_split(t, k - 1);
        let rest = fields_of(t);
        lemma_fields_of_len(t);
        if k == s.len() {
            assert(rest == seq![t]);
            assert(fields_of(s) == seq![seq![s[0]] + t] + rest.skip(1));
            assert(seq![s[0]] + t =~= s);
            assert(rest.skip(1) =~= Seq::<Seq<char>>::empty());
            assert(fields_of(s) =~= seq![s]);
        } else {
            assert(rest == seq![t.subrange(0, k - 1)] + fields_of(t.skip(k)));
            assert(rest[0] == t.subrange(0, k - 1));
            assert(seq![s[0]] + t.subrange(0, k - 1) =~= s.subrange(0, k));
            assert(rest.skip(1) =~= fields_of(t.skip(k)));
            assert(t.skip(k) =~= s.skip(k + 1));
            assert(fields_of(s) =~= seq![s.subrange(0, k)] + fields_of(s.skip(k + 1)));
        }
    }
}

/// Filtering a one-field sequence keeps the field exactly when it is
/// non-empty.
proof fn lemma_filter_singleton(f: Seq<char>)
    ensures
        f.len() > 0 ==> seq![f].filter(|x: Seq<char>| x.len() > 0) == seq![f],
        f.len() == 0 ==> seq![f].filter(|x: Seq<char>| x.len() > 0) == Seq::<Seq<char>>::empty(),
{
    reveal_with_fuel(Seq::filter, 2);
    assert(seq![f].drop_last() =~= Seq::<Seq<char>>::empty());
    assert(seq![f].last() == f);
    if f.len() > 0 {
        assert(seq![f].filter(|x: Seq<char>| x.len() > 0) =~= seq![f]);
    }
}

/// Returns the position of the first comma at or after `start`, or the
/// length of the line if there is none.
fn find_delim(line: &str, start: usize) -> (k: usize)
    requires
        start <= line@.len(),
    ensures
        start <= k <= line@.len(),
        forall|j: int| start <= j < k ==> line@[j] != ',',
        k < line@.len() ==> line@[k as int] == ',',
{
    let len = line.unicode_len();
    let mut i: usize = start;
    while i < len
        invariant
            start <= i <= len,
            len == line@.len(),
            forall|j: int| start <= j < i ==> line@[j] != ',',
        decreases len - i,
    {
        if line.get_char(i) == ',' {
            return i;
        }
        i = i + 1;
    }
    i
}

/// Parses one raw line into a ballot. No line is rejected: a malformed or
/// short line simply yields fewer (or no) choices.
pub fn parse_line(line: &str) -> (b: Ballot)
    ensures
        b@ == parsed_ballot(line@),
{
    let len = line.unicode_len();
    let comma = find_delim(line, 0);
    let id = line.substring_char(0, comma).to_owned();
    let mut choices: Vec<String> = Vec::new();
    proof {
        lemma_fields_of_split(line@, comma as int);
    }
    if comma == len {
        proof {
            assert(line@.subrange(0, comma as int) =~= line@);
            assert(fields_of(line@).skip(1) =~= Seq::<Seq<char>>::empty());
            assert(line_choices(line@) =~= choices.deep_view());
        }
        return Ballot { id, choices };
    }
    assert(fields_of(line@).skip(1) =~= fields_of(line@.skip(comma + 1)));
    let ghost goal = line_choices(line@);
    let mut start = comma + 1;
    loop
        invariant_except_break
            goal == choices.deep_view() + fields_of(line@.subrange(start as int, len as int))
                .filter(|f: Seq<char>| f.len() > 0),
        invariant
            comma + 1 <= start <= len,
            len == line@.len(),
        ensures
            goal == choices.deep_view(),
        decreases len - start,
    {
        let end = find_delim(line, start);
        let ghost tail = line@.subrange(start as int, len as int);
        let ghost f0 = tail.subrange(0, end - start);
        proof {
            assert(forall|j: int| 0 <= j < end - start ==> tail[j] != ',');
            assert(end < len ==> tail[end - start] == ',');
            lemma_fields_of_split(tail, end - start);
            lemma_filter_singleton(f0);
            assert(f0 =~= line@.subrange(start as int, end as int));
        }
        let ghost pre = choices.deep_view();
        if end > start {
            let tok = line.substring_char(start, end).to_owned();
            choices.push(tok);
            proof {
                assert(choices.deep_view() =~= pre.push(f0));
                assert(pre.push(f0) =~= pre + seq![f0]);
            }
        }
        if end == len {
            proof {
                assert(tail =~= f0);
                assert(fields_of(tail) == seq![f0]);
                if end > start {
                    assert(goal =~= choices.deep_view());
                } else {
                    assert(f0.len() == 0);
                    assert(goal =~= choices.deep_view());
                }
            }
            break;
        }
        proof {
            let rest = tail.skip(end - start + 1);
            assert(fields_of(tail) == seq![f0] + fields_of(rest));
            Seq::<Seq<char>>::filter_distributes_over_add(
                seq![f0],
                fields_of(rest),
                |f: Seq<char>| f.len() > 0,
            );
            assert(rest =~= line@.subrange(end + 1, len as int));
        }
        start = end + 1;
    }
    let b = Ballot { id, choices };
    proof {
        assert(b@.id == line@.subrange(0, comma as int));
    }
    b
}

/// Inserts a token into a sorted candidate list unless it is already
/// present, keeping the list strictly sorted (set semantics).
pub fn insert_candidate(cands: &mut Vec<String>, tok: &String)
    requires
        strictly_sorted(old(cands).deep_view()),
    ensures
        strictly_sorted(final(cands).deep_view()),
        final(cands).deep_view().to_set() == old(cands).deep_view().to_set().insert(tok@),
{
    let ghost pre = cands.deep_view();
    let n = cands.len();
    let mut j: usize = 0;
    loop
        invariant
            j <= n,
            n == cands.len(),
            cands.deep_view() == pre,
            forall|k: int| 0 <= k < j ==> lex_lt(pre[k], tok@),
        ensures
            j <= n,
            cands.deep_view() == pre,
            forall|k: int| 0 <= k < j ==> lex_lt(pre[k], tok@),
            j < n ==> !lex_lt(pre[j as int], tok@),
        decreases n - j,
    {
        if j == n {
            break;
        }
        if str_lt(cands[j].as_str(), tok.as_str()) {
            j = j + 1;
        } else {
            break;
        }
    }
    if j < n && str_eq(&cands[j], tok) {
        proof {
            assert(pre.to_set().contains(tok@));
            assert(pre.to_set() =~= pre.to_set().insert(tok@));
        }
        return;
    }
    proof {
        if j < n {
            lemma_lex_lt_trichotomy(tok@, pre[j as int]);
        }
    }
    cands.insert(j, tok.clone());
    proof {
        let post = cands.deep_view();
        assert(post =~= pre.insert(j as int, tok@));
        pre.insert_ensures(j as int, tok@);
        assert forall|k: int| j <= k < pre.len() implies lex_lt(tok@, pre[k]) by {
            if k > j {
                lemma_lex_lt_transitive(tok@, pre[j as int], pre[k]);
            }
        }
        assert forall|i1: int, i2: int| 0 <= i1 < i2 < post.len() implies lex_lt(
            post[i1],
            post[i2],
        ) by {
            if i1 < j && i2 > j {
                lemma_lex_lt_transitive(pre[i1], tok@, pre[i2 - 1]);
            }
        }
        assert forall|x: Seq<char>| post.to_set().contains(x) implies pre.to_set().insert(
            tok@,
        ).contains(x) by {
            let i = choose|i: int| 0 <= i < post.len() && post[i] == x;
            if i < j {
                assert(pre[i] == x);
            } else if i > j {
                assert(pre[i - 1] == x);
            }
        }
        assert forall|x: Seq<char>| pre.to_set().insert(tok@).contains(x) implies post.to_set()
            .contains(x) by {
            if x == tok@ {
                assert(post[j as int] == x);
            } else {
                let i = choose|i: int| 0 <= i < pre.len() && pre[i] == x;
                if i < j {
                    assert(post[i] == x);
                } else {
                    assert(post[i + 1] == x);
                }
            }
        }
        assert(post.to_set() =~= pre.to_set().insert(tok@));
    }
}

/// Every token of every ballot is a member of the observed token set.
proof fn lemma_all_tokens_member(bs: Seq<BallotView>, i: int, j: int)
    requires
        0 <= i < bs.len(),
        0 <= j < bs[i].choices.len(),
    ensures
        all_tokens(bs).contains(bs[i].choices[j]),
    decreases bs.len(),
{
    if i == bs.len() - 1 {
        assert(bs.last().choices.contains(bs[i].choices[j]));
    } else {
        lemma_all_tokens_member(bs.drop_last(), i, j);
        assert(bs.drop_last()[i] == bs[i]);
    }
}

/// Parses every line into a ballot and accumulates the sorted set of
/// distinct candidates observed across all ballots.
pub fn parse_ballots(lines: &Vec<String>) -> (r: (Vec<Ballot>, Vec<String>))
    ensures
        r.0.deep_view().len() == lines@.len(),
        forall|i: int| 0 <= i < lines@.len() ==> r.0.deep_view()[i] == parsed_ballot(
            lines.deep_view()[i],
        ),
        strictly_sorted(r.1.deep_view()),
        r.1.deep_view().to_set() == all_tokens(r.0.deep_view()),
        ballots_ok(r.0.deep_view(), r.1.deep_view()),
{
    let mut ballots: Vec<Ballot> = Vec::new();
    let mut cands: Vec<String> = Vec::new();
    let mut i: usize = 0;
    while i < lines.len()
        invariant
            i <= lines.len(),
            ballots.deep_view().len() == i,
            forall|k: int| 0 <= k < i ==> ballots.deep_view()[k] == parsed_ballot(
                lines.deep_view()[k],
            ),
            strictly_sorted(cands.deep_view()),
            cands.deep_view().to_set() == all_tokens(ballots.deep_view()),
        decreases lines.len() - i,
    {
        let b = parse_line(lines[i].as_str());
        let mut t: usize = 0;
        while t < b.choices.len()
            invariant
                t <= b.choices.len(),
                strictly_sorted(cands.deep_view()),
                cands.deep_view().to_set() == all_tokens(ballots.deep_view()) + b@.choices
                    .subrange(0, t as int).to_set(),
            decreases b.choices.len() - t,
        {
            insert_candidate(&mut cands, &b.choices[t]);
            proof {
                assert(b@.choices.subrange(0, t + 1) =~= b@.choices.subrange(0, t as int)
                    + seq![b@.choices[t as int]]);
                Seq::lemma_to_set_insert_commutes(
                    b@.choices.subrange(0, t as int),
                    b@.choices[t as int],
                );
                assert(cands.deep_view().to_set() =~= all_tokens(ballots.deep_view()) + b@.choices
                    .subrange(0, t + 1).to_set());
            }
            t = t + 1;
        }
        let ghost pre = ballots.deep_view();
        ballots.push(b);
        proof {
            assert(ballots.deep_view() =~= pre.push(b@));
            assert(ballots.deep_view().drop_last() =~= pre);
            assert(b@.choices.subrange(0, b@.choices.len() as int) =~= b@.choices);
        }
        i = i + 1;
    }
    proof {
        let bv = ballots.deep_view();
        let cv = cands.deep_view();
        assert forall|bi: int| 0 <= bi < bv.len() implies ballot_ok(#[trigger] bv[bi], cv) by {
            assert forall|bj: int| 0 <= bj < bv[bi].choices.len() implies cv.contains(
                #[trigger] bv[bi].choices[bj],
            ) by {
                lemma_all_tokens_member(bv, bi, bj);
                assert(cv.to_set().contains(bv[bi].choices[bj]));
            }
        }
    }
    (ballots, cands)
}

} // verus!
