use crab::ballot::{parse_ballots, parse_line, Ballot};
use crab::borda::{
    borda_count_scores, borda_ranking, borda_total, candidate_scores, position_counts,
    sort_hashmap_by_key, sort_hashmap_by_string_key,
};
use crab::irv::{rank_ballots, rebuild_ballots, run_round, tally_first_preferences};
use crab::order::{str_eq, str_lt};

fn lines(raw: &[&str]) -> Vec<String> {
    raw.iter().map(|s| s.to_string()).collect()
}

fn scenario_ballots() -> (Vec<Ballot>, Vec<String>) {
    parse_ballots(&lines(&["v1,A,B,C", "v2,A,C,B", "v3,B,A,C", "v4,C,B,A"]))
}

#[test]
fn parse_round_trip_drops_empty_interior_field() {
    let b = parse_line("id1,Alice,Bob,,Carol");
    assert_eq!(b.id, "id1");
    assert_eq!(b.choices, vec!["Alice".to_string(), "Bob".to_string(), "Carol".to_string()]);
}

#[test]
fn parse_line_without_delimiter_is_all_id() {
    let b = parse_line("loneidentifier");
    assert_eq!(b.id, "loneidentifier");
    assert!(b.choices.is_empty());
}

#[test]
fn parse_trailing_field_without_closing_delimiter() {
    let b = parse_line("id,A");
    assert_eq!(b.choices, vec!["A".to_string()]);
}

#[test]
fn parse_trailing_delimiter_adds_no_field() {
    let b = parse_line("id,A,");
    assert_eq!(b.choices, vec!["A".to_string()]);
}

#[test]
fn parse_empty_line_yields_empty_ballot() {
    let b = parse_line("");
    assert_eq!(b.id, "");
    assert!(b.choices.is_empty());
}

#[test]
fn parse_only_delimiters_yields_no_choices() {
    let b = parse_line("id,,,");
    assert_eq!(b.id, "id");
    assert!(b.choices.is_empty());
}

#[test]
fn candidates_are_sorted_and_distinct() {
    let (_, cands) = parse_ballots(&lines(&["v1,B,A", "v2,A,C", "v3,B"]));
    assert_eq!(cands, vec!["A".to_string(), "B".to_string(), "C".to_string()]);
}

#[test]
fn first_column_is_never_a_candidate() {
    let (_, cands) = parse_ballots(&lines(&["Zeta,A", "Yank,A"]));
    assert_eq!(cands, vec!["A".to_string()]);
}

#[test]
fn scenario_tally_first_preferences() {
    let (ballots, cands) = scenario_ballots();
    assert_eq!(cands, vec!["A".to_string(), "B".to_string(), "C".to_string()]);
    let (counts, total) = tally_first_preferences(&cands, &ballots);
    assert_eq!(counts, vec![2, 1, 1]);
    assert_eq!(total, 4);
}

#[test]
fn scenario_round_one_eliminates_b_then_elects_a() {
    // No majority at 2 of 4; the B/C tie at the minimum breaks
    // alphabetically, so B is eliminated, then A holds 3 of 4.
    let (ballots, cands) = scenario_ballots();
    let working = rebuild_ballots(&ballots, &Vec::new());
    let (winner, _) = run_round(&cands, working);
    assert_eq!(winner, Some("A".to_string()));
}

#[test]
fn scenario_full_ranking_has_three_distinct_entries() {
    let (ballots, cands) = scenario_ballots();
    let ranking = rank_ballots(&cands, &ballots);
    assert_eq!(ranking.len(), 3);
    for i in 0..ranking.len() {
        for j in 0..i {
            assert_ne!(ranking[i], ranking[j]);
        }
    }
    assert_eq!(ranking, vec!["A".to_string(), "C".to_string(), "B".to_string()]);
}

#[test]
fn initial_majority_candidate_is_ranked_first() {
    let (ballots, cands) = parse_ballots(&lines(&["1,X,Y", "2,X,Y", "3,Y,X"]));
    let ranking = rank_ballots(&cands, &ballots);
    assert_eq!(ranking[0], "X".to_string());
}

#[test]
fn empty_input_yields_empty_results() {
    let (ballots, cands) = parse_ballots(&Vec::new());
    assert!(cands.is_empty());
    let ranking = rank_ballots(&cands, &ballots);
    assert!(ranking.is_empty());
    let table = borda_count_scores(&cands, &ballots);
    assert!(table.is_empty());
}

#[test]
fn exhausted_ballots_only_yield_empty_ranking() {
    // Ballots exist but none carries a choice: the degenerate zero tally
    // must end the runoff without a winner and without dividing by zero.
    let (ballots, cands) = parse_ballots(&lines(&["id1,", "id2,,,"]));
    assert_eq!(ballots.len(), 2);
    assert!(cands.is_empty());
    let ranking = rank_ballots(&cands, &ballots);
    assert!(ranking.is_empty());
}

#[test]
fn ranking_bounded_with_repeated_tokens_in_one_ballot() {
    let (ballots, cands) = parse_ballots(&lines(&["1,A,A,B", "2,B,A"]));
    assert_eq!(cands, vec!["A".to_string(), "B".to_string()]);
    let ranking = rank_ballots(&cands, &ballots);
    assert!(ranking.len() <= cands.len() + 1);
    for i in 0..ranking.len() {
        for j in 0..i {
            assert_ne!(ranking[i], ranking[j]);
        }
    }
}

#[test]
fn weight_table_counts_ballots_per_position() {
    // Four ballots of three choices each with three candidates: position 0
    // weighs 2 on each ballot, position 1 weighs 1, position 2 weighs 0.
    let (ballots, cands) = scenario_ballots();
    let table = borda_count_scores(&cands, &ballots);
    assert_eq!(table, vec![8, 4, 0]);
}

#[test]
fn weight_table_with_short_ballots() {
    let (ballots, cands) = parse_ballots(&lines(&["1,A,B,C", "2,A", "3,B,C"]));
    // position 0: 3 ballots * 2; position 1: 2 ballots * 1; position 2: 1 * 0.
    let table = borda_count_scores(&cands, &ballots);
    assert_eq!(table, vec![6, 2, 0]);
}

#[test]
fn position_counts_per_candidate() {
    let (ballots, cands) = scenario_ballots();
    let a = "A".to_string();
    assert_eq!(position_counts(&a, &ballots, cands.len()), vec![2, 1, 1]);
    let b = "B".to_string();
    assert_eq!(position_counts(&b, &ballots, cands.len()), vec![1, 2, 1]);
}

#[test]
fn unseen_candidate_has_zero_counts_and_zero_total() {
    let (ballots, cands) = scenario_ballots();
    let z = "Z".to_string();
    let counts = position_counts(&z, &ballots, cands.len());
    assert_eq!(counts, vec![0, 0, 0]);
    let table = borda_count_scores(&cands, &ballots);
    assert_eq!(borda_total(&counts, &table), 0);
}

#[test]
fn borda_total_is_the_weighted_sum() {
    assert_eq!(borda_total(&vec![2, 1, 1], &vec![8, 4, 0]), 20);
}

#[test]
fn borda_total_length_mismatch_is_zero() {
    assert_eq!(borda_total(&vec![2, 1], &vec![8, 4, 0]), 0);
    assert_eq!(borda_total(&vec![2, 1, 1, 5], &vec![8, 4, 0]), 0);
}

#[test]
fn candidate_scores_in_candidate_order() {
    let (ballots, cands) = scenario_ballots();
    let scores = candidate_scores(&cands, &ballots);
    assert_eq!(
        scores,
        vec![("A".to_string(), 20), ("B".to_string(), 16), ("C".to_string(), 12)]
    );
}

#[test]
fn borda_ranking_sorts_by_descending_total() {
    let (ballots, cands) = scenario_ballots();
    let ranked = borda_ranking(&cands, &ballots);
    assert_eq!(
        ranked,
        vec![("A".to_string(), 20), ("B".to_string(), 16), ("C".to_string(), 12)]
    );
}

#[test]
fn borda_ranking_breaks_score_ties_by_name() {
    let (ballots, cands) = parse_ballots(&lines(&["1,A,B", "2,B,A"]));
    let ranked = borda_ranking(&cands, &ballots);
    assert_eq!(ranked, vec![("A".to_string(), 2), ("B".to_string(), 2)]);
}

#[test]
fn sort_by_key_orders_positions_ascending() {
    let sorted = sort_hashmap_by_key(vec![(2, 5), (0, 1), (1, 9)]);
    assert_eq!(sorted, vec![(0, 1), (1, 9), (2, 5)]);
}

#[test]
fn sort_by_string_key_orders_scores_descending_names_ascending() {
    let sorted = sort_hashmap_by_string_key(vec![
        ("B".to_string(), 3),
        ("A".to_string(), 5),
        ("C".to_string(), 3),
    ]);
    assert_eq!(
        sorted,
        vec![("A".to_string(), 5), ("B".to_string(), 3), ("C".to_string(), 3)]
    );
}

#[test]
fn string_order_is_lexicographic() {
    assert!(str_lt("Alice", "Bob"));
    assert!(!str_lt("Bob", "Alice"));
    assert!(str_lt("Ab", "Abc"));
    assert!(!str_lt("Abc", "Abc"));
    assert!(str_eq(&"same".to_string(), &"same".to_string()));
    assert!(!str_eq(&"same".to_string(), &"other".to_string()));
}

#[test]
fn ranked_candidate_never_reappears_in_later_tallies() {
    let (ballots, cands) = scenario_ballots();
    // After "A" is ranked, the rebuilt working set holds no occurrence of
    // "A", so its first-preference count is zero from then on.
    let working = rebuild_ballots(&ballots, &vec!["A".to_string()]);
    for b in &working {
        assert!(!b.choices.contains(&"A".to_string()));
    }
    let (counts, _total) = tally_first_preferences(&cands, &working);
    assert_eq!(counts[0], 0);
}
