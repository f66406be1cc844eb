use war_sim::game::{collect_cards, maybe_winner, round, war, Player};
use war_sim::rng::RandomSource;
use war_sim::sim::{game, play_rounds, simulate};

fn sorted(mut v: Vec<u8>) -> Vec<u8> {
    v.sort();
    v
}

#[test]
fn maybe_winner_checks_player_a_first() {
    let empty: Vec<u8> = vec![];
    let some: Vec<u8> = vec![9];
    assert_eq!(maybe_winner(&empty, &some), Some(Player::B));
    assert_eq!(maybe_winner(&some, &empty), Some(Player::A));
    assert_eq!(maybe_winner(&empty, &empty), Some(Player::B));
    assert_eq!(maybe_winner(&some, &some), None);
}

#[test]
fn round_on_empty_pile_declares_the_opponent_without_drawing() {
    let mut rng = RandomSource::seeded(5);
    let mut empty: Vec<u8> = vec![];
    let mut pile = vec![9u8, 8];
    assert_eq!(round(&mut empty, &mut pile, &mut rng), Some(Player::B));
    assert_eq!(empty, Vec::<u8>::new());
    assert_eq!(pile, vec![9, 8]);
    assert_eq!(round(&mut pile, &mut empty, &mut rng), Some(Player::A));
    assert_eq!(pile, vec![9, 8]);
    assert_eq!(empty, Vec::<u8>::new());
}

#[test]
fn round_gives_both_cards_to_the_higher_rank() {
    let mut rng = RandomSource::seeded(5);
    // Tops are the vector ends: player A plays 8, player B plays 7.
    let mut pile_a = vec![10u8, 8];
    let mut pile_b = vec![9u8, 7];
    let result = round(&mut pile_a, &mut pile_b, &mut rng);
    assert_eq!(result, None);
    assert_eq!(pile_a.len(), 3);
    assert_eq!(pile_b, vec![9]);
    // The winner's pile ends with its old cards on top and the two played
    // cards, in either order, at the bottom.
    assert_eq!(pile_a[2], 10);
    assert_eq!(sorted(vec![pile_a[0], pile_a[1]]), vec![7, 8]);
}

#[test]
fn round_conserves_the_cards_when_no_tie_occurs() {
    let mut rng = RandomSource::seeded(6);
    let mut pile_a = vec![10u8, 8];
    let mut pile_b = vec![9u8, 7];
    let result = round(&mut pile_a, &mut pile_b, &mut rng);
    assert_eq!(result, None);
    let mut union = pile_a.clone();
    union.extend(&pile_b);
    assert_eq!(sorted(union), vec![7, 8, 9, 10]);
}

#[test]
fn war_spares_the_exhausted_pile_and_names_the_other_player() {
    let mut rng = RandomSource::seeded(2);
    // Tie on 9; player A then holds a single card against player B's four.
    let mut pile_a = vec![5u8, 9];
    let mut pile_b = vec![4u8, 4, 4, 4, 9];
    let result = round(&mut pile_a, &mut pile_b, &mut rng);
    assert_eq!(result, Some(Player::B));
    assert_eq!(pile_a, Vec::<u8>::new());
    // One commit each before the elimination check hit; player B concedes
    // nothing and takes both stacks, so all seven cards stay in play.
    assert_eq!(pile_b, vec![9, 5, 9, 4, 4, 4, 4]);
}

#[test]
fn war_moves_both_stacks_to_the_bottom_of_the_winner() {
    let mut rng = RandomSource::seeded(2);
    let mut pile_a = vec![9u8, 5, 5];
    let mut bet_a: Vec<u8> = vec![];
    let mut pile_b = vec![2u8, 2, 2];
    let mut bet_b: Vec<u8> = vec![];
    let result = war(&mut pile_a, &mut bet_a, &mut pile_b, &mut bet_b, &mut rng);
    // Face-up cards after three commits: 9 against 2 — player A takes all
    // six cards; the war ends with no elimination and drained stacks.
    assert_eq!(result, None);
    assert_eq!(pile_a, vec![5, 5, 9, 2, 2, 2]);
    assert_eq!(pile_b, Vec::<u8>::new());
    assert_eq!(bet_a, Vec::<u8>::new());
    assert_eq!(bet_b, Vec::<u8>::new());
}

#[test]
fn chained_ties_terminate_by_exhaustion() {
    let mut rng = RandomSource::seeded(8);
    // Every card equal: each escalation ties again until player A's pile
    // runs out, at most a handful of chained wars for sixteen cards.
    let mut pile_a = vec![7u8; 16];
    let mut pile_b = vec![7u8; 16];
    let result = round(&mut pile_a, &mut pile_b, &mut rng);
    assert_eq!(result, Some(Player::B));
    assert_eq!(pile_a, Vec::<u8>::new());
    // The accumulated stacks drain to the survivor: every card stays in play.
    assert_eq!(pile_b, vec![7u8; 32]);
}

#[test]
fn a_tied_round_conserves_every_card() {
    let mut rng = RandomSource::seeded(13);
    // Tops tie on 9; the war that follows is decided on 5 against 4.
    let mut pile_a = vec![5u8, 5, 5, 10, 9];
    let mut pile_b = vec![4u8, 4, 4, 8, 9];
    let result = round(&mut pile_a, &mut pile_b, &mut rng);
    assert_eq!(result, None);
    // The tied nines open the bet stacks; player A takes both stacks, in
    // commit order, at the bottom of its pile.  All ten cards stay in play.
    assert_eq!(pile_a, vec![9, 10, 5, 5, 9, 8, 4, 4, 5]);
    assert_eq!(pile_b, vec![4]);
}

#[test]
fn collect_cards_keeps_the_stack_order_for_more_than_two() {
    let mut rng = RandomSource::seeded(4);
    let mut winner = vec![1u8];
    let bet_a = vec![2u8, 3];
    let bet_b = vec![4u8];
    collect_cards(&mut winner, &bet_a, &bet_b, &mut rng);
    assert_eq!(winner, vec![2, 3, 4, 1]);
}

#[test]
fn collect_cards_reshuffles_exactly_two() {
    let mut rng = RandomSource::seeded(4);
    let mut winner: Vec<u8> = vec![];
    let bet_a = vec![5u8];
    let bet_b = vec![6u8];
    collect_cards(&mut winner, &bet_a, &bet_b, &mut rng);
    assert_eq!(sorted(winner), vec![5, 6]);
}

#[test]
fn reaching_the_cap_reports_unfinished_without_failing() {
    let mut rng = RandomSource::seeded(9);
    let mut pile_a = vec![8u8];
    let mut pile_b = vec![7u8];
    // A cap of zero plays no round at all.
    assert!(!play_rounds(&mut pile_a, &mut pile_b, 0, &mut rng));
    assert_eq!(pile_a, vec![8]);
    assert_eq!(pile_b, vec![7]);
    // One round empties player B's pile, but the elimination would only be
    // observed by the next round, which the cap forbids: still unfinished.
    assert!(!play_rounds(&mut pile_a, &mut pile_b, 1, &mut rng));
    assert_eq!(sorted(pile_a), vec![7, 8]);
    assert_eq!(pile_b, Vec::<u8>::new());
}

#[test]
fn a_decided_start_finishes_within_any_positive_cap() {
    let mut rng = RandomSource::seeded(9);
    let mut pile_a: Vec<u8> = vec![];
    let mut pile_b = vec![7u8];
    assert!(play_rounds(&mut pile_a, &mut pile_b, 1, &mut rng));
    assert_eq!(pile_a, Vec::<u8>::new());
    assert_eq!(pile_b, vec![7]);
}

#[test]
fn a_full_trial_runs_to_a_verdict() {
    let mut first = RandomSource::seeded(31);
    let mut second = RandomSource::seeded(31);
    assert_eq!(game(&mut first), game(&mut second));
}

#[test]
fn simulation_is_reproducible_from_a_seed() {
    let mut first = RandomSource::seeded(12345);
    let count_first = simulate(100, &mut first);
    let mut second = RandomSource::seeded(12345);
    let count_second = simulate(100, &mut second);
    assert!(count_first <= 100);
    assert_eq!(count_first, count_second);
}
