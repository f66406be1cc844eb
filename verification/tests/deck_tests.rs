use war_sim::deck::{deal, generate_cards, shuffle};
use war_sim::rng::RandomSource;

fn sorted(mut v: Vec<u8>) -> Vec<u8> {
    v.sort();
    v
}

fn expected_deck() -> Vec<u8> {
    let mut deck = Vec::new();
    for rank in 7u8..=14 {
        for _ in 0..4 {
            deck.push(rank);
        }
    }
    deck
}

#[test]
fn shuffle_is_a_no_op_on_empty_and_single() {
    let mut rng = RandomSource::seeded(1);
    let mut empty: Vec<u8> = vec![];
    shuffle(&mut empty, &mut rng);
    assert_eq!(empty, Vec::<u8>::new());
    let mut single = vec![42u8];
    shuffle(&mut single, &mut rng);
    assert_eq!(single, vec![42u8]);
}

#[test]
fn shuffle_only_rearranges() {
    let mut rng = RandomSource::seeded(7);
    let original: Vec<u8> = (1u8..=10).collect();
    let mut cards = original.clone();
    shuffle(&mut cards, &mut rng);
    assert_eq!(cards.len(), original.len());
    assert_eq!(sorted(cards), original);
}

#[test]
fn shuffle_reaches_every_permutation_of_three() {
    let mut rng = RandomSource::seeded(11);
    let mut seen: Vec<Vec<u8>> = Vec::new();
    for _ in 0..1000 {
        let mut cards = vec![1u8, 2, 3];
        shuffle(&mut cards, &mut rng);
        assert_eq!(sorted(cards.clone()), vec![1, 2, 3]);
        if !seen.contains(&cards) {
            seen.push(cards);
        }
    }
    assert_eq!(seen.len(), 6, "all six orderings of three cards should occur");
}

#[test]
fn generate_cards_holds_four_of_each_rank() {
    let mut rng = RandomSource::seeded(3);
    let cards = generate_cards(&mut rng);
    assert_eq!(cards.len(), 32);
    assert_eq!(sorted(cards), expected_deck());
}

#[test]
fn deal_yields_sixteen_cards_each_and_the_whole_deck() {
    for seed in 0u64..20 {
        let mut rng = RandomSource::seeded(seed);
        let (pile_a, pile_b) = deal(&mut rng);
        assert_eq!(pile_a.len(), 16);
        assert_eq!(pile_b.len(), 16);
        let mut union = pile_a.clone();
        union.extend(&pile_b);
        assert_eq!(sorted(union), expected_deck());
    }
}

#[test]
fn seeded_source_is_reproducible_and_bounded() {
    let mut first = RandomSource::seeded(99);
    let mut second = RandomSource::seeded(99);
    for _ in 0..100 {
        let a = first.below(10);
        let b = second.below(10);
        assert_eq!(a, b);
        assert!(a < 10);
    }
}

#[test]
fn system_source_stays_below_the_bound() {
    let mut rng = RandomSource::system();
    for bound in [1usize, 2, 7, 100] {
        for _ in 0..50 {
            let r = rng.below(bound);
            assert!(r < bound);
        }
    }
}
