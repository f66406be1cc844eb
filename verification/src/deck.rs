use vstd::prelude::*;
use vstd::multiset::Multiset;
use crate::rng::{lcg_spec, seeded_index, RandomSource};

verus! {

broadcast use
    vstd::seq_lib::group_to_multiset_ensures,
    vstd::multiset::group_multiset_axioms;

/// The deck before shuffling: four copies of each of the eight ranks
/// `7, 8, ..., 14`, in ascending order.
pub open spec fn full_deck() -> Seq<u8> {
    Seq::new(32, |i: int| (7 + i / 4) as u8)
}

/// How many copies of rank `v` the first `n` cards of the unshuffled deck
/// hold: none outside the eight ranks, and for rank `v` at most the four
/// copies that sit at positions `(v - 7) * 4` up to `(v - 7) * 4 + 3`.
spec fn rank_copies_by(v: u8, n: int) -> int {
    if 7 <= v <= 14 {
        let lo = (v - 7) * 4;
        if n <= lo {
            0
        } else if n >= lo + 4 {
            4
        } else {
            n - lo
        }
    } else {
        0
    }
}

proof fn lemma_full_deck_take_count(v: u8, n: int)
    requires
        0 <= n <= 32,
    ensures
        full_deck().take(n).to_multiset().count(v) == rank_copies_by(v, n),
    decreases n,
{
    if n == 0 {
        assert(full_deck().take(0) =~= Seq::<u8>::empty());
        assert(full_deck().take(0).to_multiset().len() == 0);
        assert(full_deck().take(0).to_multiset() =~= Multiset::<u8>::empty());
    } else {
        lemma_full_deck_take_count(v, n - 1);
        assert(full_deck().take(n) =~= full_deck().take(n - 1).push(full_deck()[n - 1]));
    }
}

/// Deck composition: the full deck holds exactly four copies of each of the
/// eight ranks 7 through 14, and no card of any other value.
pub proof fn lemma_full_deck_count(v: u8)
    ensures
        7 <= v <= 14 ==> full_deck().to_multiset().count(v) == 4,
        !(7 <= v <= 14) ==> full_deck().to_multiset().count(v) == 0,
{
    lemma_full_deck_take_count(v, 32);
    assert(full_deck().take(32) =~= full_deck());
}

/// Swapping two entries of a sequence leaves its multiset unchanged.
proof fn lemma_swap_preserves_multiset<T>(s: Seq<T>, i: int, j: int)
    requires
        0 <= i < s.len(),
        0 <= j < s.len(),
    ensures
        s.update(i, s[j]).update(j, s[i]).to_multiset() == s.to_multiset(),
{
    let s1 = s.update(i, s[j]);
    let s2 = s1.update(j, s[i]);
    if i == j {
        assert(s2 =~= s);
    } else {
        assert(s1[j] == s[j]);
        assert(s.contains(s[i]));
        assert(s1.contains(s[j]));
        assert(s2.to_multiset() =~= s.to_multiset());
    }
}

/// A sequence with the entries at `i` and `j` exchanged.
pub open spec fn swapped<T>(s: Seq<T>, i: int, j: int) -> Seq<T> {
    s.update(i, s[j]).update(j, s[i])
}

/// The in-place shuffle run from index `i` down to 1 on a seeded source at
/// `state`: at each index the entry is exchanged with one drawn at or
/// below it.  Yields the rearranged sequence and the state left behind.
pub open spec fn shuffle_from<T>(cards: Seq<T>, state: u64, i: nat) -> (Seq<T>, u64)
    decreases i,
{
    if i == 0 {
        (cards, state)
    } else {
        let j = seeded_index(state, (i + 1) as usize);
        shuffle_from(swapped(cards, i as int, j as int), lcg_spec(state), (i - 1) as nat)
    }
}

/// What the shuffle makes of `cards` when drawing from a seeded source at
/// `state`: the full run from the last index, and a no-op for a sequence
/// of length at most one.
pub open spec fn shuffled<T>(cards: Seq<T>, state: u64) -> (Seq<T>, u64) {
    if cards.len() <= 1 {
        (cards, state)
    } else {
        shuffle_from(cards, state, (cards.len() - 1) as nat)
    }
}

/// Rearrange `cards` in place: iterate from the last index down, each time
/// swapping the current entry with one drawn at or below it.  With a
/// uniform source this is the fair in-place shuffle; with a seeded source
/// the result is exactly `shuffled` of the old contents and state.  The
/// contents are only rearranged, and a sequence of length at most one is
/// left as it is, with no draw made.
pub fn shuffle<T: Copy>(cards: &mut Vec<T>, rng: &mut RandomSource)
    ensures
        final(cards)@.len() == old(cards)@.len(),
        final(cards)@.to_multiset() == old(cards)@.to_multiset(),
        old(cards)@.len() <= 1 ==> final(cards)@ == old(cards)@,
        old(cards)@.len() <= 1 ==> *final(rng) == *old(rng),
        *old(rng) is System ==> *final(rng) == *old(rng),
        ({
            match *old(rng) {
                RandomSource::System => true,
                RandomSource::Seeded { state } => {
                    &&& final(cards)@ == shuffled(old(cards)@, state).0
                    &&& *final(rng) == (RandomSource::Seeded {
                        state: shuffled(old(cards)@, state).1,
                    })
                },
            }
        }),
{
    let n = cards.len();
    if n <= 1 {
        return ;
    }
    let mut i: usize = n - 1;
    while 1 <= i
        invariant
            i < n,
            n == cards@.len(),
            cards@.to_multiset() == old(cards)@.to_multiset(),
            *old(rng) is System ==> *rng == *old(rng),
            ({
                match *old(rng) {
                    RandomSource::System => true,
                    RandomSource::Seeded { state } => {
                        &&& *rng is Seeded
                        &&& shuffle_from(old(cards)@, state, (n - 1) as nat) == shuffle_from(
                            cards@,
                            crate::rng::state_of(*rng),
                            i as nat,
                        )
                    },
                }
            }),
        decreases i,
    {
        let ghost prev = cards@;
        let ghost st = crate::rng::state_of(*rng);
        let j = rng.below(i + 1);
        let ci = cards[i];
        let cj = cards[j];
        proof {
            lemma_swap_preserves_multiset(cards@, i as int, j as int);
        }
        cards.set(i, cj);
        cards.set(j, ci);
        proof {
            if *old(rng) is Seeded {
                assert(j == seeded_index(st, ((i as nat + 1) as usize)));
                assert(cards@ == swapped(prev, i as int, j as int));
                assert(shuffle_from(prev, st, i as nat) == shuffle_from(
                    cards@,
                    crate::rng::state_of(*rng),
                    (i - 1) as nat,
                ));
            }
        }
        i = i - 1;
    }
}

/// Build the 32-card deck — four copies of each of the ranks 7 through 14 —
/// and shuffle it.  The result holds exactly the cards of `full_deck`, in
/// whatever order the source drew; with a seeded source, in exactly the
/// order `shuffled` gives for its state.
pub fn generate_cards(rng: &mut RandomSource) -> (cards: Vec<u8>)
    ensures
        cards@.len() == 32,
        cards@.to_multiset() == full_deck().to_multiset(),
        *old(rng) is System ==> *final(rng) == *old(rng),
        ({
            match *old(rng) {
                RandomSource::System => true,
                RandomSource::Seeded { state } => {
                    &&& cards@ == shuffled(full_deck(), state).0
                    &&& *final(rng) == (RandomSource::Seeded {
                        state: shuffled(full_deck(), state).1,
                    })
                },
            }
        }),
{
    let mut cards: Vec<u8> = Vec::new();
    let mut rank: u8 = 7;
    while rank <= 14
        invariant
            7 <= rank <= 15,
            cards@.len() == (rank - 7) * 4,
            forall|k: int| 0 <= k < cards@.len() ==> cards@[k] == (7 + k / 4) as u8,
        decreases 15 - rank,
    {
        let mut copies: u8 = 0;
        while copies < 4
            invariant
                7 <= rank <= 14,
                copies <= 4,
                cards@.len() == (rank - 7) * 4 + copies,
                forall|k: int| 0 <= k < cards@.len() ==> cards@[k] == (7 + k / 4) as u8,
            decreases 4 - copies,
        {
            cards.push(rank);
            copies = copies + 1;
        }
        rank = rank + 1;
    }
    assert(cards@ =~= full_deck());
    shuffle(&mut cards, rng);
    cards
}

/// Generate a shuffled deck and split it exactly in half: the first sixteen
/// cards become player A's pile, the last sixteen player B's, each keeping
/// the shuffled order.  Together the two piles hold exactly the cards of
/// `full_deck`; with a seeded source the deal is a function of the state.
pub fn deal(rng: &mut RandomSource) -> (piles: (Vec<u8>, Vec<u8>))
    ensures
        piles.0@.len() == 16,
        piles.1@.len() == 16,
        piles.0@.to_multiset().add(piles.1@.to_multiset()) == full_deck().to_multiset(),
        *old(rng) is System ==> *final(rng) == *old(rng),
        ({
            match *old(rng) {
                RandomSource::System => true,
                RandomSource::Seeded { state } => {
                    &&& piles.0@ == shuffled(full_deck(), state).0.take(16)
                    &&& piles.1@ == shuffled(full_deck(), state).0.skip(16)
                    &&& *final(rng) == (RandomSource::Seeded {
                        state: shuffled(full_deck(), state).1,
                    })
                },
            }
        }),
{
    let cards = generate_cards(rng);
    let mut pile_a: Vec<u8> = Vec::new();
    let mut pile_b: Vec<u8> = Vec::new();
    let mut i: usize = 0;
    while i < 16
        invariant
            i <= 16,
            cards@.len() == 32,
            pile_a@ == cards@.subrange(0, i as int),
        decreases 16 - i,
    {
        pile_a.push(cards[i]);
        assert(pile_a@ =~= cards@.subrange(0, i + 1));
        i = i + 1;
    }
    let mut j: usize = 16;
    while j < 32
        invariant
            16 <= j <= 32,
            cards@.len() == 32,
            pile_b@ == cards@.subrange(16, j as int),
        decreases 32 - j,
    {
        pile_b.push(cards[j]);
        assert(pile_b@ =~= cards@.subrange(16, j + 1));
        j = j + 1;
    }
    proof {
        assert(cards@ =~= pile_a@ + pile_b@);
        vstd::seq_lib::lemma_multiset_commutative(pile_a@, pile_b@);
    }
    (pile_a, pile_b)
}

} // verus!
