use vstd::prelude::*;
use crate::deck::{deal, full_deck, shuffled};
use crate::game::{pile_pool, round, round_spec, Player};
use crate::rng::{state_of, RandomSource};

verus! {

/// Most rounds a single game may run before its trial is scored unfinished.
pub const ROUND_CAP: u32 = 999999;

/// Rounds played from the given piles and seeded state, up to `cap`: the
/// final piles, the state left behind, and whether an elimination was
/// reached within the cap.
pub open spec fn play_spec(a: Seq<u8>, b: Seq<u8>, state: u64, cap: nat) -> (
    Seq<u8>,
    Seq<u8>,
    u64,
    bool,
)
    decreases cap,
{
    if cap == 0 {
        (a, b, state, false)
    } else {
        let (a1, b1, st, w) = round_spec(a, b, state);
        if w != None::<Player> {
            (a1, b1, st, true)
        } else {
            play_spec(a1, b1, st, (cap - 1) as nat)
        }
    }
}

/// One whole trial from a seeded state: deal the shuffled deck sixteen and
/// sixteen, play up to `ROUND_CAP` rounds, and yield the verdict and the
/// state left behind.
pub open spec fn game_spec(state: u64) -> (bool, u64) {
    let (deck, st) = shuffled(full_deck(), state);
    let (fa, fb, st2, finished) = play_spec(deck.take(16), deck.skip(16), st, ROUND_CAP as nat);
    (finished, st2)
}

/// The finished-count and final state of `trials` seeded trials in a row.
pub open spec fn sim_spec(state: u64, trials: nat) -> (nat, u64)
    decreases trials,
{
    if trials == 0 {
        (0, state)
    } else {
        let (finished, st) = game_spec(state);
        let (count, st2) = sim_spec(st, (trials - 1) as nat);
        ((if finished {
            count + 1
        } else {
            count
        }), st2)
    }
}

/// Play rounds on the given piles until one player is eliminated or `cap`
/// rounds have been played.  `true` means the game finished: some round
/// reported an elimination, and a pile is empty at return; with a positive
/// cap, piles that start decided — one of them empty — always finish.
/// Reaching the cap is a normal outcome, not a fault: the trial is scored
/// unfinished, and a cap of zero plays no round at all.  The rounds neither
/// create nor destroy cards, and on a seeded source the whole run is
/// exactly `play_spec` of the initial piles and state.
pub fn play_rounds(
    player_a: &mut Vec<u8>,
    player_b: &mut Vec<u8>,
    cap: u32,
    rng: &mut RandomSource,
) -> (finished: bool)
    ensures
        finished ==> final(player_a)@.len() == 0 || final(player_b)@.len() == 0,
        cap > 0 && (old(player_a)@.len() == 0 || old(player_b)@.len() == 0) ==> finished,
        cap == 0 ==> !finished && final(player_a)@ == old(player_a)@ && final(player_b)@ == old(
            player_b,
        )@,
        pile_pool(final(player_a)@, final(player_b)@) == pile_pool(
            old(player_a)@,
            old(player_b)@,
        ),
        *old(rng) is System ==> *final(rng) == *old(rng),
        ({
            match *old(rng) {
                RandomSource::System => true,
                RandomSource::Seeded { state } => {
                    let (fa, fb, st, fin) = play_spec(
                        old(player_a)@,
                        old(player_b)@,
                        state,
                        cap as nat,
                    );
                    &&& finished == fin
                    &&& final(player_a)@ == fa
                    &&& final(player_b)@ == fb
                    &&& *final(rng) == (RandomSource::Seeded { state: st })
                },
            }
        }),
{
    let mut i: u32 = 0;
    while i < cap
        invariant
            i <= cap,
            i == 0 ==> player_a@ == old(player_a)@ && player_b@ == old(player_b)@,
            i > 0 ==> old(player_a)@.len() > 0 && old(player_b)@.len() > 0,
            pile_pool(player_a@, player_b@) == pile_pool(old(player_a)@, old(player_b)@),
            *old(rng) is System ==> *rng == *old(rng),
            ({
                match *old(rng) {
                    RandomSource::System => true,
                    RandomSource::Seeded { state } => {
                        &&& *rng is Seeded
                        &&& play_spec(old(player_a)@, old(player_b)@, state, cap as nat)
                            == play_spec(player_a@, player_b@, state_of(*rng), (cap - i) as nat)
                    },
                }
            }),
        decreases cap - i,
    {
        let ghost prev_a = player_a@;
        let ghost prev_b = player_b@;
        let ghost prev_st = state_of(*rng);
        let winner = round(player_a, player_b, rng);
        proof {
            if *old(rng) is Seeded {
                assert(play_spec(prev_a, prev_b, prev_st, (cap - i) as nat) == (
                    if round_spec(prev_a, prev_b, prev_st).3 != None::<Player> {
                        (player_a@, player_b@, state_of(*rng), true)
                    } else {
                        play_spec(player_a@, player_b@, state_of(*rng), (cap - i - 1) as nat)
                    }
                ));
            }
        }
        if let Some(w) = winner {
            proof {
                assert(w is A || w is B);
                assert(winner == Some(Player::A) || winner == Some(Player::B));
            }
            return true;
        }
        i = i + 1;
    }
    false
}

/// One trial: deal a fresh shuffled pair of sixteen-card piles, then play
/// up to `ROUND_CAP` rounds.  `true` exactly when a player was eliminated
/// within the cap; on a seeded source the verdict is exactly `game_spec`
/// of the state, so equal seeds give equal trials.
pub fn game(rng: &mut RandomSource) -> (finished: bool)
    ensures
        *old(rng) is System ==> *final(rng) == *old(rng),
        ({
            match *old(rng) {
                RandomSource::System => true,
                RandomSource::Seeded { state } => {
                    &&& finished == game_spec(state).0
                    &&& *final(rng) == (RandomSource::Seeded { state: game_spec(state).1 })
                },
            }
        }),
{
    let piles = deal(rng);
    let mut player_a = piles.0;
    let mut player_b = piles.1;
    play_rounds(&mut player_a, &mut player_b, ROUND_CAP, rng)
}

/// The simulation driver: run `trials` independent games and count how many
/// finished within the round cap.  The count never exceeds the number of
/// trials, and on a seeded source it is exactly `sim_spec` of the seed, so
/// a rerun from the same seed reproduces the identical count.
pub fn simulate(trials: u32, rng: &mut RandomSource) -> (finished_count: u32)
    ensures
        finished_count <= trials,
        *old(rng) is System ==> *final(rng) == *old(rng),
        ({
            match *old(rng) {
                RandomSource::System => true,
                RandomSource::Seeded { state } => {
                    &&& finished_count == sim_spec(state, trials as nat).0
                    &&& *final(rng) == (RandomSource::Seeded {
                        state: sim_spec(state, trials as nat).1,
                    })
                },
            }
        }),
{
    let mut finished_count: u32 = 0;
    let mut t: u32 = 0;
    while t < trials
        invariant
            finished_count <= t,
            t <= trials,
            *old(rng) is System ==> *rng == *old(rng),
            ({
                match *old(rng) {
                    RandomSource::System => true,
                    RandomSource::Seeded { state } => {
                        &&& *rng is Seeded
                        &&& sim_spec(state, trials as nat).0 == finished_count + sim_spec(
                            state_of(*rng),
                            (trials - t) as nat,
                        ).0
                        &&& sim_spec(state, trials as nat).1 == sim_spec(
                            state_of(*rng),
                            (trials - t) as nat,
                        ).1
                    },
                }
            }),
        decreases trials - t,
    {
        let ghost prev_st = state_of(*rng);
        if game(rng) {
            finished_count = finished_count + 1;
        }
        proof {
            if *old(rng) is Seeded {
                assert(sim_spec(prev_st, (trials - t) as nat) == ({
                    let (count, st2) = sim_spec(state_of(*rng), (trials - t - 1) as nat);
                    ((if game_spec(prev_st).0 {
                        count + 1
                    } else {
                        count
                    }), st2)
                }));
            }
        }
        t = t + 1;
    }
    finished_count
}

} // verus!
