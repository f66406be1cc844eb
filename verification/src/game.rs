use vstd::prelude::*;
use vstd::multiset::Multiset;
use crate::deck::{shuffle, shuffled};
use crate::rng::RandomSource;

verus! {

broadcast use
    vstd::seq_lib::group_to_multiset_ensures,
    vstd::multiset::group_multiset_axioms,
    vstd::multiset::group_multiset_properties;

/// The two players of a game.
#[derive(Clone, Copy, Debug, PartialEq, Eq, Structural)]
pub enum Player {
    A,
    B,
}

/// The cards held by the two piles together.
pub open spec fn pile_pool(a: Seq<u8>, b: Seq<u8>) -> Multiset<u8> {
    a.to_multiset().add(b.to_multiset())
}

/// The cards held by the two piles and the two bet stacks together.
pub open spec fn war_pool(a: Seq<u8>, bet_a: Seq<u8>, b: Seq<u8>, bet_b: Seq<u8>) -> Multiset<u8> {
    a.to_multiset().add(bet_a.to_multiset()).add(b.to_multiset()).add(bet_b.to_multiset())
}

/// The state of a war resolution: the two piles and the two bet stacks, as
/// sequences whose top is the end.
pub struct WarState {
    pub pile_a: Seq<u8>,
    pub bet_a: Seq<u8>,
    pub pile_b: Seq<u8>,
    pub bet_b: Seq<u8>,
}

/// One commit: each player moves the top card of their pile onto their own
/// bet stack.
pub open spec fn commit_once(s: WarState) -> WarState {
    WarState {
        pile_a: s.pile_a.drop_last(),
        bet_a: s.bet_a.push(s.pile_a.last()),
        pile_b: s.pile_b.drop_last(),
        bet_b: s.bet_b.push(s.pile_b.last()),
    }
}

/// Up to `k` times, check elimination and then commit the top card of each
/// pile onto its owner's bet stack.  The second component names the player
/// still holding cards when the other pile ran out, and is `None` when all
/// `k` commits went through.  An elimination drains both bet stacks to the
/// bottom of the surviving player's pile, so no card ever leaves play.
pub open spec fn commit_cards(s: WarState, k: nat) -> (WarState, Option<Player>)
    decreases k,
{
    if k == 0 {
        (s, None)
    } else if s.pile_a.len() == 0 {
        (
            WarState {
                pile_a: s.pile_a,
                bet_a: Seq::empty(),
                pile_b: s.bet_a + s.bet_b + s.pile_b,
                bet_b: Seq::empty(),
            },
            Some(Player::B),
        )
    } else if s.pile_b.len() == 0 {
        (
            WarState {
                pile_a: s.bet_a + s.bet_b + s.pile_a,
                bet_a: Seq::empty(),
                pile_b: s.pile_b,
                bet_b: Seq::empty(),
            },
            Some(Player::A),
        )
    } else {
        commit_cards(commit_once(s), (k - 1) as nat)
    }
}

proof fn lemma_commit_cards_none_len(s: WarState, k: nat)
    ensures
        commit_cards(s, k).1 == None::<Player> ==> commit_cards(s, k).0.pile_a.len() + k
            == s.pile_a.len(),
    decreases k,
{
    if k > 0 && s.pile_a.len() > 0 && s.pile_b.len() > 0 {
        lemma_commit_cards_none_len(commit_once(s), (k - 1) as nat);
    }
}

/// The outcome of a war resolution from state `s`: the final piles and
/// stacks, and for an elimination the player left with cards.  Three cards
/// are committed per escalation — elimination checked before each — the
/// last card of each stack breaks the tie, the winner of the comparison
/// takes both stacks at the bottom of its pile, and a further tie
/// escalates on the accumulated stacks.
pub open spec fn war_outcome(s: WarState) -> (WarState, Option<Player>)
    decreases s.pile_a.len(),
    via war_outcome_decreases
{
    let (t, early) = commit_cards(s, 3);
    if early != None::<Player> {
        (t, early)
    } else if t.bet_a.last() > t.bet_b.last() {
        (
            WarState {
                pile_a: t.bet_a + t.bet_b + t.pile_a,
                bet_a: Seq::empty(),
                pile_b: t.pile_b,
                bet_b: Seq::empty(),
            },
            None,
        )
    } else if t.bet_b.last() > t.bet_a.last() {
        (
            WarState {
                pile_a: t.pile_a,
                bet_a: Seq::empty(),
                pile_b: t.bet_a + t.bet_b + t.pile_b,
                bet_b: Seq::empty(),
            },
            None,
        )
    } else {
        war_outcome(t)
    }
}

#[via_fn]
proof fn war_outcome_decreases(s: WarState) {
    lemma_commit_cards_none_len(s, 3);
}

proof fn lemma_commit_cards_conserves(s: WarState, k: nat)
    ensures
        ({
            let (t, early) = commit_cards(s, k);
            war_pool(t.pile_a, t.bet_a, t.pile_b, t.bet_b) == war_pool(
                s.pile_a,
                s.bet_a,
                s.pile_b,
                s.bet_b,
            )
        }),
    decreases k,
{
    if k > 0 && s.pile_a.len() > 0 && s.pile_b.len() > 0 {
        let u = commit_once(s);
        assert(s.pile_a =~= u.pile_a.push(s.pile_a.last()));
        assert(s.pile_b =~= u.pile_b.push(s.pile_b.last()));
        assert(war_pool(u.pile_a, u.bet_a, u.pile_b, u.bet_b) =~= war_pool(
            s.pile_a,
            s.bet_a,
            s.pile_b,
            s.bet_b,
        ));
        lemma_commit_cards_conserves(u, (k - 1) as nat);
    } else if k > 0 && s.pile_a.len() == 0 {
        vstd::seq_lib::lemma_multiset_commutative(s.bet_a, s.bet_b);
        vstd::seq_lib::lemma_multiset_commutative(s.bet_a + s.bet_b, s.pile_b);
        let t = commit_cards(s, k).0;
        assert(war_pool(t.pile_a, t.bet_a, t.pile_b, t.bet_b) =~= war_pool(
            s.pile_a,
            s.bet_a,
            s.pile_b,
            s.bet_b,
        ));
    } else if k > 0 {
        vstd::seq_lib::lemma_multiset_commutative(s.bet_a, s.bet_b);
        vstd::seq_lib::lemma_multiset_commutative(s.bet_a + s.bet_b, s.pile_a);
        let t = commit_cards(s, k).0;
        assert(war_pool(t.pile_a, t.bet_a, t.pile_b, t.bet_b) =~= war_pool(
            s.pile_a,
            s.bet_a,
            s.pile_b,
            s.bet_b,
        ));
    }
}

/// Conservation: a war neither creates nor destroys cards.  The pool of
/// both piles and both bet stacks after a war resolution — however deep
/// its chain of ties ran — is exactly the pool before it.
pub proof fn lemma_war_conserves_cards(s: WarState)
    ensures
        ({
            let (t, w) = war_outcome(s);
            war_pool(t.pile_a, t.bet_a, t.pile_b, t.bet_b) == war_pool(
                s.pile_a,
                s.bet_a,
                s.pile_b,
                s.bet_b,
            )
        }),
    decreases s.pile_a.len(),
{
    lemma_commit_cards_none_len(s, 3);
    lemma_commit_cards_conserves(s, 3);
    let (t, early) = commit_cards(s, 3);
    if early == None::<Player> {
        if t.bet_a.last() != t.bet_b.last() {
            vstd::seq_lib::lemma_multiset_commutative(t.bet_a, t.bet_b);
            vstd::seq_lib::lemma_multiset_commutative(t.bet_a + t.bet_b, t.pile_a);
            vstd::seq_lib::lemma_multiset_commutative(t.bet_a + t.bet_b, t.pile_b);
            let (u, w) = war_outcome(s);
            assert(war_pool(u.pile_a, u.bet_a, u.pile_b, u.bet_b) =~= war_pool(
                t.pile_a,
                t.bet_a,
                t.pile_b,
                t.bet_b,
            ));
        } else {
            lemma_war_conserves_cards(t);
        }
    }
}

/// How many escalations a war from state `s` goes through before it
/// resolves: one for the final escalation, whether it ends by elimination
/// or by a strict comparison, and one more for every chained tie.
pub open spec fn war_escalations(s: WarState) -> nat
    decreases s.pile_a.len(),
    via war_escalations_decreases
{
    let (t, early) = commit_cards(s, 3);
    if early != None::<Player> {
        1
    } else if t.bet_a.last() != t.bet_b.last() {
        1
    } else {
        1 + war_escalations(t)
    }
}

#[via_fn]
proof fn war_escalations_decreases(s: WarState) {
    lemma_commit_cards_none_len(s, 3);
}

/// A war chain is bounded by the cards of one pile: each chained tie
/// consumes three of player A's cards, so a war from a pile of `n` cards
/// resolves within `n / 3 + 1` escalations — at most eleven for a whole
/// 32-card deck, and at most six from a dealt 16-card pile.  A war can
/// never loop forever.
pub proof fn lemma_war_chain_bound(s: WarState)
    ensures
        war_escalations(s) <= s.pile_a.len() / 3 + 1,
    decreases s.pile_a.len(),
{
    lemma_commit_cards_none_len(s, 3);
    let (t, early) = commit_cards(s, 3);
    if early == None::<Player> && t.bet_a.last() == t.bet_b.last() {
        lemma_war_chain_bound(t);
    }
}

/// The elimination check: player B has won exactly when player A's pile is
/// empty, player A has won exactly when only player B's is, and the game
/// goes on while both piles hold cards.  Nothing is drawn or moved.
pub fn maybe_winner<T>(player_a: &Vec<T>, player_b: &Vec<T>) -> (winner: Option<Player>)
    ensures
        winner == (if player_a@.len() == 0 {
            Some(Player::B)
        } else if player_b@.len() == 0 {
            Some(Player::A)
        } else {
            None::<Player>
        }),
{
    if player_a.is_empty() {
        Some(Player::B)
    } else if player_b.is_empty() {
        Some(Player::A)
    } else {
        None
    }
}

/// Move both bet stacks to the bottom of the winner's pile.  The two stacks
/// are concatenated in front of the winner's cards — the pile's bottom, its
/// top being the vector's end — and a two-card collection is reshuffled
/// before it is placed, so the cards only reach the pile as a permutation.
pub fn collect_cards<T: Copy>(
    winner: &mut Vec<T>,
    player_a_bet: &Vec<T>,
    player_b_bet: &Vec<T>,
    rng: &mut RandomSource,
)
    ensures
        final(winner)@.len() == player_a_bet@.len() + player_b_bet@.len() + old(winner)@.len(),
        final(winner)@.to_multiset() == player_a_bet@.to_multiset().add(
            player_b_bet@.to_multiset(),
        ).add(old(winner)@.to_multiset()),
        final(winner)@.skip((player_a_bet@.len() + player_b_bet@.len()) as int) == old(winner)@,
        player_a_bet@.len() + player_b_bet@.len() != 2 ==> final(winner)@ == player_a_bet@
            + player_b_bet@ + old(winner)@,
        player_a_bet@.len() + player_b_bet@.len() != 2 ==> *final(rng) == *old(rng),
        *old(rng) is System ==> *final(rng) == *old(rng),
        ({
            match *old(rng) {
                RandomSource::System => true,
                RandomSource::Seeded { state } => player_a_bet@.len() + player_b_bet@.len() == 2
                    ==> {
                    &&& final(winner)@ == shuffled(player_a_bet@ + player_b_bet@, state).0 + old(
                        winner,
                    )@
                    &&& *final(rng) == (RandomSource::Seeded {
                        state: shuffled(player_a_bet@ + player_b_bet@, state).1,
                    })
                },
            }
        }),
{
    let mut cards: Vec<T> = Vec::new();
    let mut i: usize = 0;
    while i < player_a_bet.len()
        invariant
            i <= player_a_bet@.len(),
            cards@ == player_a_bet@.take(i as int),
        decreases player_a_bet@.len() - i,
    {
        cards.push(player_a_bet[i]);
        assert(cards@ =~= player_a_bet@.take(i + 1));
        i = i + 1;
    }
    assert(cards@ =~= player_a_bet@);
    let mut j: usize = 0;
    while j < player_b_bet.len()
        invariant
            j <= player_b_bet@.len(),
            cards@ == player_a_bet@ + player_b_bet@.take(j as int),
        decreases player_b_bet@.len() - j,
    {
        cards.push(player_b_bet[j]);
        assert(cards@ =~= player_a_bet@ + player_b_bet@.take(j + 1));
        j = j + 1;
    }
    assert(cards@ =~= player_a_bet@ + player_b_bet@);
    proof {
        vstd::seq_lib::lemma_multiset_commutative(player_a_bet@, player_b_bet@);
    }
    if cards.len() == 2 {
        shuffle(&mut cards, rng);
    }
    let ghost merged = cards@;
    cards.append(winner);
    assert(cards@ == merged + old(winner)@);
    proof {
        vstd::seq_lib::lemma_multiset_commutative(merged, old(winner)@);
    }
    *winner = cards;
    assert(final(winner)@.skip((player_a_bet@.len() + player_b_bet@.len()) as int) =~= old(winner)@);
}

/// Drain both bet stacks, in order, to the bottom of `winner`'s pile, with
/// no reshuffle: a war that ends by elimination is already decided, so the
/// order of the conceded cards cannot matter.
fn drain_bets(winner: &mut Vec<u8>, player_a_bet: &mut Vec<u8>, player_b_bet: &mut Vec<u8>)
    ensures
        final(winner)@ == old(player_a_bet)@ + old(player_b_bet)@ + old(winner)@,
        final(player_a_bet)@.len() == 0,
        final(player_b_bet)@.len() == 0,
{
    let mut cards: Vec<u8> = Vec::new();
    cards.append(player_a_bet);
    cards.append(player_b_bet);
    cards.append(winner);
    *winner = cards;
}

/// Resolve a war: up to three times, check elimination and then commit one
/// card from each pile onto that player's bet stack; compare the last cards
/// committed; on a tie escalate again onto the same stacks.  A war never
/// creates or destroys a card: the pool of piles and stacks is preserved,
/// and both stacks are fully drained into a pile before the war returns.
/// When a pile runs out mid-escalation, the opponent is reported eliminated
/// before any draw from the empty pile is attempted, and the stacks are
/// conceded to the survivor; otherwise both stacks go to the round winner's
/// pile and the game goes on.
pub fn war(
    player_a: &mut Vec<u8>,
    player_a_bet: &mut Vec<u8>,
    player_b: &mut Vec<u8>,
    player_b_bet: &mut Vec<u8>,
    rng: &mut RandomSource,
) -> (winner: Option<Player>)
    ensures
        war_pool(final(player_a)@, final(player_a_bet)@, final(player_b)@, final(player_b_bet)@)
            == war_pool(old(player_a)@, old(player_a_bet)@, old(player_b)@, old(player_b_bet)@),
        winner == Some(Player::B) ==> final(player_a)@.len() == 0,
        winner == Some(Player::A) ==> final(player_a)@.len() > 0 && final(player_b)@.len() == 0,
        final(player_a_bet)@.len() == 0 && final(player_b_bet)@.len() == 0,
        ({
            let (t, w) = war_outcome(
                WarState {
                    pile_a: old(player_a)@,
                    bet_a: old(player_a_bet)@,
                    pile_b: old(player_b)@,
                    bet_b: old(player_b_bet)@,
                },
            );
            winner == w && final(player_a)@ == t.pile_a && final(player_a_bet)@ == t.bet_a
                && final(player_b)@ == t.pile_b && final(player_b_bet)@ == t.bet_b
        }),
        *final(rng) == *old(rng),
    decreases old(player_a)@.len(),
{
    let ghost entry = WarState {
        pile_a: old(player_a)@,
        bet_a: old(player_a_bet)@,
        pile_b: old(player_b)@,
        bet_b: old(player_b_bet)@,
    };
    let mut k: u8 = 0;
    while k < 3
        invariant
            k <= 3,
            entry == (WarState {
                pile_a: old(player_a)@,
                bet_a: old(player_a_bet)@,
                pile_b: old(player_b)@,
                bet_b: old(player_b_bet)@,
            }),
            player_a@.len() + k == old(player_a)@.len(),
            player_b@.len() + k == old(player_b)@.len(),
            player_a_bet@.len() == old(player_a_bet)@.len() + k,
            player_b_bet@.len() == old(player_b_bet)@.len() + k,
            war_pool(player_a@, player_a_bet@, player_b@, player_b_bet@) == war_pool(
                old(player_a)@,
                old(player_a_bet)@,
                old(player_b)@,
                old(player_b_bet)@,
            ),
            commit_cards(entry, 3) == commit_cards(
                WarState {
                    pile_a: player_a@,
                    bet_a: player_a_bet@,
                    pile_b: player_b@,
                    bet_b: player_b_bet@,
                },
                (3 - k) as nat,
            ),
            *rng == *old(rng),
        decreases 3 - k,
    {
        let early = maybe_winner(player_a, player_b);
        if let Some(w) = early {
            let ghost cur = WarState {
                pile_a: player_a@,
                bet_a: player_a_bet@,
                pile_b: player_b@,
                bet_b: player_b_bet@,
            };
            match w {
                Player::B => drain_bets(player_b, player_a_bet, player_b_bet),
                Player::A => drain_bets(player_a, player_a_bet, player_b_bet),
            }
            proof {
                let t = commit_cards(cur, (3 - k) as nat).0;
                assert(commit_cards(cur, (3 - k) as nat) == (t, Some(w)));
                assert(war_outcome(entry) == (t, Some(w)));
                assert(player_a_bet@ =~= Seq::<u8>::empty());
                assert(player_b_bet@ =~= Seq::<u8>::empty());
                assert(player_a@ == t.pile_a && player_a_bet@ == t.bet_a && player_b@ == t.pile_b
                    && player_b_bet@ == t.bet_b);
                vstd::seq_lib::lemma_multiset_commutative(cur.bet_a, cur.bet_b);
                vstd::seq_lib::lemma_multiset_commutative(cur.bet_a + cur.bet_b, cur.pile_a);
                vstd::seq_lib::lemma_multiset_commutative(cur.bet_a + cur.bet_b, cur.pile_b);
                assert(war_pool(player_a@, player_a_bet@, player_b@, player_b_bet@) =~= war_pool(
                    cur.pile_a,
                    cur.bet_a,
                    cur.pile_b,
                    cur.bet_b,
                ));
            }
            return Some(w);
        }
        let ghost pa = player_a@;
        let ghost pb = player_b@;
        let ghost ba = player_a_bet@;
        let ghost bb = player_b_bet@;
        let card_a = player_a.pop().unwrap();
        player_a_bet.push(card_a);
        let card_b = player_b.pop().unwrap();
        player_b_bet.push(card_b);
        proof {
            assert(pa =~= player_a@.push(card_a));
            assert(pb =~= player_b@.push(card_b));
            assert(war_pool(player_a@, player_a_bet@, player_b@, player_b_bet@) =~= war_pool(
                pa,
                ba,
                pb,
                bb,
            ));
            let prev = WarState { pile_a: pa, bet_a: ba, pile_b: pb, bet_b: bb };
            let cur = WarState {
                pile_a: player_a@,
                bet_a: player_a_bet@,
                pile_b: player_b@,
                bet_b: player_b_bet@,
            };
            assert(pa.drop_last() =~= player_a@);
            assert(pb.drop_last() =~= player_b@);
            assert(pa.last() == card_a);
            assert(pb.last() == card_b);
            assert(commit_once(prev) == cur);
            assert(commit_cards(prev, (3 - k) as nat) == commit_cards(cur, (2 - k) as nat));
        }
        k = k + 1;
    }
    proof {
        let t = WarState {
            pile_a: player_a@,
            bet_a: player_a_bet@,
            pile_b: player_b@,
            bet_b: player_b_bet@,
        };
        assert(commit_cards(t, 0) == (t, None::<Player>));
        assert(commit_cards(entry, 3) == (t, None::<Player>));
    }
    let a_card = player_a_bet[player_a_bet.len() - 1];
    let b_card = player_b_bet[player_b_bet.len() - 1];
    if a_card > b_card {
        let ghost a1 = player_a@;
        let ghost b1 = player_b@;
        let ghost ba = player_a_bet@;
        let ghost bb = player_b_bet@;
        collect_cards(player_a, &*player_a_bet, &*player_b_bet, rng);
        player_a_bet.clear();
        player_b_bet.clear();
        proof {
            assert(war_pool(player_a@, player_a_bet@, player_b@, player_b_bet@) =~= war_pool(
                a1,
                ba,
                b1,
                bb,
            ));
            assert(war_outcome(entry) == (
                WarState {
                    pile_a: ba + bb + a1,
                    bet_a: Seq::<u8>::empty(),
                    pile_b: b1,
                    bet_b: Seq::<u8>::empty(),
                },
                None::<Player>,
            ));
        }
        None
    } else if b_card > a_card {
        let ghost a1 = player_a@;
        let ghost b1 = player_b@;
        let ghost ba = player_a_bet@;
        let ghost bb = player_b_bet@;
        collect_cards(player_b, &*player_a_bet, &*player_b_bet, rng);
        player_a_bet.clear();
        player_b_bet.clear();
        proof {
            assert(war_pool(player_a@, player_a_bet@, player_b@, player_b_bet@) =~= war_pool(
                a1,
                ba,
                b1,
                bb,
            ));
            assert(war_outcome(entry) == (
                WarState {
                    pile_a: a1,
                    bet_a: Seq::<u8>::empty(),
                    pile_b: ba + bb + b1,
                    bet_b: Seq::<u8>::empty(),
                },
                None::<Player>,
            ));
        }
        None
    } else {
        proof {
            let t = WarState {
                pile_a: player_a@,
                bet_a: player_a_bet@,
                pile_b: player_b@,
                bet_b: player_b_bet@,
            };
            assert(war_outcome(entry) == war_outcome(t));
        }
        war(player_a, player_a_bet, player_b, player_b_bet, rng)
    }
}

/// One round as a function of the piles and a seeded draw state: the final
/// piles, the state left behind, and the verdict.  A decided round spends
/// one draw on the two-card reshuffle; a terminal check and a war spend
/// none.
pub open spec fn round_spec(a: Seq<u8>, b: Seq<u8>, state: u64) -> (
    Seq<u8>,
    Seq<u8>,
    u64,
    Option<Player>,
) {
    if a.len() == 0 {
        (a, b, state, Some(Player::B))
    } else if b.len() == 0 {
        (a, b, state, Some(Player::A))
    } else {
        let ca = a.last();
        let cb = b.last();
        let a1 = a.drop_last();
        let b1 = b.drop_last();
        if ca > cb {
            let (pair, st) = shuffled(seq![ca] + seq![cb], state);
            (pair + a1, b1, st, None)
        } else if cb > ca {
            let (pair, st) = shuffled(seq![ca] + seq![cb], state);
            (a1, pair + b1, st, None)
        } else {
            let (t, w) = war_outcome(
                WarState { pile_a: a1, bet_a: seq![ca], pile_b: b1, bet_b: seq![cb] },
            );
            (t.pile_a, t.pile_b, state, w)
        }
    }
}

/// Play one round.  An already-empty pile decides the game before anything
/// is drawn.  Otherwise both players play their top card; the higher rank
/// collects the two cards — reshuffled, as a two-card stack — at the bottom
/// of its owner's pile, and equal ranks escalate into a war, each fresh bet
/// stack opened with its owner's tied card.  `None` means the game goes on;
/// `Some` reports an elimination, and the named player's opponent ends with
/// an empty pile.  No card is ever created or destroyed: the two piles hold
/// the same pool of cards after the round as before it.
pub fn round(player_a: &mut Vec<u8>, player_b: &mut Vec<u8>, rng: &mut RandomSource) -> (winner:
    Option<Player>)
    ensures
        old(player_a)@.len() == 0 ==> winner == Some(Player::B) && final(player_a)@ == old(
            player_a,
        )@ && final(player_b)@ == old(player_b)@,
        old(player_a)@.len() > 0 && old(player_b)@.len() == 0 ==> winner == Some(Player::A)
            && final(player_a)@ == old(player_a)@ && final(player_b)@ == old(player_b)@,
        winner == Some(Player::B) ==> final(player_a)@.len() == 0,
        winner == Some(Player::A) ==> final(player_a)@.len() > 0 && final(player_b)@.len() == 0,
        pile_pool(final(player_a)@, final(player_b)@) == pile_pool(
            old(player_a)@,
            old(player_b)@,
        ),
        old(player_a)@.len() > 0 && old(player_b)@.len() > 0 && old(player_a)@.last() != old(
            player_b,
        )@.last() ==> winner == None::<Player>,
        winner == None::<Player> && old(player_a)@.last() > old(player_b)@.last()
            ==> final(player_b)@ == old(player_b)@.drop_last() && final(player_a)@.skip(2) == old(
                player_a,
            )@.drop_last() && final(player_a)@.len() == old(player_a)@.len() + 1,
        winner == None::<Player> && old(player_b)@.last() > old(player_a)@.last()
            ==> final(player_a)@ == old(player_a)@.drop_last() && final(player_b)@.skip(2) == old(
                player_b,
            )@.drop_last() && final(player_b)@.len() == old(player_b)@.len() + 1,
        old(player_a)@.len() > 0 && old(player_b)@.len() > 0 && old(player_a)@.last() == old(
            player_b,
        )@.last() ==> ({
            let (t, w) = war_outcome(
                WarState {
                    pile_a: old(player_a)@.drop_last(),
                    bet_a: seq![old(player_a)@.last()],
                    pile_b: old(player_b)@.drop_last(),
                    bet_b: seq![old(player_b)@.last()],
                },
            );
            winner == w && final(player_a)@ == t.pile_a && final(player_b)@ == t.pile_b
        }),
        *old(rng) is System ==> *final(rng) == *old(rng),
        ({
            match *old(rng) {
                RandomSource::System => true,
                RandomSource::Seeded { state } => {
                    let (fa, fb, st, w) = round_spec(old(player_a)@, old(player_b)@, state);
                    &&& winner == w
                    &&& final(player_a)@ == fa
                    &&& final(player_b)@ == fb
                    &&& *final(rng) == (RandomSource::Seeded { state: st })
                },
            }
        }),
{
    let early = maybe_winner(player_a, player_b);
    if let Some(w) = early {
        return Some(w);
    }
    let ghost pa = player_a@;
    let ghost pb = player_b@;
    let card_a = player_a.pop().unwrap();
    let card_b = player_b.pop().unwrap();
    proof {
        assert(pa =~= player_a@.push(card_a));
        assert(pb =~= player_b@.push(card_b));
    }
    if card_a > card_b {
        let ghost a1 = player_a@;
        let mut bet_a: Vec<u8> = Vec::new();
        bet_a.push(card_a);
        let mut bet_b: Vec<u8> = Vec::new();
        bet_b.push(card_b);
        proof {
            assert(bet_a@ + bet_b@ =~= seq![card_a] + seq![card_b]);
            assert(a1 =~= pa.drop_last());
            assert(player_b@ =~= pb.drop_last());
        }
        collect_cards(player_a, &bet_a, &bet_b, rng);
        proof {
            assert(pile_pool(player_a@, player_b@) =~= pile_pool(pa, pb));
        }
        None
    } else if card_b > card_a {
        let ghost b1 = player_b@;
        let mut bet_a: Vec<u8> = Vec::new();
        bet_a.push(card_a);
        let mut bet_b: Vec<u8> = Vec::new();
        bet_b.push(card_b);
        proof {
            assert(bet_a@ + bet_b@ =~= seq![card_a] + seq![card_b]);
            assert(b1 =~= pb.drop_last());
            assert(player_a@ =~= pa.drop_last());
        }
        collect_cards(player_b, &bet_a, &bet_b, rng);
        proof {
            assert(pile_pool(player_a@, player_b@) =~= pile_pool(pa, pb));
        }
        None
    } else {
        let ghost a1 = player_a@;
        let ghost b1 = player_b@;
        proof {
            assert(a1 =~= pa.drop_last());
            assert(b1 =~= pb.drop_last());
        }
        let mut bet_a: Vec<u8> = Vec::new();
        bet_a.push(card_a);
        let mut bet_b: Vec<u8> = Vec::new();
        bet_b.push(card_b);
        let ghost sba = bet_a@;
        let ghost sbb = bet_b@;
        proof {
            assert(sba =~= seq![pa.last()]);
            assert(sbb =~= seq![pb.last()]);
        }
        let result = war(player_a, &mut bet_a, player_b, &mut bet_b, rng);
        proof {
            assert(war_pool(player_a@, bet_a@, player_b@, bet_b@) == war_pool(a1, sba, b1, sbb));
            assert(bet_a@.to_multiset() =~= Multiset::<u8>::empty());
            assert(bet_b@.to_multiset() =~= Multiset::<u8>::empty());
            assert forall|v: u8|
                pile_pool(player_a@, player_b@).count(v) == pile_pool(pa, pb).count(v) by {
                assert(pile_pool(player_a@, player_b@).count(v) == war_pool(
                    player_a@,
                    bet_a@,
                    player_b@,
                    bet_b@,
                ).count(v));
                assert(sba.to_multiset() =~= Multiset::<u8>::empty().insert(card_a));
                assert(sbb.to_multiset() =~= Multiset::<u8>::empty().insert(card_b));
                assert(pa.to_multiset() == a1.to_multiset().insert(card_a));
                assert(pb.to_multiset() == b1.to_multiset().insert(card_b));
            }
            assert(pile_pool(player_a@, player_b@) =~= pile_pool(pa, pb));
        }
        result
    }
}

} // verus!
