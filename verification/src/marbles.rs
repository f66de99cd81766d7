//! The marble game: the players take turns to put marbles into a circle,
//! and every twenty-third marble scores.

use std::collections::VecDeque;
use vstd::prelude::*;

verus! {

/// The circle turned clockwise by `n` places: each time the last element
/// moves to the front.
pub open spec fn turned_clockwise<T>(circle: Seq<T>, n: nat) -> Seq<T> {
    if circle.len() == 0 {
        circle
    } else {
        let k = n % circle.len();
        circle.subrange(circle.len() - k, circle.len() as int) + circle.subrange(
            0,
            circle.len() - k,
        )
    }
}

/// The circle turned counter-clockwise by `n` places: each time the first
/// element moves to the back.
pub open spec fn turned_counter_clockwise<T>(circle: Seq<T>, n: nat) -> Seq<T> {
    if circle.len() == 0 {
        circle
    } else {
        let k = n % circle.len();
        circle.subrange(k as int, circle.len() as int) + circle.subrange(0, k as int)
    }
}

proof fn lemma_step(n: nat, len: nat)
    requires
        len > 0,
    ensures
        (n + 1) % len == if n % len + 1 == len {
            0
        } else {
            n % len + 1
        },
{
    assert((n + 1) % len == if n % len + 1 == len {
        0
    } else {
        n % len + 1
    }) by (nonlinear_arith)
        requires
            len > 0,
    ;
}

/// Turns the circle clockwise by `i` places.
pub fn clockwise<T>(circle: &mut VecDeque<T>, i: usize)
    ensures
        final(circle)@ == turned_clockwise(old(circle)@, i as nat),
{
    let mut done: usize = 0;
    while done < i
        invariant
            done <= i,
            circle@ == turned_clockwise(old(circle)@, done as nat),
            circle@.len() == old(circle)@.len(),
        decreases i - done,
    {
        if let Some(val) = circle.pop_back() {
            circle.push_front(val);
            proof {
                let whole = old(circle)@;
                lemma_step(done as nat, whole.len());
                assert(circle@ =~= turned_clockwise(whole, (done + 1) as nat));
            }
        }
        done += 1;
    }
    proof {
        if old(circle)@.len() > 0 {
            assert(0nat % old(circle)@.len() == 0);
        }
        assert(old(circle)@ =~= turned_clockwise(old(circle)@, 0));
    }
}

/// Turns the circle counter-clockwise by `i` places.
pub fn counter_clockwise<T>(circle: &mut VecDeque<T>, i: usize)
    ensures
        final(circle)@ == turned_counter_clockwise(old(circle)@, i as nat),
{
    let mut done: usize = 0;
    while done < i
        invariant
            done <= i,
            circle@ == turned_counter_clockwise(old(circle)@, done as nat),
            circle@.len() == old(circle)@.len(),
        decreases i - done,
    {
        if let Some(val) = circle.pop_front() {
            circle.push_back(val);
            proof {
                let whole = old(circle)@;
                lemma_step(done as nat, whole.len());
                assert(circle@ =~= turned_counter_clockwise(whole, (done + 1) as nat));
            }
        }
        done += 1;
    }
}

/// The state of a game: the circle, the current marble at its back, and
/// the score of each player.
pub struct Game {
    pub circle: Seq<usize>,
    pub scores: Seq<nat>,
}

/// The game after the turn in which the marble `marble` is played.
pub open spec fn after_turn(game: Game, marble: usize, players: nat) -> Game {
    if marble % 23 == 0 {
        let turned = turned_clockwise(game.circle, 7);
        let player = marble as nat % players;
        if turned.len() > 0 {
            Game {
                circle: turned_counter_clockwise(turned.drop_last(), 1),
                scores: game.scores.update(
                    player as int,
                    (game.scores[player as int] + marble + turned.last()) as nat,
                ),
            }
        } else {
            Game {
                circle: turned,
                scores: game.scores.update(
                    player as int,
                    (game.scores[player as int] + marble) as nat,
                ),
            }
        }
    } else {
        Game { circle: turned_counter_clockwise(game.circle, 1).push(marble), scores: game.scores }
    }
}

/// The game after the marbles up to `marbles` have been played.
pub open spec fn played(players: nat, marbles: nat) -> Game
    decreases marbles,
{
    if marbles == 0 || marbles > usize::MAX {
        Game { circle: seq![0usize], scores: Seq::new(players, |i: int| 0nat) }
    } else {
        after_turn(played(players, (marbles - 1) as nat), marbles as usize, players)
    }
}

/// The highest of the scores, and zero where there is none.
pub open spec fn highest(scores: Seq<nat>) -> nat
    decreases scores.len(),
{
    if scores.len() == 0 {
        0
    } else if highest(scores.drop_last()) < scores.last() {
        scores.last()
    } else {
        highest(scores.drop_last())
    }
}

/// No score is above the highest.
pub proof fn lemma_highest_bounds(scores: Seq<nat>, i: int)
    requires
        0 <= i < scores.len(),
    ensures
        scores[i] <= highest(scores),
    decreases scores.len(),
{
    if i < scores.len() - 1 {
        lemma_highest_bounds(scores.drop_last(), i);
    }
}

/// The number of scores stays, and no score ever goes down.
pub proof fn lemma_scores_grow(players: nat, from: nat, to: nat, i: int)
    requires
        from <= to <= usize::MAX,
        0 <= i < players,
        players > 0,
    ensures
        played(players, to).scores.len() == players,
        played(players, from).scores.len() == players,
        played(players, from).scores[i] <= played(players, to).scores[i],
    decreases to,
{
    if to > 0 {
        if from < to {
            lemma_scores_grow(players, from, (to - 1) as nat, i);
        } else {
            lemma_scores_grow(players, (to - 1) as nat, (to - 1) as nat, i);
        }
    }
}

/// The highest score of a game with `total_players` players in which
/// `total_marbles` marbles are played, where it fits the machine's numbers.
pub fn play_game(total_players: usize, total_marbles: usize) -> (best: Option<usize>)
    requires
        total_players > 0 || total_marbles < 23,
    ensures
        best == if highest(played(total_players as nat, total_marbles as nat).scores) <= usize::MAX {
            Some(highest(played(total_players as nat, total_marbles as nat).scores) as usize)
        } else {
            None
        },
{
    let ghost players = total_players as nat;
    let mut circle: VecDeque<usize> = VecDeque::new();
    let mut scores: Vec<usize> = Vec::new();
    let mut filled: usize = 0;
    while filled < total_players
        invariant
            filled <= total_players,
            scores@.len() == filled,
            forall|i: int| 0 <= i < filled ==> scores@[i] == 0,
        decreases total_players - filled,
    {
        scores.push(0);
        filled += 1;
    }
    circle.push_back(0);
    proof {
        assert(circle@ =~= played(players, 0).circle);
    }
    let mut turn: usize = 0;
    while turn < total_marbles
        invariant
            turn <= total_marbles,
            total_players > 0 || total_marbles < 23,
            players == total_players,
            circle@ == played(players, turn as nat).circle,
            scores@.len() == players,
            played(players, turn as nat).scores.len() == players,
            forall|i: int| 0 <= i < players ==> scores@[i] == #[trigger] played(
                players,
                turn as nat,
            ).scores[i],
        decreases total_marbles - turn,
    {
        let ghost before = played(players, turn as nat);
        turn += 1;
        let ghost after = played(players, turn as nat);
        proof {
            assert(after == after_turn(before, turn, players));
        }
        if turn % 23 == 0 {
            clockwise(&mut circle, 7);
            let player = turn % total_players;
            let gain = match circle.pop_back() {
                Some(val) => {
                    if val > usize::MAX - turn {
                        proof {
                            lemma_scores_grow(players, turn as nat, total_marbles as nat, player as int);
                            lemma_highest_bounds(
                                played(players, total_marbles as nat).scores,
                                player as int,
                            );
                        }
                        return None;
                    }
                    counter_clockwise(&mut circle, 1);
                    turn + val
                },
                None => turn,
            };
            if gain > usize::MAX - scores[player] {
                proof {
                    lemma_scores_grow(players, turn as nat, total_marbles as nat, player as int);
                    lemma_highest_bounds(played(players, total_marbles as nat).scores, player as int);
                }
                return None;
            }
            let score = scores[player] + gain;
            scores.set(player, score);
        } else {
            counter_clockwise(&mut circle, 1);
            circle.push_back(turn);
        }
    }
    let ghost last = played(players, total_marbles as nat).scores;
    let mut best: usize = 0;
    let mut i: usize = 0;
    while i < scores.len()
        invariant
            i <= scores@.len() == last.len(),
            forall|k: int| 0 <= k < last.len() ==> scores@[k] == #[trigger] last[k],
            best == highest(last.take(i as int)),
        decreases scores.len() - i,
    {
        proof {
            assert(last.take(i + 1).drop_last() =~= last.take(i as int));
        }
        if best < scores[i] {
            best = scores[i];
        }
        i += 1;
    }
    proof {
        assert(last.take(i as int) =~= last);
    }
    Some(best)
}

} // verus!
