//! Recorded matches and the rating history that they add up to.

use crate::combos::select;
use crate::models::{EloSnapshot, Player};
use std::collections::HashMap;
use vstd::prelude::*;

verus! {

broadcast use vstd::std_specs::hash::group_hash_axioms;

/// Number of colours that rating charts cycle through.
pub const PALETTE_SIZE: usize = 22;

/// A recorded match.
pub struct Match {
    pub id: i32,
    /// The day of the match, as text.
    pub played_at: String,
    /// Ids of team A's players.
    pub team_a: Vec<i32>,
    /// Ids of team B's players.
    pub team_b: Vec<i32>,
    pub score_a: i32,
    pub score_b: i32,
    /// What the match did to each player's rating, by player id.
    pub elo_snapshot: HashMap<i32, EloSnapshot>,
}

/// Who won a match.
#[derive(Clone, Copy, Debug, PartialEq, Eq, Structural)]
pub enum Outcome {
    TeamAWins,
    TeamBWins,
    Draw,
}

/// One point of a player's rating history.
#[derive(Debug)]
pub struct RatingPoint {
    /// The day of the match.
    pub date: String,
    /// The player's rating after the match, in millionths of a point.
    pub rating: i128,
}

/// The rating history of one player.
#[derive(Debug)]
pub struct RatingSeries {
    /// The player's place on the roster.
    pub player: usize,
    /// The colour of the player's line: the place on the roster, cycling
    /// through the palette.
    pub color: usize,
    /// One point for each match that the player took part in, oldest first.
    pub points: Vec<RatingPoint>,
}

/// Who won with the scores `score_a` and `score_b`.
pub open spec fn outcome_of(score_a: int, score_b: int) -> Outcome {
    if score_a > score_b {
        Outcome::TeamAWins
    } else if score_b > score_a {
        Outcome::TeamBWins
    } else {
        Outcome::Draw
    }
}

/// The point that the match `m` adds to the history of the player `id`.
pub open spec fn point_of(m: Match, id: i32) -> RatingPoint {
    RatingPoint {
        date: m.played_at,
        rating: (m.elo_snapshot@[id].before + m.elo_snapshot@[id].effective()) as i128,
    }
}

/// The rating history of the player `id` over `matches`, which come newest
/// first: one point for each match with a snapshot of the player, oldest
/// first.
pub open spec fn history_of(matches: Seq<Match>, id: i32) -> Seq<RatingPoint>
    decreases matches.len(),
{
    if matches.len() == 0 {
        Seq::empty()
    } else {
        let earlier = history_of(matches.drop_first(), id);
        if matches[0].elo_snapshot@.contains_key(id) {
            earlier.push(point_of(matches[0], id))
        } else {
            earlier
        }
    }
}

/// The places on the roster of the players who have a history.
pub open spec fn charted(matches: Seq<Match>, players: Seq<Player>) -> Seq<usize> {
    select(players.len(), |i: int| history_of(matches, players[i].id).len() > 0)
}

/// Whether `series` is the timeline of `players` over `matches`: one series
/// for each player with a history, in roster order.
pub open spec fn is_timeline(
    series: Seq<RatingSeries>,
    matches: Seq<Match>,
    players: Seq<Player>,
) -> bool {
    &&& series.len() == charted(matches, players).len()
    &&& forall|k: int|
        0 <= k < series.len() ==> {
            &&& (#[trigger] series[k]).player == charted(matches, players)[k]
            &&& series[k].color == series[k].player % PALETTE_SIZE
            &&& series[k].points@ == history_of(matches, players[series[k].player as int].id)
        }
}

/// Who won with the scores `score_a` and `score_b`.
pub fn outcome(score_a: i32, score_b: i32) -> (r: Outcome)
    ensures
        r == outcome_of(score_a as int, score_b as int),
{
    if score_a > score_b {
        Outcome::TeamAWins
    } else if score_b > score_a {
        Outcome::TeamBWins
    } else {
        Outcome::Draw
    }
}

impl Match {
    /// Who won the match.
    pub fn outcome(&self) -> (r: Outcome)
        ensures
            r == outcome_of(self.score_a as int, self.score_b as int),
    {
        outcome(self.score_a, self.score_b)
    }
}

/// The rating history of the player `id` over `matches`, which come newest
/// first.
pub fn player_history(matches: &[Match], id: i32) -> (points: Vec<RatingPoint>)
    ensures
        points@ == history_of(matches@, id),
{
    let mut points: Vec<RatingPoint> = Vec::new();
    let mut j: usize = matches.len();
    assert(matches@.skip(j as int) =~= Seq::<Match>::empty());
    while j > 0
        invariant
            j <= matches.len(),
            points@ == history_of(matches@.skip(j as int), id),
        decreases j,
    {
        j -= 1;
        proof {
            assert(matches@.skip(j as int).drop_first() =~= matches@.skip(j + 1));
            assert(matches@.skip(j as int)[0] == matches@[j as int]);
        }
        let m = &matches[j];
        match m.elo_snapshot.get(&id) {
            Some(change) => {
                points.push(RatingPoint { date: m.played_at.clone(), rating: change.rating_after() });
            },
            None => {},
        }
    }
    assert(matches@.skip(0) =~= matches@);
    points
}

/// The rating timeline of a roster over `matches`, which come newest first:
/// for each player with at least one snapshot, in roster order, the rating
/// after each match that the player took part in, oldest first.
pub fn build_elo_timeline(matches: &[Match], players: &[Player]) -> (series: Vec<RatingSeries>)
    ensures
        is_timeline(series@, matches@, players@),
{
    let n: usize = players.len();
    let mut series: Vec<RatingSeries> = Vec::new();
    let ghost has_history = |i: int| history_of(matches@, players@[i].id).len() > 0;
    let mut i: usize = 0;
    while i < n
        invariant
            i <= n == players.len(),
            has_history == |i: int| history_of(matches@, players@[i].id).len() > 0,
            series.len() == select(i as nat, has_history).len(),
            forall|k: int|
                0 <= k < series.len() ==> {
                    &&& (#[trigger] series@[k]).player == select(i as nat, has_history)[k]
                    &&& series@[k].player < i
                    &&& series@[k].color == series@[k].player % PALETTE_SIZE
                    &&& series@[k].points@ == history_of(
                        matches@,
                        players@[series@[k].player as int].id,
                    )
                },
        decreases n - i,
    {
        let points = player_history(matches, players[i].id);
        if points.len() > 0 {
            series.push(RatingSeries { player: i, color: i % PALETTE_SIZE, points });
        }
        i += 1;
    }
    series
}

} // verus!
