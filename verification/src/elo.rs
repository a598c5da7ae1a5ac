//! The paired rating update: what a match result does to both teams.
//!
//! The one step that integers cannot take, raising ten to a fractional
//! power, is left to the caller. [`rating_gap`] supplies the gap that the
//! power is taken of, and [`calculate_elo_changes`] takes the power back, as
//! the odds against team A.

use crate::cost::{average_elo, average_of, toward_zero};
use crate::models::{
    EloSnapshot, Player, ELO_K_FACTOR, GD_MULTIPLIER_CAP, HANDICAP_PER_PLAYER, UNIT,
};
use std::collections::HashMap;
use vstd::prelude::*;

verus! {

broadcast use vstd::std_specs::hash::group_hash_axioms;

/// The participation recorded for the player `id`, in millionths; a player
/// without a record took part in full.
pub open spec fn participation_of(participation: Map<i32, u32>, id: i32) -> int {
    if participation.contains_key(id) {
        participation[id] as int
    } else {
        UNIT as int
    }
}

/// Effective size of `team`: the sum of its players' participations, in
/// millionths of a player.
pub open spec fn effective_size(team: Seq<Player>, participation: Map<i32, u32>) -> int
    decreases team.len(),
{
    if team.len() == 0 {
        0
    } else {
        effective_size(team.drop_last(), participation) + participation_of(
            participation,
            team.last().id,
        )
    }
}

/// The handicap of team A against team B, in millionths of a point: positive
/// where team A fields fewer effective players.
pub open spec fn handicap_of(
    team_a: Seq<Player>,
    team_b: Seq<Player>,
    participation: Map<i32, u32>,
) -> int {
    (effective_size(team_b, participation) - effective_size(team_a, participation))
        * HANDICAP_PER_PLAYER
}

/// How far team B's average rating stands above team A's once team A's is
/// lowered by its handicap, in millionths of a point.
pub open spec fn rating_gap_of(
    team_a: Seq<Player>,
    team_b: Seq<Player>,
    participation: Map<i32, u32>,
) -> int {
    average_of(team_b) - (average_of(team_a) - handicap_of(team_a, team_b, participation))
}

/// Team A's actual score, in millionths: one for a win, none for a loss, a
/// half for a draw.
pub open spec fn actual_score(score_a: int, score_b: int) -> int {
    if score_a > score_b {
        UNIT as int
    } else if score_a < score_b {
        0
    } else {
        UNIT / 2
    }
}

/// The goal-difference multiplier, in millionths: one up to a difference of
/// one goal, half more for each further goal, and never above the cap.
pub open spec fn multiplier_of(goal_diff: int) -> int {
    if goal_diff <= 1 {
        UNIT as int
    } else if UNIT + (goal_diff - 1) * (UNIT / 2) <= GD_MULTIPLIER_CAP {
        UNIT + (goal_diff - 1) * (UNIT / 2)
    } else {
        GD_MULTIPLIER_CAP as int
    }
}

/// The expected score, in millionths, of a team that plays against the odds
/// `odds`, in millionths: one in one plus the odds, rounded down. At even
/// odds that is one half.
pub open spec fn expected_of(odds: int) -> int {
    (UNIT * UNIT) / (UNIT + odds)
}

/// Distance between two scores.
pub open spec fn goal_gap(score_a: int, score_b: int) -> int {
    if score_a >= score_b {
        score_a - score_b
    } else {
        score_b - score_a
    }
}

/// The rating change of every member of team A, in millionths of a point:
/// the K-factor times the multiplier times what the actual score exceeds the
/// expected score by, rounded toward zero.
pub open spec fn delta_of(score_a: int, score_b: int, expected_a: int) -> int {
    toward_zero(
        ELO_K_FACTOR * multiplier_of(goal_gap(score_a, score_b)) * (actual_score(score_a, score_b)
            - expected_a),
        UNIT as int,
    )
}

/// The snapshot of `player` for a match that changes the rating of the
/// player's team by `delta`.
pub open spec fn snapshot_of(player: Player, delta: int, participation: Map<i32, u32>) -> EloSnapshot {
    EloSnapshot {
        before: player.elo,
        delta: delta as i64,
        participation: participation_of(participation, player.id) as u32,
    }
}

/// `changes` with the snapshot of each player of `team` put in under the
/// player's id, in team order.
pub open spec fn record(
    changes: Map<i32, EloSnapshot>,
    team: Seq<Player>,
    delta: int,
    participation: Map<i32, u32>,
) -> Map<i32, EloSnapshot>
    decreases team.len(),
{
    if team.len() == 0 {
        changes
    } else {
        record(changes, team.drop_last(), delta, participation).insert(
            team.last().id,
            snapshot_of(team.last(), delta, participation),
        )
    }
}

/// The snapshots of one match: those of team A with the team's rating
/// change, then those of team B with the opposite change.
pub open spec fn changes_of(
    team_a: Seq<Player>,
    team_b: Seq<Player>,
    score_a: int,
    score_b: int,
    participation: Map<i32, u32>,
    expected_a: int,
) -> Map<i32, EloSnapshot> {
    let delta = delta_of(score_a, score_b, expected_a);
    record(record(Map::empty(), team_a, delta, participation), team_b, -delta, participation)
}

/// An effective size is at most the largest participation for each player.
pub proof fn lemma_effective_size_bounds(team: Seq<Player>, participation: Map<i32, u32>)
    ensures
        0 <= effective_size(team, participation) <= team.len() * u32::MAX,
    decreases team.len(),
{
    if team.len() > 0 {
        lemma_effective_size_bounds(team.drop_last(), participation);
        assert(team.len() * u32::MAX == (team.len() - 1) * u32::MAX + u32::MAX) by (nonlinear_arith);
    }
}

/// A rating change is at most the K-factor times the cap times the largest
/// expected score that the argument's type admits.
pub proof fn lemma_delta_bounds(score_a: int, score_b: int, expected_a: int)
    requires
        0 <= expected_a <= u32::MAX,
    ensures
        -343_597_383_600 <= delta_of(score_a, score_b, expected_a) <= 80_000_000,
{
    let m = multiplier_of(goal_gap(score_a, score_b));
    let diff = actual_score(score_a, score_b) - expected_a;
    assert(UNIT <= m <= GD_MULTIPLIER_CAP);
    let raw = ELO_K_FACTOR * m * diff;
    assert(-343_597_383_600_000_000 <= raw <= 80_000_000_000_000) by (nonlinear_arith)
        requires
            raw == 32 * m * diff,
            1_000_000 <= m <= 2_500_000,
            -4_294_967_295 <= diff <= 1_000_000,
    ;
}

/// The expected score of a team, given the odds against it.
///
/// The odds against team A are ten to the power of [`rating_gap`] over 400
/// points; with them this is the logistic curve `1 / (1 + 10^(gap / 400))`.
/// Odds and expected score are in millionths, and the quotient is rounded
/// down.
pub fn expected_score(odds: u64) -> (expected: u32)
    ensures
        expected == expected_of(odds as int),
        expected <= UNIT,
{
    let whole: u128 = UNIT as u128;
    proof {
        lemma_expected_falls_with_odds(odds as int, odds as int);
    }
    let e: u128 = (whole * whole) / (whole + odds as u128);
    e as u32
}

/// The goal-difference multiplier: one up to a difference of one goal, half
/// more for each further goal, two and a half from four goals on.
pub fn goal_diff_multiplier(goal_diff: i64) -> (m: i64)
    ensures
        m == multiplier_of(goal_diff as int),
        UNIT <= m <= GD_MULTIPLIER_CAP,
{
    assert(UNIT / 2 == 500_000);
    if goal_diff <= 1 {
        UNIT
    } else if goal_diff >= 4 {
        assert((goal_diff - 1) * 500_000 >= 1_500_000);
        GD_MULTIPLIER_CAP
    } else {
        UNIT + (goal_diff - 1) * (UNIT / 2)
    }
}

/// The participation recorded for the player `id`; a player without a
/// record took part in full.
pub fn participation_for(participation: &HashMap<i32, u32>, id: i32) -> (r: u32)
    ensures
        r == participation_of(participation@, id),
{
    match participation.get(&id) {
        Some(v) => *v,
        None => UNIT as u32,
    }
}

/// Effective size of a team: the sum of its players' participations.
pub fn effective_team_size(team: &[Player], participation: &HashMap<i32, u32>) -> (r: u128)
    ensures
        r == effective_size(team@, participation@),
{
    let n: usize = team.len();
    let mut sum: u128 = 0;
    let mut i: usize = 0;
    proof {
        assert(team@.take(0) =~= Seq::<Player>::empty());
    }
    while i < n
        invariant
            i <= n == team.len(),
            sum == effective_size(team@.take(i as int), participation@),
        decreases n - i,
    {
        proof {
            assert(team@.take(i + 1).drop_last() =~= team@.take(i as int));
            assert(team@.take(i + 1).last() == team@[i as int]);
            lemma_effective_size_bounds(team@.take(i as int), participation@);
            assert(i * u32::MAX <= usize::MAX * u32::MAX) by (nonlinear_arith)
                requires
                    0 <= i <= usize::MAX,
            ;
        }
        sum = sum + participation_for(participation, team[i].id) as u128;
        i += 1;
    }
    proof {
        assert(team@.take(n as int) =~= team@);
    }
    sum
}

/// How far team B's average rating stands above team A's once team A's is
/// lowered by its handicap, in millionths of a point.
///
/// Team A's expected score is the logistic curve `1 / (1 + 10^(gap / 400))`
/// at this gap, taken in points. A team that fields fewer effective players
/// meets a larger gap, hence a lower expected score.
pub fn rating_gap(team_a: &[Player], team_b: &[Player], participation: &HashMap<i32, u32>) -> (gap:
    i128)
    ensures
        gap == rating_gap_of(team_a@, team_b@, participation@),
{
    let elo_a: i64 = average_elo(team_a);
    let elo_b: i64 = average_elo(team_b);
    let size_a: u128 = effective_team_size(team_a, participation);
    let size_b: u128 = effective_team_size(team_b, participation);
    proof {
        lemma_effective_size_bounds(team_a@, participation@);
        lemma_effective_size_bounds(team_b@, participation@);
        assert(team_a@.len() == team_a.len() <= usize::MAX);
        assert(team_b@.len() == team_b.len() <= usize::MAX);
        assert(team_a@.len() * u32::MAX <= usize::MAX * u32::MAX) by (nonlinear_arith)
            requires
                0 <= team_a@.len() <= usize::MAX,
        ;
        assert(team_b@.len() * u32::MAX <= usize::MAX * u32::MAX) by (nonlinear_arith)
            requires
                0 <= team_b@.len() <= usize::MAX,
        ;
    }
    let handicap: i128 = (size_b as i128 - size_a as i128) * HANDICAP_PER_PLAYER as i128;
    elo_b as i128 - (elo_a as i128 - handicap)
}

/// The rating change of every member of team A for a result, given team A's
/// expected score in millionths. Team B's members change by the opposite.
pub fn team_delta(score_a: i32, score_b: i32, expected_a: u32) -> (delta: i64)
    ensures
        delta == delta_of(score_a as int, score_b as int, expected_a as int),
        -343_597_383_600 <= delta <= 80_000_000,
{
    let a: i64 = score_a as i64;
    let b: i64 = score_b as i64;
    let actual: i64 = if a > b {
        UNIT
    } else if a < b {
        0
    } else {
        UNIT / 2
    };
    let gap: i64 = if a >= b {
        a - b
    } else {
        b - a
    };
    let multiplier: i64 = goal_diff_multiplier(gap);
    let diff: i64 = actual - expected_a as i64;
    proof {
        lemma_delta_bounds(score_a as int, score_b as int, expected_a as int);
        assert(-343_597_383_600_000_000 <= 32 * multiplier * diff <= 80_000_000_000_000)
            by (nonlinear_arith)
            requires
                1_000_000 <= multiplier <= 2_500_000,
                -4_294_967_295 <= diff <= 1_000_000,
        ;
        assert(-85_899_345_900_000_000 <= 32 * multiplier <= 80_000_000);
    }
    let raw: i64 = ELO_K_FACTOR * multiplier * diff;
    if raw >= 0 {
        raw / UNIT
    } else {
        -((-raw) / UNIT)
    }
}

/// Puts the snapshot of each player of `team` into `changes`, in team order.
pub fn record_team(
    changes: &mut HashMap<i32, EloSnapshot>,
    team: &[Player],
    delta: i64,
    participation: &HashMap<i32, u32>,
)
    ensures
        final(changes)@ == record(old(changes)@, team@, delta as int, participation@),
{
    let n: usize = team.len();
    let mut i: usize = 0;
    proof {
        assert(team@.take(0) =~= Seq::<Player>::empty());
    }
    while i < n
        invariant
            i <= n == team.len(),
            changes@ == record(old(changes)@, team@.take(i as int), delta as int, participation@),
        decreases n - i,
    {
        proof {
            assert(team@.take(i + 1).drop_last() =~= team@.take(i as int));
            assert(team@.take(i + 1).last() == team@[i as int]);
        }
        let player = &team[i];
        let share: u32 = participation_for(participation, player.id);
        changes.insert(player.id, EloSnapshot { before: player.elo, delta, participation: share });
        i += 1;
    }
    proof {
        assert(team@.take(n as int) =~= team@);
    }
}

/// The rating snapshots of one match, keyed by player id.
///
/// `odds_against_a` is ten to the power of [`rating_gap`] over 400 points, in
/// millionths; team A's expected score follows from it as
/// [`expected_score`] says. Every member of team A gets the same rating change,
/// every member of team B the opposite one; neither is scaled by
/// participation, which each snapshot carries beside it. A player without a
/// participation record took part in full. Where an id occurs twice, the
/// later player's snapshot stands, and team B comes after team A.
pub fn calculate_elo_changes(
    team_a: &[Player],
    team_b: &[Player],
    score_a: i32,
    score_b: i32,
    participation: &HashMap<i32, u32>,
    odds_against_a: u64,
) -> (changes: HashMap<i32, EloSnapshot>)
    ensures
        changes@ == changes_of(
            team_a@,
            team_b@,
            score_a as int,
            score_b as int,
            participation@,
            expected_of(odds_against_a as int),
        ),
{
    let expected_a: u32 = expected_score(odds_against_a);
    let delta_a: i64 = team_delta(score_a, score_b, expected_a);
    let delta_b: i64 = -delta_a;
    let mut changes: HashMap<i32, EloSnapshot> = HashMap::new();
    record_team(&mut changes, team_a, delta_a, participation);
    record_team(&mut changes, team_b, delta_b, participation);
    changes
}

impl EloSnapshot {
    /// The rating change that reaches the player: the team's change scaled by
    /// the player's participation, rounded toward zero.
    pub open spec fn effective(self) -> int {
        toward_zero(self.delta * self.participation, UNIT as int)
    }

    /// The rating change that reaches the player: the team's change scaled by
    /// the player's participation, rounded toward zero.
    pub fn effective_delta(&self) -> (r: i128)
        ensures
            r == self.effective(),
            self.participation == UNIT ==> r == self.delta,
    {
        let delta: i128 = self.delta as i128;
        let share: i128 = self.participation as i128;
        assert(-0x8000_0000_0000_0000 * 0x1_0000_0000 <= delta * share <= 0x8000_0000_0000_0000
            * 0x1_0000_0000) by (nonlinear_arith)
            requires
                -0x8000_0000_0000_0000 <= delta <= 0x8000_0000_0000_0000,
                0 <= share <= 0x1_0000_0000,
        ;
        let product: i128 = delta * share;
        proof {
            if self.participation == UNIT {
                lemma_scaled_by_unit(self.delta as int);
            }
        }
        if product >= 0 {
            product / UNIT as i128
        } else {
            -((-product) / UNIT as i128)
        }
    }

    /// The player's rating after the match, in millionths of a point.
    pub fn rating_after(&self) -> (r: i128)
        ensures
            r == self.before + self.effective(),
    {
        let change: i128 = self.effective_delta();
        proof {
            let d = self.delta as int;
            let p = self.participation as int;
            assert(-0x8000_0000_0000_0000 * 0x1_0000_0000 <= d * p <= 0x8000_0000_0000_0000
                * 0x1_0000_0000) by (nonlinear_arith)
                requires
                    -0x8000_0000_0000_0000 <= d <= 0x8000_0000_0000_0000,
                    0 <= p <= 0x1_0000_0000,
            ;
        }
        self.before as i128 + change
    }
}

/// A number scaled by one whole stays what it is.
pub proof fn lemma_scaled_by_unit(x: int)
    ensures
        toward_zero(x * UNIT, UNIT as int) == x,
{
    if x >= 0 {
        assert((x * 1_000_000) / 1_000_000 == x) by (nonlinear_arith);
    } else {
        assert(-(x * 1_000_000) == (-x) * 1_000_000) by (nonlinear_arith);
        assert(((-x) * 1_000_000) / 1_000_000 == -x) by (nonlinear_arith);
    }
}

/// Whether no two players of `players` share an id.
pub open spec fn distinct_ids(players: Seq<Player>) -> bool {
    forall|i: int, j: int| 0 <= i < j < players.len() ==> players[i].id != players[j].id
}

/// Sum of the rating changes that `changes` holds for the players of `team`.
pub open spec fn delta_sum(team: Seq<Player>, changes: Map<i32, EloSnapshot>) -> int
    decreases team.len(),
{
    if team.len() == 0 {
        0
    } else {
        delta_sum(team.drop_last(), changes) + changes[team.last().id].delta
    }
}

/// Recording a team leaves the entries of everyone else as they were.
pub proof fn lemma_record_other(
    changes: Map<i32, EloSnapshot>,
    team: Seq<Player>,
    delta: int,
    participation: Map<i32, u32>,
    id: i32,
)
    requires
        forall|i: int| 0 <= i < team.len() ==> (#[trigger] team[i]).id != id,
    ensures
        record(changes, team, delta, participation).contains_key(id) == changes.contains_key(id),
        record(changes, team, delta, participation)[id] == changes[id],
    decreases team.len(),
{
    if team.len() > 0 {
        let before = team.drop_last();
        assert forall|i: int| 0 <= i < before.len() implies (#[trigger] before[i]).id != id by {
            assert(before[i] == team[i]);
        }
        lemma_record_other(changes, before, delta, participation, id);
        assert(team[team.len() - 1].id != id);
    }
}

/// Recording a team leaves under each id the snapshot of the last player
/// who carries it.
pub proof fn lemma_record_member(
    changes: Map<i32, EloSnapshot>,
    team: Seq<Player>,
    delta: int,
    participation: Map<i32, u32>,
    i: int,
)
    requires
        0 <= i < team.len(),
        forall|j: int| i < j < team.len() ==> (#[trigger] team[j]).id != team[i].id,
    ensures
        record(changes, team, delta, participation).contains_key(team[i].id),
        record(changes, team, delta, participation)[team[i].id] == snapshot_of(
            team[i],
            delta,
            participation,
        ),
    decreases team.len(),
{
    if i < team.len() - 1 {
        let before = team.drop_last();
        assert(before[i] == team[i]);
        assert forall|j: int| i < j < before.len() implies (#[trigger] before[j]).id
            != before[i].id by {
            assert(before[j] == team[j]);
        }
        lemma_record_member(changes, before, delta, participation, i);
        assert(team[team.len() - 1].id != team[i].id);
    }
}

/// With no id shared, a match leaves every player of team A the snapshot
/// with the team's rating change and every player of team B the snapshot
/// with the opposite change.
pub proof fn lemma_changes_entries(
    team_a: Seq<Player>,
    team_b: Seq<Player>,
    score_a: int,
    score_b: int,
    participation: Map<i32, u32>,
    expected_a: int,
)
    requires
        distinct_ids(team_a + team_b),
    ensures
        forall|i: int|
            0 <= i < team_a.len() ==> {
                let changes = changes_of(team_a, team_b, score_a, score_b, participation, expected_a);
                &&& changes.contains_key((#[trigger] team_a[i]).id)
                &&& changes[team_a[i].id] == snapshot_of(
                    team_a[i],
                    delta_of(score_a, score_b, expected_a),
                    participation,
                )
            },
        forall|j: int|
            0 <= j < team_b.len() ==> {
                let changes = changes_of(team_a, team_b, score_a, score_b, participation, expected_a);
                &&& changes.contains_key((#[trigger] team_b[j]).id)
                &&& changes[team_b[j].id] == snapshot_of(
                    team_b[j],
                    -delta_of(score_a, score_b, expected_a),
                    participation,
                )
            },
{
    let delta = delta_of(score_a, score_b, expected_a);
    let both = team_a + team_b;
    let first = record(Map::empty(), team_a, delta, participation);
    let changes = changes_of(team_a, team_b, score_a, score_b, participation, expected_a);
    assert forall|i: int| 0 <= i < team_a.len() implies changes.contains_key(
        (#[trigger] team_a[i]).id,
    ) && changes[team_a[i].id] == snapshot_of(team_a[i], delta, participation) by {
        assert forall|j: int| i < j < team_a.len() implies (#[trigger] team_a[j]).id
            != team_a[i].id by {
            assert(both[i] == team_a[i] && both[j] == team_a[j]);
        }
        lemma_record_member(Map::empty(), team_a, delta, participation, i);
        assert forall|j: int| 0 <= j < team_b.len() implies (#[trigger] team_b[j]).id
            != team_a[i].id by {
            assert(both[i] == team_a[i] && both[team_a.len() + j] == team_b[j]);
        }
        lemma_record_other(first, team_b, -delta, participation, team_a[i].id);
    }
    assert forall|j: int| 0 <= j < team_b.len() implies changes.contains_key(
        (#[trigger] team_b[j]).id,
    ) && changes[team_b[j].id] == snapshot_of(team_b[j], -delta, participation) by {
        assert forall|q: int| j < q < team_b.len() implies (#[trigger] team_b[q]).id
            != team_b[j].id by {
            assert(both[team_a.len() + j] == team_b[j] && both[team_a.len() + q] == team_b[q]);
        }
        lemma_record_member(first, team_b, -delta, participation, j);
    }
}

/// Rating changes add up over teams put one after another.
pub proof fn lemma_delta_sum_concat(x: Seq<Player>, y: Seq<Player>, changes: Map<i32, EloSnapshot>)
    ensures
        delta_sum(x + y, changes) == delta_sum(x, changes) + delta_sum(y, changes),
    decreases y.len(),
{
    if y.len() == 0 {
        assert(x + y =~= x);
    } else {
        assert((x + y).drop_last() =~= x + y.drop_last());
        assert((x + y).last() == y.last());
        lemma_delta_sum_concat(x, y.drop_last(), changes);
    }
}

/// A team whose players all changed by `delta` changed by `delta` times its
/// size.
pub proof fn lemma_delta_sum_uniform(team: Seq<Player>, changes: Map<i32, EloSnapshot>, delta: int)
    requires
        forall|i: int| 0 <= i < team.len() ==> changes[(#[trigger] team[i]).id].delta == delta,
    ensures
        delta_sum(team, changes) == team.len() * delta,
    decreases team.len(),
{
    if team.len() > 0 {
        let before = team.drop_last();
        assert forall|i: int| 0 <= i < before.len() implies changes[(#[trigger] before[i]).id].delta
            == delta by {
            assert(before[i] == team[i]);
        }
        lemma_delta_sum_uniform(before, changes, delta);
        assert(team[team.len() - 1] == team.last());
        assert(team.len() * delta == (team.len() - 1) * delta + delta) by (nonlinear_arith);
    }
}

/// The rating changes of one match, summed over all its players, come to
/// the team's change times the difference between the teams' head counts.
pub proof fn lemma_delta_pool(
    team_a: Seq<Player>,
    team_b: Seq<Player>,
    score_a: int,
    score_b: int,
    participation: Map<i32, u32>,
    expected_a: int,
)
    requires
        distinct_ids(team_a + team_b),
        0 <= expected_a <= u32::MAX,
    ensures
        delta_sum(
            team_a + team_b,
            changes_of(team_a, team_b, score_a, score_b, participation, expected_a),
        ) == (team_a.len() - team_b.len()) * delta_of(score_a, score_b, expected_a),
{
    let delta = delta_of(score_a, score_b, expected_a);
    let changes = changes_of(team_a, team_b, score_a, score_b, participation, expected_a);
    lemma_delta_bounds(score_a, score_b, expected_a);
    lemma_changes_entries(team_a, team_b, score_a, score_b, participation, expected_a);
    lemma_delta_sum_uniform(team_a, changes, delta);
    lemma_delta_sum_uniform(team_b, changes, -delta);
    lemma_delta_sum_concat(team_a, team_b, changes);
    assert(team_a.len() * delta + team_b.len() * (-delta) == (team_a.len() - team_b.len()) * delta)
        by (nonlinear_arith);
}

/// The rating changes of a match between teams of equal head count sum to
/// zero over all players: what one team gains, the other loses. The same
/// holds between any two teams where the rating change is zero.
pub proof fn lemma_zero_sum(
    team_a: Seq<Player>,
    team_b: Seq<Player>,
    score_a: int,
    score_b: int,
    participation: Map<i32, u32>,
    expected_a: int,
)
    requires
        distinct_ids(team_a + team_b),
        0 <= expected_a <= u32::MAX,
        team_a.len() == team_b.len() || delta_of(score_a, score_b, expected_a) == 0,
    ensures
        delta_sum(
            team_a + team_b,
            changes_of(team_a, team_b, score_a, score_b, participation, expected_a),
        ) == 0,
{
    lemma_delta_pool(team_a, team_b, score_a, score_b, participation, expected_a);
    let delta = delta_of(score_a, score_b, expected_a);
    assert((team_a.len() - team_b.len()) * delta == 0) by (nonlinear_arith)
        requires
            team_a.len() == team_b.len() || delta == 0,
    ;
}

/// The lower the odds against a team, the higher its expected score; and
/// the expected score lies between none and one.
pub proof fn lemma_expected_falls_with_odds(lower: int, higher: int)
    requires
        0 <= lower <= higher,
    ensures
        0 <= expected_of(higher) <= expected_of(lower) <= UNIT,
{
    let top = UNIT * UNIT;
    assert(top / (UNIT + higher) <= top / (UNIT + lower)) by (nonlinear_arith)
        requires
            top >= 0,
            0 < UNIT + lower <= UNIT + higher,
    ;
    assert(top / (UNIT + lower) <= UNIT) by (nonlinear_arith)
        requires
            top == UNIT * UNIT,
            UNIT > 0,
            lower >= 0,
    ;
    assert(top / (UNIT + higher) >= 0) by (nonlinear_arith)
        requires
            top >= 0,
            UNIT + higher > 0,
    ;
}

/// Between teams of equal average rating and equal effective size the
/// rating gap is zero. At even odds, which is ten to the power of no gap, the
/// expected score is one half, and a draw changes nobody's rating.
pub proof fn lemma_level_draw(
    team_a: Seq<Player>,
    team_b: Seq<Player>,
    participation: Map<i32, u32>,
    score: int,
)
    requires
        average_of(team_a) == average_of(team_b),
        effective_size(team_a, participation) == effective_size(team_b, participation),
    ensures
        rating_gap_of(team_a, team_b, participation) == 0,
        expected_of(UNIT as int) == UNIT / 2,
        delta_of(score, score, expected_of(UNIT as int)) == 0,
{
    assert(ELO_K_FACTOR * multiplier_of(0) * 0 == 0);
}

/// Against a team of equal average rating, the team of lower effective
/// size meets a positive rating gap. Against odds above even, which is ten to
/// the power of a positive gap, the expected score is below one half, and
/// whoever draws gains rating.
pub proof fn lemma_short_handed_draw(
    team_a: Seq<Player>,
    team_b: Seq<Player>,
    participation: Map<i32, u32>,
    score: int,
    odds: int,
)
    requires
        average_of(team_a) == average_of(team_b),
        effective_size(team_a, participation) < effective_size(team_b, participation),
        odds > UNIT,
    ensures
        rating_gap_of(team_a, team_b, participation) > 0,
        expected_of(odds) < UNIT / 2,
        delta_of(score, score, expected_of(odds)) > 0,
{
    let short = effective_size(team_b, participation) - effective_size(team_a, participation);
    assert(short * HANDICAP_PER_PLAYER > 0) by (nonlinear_arith)
        requires
            short > 0,
            HANDICAP_PER_PLAYER == 100,
    ;
    lemma_expected_falls_with_odds(UNIT + 1, odds);
    assert(expected_of(UNIT + 1) == 499_999);
    let diff = UNIT / 2 - expected_of(odds);
    assert(multiplier_of(0) == 1_000_000);
    assert(ELO_K_FACTOR * 1_000_000 * diff == (32 * diff) * 1_000_000) by (nonlinear_arith)
        requires
            ELO_K_FACTOR == 32,
    ;
    lemma_scaled_by_unit(32 * diff);
}

/// The goal-difference multiplier is one for a difference of no goal or
/// one, one and a half for two, two for three, and two and a half, the cap,
/// from four goals on.
pub proof fn lemma_multiplier_steps()
    ensures
        multiplier_of(0) == UNIT,
        multiplier_of(1) == UNIT,
        multiplier_of(2) == 1_500_000,
        multiplier_of(3) == 2_000_000,
        forall|d: int| d >= 4 ==> #[trigger] multiplier_of(d) == GD_MULTIPLIER_CAP,
{
    assert(UNIT / 2 == 500_000);
    assert forall|d: int| d >= 4 implies #[trigger] multiplier_of(d) == GD_MULTIPLIER_CAP by {
        assert((d - 1) * 500_000 >= 1_500_000);
    }
}

} // verus!
