//! What a division of players into two teams costs.

use crate::models::{Player, TeamSplit, UNIT};
use crate::tag::{holds_tag, lemma_tag_value_bounds, total_weight, Tag};
use vstd::prelude::*;

verus! {

/// How tag imbalance between two teams is priced.
#[derive(Clone, Copy, Debug, PartialEq, Eq, Structural)]
pub enum CostModel {
    /// Each team's tag values are summed over its players, and the distance
    /// between the two sums is the penalty.
    TagValues,
    /// For each tag the teams' head counts are compared, and each player of
    /// difference is charged the tag's count weight.
    TagCounts,
}

/// Sum of the ratings of `team`.
pub open spec fn rating_sum(team: Seq<Player>) -> int
    decreases team.len(),
{
    if team.len() == 0 {
        0
    } else {
        rating_sum(team.drop_last()) + team.last().elo
    }
}

/// The quotient of `a` by `b`, rounded toward zero.
pub open spec fn toward_zero(a: int, b: int) -> int {
    if a >= 0 {
        a / b
    } else {
        -((-a) / b)
    }
}

/// Average rating of `team`, rounded toward zero; zero for an empty team.
pub open spec fn average_of(team: Seq<Player>) -> int {
    if team.len() == 0 {
        0
    } else {
        toward_zero(rating_sum(team), team.len() as int)
    }
}

/// Sum of the tag values of the players of `team`.
pub open spec fn value_sum(team: Seq<Player>) -> int
    decreases team.len(),
{
    if team.len() == 0 {
        0
    } else {
        value_sum(team.drop_last()) + team.last().value()
    }
}

/// Number of players of `team` who carry `tag`.
pub open spec fn count_tagged(team: Seq<Player>, tag: Tag) -> int
    decreases team.len(),
{
    if team.len() == 0 {
        0
    } else {
        count_tagged(team.drop_last(), tag) + if team.last().tag_seq().contains(tag) {
            1int
        } else {
            0int
        }
    }
}

/// Distance between two numbers.
pub open spec fn distance(a: int, b: int) -> int {
    if a >= b {
        a - b
    } else {
        b - a
    }
}

/// What one player of head-count difference costs, by tag.
pub open spec fn count_weight(tag: Tag) -> int {
    match tag {
        Tag::Playmaker => 100,
        Tag::Runner => 80,
        Tag::Def => 40,
        Tag::Atk => 20,
        Tag::Gk => 0,
    }
}

/// Price of the head-count difference in `tag` between two teams.
pub open spec fn count_penalty(a: Seq<Player>, b: Seq<Player>, tag: Tag) -> int {
    count_weight(tag) * distance(count_tagged(a, tag), count_tagged(b, tag))
}

/// Tag imbalance between two teams, in whole points.
pub open spec fn tag_penalty(model: CostModel, a: Seq<Player>, b: Seq<Player>) -> int {
    match model {
        CostModel::TagValues => distance(value_sum(a), value_sum(b)),
        CostModel::TagCounts => count_penalty(a, b, Tag::Playmaker) + count_penalty(
            a,
            b,
            Tag::Runner,
        ) + count_penalty(a, b, Tag::Def) + count_penalty(a, b, Tag::Atk),
    }
}

/// Distance between the average ratings of two teams.
pub open spec fn elo_gap(a: Seq<Player>, b: Seq<Player>) -> int {
    distance(average_of(a), average_of(b))
}

/// Cost of playing `a` against `b`: the distance between the average ratings
/// plus the tag imbalance, in millionths of a point.
pub open spec fn split_cost(model: CostModel, a: Seq<Player>, b: Seq<Player>) -> int {
    elo_gap(a, b) + UNIT * tag_penalty(model, a, b)
}

/// Whether `s` holds the teams `a` and `b` with the figures that `model`
/// gives for them.
pub open spec fn is_split_of(s: TeamSplit, model: CostModel, a: Seq<Player>, b: Seq<Player>) -> bool {
    &&& s.team_a@ == a
    &&& s.team_b@ == b
    &&& s.cost == split_cost(model, a, b)
    &&& s.elo_diff == elo_gap(a, b)
    &&& s.tag_value_a == value_sum(a)
    &&& s.tag_value_b == value_sum(b)
}

/// A rating sum stays within its players' range.
pub proof fn lemma_rating_sum_bounds(team: Seq<Player>)
    ensures
        team.len() * i64::MIN <= rating_sum(team) <= team.len() * i64::MAX,
    decreases team.len(),
{
    if team.len() > 0 {
        lemma_rating_sum_bounds(team.drop_last());
        assert(team.len() * i64::MIN == (team.len() - 1) * i64::MIN + i64::MIN) by (nonlinear_arith);
        assert(team.len() * i64::MAX == (team.len() - 1) * i64::MAX + i64::MAX) by (nonlinear_arith);
    }
}

/// An average lies within its players' range.
pub proof fn lemma_average_bounds(team: Seq<Player>)
    ensures
        i64::MIN <= average_of(team) <= i64::MAX,
{
    if team.len() > 0 {
        lemma_rating_sum_bounds(team);
        let n = team.len() as int;
        let s = rating_sum(team);
        if s >= 0 {
            assert(s / n <= i64::MAX) by (nonlinear_arith)
                requires
                    0 <= s <= n * i64::MAX,
                    n > 0,
            ;
            assert(s / n >= 0) by (nonlinear_arith)
                requires
                    0 <= s,
                    n > 0,
            ;
        } else {
            assert((-s) / n <= -i64::MIN) by (nonlinear_arith)
                requires
                    0 <= -s <= n * (-i64::MIN),
                    n > 0,
            ;
            assert((-s) / n >= 0) by (nonlinear_arith)
                requires
                    0 <= -s,
                    n > 0,
            ;
        }
    }
}

/// A team's tag values sum to at most 120 for each player.
pub proof fn lemma_value_sum_bounds(team: Seq<Player>)
    ensures
        0 <= value_sum(team) <= 120 * team.len(),
    decreases team.len(),
{
    if team.len() > 0 {
        lemma_value_sum_bounds(team.drop_last());
        lemma_tag_value_bounds(team.last().tags@);
    }
}

/// A head count is at most the team's size.
pub proof fn lemma_count_tagged_bounds(team: Seq<Player>, tag: Tag)
    ensures
        0 <= count_tagged(team, tag) <= team.len(),
    decreases team.len(),
{
    if team.len() > 0 {
        lemma_count_tagged_bounds(team.drop_last(), tag);
    }
}

/// Average rating of a team, rounded toward zero; zero for an empty team.
pub fn average_elo(players: &[Player]) -> (r: i64)
    ensures
        r == average_of(players@),
{
    let n: usize = players.len();
    if n == 0 {
        return 0;
    }
    let mut sum: i128 = 0;
    let mut i: usize = 0;
    proof {
        assert(players@.take(0) =~= Seq::<Player>::empty());
    }
    while i < n
        invariant
            i <= n == players.len(),
            sum == rating_sum(players@.take(i as int)),
        decreases n - i,
    {
        proof {
            assert(players@.take(i + 1).drop_last() =~= players@.take(i as int));
            assert(players@.take(i + 1).last() == players@[i as int]);
            lemma_rating_sum_bounds(players@.take(i as int));
            assert(i * i64::MIN >= 0x1_0000_0000_0000_0000 * i64::MIN) by (nonlinear_arith)
                requires
                    0 <= i < 0x1_0000_0000_0000_0000,
            ;
            assert(i * i64::MAX <= 0x1_0000_0000_0000_0000 * i64::MAX) by (nonlinear_arith)
                requires
                    0 <= i < 0x1_0000_0000_0000_0000,
            ;
        }
        sum = sum + players[i].elo as i128;
        i += 1;
    }
    proof {
        assert(players@.take(n as int) =~= players@);
        lemma_average_bounds(players@);
        lemma_rating_sum_bounds(players@);
        assert(n * i64::MIN >= 0x1_0000_0000_0000_0000 * i64::MIN) by (nonlinear_arith)
            requires
                0 <= n < 0x1_0000_0000_0000_0000,
        ;
    }
    let width: u128 = n as u128;
    if sum >= 0 {
        let q: u128 = (sum as u128) / width;
        q as i64
    } else {
        let q: u128 = ((-sum) as u128) / width;
        if q == 0x8000_0000_0000_0000 {
            i64::MIN
        } else {
            -(q as i64)
        }
    }
}

/// Head counts by tag, and the summed tag value, of one team.
pub struct Tally {
    pub playmakers: usize,
    pub runners: usize,
    pub defenders: usize,
    pub attackers: usize,
    pub keepers: usize,
    pub value: u128,
}

impl Tally {
    /// Whether the tally holds the figures of `team`.
    pub open spec fn counts(self, team: Seq<Player>) -> bool {
        &&& self.playmakers == count_tagged(team, Tag::Playmaker)
        &&& self.runners == count_tagged(team, Tag::Runner)
        &&& self.defenders == count_tagged(team, Tag::Def)
        &&& self.attackers == count_tagged(team, Tag::Atk)
        &&& self.keepers == count_tagged(team, Tag::Gk)
        &&& self.value == value_sum(team)
    }
}

/// Counts the tags of a team and sums its tag values.
pub fn tally(team: &[Player]) -> (t: Tally)
    ensures
        t.counts(team@),
{
    let n: usize = team.len();
    let mut t = Tally { playmakers: 0, runners: 0, defenders: 0, attackers: 0, keepers: 0, value: 0 };
    let mut i: usize = 0;
    proof {
        assert(team@.take(0) =~= Seq::<Player>::empty());
    }
    while i < n
        invariant
            i <= n == team.len(),
            t.counts(team@.take(i as int)),
        decreases n - i,
    {
        proof {
            let upto = team@.take(i as int);
            assert(team@.take(i + 1).drop_last() =~= upto);
            assert(team@.take(i + 1).last() == team@[i as int]);
            lemma_count_tagged_bounds(upto, Tag::Playmaker);
            lemma_count_tagged_bounds(upto, Tag::Runner);
            lemma_count_tagged_bounds(upto, Tag::Def);
            lemma_count_tagged_bounds(upto, Tag::Atk);
            lemma_count_tagged_bounds(upto, Tag::Gk);
            lemma_value_sum_bounds(upto);
            lemma_tag_value_bounds(team@[i as int].tags@);
        }
        let tags = team[i].tags();
        if holds_tag(&tags, Tag::Playmaker) {
            t.playmakers = t.playmakers + 1;
        }
        if holds_tag(&tags, Tag::Runner) {
            t.runners = t.runners + 1;
        }
        if holds_tag(&tags, Tag::Def) {
            t.defenders = t.defenders + 1;
        }
        if holds_tag(&tags, Tag::Atk) {
            t.attackers = t.attackers + 1;
        }
        if holds_tag(&tags, Tag::Gk) {
            t.keepers = t.keepers + 1;
        }
        let worth: i32 = total_weight(&tags);
        t.value = t.value + worth as u128;
        i += 1;
    }
    proof {
        assert(team@.take(n as int) =~= team@);
    }
    t
}

/// Price of a head-count difference, in whole points.
fn priced(weight: u128, a: usize, b: usize) -> (r: u128)
    requires
        weight <= 100,
    ensures
        r == weight * distance(a as int, b as int),
        r <= 100 * usize::MAX,
{
    let d: usize = if a >= b {
        a - b
    } else {
        b - a
    };
    assert(weight * d <= 100 * usize::MAX) by (nonlinear_arith)
        requires
            0 <= weight <= 100,
            0 <= d <= usize::MAX,
    ;
    weight * (d as u128)
}

/// Copies a team.
pub fn clone_team(team: &[Player]) -> (r: Vec<Player>)
    ensures
        r@ == team@,
{
    let n: usize = team.len();
    let mut r: Vec<Player> = Vec::new();
    let mut i: usize = 0;
    while i < n
        invariant
            i <= n == team.len(),
            r@ == team@.take(i as int),
        decreases n - i,
    {
        r.push(team[i].clone());
        assert(team@.take(i + 1) =~= team@.take(i as int).push(team@[i as int]));
        i += 1;
    }
    assert(team@.take(n as int) =~= team@);
    r
}

/// Takes two teams into a split and works out what it costs.
pub fn assess(team_a: Vec<Player>, team_b: Vec<Player>, model: CostModel) -> (s: TeamSplit)
    ensures
        is_split_of(s, model, team_a@, team_b@),
{
    let elo_a: i64 = average_elo(team_a.as_slice());
    let elo_b: i64 = average_elo(team_b.as_slice());
    let elo_diff: u64 = if elo_a >= elo_b {
        (elo_a as i128 - elo_b as i128) as u64
    } else {
        (elo_b as i128 - elo_a as i128) as u64
    };
    let ta = tally(team_a.as_slice());
    let tb = tally(team_b.as_slice());
    proof {
        lemma_value_sum_bounds(team_a@);
        lemma_value_sum_bounds(team_b@);
        assert(team_a@.len() == team_a.len() <= usize::MAX);
        assert(team_b@.len() == team_b.len() <= usize::MAX);
    }
    let penalty: u128 = match model {
        CostModel::TagValues => if ta.value >= tb.value {
            ta.value - tb.value
        } else {
            tb.value - ta.value
        },
        CostModel::TagCounts => priced(100, ta.playmakers, tb.playmakers) + priced(
            80,
            ta.runners,
            tb.runners,
        ) + priced(40, ta.defenders, tb.defenders) + priced(20, ta.attackers, tb.attackers),
    };
    assert(penalty == tag_penalty(model, team_a@, team_b@));
    assert(penalty <= 400 * usize::MAX);
    assert(1_000_000 * penalty <= 400_000_000 * usize::MAX) by (nonlinear_arith)
        requires
            penalty <= 400 * usize::MAX,
    ;
    let cost: u128 = elo_diff as u128 + UNIT as u128 * penalty;
    TeamSplit { team_a, team_b, cost, elo_diff, tag_value_a: ta.value, tag_value_b: tb.value }
}

/// The split that plays `team_a` against `team_b`, with its cost under
/// `model`.
pub fn calculate_split_cost(team_a: &[Player], team_b: &[Player], model: CostModel) -> (s: TeamSplit)
    ensures
        is_split_of(s, model, team_a@, team_b@),
{
    assess(clone_team(team_a), clone_team(team_b), model)
}

} // verus!
