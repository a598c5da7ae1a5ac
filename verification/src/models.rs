//! The league's data: players, team splits and rating snapshots.
//!
//! Ratings, rating changes, participation fractions and costs are integers
//! that count millionths; [`UNIT`] is the count that stands for one.

use crate::tag::{holds_tag, parse_tags, read_tags, tag_value_of, total_weight, Tag};
use vstd::prelude::*;

verus! {

/// The fixed-point count that stands for one whole.
pub const UNIT: i64 = 1_000_000;

/// Rating of a player who has not played yet: 1200 points.
pub const ELO_DEFAULT: i64 = 1_200_000_000;

/// Rating points at stake for each member of a team in one match.
pub const ELO_K_FACTOR: i64 = 32;

/// Largest goal-difference multiplier: two and a half.
pub const GD_MULTIPLIER_CAP: i64 = 2_500_000;

/// Rating points that one missing player-equivalent is worth.
pub const HANDICAP_PER_PLAYER: i64 = 100;

/// Largest roster that is checked in for one match day.
pub const MAX_PLAYERS: usize = 14;

/// Largest team on a match day.
pub const MAX_PER_TEAM: usize = 7;

/// A player of the league.
#[derive(Debug)]
pub struct Player {
    /// Unique identity; never changes.
    pub id: i32,
    /// Unique display name.
    pub name: String,
    /// Rating, in millionths of a point.
    pub elo: i64,
    /// Comma-separated capability tags, as entered.
    pub tags: String,
    /// Number of matches played so far.
    pub matches_played: i32,
}

impl Player {
    /// The tags that the player's tag field names.
    pub open spec fn tag_seq(self) -> Seq<Tag> {
        parse_tags(self.tags@)
    }

    /// Whether the player is tagged as a goalkeeper.
    pub open spec fn is_keeper(self) -> bool {
        self.tag_seq().contains(Tag::Gk)
    }

    /// Sum of the weights of the player's tags.
    pub open spec fn value(self) -> int {
        tag_value_of(self.tags@)
    }

    /// The player's tags, each once, in order of first appearance in the tag
    /// field; pieces of the field that name no tag are dropped.
    pub fn tags(&self) -> (r: Vec<Tag>)
        ensures
            r@ == self.tag_seq(),
            r@.no_duplicates(),
            r.len() <= 5,
    {
        read_tags(self.tags.as_str())
    }

    /// Whether the player carries `tag`.
    pub fn has_tag(&self, tag: Tag) -> (r: bool)
        ensures
            r == self.tag_seq().contains(tag),
    {
        let tags = self.tags();
        holds_tag(&tags, tag)
    }

    /// Sum of the weights of the player's tags: at most 120.
    pub fn tag_value(&self) -> (r: i32)
        ensures
            r == self.value(),
            0 <= r <= 120,
    {
        let tags = self.tags();
        total_weight(&tags)
    }
}

impl Clone for Player {
    fn clone(&self) -> (r: Self)
        ensures
            r == *self,
    {
        Player {
            id: self.id,
            name: self.name.clone(),
            elo: self.elo,
            tags: self.tags.clone(),
            matches_played: self.matches_played,
        }
    }
}

/// What one match did to one player's rating.
#[derive(Clone, Copy, Debug, PartialEq, Eq, Structural)]
pub struct EloSnapshot {
    /// Rating before the match, in millionths of a point.
    pub before: i64,
    /// Rating change of the player's team, in millionths of a point, before
    /// it is scaled by participation.
    pub delta: i64,
    /// Fraction of the match that the player took part in, in millionths.
    pub participation: u32,
}

impl EloSnapshot {
    /// Whether the player sat out part of the match.
    pub fn is_partial(&self) -> (r: bool)
        ensures
            r == (self.participation < UNIT),
    {
        self.participation < UNIT as u32
    }
}

/// A roster divided into two teams, with what the division costs.
#[derive(Debug)]
pub struct TeamSplit {
    pub team_a: Vec<Player>,
    pub team_b: Vec<Player>,
    /// Rating gap plus tag imbalance, in millionths of a point.
    pub cost: u128,
    /// Distance between the teams' average ratings, in millionths of a point.
    pub elo_diff: u64,
    /// Sum of the tag values of team A's players.
    pub tag_value_a: u128,
    /// Sum of the tag values of team B's players.
    pub tag_value_b: u128,
}

} // verus!
