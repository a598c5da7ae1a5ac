//! Team balancing and paired rating updates for a small recurring league.
//!
//! The balancer ([`balance`]) divides a roster into two teams by exhaustive
//! search under a cost that weighs rating gap and tag imbalance ([`cost`]).
//! The rating engine ([`elo`]) turns a match result into one rating change
//! per team, the loser's being the exact opposite of the winner's.
//!
//! Nothing here is floating point. Every fractional quantity is an integer
//! that counts millionths: a rating of 1200 points is `1_200_000_000`, a
//! participation of one half is `500_000`, a multiplier of one and a half is
//! `1_500_000`. Divisions round toward zero. The one step that integers
//! cannot take, raising ten to a fractional power, is left to the caller:
//! the engine hands out the rating gap and takes the power back.

pub mod text;
pub mod tag;
pub mod models;
pub mod combos;
pub mod cost;
pub mod chance;
pub mod balance;
pub mod elo;
pub mod auth;
pub mod record;
pub mod history;
