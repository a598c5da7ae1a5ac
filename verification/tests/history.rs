use league::history::{build_elo_timeline, player_history, Match, Outcome, PALETTE_SIZE};
use league::models::{EloSnapshot, Player};
use std::collections::HashMap;

fn make_player(id: i32, name: &str, elo: i64) -> Player {
    Player { id, name: name.to_string(), elo, tags: String::new(), matches_played: 0 }
}

fn make_match(id: i32, day: &str, score: (i32, i32), changes: &[(i32, i64, i64, u32)]) -> Match {
    let mut elo_snapshot = HashMap::new();
    for (player, before, delta, participation) in changes {
        elo_snapshot.insert(
            *player,
            EloSnapshot { before: *before, delta: *delta, participation: *participation },
        );
    }
    Match {
        id,
        played_at: day.to_string(),
        team_a: Vec::new(),
        team_b: Vec::new(),
        score_a: score.0,
        score_b: score.1,
        elo_snapshot,
    }
}

/// Three matches, newest first.
fn matches() -> Vec<Match> {
    vec![
        make_match(
            3,
            "2024-03-03",
            (1, 1),
            &[(1, 1_216_000_000, 0, 1_000_000), (3, 1_200_000_000, 0, 1_000_000)],
        ),
        make_match(
            2,
            "2024-02-02",
            (0, 2),
            &[(2, 1_192_000_000, 24_000_000, 500_000), (3, 1_224_000_000, -24_000_000, 1_000_000)],
        ),
        make_match(
            1,
            "2024-01-01",
            (2, 1),
            &[
                (1, 1_200_000_000, 16_000_000, 1_000_000),
                (2, 1_200_000_000, -16_000_000, 500_000),
                (9, 1_000_000_000, -16_000_000, 1_000_000),
            ],
        ),
    ]
}

#[test]
fn outcome_follows_the_score() {
    assert_eq!(make_match(1, "d", (2, 1), &[]).outcome(), Outcome::TeamAWins);
    assert_eq!(make_match(1, "d", (0, 1), &[]).outcome(), Outcome::TeamBWins);
    assert_eq!(make_match(1, "d", (3, 3), &[]).outcome(), Outcome::Draw);
    assert_eq!(make_match(1, "d", (i32::MIN, i32::MAX), &[]).outcome(), Outcome::TeamBWins);
}

#[test]
fn player_history_runs_oldest_first() {
    let matches = matches();
    let of_two: Vec<(String, i128)> =
        player_history(&matches, 2).into_iter().map(|p| (p.date, p.rating)).collect();
    assert_eq!(
        of_two,
        vec![
            ("2024-01-01".to_string(), 1_192_000_000),
            ("2024-02-02".to_string(), 1_204_000_000),
        ]
    );
    let of_one: Vec<(String, i128)> =
        player_history(&matches, 1).into_iter().map(|p| (p.date, p.rating)).collect();
    assert_eq!(
        of_one,
        vec![
            ("2024-01-01".to_string(), 1_216_000_000),
            ("2024-03-03".to_string(), 1_216_000_000),
        ]
    );
    assert!(player_history(&matches, 4).is_empty());
    assert!(player_history(&[], 1).is_empty());
}

#[test]
fn timeline_charts_players_with_a_history() {
    let matches = matches();
    let players = vec![
        make_player(3, "Cat", 1_200_000_000),
        make_player(4, "Dan", 1_200_000_000),
        make_player(1, "Ann", 1_216_000_000),
        make_player(2, "Ben", 1_204_000_000),
    ];
    let series = build_elo_timeline(&matches, &players);
    assert_eq!(series.iter().map(|s| s.player).collect::<Vec<_>>(), vec![0, 2, 3]);
    assert_eq!(series.iter().map(|s| s.color).collect::<Vec<_>>(), vec![0, 2, 3]);
    assert_eq!(
        series[0].points.iter().map(|p| p.rating).collect::<Vec<_>>(),
        vec![1_200_000_000, 1_200_000_000]
    );
    assert_eq!(
        series[0].points.iter().map(|p| p.date.as_str()).collect::<Vec<_>>(),
        vec!["2024-02-02", "2024-03-03"]
    );
    assert_eq!(series[2].points.len(), 2);
    assert!(build_elo_timeline(&[], &players).is_empty());
    assert!(build_elo_timeline(&matches, &[]).is_empty());
}

#[test]
fn timeline_colours_cycle() {
    let matches = vec![make_match(1, "2024-01-01", (1, 0), &[(7, 1_000_000_000, 5_000_000, 1_000_000)])];
    let mut players: Vec<Player> = (0..30).map(|i| make_player(100 + i, "P", 0)).collect();
    players[25].id = 7;
    let series = build_elo_timeline(&matches, &players);
    assert_eq!(series.len(), 1);
    assert_eq!(series[0].player, 25);
    assert_eq!(PALETTE_SIZE, 22);
    assert_eq!(series[0].color, 3);
    assert_eq!(series[0].points[0].rating, 1_005_000_000);
}
