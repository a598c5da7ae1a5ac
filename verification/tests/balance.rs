use league::balance::{
    balance_teams, balance_teams_by, balance_teams_with, best_index, count_keepers,
    enumerate_splits, is_within_tolerance, near_optimal, pick_split, pick_split_at,
};
use league::cost::{average_elo, calculate_split_cost, CostModel};
use league::models::{Player, TeamSplit};
use league::tag::Tag;

fn points(p: f64) -> i64 {
    (p * 1_000_000.0).round() as i64
}

fn make_player(id: i32, name: &str, elo: f64, tags: &str) -> Player {
    Player {
        id,
        name: name.to_string(),
        elo: points(elo),
        tags: tags.to_string(),
        matches_played: 0,
    }
}

fn ids(team: &[Player]) -> Vec<i32> {
    team.iter().map(|p| p.id).collect()
}

fn split_with_cost(cost: u128) -> TeamSplit {
    TeamSplit {
        team_a: Vec::new(),
        team_b: Vec::new(),
        cost,
        elo_diff: 0,
        tag_value_a: 0,
        tag_value_b: 0,
    }
}

#[test]
fn test_balance_two_players() {
    let players = vec![
        make_player(1, "Alice", 1200.0, ""),
        make_player(2, "Bob", 1200.0, ""),
    ];

    let split = balance_teams(&players, false).unwrap();
    assert_eq!(split.team_a.len(), 1);
    assert_eq!(split.team_b.len(), 1);
}

#[test]
fn test_balance_with_tags() {
    let players = vec![
        make_player(1, "Alice", 1200.0, "PLAYMAKER"),
        make_player(2, "Bob", 1200.0, "PLAYMAKER"),
        make_player(3, "Carol", 1200.0, ""),
        make_player(4, "Dave", 1200.0, ""),
    ];

    let split = balance_teams(&players, false).unwrap();

    let pm_a = split
        .team_a
        .iter()
        .filter(|p| p.has_tag(Tag::Playmaker))
        .count();
    let pm_b = split
        .team_b
        .iter()
        .filter(|p| p.has_tag(Tag::Playmaker))
        .count();
    assert_eq!(pm_a, 1);
    assert_eq!(pm_b, 1);
}

#[test]
fn test_balance_two_gks() {
    let players = vec![
        make_player(1, "GK1", 1200.0, "GK"),
        make_player(2, "GK2", 1200.0, "GK"),
        make_player(3, "Player1", 1200.0, ""),
        make_player(4, "Player2", 1200.0, ""),
    ];

    let split = balance_teams(&players, false).unwrap();

    let gk_a = split.team_a.iter().filter(|p| p.has_tag(Tag::Gk)).count();
    let gk_b = split.team_b.iter().filter(|p| p.has_tag(Tag::Gk)).count();
    assert_eq!(gk_a, 1);
    assert_eq!(gk_b, 1);
}

#[test]
fn test_balance_one_gk_deterministic() {
    let players = vec![
        make_player(1, "GK", 1200.0, "GK"),
        make_player(2, "Player1", 1200.0, ""),
        make_player(3, "Player2", 1200.0, ""),
        make_player(4, "Player3", 1200.0, ""),
    ];

    let split1 = balance_teams(&players, false).unwrap();
    let split2 = balance_teams(&players, false).unwrap();

    assert!(split1.team_a.iter().any(|p| p.has_tag(Tag::Gk)));
    assert!(split2.team_a.iter().any(|p| p.has_tag(Tag::Gk)));

    let names1: Vec<_> = split1.team_a.iter().map(|p| &p.name).collect();
    let names2: Vec<_> = split2.team_a.iter().map(|p| &p.name).collect();
    assert_eq!(names1, names2);
}

#[test]
fn test_balance_odd_players() {
    let players = vec![
        make_player(1, "A", 1200.0, ""),
        make_player(2, "B", 1200.0, ""),
        make_player(3, "C", 1200.0, ""),
        make_player(4, "D", 1200.0, ""),
        make_player(5, "E", 1200.0, ""),
    ];

    let split = balance_teams(&players, false).unwrap();

    assert_eq!(split.team_a.len(), 2);
    assert_eq!(split.team_b.len(), 3);
}

#[test]
fn test_balance_insufficient_players() {
    let empty: Vec<Player> = vec![];
    assert!(balance_teams(&empty, false).is_none());

    let one = vec![make_player(1, "Alone", 1200.0, "")];
    assert!(balance_teams(&one, false).is_none());
}

#[test]
fn test_balance_no_gks() {
    let players = vec![
        make_player(1, "A", 1400.0, ""),
        make_player(2, "B", 1200.0, ""),
        make_player(3, "C", 1200.0, ""),
        make_player(4, "D", 1000.0, ""),
    ];

    let split = balance_teams(&players, false).unwrap();

    let elo_a: f64 = split.team_a.iter().map(|p| p.elo as f64 / 1e6).sum();
    let elo_b: f64 = split.team_b.iter().map(|p| p.elo as f64 / 1e6).sum();

    assert!((elo_a - elo_b).abs() <= 200.0);
}

#[test]
fn test_star_players_split_between_teams() {
    let players = vec![
        make_player(1, "Star1", 1200.0, "PLAYMAKER,RUNNER,DEF"),
        make_player(2, "Star2", 1200.0, "PLAYMAKER,RUNNER,DEF"),
        make_player(3, "Role1", 1200.0, "DEF"),
        make_player(4, "Role2", 1200.0, "DEF"),
    ];

    let split = balance_teams(&players, false).unwrap();

    let star1_in_a = split.team_a.iter().any(|p| p.id == 1);
    let star2_in_a = split.team_a.iter().any(|p| p.id == 2);
    assert_ne!(star1_in_a, star2_in_a, "Stars should be on different teams");
}

#[test]
fn balance_no_gks_picks_the_exact_split() {
    let players = vec![
        make_player(1, "A", 1400.0, ""),
        make_player(2, "B", 1200.0, ""),
        make_player(3, "C", 1200.0, ""),
        make_player(4, "D", 1000.0, ""),
    ];
    let split = balance_teams(&players, false).unwrap();
    assert_eq!(ids(&split.team_a), vec![1, 4]);
    assert_eq!(ids(&split.team_b), vec![2, 3]);
    assert_eq!(split.cost, 0);
    assert_eq!(split.elo_diff, 0);
}

#[test]
fn candidates_come_in_lexicographic_order() {
    let players = vec![
        make_player(1, "A", 1400.0, ""),
        make_player(2, "B", 1300.0, ""),
        make_player(3, "C", 1200.0, ""),
        make_player(4, "D", 1000.0, ""),
    ];
    let all = enumerate_splits(&players, CostModel::TagValues, true);
    let teams: Vec<(Vec<i32>, Vec<i32>)> =
        all.iter().map(|s| (ids(&s.team_a), ids(&s.team_b))).collect();
    assert_eq!(
        teams,
        vec![
            (vec![1, 2], vec![3, 4]),
            (vec![1, 3], vec![2, 4]),
            (vec![1, 4], vec![2, 3]),
            (vec![2, 3], vec![1, 4]),
            (vec![2, 4], vec![1, 3]),
            (vec![3, 4], vec![1, 2]),
        ]
    );
    let costs: Vec<u128> = all.iter().map(|s| s.cost).collect();
    assert_eq!(
        costs,
        vec![250_000_000, 150_000_000, 50_000_000, 50_000_000, 150_000_000, 250_000_000]
    );
}

#[test]
fn candidates_of_five_players_number_ten() {
    let players: Vec<Player> = (1..=5).map(|i| make_player(i, "P", 1200.0, "")).collect();
    let all = enumerate_splits(&players, CostModel::TagValues, true);
    assert_eq!(all.len(), 10);
    assert_eq!(ids(&all[0].team_a), vec![1, 2]);
    assert_eq!(ids(&all[0].team_b), vec![3, 4, 5]);
    assert_eq!(ids(&all[9].team_a), vec![4, 5]);
    assert_eq!(ids(&all[9].team_b), vec![1, 2, 3]);
}

#[test]
fn too_small_rosters_have_no_candidates() {
    let none: Vec<Player> = Vec::new();
    assert!(enumerate_splits(&none, CostModel::TagValues, true).is_empty());
    let one = vec![make_player(1, "GK", 1200.0, "GK")];
    assert!(enumerate_splits(&one, CostModel::TagValues, true).is_empty());
    assert!(enumerate_splits(&one, CostModel::TagValues, false).is_empty());
    assert!(balance_teams(&one, true).is_none());
    assert!(balance_teams_by(&one, false, CostModel::TagCounts).is_none());
}

#[test]
fn two_goalkeepers_alone_face_each_other() {
    let players = vec![
        make_player(1, "GK1", 1300.0, "GK"),
        make_player(2, "GK2", 1200.0, "gk"),
    ];
    let all = enumerate_splits(&players, CostModel::TagValues, true);
    assert_eq!(all.len(), 1);
    assert_eq!(ids(&all[0].team_a), vec![1]);
    assert_eq!(ids(&all[0].team_b), vec![2]);
    assert_eq!(all[0].elo_diff, 100_000_000);
}

#[test]
fn two_goalkeepers_and_one_fielder() {
    let players = vec![
        make_player(1, "F", 1200.0, ""),
        make_player(2, "GK1", 1200.0, "GK"),
        make_player(3, "GK2", 1200.0, "GK"),
    ];
    let all = enumerate_splits(&players, CostModel::TagValues, false);
    assert_eq!(all.len(), 1);
    assert_eq!(ids(&all[0].team_a), vec![2]);
    assert_eq!(ids(&all[0].team_b), vec![3, 1]);
}

#[test]
fn two_goalkeepers_are_always_parted() {
    let players = vec![
        make_player(1, "A", 1500.0, "PLAYMAKER"),
        make_player(2, "GK1", 900.0, "GK"),
        make_player(3, "B", 1250.0, "DEF"),
        make_player(4, "GK2", 1600.0, "GK,ATK"),
        make_player(5, "C", 1100.0, ""),
        make_player(6, "D", 1300.0, "RUNNER"),
        make_player(7, "E", 1000.0, ""),
    ];
    for model in [CostModel::TagValues, CostModel::TagCounts] {
        for split in enumerate_splits(&players, model, true) {
            assert_eq!(split.team_a.iter().filter(|p| p.has_tag(Tag::Gk)).count(), 1);
            assert_eq!(split.team_b.iter().filter(|p| p.has_tag(Tag::Gk)).count(), 1);
            assert_eq!(split.team_a[0].id, 2);
            assert_eq!(split.team_b[0].id, 4);
            assert_eq!(split.team_a.len(), 3);
            assert_eq!(split.team_b.len(), 4);
        }
        for _ in 0..20 {
            let split = balance_teams_by(&players, true, model).unwrap();
            assert_eq!(split.team_a.iter().filter(|p| p.has_tag(Tag::Gk)).count(), 1);
            assert_eq!(split.team_b.iter().filter(|p| p.has_tag(Tag::Gk)).count(), 1);
        }
    }
}

#[test]
fn single_goalkeeper_goes_where_told() {
    let players = vec![
        make_player(1, "Ann", 1200.0, ""),
        make_player(2, "GK", 1200.0, "GK"),
        make_player(3, "Bob", 1200.0, ""),
        make_player(4, "Cleo", 1200.0, ""),
        make_player(5, "Dee", 1200.0, ""),
    ];
    let on_a = enumerate_splits(&players, CostModel::TagValues, true);
    assert_eq!(on_a.len(), 4);
    for split in &on_a {
        assert_eq!(split.team_a[0].id, 2);
        assert_eq!(split.team_a.len(), 2);
        assert_eq!(split.team_b.len(), 3);
        assert!(split.team_b.iter().all(|p| p.id != 2));
    }
    assert_eq!(ids(&on_a[0].team_a), vec![2, 1]);
    assert_eq!(ids(&on_a[0].team_b), vec![3, 4, 5]);
    let on_b = enumerate_splits(&players, CostModel::TagValues, false);
    assert_eq!(on_b.len(), 6);
    for split in &on_b {
        assert_eq!(split.team_b[0].id, 2);
        assert_eq!(split.team_a.len(), 2);
        assert_eq!(split.team_b.len(), 3);
        assert!(split.team_a.iter().all(|p| p.id != 2));
    }
    assert_eq!(ids(&on_b[0].team_a), vec![1, 3]);
    assert_eq!(ids(&on_b[0].team_b), vec![2, 4, 5]);
}

#[test]
fn three_goalkeepers_are_treated_like_anyone() {
    let players = vec![
        make_player(1, "GK1", 1200.0, "GK"),
        make_player(2, "GK2", 1200.0, "GK"),
        make_player(3, "GK3", 1200.0, "GK"),
        make_player(4, "P", 1200.0, ""),
    ];
    let all = enumerate_splits(&players, CostModel::TagValues, true);
    assert_eq!(all.len(), 6);
    assert_eq!(ids(&all[0].team_a), vec![1, 2]);
    assert_eq!(ids(&all[0].team_b), vec![3, 4]);
}

#[test]
fn team_sizes_differ_by_at_most_one() {
    for n in 2..=9 {
        let players: Vec<Player> = (0..n)
            .map(|i| make_player(i, "P", 1000.0 + 37.0 * i as f64, if i % 4 == 0 { "GK" } else { "ATK" }))
            .collect();
        for randomize in [false, true] {
            let split = balance_teams(&players, randomize).unwrap();
            assert_eq!(split.team_a.len(), players.len() / 2);
            assert_eq!(split.team_a.len() + split.team_b.len(), players.len());
            assert!(split.team_b.len() - split.team_a.len() <= 1);
        }
    }
}

#[test]
fn balancing_twice_gives_the_same_teams() {
    let players = vec![
        make_player(1, "A", 1431.5, "PLAYMAKER"),
        make_player(2, "B", 1180.25, "DEF,ATK"),
        make_player(3, "C", 1222.0, ""),
        make_player(4, "D", 1010.0, "RUNNER"),
        make_player(5, "E", 1300.0, "GK"),
        make_player(6, "F", 1275.0, ""),
        make_player(7, "G", 990.0, "DEF"),
    ];
    let first = balance_teams(&players, false).unwrap();
    for _ in 0..5 {
        let again = balance_teams(&players, false).unwrap();
        assert_eq!(ids(&again.team_a), ids(&first.team_a));
        assert_eq!(ids(&again.team_b), ids(&first.team_b));
        assert_eq!(again.cost, first.cost);
    }
    assert_eq!(first.team_a[0].id, 5);
}

#[test]
fn first_of_equal_costs_wins() {
    let players: Vec<Player> = (1..=4).map(|i| make_player(i, "P", 1200.0, "")).collect();
    let split = balance_teams(&players, false).unwrap();
    assert_eq!(ids(&split.team_a), vec![1, 2]);
    assert_eq!(ids(&split.team_b), vec![3, 4]);
}

#[test]
fn randomized_result_is_near_optimal() {
    let players = vec![
        make_player(1, "A", 1400.0, "PLAYMAKER"),
        make_player(2, "B", 1390.0, ""),
        make_player(3, "C", 1205.0, "DEF"),
        make_player(4, "D", 1200.0, "DEF"),
        make_player(5, "E", 1010.0, ""),
        make_player(6, "F", 1000.0, "PLAYMAKER"),
    ];
    for model in [CostModel::TagValues, CostModel::TagCounts] {
        let best = balance_teams_by(&players, false, model).unwrap().cost;
        for _ in 0..50 {
            let split = balance_teams_by(&players, true, model).unwrap();
            assert!(10 * split.cost <= 11 * best + 10_000_000);
            assert!(is_within_tolerance(split.cost, best));
            let again = calculate_split_cost(&split.team_a, &split.team_b, model);
            assert_eq!(again.cost, split.cost);
        }
    }
}

#[test]
fn randomized_single_goalkeeper_stays_near_optimal() {
    let players = vec![
        make_player(1, "GK", 1250.0, "GK"),
        make_player(2, "A", 1400.0, ""),
        make_player(3, "B", 1100.0, ""),
        make_player(4, "C", 1230.0, ""),
        make_player(5, "D", 1190.0, ""),
    ];
    for _ in 0..50 {
        let split = balance_teams(&players, true).unwrap();
        let keeper_on_a = split.team_a.iter().any(|p| p.id == 1);
        let all = enumerate_splits(&players, CostModel::TagValues, keeper_on_a);
        let best = all.iter().map(|s| s.cost).min().unwrap();
        assert!(is_within_tolerance(split.cost, best));
        assert!(all
            .iter()
            .any(|s| ids(&s.team_a) == ids(&split.team_a) && ids(&s.team_b) == ids(&split.team_b)));
    }
}

#[test]
fn tolerance_is_a_tenth_plus_one_point() {
    assert!(is_within_tolerance(0, 0));
    assert!(is_within_tolerance(1_000_000, 0));
    assert!(!is_within_tolerance(1_000_001, 0));
    assert!(is_within_tolerance(111_000_000, 100_000_000));
    assert!(!is_within_tolerance(111_000_001, 100_000_000));
    assert!(is_within_tolerance(5, 100_000_000));
    assert!(is_within_tolerance(12, 5));
    assert!(is_within_tolerance(1_000_005, 5));
    assert!(!is_within_tolerance(1_000_006, 5));
    assert!(is_within_tolerance(1_000_011, 10));
    assert!(!is_within_tolerance(1_000_012, 10));
    assert!(is_within_tolerance(u128::MAX, u128::MAX));
    assert!(!is_within_tolerance(u128::MAX, u128::MAX / 2));
}

#[test]
fn best_index_is_the_first_minimum() {
    let all: Vec<TeamSplit> = [7u128, 3, 9, 3, 5].iter().map(|c| split_with_cost(*c)).collect();
    assert_eq!(best_index(&all), Some(1));
    assert_eq!(best_index(&Vec::new()), None);
    let one = vec![split_with_cost(4)];
    assert_eq!(best_index(&one), Some(0));
}

#[test]
fn near_optimal_lists_places_in_order() {
    let costs = [3_000_000u128, 2_000_000, 3_200_001, 3_200_000, 2_000_000, 50_000_000];
    let all: Vec<TeamSplit> = costs.iter().map(|c| split_with_cost(*c)).collect();
    assert_eq!(near_optimal(&all, 2_000_000), vec![0, 1, 3, 4]);
    assert_eq!(near_optimal(&all, 0), Vec::<usize>::new());
    assert_eq!(near_optimal(&Vec::new(), 0), Vec::<usize>::new());
}

#[test]
fn pick_split_at_honours_near_optimal_draws_only() {
    let costs = [3_000_000u128, 2_000_000, 3_200_001, 3_200_000, 2_000_000];
    let make = || -> Vec<TeamSplit> {
        costs
            .iter()
            .enumerate()
            .map(|(i, c)| {
                let mut s = split_with_cost(*c);
                s.tag_value_a = i as u128;
                s
            })
            .collect()
    };
    assert_eq!(pick_split_at(make(), None).unwrap().tag_value_a, 1);
    assert_eq!(pick_split_at(make(), Some(0)).unwrap().tag_value_a, 0);
    assert_eq!(pick_split_at(make(), Some(3)).unwrap().tag_value_a, 3);
    assert_eq!(pick_split_at(make(), Some(4)).unwrap().tag_value_a, 4);
    assert_eq!(pick_split_at(make(), Some(2)).unwrap().tag_value_a, 1);
    assert_eq!(pick_split_at(make(), Some(5)).unwrap().tag_value_a, 1);
    assert_eq!(pick_split_at(make(), Some(usize::MAX)).unwrap().tag_value_a, 1);
    assert!(pick_split_at(Vec::new(), None).is_none());
    assert!(pick_split_at(Vec::new(), Some(0)).is_none());
}

#[test]
fn pick_split_draws_among_the_near_optimal() {
    let costs = [9_000_000u128, 2_000_000, 3_200_001, 3_200_000, 2_500_000];
    let make = || -> Vec<TeamSplit> { costs.iter().map(|c| split_with_cost(*c)).collect() };
    assert_eq!(pick_split(make(), false).unwrap().cost, 2_000_000);
    let mut seen = std::collections::BTreeSet::new();
    for _ in 0..200 {
        let cost = pick_split(make(), true).unwrap().cost;
        assert!(cost == 2_000_000 || cost == 3_200_000 || cost == 2_500_000);
        seen.insert(cost);
    }
    assert!(seen.len() >= 2);
    assert!(pick_split(Vec::new(), true).is_none());
    assert!(pick_split(Vec::new(), false).is_none());
}

#[test]
fn split_cost_by_tag_values() {
    let a = vec![
        make_player(1, "A", 1300.0, "PLAYMAKER,RUNNER"),
        make_player(2, "B", 1200.5, "DEF"),
    ];
    let b = vec![
        make_player(3, "C", 1100.0, "ATK"),
        make_player(4, "D", 1000.0, "GK"),
        make_player(5, "E", 1000.0, ""),
    ];
    let split = calculate_split_cost(&a, &b, CostModel::TagValues);
    assert_eq!(ids(&split.team_a), vec![1, 2]);
    assert_eq!(ids(&split.team_b), vec![3, 4, 5]);
    assert_eq!(split.tag_value_a, 110);
    assert_eq!(split.tag_value_b, 10);
    // averages 1250.25 and 1033.333333
    assert_eq!(split.elo_diff, 1_250_250_000 - 1_033_333_333);
    assert_eq!(split.cost, 216_916_667 + 100_000_000);
}

#[test]
fn split_cost_by_tag_counts() {
    let a = vec![
        make_player(1, "A", 1200.0, "PLAYMAKER,RUNNER"),
        make_player(2, "B", 1200.0, "DEF"),
    ];
    let b = vec![
        make_player(3, "C", 1200.0, "ATK,DEF"),
        make_player(4, "D", 1200.0, "GK,DEF"),
    ];
    let split = calculate_split_cost(&a, &b, CostModel::TagCounts);
    // playmakers 1:0, runners 1:0, defenders 1:2, attackers 0:1
    assert_eq!(split.elo_diff, 0);
    assert_eq!(split.cost, (100 + 80 + 40 + 20) * 1_000_000);
    assert_eq!(split.tag_value_a, 110);
    assert_eq!(split.tag_value_b, 50);
    let by_value = calculate_split_cost(&a, &b, CostModel::TagValues);
    assert_eq!(by_value.cost, 60 * 1_000_000);
}

#[test]
fn cost_models_can_disagree() {
    let players = vec![
        make_player(1, "A", 1200.0, "PLAYMAKER"),
        make_player(2, "B", 1200.0, "RUNNER,ATK"),
        make_player(3, "C", 1200.0, "RUNNER,ATK"),
        make_player(4, "D", 1200.0, "PLAYMAKER"),
    ];
    // By values every division costs nothing, so the first one wins.
    let by_value = balance_teams_by(&players, false, CostModel::TagValues).unwrap();
    assert_eq!(ids(&by_value.team_a), vec![1, 2]);
    assert_eq!(by_value.cost, 0);
    let by_count = balance_teams_by(&players, false, CostModel::TagCounts).unwrap();
    assert_eq!(by_count.cost, 0);
    assert_eq!(ids(&by_count.team_a), vec![1, 2]);
    let lopsided = calculate_split_cost(&players[0..1], &players[1..4], CostModel::TagCounts);
    // playmakers 1:1, runners 0:2, attackers 0:2
    assert_eq!(lopsided.cost, (2 * 80 + 2 * 20) * 1_000_000);
}

#[test]
fn empty_team_averages_zero() {
    let nobody: Vec<Player> = Vec::new();
    assert_eq!(average_elo(&nobody), 0);
    let somebody = vec![make_player(1, "A", 1200.0, "")];
    let split = calculate_split_cost(&nobody, &somebody, CostModel::TagValues);
    assert_eq!(split.elo_diff, 1_200_000_000);
    assert_eq!(split.cost, 1_200_000_000);
}

#[test]
fn averages_round_toward_zero() {
    let mut team = vec![
        make_player(1, "A", 0.0, ""),
        make_player(2, "B", 0.0, ""),
        make_player(3, "C", 0.0, ""),
    ];
    team[0].elo = 5;
    team[1].elo = 3;
    team[2].elo = 3;
    assert_eq!(average_elo(&team), 3);
    team[0].elo = -5;
    team[1].elo = -3;
    team[2].elo = -3;
    assert_eq!(average_elo(&team), -3);
    team[0].elo = i64::MAX;
    team[1].elo = i64::MAX;
    team[2].elo = i64::MAX;
    assert_eq!(average_elo(&team), i64::MAX);
    team[0].elo = i64::MIN;
    team[1].elo = i64::MIN;
    team[2].elo = i64::MIN;
    assert_eq!(average_elo(&team), i64::MIN);
}

#[test]
fn chance_taken_out_without_a_draw_is_plain_balancing() {
    let players = vec![
        make_player(1, "A", 1431.5, "PLAYMAKER"),
        make_player(2, "B", 1180.25, "DEF,ATK"),
        make_player(3, "C", 1222.0, ""),
        make_player(4, "D", 1010.0, "RUNNER"),
        make_player(5, "E", 1300.0, "GK"),
        make_player(6, "F", 1275.0, ""),
    ];
    for model in [CostModel::TagValues, CostModel::TagCounts] {
        let plain = balance_teams_by(&players, false, model).unwrap();
        let fixed = balance_teams_with(&players, model, true, None).unwrap();
        assert_eq!(ids(&fixed.team_a), ids(&plain.team_a));
        assert_eq!(ids(&fixed.team_b), ids(&plain.team_b));
        assert_eq!(fixed.cost, plain.cost);
    }
    assert!(balance_teams_with(&players[..1], CostModel::TagValues, true, None).is_none());
    assert!(balance_teams_with(&[], CostModel::TagValues, false, Some(0)).is_none());
}

#[test]
fn a_draw_is_honoured_where_it_is_near_optimal() {
    let players = vec![
        make_player(1, "A", 1400.0, ""),
        make_player(2, "B", 1300.0, ""),
        make_player(3, "C", 1200.0, ""),
        make_player(4, "D", 1000.5, ""),
    ];
    // Costs in search order: 249.75, 149.75, 49.75, 49.75, 149.75, 249.75.
    let model = CostModel::TagValues;
    let best = balance_teams_with(&players, model, true, None).unwrap();
    assert_eq!(ids(&best.team_a), vec![1, 4]);
    assert_eq!(best.cost, 49_750_000);
    let other = balance_teams_with(&players, model, true, Some(3)).unwrap();
    assert_eq!(ids(&other.team_a), vec![2, 3]);
    assert_eq!(other.cost, 49_750_000);
    for far in [0, 1, 4, 5, 6, 1000] {
        let fallback = balance_teams_with(&players, model, true, Some(far)).unwrap();
        assert_eq!(ids(&fallback.team_a), vec![1, 4]);
    }
}

#[test]
fn a_single_goalkeeper_can_be_sent_to_either_team() {
    let players = vec![
        make_player(1, "A", 1200.0, ""),
        make_player(2, "B", 1350.0, ""),
        make_player(3, "GK", 1100.0, "gk"),
        make_player(4, "C", 1250.0, ""),
    ];
    assert_eq!(count_keepers(&players), 1);
    let on_a = balance_teams_with(&players, CostModel::TagValues, true, None).unwrap();
    assert_eq!(on_a.team_a[0].id, 3);
    assert_eq!(ids(&on_a.team_a), vec![3, 2]);
    assert_eq!(ids(&on_a.team_b), vec![1, 4]);
    let on_b = balance_teams_with(&players, CostModel::TagValues, false, None).unwrap();
    assert_eq!(on_b.team_b[0].id, 3);
    assert_eq!(ids(&on_b.team_a), vec![1, 4]);
    assert_eq!(ids(&on_b.team_b), vec![3, 2]);
    assert_eq!(count_keepers(&[]), 0);
}

/// Least cost over every division into teams of the library's sizes, found
/// by walking all subsets, in floating point. Goalkeepers, where there are
/// exactly two, are kept apart, the first on team A.
fn least_cost_by_subsets(players: &[Player]) -> f64 {
    let n = players.len();
    let keepers: Vec<usize> = (0..n).filter(|i| players[*i].has_tag(Tag::Gk)).collect();
    let mut least = f64::INFINITY;
    for mask in 0u32..(1 << n) {
        if mask.count_ones() as usize != n / 2 {
            continue;
        }
        let on_a = |i: usize| mask & (1 << i) != 0;
        if keepers.len() == 2 && !(on_a(keepers[0]) && !on_a(keepers[1])) {
            continue;
        }
        if keepers.len() == 1 && !on_a(keepers[0]) {
            continue;
        }
        let (mut sum_a, mut sum_b, mut tags_a, mut tags_b) = (0.0, 0.0, 0i64, 0i64);
        for (i, p) in players.iter().enumerate() {
            if on_a(i) {
                sum_a += p.elo as f64 / 1e6;
                tags_a += p.tag_value() as i64;
            } else {
                sum_b += p.elo as f64 / 1e6;
                tags_b += p.tag_value() as i64;
            }
        }
        let cost = (sum_a / (n / 2) as f64 - sum_b / (n - n / 2) as f64).abs()
            + (tags_a - tags_b).abs() as f64;
        if cost < least {
            least = cost;
        }
    }
    least
}

#[test]
fn search_finds_the_least_cost_of_all_subsets() {
    let tag_fields = ["", "DEF", "ATK,RUNNER", "PLAYMAKER", "GK", "", "runner", "def,atk"];
    let mut seed: u64 = 0x2545_F491_4F6C_DD1D;
    let mut next = move || {
        seed = seed.wrapping_mul(6364136223846793005).wrapping_add(1442695040888963407);
        (seed >> 33) as usize
    };
    for round in 0..60 {
        let n = 2 + round % 9;
        let players: Vec<Player> = (0..n)
            .map(|i| {
                let elo = 900.0 + (next() % 700) as f64;
                make_player(i as i32, "P", elo, tag_fields[next() % tag_fields.len()])
            })
            .collect();
        let split = balance_teams(&players, false).unwrap();
        let least = least_cost_by_subsets(&players);
        assert!(
            (split.cost as f64 / 1e6 - least).abs() < 0.001,
            "round {}: {} against {}",
            round,
            split.cost,
            least
        );
        let mut all: Vec<i32> = ids(&split.team_a);
        all.extend(ids(&split.team_b));
        all.sort();
        assert_eq!(all, (0..n as i32).collect::<Vec<_>>());
    }
}
