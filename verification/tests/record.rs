use league::models::Player;
use league::record::{
    check_names, clamp_participation, clamp_score, find_player, find_players, holds_name, overlap,
    participation_entry, resolve_lineup, GenerateForm, RecordError, RecordForm,
};
use league::text::parse_i32;

fn names(list: &[&str]) -> Vec<String> {
    list.iter().map(|s| s.to_string()).collect()
}

fn make_player(id: i32, name: &str) -> Player {
    Player {
        id,
        name: name.to_string(),
        elo: 1_200_000_000,
        tags: String::new(),
        matches_played: 0,
    }
}

fn roster() -> Vec<Player> {
    vec![
        make_player(1, "Ann"),
        make_player(2, "Ben"),
        make_player(3, "Cat"),
        make_player(4, "Ben"),
        make_player(5, "Dan"),
    ]
}

#[test]
fn parse_i32_reads_decimal_integers() {
    assert_eq!(parse_i32("0"), Some(0));
    assert_eq!(parse_i32("42"), Some(42));
    assert_eq!(parse_i32("+42"), Some(42));
    assert_eq!(parse_i32("-42"), Some(-42));
    assert_eq!(parse_i32("-0"), Some(0));
    assert_eq!(parse_i32("007"), Some(7));
    assert_eq!(parse_i32("2147483647"), Some(i32::MAX));
    assert_eq!(parse_i32("-2147483648"), Some(i32::MIN));
    assert_eq!(parse_i32("000000000000000000000000012"), Some(12));
}

#[test]
fn parse_i32_rejects_everything_else() {
    for text in [
        "", "+", "-", "--1", "+-1", "1-", " 1", "1 ", "1.0", "1e3", "0x10", "١٢", "12a", "a12",
        "2147483648", "-2147483649", "99999999999999999999999999", "-99999999999999999999",
        "21474836470",
    ] {
        assert_eq!(parse_i32(text), None, "{:?}", text);
        assert_eq!(parse_i32(text), text.parse::<i32>().ok(), "{:?}", text);
    }
}

#[test]
fn parse_i32_agrees_with_std() {
    for value in [i32::MIN, i32::MIN + 1, -1_000_000, -10, -1, 0, 1, 9, 10, 99, 12345, i32::MAX - 1, i32::MAX] {
        assert_eq!(parse_i32(&value.to_string()), Some(value));
    }
}

#[test]
fn selected_ids_drop_what_is_no_integer() {
    let form = GenerateForm { player_ids: names(&["3", "x", "11", "", "-4", "2.5", "7"]) };
    assert_eq!(form.selected_ids(), vec![3, 11, -4, 7]);
    assert_eq!(form.selection(), Some(vec![3, 11, -4, 7]));
    let none = GenerateForm { player_ids: Vec::new() };
    assert_eq!(none.selected_ids(), Vec::<i32>::new());
    assert_eq!(none.selection(), None);
    let one = GenerateForm { player_ids: names(&["5", "five"]) };
    assert_eq!(one.selected_ids(), vec![5]);
    assert_eq!(one.selection(), None);
    let two = GenerateForm { player_ids: names(&["5", "5"]) };
    assert_eq!(two.selection(), Some(vec![5, 5]));
}

#[test]
fn scores_are_held_between_0_and_50() {
    assert_eq!(clamp_score(-1), 0);
    assert_eq!(clamp_score(i32::MIN), 0);
    assert_eq!(clamp_score(0), 0);
    assert_eq!(clamp_score(7), 7);
    assert_eq!(clamp_score(50), 50);
    assert_eq!(clamp_score(51), 50);
    assert_eq!(clamp_score(i32::MAX), 50);
}

#[test]
fn participation_is_held_between_none_and_all() {
    assert_eq!(clamp_participation(-1), 0);
    assert_eq!(clamp_participation(i64::MIN), 0);
    assert_eq!(clamp_participation(0), 0);
    assert_eq!(clamp_participation(750_000), 750_000);
    assert_eq!(clamp_participation(1_000_000), 1_000_000);
    assert_eq!(clamp_participation(1_000_001), 1_000_000);
    assert_eq!(clamp_participation(i64::MAX), 1_000_000);
}

#[test]
fn participation_entries() {
    assert_eq!(participation_entry("12=0.75"), Some((12, "0.75".to_string())));
    assert_eq!(participation_entry("-3=1.0"), Some((-3, "1.0".to_string())));
    assert_eq!(participation_entry("7="), Some((7, String::new())));
    assert_eq!(participation_entry("7=a=b"), Some((7, "a=b".to_string())));
    assert_eq!(participation_entry("7=½"), Some((7, "½".to_string())));
    assert_eq!(participation_entry("=0.5"), None);
    assert_eq!(participation_entry("Ann=0.5"), None);
    assert_eq!(participation_entry("7 =0.5"), None);
    assert_eq!(participation_entry("7"), None);
    assert_eq!(participation_entry(""), None);
    assert_eq!(participation_entry("="), None);
}

#[test]
fn overlap_lists_names_on_both_teams() {
    let a = names(&["Ann", "Ben", "Cat", "Ben"]);
    let b = names(&["Ben", "Dan", "Ann"]);
    assert_eq!(overlap(&a, &b), names(&["Ann", "Ben", "Ben"]));
    assert_eq!(overlap(&b, &a), names(&["Ben", "Ann"]));
    assert_eq!(overlap(&a, &names(&["ann", "Eve"])), Vec::<String>::new());
    assert_eq!(overlap(&Vec::new(), &b), Vec::<String>::new());
    assert!(holds_name(&a, &"Cat".to_string()));
    assert!(!holds_name(&a, &"cat".to_string()));
    assert!(!holds_name(&Vec::new(), &"Cat".to_string()));
}

#[test]
fn check_names_wants_players_on_both_teams() {
    let some = names(&["Ann"]);
    let none: Vec<String> = Vec::new();
    assert!(matches!(check_names(&none, &some), Err(RecordError::EmptyTeam)));
    assert!(matches!(check_names(&some, &none), Err(RecordError::EmptyTeam)));
    assert!(matches!(check_names(&none, &none), Err(RecordError::EmptyTeam)));
    assert!(check_names(&some, &names(&["Ben"])).is_ok());
}

#[test]
fn check_names_wants_nobody_on_both_teams() {
    let a = names(&["Ann", "Ben", "Cat"]);
    let b = names(&["Cat", "Dan", "Ann"]);
    match check_names(&a, &b) {
        Err(RecordError::Overlap(both)) => assert_eq!(both, names(&["Ann", "Cat"])),
        other => panic!("{:?}", other),
    }
}

#[test]
fn find_player_takes_the_last_of_a_name() {
    let roster = roster();
    assert_eq!(find_player(&roster, &"Ben".to_string()).unwrap().id, 4);
    assert_eq!(find_player(&roster, &"Ann".to_string()).unwrap().id, 1);
    assert_eq!(find_player(&roster, &"Dan".to_string()).unwrap().id, 5);
    assert!(find_player(&roster, &"ben".to_string()).is_none());
    assert!(find_player(&[], &"Ben".to_string()).is_none());
}

#[test]
fn find_players_wants_everyone_known() {
    let roster = roster();
    let team = find_players(&names(&["Dan", "Ann", "Dan"]), &roster).unwrap();
    assert_eq!(team.iter().map(|p| p.id).collect::<Vec<_>>(), vec![5, 1, 5]);
    assert!(find_players(&names(&["Dan", "Eve", "Ann"]), &roster).is_none());
    assert!(find_players(&names(&["Eve"]), &roster).is_none());
    assert_eq!(find_players(&Vec::new(), &roster).unwrap().len(), 0);
}

#[test]
fn resolve_lineup_outcomes() {
    let roster = roster();
    let a = names(&["Ann", "Cat"]);
    let b = names(&["Dan", "Ben"]);
    let (team_a, team_b) = resolve_lineup(&a, &b, &roster, false).unwrap();
    assert_eq!(team_a.iter().map(|p| p.id).collect::<Vec<_>>(), vec![1, 3]);
    assert_eq!(team_b.iter().map(|p| p.id).collect::<Vec<_>>(), vec![5, 4]);

    let short = names(&["Dan"]);
    match resolve_lineup(&a, &short, &roster, false) {
        Err(RecordError::UnevenTeams(x, y)) => assert_eq!((x, y), (2, 1)),
        other => panic!("{:?}", other),
    }
    let (team_a, team_b) = resolve_lineup(&a, &short, &roster, true).unwrap();
    assert_eq!((team_a.len(), team_b.len()), (2, 1));

    let stranger = names(&["Dan", "Eve"]);
    assert!(matches!(
        resolve_lineup(&a, &stranger, &roster, false),
        Err(RecordError::UnknownPlayer)
    ));
    assert!(matches!(
        resolve_lineup(&stranger, &short, &roster, true),
        Err(RecordError::UnknownPlayer)
    ));
}

#[test]
fn parse_i32_agrees_with_std_on_short_texts() {
    let alphabet = ['0', '1', '9', '+', '-', ' ', 'a', '.', '\u{0661}'];
    let mut texts: Vec<String> = vec![String::new()];
    let mut at = 0;
    while at < texts.len() {
        let text = texts[at].clone();
        assert_eq!(parse_i32(&text), text.parse::<i32>().ok(), "{:?}", text);
        if text.chars().count() < 4 {
            for c in alphabet {
                let mut longer = text.clone();
                longer.push(c);
                texts.push(longer);
            }
        }
        at += 1;
    }
    for digits in 8..=12 {
        for lead in ["", "+", "-"] {
            for digit in ['0', '1', '2', '3', '9'] {
                let text = format!("{}{}", lead, digit.to_string().repeat(digits));
                assert_eq!(parse_i32(&text), text.parse::<i32>().ok(), "{:?}", text);
            }
        }
    }
}

#[test]
fn participation_entries_agree_with_std() {
    for entry in ["3=0.5", "=", "a=b", "12", "12=", "+4=1.0=x", "-0=", " 1=1", "1 =1", "١=1", ""] {
        let by_std = entry
            .split_once('=')
            .and_then(|(id, value)| id.parse::<i32>().ok().map(|id| (id, value.to_string())));
        assert_eq!(participation_entry(entry), by_std, "{:?}", entry);
    }
}

fn record_form(team_a: Option<&[&str]>, team_b: Option<&[&str]>, confirm_uneven: bool) -> RecordForm {
    RecordForm {
        team_a: team_a.map(names),
        team_b: team_b.map(names),
        score_a: 3,
        score_b: 77,
        confirm_uneven,
        participation: None,
    }
}

#[test]
fn record_form_judges_what_it_holds() {
    let roster = roster();
    let good = record_form(Some(&["Ann", "Cat"]), Some(&["Dan", "Ben"]), false);
    assert_eq!(good.scores(), (3, 50));
    assert!(good.check_names().is_ok());
    let (team_a, team_b) = good.resolve(&roster).unwrap();
    assert_eq!(team_a.iter().map(|p| p.id).collect::<Vec<_>>(), vec![1, 3]);
    assert_eq!(team_b.iter().map(|p| p.id).collect::<Vec<_>>(), vec![5, 4]);

    let unsent = record_form(None, Some(&["Dan"]), false);
    assert!(matches!(unsent.check_names(), Err(RecordError::EmptyTeam)));
    assert!(matches!(unsent.resolve(&roster), Err(RecordError::UnevenTeams(0, 1))));
    let neither = record_form(None, None, false);
    assert!(matches!(neither.check_names(), Err(RecordError::EmptyTeam)));
    assert!(neither.resolve(&roster).is_ok());

    let twice = record_form(Some(&["Ann", "Cat"]), Some(&["Cat"]), true);
    match twice.check_names() {
        Err(RecordError::Overlap(both)) => assert_eq!(both, names(&["Cat"])),
        other => panic!("{:?}", other),
    }
    assert!(twice.resolve(&roster).is_ok());
    let uneven = record_form(Some(&["Ann", "Cat"]), Some(&["Dan"]), false);
    assert!(matches!(uneven.resolve(&roster), Err(RecordError::UnevenTeams(2, 1))));
    let stranger = record_form(Some(&["Ann"]), Some(&["Eve"]), false);
    assert!(matches!(stranger.resolve(&roster), Err(RecordError::UnknownPlayer)));
}
