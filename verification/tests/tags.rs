use league::models::{EloSnapshot, Player};
use league::tag::{read_tags, tag_labels, Tag};

fn make_player(tags: &str) -> Player {
    Player {
        id: 1,
        name: "Test".to_string(),
        elo: 1_200_000_000,
        tags: tags.to_string(),
        matches_played: 0,
    }
}

#[test]
fn test_tag_from_str() {
    assert_eq!(Tag::from_str("PLAYMAKER"), Some(Tag::Playmaker));
    assert_eq!(Tag::from_str("playmaker"), Some(Tag::Playmaker));
    assert_eq!(Tag::from_str("  RUNNER  "), Some(Tag::Runner));
    assert_eq!(Tag::from_str("DEF"), Some(Tag::Def));
    assert_eq!(Tag::from_str("ATK"), Some(Tag::Atk));
    assert_eq!(Tag::from_str("GK"), Some(Tag::Gk));
    assert_eq!(Tag::from_str("INVALID"), None);
    assert_eq!(Tag::from_str(""), None);
}

#[test]
fn test_tag_weight() {
    assert_eq!(Tag::Playmaker.weight(), 50);
    assert_eq!(Tag::Runner.weight(), 40);
    assert_eq!(Tag::Def.weight(), 20);
    assert_eq!(Tag::Atk.weight(), 10);
    assert_eq!(Tag::Gk.weight(), 0);
}

#[test]
fn test_tag_display() {
    assert_eq!(Tag::Playmaker.to_string(), "PLAYMAKER");
    assert_eq!(Tag::Runner.to_string(), "RUNNER");
    assert_eq!(Tag::Def.to_string(), "DEF");
    assert_eq!(Tag::Atk.to_string(), "ATK");
    assert_eq!(Tag::Gk.to_string(), "GK");
}

#[test]
fn test_player_tags_parsing() {
    let player = make_player("PLAYMAKER,RUNNER,DEF");
    let tags = player.tags();
    assert_eq!(tags.len(), 3);
    assert!(tags.contains(&Tag::Playmaker));
    assert!(tags.contains(&Tag::Runner));
    assert!(tags.contains(&Tag::Def));
}

#[test]
fn test_player_tags_empty() {
    let player = make_player("");
    assert!(player.tags().is_empty());
}

#[test]
fn test_player_tags_invalid_mixed() {
    let player = make_player("PLAYMAKER,INVALID,DEF");
    let tags = player.tags();
    assert_eq!(tags.len(), 2);
    assert!(tags.contains(&Tag::Playmaker));
    assert!(tags.contains(&Tag::Def));
}

#[test]
fn test_player_has_tag() {
    let player = make_player("GK,DEF");
    assert!(player.has_tag(Tag::Gk));
    assert!(player.has_tag(Tag::Def));
    assert!(!player.has_tag(Tag::Playmaker));
}

#[test]
fn test_player_tag_value() {
    let star = make_player("PLAYMAKER,RUNNER,DEF");
    assert_eq!(star.tag_value(), 110);

    let gk = make_player("GK");
    assert_eq!(gk.tag_value(), 0);

    let empty = make_player("");
    assert_eq!(empty.tag_value(), 0);
}

#[test]
fn tag_name_is_canonical() {
    assert_eq!(Tag::Playmaker.name(), "PLAYMAKER");
    assert_eq!(Tag::Gk.name(), "GK");
    for tag in [Tag::Playmaker, Tag::Runner, Tag::Def, Tag::Atk, Tag::Gk] {
        assert_eq!(Tag::from_str(tag.name()), Some(tag));
        assert_eq!(Tag::from_str(&tag.to_string().to_lowercase()), Some(tag));
    }
}

#[test]
fn tag_from_str_mixed_case_and_inner_space() {
    assert_eq!(Tag::from_str("PlayMaker"), Some(Tag::Playmaker));
    assert_eq!(Tag::from_str("gK"), Some(Tag::Gk));
    assert_eq!(Tag::from_str("\tatk\n"), Some(Tag::Atk));
    assert_eq!(Tag::from_str("\u{3000}def\u{00A0}"), Some(Tag::Def));
    assert_eq!(Tag::from_str("D EF"), None);
    assert_eq!(Tag::from_str("DEFF"), None);
    assert_eq!(Tag::from_str("DE"), None);
    assert_eq!(Tag::from_str("   "), None);
    assert_eq!(Tag::from_str("G\u{212A}"), None);
}

#[test]
fn tags_keep_first_appearance_order() {
    assert_eq!(read_tags("def, gk ,PLAYMAKER"), vec![Tag::Def, Tag::Gk, Tag::Playmaker]);
    assert_eq!(read_tags("RUNNER,,ATK,"), vec![Tag::Runner, Tag::Atk]);
    assert_eq!(read_tags(","), Vec::<Tag>::new());
}

#[test]
fn tag_named_twice_counts_once() {
    let player = make_player("PLAYMAKER,playmaker, PLAYMAKER ,DEF");
    assert_eq!(player.tags(), vec![Tag::Playmaker, Tag::Def]);
    assert_eq!(player.tag_value(), 70);
}

#[test]
fn tag_value_is_at_most_120() {
    let all = make_player("GK,ATK,DEF,RUNNER,PLAYMAKER,ATK,DEF");
    assert_eq!(all.tags().len(), 5);
    assert_eq!(all.tag_value(), 120);
}

#[test]
fn tag_labels_show_every_piece_that_is_not_blank() {
    assert_eq!(tag_labels("PLAYMAKER, runner ,, Left Foot ,\t"), vec!["PLAYMAKER", "runner", "Left Foot"]);
    assert_eq!(tag_labels(""), Vec::<String>::new());
    assert_eq!(tag_labels(" , "), Vec::<String>::new());
    assert_eq!(tag_labels("\u{2003}Zoë\u{00A0}"), vec!["Zoë"]);
}

#[test]
fn partial_participation_is_anything_below_all() {
    assert!(EloSnapshot { before: 0, delta: 0, participation: 999_999 }.is_partial());
    assert!(EloSnapshot { before: 0, delta: 0, participation: 0 }.is_partial());
    assert!(!EloSnapshot { before: 0, delta: 0, participation: 1_000_000 }.is_partial());
    assert!(!EloSnapshot { before: 0, delta: 0, participation: 2_000_000 }.is_partial());
}

/// What std's trimming and uppercasing make of a tag name.
fn named_by_std(s: &str) -> Option<Tag> {
    match s.trim().to_uppercase().as_str() {
        "PLAYMAKER" => Some(Tag::Playmaker),
        "RUNNER" => Some(Tag::Runner),
        "DEF" => Some(Tag::Def),
        "ATK" => Some(Tag::Atk),
        "GK" => Some(Tag::Gk),
        _ => None,
    }
}

fn chars_worth_trying() -> Vec<char> {
    (0u32..=0x10FFFF)
        .filter_map(char::from_u32)
        .filter(|c| {
            (*c as u32) < 0x3100
                || c.is_whitespace()
                || c.to_uppercase().any(|u| u.is_ascii())
                || c.to_lowercase().any(|l| l.is_ascii())
        })
        .collect()
}

#[test]
fn tag_from_str_agrees_with_std_on_any_one_letter() {
    let names = ["PLAYMAKER", "RUNNER", "DEF", "ATK", "GK"];
    let chars = chars_worth_trying();
    for name in names {
        let letters: Vec<char> = name.chars().collect();
        for at in 0..letters.len() {
            for c in &chars {
                let mut changed = letters.clone();
                changed[at] = *c;
                let text: String = changed.into_iter().collect();
                assert_eq!(Tag::from_str(&text), named_by_std(&text), "{:?}", text);
            }
        }
    }
}

#[test]
fn tag_from_str_agrees_with_std_on_surroundings() {
    for c in chars_worth_trying() {
        for text in [
            format!("{}gk", c),
            format!("Atk{}", c),
            format!("{}{}def{}", c, c, c),
            format!("ru{}nner", c),
            format!("{}", c),
        ] {
            assert_eq!(Tag::from_str(&text), named_by_std(&text), "{:?}", text);
        }
    }
}

#[test]
fn tag_labels_agree_with_std() {
    for field in [
        "", ",", ",,", "a", " a ", "a,b", " a , b ,", "PLAYMAKER,RUNNER", "x,\u{2003},y\u{00A0}",
        ",a,,b,", "  ", "déf, ATK ,gk\t",
    ] {
        let by_std: Vec<String> = field
            .split(',')
            .map(|s| s.trim())
            .filter(|s| !s.is_empty())
            .map(|s| s.to_string())
            .collect();
        assert_eq!(tag_labels(field), by_std, "{:?}", field);
    }
}

#[test]
fn read_tags_agrees_with_std_up_to_repeats() {
    for field in [
        "", ",", "GK", "gk,DEF", " gk , def ,atk,runner,playmaker", "DEF,DEF,def", "x,GK,y,GK",
        "PLAYMAKER,INVALID,DEF", "atk,\u{00A0}Runner\u{3000},", "playmaker runner",
    ] {
        let mut by_std: Vec<Tag> = Vec::new();
        for tag in field.split(',').filter_map(named_by_std) {
            if !by_std.contains(&tag) {
                by_std.push(tag);
            }
        }
        assert_eq!(read_tags(field), by_std, "{:?}", field);
    }
}
