use smwe_editor::tooltip_search::{contains_chars, id_matches_lowered, tooltip_search_ids};

fn chars(s: &str) -> Vec<char> {
    s.chars().collect()
}

#[test]
fn contains_chars_finds_substrings() {
    assert!(contains_chars(&chars("koopa troopa"), &chars("troop")));
    assert!(contains_chars(&chars("koopa"), &chars("")));
    assert!(contains_chars(&chars("koopa"), &chars("koopa")));
    assert!(!contains_chars(&chars("koopa"), &chars("koopas")));
    assert!(!contains_chars(&chars("koopa"), &chars("pk")));
}

#[test]
fn id_matches_by_hex_id_or_tooltip() {
    assert!(id_matches_lowered(&chars(""), 0x13, None));
    assert!(id_matches_lowered(&chars("2a"), 0x2A, None));
    assert!(id_matches_lowered(&chars("a"), 0xA0, None));
    assert!(!id_matches_lowered(&chars("2A"), 0x2A, None));
    assert!(!id_matches_lowered(&chars("ab"), 0x2A, None));
    let tip = chars("moving coin block");
    assert!(id_matches_lowered(&chars("coin"), 0x2A, Some(&tip)));
    assert!(!id_matches_lowered(&chars("coins"), 0x2A, Some(&tip)));
}

#[test]
fn empty_search_lists_every_id() {
    let ids = tooltip_search_ids("   ", &Vec::new());
    assert_eq!(ids, (0u8..=0xFF).collect::<Vec<u8>>());
}

#[test]
fn search_is_trimmed_and_case_insensitive_on_the_hex_id() {
    assert_eq!(tooltip_search_ids(" 2A\n", &Vec::new()), vec![0x2A]);
    let ids = tooltip_search_ids("A", &Vec::new());
    let expected: Vec<u8> = (0u8..=0xFF).filter(|id| id / 16 == 10 || id % 16 == 10).collect();
    assert_eq!(ids.len(), 31);
    assert_eq!(ids, expected);
}

#[test]
fn search_matches_tooltips_case_insensitively() {
    let mut tips: Vec<Option<String>> = vec![None; 0x10];
    tips[0x05] = Some("Koopa Troopa".to_string());
    tips[0x0C] = Some("Question Block".to_string());
    assert_eq!(tooltip_search_ids("KOO", &tips), vec![0x05]);
    assert_eq!(tooltip_search_ids("block", &tips), vec![0x0C]);
    assert_eq!(tooltip_search_ids("a", &tips), {
        let mut v: Vec<u8> = (0u8..=0xFF).filter(|id| id / 16 == 10 || id % 16 == 10).collect();
        v.insert(0, 0x05);
        v
    });
    assert_eq!(tooltip_search_ids("xyz", &tips), Vec::<u8>::new());
}
