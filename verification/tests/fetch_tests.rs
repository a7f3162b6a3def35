use bgmrank::data::{Category, ListAll, State, ToStaticStr};
use bgmrank::fetch::{needs_next_page, page_url, ITEMS_PER_PAGE};
use bgmrank::text::{parse_u32, split_by, trim_spaces};

#[test]
fn test_page_url() {
    assert_eq!(
        page_url("someuser", Category::Anime, State::Collect, 1),
        "https://bgm.tv/anime/list/someuser/collect?page=1"
    );
    assert_eq!(
        page_url("u", Category::Game, State::OnHold, 12),
        "https://bgm.tv/game/list/u/on_hold?page=12"
    );
}

#[test]
fn test_needs_next_page() {
    assert!(!needs_next_page(0));
    assert!(!needs_next_page(ITEMS_PER_PAGE - 1));
    assert!(needs_next_page(ITEMS_PER_PAGE));
    assert!(needs_next_page(100));
}

#[test]
fn test_tokens_round_trip() {
    for c in Category::list_all() {
        assert_eq!(Category::from_token(c.to_static_str()), Some(c));
    }
    for s in State::list_all() {
        assert_eq!(State::from_token(s.to_static_str()), Some(s));
    }
    assert_eq!(Category::from_token("opera"), None);
    assert_eq!(State::from_token(""), None);
}

#[test]
fn test_parse_u32() {
    assert_eq!(parse_u32("0"), Some(0));
    assert_eq!(parse_u32("4294967295"), Some(u32::MAX));
    assert_eq!(parse_u32("4294967296"), None);
    assert_eq!(parse_u32(""), None);
    assert_eq!(parse_u32("12a"), None);
    assert_eq!(parse_u32("007"), Some(7));
}

#[test]
fn test_trim_and_split() {
    assert_eq!(trim_spaces("  a b\t\n"), "a b");
    assert_eq!(trim_spaces(""), "");
    assert_eq!(trim_spaces(" \t "), "");
    assert_eq!(split_by("a  b c", ' ', false), vec!["a", "b", "c"]);
    assert_eq!(split_by("one\t two", ' ', true), vec!["one", "two"]);
    assert!(split_by("   ", ' ', false).is_empty());
}
