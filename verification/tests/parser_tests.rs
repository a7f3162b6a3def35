use bgmrank::parser::{extract_item, get_all_items, ExtractError, PageEntry, TitleNode};

fn full_entry() -> PageEntry {
    PageEntry {
        id_attr: Some("item_123".to_string()),
        title: Some(TitleNode { name: "a".to_string(), text: "Some Title".to_string() }),
        rating_classes: Some("starlight stars8".to_string()),
        tags_text: Some("\n  标签: 科幻 动画  ".to_string()),
    }
}

#[test]
fn test_extract_full_entry() {
    let item = extract_item(&full_entry()).unwrap();
    assert_eq!(item.id, 123);
    assert_eq!(item.title, "Some Title");
    assert_eq!(item.rating, Some(8));
    assert_eq!(item.tags, vec!["科幻".to_string(), "动画".to_string()]);
}

#[test]
fn test_extract_unrated_untagged() {
    let entry = PageEntry {
        id_attr: Some("item_7".to_string()),
        title: Some(TitleNode { name: "small".to_string(), text: "T".to_string() }),
        rating_classes: None,
        tags_text: None,
    };
    let item = extract_item(&entry).unwrap();
    assert_eq!(item.id, 7);
    assert_eq!(item.rating, None);
    assert!(item.tags.is_empty());
}

#[test]
fn test_extract_missing_id() {
    let mut e = full_entry();
    e.id_attr = None;
    assert_eq!(extract_item(&e).unwrap_err(), ExtractError::MissingId);
}

#[test]
fn test_extract_bad_id_prefix() {
    let mut e = full_entry();
    e.id_attr = Some("thing_12".to_string());
    assert_eq!(extract_item(&e).unwrap_err(), ExtractError::IdPrefix);
}

#[test]
fn test_extract_bad_id_number() {
    let mut e = full_entry();
    e.id_attr = Some("item_12a".to_string());
    assert_eq!(extract_item(&e).unwrap_err(), ExtractError::IdNumber);
    e.id_attr = Some("item_".to_string());
    assert_eq!(extract_item(&e).unwrap_err(), ExtractError::IdNumber);
    e.id_attr = Some("item_99999999999".to_string());
    assert_eq!(extract_item(&e).unwrap_err(), ExtractError::IdNumber);
}

#[test]
fn test_extract_missing_title() {
    let mut e = full_entry();
    e.title = None;
    assert_eq!(extract_item(&e).unwrap_err(), ExtractError::MissingTitle);
}

#[test]
fn test_extract_bad_title_kind() {
    let mut e = full_entry();
    e.title = Some(TitleNode { name: "div".to_string(), text: "X".to_string() });
    assert_eq!(extract_item(&e).unwrap_err(), ExtractError::TitleKind);
}

#[test]
fn test_extract_no_stars_token() {
    let mut e = full_entry();
    e.rating_classes = Some("foo bar".to_string());
    assert_eq!(extract_item(&e).unwrap_err(), ExtractError::NoStars);
}

#[test]
fn test_extract_bad_stars_value() {
    let mut e = full_entry();
    e.rating_classes = Some("starlight stars11".to_string());
    assert_eq!(extract_item(&e).unwrap_err(), ExtractError::BadStars);
    e.rating_classes = Some("starlight starsx".to_string());
    assert_eq!(extract_item(&e).unwrap_err(), ExtractError::BadStars);
    e.rating_classes = Some("starlight stars0".to_string());
    assert_eq!(extract_item(&e).unwrap_err(), ExtractError::BadStars);
}

#[test]
fn test_extract_bad_tags_prefix() {
    let mut e = full_entry();
    e.tags_text = Some("tags: a b".to_string());
    assert_eq!(extract_item(&e).unwrap_err(), ExtractError::TagsPrefix);
}

#[test]
fn test_get_all_items_ok_and_first_error() {
    let good = full_entry();
    let items = get_all_items(&vec![good]).unwrap();
    assert_eq!(items.len(), 1);
    assert_eq!(items[0].id, 123);

    let mut bad = full_entry();
    bad.title = None;
    let mut worse = full_entry();
    worse.id_attr = None;
    // extraction stops at the first failing entry
    let err = get_all_items(&vec![full_entry(), bad, worse]).unwrap_err();
    assert_eq!(err, ExtractError::MissingTitle);
}
