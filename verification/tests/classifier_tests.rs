use bgmrank::classifier::classify_by_tags;
use bgmrank::data::Item;

fn item(id: u32, rating: Option<u8>, tags: &[&str]) -> Item {
    Item {
        id,
        title: String::new(),
        rating,
        tags: tags.iter().map(|t| t.to_string()).collect(),
    }
}

#[test]
fn test_classify_merges_casings() {
    let items = vec![
        item(1, Some(5), &["ROCK"]),
        item(2, Some(7), &["rock"]),
        item(3, None, &["rock"]),
    ];
    let groups = classify_by_tags(&items);
    assert_eq!(groups.len(), 1);
    assert_eq!(groups[0].normalized, "rock");
    // "rock" was seen twice, "ROCK" once: "rock" is the display spelling
    assert_eq!(groups[0].display, "rock");
    assert_eq!(groups[0].members, vec![0, 1, 2]);
}

#[test]
fn test_classify_display_tie_keeps_first_seen() {
    let items = vec![item(1, None, &["Ab"]), item(2, None, &["aB"])];
    let groups = classify_by_tags(&items);
    assert_eq!(groups.len(), 1);
    assert_eq!(groups[0].display, "Ab");
}

#[test]
fn test_classify_within_item_duplicate() {
    // an item tagged [X, x, Y] joins the x-group once and the y-group once
    let items = vec![item(1, Some(3), &["X", "x", "Y"])];
    let groups = classify_by_tags(&items);
    assert_eq!(groups.len(), 2);
    assert_eq!(groups[0].normalized, "x");
    assert_eq!(groups[0].members, vec![0]);
    assert_eq!(groups[1].normalized, "y");
    assert_eq!(groups[1].members, vec![0]);
}

#[test]
fn test_classify_groups_in_first_seen_order() {
    let items = vec![
        item(1, None, &["b", "a"]),
        item(2, None, &["a", "c"]),
    ];
    let groups = classify_by_tags(&items);
    let keys: Vec<&str> = groups.iter().map(|g| g.normalized.as_str()).collect();
    assert_eq!(keys, vec!["b", "a", "c"]);
    assert_eq!(groups[1].members, vec![0, 1]);
}

#[test]
fn test_classify_deterministic() {
    let items = vec![
        item(1, Some(5), &["Pop", "rock"]),
        item(2, Some(7), &["pop", "Rock", "pop"]),
        item(3, None, &["POP"]),
    ];
    let first = classify_by_tags(&items);
    let second = classify_by_tags(&items);
    assert_eq!(first.len(), second.len());
    for (a, b) in first.iter().zip(second.iter()) {
        assert_eq!(a.normalized, b.normalized);
        assert_eq!(a.display, b.display);
        assert_eq!(a.members, b.members);
    }
}
