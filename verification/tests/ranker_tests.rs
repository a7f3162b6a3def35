use bgmrank::data::Item;
use bgmrank::ranker::generate_tag_stats;
use bgmrank::stats::Interval;

fn item(id: u32, rating: Option<u8>, tags: &[&str]) -> Item {
    Item {
        id,
        title: String::new(),
        rating,
        tags: tags.iter().map(|t| t.to_string()).collect(),
    }
}

#[test]
fn test_rank_prefers_lower_stdev_on_tied_average() {
    // both tags average 5, but "steady" has stdev 1 and "wild" has stdev 2
    let items = vec![
        item(1, Some(4), &["steady"]),
        item(2, Some(6), &["steady"]),
        item(3, Some(3), &["wild"]),
        item(4, Some(7), &["wild"]),
    ];
    let ranked = generate_tag_stats(&items);
    assert_eq!(ranked.len(), 2);
    assert_eq!(ranked[0].tag, "steady");
    assert_eq!(ranked[1].tag, "wild");
}

#[test]
fn test_rank_orders_by_average_desc() {
    let items = vec![
        item(1, Some(2), &["low"]),
        item(2, Some(9), &["high"]),
        item(3, Some(5), &["mid"]),
    ];
    let ranked = generate_tag_stats(&items);
    let tags: Vec<&str> = ranked.iter().map(|t| t.tag.as_str()).collect();
    assert_eq!(tags, vec!["high", "mid", "low"]);
}

#[test]
fn test_rank_drops_unrated_groups() {
    let items = vec![
        item(1, None, &["ghost"]),
        item(2, Some(8), &["real"]),
    ];
    let ranked = generate_tag_stats(&items);
    assert_eq!(ranked.len(), 1);
    assert_eq!(ranked[0].tag, "real");
    assert_eq!(ranked[0].stats.total, 1);
    assert_eq!(ranked[0].stats.rated, 1);
}

#[test]
fn test_rank_counts_unrated_members_in_total() {
    let items = vec![
        item(1, Some(6), &["tag"]),
        item(2, None, &["tag"]),
    ];
    let ranked = generate_tag_stats(&items);
    assert_eq!(ranked.len(), 1);
    assert_eq!(ranked[0].stats.total, 2);
    assert_eq!(ranked[0].stats.rated, 1);
    assert_eq!(ranked[0].stats.rating.sum, 6);
}

#[test]
fn test_ranks_before_comparisons() {
    // avg 5 stdev 1 (ratings 4,6) ranks before avg 5 stdev 2 (ratings 3,7)
    let steady = Interval { rated: 2, sum: 10, sq_sum: 52 };
    let wild = Interval { rated: 2, sum: 10, sq_sum: 58 };
    assert!(steady.ranks_before(&wild));
    assert!(!wild.ranks_before(&steady));
    // higher average wins regardless of spread
    let high = Interval { rated: 1, sum: 9, sq_sum: 81 };
    assert!(high.ranks_before(&steady));
    assert!(!steady.ranks_before(&high));
}
