use bgmrank::data::Item;
use bgmrank::stats::{generate_bar, Histogram, Interval};

fn item_with_rating(rating: Option<u8>) -> Item {
    Item { rating, ..Default::default() }
}

#[test]
fn test_generate_histogram() {
    let items: Vec<Item> = vec![
        item_with_rating(Some(4)),
        item_with_rating(None),
        item_with_rating(Some(2)),
        item_with_rating(Some(5)),
        item_with_rating(Some(1)),
        item_with_rating(Some(10)),
        item_with_rating(Some(4)),
        item_with_rating(None),
        item_with_rating(Some(2)),
        item_with_rating(Some(2)),
        item_with_rating(Some(9)),
        item_with_rating(Some(2)),
        item_with_rating(Some(3)),
        item_with_rating(Some(6)),
        item_with_rating(None),
        item_with_rating(Some(9)),
        item_with_rating(Some(1)),
        item_with_rating(Some(5)),
        item_with_rating(Some(6)),
        item_with_rating(None),
    ];
    let hist = Histogram::from_items(&items);
    let expected: [usize; 11] = [4, 2, 4, 1, 2, 2, 2, 0, 0, 2, 1];
    assert_eq!(hist.get(None), expected[0]);
    for i in 1..=10u8 {
        assert_eq!(hist.get(Some(i)), expected[i as usize]);
    }
    // bucket sums equal the number of items folded in
    assert_eq!(hist.get_stats().total, items.len());
}

fn get_test_histogram() -> Histogram {
    Histogram::from_counts(vec![200, 101, 102, 103, 104, 105, 106, 107, 108, 109, 110])
}

#[test]
fn test_histogram_indexing() {
    let hist = get_test_histogram();
    assert_eq!(hist.get(None), 200);
    for i in 1..10u8 {
        assert_eq!(hist.get(Some(i)), 100 + i as usize);
    }
    let mut hist = get_test_histogram();
    hist.set(None, hist.get(None) * 2);
    assert_eq!(hist.get(None), 400);
    for i in 1..10u8 {
        let m = i as usize + 1;
        hist.set(Some(i), hist.get(Some(i)) * m);
        assert_eq!(hist.get(Some(i)), (100 + i as usize) * m);
    }
}

#[test]
fn test_histogram_max_rated() {
    let hist = Histogram::from_counts(vec![10, 1, 2, 5, 5, 4, 8, 8, 7, 0, 5]);
    assert_eq!(hist.get_max_rated(), (6, 8));
}

#[test]
fn test_histogram_stats() {
    let hist = Histogram::from_counts(vec![60, 82, 60, 76, 26, 4, 69, 40, 85, 67, 96]);
    let stats = hist.get_stats();
    assert_eq!(stats.total, 665);
    assert_eq!(stats.rated, 605);
    let n = stats.rating.rated as f64;
    let avg = stats.rating.sum as f64 / n;
    let var = (n * stats.rating.sq_sum as f64 - (stats.rating.sum as f64) * (stats.rating.sum as f64)) / (n * n);
    let stdev = var.sqrt();
    assert!((avg - 5.77024793388).abs() < 1e-4);
    assert!((stdev - 3.22415072111).abs() < 1e-4);

    let hist = Histogram::from_counts(vec![10, 0, 0, 0, 0, 0, 0, 0, 0, 0, 0]);
    let stats = hist.get_stats();
    assert_eq!(stats.rated, 0);
    assert!(stats.rating.is_nan());
}

#[test]
fn test_stats_average_in_range() {
    // every rated histogram has its mean within [1, 10] and a real stdev
    let hist = Histogram::from_counts(vec![0, 5, 0, 0, 0, 0, 0, 0, 0, 0, 7]);
    let stats = hist.get_stats();
    assert!(!stats.rating.is_nan());
    let n = stats.rating.rated as f64;
    let avg = stats.rating.sum as f64 / n;
    let var = (n * stats.rating.sq_sum as f64 - (stats.rating.sum as f64) * (stats.rating.sum as f64)) / (n * n);
    assert!((1.0..=10.0).contains(&avg));
    assert!(var >= 0.0);
    assert!(var.sqrt() >= 0.0);
}

#[test]
fn test_interval_is_nan() {
    let empty = Interval { rated: 0, sum: 0, sq_sum: 0 };
    assert!(empty.is_nan());
    let one = Interval { rated: 1, sum: 7, sq_sum: 49 };
    assert!(!one.is_nan());
}

#[test]
fn test_generate_bar() {
    assert_eq!(generate_bar(0), "");
    assert_eq!(generate_bar(3), "###");
    assert_eq!(generate_bar(70).len(), 70);
}
