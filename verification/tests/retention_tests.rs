use news_core::db::ArticleStore;
use news_core::models::{Article, Category};

const HOUR_MS: u64 = 3_600_000;

fn art(id: &str, published_at: u64, image: bool) -> Article {
    Article {
        id: id.to_string(),
        category: Category::General,
        title: format!("title {}", id),
        url: format!("https://example.com/{}", id),
        description: None,
        image_url: if image {
            Some(format!("https://img.example/{}.png", id))
        } else {
            None
        },
        source: "test".to_string(),
        published_at,
        fetched_at: published_at,
        view_count: 0,
        click_count: 0,
        popularity_score: 0,
        group_id: None,
        group_count: None,
    }
}

/// Drive the row to popularity `units` whole points: `k` views plus `k`
/// clicks score `0.7k + 0.3k = k`.
fn set_popularity_units(store: &mut ArticleStore, id: &str, units: u32) {
    for _ in 0..units {
        store.increment_view_count(id);
        store.increment_click_count(id);
    }
}

#[test]
fn soft_degrade_clears_below_median() {
    let mut store = ArticleStore::new();
    let now = 10 * HOUR_MS;
    let aged = now - 2 * HOUR_MS;
    // aged rows with popularity 3, 5, 10: the median is 5
    store.insert_article(&art("low", aged, true));
    store.insert_article(&art("mid", aged + 1, true));
    store.insert_article(&art("high", aged + 2, true));
    // an aged sibling with zero popularity, and a fresh row
    store.insert_article(&art("zero", aged + 3, true));
    store.insert_article(&art("fresh", now - 1, true));
    set_popularity_units(&mut store, "low", 3);
    set_popularity_units(&mut store, "mid", 5);
    set_popularity_units(&mut store, "high", 10);
    set_popularity_units(&mut store, "fresh", 1);

    let cleared = store.degrade_old_unpopular_images(now, 1);
    assert_eq!(cleared, 1);
    // only the aged, below-median, nonzero-popularity row loses its image
    assert!(store.get_article_by_id("low").unwrap().image_url.is_none());
    // the popular sibling keeps its image
    assert!(store.get_article_by_id("high").unwrap().image_url.is_some());
    // zero recorded popularity is left untouched
    assert!(store.get_article_by_id("zero").unwrap().image_url.is_some());
    // fresh rows are out of scope whatever their popularity
    assert!(store.get_article_by_id("fresh").unwrap().image_url.is_some());
    assert!(store.get_article_by_id("mid").unwrap().image_url.is_some());
}

#[test]
fn hard_evict_keeps_top_fifth_of_uniform_scores() {
    let mut store = ArticleStore::new();
    let day = 24 * HOUR_MS;
    let now = 10 * day;
    let aged = now - 2 * day;
    // ten aged rows with popularity 0..9 whole points
    for i in 0..10u32 {
        let id = format!("r{}", i);
        store.insert_article(&art(&id, aged + i as u64, false));
        set_popularity_units(&mut store, &id, i);
    }
    let removed = store.cleanup_old_articles_bottom_80(now, 1);
    // the cutoff score sits at the third-highest rank: rows scoring 7, 8
    // and 9 survive
    assert_eq!(removed, 7);
    assert_eq!(store.len(), 3);
    for i in 0..7u32 {
        assert!(store.get_article_by_id(&format!("r{}", i)).is_none());
    }
    for i in 7..10u32 {
        assert!(store.get_article_by_id(&format!("r{}", i)).is_some());
    }
}

#[test]
fn hard_evict_spares_fresh_rows() {
    let mut store = ArticleStore::new();
    let day = 24 * HOUR_MS;
    let now = 10 * day;
    store.insert_article(&art("fresh", now - day / 2, false));
    for i in 0..5u32 {
        let id = format!("aged{}", i);
        store.insert_article(&art(&id, now - 2 * day + i as u64, false));
        set_popularity_units(&mut store, &id, i);
    }
    store.cleanup_old_articles_bottom_80(now, 1);
    assert!(store.get_article_by_id("fresh").is_some());
}

#[test]
fn retention_on_empty_store_is_a_no_op() {
    let mut store = ArticleStore::new();
    assert_eq!(store.degrade_old_unpopular_images(HOUR_MS, 1), 0);
    assert_eq!(store.cleanup_old_articles_bottom_80(HOUR_MS, 1), 0);
    assert_eq!(store.get_popular_articles(0, 100, 10).len(), 0);
    assert_eq!(store.len(), 0);
}

#[test]
fn popular_percentile_slices_ranked_rows() {
    let mut store = ArticleStore::new();
    for i in 0..5u32 {
        let id = format!("p{}", i);
        store.insert_article(&art(&id, 1000 + i as u64, false));
        set_popularity_units(&mut store, &id, i + 1);
    }
    // an unranked row with zero popularity never appears
    store.insert_article(&art("silent", 2000, false));

    // the full range lists all ranked rows, most popular first
    let all = store.get_popular_articles(0, 100, 10);
    let ids: Vec<&str> = all.iter().map(|a| a.id.as_str()).collect();
    assert_eq!(ids, ["p4", "p3", "p2", "p1", "p0"]);

    // the top forty percent of five rows is the top two
    let top = store.get_popular_articles(60, 100, 10);
    let ids: Vec<&str> = top.iter().map(|a| a.id.as_str()).collect();
    assert_eq!(ids, ["p4", "p3"]);

    // the limit caps the window
    let capped = store.get_popular_articles(0, 100, 2);
    assert_eq!(capped.len(), 2);
}
