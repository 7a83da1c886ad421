use news_core::db::ArticleStore;
use news_core::dedup::article_id_from_url;
use news_core::models::{Article, Category};

fn art(id: &str, category: Category, title: &str, published_at: u64) -> Article {
    Article {
        id: id.to_string(),
        category,
        title: title.to_string(),
        url: format!("https://example.com/{}", id),
        description: None,
        image_url: None,
        source: "test".to_string(),
        published_at,
        fetched_at: published_at,
        view_count: 0,
        click_count: 0,
        popularity_score: 0,
        group_id: None,
        group_count: None,
    }
}

#[test]
fn idempotent_insert() {
    let mut store = ArticleStore::new();
    let a = art("id-1", Category::Tech, "first", 1000);
    assert!(store.insert_article(&a));
    assert_eq!(store.len(), 1);
    assert!(!store.insert_article(&a));
    assert_eq!(store.len(), 1);
}

#[test]
fn insert_tracking_variant_is_duplicate() {
    // the id is content-addressed, so tracking variants collide
    let mut store = ArticleStore::new();
    let id1 = article_id_from_url("https://a.example/x?utm_source=tw#top");
    let id2 = article_id_from_url("https://a.example/x");
    assert_eq!(id1, id2);
    let first = art(&id1, Category::General, "story", 10);
    let second = art(&id2, Category::General, "story again", 20);
    assert!(store.insert_article(&first));
    assert!(!store.insert_article(&second));
    assert_eq!(store.len(), 1);
}

#[test]
fn insert_batch_counts_new_rows() {
    let mut store = ArticleStore::new();
    let batch = vec![
        art("a", Category::Tech, "one", 1),
        art("b", Category::Tech, "two", 2),
        art("a", Category::Tech, "one again", 3),
    ];
    let n = store.insert_articles(&batch);
    assert_eq!(n, 2);
    assert_eq!(store.len(), 2);
}

#[test]
fn get_by_id_roundtrip() {
    let mut store = ArticleStore::new();
    store.insert_article(&art("some-id", Category::Science, "hello", 42));
    let found = store.get_article_by_id("some-id").unwrap();
    assert_eq!(found.id, "some-id");
    assert_eq!(found.title, "hello");
    assert_eq!(found.published_at, 42);
    assert!(store.get_article_by_id("missing").is_none());
}

#[test]
fn query_orders_newest_first() {
    let mut store = ArticleStore::new();
    store.insert_article(&art("a", Category::Tech, "oldest", 1));
    store.insert_article(&art("b", Category::Tech, "newest", 3));
    store.insert_article(&art("c", Category::Tech, "middle", 2));
    let (page, cur) = store.query_articles(None, 10, None);
    assert!(cur.is_none());
    let ids: Vec<&str> = page.iter().map(|a| a.id.as_str()).collect();
    assert_eq!(ids, ["b", "c", "a"]);
}

#[test]
fn query_breaks_timestamp_ties_by_id_descending() {
    let mut store = ArticleStore::new();
    store.insert_article(&art("aa", Category::Tech, "t", 5));
    store.insert_article(&art("zz", Category::Tech, "t", 5));
    store.insert_article(&art("mm", Category::Tech, "t", 5));
    let (page, _) = store.query_articles(None, 10, None);
    let ids: Vec<&str> = page.iter().map(|a| a.id.as_str()).collect();
    assert_eq!(ids, ["zz", "mm", "aa"]);
}

#[test]
fn query_scopes_to_category() {
    let mut store = ArticleStore::new();
    store.insert_article(&art("a", Category::Tech, "t", 1));
    store.insert_article(&art("b", Category::Sports, "s", 2));
    let (page, _) = store.query_articles(Some(Category::Sports), 10, None);
    assert_eq!(page.len(), 1);
    assert_eq!(page[0].id, "b");
}

#[test]
fn five_item_pagination_chain() {
    // five tech items, limit 2: pages of 2, 2, 1; no cursor on the last
    let mut store = ArticleStore::new();
    for i in 0..5u64 {
        store.insert_article(&art(&format!("id-{}", i), Category::Tech, "t", 100 + i));
    }
    let (p1, c1) = store.query_articles(Some(Category::Tech), 2, None);
    assert_eq!(p1.len(), 2);
    let c1 = c1.expect("first page should have a next cursor");
    let (p2, c2) = store.query_articles(Some(Category::Tech), 2, Some(&c1));
    assert_eq!(p2.len(), 2);
    let c2 = c2.expect("second page should have a next cursor");
    let (p3, c3) = store.query_articles(Some(Category::Tech), 2, Some(&c2));
    assert_eq!(p3.len(), 1);
    assert!(c3.is_none());

    // chaining yields the same sequence as one big query, without
    // duplicates or gaps
    let (all, _) = store.query_articles(Some(Category::Tech), 5, None);
    let chained: Vec<&str> = p1.iter().chain(p2.iter()).chain(p3.iter()).map(
        |a| a.id.as_str(),
    ).collect();
    let whole: Vec<&str> = all.iter().map(|a| a.id.as_str()).collect();
    assert_eq!(chained, whole);
}

#[test]
fn malformed_cursor_starts_from_top() {
    let mut store = ArticleStore::new();
    store.insert_article(&art("a", Category::Tech, "t", 1));
    store.insert_article(&art("b", Category::Tech, "t", 2));
    let (from_garbage, _) = store.query_articles(None, 10, Some("@@not-base64@@"));
    let (from_top, _) = store.query_articles(None, 10, None);
    assert_eq!(from_garbage.len(), from_top.len());
    assert_eq!(from_garbage[0].id, from_top[0].id);
}

#[test]
fn record_view_updates_score() {
    let mut store = ArticleStore::new();
    store.insert_article(&art("a", Category::Tech, "t", 1));
    // popularity is stored in tenths: 0.7·views + 0.3·clicks scaled by ten
    assert_eq!(store.increment_view_count("a"), Some(1));
    let row = store.get_article_by_id("a").unwrap();
    assert_eq!(row.view_count, 1);
    assert_eq!(row.popularity_score, 7);
    assert_eq!(store.increment_click_count("a"), Some(1));
    let row = store.get_article_by_id("a").unwrap();
    assert_eq!(row.click_count, 1);
    assert_eq!(row.popularity_score, 10);
    assert_eq!(store.increment_view_count("missing"), None);
}

#[test]
fn popularity_never_decreases() {
    let mut store = ArticleStore::new();
    store.insert_article(&art("a", Category::Tech, "t", 1));
    let mut last = 0u64;
    for _ in 0..5 {
        store.increment_view_count("a");
        let now = store.get_article_by_id("a").unwrap().popularity_score;
        assert!(now >= last);
        last = now;
    }
    for _ in 0..5 {
        store.increment_click_count("a");
        let now = store.get_article_by_id("a").unwrap().popularity_score;
        assert!(now >= last);
        last = now;
    }
}

#[test]
fn fresh_window_filters_by_age() {
    let mut store = ArticleStore::new();
    let now: u64 = 10 * 60_000;
    store.insert_article(&art("old", Category::Tech, "t", 0));
    store.insert_article(&art("new", Category::Tech, "t", 9 * 60_000));
    let fresh = store.get_fresh_articles(None, 5, 10, now);
    assert_eq!(fresh.len(), 1);
    assert_eq!(fresh[0].id, "new");
}

#[test]
fn update_image_url_sets_only_that_row() {
    let mut store = ArticleStore::new();
    store.insert_article(&art("a", Category::Tech, "t", 1));
    store.insert_article(&art("b", Category::Tech, "t", 2));
    store.update_image_url("a", "https://img.example/a.png");
    assert_eq!(
        store.get_article_by_id("a").unwrap().image_url.as_deref(),
        Some("https://img.example/a.png"),
    );
    assert!(store.get_article_by_id("b").unwrap().image_url.is_none());
}

#[test]
fn articles_without_image_lists_missing() {
    let mut store = ArticleStore::new();
    store.insert_article(&art("a", Category::Tech, "t", 1));
    store.insert_article(&art("b", Category::Tech, "t", 2));
    store.update_image_url("b", "https://img.example/b.png");
    let missing = store.articles_without_image(10);
    assert_eq!(missing.len(), 1);
    assert_eq!(missing[0].id, "a");
}

#[test]
fn row_mapping_falls_back_on_bad_values() {
    let a = news_core::db::article_from_row(
        "id-1".to_string(),
        "nonsense",
        "t".to_string(),
        "https://example.com/x".to_string(),
        None,
        None,
        "s".to_string(),
        -5,
        7,
    );
    assert_eq!(a.category, Category::General);
    assert_eq!(a.published_at, 0);
    assert_eq!(a.fetched_at, 7);
    assert_eq!(a.view_count, 0);

    let b = news_core::db::article_from_row(
        "id-2".to_string(),
        "TECH",
        "t".to_string(),
        "https://example.com/x".to_string(),
        None,
        None,
        "s".to_string(),
        1,
        1,
    );
    assert_eq!(b.category, Category::Tech);
}

#[test]
fn delete_old_articles_expires_by_horizon() {
    let mut store = ArticleStore::new();
    store.insert_article(&art("old", Category::Tech, "t", 10));
    store.insert_article(&art("new", Category::Tech, "t", 100));
    let removed = store.delete_old_articles(50);
    assert_eq!(removed, 1);
    assert_eq!(store.len(), 1);
    assert!(store.get_article_by_id("old").is_none());
    assert!(store.get_article_by_id("new").is_some());
}
