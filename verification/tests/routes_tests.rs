use news_core::config::FeatureFlags;
use news_core::db::ArticleStore;
use news_core::feeds::{choose_feeds, entry_to_article, FeedConfig};
use news_core::config::DynamicFeed;
use news_core::models::{Article, Category};
use news_core::routes::{apply_grouping, clamp_limit, get_articles, ArticlesQuery};

fn art(id: &str, title: &str, published_at: u64) -> Article {
    Article {
        id: id.to_string(),
        category: Category::Tech,
        title: title.to_string(),
        url: format!("https://example.com/{}", id),
        description: None,
        image_url: None,
        source: "test".to_string(),
        published_at,
        fetched_at: published_at,
        view_count: 0,
        click_count: 0,
        popularity_score: 0,
        group_id: None,
        group_count: None,
    }
}

#[test]
fn clamp_limit_defaults_and_bounds() {
    assert_eq!(clamp_limit(None), 30);
    assert_eq!(clamp_limit(Some(10)), 10);
    assert_eq!(clamp_limit(Some(1000)), 100);
    assert_eq!(clamp_limit(Some(0)), 1);
    assert_eq!(clamp_limit(Some(-5)), 1);
}

#[test]
fn apply_grouping_collapses_near_duplicates() {
    let articles = vec![
        art("a", "東京都で新型コロナ100人確認", 4),
        art("b", "東京都で新型コロナ150人確認", 3),
        art("c", "サッカーW杯の結果速報", 2),
    ];
    let out = apply_grouping(articles, 3, 10);
    assert_eq!(out.len(), 2);
    // the representative of the collapsed pair is the first row,
    // annotated with a fresh group id and the group size
    assert_eq!(out[0].id, "a");
    assert_eq!(out[0].group_count, Some(2));
    let gid = out[0].group_id.as_ref().expect("representative carries a group id");
    assert_eq!(gid.len(), 36);
    // singletons pass through unchanged
    assert_eq!(out[1].id, "c");
    assert_eq!(out[1].group_count, None);
    assert_eq!(out[1].group_id, None);
}

#[test]
fn apply_grouping_fresh_ids_differ_per_call() {
    let make = || {
        vec![art("a", "same title here", 2), art("b", "same title here", 1)]
    };
    let out1 = apply_grouping(make(), 3, 10);
    let out2 = apply_grouping(make(), 3, 10);
    assert_eq!(out1.len(), 1);
    assert_eq!(out2.len(), 1);
    // same membership, but the synthetic identifier is regenerated
    assert_ne!(out1[0].group_id, out2[0].group_id);
}

#[test]
fn get_articles_plain_page() {
    let mut store = ArticleStore::new();
    for i in 0..3u64 {
        store.insert_article(&art(&format!("id{}", i), "title", 100 + i));
    }
    let params = ArticlesQuery { category: None, limit: Some(2), cursor: None, freshness: None };
    let flags = FeatureFlags::default();
    let page = get_articles(&store, &params, &flags, 1000);
    assert_eq!(page.articles.len(), 2);
    assert!(page.next_cursor.is_some());
    assert_eq!(page.articles[0].id, "id2");
}

#[test]
fn get_articles_grouping_enabled_collapses() {
    let mut store = ArticleStore::new();
    store.insert_article(&art("a", "breaking news story here", 4));
    store.insert_article(&art("b", "breaking news story her!", 3));
    store.insert_article(&art("c", "totally unrelated topic", 2));
    let params = ArticlesQuery { category: None, limit: Some(10), cursor: None, freshness: None };
    let flags = FeatureFlags {
        grouping_enabled: true,
        grouping_threshold_num: 3,
        grouping_threshold_den: 10,
        ogp_enrichment_enabled: true,
    };
    let page = get_articles(&store, &params, &flags, 1000);
    assert_eq!(page.articles.len(), 2);
    assert_eq!(page.articles[0].group_count, Some(2));
}

#[test]
fn get_articles_same_query_same_membership() {
    let mut store = ArticleStore::new();
    store.insert_article(&art("a", "breaking news story here", 4));
    store.insert_article(&art("b", "breaking news story her!", 3));
    store.insert_article(&art("c", "totally unrelated topic", 2));
    let params = ArticlesQuery { category: None, limit: Some(10), cursor: None, freshness: None };
    let flags = FeatureFlags {
        grouping_enabled: true,
        grouping_threshold_num: 3,
        grouping_threshold_den: 10,
        ogp_enrichment_enabled: true,
    };
    let p1 = get_articles(&store, &params, &flags, 1000);
    let p2 = get_articles(&store, &params, &flags, 1000);
    // identical membership, order and sizes across the two calls
    let ids1: Vec<&str> = p1.articles.iter().map(|a| a.id.as_str()).collect();
    let ids2: Vec<&str> = p2.articles.iter().map(|a| a.id.as_str()).collect();
    assert_eq!(ids1, ids2);
    assert_eq!(p1.articles[0].group_count, p2.articles[0].group_count);
    // but the synthetic group identifier is regenerated per call
    assert_ne!(p1.articles[0].group_id, p2.articles[0].group_id);
}

#[test]
fn get_articles_freshness_window() {
    let mut store = ArticleStore::new();
    let now = 10 * 60_000u64;
    store.insert_article(&art("old", "old title", 0));
    store.insert_article(&art("new", "new title", 9 * 60_000));
    let params = ArticlesQuery {
        category: None,
        limit: None,
        cursor: None,
        freshness: Some(5),
    };
    let flags = FeatureFlags::default();
    let page = get_articles(&store, &params, &flags, now);
    assert_eq!(page.articles.len(), 1);
    assert_eq!(page.articles[0].id, "new");
    assert!(page.next_cursor.is_none());
}

#[test]
fn choose_feeds_prefers_configured_over_fallback() {
    let fallback = vec![FeedConfig {
        url: "https://fallback.example/rss".to_string(),
        source: "Fallback".to_string(),
        category: "general".to_string(),
    }];
    let configured = vec![DynamicFeed {
        feed_id: "f1".to_string(),
        url: "https://dyn.example/rss".to_string(),
        source: "Dyn".to_string(),
        category: "tech".to_string(),
        enabled: true,
        added_by: None,
    }];
    let chosen = choose_feeds(Some(configured), fallback.clone());
    assert_eq!(chosen.len(), 1);
    assert_eq!(chosen[0].source, "Dyn");

    let from_empty = choose_feeds(Some(Vec::new()), fallback.clone());
    assert_eq!(from_empty[0].source, "Fallback");
    let from_error = choose_feeds(None, fallback);
    assert_eq!(from_error[0].source, "Fallback");
}

#[test]
fn entry_without_link_is_dropped() {
    let r = entry_to_article(
        None,
        Some("t".to_string()),
        None,
        None,
        None,
        None,
        None,
        Category::Tech,
        "src".to_string(),
        77,
    );
    assert!(r.is_none());
}

#[test]
fn entry_defaults_title_and_timestamps() {
    let a = entry_to_article(
        Some("https://example.com/story".to_string()),
        None,
        None,
        Some("body text".to_string()),
        None,
        None,
        None,
        Category::Tech,
        "src".to_string(),
        77,
    ).unwrap();
    assert_eq!(a.title, "(no title)");
    assert_eq!(a.published_at, 77);
    assert_eq!(a.fetched_at, 77);
    assert_eq!(a.description.as_deref(), Some("body text"));
    assert_eq!(a.id.len(), 36);
    assert_eq!(a.view_count, 0);
}

#[test]
fn entry_prefers_published_then_updated() {
    let link = || Some("https://example.com/s".to_string());
    let a = entry_to_article(
        link(), None, None, None, None, Some(5), Some(9), Category::Tech,
        "s".to_string(), 77,
    ).unwrap();
    assert_eq!(a.published_at, 5);
    let b = entry_to_article(
        link(), None, None, None, None, None, Some(9), Category::Tech,
        "s".to_string(), 77,
    ).unwrap();
    assert_eq!(b.published_at, 9);
}
