use news_core::dedup::{article_id_from_url, canonical_url};

/// The canonical form computed with the url crate itself: drop the
/// fragment, filter the tracking pairs, and write the rest back through
/// `set_query`, which re-serializes with the scheme's query escaping.
fn reference_canonical(raw: &str) -> String {
    const TRACKING: &[&str] = &[
        "utm_source",
        "utm_medium",
        "utm_campaign",
        "utm_term",
        "utm_content",
        "ref",
        "fbclid",
        "gclid",
        "mc_cid",
        "mc_eid",
    ];
    let Ok(mut parsed) = url::Url::parse(raw) else {
        return raw.to_string();
    };
    parsed.set_fragment(None);
    let filtered: Vec<(String, String)> = parsed
        .query_pairs()
        .filter(|(key, _)| !TRACKING.contains(&key.as_ref()))
        .map(|(k, v)| (k.into_owned(), v.into_owned()))
        .collect();
    if filtered.is_empty() {
        parsed.set_query(None);
    } else {
        let qs: Vec<String> = filtered.iter().map(|(k, v)| format!("{k}={v}")).collect();
        parsed.set_query(Some(&qs.join("&")));
    }
    parsed.to_string()
}

#[test]
fn canonical_matches_query_reserialization() {
    for raw in [
        "https://a.example/p",
        "https://a.example/p?q=1",
        "https://a.example/p?utm_source=x",
        "https://a.example/p?utm_source=x&q=1#frag",
        "https://a.example/p?q=hello%20world",
        "https://a.example/p?q=a+b",
        "https://a.example/p?q=%E6%9D%B1%E4%BA%AC",
        "https://a.example/p?q=東京タワー",
        "https://a.example/p?q=it's&r=1",
        "foo://h/p?q=it's",
        "https://a.example/p?q=%22%3C%3E%23",
        "https://a.example/p?a=%3D&b=%26",
        "https://a.example/p?q=100%25",
        "https://a.example/p?q=%09x",
        "https://a.example/p?q=%7F",
        "https://a.example/p?q=",
        "https://a.example/p?q",
    ] {
        assert_eq!(canonical_url(raw), reference_canonical(raw), "for {raw}");
    }
}

#[test]
fn same_url_same_id() {
    let id1 = article_id_from_url("https://example.com/article/1");
    let id2 = article_id_from_url("https://example.com/article/1");
    assert_eq!(id1, id2);
}

#[test]
fn tracking_params_stripped() {
    let id1 = article_id_from_url("https://example.com/article/1");
    let id2 =
        article_id_from_url("https://example.com/article/1?utm_source=twitter&utm_medium=social");
    assert_eq!(id1, id2);
}

#[test]
fn fragment_stripped() {
    let id1 = article_id_from_url("https://example.com/article/1");
    let id2 = article_id_from_url("https://example.com/article/1#section");
    assert_eq!(id1, id2);
}

#[test]
fn different_urls_different_ids() {
    let id1 = article_id_from_url("https://example.com/article/1");
    let id2 = article_id_from_url("https://example.com/article/2");
    assert_ne!(id1, id2);
}

#[test]
fn non_tracking_params_preserved() {
    let id1 = article_id_from_url("https://example.com/search?q=rust");
    let id2 = article_id_from_url("https://example.com/search?q=go");
    assert_ne!(id1, id2);
}

#[test]
fn id_is_hyphenated_uuid() {
    let id = article_id_from_url("https://example.com/article/1");
    assert_eq!(id.len(), 36);
    assert_eq!(id.chars().filter(|c| *c == '-').count(), 4);
    assert_ne!(id, "https://example.com/article/1");
}

#[test]
fn unparsable_url_still_resolves() {
    let id1 = article_id_from_url("not a url at all");
    let id2 = article_id_from_url("not a url at all");
    let id3 = article_id_from_url("also not a url");
    assert_eq!(id1, id2);
    assert_ne!(id1, id3);
    assert_eq!(id1.len(), 36);
}

#[test]
fn all_tracking_families_stripped() {
    let base = article_id_from_url("https://a.example/p");
    for q in [
        "utm_source=x",
        "utm_medium=x",
        "utm_campaign=x",
        "utm_term=x",
        "utm_content=x",
        "ref=x",
        "fbclid=x",
        "gclid=x",
        "mc_cid=x",
        "mc_eid=x",
    ] {
        let id = article_id_from_url(&format!("https://a.example/p?{}", q));
        assert_eq!(id, base);
    }
}

#[test]
fn mixed_params_keep_non_tracking_order() {
    let id1 = article_id_from_url("https://a.example/p?b=2&utm_source=x&a=1");
    let id2 = article_id_from_url("https://a.example/p?b=2&a=1");
    let id3 = article_id_from_url("https://a.example/p?a=1&b=2");
    assert_eq!(id1, id2);
    assert_ne!(id2, id3);
}
