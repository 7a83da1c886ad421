use news_core::grouping::{group_articles, similarity_counts, trigrams};

fn similarity(a: &str, b: &str) -> f64 {
    let (inter, union) = similarity_counts(a, b);
    if union == 0 {
        return 1.0;
    }
    inter as f64 / union as f64
}

fn titles(v: &[&str]) -> Vec<String> {
    v.iter().map(|s| s.to_string()).collect()
}

#[test]
fn trigrams_basic() {
    let t = trigrams("abcde");
    assert!(t.contains(&"abc".to_string()));
    assert!(t.contains(&"bcd".to_string()));
    assert!(t.contains(&"cde".to_string()));
    assert_eq!(t.len(), 3);
}

#[test]
fn trigrams_japanese() {
    let t = trigrams("東京都知事");
    assert!(t.contains(&"東京都".to_string()));
    assert!(t.contains(&"京都知".to_string()));
    assert!(t.contains(&"都知事".to_string()));
}

#[test]
fn trigrams_short() {
    let t = trigrams("ab");
    assert_eq!(t.len(), 1);
    assert!(t.contains(&"ab".to_string()));
}

#[test]
fn trigrams_empty() {
    assert_eq!(trigrams("").len(), 0);
}

#[test]
fn trigrams_deduplicate() {
    // "aaaa" has a single distinct window "aaa"
    let t = trigrams("aaaa");
    assert_eq!(t.len(), 1);
    assert!(t.contains(&"aaa".to_string()));
}

#[test]
fn similarity_identical() {
    assert!((similarity("hello world", "hello world") - 1.0).abs() < f64::EPSILON);
}

#[test]
fn similarity_different() {
    let s = similarity("hello", "xyz123abc");
    assert!(s < 0.1);
}

#[test]
fn similarity_similar_titles() {
    let s = similarity(
        "東京都で新型コロナウイルスの感染者が100人確認",
        "東京都で新型コロナウイルスの感染者が150人確認",
    );
    assert!(s > 0.5, "Similar Japanese titles should have high similarity: {}", s);
}

#[test]
fn similarity_both_empty_is_one() {
    assert!((similarity("", "") - 1.0).abs() < f64::EPSILON);
}

#[test]
fn similarity_exact_counts() {
    // trigram sets {abc, bcd} and {bcd, cde}: one shared, three in all
    let (inter, union) = similarity_counts("abcd", "bcde");
    assert_eq!(inter, 1);
    assert_eq!(union, 3);
}

#[test]
fn group_articles_basic() {
    let ts = titles(&[
        "東京都で新型コロナ100人確認",
        "東京都で新型コロナ150人確認",
        "サッカーW杯の結果速報",
        "プログラミング言語Rustの最新版",
    ]);
    // threshold 0.3
    let groups = group_articles(&ts, 3, 10);
    let has_corona_group = groups.iter().any(|g| g.contains(&0) && g.contains(&1));
    assert!(has_corona_group, "Similar articles should be grouped: {:?}", groups);
}

#[test]
fn group_articles_no_groups() {
    let ts = titles(&["aaa", "bbb", "ccc"]);
    // threshold 0.5
    let groups = group_articles(&ts, 1, 2);
    assert_eq!(groups.len(), 3);
}

#[test]
fn group_articles_partitions_indices() {
    let ts = titles(&["abcdef", "abcdeg", "zzzzzz", "abcdqq"]);
    let groups = group_articles(&ts, 3, 10);
    let mut seen = vec![0usize; ts.len()];
    for g in &groups {
        assert!(!g.is_empty());
        for &i in g {
            assert!(i < ts.len());
            seen[i] += 1;
        }
    }
    for count in seen {
        assert_eq!(count, 1);
    }
}

#[test]
fn group_articles_zero_threshold_collapses_all() {
    let ts = titles(&["aaa", "bbb", "ccc", "ddd"]);
    let groups = group_articles(&ts, 0, 1);
    assert_eq!(groups.len(), 1);
    assert_eq!(groups[0].len(), 4);
}

#[test]
fn group_articles_deterministic() {
    let ts = titles(&["abcdef", "abcdeg", "zzzzzz", "abcdqq", "zz"]);
    let g1 = group_articles(&ts, 3, 10);
    let g2 = group_articles(&ts, 3, 10);
    assert_eq!(g1, g2);
}

#[test]
fn group_articles_japanese_scenario() {
    let ts = titles(&[
        "東京都で新型コロナウイルスの感染者が100人確認",
        "東京都で新型コロナウイルスの感染者が150人確認",
        "サッカーW杯の結果速報",
        "プログラミング言語Rustの最新版",
    ]);
    let groups = group_articles(&ts, 3, 10);
    // the two corona titles share a group; the other two are singletons
    assert_eq!(groups.len(), 3);
    let has_pair = groups.iter().any(|g| g.len() == 2 && g.contains(&0) && g.contains(&1));
    assert!(has_pair, "groups: {:?}", groups);
    assert!(groups.iter().any(|g| g.len() == 1 && g.contains(&2)));
    assert!(groups.iter().any(|g| g.len() == 1 && g.contains(&3)));
}
