use news_core::models::{Category, CategoryInfo};
use news_core::changes::ChangeStatus;
use news_core::config::FeatureFlags;

#[test]
fn category_roundtrip() {
    for cat in Category::all() {
        let s = cat.as_str();
        let parsed = Category::from_str(s).unwrap();
        assert_eq!(cat, parsed);
    }
}

#[test]
fn category_from_str_case_insensitive() {
    assert_eq!(Category::from_str("TECH"), Some(Category::Tech));
    assert_eq!(Category::from_str("General"), Some(Category::General));
    assert_eq!(Category::from_str("unknown"), None);
}

#[test]
fn change_status_roundtrip() {
    for status in [
        ChangeStatus::Pending,
        ChangeStatus::Preview,
        ChangeStatus::Applied,
        ChangeStatus::Rejected,
    ] {
        let s = status.as_str();
        let parsed = ChangeStatus::from_str(s).unwrap();
        assert_eq!(parsed, status);
    }
}

#[test]
fn change_status_rejects_unknown() {
    assert_eq!(ChangeStatus::from_str("bogus"), None);
    assert_eq!(ChangeStatus::from_str("Pending"), None);
}

#[test]
fn default_feature_flags() {
    let flags = FeatureFlags::default();
    assert!(!flags.grouping_enabled);
    assert!(flags.ogp_enrichment_enabled);
    assert_eq!(flags.grouping_threshold_num, 3);
    assert_eq!(flags.grouping_threshold_den, 10);
}

#[test]
fn category_info_labels() {
    let infos = CategoryInfo::all();
    assert_eq!(infos.len(), 7);
    assert_eq!(infos[0].id, "general");
    assert_eq!(infos[0].label, "General");
    assert_eq!(infos[0].label_ja, "総合");
    assert_eq!(infos[6].id, "podcast");
    assert_eq!(infos[6].label_ja, "ポッドキャスト");
}
