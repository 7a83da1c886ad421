//! Service configuration: dynamically managed feeds and feature flags.

use vstd::prelude::*;

verus! {

/// A feed managed at runtime, with its category assignment.
#[derive(Debug, Clone)]
pub struct DynamicFeed {
    pub feed_id: String,
    pub url: String,
    pub source: String,
    pub category: String,
    pub enabled: bool,
    pub added_by: Option<String>,
}

/// Feature flags for the read path. The clustering threshold is the
/// rational `grouping_threshold_num / grouping_threshold_den`.
#[derive(Debug, Clone)]
pub struct FeatureFlags {
    pub grouping_enabled: bool,
    pub grouping_threshold_num: u64,
    pub grouping_threshold_den: u64,
    pub ogp_enrichment_enabled: bool,
}

impl Default for FeatureFlags {
    /// Clustering off with a threshold of three tenths; image enrichment
    /// on.
    fn default() -> (r: FeatureFlags)
        ensures
            !r.grouping_enabled,
            r.grouping_threshold_num == 3,
            r.grouping_threshold_den == 10,
            r.ogp_enrichment_enabled,
    {
        FeatureFlags {
            grouping_enabled: false,
            grouping_threshold_num: 3,
            grouping_threshold_den: 10,
            ogp_enrichment_enabled: true,
        }
    }
}

/// Combined service configuration.
#[derive(Debug, Clone)]
pub struct ServiceConfig {
    pub feeds: Vec<DynamicFeed>,
    pub features: FeatureFlags,
}

} // verus!
