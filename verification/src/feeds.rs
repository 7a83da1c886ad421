//! Feed configuration and the draft-to-article step of ingestion. The
//! fetching and parsing of feeds is an external collaborator; this module
//! holds the decisions: which feed list to use, and how a parsed entry
//! becomes an article.

use vstd::prelude::*;
use crate::config::DynamicFeed;
use crate::dedup::{article_id_from_url, canonical_url_of, uuid_v5_of};
use crate::models::{Article, Category};

verus! {

/// One configured feed: where to fetch, how to label, where to file.
#[derive(Debug, Clone)]
pub struct FeedConfig {
    pub url: String,
    pub source: String,
    pub category: String,
}

/// The configured feed list.
#[derive(Debug, Clone)]
pub struct FeedsConfig {
    pub feeds: Vec<FeedConfig>,
}

/// The feed config a dynamic feed denotes.
pub open spec fn feed_of(d: DynamicFeed) -> FeedConfig {
    FeedConfig { url: d.url, source: d.source, category: d.category }
}

/// Which feeds a fetch cycle uses: the dynamically configured ones when
/// they could be read and are non-empty, the fallback list otherwise.
pub open spec fn chosen_feeds(db: Option<Seq<DynamicFeed>>, fallback: Seq<FeedConfig>) -> Seq<
    FeedConfig,
> {
    match db {
        Some(f) => if f.len() > 0 {
            f.map_values(|d: DynamicFeed| feed_of(d))
        } else {
            fallback
        },
        None => fallback,
    }
}

/// Choose the feed list for a fetch cycle. `db_feeds` is `None` when the
/// configuration store could not be read: the cycle then proceeds with
/// the fallback list rather than failing.
pub fn choose_feeds(db_feeds: Option<Vec<DynamicFeed>>, fallback: Vec<FeedConfig>) -> (r: Vec<
    FeedConfig,
>)
    ensures
        r@ == chosen_feeds(
            match db_feeds {
                Some(f) => Some(f@),
                None => None,
            },
            fallback@,
        ),
{
    match db_feeds {
        None => fallback,
        Some(f) => {
            if f.len() == 0 {
                fallback
            } else {
                let mut out: Vec<FeedConfig> = Vec::new();
                let mut i: usize = 0;
                proof {
                    assert(out@ =~= f@.take(0).map_values(|d: DynamicFeed| feed_of(d)));
                }
                while i < f.len()
                    invariant
                        i <= f@.len(),
                        out@ == f@.take(i as int).map_values(|d: DynamicFeed| feed_of(d)),
                    decreases f@.len() - i,
                {
                    let d = &f[i];
                    out.push(FeedConfig {
                        url: d.url.clone(),
                        source: d.source.clone(),
                        category: d.category.clone(),
                    });
                    i = i + 1;
                    proof {
                        assert(out@ =~= f@.take(i as int).map_values(|d: DynamicFeed| feed_of(d)));
                    }
                }
                proof {
                    assert(f@.take(f@.len() as int) =~= f@);
                }
                out
            }
        },
    }
}

/// The title an entry contributes: its own, or a placeholder.
pub open spec fn title_or_default(title: Option<Seq<char>>) -> Seq<char> {
    match title {
        Some(t) => t,
        None => "(no title)"@,
    }
}

/// The publication instant an entry contributes: published, else updated,
/// else the fetch time.
pub open spec fn published_or_default(
    published: Option<u64>,
    updated: Option<u64>,
    now: u64,
) -> u64 {
    match published {
        Some(p) => p,
        None => match updated {
            Some(u) => u,
            None => now,
        },
    }
}

/// Turn one parsed feed entry into an article draft. An entry without a
/// link yields nothing; the id is content-addressed from the link.
pub fn entry_to_article(
    link: Option<String>,
    title: Option<String>,
    summary: Option<String>,
    content_body: Option<String>,
    media_url: Option<String>,
    published: Option<u64>,
    updated: Option<u64>,
    category: Category,
    source: String,
    now: u64,
) -> (r: Option<Article>)
    ensures
        match link {
            None => r is None,
            Some(l) => match r {
                Some(a) => {
                    &&& a.id@ == uuid_v5_of(canonical_url_of(l@))
                    &&& a.id@.len() == 36
                    &&& a.url == l
                    &&& a.category == category
                    &&& a.title@ == title_or_default(title.deep_view())
                    &&& a.description == (match summary {
                        Some(s) => Some(s),
                        None => content_body,
                    })
                    &&& a.image_url == media_url
                    &&& a.source == source
                    &&& a.published_at == published_or_default(published, updated, now)
                    &&& a.fetched_at == now
                    &&& a.view_count == 0 && a.click_count == 0 && a.popularity_score == 0
                    &&& a.group_id is None && a.group_count is None
                },
                None => false,
            },
        },
{
    let l = match link {
        None => {
            return None;
        },
        Some(l) => l,
    };
    let id = article_id_from_url(l.as_str());
    let t = match title {
        Some(t) => t,
        None => "(no title)".to_owned(),
    };
    let description = match summary {
        Some(s) => Some(s),
        None => content_body,
    };
    let published_at = match published {
        Some(p) => p,
        None => match updated {
            Some(u) => u,
            None => now,
        },
    };
    Some(
        Article {
            id,
            category,
            title: t,
            url: l,
            description,
            image_url: media_url,
            source,
            published_at,
            fetched_at: now,
            view_count: 0,
            click_count: 0,
            popularity_score: 0,
            group_id: None,
            group_count: None,
        },
    )
}

} // verus!
