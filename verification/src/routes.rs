//! The read path behind the caller-facing API: request shapes, the limit
//! clamp, and page assembly with optional read-time clustering. Each
//! response row either passes through unchanged or represents a collapsed
//! group of near-duplicates.

use vstd::prelude::*;
use crate::config::FeatureFlags;
use crate::db::{
    ArticleStore, cursor_key_of, fresh_pred, query_filter, window_cutoff,
};
use crate::grouping::{
    connected, group_articles, in_some_group, lemma_connected_refl, same_group, valid_grouping,
};
use crate::models::{Article, ArticlesResponse, Category};
use crate::text::lower_of;

verus! {

/// Query parameters of the article listing endpoint.
#[derive(Debug, Clone)]
pub struct ArticlesQuery {
    pub category: Option<String>,
    pub limit: Option<i64>,
    pub cursor: Option<String>,
    /// Freshness filter in minutes: only articles from the last so many
    /// minutes.
    pub freshness: Option<u64>,
}

/// An admin chat command.
#[derive(Debug, Clone)]
pub struct CommandRequest {
    pub command: String,
}

/// A request to summarize the last so many minutes of articles.
#[derive(Debug, Clone)]
pub struct SummarizeRequest {
    pub minutes: u32,
}

/// A request to toggle a feature flag.
#[derive(Debug, Clone)]
pub struct ToggleFeatureRequest {
    pub feature: String,
    pub enabled: bool,
}

/// Query parameters of the feed endpoint.
#[derive(Debug, Clone)]
pub struct FeedQuery {
    pub category: Option<String>,
    pub limit: Option<i64>,
    pub cursor: Option<String>,
}

/// An admin action on the category list.
#[derive(Debug, Clone)]
pub struct CategoryAction {
    pub action: String,
    pub id: Option<String>,
    pub label_ja: Option<String>,
    pub order: Option<Vec<String>>,
}

/// A request to add a feed.
#[derive(Debug, Clone)]
pub struct AddFeedRequest {
    pub url: String,
    pub source: String,
    pub category: String,
}

/// A request to update a feed.
#[derive(Debug, Clone)]
pub struct UpdateFeedRequest {
    pub enabled: Option<bool>,
}

/// The access tier of a caller.
#[derive(Debug, Clone)]
pub enum UserTier {
    Anonymous,
    Free { device_id: String },
    Authenticated { device_id: String, user_id: String },
    Pro,
}

/// The response to a view or click signal: the updated counter.
#[derive(Debug, Clone)]
pub struct ViewClickResponse {
    pub success: bool,
    pub count: i64,
}

/// The effective page size: the requested limit defaulted to 30 and
/// clamped into 1..=100.
pub open spec fn clamped_limit(limit: Option<i64>) -> int {
    let l = match limit {
        None => 30int,
        Some(x) => x as int,
    };
    let l2 = if l > 100 {
        100int
    } else {
        l
    };
    if l2 < 1 {
        1int
    } else {
        l2
    }
}

/// Clamp a requested limit into the allowed page-size range.
pub fn clamp_limit(limit: Option<i64>) -> (r: usize)
    ensures
        r as int == clamped_limit(limit),
        1 <= r <= 100,
{
    let l: i64 = match limit {
        None => 30,
        Some(x) => x,
    };
    let l = if l > 100 {
        100
    } else {
        l
    };
    if l < 1 {
        1
    } else {
        l as usize
    }
}

/// The category scope a request names: a known category name, ignoring
/// case; anything else means no scope.
pub open spec fn category_of_param(c: Option<Seq<char>>) -> Option<Category> {
    match c {
        None => None,
        Some(s) => Category::from_name(lower_of(s)),
    }
}

/// Relies on uuid's Uuid::new_v4: a random identifier, rendered as 36
/// hyphenated characters. Nothing more is promised of the value.
#[verifier::external_body]
fn uuid_v4_string() -> (r: String)
    ensures
        r@.len() == 36,
{
    uuid::Uuid::new_v4().to_string()
}

/// Whether two rows agree on everything except the read-time grouping
/// annotations.
pub open spec fn same_core(a: Article, b: Article) -> bool {
    &&& b.id == a.id
    &&& b.category == a.category
    &&& b.title == a.title
    &&& b.url == a.url
    &&& b.description == a.description
    &&& b.image_url == a.image_url
    &&& b.source == a.source
    &&& b.published_at == a.published_at
    &&& b.fetched_at == a.fetched_at
    &&& b.view_count == a.view_count
    &&& b.click_count == a.click_count
    &&& b.popularity_score == a.popularity_score
}

/// The titles of a page of rows.
pub open spec fn titles_view(s: Seq<Article>) -> Seq<Seq<char>> {
    s.map_values(|a: Article| a.title@)
}

/// Whether `out` is the collapse of `src` along the grouping `dv`: one
/// row per group, in group order, each the group's first (lowest-index)
/// member. The representative of a group of two or more carries the
/// group's size and some fresh identifier; a singleton passes through
/// entirely unchanged.
pub open spec fn collapse_rows(src: Seq<Article>, dv: Seq<Seq<usize>>, out: Seq<Article>) -> bool {
    &&& out.len() == dv.len()
    &&& forall|k: int|
        0 <= k < dv.len() ==> {
            let rep = (#[trigger] dv[k])[0] as int;
            &&& same_core(src[rep], out[k])
            &&& (dv[k].len() >= 2 ==> out[k].group_count == Some(dv[k].len() as u32)
                && out[k].group_id is Some)
            &&& (dv[k].len() < 2 ==> out[k] == src[rep])
        }
}

/// Whether `out` is `page` collapsed at the threshold `num/den`: some
/// valid grouping of the page's titles — and all valid groupings agree on
/// membership — has exactly its representatives kept, in order, each
/// multi-member group's one carrying the group's size.
pub open spec fn collapsed_page(page: Seq<Article>, num: int, den: int, out: Seq<Article>) -> bool {
    exists|dv: Seq<Seq<usize>>|
        #[trigger] valid_grouping(titles_view(page), num, den, dv) && collapse_rows(
            page,
            dv,
            out,
        )
}

/// A strictly increasing sequence of indices grows at least one per step.
proof fn lemma_increasing_bound(s: Seq<usize>, k: int)
    requires
        forall|k1: int, k2: int| 0 <= k1 < k2 < s.len() ==> (#[trigger] s[k1]) < (#[trigger] s[k2]),
        0 <= k < s.len(),
    ensures
        s[k] as int >= k,
    decreases k,
{
    if k > 0 {
        lemma_increasing_bound(s, k - 1);
        assert(s[k - 1] < s[k]);
    }
}

/// A page of at most one row is its own collapse: the empty grouping, or
/// the single singleton group.
pub proof fn lemma_trivial_collapse(page: Seq<Article>, num: int, den: int)
    requires
        page.len() <= 1,
    ensures
        collapsed_page(page, num, den, page),
{
    let tv = titles_view(page);
    if page.len() == 0 {
        let dv: Seq<Seq<usize>> = Seq::empty();
        assert(valid_grouping(tv, num, den, dv));
        assert(collapse_rows(page, dv, page));
    } else {
        let dv: Seq<Seq<usize>> = seq![seq![0usize]];
        assert(dv[0][0] == 0usize && dv[0].len() == 1);
        assert(valid_grouping(tv, num, den, dv)) by {
            assert forall|x: usize| (x as int) < tv.len() implies in_some_group(dv, x) by {
                assert(dv[0].contains(0usize));
            }
            assert forall|x: usize, y: usize|
                (x as int) < tv.len() && (y as int) < tv.len() implies (same_group(dv, x, y)
                    <==> connected(tv, num, den, x as int, y as int)) by {
                assert(x == 0 && y == 0);
                lemma_connected_refl(tv, num, den, 0);
                assert(dv[0].contains(0usize));
                assert(same_group(dv, 0usize, 0usize));
            }
        }
        assert(collapse_rows(page, dv, page));
    }
}

/// Collapse near-duplicate titles within one page: group the titles at
/// the threshold, keep exactly each group's first row — the lowest index
/// of its similarity component — in group order, annotate the
/// representative of every multi-member group with a fresh identifier and
/// the group's size, and pass singletons through unchanged.
#[verifier::loop_isolation(false)]
pub fn apply_grouping(articles: Vec<Article>, threshold_num: u64, threshold_den: u64) -> (r: Vec<
    Article,
>)
    requires
        threshold_den >= 1,
        articles@.len() <= u32::MAX,
        forall|i: int|
            0 <= i < articles@.len() ==> (#[trigger] articles@[i]).title@.len() < usize::MAX
                / 2,
    ensures
        r@.len() <= articles@.len(),
        collapsed_page(articles@, threshold_num as int, threshold_den as int, r@),
{
    let n = articles.len();
    let ghost num = threshold_num as int;
    let ghost den = threshold_den as int;
    let mut titles: Vec<String> = Vec::new();
    let mut i: usize = 0;
    while i < n
        invariant
            i <= n,
            titles@.len() == i,
            forall|k: int| 0 <= k < i ==> #[trigger] titles@[k] == articles@[k].title,
        decreases n - i,
    {
        titles.push(articles[i].title.clone());
        i = i + 1;
    }
    proof {
        assert forall|k: int| 0 <= k < titles@.len() implies (#[trigger] titles@[k])@.len()
            < usize::MAX / 2 by {
            assert(titles@[k] == articles@[k].title);
        }
    }
    let groups = group_articles(&titles, threshold_num, threshold_den);
    let ghost dv = groups.deep_view();
    proof {
        assert(titles.deep_view() =~= titles_view(articles@));
        assert(valid_grouping(titles_view(articles@), num, den, dv));
    }
    let mut out: Vec<Article> = Vec::new();
    let mut gi: usize = 0;
    while gi < groups.len()
        invariant
            gi <= groups@.len(),
            dv == groups.deep_view(),
            out@.len() == gi,
            forall|k: int|
                0 <= k < gi ==> {
                    let rep = (#[trigger] dv[k])[0] as int;
                    &&& same_core(articles@[rep], out@[k])
                    &&& (dv[k].len() >= 2 ==> out@[k].group_count == Some(dv[k].len() as u32)
                        && out@[k].group_id is Some)
                    &&& (dv[k].len() < 2 ==> out@[k] == articles@[rep])
                },
        decreases groups@.len() - gi,
    {
        proof {
            assert(dv[gi as int] == groups@[gi as int].deep_view());
            assert(dv[gi as int].len() >= 1);
            assert(groups@[gi as int]@[0] == dv[gi as int][0]);
        }
        let g = &groups[gi];
        let rep = g[0];
        proof {
            assert(g@.len() == dv[gi as int].len());
            assert((rep as int) < titles@.len());
            // a group of strictly increasing indices below n has at most
            // n members
            let gd = dv[gi as int];
            if gd.len() > articles@.len() {
                lemma_increasing_bound(gd, articles@.len() as int);
            }
        }
        let glen = g.len();
        let base = articles[rep].clone();
        let row = if glen > 1 {
            let gid = uuid_v4_string();
            Article { group_id: Some(gid), group_count: Some(glen as u32), ..base }
        } else {
            base
        };
        let ghost out0 = out@;
        out.push(row);
        proof {
            let last = out@.len() - 1;
            assert(out@[last] == row);
            assert(same_core(articles@[rep as int], row));
            if glen > 1 {
                assert(row.group_count == Some(dv[gi as int].len() as u32));
                assert(row.group_id is Some);
            } else {
                assert(row == articles@[rep as int]);
            }
            assert forall|k: int| 0 <= k < gi as int + 1 implies {
                let rep0 = (#[trigger] dv[k])[0] as int;
                &&& same_core(articles@[rep0], out@[k])
                &&& (dv[k].len() >= 2 ==> out@[k].group_count == Some(dv[k].len() as u32)
                    && out@[k].group_id is Some)
                &&& (dv[k].len() < 2 ==> out@[k] == articles@[rep0])
            } by {
                if k < gi as int {
                    assert(out@[k] == out0[k]);
                } else {
                    assert(out@[k] == row);
                }
            }
        }
        gi = gi + 1;
    }
    proof {
        assert(out@.len() == dv.len());
        assert(collapse_rows(articles@, dv, out@));
        // the groups partition the indices, so there are at most n of them
        if dv.len() > articles@.len() {
            let reps = Seq::new(dv.len(), |g: int| dv[g][0]);
            assert forall|k1: int, k2: int| 0 <= k1 < k2 < reps.len() implies (
            #[trigger] reps[k1]) < (#[trigger] reps[k2]) by {
                assert(dv[k1][0] < dv[k2][0]);
            }
            lemma_increasing_bound(reps, articles@.len() as int);
            assert(reps[articles@.len() as int] == dv[articles@.len() as int][0]);
        }
        assert(collapsed_page(articles@, num, den, out@));
    }
    out
}

/// Assemble one response page: resolve the category scope, clamp the
/// limit, pick the freshness window or the cursor listing, and collapse
/// near-duplicates when the flag asks for it.
pub fn get_articles(store: &ArticleStore, params: &ArticlesQuery, flags: &FeatureFlags, now: u64)
    -> (r: ArticlesResponse)
    requires
        store.wf(),
        flags.grouping_threshold_den >= 1,
    ensures
        ({
            let cat = category_of_param(params.category.deep_view());
            let limit = clamped_limit(params.limit);
            match params.freshness {
                Some(m) => {
                    let g = store@.filter(fresh_pred(cat, window_cutoff(now, m, 60000)));
                    let page = if g.len() <= limit {
                        g
                    } else {
                        g.take(limit)
                    };
                    &&& r.next_cursor is None
                    &&& (!flags.grouping_enabled ==> r.articles@ == page)
                    &&& (flags.grouping_enabled ==> collapsed_page(
                        page,
                        flags.grouping_threshold_num as int,
                        flags.grouping_threshold_den as int,
                        r.articles@,
                    ))
                },
                None => {
                    let f = query_filter(store@, cat, cursor_key_of(params.cursor.deep_view()));
                    let page = if f.len() <= limit {
                        f
                    } else {
                        f.take(limit)
                    };
                    &&& (f.len() <= limit ==> r.next_cursor is None)
                    &&& (f.len() > limit ==> match r.next_cursor {
                        Some(c) => crate::cursor::decode_cursor_spec(c@) == Some(
                            ((f[limit - 1].published_at, f[limit - 1].id@)),
                        ),
                        None => false,
                    })
                    &&& (!flags.grouping_enabled ==> r.articles@ == page)
                    &&& (flags.grouping_enabled ==> collapsed_page(
                        page,
                        flags.grouping_threshold_num as int,
                        flags.grouping_threshold_den as int,
                        r.articles@,
                    ))
                },
            }
        }),
{
    let category = match &params.category {
        None => None,
        Some(s) => Category::from_str(s.as_str()),
    };
    let limit = clamp_limit(params.limit);
    let (articles, next_cursor) = match params.freshness {
        Some(m) => (store.get_fresh_articles(category, m, limit, now), None),
        None => {
            let cursor_ref: Option<&str> = match &params.cursor {
                None => None,
                Some(c) => Some(c.as_str()),
            };
            proof {
                assert(cursor_ref.deep_view() == params.cursor.deep_view());
            }
            store.query_articles(category, limit, cursor_ref)
        },
    };
    let articles = if flags.grouping_enabled && articles.len() > 1 {
        apply_grouping(articles, flags.grouping_threshold_num, flags.grouping_threshold_den)
    } else {
        if flags.grouping_enabled {
            proof {
                lemma_trivial_collapse(
                    articles@,
                    flags.grouping_threshold_num as int,
                    flags.grouping_threshold_den as int,
                );
            }
        }
        articles
    };
    ArticlesResponse { articles, next_cursor }
}

} // verus!
