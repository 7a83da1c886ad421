//! The article store: one row per id, held in descending
//! `(published_at, id)` order. Inserts are idempotent by id; reads are
//! keyset-paginated; counters drive the popularity score; retention passes
//! clear images or evict rows by popularity rank.

use vstd::prelude::*;
use vstd::multiset::Multiset;
use vstd::pervasive::VecAdditionalExecFns;
use crate::models::{Article, Category, popularity_tenths};
use crate::text::{
    seq_char_lt, str_eq, str_lt, lemma_seq_char_lt_antisym, lemma_seq_char_lt_connex,
    lemma_seq_char_lt_irrefl, lemma_seq_char_lt_trans,
};

verus! {

/// Strict "comes later in the listing" order on sort keys: a key is below
/// another when its timestamp is older, or equal with a smaller id.
pub open spec fn key_lt(ts1: u64, id1: Seq<char>, ts2: u64, id2: Seq<char>) -> bool {
    ts1 < ts2 || (ts1 == ts2 && seq_char_lt(id1, id2))
}

/// The key order is transitive.
pub proof fn lemma_key_lt_trans(
    ts1: u64,
    id1: Seq<char>,
    ts2: u64,
    id2: Seq<char>,
    ts3: u64,
    id3: Seq<char>,
)
    requires
        key_lt(ts1, id1, ts2, id2),
        key_lt(ts2, id2, ts3, id3),
    ensures
        key_lt(ts1, id1, ts3, id3),
{
    if ts1 == ts2 && ts2 == ts3 {
        lemma_seq_char_lt_trans(id1, id2, id3);
    }
}

/// The store's rows are listed newest first, ids descending on ties.
pub open spec fn sorted_desc(s: Seq<Article>) -> bool {
    forall|i: int, j: int|
        0 <= i < j < s.len() ==> key_lt(
            (#[trigger] s[j]).published_at,
            s[j].id@,
            (#[trigger] s[i]).published_at,
            s[i].id@,
        )
}

/// No two rows share an id.
pub open spec fn id_unique(s: Seq<Article>) -> bool {
    forall|i: int, j: int|
        0 <= i < j < s.len() ==> (#[trigger] s[i]).id@ != (#[trigger] s[j]).id@
}

/// Whether some row has this id.
pub open spec fn has_id(s: Seq<Article>, id: Seq<char>) -> bool {
    exists|i: int| 0 <= i < s.len() && (#[trigger] s[i]).id@ == id
}

/// Every row's score agrees with its counters, ids are short enough to
/// fit in a cursor, and titles short enough to cluster.
pub open spec fn rows_ok(s: Seq<Article>) -> bool {
    forall|i: int|
        0 <= i < s.len() ==> (#[trigger] s[i]).score_consistent() && s[i].id@.len() < usize::MAX
            / 32 && s[i].title@.len() < usize::MAX / 2 && s[i].group_id is None
            && s[i].group_count is None
}

/// What an insert persists: the article's descriptive fields with counters
/// and read-time grouping reset; counters start at zero.
pub open spec fn fresh_row(a: Article) -> Article {
    Article {
        view_count: 0,
        click_count: 0,
        popularity_score: 0,
        group_id: None,
        group_count: None,
        ..a
    }
}

/// Durable storage of articles: one row per distinct id, kept in
/// descending `(published_at, id)` order.
pub struct ArticleStore {
    items: Vec<Article>,
}

impl View for ArticleStore {
    type V = Seq<Article>;

    closed spec fn view(&self) -> Seq<Article> {
        self.items@
    }
}

impl ArticleStore {
    /// The store's invariant: sorted, duplicate-free, scores consistent.
    pub open spec fn wf(self) -> bool {
        &&& sorted_desc(self@)
        &&& id_unique(self@)
        &&& rows_ok(self@)
    }

    /// An empty store.
    pub fn new() -> (s: ArticleStore)
        ensures
            s.wf(),
            s@ == Seq::<Article>::empty(),
    {
        let s = ArticleStore { items: Vec::new() };
        proof {
            assert(s@ =~= Seq::<Article>::empty());
        }
        s
    }

    /// How many rows the store holds.
    pub fn len(&self) -> (n: usize)
        ensures
            n == self@.len(),
    {
        self.items.len()
    }

    /// Look a row up by id.
    pub fn get_article_by_id(&self, id: &str) -> (r: Option<Article>)
        requires
            self.wf(),
        ensures
            match r {
                Some(a) => has_id(self@, id@) && exists|i: int|
                    0 <= i < self@.len() && #[trigger] self@[i] == a && a.id@ == id@,
                None => !has_id(self@, id@),
            },
    {
        let mut i: usize = 0;
        while i < self.items.len()
            invariant
                i <= self@.len(),
                forall|k: int| 0 <= k < i ==> (#[trigger] self@[k]).id@ != id@,
            decreases self@.len() - i,
        {
            if str_eq(self.items[i].id.as_str(), id) {
                let a = self.items[i].clone();
                proof {
                    assert(self@[i as int] == a);
                }
                return Some(a);
            }
            i = i + 1;
        }
        proof {
            if has_id(self@, id@) {
                let k = choose|k: int| 0 <= k < self@.len() && (#[trigger] self@[k]).id@ == id@;
                assert(self@[k].id@ != id@);
            }
        }
        None
    }

    /// Insert an article if its id is not present yet. Returns whether a
    /// row was added; a duplicate id leaves the store unchanged. Counters
    /// and read-time grouping fields are not persisted: a new row starts
    /// from zero.
    #[verifier::loop_isolation(false)]
    pub fn insert_article(&mut self, article: &Article) -> (inserted: bool)
        requires
            old(self).wf(),
            article.id@.len() < usize::MAX / 32,
            article.title@.len() < usize::MAX / 2,
        ensures
            final(self).wf(),
            inserted == !has_id(old(self)@, article.id@),
            has_id(final(self)@, article.id@),
            !inserted ==> final(self)@ == old(self)@,
            inserted ==> final(self)@.len() == old(self)@.len() + 1 && exists|k: int|
                0 <= k <= old(self)@.len() && final(self)@ == old(self)@.insert(
                    k,
                    fresh_row(*article),
                ),
            inserted ==> final(self)@.to_multiset() == old(self)@.to_multiset().insert(
                fresh_row(*article),
            ),
    {
        let n = self.items.len();
        // reject a duplicate id
        let mut i: usize = 0;
        while i < n
            invariant
                i <= n,
                forall|k: int| 0 <= k < i ==> (#[trigger] self@[k]).id@ != article.id@,
            decreases n - i,
        {
            if str_eq(self.items[i].id.as_str(), article.id.as_str()) {
                proof {
                    assert(self@[i as int].id@ == article.id@);
                }
                return false;
            }
            i = i + 1;
        }
        proof {
            if has_id(self@, article.id@) {
                let k = choose|k: int| 0 <= k < self@.len() && (#[trigger] self@[k]).id@
                    == article.id@;
                assert(self@[k].id@ != article.id@);
            }
        }
        // find the insertion point: the first row whose key is below ours
        let mut pos: usize = 0;
        while pos < n && !row_key_below(&self.items[pos], article)
            invariant
                pos <= n,
                forall|k: int|
                    0 <= k < pos ==> !key_lt(
                        (#[trigger] self@[k]).published_at,
                        self@[k].id@,
                        article.published_at,
                        article.id@,
                    ),
            decreases n - pos,
        {
            pos = pos + 1;
        }
        let row = Article {
            view_count: 0,
            click_count: 0,
            popularity_score: 0,
            group_id: None,
            group_count: None,
            ..article.clone()
        };
        let ghost olds = self@;
        self.items.insert(pos, row);
        proof {
            let news = self@;
            assert(news == olds.insert(pos as int, fresh_row(*article)));
            // rows before the insertion point sort above the new row
            assert forall|k: int| 0 <= k < pos implies key_lt(
                article.published_at,
                article.id@,
                (#[trigger] olds[k]).published_at,
                olds[k].id@,
            ) by {
                if !(olds[k].published_at > article.published_at || (olds[k].published_at
                    == article.published_at && seq_char_lt(article.id@, olds[k].id@))) {
                    lemma_seq_char_lt_connex(olds[k].id@, article.id@);
                    assert(olds[k].id@ != article.id@);
                }
            }
            // rows at or after the insertion point sort below the new row
            assert forall|k: int| pos as int <= k < olds.len() implies key_lt(
                (#[trigger] olds[k]).published_at,
                olds[k].id@,
                article.published_at,
                article.id@,
            ) by {
                assert(key_lt(
                    olds[pos as int].published_at,
                    olds[pos as int].id@,
                    article.published_at,
                    article.id@,
                ));
                if k > pos as int {
                    lemma_key_lt_trans(
                        olds[k].published_at,
                        olds[k].id@,
                        olds[pos as int].published_at,
                        olds[pos as int].id@,
                        article.published_at,
                        article.id@,
                    );
                }
            }
            assert(sorted_desc(news)) by {
                assert forall|i1: int, j1: int| 0 <= i1 < j1 < news.len() implies key_lt(
                    (#[trigger] news[j1]).published_at,
                    news[j1].id@,
                    (#[trigger] news[i1]).published_at,
                    news[i1].id@,
                ) by {
                    let p = pos as int;
                    if j1 < p {
                        assert(news[i1] == olds[i1] && news[j1] == olds[j1]);
                    } else if i1 > p {
                        assert(news[i1] == olds[i1 - 1] && news[j1] == olds[j1 - 1]);
                    } else if i1 == p && j1 > p {
                        assert(news[j1] == olds[j1 - 1]);
                    } else if j1 == p && i1 < p {
                        assert(news[i1] == olds[i1]);
                    } else if i1 < p && j1 > p {
                        assert(news[i1] == olds[i1] && news[j1] == olds[j1 - 1]);
                        lemma_key_lt_trans(
                            olds[j1 - 1].published_at,
                            olds[j1 - 1].id@,
                            article.published_at,
                            article.id@,
                            olds[i1].published_at,
                            olds[i1].id@,
                        );
                    }
                }
            }
            assert(id_unique(news)) by {
                assert forall|i1: int, j1: int| 0 <= i1 < j1 < news.len() implies (
                #[trigger] news[i1]).id@ != (#[trigger] news[j1]).id@ by {
                    let p = pos as int;
                    if i1 != p && j1 != p {
                        let oi = if i1 < p { i1 } else { i1 - 1 };
                        let oj = if j1 < p { j1 } else { j1 - 1 };
                        assert(news[i1] == olds[oi] && news[j1] == olds[oj]);
                    } else if i1 == p {
                        assert(news[j1] == olds[j1 - 1]);
                        assert(!has_id(olds, article.id@));
                        if news[j1].id@ == article.id@ {
                            assert(olds[j1 - 1].id@ == article.id@);
                        }
                    } else {
                        assert(news[i1] == olds[i1]);
                        if news[i1].id@ == article.id@ {
                            assert(olds[i1].id@ == article.id@);
                        }
                    }
                }
            }
            assert(rows_ok(news)) by {
                assert forall|k: int| 0 <= k < news.len() implies (
                #[trigger] news[k]).score_consistent() && news[k].id@.len() < usize::MAX / 32
                    && news[k].title@.len() < usize::MAX / 2 && news[k].group_id is None
                    && news[k].group_count is None by {
                    let p = pos as int;
                    if k < p {
                        assert(news[k] == olds[k]);
                    } else if k > p {
                        assert(news[k] == olds[k - 1]);
                    }
                }
            }
            assert(news[pos as int].id@ == article.id@);
            // content: one fresh row was added
            assert(news =~= olds.take(pos as int) + seq![fresh_row(*article)] + olds.skip(
                pos as int,
            ));
            vstd::seq_lib::lemma_multiset_commutative(
                olds.take(pos as int) + seq![fresh_row(*article)],
                olds.skip(pos as int),
            );
            vstd::seq_lib::lemma_multiset_commutative(
                olds.take(pos as int),
                seq![fresh_row(*article)],
            );
            vstd::seq_lib::lemma_multiset_commutative(olds.take(pos as int), olds.skip(pos as int));
            assert(olds.take(pos as int) + olds.skip(pos as int) =~= olds);
            assert(seq![fresh_row(*article)].to_multiset() == Multiset::<Article>::empty().insert(
                fresh_row(*article),
            )) by {
                seq![fresh_row(*article)].to_multiset_ensures();
                assert(seq![fresh_row(*article)].drop_last() =~= Seq::<Article>::empty());
            }
        }
        true
    }

    /// One page of the listing: rows newest first, ids descending on
    /// ties, scoped to `category` when given, resuming strictly after the
    /// cursor position. Returns at most `limit` rows, and a cursor for
    /// the next page exactly when more rows follow. A malformed or
    /// foreign cursor reads as no cursor: the page starts from the top.
    #[verifier::loop_isolation(false)]
    pub fn query_articles(&self, category: Option<Category>, limit: usize, cursor: Option<&str>)
        -> (r: (Vec<Article>, Option<String>))
        requires
            self.wf(),
            1 <= limit <= 100,
        ensures
            ({
                let f = query_filter(self@, category, cursor_key_of(cursor.deep_view()));
                &&& f.len() <= limit ==> r.0@ == f && r.1 is None
                &&& f.len() > limit ==> r.0@ == f.take(limit as int) && match r.1 {
                    Some(c) => crate::cursor::decode_cursor_spec(c@) == Some(
                        ((f[limit - 1].published_at, f[limit - 1].id@)),
                    ),
                    None => false,
                }
                &&& forall|k: int|
                    0 <= k < r.0@.len() ==> (#[trigger] r.0@[k]).title@.len() < usize::MAX / 2
                        && r.0@[k].group_id is None && r.0@[k].group_count is None
            }),
    {
        let cur: Option<(u64, String)> = match cursor {
            None => None,
            Some(c) => crate::cursor::decode_cursor(c),
        };
        let ghost ck = cursor_key_of(cursor.deep_view());
        proof {
            match &cur {
                None => {
                    assert(ck is None);
                },
                Some(k) => {
                    assert(ck == Some((k.0, k.1@)));
                },
            }
        }
        let ghost pred = page_pred(category, ck);
        let mut out: Vec<Article> = Vec::new();
        let mut i: usize = 0;
        proof {
            reveal(Seq::filter);
            assert(self@.take(0).filter(pred) =~= Seq::<Article>::empty());
        }
        while i < self.items.len() && out.len() < limit + 1
            invariant
                i <= self@.len(),
                out@.len() <= limit + 1,
                out@ == self@.take(i as int).filter(pred),
                forall|k: int|
                    0 <= k < out@.len() ==> (#[trigger] out@[k]).id@.len() < usize::MAX / 32 && out@[
                        k
                    ].title@.len() < usize::MAX / 2 && out@[k].group_id is None && out@[
                        k
                    ].group_count is None,
            decreases self@.len() - i,
        {
            proof {
                reveal(Seq::filter);
                let t1 = self@.take(i as int + 1);
                assert(t1.drop_last() =~= self@.take(i as int));
                assert(t1.last() == self@[i as int]);
            }
            let a = &self.items[i];
            let cat_ok = match category {
                None => true,
                Some(c) => a.category == c,
            };
            let cur_ok = match &cur {
                None => true,
                Some(k) => a.published_at < k.0 || (a.published_at == k.0 && str_lt(
                    a.id.as_str(),
                    k.1.as_str(),
                )),
            };
            if cat_ok && cur_ok {
                out.push(a.clone());
            }
            i = i + 1;
        }
        let ghost f = query_filter(self@, category, ck);
        proof {
            reveal(Seq::filter);
            assert(self@.take(i as int) + self@.skip(i as int) =~= self@);
            Seq::filter_distributes_over_add(self@.take(i as int), self@.skip(i as int), pred);
            assert(f == out@ + self@.skip(i as int).filter(pred));
        }
        if out.len() == limit + 1 {
            proof {
                assert(out@ == f.take(limit as int + 1)) by {
                    assert(out@ =~= (out@ + self@.skip(i as int).filter(pred)).take(
                        limit as int + 1,
                    ));
                }
                assert(f.len() > limit);
            }
            out.pop();
            proof {
                assert(out@ =~= f.take(limit as int + 1).drop_last());
                assert(out@ =~= f.take(limit as int));
            }
            let tail_ts = out[limit - 1].published_at;
            let tail_id = out[limit - 1].id.clone();
            proof {
                assert(out@[limit - 1] == f[limit - 1]);
            }
            let c = crate::cursor::encode_cursor(tail_ts, tail_id.as_str());
            (out, Some(c))
        } else {
            proof {
                assert(i == self@.len());
                assert(self@.skip(i as int) =~= Seq::<Article>::empty());
                assert(self@.skip(i as int).filter(pred) =~= Seq::<Article>::empty());
                assert(f =~= out@);
                assert(f.len() <= limit);
            }
            (out, None)
        }
    }

    /// Rows published within the window, newest first, scoped to the
    /// category when given; a single bounded page, no cursor.
    #[verifier::loop_isolation(false)]
    pub fn get_fresh_articles(
        &self,
        category: Option<Category>,
        minutes: u64,
        limit: usize,
        now: u64,
    ) -> (r: Vec<Article>)
        requires
            self.wf(),
        ensures
            ({
                let f = self@.filter(fresh_pred(category, window_cutoff(now, minutes, 60000)));
                &&& r@ == if f.len() <= limit {
                    f
                } else {
                    f.take(limit as int)
                }
                &&& forall|k: int|
                    0 <= k < r@.len() ==> (#[trigger] r@[k]).title@.len() < usize::MAX / 2 && r@[
                        k
                    ].group_id is None && r@[k].group_count is None
            }),
    {
        let d = match minutes.checked_mul(60000) {
            None => u64::MAX,
            Some(x) => x,
        };
        let cutoff: u64 = if d >= now {
            0
        } else {
            now - d
        };
        proof {
            assert(cutoff == window_cutoff(now, minutes, 60000));
        }
        let ghost pred = fresh_pred(category, window_cutoff(now, minutes, 60000));
        let mut out: Vec<Article> = Vec::new();
        let mut i: usize = 0;
        proof {
            reveal(Seq::filter);
            assert(self@.take(0).filter(pred) =~= Seq::<Article>::empty());
        }
        while i < self.items.len() && out.len() < limit
            invariant
                i <= self@.len(),
                out@.len() <= limit,
                out@ == self@.take(i as int).filter(pred),
                forall|k: int|
                    0 <= k < out@.len() ==> (#[trigger] out@[k]).title@.len() < usize::MAX / 2
                        && out@[k].group_id is None && out@[k].group_count is None,
            decreases self@.len() - i,
        {
            proof {
                reveal(Seq::filter);
                let t1 = self@.take(i as int + 1);
                assert(t1.drop_last() =~= self@.take(i as int));
                assert(t1.last() == self@[i as int]);
            }
            let a = &self.items[i];
            let cat_ok = match category {
                None => true,
                Some(c) => a.category == c,
            };
            if cat_ok && a.published_at >= cutoff {
                out.push(a.clone());
            }
            i = i + 1;
        }
        let ghost f = self@.filter(pred);
        proof {
            reveal(Seq::filter);
            assert(self@.take(i as int) + self@.skip(i as int) =~= self@);
            Seq::filter_distributes_over_add(self@.take(i as int), self@.skip(i as int), pred);
            assert(f == out@ + self@.skip(i as int).filter(pred));
            if i == self@.len() {
                assert(self@.skip(i as int) =~= Seq::<Article>::empty());
                assert(self@.skip(i as int).filter(pred) =~= Seq::<Article>::empty());
                assert(f =~= out@);
                if f.len() > limit {
                    assert(out@ =~= f.take(limit as int));
                }
            } else {
                assert(out@.len() == limit);
                assert(out@ =~= (out@ + self@.skip(i as int).filter(pred)).take(limit as int));
                if f.len() <= limit {
                    assert(f =~= out@);
                }
            }
        }
        out
    }

    /// Rows without an image, newest first, at most `limit` of them.
    #[verifier::loop_isolation(false)]
    pub fn articles_without_image(&self, limit: usize) -> (r: Vec<Article>)
        requires
            self.wf(),
        ensures
            ({
                let f = self@.filter(no_image_pred());
                r@ == if f.len() <= limit {
                    f
                } else {
                    f.take(limit as int)
                }
            }),
    {
        let ghost pred = no_image_pred();
        let mut out: Vec<Article> = Vec::new();
        let mut i: usize = 0;
        proof {
            reveal(Seq::filter);
            assert(self@.take(0).filter(pred) =~= Seq::<Article>::empty());
        }
        while i < self.items.len() && out.len() < limit
            invariant
                i <= self@.len(),
                out@.len() <= limit,
                out@ == self@.take(i as int).filter(pred),
            decreases self@.len() - i,
        {
            proof {
                reveal(Seq::filter);
                let t1 = self@.take(i as int + 1);
                assert(t1.drop_last() =~= self@.take(i as int));
                assert(t1.last() == self@[i as int]);
            }
            let keep = match &self.items[i].image_url {
                None => true,
                Some(_) => false,
            };
            if keep {
                out.push(self.items[i].clone());
            }
            i = i + 1;
        }
        let ghost f = self@.filter(pred);
        proof {
            reveal(Seq::filter);
            assert(self@.take(i as int) + self@.skip(i as int) =~= self@);
            Seq::filter_distributes_over_add(self@.take(i as int), self@.skip(i as int), pred);
            assert(f == out@ + self@.skip(i as int).filter(pred));
            if i == self@.len() {
                assert(self@.skip(i as int) =~= Seq::<Article>::empty());
                assert(self@.skip(i as int).filter(pred) =~= Seq::<Article>::empty());
                assert(f =~= out@);
                if f.len() > limit {
                    assert(out@ =~= f.take(limit as int));
                }
            } else {
                assert(out@.len() == limit);
                assert(out@ =~= (out@ + self@.skip(i as int).filter(pred)).take(limit as int));
                if f.len() <= limit {
                    assert(f =~= out@);
                }
            }
        }
        out
    }

    /// Set the image of the row with this id, if it exists; every other
    /// row is untouched.
    #[verifier::loop_isolation(false)]
    pub fn update_image_url(&mut self, article_id: &str, image_url: &str)
        requires
            old(self).wf(),
        ensures
            final(self).wf(),
            final(self)@.len() == old(self)@.len(),
            forall|i: int|
                0 <= i < old(self)@.len() ==> if (#[trigger] old(self)@[i]).id@ == article_id@ {
                    &&& eq_except_image(old(self)@[i], final(self)@[i])
                    &&& final(self)@[i].image_url matches Some(u) && u@ == image_url@
                } else {
                    final(self)@[i] == old(self)@[i]
                },
    {
        let n = self.items.len();
        let mut i: usize = 0;
        while i < n
            invariant
                i <= n,
                self@ == old(self)@,
                forall|k: int| 0 <= k < i ==> (#[trigger] self@[k]).id@ != article_id@,
            decreases n - i,
        {
            if str_eq(self.items[i].id.as_str(), article_id) {
                let ghost olds = self@;
                let a = self.items[i].clone();
                let upd = Article { image_url: Some(image_url.to_owned()), ..a };
                self.items.set(i, upd);
                proof {
                    lemma_wf_update(olds, i as int, upd);
                    assert forall|k: int| 0 <= k < olds.len() implies (if (
                    #[trigger] olds[k]).id@ == article_id@ {
                        &&& eq_except_image(olds[k], self@[k])
                        &&& self@[k].image_url matches Some(u) && u@ == image_url@
                    } else {
                        self@[k] == olds[k]
                    }) by {
                        if k != i as int && olds[k].id@ == article_id@ {
                            assert(olds[k].id@ != olds[i as int].id@);
                        }
                    }
                }
                return ;
            }
            i = i + 1;
        }
        proof {
            assert forall|k: int| 0 <= k < old(self)@.len() implies (#[trigger] old(self)@[k]).id@
                != article_id@ by {}
        }
    }

    /// One more view for this row, its score recomputed in step. Returns
    /// the updated view count, or nothing when the id is absent.
    #[verifier::loop_isolation(false)]
    pub fn increment_view_count(&mut self, article_id: &str) -> (r: Option<u32>)
        requires
            old(self).wf(),
        ensures
            final(self).wf(),
            final(self)@.len() == old(self)@.len(),
            !has_id(old(self)@, article_id@) ==> r is None && final(self)@ == old(self)@,
            has_id(old(self)@, article_id@) ==> exists|i: int|
                0 <= i < old(self)@.len() && (#[trigger] old(self)@[i]).id@ == article_id@
                    && final(self)@ == old(self)@.update(i, viewed(old(self)@[i])) && r == Some(
                    bump32(old(self)@[i].view_count),
                ),
            forall|i: int|
                0 <= i < old(self)@.len() ==> (#[trigger] final(self)@[i]).popularity_score >= old(
                    self,
                )@[i].popularity_score && final(self)@[i].id == old(self)@[i].id,
    {
        let n = self.items.len();
        let mut i: usize = 0;
        while i < n
            invariant
                i <= n,
                self@ == old(self)@,
                forall|k: int| 0 <= k < i ==> (#[trigger] self@[k]).id@ != article_id@,
            decreases n - i,
        {
            if str_eq(self.items[i].id.as_str(), article_id) {
                let ghost olds = self@;
                let a = self.items[i].clone();
                let newv: u32 = if a.view_count < u32::MAX {
                    a.view_count + 1
                } else {
                    a.view_count
                };
                let pop: u64 = 7u64 * (newv as u64) + 3u64 * (a.click_count as u64);
                let upd = Article { view_count: newv, popularity_score: pop, ..a };
                self.items.set(i, upd);
                proof {
                    assert(upd == viewed(olds[i as int]));
                    lemma_wf_update(olds, i as int, upd);
                    assert forall|k: int| 0 <= k < olds.len() implies (
                    #[trigger] self@[k]).popularity_score >= olds[k].popularity_score
                        && self@[k].id == olds[k].id by {
                        if k == i as int {
                            assert(olds[k].score_consistent());
                        }
                    }
                }
                return Some(newv);
            }
            i = i + 1;
        }
        proof {
            if has_id(self@, article_id@) {
                let k = choose|k: int| 0 <= k < self@.len() && (#[trigger] self@[k]).id@
                    == article_id@;
                assert(self@[k].id@ != article_id@);
            }
        }
        None
    }

    /// One more click for this row, its score recomputed in step. Returns
    /// the updated click count, or nothing when the id is absent.
    #[verifier::loop_isolation(false)]
    pub fn increment_click_count(&mut self, article_id: &str) -> (r: Option<u32>)
        requires
            old(self).wf(),
        ensures
            final(self).wf(),
            final(self)@.len() == old(self)@.len(),
            !has_id(old(self)@, article_id@) ==> r is None && final(self)@ == old(self)@,
            has_id(old(self)@, article_id@) ==> exists|i: int|
                0 <= i < old(self)@.len() && (#[trigger] old(self)@[i]).id@ == article_id@
                    && final(self)@ == old(self)@.update(i, clicked(old(self)@[i])) && r == Some(
                    bump32(old(self)@[i].click_count),
                ),
            forall|i: int|
                0 <= i < old(self)@.len() ==> (#[trigger] final(self)@[i]).popularity_score >= old(
                    self,
                )@[i].popularity_score && final(self)@[i].id == old(self)@[i].id,
    {
        let n = self.items.len();
        let mut i: usize = 0;
        while i < n
            invariant
                i <= n,
                self@ == old(self)@,
                forall|k: int| 0 <= k < i ==> (#[trigger] self@[k]).id@ != article_id@,
            decreases n - i,
        {
            if str_eq(self.items[i].id.as_str(), article_id) {
                let ghost olds = self@;
                let a = self.items[i].clone();
                let newc: u32 = if a.click_count < u32::MAX {
                    a.click_count + 1
                } else {
                    a.click_count
                };
                let pop: u64 = 7u64 * (a.view_count as u64) + 3u64 * (newc as u64);
                let upd = Article { click_count: newc, popularity_score: pop, ..a };
                self.items.set(i, upd);
                proof {
                    assert(upd == clicked(olds[i as int]));
                    lemma_wf_update(olds, i as int, upd);
                    assert forall|k: int| 0 <= k < olds.len() implies (
                    #[trigger] self@[k]).popularity_score >= olds[k].popularity_score
                        && self@[k].id == olds[k].id by {
                        if k == i as int {
                            assert(olds[k].score_consistent());
                        }
                    }
                }
                return Some(newc);
            }
            i = i + 1;
        }
        proof {
            if has_id(self@, article_id@) {
                let k = choose|k: int| 0 <= k < self@.len() && (#[trigger] self@[k]).id@
                    == article_id@;
                assert(self@[k].id@ != article_id@);
            }
        }
        None
    }

    /// Fixed-horizon expiry: destroy every row published before the
    /// cutoff. Returns how many rows were removed.
    #[verifier::loop_isolation(false)]
    pub fn delete_old_articles(&mut self, before: u64) -> (n: usize)
        requires
            old(self).wf(),
        ensures
            final(self).wf(),
            final(self)@ == old(self)@.filter(keep_recent(before)),
            n == old(self)@.len() - final(self)@.len(),
    {
        let ghost pred = keep_recent(before);
        let old_len = self.items.len();
        let mut kept: Vec<Article> = Vec::new();
        let mut i: usize = 0;
        proof {
            reveal(Seq::filter);
            assert(self@.take(0).filter(pred) =~= Seq::<Article>::empty());
        }
        while i < self.items.len()
            invariant
                i <= self@.len(),
                self@ == old(self)@,
                kept@ == self@.take(i as int).filter(pred),
                kept@.len() <= i,
            decreases self@.len() - i,
        {
            proof {
                reveal(Seq::filter);
                let t1 = self@.take(i as int + 1);
                assert(t1.drop_last() =~= self@.take(i as int));
                assert(t1.last() == self@[i as int]);
                self@.take(i as int).lemma_filter_len(pred);
            }
            if self.items[i].published_at >= before {
                kept.push(self.items[i].clone());
            }
            i = i + 1;
        }
        proof {
            assert(self@.take(self@.len() as int) =~= self@);
            lemma_filter_keeps_wf(self@, pred);
        }
        let new_len = kept.len();
        self.items = kept;
        old_len - new_len
    }

    /// Insert a batch of drafts, each independently and idempotently: a
    /// duplicate id is skipped, never an error, and never stops the rest.
    /// Returns how many new rows were added.
    #[verifier::loop_isolation(false)]
    pub fn insert_articles(&mut self, articles: &Vec<Article>) -> (n: usize)
        requires
            old(self).wf(),
            forall|i: int|
                0 <= i < articles@.len() ==> (#[trigger] articles@[i]).id@.len() < usize::MAX
                    / 32 && articles@[i].title@.len() < usize::MAX / 2,
        ensures
            final(self).wf(),
            final(self)@.to_multiset() == old(self)@.to_multiset().add(
                new_rows(old(self)@, articles@).to_multiset(),
            ),
            n == new_rows(old(self)@, articles@).len(),
            final(self)@.len() == old(self)@.len() + n,
    {
        let ghost base = self@;
        let ghost all = articles@;
        let mut count: usize = 0;
        let mut i: usize = 0;
        proof {
            assert(all.skip(0) =~= all);
            assert(base.to_multiset().add(new_rows(base, all).to_multiset())
                == self@.to_multiset().add(new_rows(self@, all.skip(0)).to_multiset()));
        }
        while i < articles.len()
            invariant
                i <= all.len(),
                self.wf(),
                base.to_multiset().add(new_rows(base, all).to_multiset())
                    == self@.to_multiset().add(new_rows(self@, all.skip(i as int)).to_multiset()),
                count <= i,
                count + new_rows(self@, all.skip(i as int)).len() == new_rows(base, all).len(),
                self@.len() == base.len() + count,
            decreases all.len() - i,
        {
            let ghost pre = self@;
            let ghost rest = all.skip(i as int);
            proof {
                assert(rest[0] == all[i as int]);
                assert(rest.drop_first() =~= all.skip(i as int + 1));
            }
            let added = self.insert_article(&articles[i]);
            proof {
                let a = all[i as int];
                if added {
                    assert(!has_id(pre, a.id@));
                    assert(new_rows(pre, rest) == seq![fresh_row(a)] + new_rows(
                        pre.push(fresh_row(a)),
                        rest.drop_first(),
                    ));
                    // the updated store holds exactly the old ids plus the new one
                    pre.to_multiset_ensures();
                    self@.to_multiset_ensures();
                    assert forall|id: Seq<char>| has_id(self@, id) <==> has_id(
                        pre.push(fresh_row(a)),
                        id,
                    ) by {
                        lemma_has_id_push(pre, fresh_row(a), id);
                        if has_id(self@, id) {
                            let k = choose|k: int|
                                0 <= k < self@.len() && (#[trigger] self@[k]).id@ == id;
                            assert(self@.contains(self@[k]));
                            assert(self@.to_multiset().count(self@[k]) > 0);
                            if self@[k] == fresh_row(a) {
                            } else {
                                assert(pre.to_multiset().count(self@[k]) > 0);
                                assert(pre.contains(self@[k]));
                                let k2 = choose|k2: int|
                                    0 <= k2 < pre.len() && pre[k2] == self@[k];
                                assert(pre[k2].id@ == id);
                            }
                        }
                        if has_id(pre, id) {
                            let k = choose|k: int|
                                0 <= k < pre.len() && (#[trigger] pre[k]).id@ == id;
                            assert(pre.contains(pre[k]));
                            assert(pre.to_multiset().count(pre[k]) > 0);
                            assert(self@.to_multiset().count(pre[k]) > 0);
                            assert(self@.contains(pre[k]));
                            let k2 = choose|k2: int|
                                0 <= k2 < self@.len() && self@[k2] == pre[k];
                            assert(self@[k2].id@ == id);
                        }
                        if fresh_row(a).id@ == id {
                            assert(self@.to_multiset().count(fresh_row(a)) > 0);
                            assert(self@.contains(fresh_row(a)));
                            let k2 = choose|k2: int|
                                0 <= k2 < self@.len() && self@[k2] == fresh_row(a);
                            assert(self@[k2].id@ == id);
                        }
                    }
                    lemma_new_rows_ids(self@, pre.push(fresh_row(a)), rest.drop_first());
                    // multiset bookkeeping: one fresh row moved from "to add" to "added"
                    vstd::seq_lib::lemma_multiset_commutative(
                        seq![fresh_row(a)],
                        new_rows(pre.push(fresh_row(a)), rest.drop_first()),
                    );
                    broadcast use vstd::multiset::lemma_multiset_empty_len;
                    Seq::<Article>::empty().to_multiset_ensures();
                    assert(seq![fresh_row(a)] =~= Seq::<Article>::empty().push(fresh_row(a)));
                    assert(Seq::<Article>::empty().to_multiset().len() == 0);
                    assert(Seq::<Article>::empty().to_multiset() =~= Multiset::<Article>::empty());
                    assert(seq![fresh_row(a)].to_multiset() =~= Multiset::<Article>::empty().insert(
                        fresh_row(a),
                    ));
                    assert(self@.to_multiset().add(
                        new_rows(self@, all.skip(i as int + 1)).to_multiset(),
                    ) =~= pre.to_multiset().add(new_rows(pre, rest).to_multiset()));
                } else {
                    assert(has_id(pre, a.id@));
                    assert(new_rows(pre, rest) == new_rows(pre, rest.drop_first()));
                    assert(self@ == pre);
                }
            }
            if added {
                count = count + 1;
            }
            i = i + 1;
        }
        proof {
            broadcast use vstd::multiset::lemma_multiset_empty_len;
            assert(all.skip(all.len() as int) =~= Seq::<Article>::empty());
            assert(new_rows(self@, all.skip(all.len() as int)) =~= Seq::<Article>::empty());
            Seq::<Article>::empty().to_multiset_ensures();
            assert(Seq::<Article>::empty().to_multiset().len() == 0);
            assert(new_rows(self@, all.skip(all.len() as int)).to_multiset()
                =~= Multiset::<Article>::empty());
        }
        count
    }

    /// Soft degrade: among rows older than the horizon with nonzero
    /// popularity, clear the image of every row scoring strictly below
    /// their median. Fresh rows and rows with zero popularity are left
    /// untouched. Returns how many images were cleared.
    #[verifier::loop_isolation(false)]
    pub fn degrade_old_unpopular_images(&mut self, now: u64, hours_old: u64) -> (n: usize)
        requires
            old(self).wf(),
        ensures
            final(self).wf(),
            final(self)@.len() == old(self)@.len(),
            ({
                let cutoff = window_cutoff(now, hours_old, 3600000);
                let m = soft_median(old(self)@, cutoff);
                &&& forall|i: int|
                    0 <= i < old(self)@.len() ==> #[trigger] final(self)@[i] == if degrade_cond(
                        cutoff,
                        m,
                    )(old(self)@[i]) {
                        cleared(old(self)@[i])
                    } else {
                        old(self)@[i]
                    }
                &&& n == old(self)@.filter(degrade_cond(cutoff, m)).len()
            }),
    {
        let d = match hours_old.checked_mul(3600000) {
            None => u64::MAX,
            Some(x) => x,
        };
        let cutoff: u64 = if d >= now {
            0
        } else {
            now - d
        };
        proof {
            assert(cutoff == window_cutoff(now, hours_old, 3600000));
        }
        let ghost scope = degrade_scope(cutoff);
        let mut scores: Vec<u64> = Vec::new();
        let mut i: usize = 0;
        proof {
            reveal(Seq::filter);
            assert(self@.take(0).filter(scope) =~= Seq::<Article>::empty());
            assert(scores@ =~= self@.take(0).filter(scope).map_values(pop_of()));
        }
        while i < self.items.len()
            invariant
                i <= self@.len(),
                self@ == old(self)@,
                scores@ == self@.take(i as int).filter(scope).map_values(pop_of()),
            decreases self@.len() - i,
        {
            proof {
                reveal(Seq::filter);
                let t1 = self@.take(i as int + 1);
                assert(t1.drop_last() =~= self@.take(i as int));
                assert(t1.last() == self@[i as int]);
            }
            let a = &self.items[i];
            if a.published_at < cutoff && a.popularity_score > 0 {
                scores.push(a.popularity_score);
                proof {
                    assert(scores@ =~= self@.take(i as int + 1).filter(scope).map_values(
                        pop_of(),
                    ));
                }
            } else {
                proof {
                    assert(scores@ =~= self@.take(i as int + 1).filter(scope).map_values(
                        pop_of(),
                    ));
                }
            }
            i = i + 1;
        }
        proof {
            assert(self@.take(self@.len() as int) =~= self@);
        }
        let m: u64 = if scores.len() == 0 {
            0
        } else {
            let sorted = crate::ranking::sort_u64_exec(&scores);
            proof {
                crate::ranking::lemma_sort_u64_props(scores@);
            }
            sorted[scores.len() / 2]
        };
        proof {
            assert(m == soft_median(self@, cutoff));
        }
        let ghost base = self@;
        let ghost cond = degrade_cond(cutoff, m);
        let mut count: usize = 0;
        let mut i: usize = 0;
        proof {
            reveal(Seq::filter);
            assert(base.take(0).filter(cond) =~= Seq::<Article>::empty());
        }
        while i < self.items.len()
            invariant
                i <= base.len(),
                self@.len() == base.len(),
                sorted_desc(self@),
                id_unique(self@),
                rows_ok(self@),
                forall|k: int| i <= k < base.len() ==> #[trigger] self@[k] == base[k],
                forall|k: int|
                    0 <= k < i ==> #[trigger] self@[k] == if cond(base[k]) {
                        cleared(base[k])
                    } else {
                        base[k]
                    },
                count == base.take(i as int).filter(cond).len(),
                count <= i,
            decreases base.len() - i,
        {
            proof {
                reveal(Seq::filter);
                let t1 = base.take(i as int + 1);
                assert(t1.drop_last() =~= base.take(i as int));
                assert(t1.last() == base[i as int]);
                base.take(i as int).lemma_filter_len(cond);
            }
            let a = &self.items[i];
            let has_image = match &a.image_url {
                None => false,
                Some(_) => true,
            };
            if a.published_at < cutoff && a.popularity_score < m && a.popularity_score > 0
                && has_image {
                let ghost pre = self@;
                let upd = Article { image_url: None, ..self.items[i].clone() };
                self.items.set(i, upd);
                proof {
                    assert(cond(base[i as int]));
                    assert(upd == cleared(base[i as int]));
                    lemma_wf_update(pre, i as int, upd);
                }
                count = count + 1;
            } else {
                proof {
                    assert(!cond(base[i as int]));
                }
            }
            i = i + 1;
        }
        proof {
            assert(base.take(base.len() as int) =~= base);
        }
        count
    }

    /// Hard evict: among rows older than the horizon, find the score at
    /// the twentieth-percentile rank from the top and destroy every older
    /// row scoring strictly below it. Returns how many rows were removed.
    #[verifier::loop_isolation(false)]
    pub fn cleanup_old_articles_bottom_80(&mut self, now: u64, days_old: u64) -> (n: usize)
        requires
            old(self).wf(),
        ensures
            final(self).wf(),
            ({
                let cutoff = window_cutoff(now, days_old, 86400000);
                let t = evict_threshold(old(self)@, cutoff);
                &&& final(self)@ == old(self)@.filter(evict_keep(cutoff, t))
                &&& n == old(self)@.len() - final(self)@.len()
            }),
    {
        let d = match days_old.checked_mul(86400000) {
            None => u64::MAX,
            Some(x) => x,
        };
        let cutoff: u64 = if d >= now {
            0
        } else {
            now - d
        };
        proof {
            assert(cutoff == window_cutoff(now, days_old, 86400000));
        }
        let ghost scope = aged_scope(cutoff);
        let mut scores: Vec<u64> = Vec::new();
        let mut i: usize = 0;
        proof {
            reveal(Seq::filter);
            assert(self@.take(0).filter(scope) =~= Seq::<Article>::empty());
            assert(scores@ =~= self@.take(0).filter(scope).map_values(pop_of()));
        }
        while i < self.items.len()
            invariant
                i <= self@.len(),
                self@ == old(self)@,
                scores@ == self@.take(i as int).filter(scope).map_values(pop_of()),
            decreases self@.len() - i,
        {
            proof {
                reveal(Seq::filter);
                let t1 = self@.take(i as int + 1);
                assert(t1.drop_last() =~= self@.take(i as int));
                assert(t1.last() == self@[i as int]);
            }
            let a = &self.items[i];
            if a.published_at < cutoff {
                scores.push(a.popularity_score);
                proof {
                    assert(scores@ =~= self@.take(i as int + 1).filter(scope).map_values(
                        pop_of(),
                    ));
                }
            } else {
                proof {
                    assert(scores@ =~= self@.take(i as int + 1).filter(scope).map_values(
                        pop_of(),
                    ));
                }
            }
            i = i + 1;
        }
        proof {
            assert(self@.take(self@.len() as int) =~= self@);
        }
        let t: u64 = if scores.len() == 0 {
            0
        } else {
            let len = scores.len();
            let k128: u128 = (len as u128) * 20 / 100;
            proof {
                vstd::arithmetic::mul::lemma_mul_upper_bound(
                    len as int,
                    u64::MAX as int,
                    20,
                    20,
                );
                vstd::arithmetic::div_mod::lemma_fundamental_div_mod((len as int) * 20, 100);
                if (len as int) * 20 / 100 >= len as int {
                    assert((len as int) * 20 >= 100 * ((len as int) * 20 / 100));
                    vstd::arithmetic::mul::lemma_mul_inequality(
                        len as int,
                        (len as int) * 20 / 100,
                        100,
                    );
                    assert(false);
                }
            }
            let k = k128 as usize;
            let sorted = crate::ranking::sort_u64_exec(&scores);
            proof {
                crate::ranking::lemma_sort_u64_props(scores@);
            }
            sorted[len - 1 - k]
        };
        proof {
            assert(t == evict_threshold(self@, cutoff));
        }
        let ghost keep = evict_keep(cutoff, t);
        let old_len = self.items.len();
        let mut kept: Vec<Article> = Vec::new();
        let mut i: usize = 0;
        proof {
            reveal(Seq::filter);
            assert(self@.take(0).filter(keep) =~= Seq::<Article>::empty());
        }
        while i < self.items.len()
            invariant
                i <= self@.len(),
                self@ == old(self)@,
                kept@ == self@.take(i as int).filter(keep),
                kept@.len() <= i,
            decreases self@.len() - i,
        {
            proof {
                reveal(Seq::filter);
                let t1 = self@.take(i as int + 1);
                assert(t1.drop_last() =~= self@.take(i as int));
                assert(t1.last() == self@[i as int]);
                self@.take(i as int).lemma_filter_len(keep);
            }
            let a = &self.items[i];
            if !(a.published_at < cutoff && a.popularity_score < t) {
                kept.push(a.clone());
            }
            i = i + 1;
        }
        proof {
            assert(self@.take(self@.len() as int) =~= self@);
            lemma_filter_keeps_wf(self@, keep);
        }
        let new_len = kept.len();
        self.items = kept;
        old_len - new_len
    }

    /// Rows ranked by popularity (ties broken by recency, then id),
    /// restricted to the window the percentile bounds place over the
    /// current population of rows with nonzero popularity.
    #[verifier::loop_isolation(false)]
    pub fn get_popular_articles(&self, min_percentile: u64, max_percentile: u64, limit: usize)
        -> (r: Vec<Article>)
        requires
            self.wf(),
            min_percentile <= max_percentile <= 100,
        ensures
            r@ == percentile_slice(self@, min_percentile, max_percentile, limit as int),
    {
        let ghost scope = pop_pred();
        let mut filtered: Vec<Article> = Vec::new();
        let mut i: usize = 0;
        proof {
            reveal(Seq::filter);
            assert(self@.take(0).filter(scope) =~= Seq::<Article>::empty());
        }
        while i < self.items.len()
            invariant
                i <= self@.len(),
                filtered@ == self@.take(i as int).filter(scope),
            decreases self@.len() - i,
        {
            proof {
                reveal(Seq::filter);
                let t1 = self@.take(i as int + 1);
                assert(t1.drop_last() =~= self@.take(i as int));
                assert(t1.last() == self@[i as int]);
            }
            if self.items[i].popularity_score > 0 {
                filtered.push(self.items[i].clone());
            }
            i = i + 1;
        }
        proof {
            assert(self@.take(self@.len() as int) =~= self@);
        }
        let ranked = crate::ranking::rank_sort_exec(&filtered);
        proof {
            crate::ranking::lemma_rank_sort_len(filtered@);
        }
        let total = ranked.len();
        proof {
            vstd::arithmetic::mul::lemma_mul_upper_bound(
                (100 - max_percentile) as int,
                100,
                total as int,
                usize::MAX as int,
            );
            vstd::arithmetic::mul::lemma_mul_upper_bound(
                (max_percentile - min_percentile) as int,
                100,
                total as int,
                usize::MAX as int,
            );
        }
        let skip128: u128 = ((100 - max_percentile) as u128) * (total as u128) / 100;
        proof {
            vstd::arithmetic::div_mod::lemma_fundamental_div_mod(
                ((100 - max_percentile) as int) * (total as int),
                100,
            );
            if ((100 - max_percentile) as int) * (total as int) / 100 > total as int {
                vstd::arithmetic::mul::lemma_mul_inequality(
                    (100 - max_percentile) as int,
                    100,
                    total as int,
                );
                vstd::arithmetic::mul::lemma_mul_inequality(
                    total as int + 1,
                    ((100 - max_percentile) as int) * (total as int) / 100,
                    100,
                );
                assert(false);
            }
        }
        let skip = skip128 as usize;
        let raw128: u128 = ((max_percentile - min_percentile) as u128) * (total as u128);
        let take128: u128 = (raw128 + 99) / 100;
        let take_n: usize = if take128 < (limit as u128) {
            take128 as usize
        } else {
            limit
        };
        let end: usize = if total - skip < take_n {
            total
        } else {
            skip + take_n
        };
        let ghost spec_slice = percentile_slice(self@, min_percentile, max_percentile, limit as int);
        proof {
            let ranked_s = crate::ranking::rank_sort(self@.filter(pop_pred()));
            assert(ranked@ == ranked_s);
            assert(skip as int == (100 - max_percentile) * (total as int) / 100);
            assert(take_n as int == ({
                let raw_take = ((max_percentile - min_percentile) * (total as int) + 99) / 100;
                if raw_take < limit as int {
                    raw_take
                } else {
                    limit as int
                }
            }));
            assert(end as int == ({
                let sk = skip as int;
                let tk = take_n as int;
                if sk + tk < total as int {
                    sk + tk
                } else {
                    total as int
                }
            }));
            assert(spec_slice == ranked_s.subrange(skip as int, end as int));
        }
        let mut out: Vec<Article> = Vec::new();
        let mut j: usize = skip;
        proof {
            assert(out@ =~= ranked@.subrange(skip as int, skip as int));
        }
        while j < end
            invariant
                skip <= j <= end,
                end <= ranked@.len(),
                out@ == ranked@.subrange(skip as int, j as int),
            decreases end - j,
        {
            out.push(ranked[j].clone());
            j = j + 1;
            proof {
                assert(out@ =~= ranked@.subrange(skip as int, j as int));
            }
        }
        out
    }
}

/// A counter bumped by one, saturating at its maximum.
pub open spec fn bump32(c: u32) -> u32 {
    if c < u32::MAX {
        (c + 1) as u32
    } else {
        c
    }
}

/// A row after one more view, its score recomputed.
pub open spec fn viewed(a: Article) -> Article {
    Article {
        view_count: bump32(a.view_count),
        popularity_score: popularity_tenths(bump32(a.view_count) as int, a.click_count as int)
            as u64,
        ..a
    }
}

/// A row after one more click, its score recomputed.
pub open spec fn clicked(a: Article) -> Article {
    Article {
        click_count: bump32(a.click_count),
        popularity_score: popularity_tenths(a.view_count as int, bump32(a.click_count) as int)
            as u64,
        ..a
    }
}

/// Whether two rows agree on everything but the image.
pub open spec fn eq_except_image(a: Article, b: Article) -> bool {
    &&& b.id == a.id
    &&& b.category == a.category
    &&& b.title == a.title
    &&& b.url == a.url
    &&& b.description == a.description
    &&& b.source == a.source
    &&& b.published_at == a.published_at
    &&& b.fetched_at == a.fetched_at
    &&& b.view_count == a.view_count
    &&& b.click_count == a.click_count
    &&& b.popularity_score == a.popularity_score
    &&& b.group_id == a.group_id
    &&& b.group_count == a.group_count
}

/// The retention predicate for rows that survive a fixed-horizon expiry.
pub open spec fn keep_recent(before: u64) -> spec_fn(Article) -> bool {
    |a: Article| a.published_at >= before
}

/// The score of a row.
pub open spec fn pop_of() -> spec_fn(Article) -> u64 {
    |a: Article| a.popularity_score
}

/// Rows the soft-degrade pass examines: aged past the cutoff, with some
/// recorded popularity.
pub open spec fn degrade_scope(cutoff: u64) -> spec_fn(Article) -> bool {
    |a: Article| a.published_at < cutoff && a.popularity_score > 0
}

/// The median popularity among aged rows with nonzero popularity: the
/// middle element of their scores sorted ascending, zero when there are
/// none.
pub open spec fn soft_median(s: Seq<Article>, cutoff: u64) -> u64 {
    let sc = s.filter(degrade_scope(cutoff)).map_values(pop_of());
    if sc.len() == 0 {
        0u64
    } else {
        crate::ranking::sort_u64(sc)[sc.len() as int / 2]
    }
}

/// Whether the soft-degrade pass clears a row's image: aged, popularity
/// strictly below the median yet above zero, and an image to clear.
pub open spec fn degrade_cond(cutoff: u64, m: u64) -> spec_fn(Article) -> bool {
    |a: Article| a.published_at < cutoff && a.popularity_score < m && a.popularity_score > 0
        && a.image_url is Some
}

/// A row with its image cleared; nothing else changes.
pub open spec fn cleared(a: Article) -> Article {
    Article { image_url: None, ..a }
}

/// Rows the hard-evict pass examines: everything aged past the cutoff.
pub open spec fn aged_scope(cutoff: u64) -> spec_fn(Article) -> bool {
    |a: Article| a.published_at < cutoff
}

/// The eviction cutoff score: the aged score at the twentieth-percentile
/// rank from the top, zero when there are no aged rows.
pub open spec fn evict_threshold(s: Seq<Article>, cutoff: u64) -> u64 {
    let sc = s.filter(aged_scope(cutoff)).map_values(pop_of());
    if sc.len() == 0 {
        0u64
    } else {
        crate::ranking::sort_u64(sc)[sc.len() - 1 - (sc.len() * 20 / 100)]
    }
}

/// Whether a row survives the hard-evict pass.
pub open spec fn evict_keep(cutoff: u64, t: u64) -> spec_fn(Article) -> bool {
    |a: Article| !(a.published_at < cutoff && a.popularity_score < t)
}

/// Rows with some recorded popularity.
pub open spec fn pop_pred() -> spec_fn(Article) -> bool {
    |a: Article| a.popularity_score > 0
}

/// What the popularity-percentile query returns: the rank-ordered rows
/// with nonzero popularity, cut to the window the percentile bounds place
/// over the current population, capped at `limit`.
pub open spec fn percentile_slice(
    s: Seq<Article>,
    min_pct: u64,
    max_pct: u64,
    limit: int,
) -> Seq<Article> {
    let ranked = crate::ranking::rank_sort(s.filter(pop_pred()));
    let total = ranked.len() as int;
    let skip = (100 - max_pct) * total / 100;
    let raw_take = ((max_pct - min_pct) * total + 99) / 100;
    let take_n = if raw_take < limit {
        raw_take
    } else {
        limit
    };
    let end = if skip + take_n < total {
        skip + take_n
    } else {
        total
    };
    ranked.subrange(skip, end)
}

/// A filter that everything passes keeps the sequence.
proof fn lemma_filter_all(s: Seq<Article>, p: spec_fn(Article) -> bool)
    requires
        forall|i: int| 0 <= i < s.len() ==> p(#[trigger] s[i]),
    ensures
        s.filter(p) == s,
    decreases s.len(),
{
    reveal(Seq::filter);
    if s.len() > 0 {
        let rest = s.drop_last();
        assert(forall|i: int| 0 <= i < rest.len() ==> rest[i] == s[i]);
        lemma_filter_all(rest, p);
        assert(p(s.last()));
        assert(rest.push(s.last()) =~= s);
    }
}

/// A row predicate that reads only the score filters like the score
/// predicate filters the score sequence.
proof fn lemma_filter_pop_count(s: Seq<Article>, p: spec_fn(Article) -> bool, q: spec_fn(u64) -> bool)
    requires
        forall|i: int| 0 <= i < s.len() ==> (p(#[trigger] s[i]) <==> q(s[i].popularity_score)),
    ensures
        s.filter(p).len() == s.map_values(pop_of()).filter(q).len(),
    decreases s.len(),
{
    reveal(Seq::filter);
    if s.len() > 0 {
        let rest = s.drop_last();
        assert(forall|i: int| 0 <= i < rest.len() ==> rest[i] == s[i]);
        lemma_filter_pop_count(rest, p, q);
        let ms = s.map_values(pop_of());
        assert(ms.drop_last() =~= rest.map_values(pop_of()));
        assert(ms.last() == s.last().popularity_score);
    }
}

/// Law: when the aged rows' scores are exactly `0, 1, …, n-1` (one row
/// each), the hard-evict pass keeps exactly the rows at or above the
/// twentieth-percentile score: the top `n·20/100 + 1` of them, the
/// cutoff row included, and removes all the rest.
pub proof fn lemma_hard_evict_top_share(s: Seq<Article>, cutoff: u64, n: int)
    requires
        n == s.len(),
        1 <= n <= u64::MAX,
        forall|i: int| 0 <= i < n ==> (#[trigger] s[i]).published_at < cutoff,
        crate::ranking::sort_u64(s.map_values(pop_of())) == Seq::new(
            n as nat,
            |i: int| i as u64,
        ),
    ensures
        evict_threshold(s, cutoff) as int == n - 1 - (n * 20 / 100),
        s.filter(evict_keep(cutoff, evict_threshold(s, cutoff))).len() == n * 20 / 100 + 1,
{
    let scope = aged_scope(cutoff);
    assert forall|i: int| 0 <= i < s.len() implies scope(#[trigger] s[i]) by {}
    lemma_filter_all(s, scope);
    let sc = s.map_values(pop_of());
    assert(s.filter(scope).map_values(pop_of()) == sc);
    assert(sc.len() == n);
    let k = n * 20 / 100;
    assert(0 <= k < n) by {
        vstd::arithmetic::div_mod::lemma_fundamental_div_mod(n * 20, 100);
        if k >= n {
            assert(n * 20 >= 100 * k);
            vstd::arithmetic::mul::lemma_mul_inequality(n, k, 100);
            assert(false);
        }
        if k < 0 {
            vstd::arithmetic::div_mod::lemma_div_pos_is_pos(n * 20, 100);
            assert(false);
        }
    }
    let ident = Seq::new(n as nat, |i: int| i as u64);
    let t = evict_threshold(s, cutoff);
    assert(t == ident[n - 1 - k]);
    assert(t as int == n - 1 - k);
    // surviving rows are those scoring at least the threshold
    let keep = evict_keep(cutoff, t);
    let q = |x: u64| x >= t;
    assert forall|i: int| 0 <= i < s.len() implies (keep(#[trigger] s[i]) <==> q(
        s[i].popularity_score,
    )) by {}
    lemma_filter_pop_count(s, keep, q);
    crate::ranking::lemma_sort_filter_len(sc, q);
    crate::ranking::lemma_range_count_ge(n, t);
    assert(ident.filter(q).len() == n - t);
}

/// Law: the popularity score never decreases while the counters do not:
/// only row deletion can lower a stored score.
pub proof fn lemma_popularity_monotone(v1: int, c1: int, v2: int, c2: int)
    requires
        0 <= v1 <= v2,
        0 <= c1 <= c2,
    ensures
        popularity_tenths(v1, c1) <= popularity_tenths(v2, c2),
{
}

/// Filtering keeps the whole store invariant, not just the order.
proof fn lemma_filter_keeps_wf(s: Seq<Article>, p: spec_fn(Article) -> bool)
    requires
        sorted_desc(s),
        id_unique(s),
        rows_ok(s),
    ensures
        sorted_desc(s.filter(p)),
        id_unique(s.filter(p)),
        rows_ok(s.filter(p)),
    decreases s.len(),
{
    reveal(Seq::filter);
    lemma_filter_sorted(s, p);
    lemma_filter_members(s, p);
    let f = s.filter(p);
    assert forall|i: int| 0 <= i < f.len() implies (#[trigger] f[i]).score_consistent()
        && f[i].id@.len() < usize::MAX / 32 by {
        assert(f.contains(f[i]));
        assert(s.contains(f[i]));
        let k = choose|k: int| 0 <= k < s.len() && s[k] == f[i];
        assert(s[k].score_consistent());
    }
    if s.len() > 0 {
        let rest = s.drop_last();
        let last = s.last();
        assert(sorted_desc(rest) && id_unique(rest) && rows_ok(rest)) by {
            assert(forall|i: int| 0 <= i < rest.len() ==> rest[i] == s[i]);
        }
        lemma_filter_keeps_wf(rest, p);
        if p(last) {
            let fr = rest.filter(p);
            assert(f == fr.push(last));
            lemma_filter_members(rest, p);
            assert forall|i: int, j: int| 0 <= i < j < f.len() implies (#[trigger] f[i]).id@ != (
            #[trigger] f[j]).id@ by {
                if j < f.len() - 1 {
                    assert(f[i] == fr[i] && f[j] == fr[j]);
                } else {
                    assert(f[i] == fr[i]);
                    assert(fr.contains(fr[i]));
                    assert(rest.contains(fr[i]));
                    let k = choose|k: int| 0 <= k < rest.len() && rest[k] == fr[i];
                    assert(s[k] == fr[i]);
                    assert(s[k].id@ != s[s.len() - 1].id@);
                }
            }
        }
    }
}

/// The rows a batch insert adds: one fresh row per draft whose id is not
/// already present, first occurrence winning, in order.
pub open spec fn new_rows(s: Seq<Article>, items: Seq<Article>) -> Seq<Article>
    decreases items.len(),
{
    if items.len() == 0 {
        Seq::empty()
    } else if has_id(s, items[0].id@) {
        new_rows(s, items.drop_first())
    } else {
        seq![fresh_row(items[0])] + new_rows(s.push(fresh_row(items[0])), items.drop_first())
    }
}

/// `new_rows` depends on the store only through the set of ids it holds.
proof fn lemma_new_rows_ids(s1: Seq<Article>, s2: Seq<Article>, items: Seq<Article>)
    requires
        forall|id: Seq<char>| has_id(s1, id) <==> has_id(s2, id),
    ensures
        new_rows(s1, items) == new_rows(s2, items),
    decreases items.len(),
{
    if items.len() > 0 {
        let a = items[0];
        if has_id(s1, a.id@) {
            lemma_new_rows_ids(s1, s2, items.drop_first());
        } else {
            let f = fresh_row(a);
            assert forall|id: Seq<char>| has_id(s1.push(f), id) <==> has_id(
                s2.push(f),
                id,
            ) by {
                lemma_has_id_push(s1, f, id);
                lemma_has_id_push(s2, f, id);
            }
            lemma_new_rows_ids(s1.push(f), s2.push(f), items.drop_first());
        }
    }
}

/// Appending a row adds exactly its id.
proof fn lemma_has_id_push(s: Seq<Article>, a: Article, id: Seq<char>)
    ensures
        has_id(s.push(a), id) <==> (has_id(s, id) || a.id@ == id),
{
    let p = s.push(a);
    if has_id(p, id) {
        let k = choose|k: int| 0 <= k < p.len() && (#[trigger] p[k]).id@ == id;
        if k < s.len() {
            assert(s[k].id@ == id);
        }
    }
    if has_id(s, id) {
        let k = choose|k: int| 0 <= k < s.len() && (#[trigger] s[k]).id@ == id;
        assert(p[k].id@ == id);
    }
    if a.id@ == id {
        assert(p[s.len() as int].id@ == id);
    }
}

/// At most one direction of the key order holds.
pub proof fn lemma_key_lt_asym(ts1: u64, id1: Seq<char>, ts2: u64, id2: Seq<char>)
    ensures
        !(key_lt(ts1, id1, ts2, id2) && key_lt(ts2, id2, ts1, id1)),
{
    lemma_seq_char_lt_antisym(id1, id2);
}

/// Whether a row matches an optional category scope.
pub open spec fn cat_matches(a: Article, category: Option<Category>) -> bool {
    match category {
        None => true,
        Some(c) => a.category == c,
    }
}

/// Whether a row lies strictly after a cursor position in the descending
/// listing. No cursor means the listing starts at the top.
pub open spec fn after_key(a: Article, cur: Option<(u64, Seq<char>)>) -> bool {
    match cur {
        None => true,
        Some(k) => key_lt(a.published_at, a.id@, k.0, k.1),
    }
}

/// The page predicate: in scope and after the cursor.
pub open spec fn page_pred(category: Option<Category>, cur: Option<(u64, Seq<char>)>) -> spec_fn(
    Article,
) -> bool {
    |a: Article| cat_matches(a, category) && after_key(a, cur)
}

/// The cursor predicate alone.
pub open spec fn key_pred(cur: Option<(u64, Seq<char>)>) -> spec_fn(Article) -> bool {
    |a: Article| after_key(a, cur)
}

/// What a query lists, before the limit: the store's rows in order,
/// scoped to the category and strictly after the cursor position.
pub open spec fn query_filter(
    s: Seq<Article>,
    category: Option<Category>,
    cur: Option<(u64, Seq<char>)>,
) -> Seq<Article> {
    s.filter(page_pred(category, cur))
}

/// The key a cursor string denotes: none when absent or malformed.
pub open spec fn cursor_key_of(c: Option<Seq<char>>) -> Option<(u64, Seq<char>)> {
    match c {
        None => None,
        Some(s) => crate::cursor::decode_cursor_spec(s),
    }
}

/// Every element of a filtered sequence occurs in the original.
proof fn lemma_filter_members(s: Seq<Article>, p: spec_fn(Article) -> bool)
    ensures
        forall|x: Article| #[trigger] s.filter(p).contains(x) ==> s.contains(x),
    decreases s.len(),
{
    reveal(Seq::filter);
    if s.len() > 0 {
        let rest = s.drop_last();
        lemma_filter_members(rest, p);
        assert forall|x: Article| #[trigger] s.filter(p).contains(x) implies s.contains(x) by {
            if rest.filter(p).contains(x) {
                assert(rest.contains(x));
                let k = choose|k: int| 0 <= k < rest.len() && rest[k] == x;
                assert(s[k] == x);
            } else {
                assert(p(s.last()) && x == s.last());
                assert(s[s.len() - 1] == x);
            }
        }
    }
}

/// Filtering keeps the descending order.
proof fn lemma_filter_sorted(s: Seq<Article>, p: spec_fn(Article) -> bool)
    requires
        sorted_desc(s),
    ensures
        sorted_desc(s.filter(p)),
    decreases s.len(),
{
    reveal(Seq::filter);
    if s.len() > 0 {
        let rest = s.drop_last();
        let last = s.last();
        assert(sorted_desc(rest)) by {
            assert(forall|i: int, j: int|
                0 <= i < j < rest.len() ==> rest[i] == s[i] && rest[j] == s[j]);
        }
        lemma_filter_sorted(rest, p);
        lemma_filter_members(rest, p);
        if p(last) {
            let f = s.filter(p);
            let fr = rest.filter(p);
            assert(f == fr.push(last));
            assert forall|i: int, j: int| 0 <= i < j < f.len() implies key_lt(
                (#[trigger] f[j]).published_at,
                f[j].id@,
                (#[trigger] f[i]).published_at,
                f[i].id@,
            ) by {
                if j < f.len() - 1 {
                    assert(f[i] == fr[i] && f[j] == fr[j]);
                } else {
                    assert(f[i] == fr[i]);
                    assert(fr.contains(fr[i]));
                    assert(rest.contains(fr[i]));
                    let k = choose|k: int| 0 <= k < rest.len() && rest[k] == fr[i];
                    assert(s[k] == fr[i]);
                    assert(key_lt(last.published_at, last.id@, s[k].published_at, s[k].id@));
                }
            }
        }
    }
}

/// A filter by a conjunction is a filter then a filter.
proof fn lemma_filter_compose(
    s: Seq<Article>,
    category: Option<Category>,
    cur: Option<(u64, Seq<char>)>,
)
    ensures
        query_filter(s, category, cur) == query_filter(s, category, None).filter(key_pred(cur)),
    decreases s.len(),
{
    reveal(Seq::filter);
    if s.len() > 0 {
        lemma_filter_compose(s.drop_last(), category, cur);
        let rest = s.drop_last();
        let last = s.last();
        let pc = page_pred(category, cur);
        let p0 = page_pred(category, None);
        let q = key_pred(cur);
        if cat_matches(last, category) {
            assert(p0(last));
            assert(s.filter(p0) == rest.filter(p0).push(last));
            let x = rest.filter(p0);
            assert(x.push(last).drop_last() =~= x);
            assert(x.push(last).last() == last);
            if q(last) {
                assert(pc(last));
                assert(s.filter(pc) == rest.filter(pc).push(last));
                assert(s.filter(p0).filter(q) == x.filter(q).push(last));
            } else {
                assert(!pc(last));
                assert(s.filter(pc) == rest.filter(pc));
                assert(s.filter(p0).filter(q) == x.filter(q));
            }
        } else {
            assert(!pc(last) && !p0(last));
            assert(s.filter(pc) == rest.filter(pc));
            assert(s.filter(p0) == rest.filter(p0));
        }
    }
}

/// Nothing passes: the filter is empty.
proof fn lemma_filter_none(s: Seq<Article>, p: spec_fn(Article) -> bool)
    requires
        forall|i: int| 0 <= i < s.len() ==> !p(#[trigger] s[i]),
    ensures
        s.filter(p) == Seq::<Article>::empty(),
    decreases s.len(),
{
    reveal(Seq::filter);
    if s.len() > 0 {
        let rest = s.drop_last();
        assert(forall|i: int| 0 <= i < rest.len() ==> rest[i] == s[i]);
        lemma_filter_none(rest, p);
        assert(!p(s[s.len() - 1]));
    }
}

/// In a sorted listing, the rows strictly after position `m`'s key are
/// exactly the rows past position `m`.
proof fn lemma_sorted_cutoff(f: Seq<Article>, m: int)
    requires
        sorted_desc(f),
        0 <= m < f.len(),
    ensures
        f.filter(key_pred(Some((f[m].published_at, f[m].id@)))) == f.skip(m + 1),
    decreases f.len(),
{
    reveal(Seq::filter);
    let key = (f[m].published_at, f[m].id@);
    let p = key_pred(Some(key));
    if f.len() - 1 > m {
        let rest = f.drop_last();
        let last = f.last();
        assert(sorted_desc(rest)) by {
            assert(forall|i: int, j: int|
                0 <= i < j < rest.len() ==> rest[i] == f[i] && rest[j] == f[j]);
        }
        assert(rest[m] == f[m]);
        lemma_sorted_cutoff(rest, m);
        assert(key_lt(last.published_at, last.id@, f[m].published_at, f[m].id@));
        assert(p(last));
        assert(f.filter(p) == rest.filter(p).push(last));
        assert(f.skip(m + 1) =~= rest.skip(m + 1).push(last));
    } else {
        // the row at m itself is not after its own key
        crate::text::lemma_seq_char_lt_irrefl(f[m].id@);
        assert(!p(f[m]));
        let rest = f.drop_last();
        assert(f.filter(p) == rest.filter(p));
        assert forall|i: int| 0 <= i < rest.len() implies !p(#[trigger] rest[i]) by {
            assert(rest[i] == f[i]);
            assert(key_lt(f[m].published_at, f[m].id@, f[i].published_at, f[i].id@));
            lemma_key_lt_asym(f[i].published_at, f[i].id@, f[m].published_at, f[m].id@);
        }
        lemma_filter_none(rest, p);
        assert(f.skip(m + 1) =~= Seq::<Article>::empty());
    }
}

/// Law: pagination is complete. When a page of `limit` rows is cut from
/// the filtered listing `f` and the cursor carries the key of its last
/// row, the next query's listing is exactly `f` with the first `limit`
/// rows removed: chained pages concatenate, without gaps or duplicates,
/// to the same sequence one unlimited query would return.
pub proof fn lemma_pagination_complete(s: Seq<Article>, category: Option<Category>, limit: int)
    requires
        sorted_desc(s),
        1 <= limit,
    ensures
        ({
            let f = query_filter(s, category, None);
            f.len() > limit ==> query_filter(
                s,
                category,
                Some((f[limit - 1].published_at, f[limit - 1].id@)),
            ) == f.skip(limit)
        }),
{
    let f = query_filter(s, category, None);
    if f.len() > limit {
        let key = (f[limit - 1].published_at, f[limit - 1].id@);
        lemma_filter_compose(s, category, Some(key));
        lemma_filter_sorted(s, page_pred(category, None));
        lemma_sorted_cutoff(f, limit - 1);
    }
}

/// A saturating "now minus a window" cutoff, in milliseconds.
pub open spec fn window_cutoff(now: u64, amount: u64, unit_ms: u64) -> u64 {
    if amount * unit_ms >= now {
        0u64
    } else {
        (now - amount * unit_ms) as u64
    }
}

/// The freshness predicate: in scope and published at or after the cutoff.
pub open spec fn fresh_pred(category: Option<Category>, cutoff: u64) -> spec_fn(Article) -> bool {
    |a: Article| cat_matches(a, category) && a.published_at >= cutoff
}

/// The missing-image predicate.
pub open spec fn no_image_pred() -> spec_fn(Article) -> bool {
    |a: Article| a.image_url is None
}

/// Replacing a row by one with the same key, id, and a consistent score
/// keeps the store well-formed.
proof fn lemma_wf_update(olds: Seq<Article>, i: int, b: Article)
    requires
        sorted_desc(olds),
        id_unique(olds),
        rows_ok(olds),
        0 <= i < olds.len(),
        b.id == olds[i].id,
        b.title == olds[i].title,
        b.published_at == olds[i].published_at,
        b.score_consistent(),
        b.group_id is None,
        b.group_count is None,
    ensures
        sorted_desc(olds.update(i, b)),
        id_unique(olds.update(i, b)),
        rows_ok(olds.update(i, b)),
{
    let news = olds.update(i, b);
    assert(b.id@ == olds[i].id@);
    assert(b.id@.len() < usize::MAX / 32);
    assert(b.title@.len() < usize::MAX / 2);
    assert forall|x: int, y: int| 0 <= x < y < news.len() implies key_lt(
        (#[trigger] news[y]).published_at,
        news[y].id@,
        (#[trigger] news[x]).published_at,
        news[x].id@,
    ) && news[x].id@ != news[y].id@ by {
        assert(key_lt(olds[y].published_at, olds[y].id@, olds[x].published_at, olds[x].id@));
        assert(olds[x].id@ != olds[y].id@);
    }
}

/// Rebuild an article from raw row values, as a persistence adapter reads
/// them back: an unknown category falls back to the general one, negative
/// timestamps to zero, and counters are left for the caller to replay.
pub fn article_from_row(
    id: String,
    category_name: &str,
    title: String,
    url: String,
    description: Option<String>,
    image_url: Option<String>,
    source: String,
    published_at: i64,
    fetched_at: i64,
) -> (a: Article)
    ensures
        a.id == id,
        a.category == (match Category::from_name(crate::text::lower_of(category_name@)) {
            Some(c) => c,
            None => Category::General,
        }),
        a.title == title,
        a.url == url,
        a.description == description,
        a.image_url == image_url,
        a.source == source,
        a.published_at == (if published_at < 0 {
            0
        } else {
            published_at as u64
        }),
        a.fetched_at == (if fetched_at < 0 {
            0
        } else {
            fetched_at as u64
        }),
        a.view_count == 0 && a.click_count == 0 && a.popularity_score == 0,
        a.group_id is None && a.group_count is None,
{
    let category = match Category::from_str(category_name) {
        Some(c) => c,
        None => Category::General,
    };
    Article {
        id,
        category,
        title,
        url,
        description,
        image_url,
        source,
        published_at: if published_at < 0 {
            0
        } else {
            published_at as u64
        },
        fetched_at: if fetched_at < 0 {
            0
        } else {
            fetched_at as u64
        },
        view_count: 0,
        click_count: 0,
        popularity_score: 0,
        group_id: None,
        group_count: None,
    }
}

/// Whether `row`'s key sorts strictly below the article's key.
fn row_key_below(row: &Article, article: &Article) -> (r: bool)
    ensures
        r == key_lt(row.published_at, row.id@, article.published_at, article.id@),
{
    row.published_at < article.published_at || (row.published_at == article.published_at
        && str_lt(row.id.as_str(), article.id.as_str()))
}

} // verus!
