//! The article data model: categories and the article record itself.

use vstd::prelude::*;
use crate::text::{lowercase, lower_of, str_eq};

verus! {

/// Article categories; each maps to a stable lower-case name used as a
/// storage partition key.
#[derive(Debug, Clone, Copy, PartialEq, Eq, Structural)]
pub enum Category {
    General,
    Tech,
    Business,
    Entertainment,
    Sports,
    Science,
    Podcast,
}

impl Category {
    /// The stable lower-case name of this category.
    pub fn as_str(&self) -> (r: &'static str)
        ensures
            r@ == self.name(),
    {
        match self {
            Category::General => "general",
            Category::Tech => "tech",
            Category::Business => "business",
            Category::Entertainment => "entertainment",
            Category::Sports => "sports",
            Category::Science => "science",
            Category::Podcast => "podcast",
        }
    }

    /// The name of each category, as a sequence of characters.
    pub open spec fn name(self) -> Seq<char> {
        match self {
            Category::General => "general"@,
            Category::Tech => "tech"@,
            Category::Business => "business"@,
            Category::Entertainment => "entertainment"@,
            Category::Sports => "sports"@,
            Category::Science => "science"@,
            Category::Podcast => "podcast"@,
        }
    }

    /// The category a lower-case name denotes, if any.
    pub open spec fn from_name(s: Seq<char>) -> Option<Category> {
        if s == "general"@ {
            Some(Category::General)
        } else if s == "tech"@ {
            Some(Category::Tech)
        } else if s == "business"@ {
            Some(Category::Business)
        } else if s == "entertainment"@ {
            Some(Category::Entertainment)
        } else if s == "sports"@ {
            Some(Category::Sports)
        } else if s == "science"@ {
            Some(Category::Science)
        } else if s == "podcast"@ {
            Some(Category::Podcast)
        } else {
            None
        }
    }

    /// Parse a category name, ignoring case.
    pub fn from_str(s: &str) -> (r: Option<Category>)
        ensures
            r == Category::from_name(lower_of(s@)),
    {
        let l = lowercase(s);
        if str_eq(l.as_str(), "general") {
            Some(Category::General)
        } else if str_eq(l.as_str(), "tech") {
            Some(Category::Tech)
        } else if str_eq(l.as_str(), "business") {
            Some(Category::Business)
        } else if str_eq(l.as_str(), "entertainment") {
            Some(Category::Entertainment)
        } else if str_eq(l.as_str(), "sports") {
            Some(Category::Sports)
        } else if str_eq(l.as_str(), "science") {
            Some(Category::Science)
        } else if str_eq(l.as_str(), "podcast") {
            Some(Category::Podcast)
        } else {
            None
        }
    }

    /// Every category, in a fixed order.
    pub fn all() -> (r: Vec<Category>)
        ensures
            r@ == seq![
                Category::General,
                Category::Tech,
                Category::Business,
                Category::Entertainment,
                Category::Sports,
                Category::Science,
                Category::Podcast,
            ],
    {
        let mut v: Vec<Category> = Vec::new();
        v.push(Category::General);
        v.push(Category::Tech);
        v.push(Category::Business);
        v.push(Category::Entertainment);
        v.push(Category::Sports);
        v.push(Category::Science);
        v.push(Category::Podcast);
        proof {
            assert(v@ =~= seq![
                Category::General,
                Category::Tech,
                Category::Business,
                Category::Entertainment,
                Category::Sports,
                Category::Science,
                Category::Podcast,
            ]);
        }
        v
    }
}

/// A single news article. `published_at` and `fetched_at` are Unix
/// timestamps in milliseconds; `popularity_score` is kept in tenths of a
/// point, so that it always equals `7·view_count + 3·click_count` exactly.
#[derive(Debug)]
pub struct Article {
    pub id: String,
    pub category: Category,
    pub title: String,
    pub url: String,
    pub description: Option<String>,
    pub image_url: Option<String>,
    pub source: String,
    pub published_at: u64,
    pub fetched_at: u64,
    pub view_count: u32,
    pub click_count: u32,
    pub popularity_score: u64,
    pub group_id: Option<String>,
    pub group_count: Option<u32>,
}

/// The popularity score, in tenths: `0.7·views + 0.3·clicks` scaled by ten.
pub open spec fn popularity_tenths(view_count: int, click_count: int) -> int {
    7 * view_count + 3 * click_count
}

impl Article {
    /// The score field agrees with the counters.
    pub open spec fn score_consistent(self) -> bool {
        self.popularity_score == popularity_tenths(
            self.view_count as int,
            self.click_count as int,
        )
    }
}

/// Copy an optional string.
pub fn clone_opt_string(o: &Option<String>) -> (r: Option<String>)
    ensures
        r == *o,
{
    match o {
        None => None,
        Some(s) => Some(s.clone()),
    }
}

impl Clone for Article {
    /// A clone is equal to the original.
    fn clone(&self) -> (r: Self)
        ensures
            r == *self,
    {
        Article {
            id: self.id.clone(),
            category: self.category,
            title: self.title.clone(),
            url: self.url.clone(),
            description: clone_opt_string(&self.description),
            image_url: clone_opt_string(&self.image_url),
            source: self.source.clone(),
            published_at: self.published_at,
            fetched_at: self.fetched_at,
            view_count: self.view_count,
            click_count: self.click_count,
            popularity_score: self.popularity_score,
            group_id: clone_opt_string(&self.group_id),
            group_count: self.group_count,
        }
    }
}

/// Paginated response for article listing.
#[derive(Debug, Clone)]
pub struct ArticlesResponse {
    pub articles: Vec<Article>,
    pub next_cursor: Option<String>,
}

/// Category info served to clients: stable id plus display labels.
#[derive(Debug, Clone)]
pub struct CategoryInfo {
    pub id: String,
    pub label: String,
    pub label_ja: String,
}

impl CategoryInfo {
    /// All categories with their English and Japanese labels.
    pub fn all() -> (r: Vec<CategoryInfo>)
        ensures
            r@.len() == 7,
            r@[0].id@ == "general"@ && r@[0].label@ == "General"@ && r@[0].label_ja@ == "総合"@,
            r@[1].id@ == "tech"@ && r@[1].label@ == "Technology"@ && r@[1].label_ja@
                == "テクノロジー"@,
            r@[2].id@ == "business"@ && r@[2].label@ == "Business"@ && r@[2].label_ja@
                == "ビジネス"@,
            r@[3].id@ == "entertainment"@ && r@[3].label@ == "Entertainment"@ && r@[3].label_ja@
                == "エンタメ"@,
            r@[4].id@ == "sports"@ && r@[4].label@ == "Sports"@ && r@[4].label_ja@ == "スポーツ"@,
            r@[5].id@ == "science"@ && r@[5].label@ == "Science"@ && r@[5].label_ja@
                == "サイエンス"@,
            r@[6].id@ == "podcast"@ && r@[6].label@ == "Podcast"@ && r@[6].label_ja@
                == "ポッドキャスト"@,
    {
        let mut v: Vec<CategoryInfo> = Vec::new();
        v.push(CategoryInfo {
            id: "general".to_owned(),
            label: "General".to_owned(),
            label_ja: "総合".to_owned(),
        });
        v.push(CategoryInfo {
            id: "tech".to_owned(),
            label: "Technology".to_owned(),
            label_ja: "テクノロジー".to_owned(),
        });
        v.push(CategoryInfo {
            id: "business".to_owned(),
            label: "Business".to_owned(),
            label_ja: "ビジネス".to_owned(),
        });
        v.push(CategoryInfo {
            id: "entertainment".to_owned(),
            label: "Entertainment".to_owned(),
            label_ja: "エンタメ".to_owned(),
        });
        v.push(CategoryInfo {
            id: "sports".to_owned(),
            label: "Sports".to_owned(),
            label_ja: "スポーツ".to_owned(),
        });
        v.push(CategoryInfo {
            id: "science".to_owned(),
            label: "Science".to_owned(),
            label_ja: "サイエンス".to_owned(),
        });
        v.push(CategoryInfo {
            id: "podcast".to_owned(),
            label: "Podcast".to_owned(),
            label_ja: "ポッドキャスト".to_owned(),
        });
        v
    }
}

} // verus!
