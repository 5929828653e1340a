//! The site's data: pages, sections, articles, navigation entries, and the
//! order in which each is listed.

use vstd::prelude::*;
use std::cmp::Ordering;
use crate::rank::{
    byte_precedence, compare_text, order_title_precedence, rank_precedence, Precedence, RankKey,
    Ranked,
};

verus! {

/// A standalone page (`content/<slug>.md`).
#[derive(Clone)]
pub struct PageModel {
    pub slug: String,
    pub path: String,
    pub title: String,
    pub description: String,
    pub order: Option<i32>,
    pub html: String,
}

/// An article inside a section (`content/<section>/<slug>.md`).
#[derive(Clone)]
pub struct ArticleModel {
    pub path: String,
    pub title: String,
    pub description: String,
    pub summary: String,
    pub date_display: Option<String>,
    pub date_sort_key: Option<String>,
    pub order: Option<i32>,
    pub html: String,
}

/// A section (`content/<section>/_index.md`) and its articles.
#[derive(Clone)]
pub struct SectionModel {
    pub path: String,
    pub title: String,
    pub description: String,
    pub order: Option<i32>,
    pub html: String,
    pub articles: Vec<ArticleModel>,
}

/// One link of the primary navigation.
#[derive(Clone)]
pub struct NavigationItem {
    pub title: String,
    pub path: String,
    pub order: Option<i32>,
}

/// Everything the generator renders.
#[derive(Clone)]
pub struct SiteModel {
    pub title: String,
    pub description: String,
    pub navigation: Vec<NavigationItem>,
    pub home_page: PageModel,
    pub pages: Vec<PageModel>,
    pub sections: Vec<SectionModel>,
}

impl PageModel {
    /// A copy of this page.
    pub fn duplicate(&self) -> (r: PageModel)
        ensures
            r == *self,
    {
        PageModel {
            slug: self.slug.clone(),
            path: self.path.clone(),
            title: self.title.clone(),
            description: self.description.clone(),
            order: self.order,
            html: self.html.clone(),
        }
    }
}

// ---------------------------------------------------------------------------
// Listing order
// ---------------------------------------------------------------------------

/// An absent order number sorts after every present one.
pub open spec fn order_value(value: Option<i32>) -> i32 {
    match value {
        Some(v) => v,
        None => i32::MAX,
    }
}

/// The order number used for sorting: the given one, or `i32::MAX`.
pub fn normalize_order(value: Option<i32>) -> (r: i32)
    ensures
        r == order_value(value),
{
    match value {
        Some(v) => v,
        None => i32::MAX,
    }
}

/// The key of an undated entry: order number, then title bytes.
pub open spec fn undated_key(order: Option<i32>, title: Seq<char>) -> RankKey {
    RankKey { date: None, order: order_value(order), title: vstd::utf8::encode_utf8(title) }
}

/// The optional UTF-8 bytes of an optional string.
pub open spec fn opt_bytes(o: Option<String>) -> Option<Seq<u8>> {
    match o {
        Some(s) => Some(vstd::utf8::encode_utf8(s@)),
        None => None,
    }
}

fn order_then_title(left_order: Option<i32>, left_title: &str, right_order: Option<i32>, right_title: &str) -> (r: Precedence)
    ensures
        r == order_title_precedence(undated_key(left_order, left_title@), undated_key(right_order, right_title@)),
{
    let a = normalize_order(left_order);
    let b = normalize_order(right_order);
    if a < b {
        Precedence::Before
    } else if a > b {
        Precedence::After
    } else {
        compare_text(left_title, right_title)
    }
}

impl Ranked for PageModel {
    open spec fn rank(&self) -> RankKey {
        undated_key(self.order, self.title@)
    }

    fn precedence(&self, other: &Self) -> (p: Precedence) {
        order_then_title(self.order, self.title.as_str(), other.order, other.title.as_str())
    }
}

impl Ranked for SectionModel {
    open spec fn rank(&self) -> RankKey {
        undated_key(self.order, self.title@)
    }

    fn precedence(&self, other: &Self) -> (p: Precedence) {
        order_then_title(self.order, self.title.as_str(), other.order, other.title.as_str())
    }
}

impl Ranked for NavigationItem {
    open spec fn rank(&self) -> RankKey {
        undated_key(self.order, self.title@)
    }

    fn precedence(&self, other: &Self) -> (p: Precedence) {
        order_then_title(self.order, self.title.as_str(), other.order, other.title.as_str())
    }
}

impl Ranked for ArticleModel {
    /// Dated articles first, newest (greatest date text) first; then order
    /// number; then title.
    open spec fn rank(&self) -> RankKey {
        RankKey {
            date: opt_bytes(self.date_sort_key),
            order: order_value(self.order),
            title: vstd::utf8::encode_utf8(self.title@),
        }
    }

    fn precedence(&self, other: &Self) -> (p: Precedence) {
        match (&self.date_sort_key, &other.date_sort_key) {
            (Some(left_date), Some(right_date)) => {
                let d = compare_text(right_date.as_str(), left_date.as_str());
                proof {
                    crate::rank::lemma_byte_tie(
                        vstd::utf8::encode_utf8(right_date@),
                        vstd::utf8::encode_utf8(left_date@),
                    );
                }
                if d != Precedence::Tie {
                    d
                } else {
                    order_then_title(self.order, self.title.as_str(), other.order, other.title.as_str())
                }
            },
            (Some(_), None) => Precedence::Before,
            (None, Some(_)) => Precedence::After,
            (None, None) => order_then_title(
                self.order,
                self.title.as_str(),
                other.order,
                other.title.as_str(),
            ),
        }
    }
}

/// The `Ordering` a precedence stands for.
pub open spec fn ordering_of(p: Precedence) -> Ordering {
    match p {
        Precedence::Before => Ordering::Less,
        Precedence::Tie => Ordering::Equal,
        Precedence::After => Ordering::Greater,
    }
}

fn to_ordering(p: Precedence) -> (r: Ordering)
    ensures
        r == ordering_of(p),
{
    match p {
        Precedence::Before => Ordering::Less,
        Precedence::Tie => Ordering::Equal,
        Precedence::After => Ordering::Greater,
    }
}

/// Navigation order of two navigation entries: order number, then title.
pub fn navigation_cmp_item(left: &NavigationItem, right: &NavigationItem) -> (r: Ordering)
    ensures
        r == ordering_of(rank_precedence(left.rank(), right.rank())),
{
    to_ordering(left.precedence(right))
}

/// Navigation order of two pages: order number, then title.
pub fn navigation_cmp_page(left: &PageModel, right: &PageModel) -> (r: Ordering)
    ensures
        r == ordering_of(rank_precedence(left.rank(), right.rank())),
{
    to_ordering(left.precedence(right))
}

/// Navigation order of two sections: order number, then title.
pub fn navigation_cmp_section(left: &SectionModel, right: &SectionModel) -> (r: Ordering)
    ensures
        r == ordering_of(rank_precedence(left.rank(), right.rank())),
{
    to_ordering(left.precedence(right))
}

/// Listing order of two articles: dated before undated, newer date first,
/// then order number, then title.
pub fn article_cmp(left: &ArticleModel, right: &ArticleModel) -> (r: Ordering)
    ensures
        r == ordering_of(rank_precedence(left.rank(), right.rank())),
{
    to_ordering(left.precedence(right))
}


// ---------------------------------------------------------------------------
// Laws
// ---------------------------------------------------------------------------

/// The sort date of an article, as text.
pub open spec fn date_text(a: ArticleModel) -> Option<Seq<char>> {
    match a.date_sort_key {
        Some(d) => Some(d@),
        None => None,
    }
}

/// How `article_cmp` lists two articles: a dated article before an undated
/// one; of two dated articles with different dates, the later date (the
/// greater text) first; otherwise the smaller order number first (an
/// absent one counts as `i32::MAX`), and on equal order numbers the title
/// whose bytes come first.
pub proof fn lemma_article_order(a: ArticleModel, b: ArticleModel)
    ensures
        a.date_sort_key is Some && b.date_sort_key is None ==> ordering_of(
            rank_precedence(a.rank(), b.rank()),
        ) == Ordering::Less,
        a.date_sort_key is None && b.date_sort_key is Some ==> ordering_of(
            rank_precedence(a.rank(), b.rank()),
        ) == Ordering::Greater,
        date_text(a) is Some && date_text(b) is Some && date_text(a)->0 != date_text(b)->0
            ==> ordering_of(rank_precedence(a.rank(), b.rank())) == ordering_of(
            byte_precedence(
                vstd::utf8::encode_utf8(date_text(b)->0),
                vstd::utf8::encode_utf8(date_text(a)->0),
            ),
        ),
        date_text(a) == date_text(b) && order_value(a.order) < order_value(b.order) ==> ordering_of(
            rank_precedence(a.rank(), b.rank()),
        ) == Ordering::Less,
        date_text(a) == date_text(b) && order_value(a.order) > order_value(b.order) ==> ordering_of(
            rank_precedence(a.rank(), b.rank()),
        ) == Ordering::Greater,
        date_text(a) == date_text(b) && order_value(a.order) == order_value(b.order) ==> ordering_of(
            rank_precedence(a.rank(), b.rank()),
        ) == ordering_of(
            byte_precedence(vstd::utf8::encode_utf8(a.title@), vstd::utf8::encode_utf8(b.title@)),
        ),
{
    match (a.date_sort_key, b.date_sort_key) {
        (Some(x), Some(y)) => {
            vstd::utf8::encode_utf8_decode_utf8(x@);
            vstd::utf8::encode_utf8_decode_utf8(y@);
        },
        _ => {},
    }
}

/// How navigation entries are listed (`navigation_cmp_item`): the smaller order number first (an
/// absent one counts as `i32::MAX`), and on equal order numbers the title
/// whose bytes come first.
pub proof fn lemma_navigation_item_order(a: NavigationItem, b: NavigationItem)
    ensures
        order_value(a.order) < order_value(b.order) ==> ordering_of(
            rank_precedence(a.rank(), b.rank()),
        ) == Ordering::Less,
        order_value(a.order) > order_value(b.order) ==> ordering_of(
            rank_precedence(a.rank(), b.rank()),
        ) == Ordering::Greater,
        order_value(a.order) == order_value(b.order) ==> ordering_of(
            rank_precedence(a.rank(), b.rank()),
        ) == ordering_of(
            byte_precedence(vstd::utf8::encode_utf8(a.title@), vstd::utf8::encode_utf8(b.title@)),
        ),
{
}

/// How pages are listed (`navigation_cmp_page`): the smaller order number first (an
/// absent one counts as `i32::MAX`), and on equal order numbers the title
/// whose bytes come first.
pub proof fn lemma_page_order(a: PageModel, b: PageModel)
    ensures
        order_value(a.order) < order_value(b.order) ==> ordering_of(
            rank_precedence(a.rank(), b.rank()),
        ) == Ordering::Less,
        order_value(a.order) > order_value(b.order) ==> ordering_of(
            rank_precedence(a.rank(), b.rank()),
        ) == Ordering::Greater,
        order_value(a.order) == order_value(b.order) ==> ordering_of(
            rank_precedence(a.rank(), b.rank()),
        ) == ordering_of(
            byte_precedence(vstd::utf8::encode_utf8(a.title@), vstd::utf8::encode_utf8(b.title@)),
        ),
{
}

/// How sections are listed (`navigation_cmp_section`): the smaller order number first (an
/// absent one counts as `i32::MAX`), and on equal order numbers the title
/// whose bytes come first.
pub proof fn lemma_section_order(a: SectionModel, b: SectionModel)
    ensures
        order_value(a.order) < order_value(b.order) ==> ordering_of(
            rank_precedence(a.rank(), b.rank()),
        ) == Ordering::Less,
        order_value(a.order) > order_value(b.order) ==> ordering_of(
            rank_precedence(a.rank(), b.rank()),
        ) == Ordering::Greater,
        order_value(a.order) == order_value(b.order) ==> ordering_of(
            rank_precedence(a.rank(), b.rank()),
        ) == ordering_of(
            byte_precedence(vstd::utf8::encode_utf8(a.title@), vstd::utf8::encode_utf8(b.title@)),
        ),
{
}

} // verus!
