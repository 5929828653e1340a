//! HTML documents for pages, sections and articles.

use vstd::prelude::*;
use crate::escape::{escaped, html_encode};
use crate::model::{ArticleModel, NavigationItem, PageModel, SectionModel, SiteModel};
use crate::site::SiteGenerator;
use crate::text::{
    joined, joined_start, join_texts, lemma_joined_part, lemma_joined_parts_in_order, occurs_at,
    same_text, texts_of,
};

verus! {

// ---------------------------------------------------------------------------
// Fragments
// ---------------------------------------------------------------------------

/// The panel header for a description (nothing for an empty one).
pub open spec fn panel_description_html(description: Seq<char>) -> Seq<char> {
    if description.len() == 0 {
        Seq::empty()
    } else {
        "<header class=\"panel-header\"><p>"@ + escaped(description) + "</p></header>"@
    }
}

/// The date and description line of an article.
pub open spec fn article_meta_html(article: ArticleModel) -> Seq<char> {
    match article.date_display {
        Some(date) => if article.description@.len() > 0 {
            "<span>"@ + escaped(date@) + "</span><span>"@ + escaped(article.description@)
                + "</span>"@
        } else {
            "<span>"@ + escaped(date@) + "</span>"@
        },
        None => if article.description@.len() > 0 {
            escaped(article.description@)
        } else {
            Seq::empty()
        },
    }
}

/// The header of an article page (nothing where the meta line is empty).
pub open spec fn article_header_html(article: ArticleModel) -> Seq<char> {
    let meta = article_meta_html(article);
    if meta.len() == 0 {
        Seq::empty()
    } else {
        "<header class=\"panel-header\"><p>"@ + meta + "</p></header>"@
    }
}

/// Renders the panel header for a description.
pub fn render_panel_description(description: &str) -> (r: String)
    ensures
        r@ == panel_description_html(description@),
{
    if description.is_empty() {
        String::new()
    } else {
        let mut r = String::from_str("<header class=\"panel-header\"><p>");
        let body = html_encode(description);
        r.append(body.as_str());
        r.append("</p></header>");
        r
    }
}

/// Renders the date and description line of an article.
pub fn render_article_meta(article: &ArticleModel) -> (r: String)
    ensures
        r@ == article_meta_html(*article),
{
    match &article.date_display {
        Some(date) => {
            let mut r = String::from_str("<span>");
            let d = html_encode(date.as_str());
            r.append(d.as_str());
            if !article.description.as_str().is_empty() {
                r.append("</span><span>");
                let e = html_encode(article.description.as_str());
                r.append(e.as_str());
                r.append("</span>");
            } else {
                r.append("</span>");
            }
            r
        },
        None => {
            if !article.description.as_str().is_empty() {
                html_encode(article.description.as_str())
            } else {
                String::new()
            }
        },
    }
}

/// Renders the header of an article page.
pub fn render_article_header(article: &ArticleModel) -> (r: String)
    ensures
        r@ == article_header_html(*article),
{
    let meta = render_article_meta(article);
    if meta.as_str().is_empty() {
        String::new()
    } else {
        let mut r = String::from_str("<header class=\"panel-header\"><p>");
        r.append(meta.as_str());
        r.append("</p></header>");
        r
    }
}

// ---------------------------------------------------------------------------
// Documents
// ---------------------------------------------------------------------------

/// One link of the primary navigation; the link to the current route is
/// marked active.
pub open spec fn nav_link_html(item: NavigationItem, current_path: Seq<char>) -> Seq<char> {
    "<a class=\""@ + (if item.path@ == current_path {
        "nav-link nav-link-active"@
    } else {
        "nav-link"@
    }) + "\" href=\""@ + item.path@ + "\">"@ + escaped(item.title@) + "</a>"@
}

/// The primary navigation: one link per entry, one per line.
pub open spec fn navigation_html(items: Seq<NavigationItem>, current_path: Seq<char>) -> Seq<char> {
    joined(items.map_values(|item: NavigationItem| nav_link_html(item, current_path)), "\n"@)
}

/// The document title: the site title on `/`, else `<page> | <site>`.
pub open spec fn full_title(site_title: Seq<char>, page_title: Seq<char>, current_path: Seq<char>) -> Seq<char> {
    if current_path == "/"@ {
        site_title
    } else {
        page_title + " | "@ + site_title
    }
}

/// A whole HTML document around `main_content`.
pub open spec fn document_html(
    site: SiteModel,
    page_title: Seq<char>,
    description: Seq<char>,
    current_path: Seq<char>,
    main_content: Seq<char>,
) -> Seq<char> {
    "<!DOCTYPE html><html lang=\"en\"><head><meta charset=\"utf-8\"><meta name=\"viewport\" content=\"width=device-width, initial-scale=1\"><title>"@
        + escaped(full_title(site.title@, page_title, current_path))
        + "</title><meta name=\"description\" content=\""@ + escaped(description)
        + "\"><link rel=\"stylesheet\" href=\"/styles.css\"></head><body><div class=\"app-shell\"><header class=\"site-header\"><div><a class=\"site-title\" href=\"/\">"@
        + escaped(site.title@) + "</a><p class=\"site-tagline\">"@ + escaped(site.description@)
        + "</p></div><nav class=\"site-nav\" aria-label=\"Primary navigation\">"@
        + navigation_html(site.navigation@, current_path) + "</nav></header><main>"@
        + main_content + "</main></div></body></html>"@
}

/// The main content of a standalone page.
pub open spec fn standard_main_html(page: PageModel) -> Seq<char> {
    "<article class=\"panel stack-gap\">"@ + panel_description_html(page.description@)
        + "<div class=\"markdown\">"@ + page.html@ + "</div></article>"@
}

/// The card of one article in a section listing.
pub open spec fn article_card_html(article: ArticleModel) -> Seq<char> {
    "<article class=\"article-card\"><div class=\"article-card-meta\">"@ + article_meta_html(article)
        + "</div><h2><a href=\""@ + article.path@ + "\">"@ + escaped(article.title@)
        + "</a></h2><p>"@ + escaped(article.summary@) + "</p></article>"@
}

/// The list of a section's articles (nothing when there are none).
pub open spec fn article_list_html(articles: Seq<ArticleModel>) -> Seq<char> {
    if articles.len() == 0 {
        Seq::empty()
    } else {
        "<section class=\"stack-gap\" aria-labelledby=\"articles-heading\"><h2 id=\"articles-heading\">Articles</h2><div class=\"article-list\">"@
            + joined(articles.map_values(|a: ArticleModel| article_card_html(a)), "\n"@)
            + "</div></section>"@
    }
}

/// The main content of a section page.
pub open spec fn section_main_html(section: SectionModel) -> Seq<char> {
    "<article class=\"panel stack-gap\">"@ + panel_description_html(section.description@)
        + "<div class=\"markdown\">"@ + section.html@ + "</div>"@ + article_list_html(
        section.articles@,
    ) + "</article>"@
}

/// The main content of an article page.
pub open spec fn article_main_html(section: SectionModel, article: ArticleModel) -> Seq<char> {
    "<article class=\"panel stack-gap\"><a class=\"back-link\" href=\""@ + section.path@
        + "\">Back to "@ + escaped(section.title@) + "</a>"@ + article_header_html(article)
        + "<div class=\"markdown\">"@ + article.html@ + "</div></article>"@
}

fn render_nav_link(item: &NavigationItem, current_path: &str) -> (r: String)
    ensures
        r@ == nav_link_html(*item, current_path@),
{
    let mut r = String::from_str("<a class=\"");
    if same_text(item.path.as_str(), current_path) {
        r.append("nav-link nav-link-active");
    } else {
        r.append("nav-link");
    }
    r.append("\" href=\"");
    r.append(item.path.as_str());
    r.append("\">");
    let t = html_encode(item.title.as_str());
    r.append(t.as_str());
    r.append("</a>");
    r
}

fn render_article_card(article: &ArticleModel) -> (r: String)
    ensures
        r@ == article_card_html(*article),
{
    let mut r = String::from_str("<article class=\"article-card\"><div class=\"article-card-meta\">");
    let meta = render_article_meta(article);
    r.append(meta.as_str());
    r.append("</div><h2><a href=\"");
    r.append(article.path.as_str());
    r.append("\">");
    let t = html_encode(article.title.as_str());
    r.append(t.as_str());
    r.append("</a></h2><p>");
    let s = html_encode(article.summary.as_str());
    r.append(s.as_str());
    r.append("</p></article>");
    r
}

impl SiteGenerator {
    /// Renders a whole HTML document for the route `current_path`.
    pub fn render_document(
        &self,
        site: &SiteModel,
        page_title: &str,
        description: &str,
        current_path: &str,
        main_content: String,
    ) -> (r: String)
        ensures
            r@ == document_html(*site, page_title@, description@, current_path@, main_content@),
    {
        let full = if same_text(current_path, "/") {
            site.title.clone()
        } else {
            let mut t = String::from_str(page_title);
            t.append(" | ");
            t.append(site.title.as_str());
            t
        };
        let ghost f = |item: NavigationItem| nav_link_html(item, current_path@);
        let mut links: Vec<String> = Vec::new();
        let mut i: usize = 0;
        while i < site.navigation.len()
            invariant
                i <= site.navigation@.len(),
                f == (|item: NavigationItem| nav_link_html(item, current_path@)),
                texts_of(links@) == site.navigation@.take(i as int).map_values(f),
            decreases site.navigation@.len() - i,
        {
            let link = render_nav_link(&site.navigation[i], current_path);
            let ghost before = texts_of(links@);
            links.push(link);
            assert(texts_of(links@) =~= before.push(link@));
            assert(site.navigation@.take(i + 1).map_values(f) =~= site.navigation@.take(
                i as int,
            ).map_values(f).push(f(site.navigation@[i as int])));
            i = i + 1;
        }
        assert(site.navigation@.take(site.navigation@.len() as int) =~= site.navigation@);
        let navigation = join_texts(&links, "\n");
        let mut r = String::from_str(
            "<!DOCTYPE html><html lang=\"en\"><head><meta charset=\"utf-8\"><meta name=\"viewport\" content=\"width=device-width, initial-scale=1\"><title>",
        );
        let a = html_encode(full.as_str());
        r.append(a.as_str());
        r.append("</title><meta name=\"description\" content=\"");
        let b = html_encode(description);
        r.append(b.as_str());
        r.append(
            "\"><link rel=\"stylesheet\" href=\"/styles.css\"></head><body><div class=\"app-shell\"><header class=\"site-header\"><div><a class=\"site-title\" href=\"/\">",
        );
        let c = html_encode(site.title.as_str());
        r.append(c.as_str());
        r.append("</a><p class=\"site-tagline\">");
        let d = html_encode(site.description.as_str());
        r.append(d.as_str());
        r.append("</p></div><nav class=\"site-nav\" aria-label=\"Primary navigation\">");
        r.append(navigation.as_str());
        r.append("</nav></header><main>");
        r.append(main_content.as_str());
        r.append("</main></div></body></html>");
        r
    }

    /// Renders the document for a standalone page.
    pub fn render_standard_page(&self, site: &SiteModel, page: &PageModel) -> (r: String)
        ensures
            r@ == document_html(*site, page.title@, page.description@, page.path@, standard_main_html(*page)),
    {
        let mut main = String::from_str("<article class=\"panel stack-gap\">");
        let p = render_panel_description(page.description.as_str());
        main.append(p.as_str());
        main.append("<div class=\"markdown\">");
        main.append(page.html.as_str());
        main.append("</div></article>");
        self.render_document(site, page.title.as_str(), page.description.as_str(), page.path.as_str(), main)
    }

    /// Renders the document for a section page, with its article cards.
    pub fn render_section_page(&self, site: &SiteModel, section: &SectionModel) -> (r: String)
        ensures
            r@ == document_html(*site, section.title@, section.description@, section.path@, section_main_html(*section)),
    {
        let ghost f = |a: ArticleModel| article_card_html(a);
        let mut cards: Vec<String> = Vec::new();
        let mut i: usize = 0;
        while i < section.articles.len()
            invariant
                i <= section.articles@.len(),
                f == (|a: ArticleModel| article_card_html(a)),
                texts_of(cards@) == section.articles@.take(i as int).map_values(f),
            decreases section.articles@.len() - i,
        {
            let card = render_article_card(&section.articles[i]);
            let ghost before = texts_of(cards@);
            cards.push(card);
            assert(texts_of(cards@) =~= before.push(card@));
            assert(section.articles@.take(i + 1).map_values(f) =~= section.articles@.take(
                i as int,
            ).map_values(f).push(f(section.articles@[i as int])));
            i = i + 1;
        }
        assert(section.articles@.take(section.articles@.len() as int) =~= section.articles@);
        let article_section = if section.articles.len() == 0 {
            String::new()
        } else {
            let mut s = String::from_str(
                "<section class=\"stack-gap\" aria-labelledby=\"articles-heading\"><h2 id=\"articles-heading\">Articles</h2><div class=\"article-list\">",
            );
            let joined_cards = join_texts(&cards, "\n");
            s.append(joined_cards.as_str());
            s.append("</div></section>");
            s
        };
        let mut main = String::from_str("<article class=\"panel stack-gap\">");
        let p = render_panel_description(section.description.as_str());
        main.append(p.as_str());
        main.append("<div class=\"markdown\">");
        main.append(section.html.as_str());
        main.append("</div>");
        main.append(article_section.as_str());
        main.append("</article>");
        self.render_document(site, section.title.as_str(), section.description.as_str(), section.path.as_str(), main)
    }

    /// Renders the document for an article page, linking back to its section.
    pub fn render_article_page(&self, site: &SiteModel, section: &SectionModel, article: &ArticleModel) -> (r: String)
        ensures
            r@ == document_html(*site, article.title@, article.description@, article.path@, article_main_html(*section, *article)),
    {
        let mut main = String::from_str("<article class=\"panel stack-gap\"><a class=\"back-link\" href=\"");
        main.append(section.path.as_str());
        main.append("\">Back to ");
        let t = html_encode(section.title.as_str());
        main.append(t.as_str());
        main.append("</a>");
        let h = render_article_header(article);
        main.append(h.as_str());
        main.append("<div class=\"markdown\">");
        main.append(article.html.as_str());
        main.append("</div></article>");
        self.render_document(site, article.title.as_str(), article.description.as_str(), article.path.as_str(), main)
    }
}


// ---------------------------------------------------------------------------
// Laws
// ---------------------------------------------------------------------------

/// Where the card of article `i` stands in a section page's main content.
spec fn card_position(section: SectionModel, i: int) -> int {
    let cards = section.articles@.map_values(|a: ArticleModel| article_card_html(a));
    let before = "<article class=\"panel stack-gap\">"@ + panel_description_html(section.description@)
        + "<div class=\"markdown\">"@ + section.html@ + "</div>"@
        + "<section class=\"stack-gap\" aria-labelledby=\"articles-heading\"><h2 id=\"articles-heading\">Articles</h2><div class=\"article-list\">"@;
    before.len() + joined_start(cards, "\n"@, i)
}

proof fn lemma_card_at(section: SectionModel, i: int)
    requires
        0 <= i < section.articles@.len(),
    ensures
        occurs_at(section_main_html(section), article_card_html(section.articles@[i]), card_position(section, i)),
{
    let f = |a: ArticleModel| article_card_html(a);
    let cards = section.articles@.map_values(f);
    let sep = "\n"@;
    let before = "<article class=\"panel stack-gap\">"@ + panel_description_html(section.description@)
        + "<div class=\"markdown\">"@ + section.html@ + "</div>"@
        + "<section class=\"stack-gap\" aria-labelledby=\"articles-heading\"><h2 id=\"articles-heading\">Articles</h2><div class=\"article-list\">"@;
    let after = "</div></section>"@ + "</article>"@;
    let j = joined(cards, sep);
    let h = section_main_html(section);
    assert(h =~= before + j + after);
    lemma_joined_part(cards, sep, i);
    let o = joined_start(cards, sep, i);
    let c = cards[i];
    assert(c == article_card_html(section.articles@[i]));
    let b = before.len() as int;
    assert(h.subrange(b + o, b + o + c.len()) =~= j.subrange(o, o + c.len()));
}

/// The card of article `i` stands somewhere in the section's main content.
pub open spec fn card_shown(section: SectionModel, i: int) -> bool {
    exists|o: int| occurs_at(section_main_html(section), article_card_html(section.articles@[i]), o)
}

/// The card of article `i` stands before, and apart from, that of article `k`.
pub open spec fn cards_in_order(section: SectionModel, i: int, k: int) -> bool {
    exists|oi: int, ok: int|
        occurs_at(section_main_html(section), article_card_html(section.articles@[i]), oi)
            && occurs_at(section_main_html(section), article_card_html(section.articles@[k]), ok)
            && oi + article_card_html(section.articles@[i]).len() <= ok
}

/// A section page shows the card of every one of its articles, in the
/// order of the section's articles, none overlapping the next.
pub proof fn lemma_section_lists_articles(section: SectionModel)
    ensures
        forall|i: int| 0 <= i < section.articles@.len() ==> #[trigger] card_shown(section, i),
        forall|i: int, k: int|
            0 <= i < k < section.articles@.len() ==> #[trigger] cards_in_order(section, i, k),
{
    assert forall|i: int| 0 <= i < section.articles@.len() implies #[trigger] card_shown(section, i) by {
        lemma_card_at(section, i);
        let o = card_position(section, i);
        assert(occurs_at(section_main_html(section), article_card_html(section.articles@[i]), o));
    }
    assert forall|i: int, k: int| 0 <= i < k < section.articles@.len() implies #[trigger] cards_in_order(
        section,
        i,
        k,
    ) by {
        lemma_card_at(section, i);
        lemma_card_at(section, k);
        let cards = section.articles@.map_values(|a: ArticleModel| article_card_html(a));
        lemma_joined_parts_in_order(cards, "\n"@, i, k);
        assert(cards[i] == article_card_html(section.articles@[i]));
        let oi = card_position(section, i);
        let ok = card_position(section, k);
        assert(occurs_at(section_main_html(section), article_card_html(section.articles@[i]), oi));
        assert(occurs_at(section_main_html(section), article_card_html(section.articles@[k]), ok));
    }
}

} // verus!
