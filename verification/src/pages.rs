//! Turning content files into pages, sections and articles.

use vstd::prelude::*;
use crate::frontmatter::{opt_text, parse_markdown, parsed_body, parsed_frontmatter};
use crate::markdown::{markdown_html, render_markdown};
use crate::model::{opt_bytes, ArticleModel, PageModel, SectionModel};
use crate::rank::{byte_precedence, is_stable_sort_of, lemma_byte_flip, lemma_byte_tie, rank_precedence, stable_sort, Precedence, Ranked};
use crate::site::SiteGenerator;
use crate::text::{
    chars_of, find_char, has_prefix, has_suffix, index_of, join_texts, joined, lemma_index_of,
    push_char, same_text, string_of_range, text_ends_with, text_starts_with, texts_of,
};

verus! {

/// `char::to_ascii_uppercase`: `a`–`z` become `A`–`Z`, all else stays.
pub open spec fn ascii_upper(c: char) -> char {
    if 'a' <= c && c <= 'z' {
        ((c as int) - 32) as char
    } else {
        c
    }
}

fn to_ascii_upper(c: char) -> (r: char)
    ensures
        r == ascii_upper(c),
{
    if 'a' <= c && c <= 'z' {
        ((c as u8) - 32) as char
    } else {
        c
    }
}

/// A word with its first character in upper case.
pub open spec fn capitalized(word: Seq<char>) -> Seq<char> {
    seq![ascii_upper(word[0])] + word.drop_first()
}

/// The title word for one piece of a slug (none for an empty piece).
pub open spec fn word_of(piece: Seq<char>) -> Seq<Seq<char>> {
    if piece.len() == 0 {
        Seq::empty()
    } else {
        seq![capitalized(piece)]
    }
}

/// The capitalized non-empty pieces of a slug split at `-`.
pub open spec fn slug_words(slug: Seq<char>) -> Seq<Seq<char>>
    decreases slug.len(),
{
    proof {
        lemma_index_of(slug, '-');
    }
    match index_of(slug, '-') {
        Some(k) => word_of(slug.take(k)) + slug_words(slug.skip(k + 1)),
        None => word_of(slug),
    }
}

/// The title a slug stands for: `Home` for `index`, else its words joined
/// by spaces.
pub open spec fn title_for_slug(slug: Seq<char>) -> Seq<char> {
    if slug == "index"@ {
        "Home"@
    } else {
        joined(slug_words(slug), " "@)
    }
}

/// The title a slug stands for.
pub fn title_from_slug(slug: &str) -> (r: String)
    ensures
        r@ == title_for_slug(slug@),
{
    if same_text(slug, "index") {
        return String::from_str("Home");
    }
    let s = chars_of(slug);
    let mut words: Vec<String> = Vec::new();
    let mut pos: usize = 0;
    assert(s@.skip(0) =~= s@);
    while pos < s.len()
        invariant
            pos <= s@.len(),
            s@ == slug@,
            texts_of(words@) + slug_words(s@.skip(pos as int)) == slug_words(s@),
        decreases s@.len() - pos,
    {
        let ghost rest = s@.skip(pos as int);
        let ghost before = texts_of(words@);
        let end: usize = match find_char(s.as_slice(), pos, '-') {
            Some(k) => pos + k,
            None => s.len(),
        };
        proof {
            lemma_index_of(rest, '-');
        }
        if end > pos {
            let mut word = String::new();
            push_char(&mut word, to_ascii_upper(s[pos]));
            let tail = string_of_range(s.as_slice(), pos + 1, end);
            word.append(tail.as_str());
            assert(word@ =~= capitalized(s@.subrange(pos as int, end as int)));
            words.push(word);
            assert(texts_of(words@) =~= before.push(capitalized(s@.subrange(pos as int, end as int))));
        }
        assert(texts_of(words@) =~= before + word_of(s@.subrange(pos as int, end as int)));
        if end < s.len() {
            assert(rest.take(end - pos) =~= s@.subrange(pos as int, end as int));
            assert(rest.skip(end - pos + 1) =~= s@.skip(end + 1));
            assert(before + word_of(s@.subrange(pos as int, end as int)) + slug_words(s@.skip(end + 1)) =~= before + slug_words(rest));
            pos = end + 1;
        } else {
            assert(rest =~= s@.subrange(pos as int, end as int));
            assert(s@.skip(end as int) =~= Seq::<char>::empty());
            assert(slug_words(Seq::<char>::empty()) =~= Seq::<Seq<char>>::empty());
            assert(before + word_of(rest) + slug_words(s@.skip(end as int)) =~= before + slug_words(rest));
            pos = end;
        }
    }
    assert(s@.skip(pos as int) =~= Seq::<char>::empty());
    assert(slug_words(Seq::<char>::empty()) =~= Seq::<Seq<char>>::empty());
    assert(texts_of(words@) + slug_words(s@.skip(pos as int)) =~= texts_of(words@));
    join_texts(&words, " ")
}

// ---------------------------------------------------------------------------
// Slugs
// ---------------------------------------------------------------------------

/// The stem of a path's file name, as `Path::file_stem` gives it.
pub uninterp spec fn file_stem_of(path: Seq<char>) -> Option<Seq<char>>;

/// The file stem of `path`.
///
/// Trusted: calls `std::path::Path::file_stem` and converts the stem to a
/// `String` (lossless, since it comes from a `&str`). The result is named
/// `file_stem_of`, which depends on the path alone; how the standard
/// library splits components and extensions is not restated here.
#[verifier::external_body]
fn path_file_stem(path: &str) -> (r: Option<String>)
    ensures
        match r {
            Some(stem) => file_stem_of(path@) == Some(stem@),
            None => file_stem_of(path@) is None,
        },
{
    match std::path::Path::new(path).file_stem() {
        Some(stem) => Some(stem.to_string_lossy().into_owned()),
        None => None,
    }
}

/// The error for a path without a file stem.
pub open spec fn missing_stem_message(path: Seq<char>) -> Seq<char> {
    "missing file stem for "@ + path
}

/// The slug for a content file, given the stem its path has (if any).
pub fn slug_from_stem(file_path: &str, stem: Option<String>) -> (r: Result<String, String>)
    ensures
        match stem {
            Some(s) => r matches Ok(slug) && slug@ == s@,
            None => r matches Err(e) && e@ == missing_stem_message(file_path@),
        },
{
    match stem {
        Some(s) => Ok(s),
        None => {
            let mut message = String::from_str("missing file stem for ");
            message.append(file_path);
            Err(message)
        },
    }
}

/// The slug for a content file: its file stem.
pub fn slug_from_path(file_path: &str) -> (r: Result<String, String>)
    ensures
        match file_stem_of(file_path@) {
            Some(s) => r matches Ok(slug) && slug@ == s,
            None => r matches Err(e) && e@ == missing_stem_message(file_path@),
        },
{
    let stem = path_file_stem(file_path);
    slug_from_stem(file_path, stem)
}

/// The last component of a path, as `Path::file_name` gives it.
pub uninterp spec fn file_name_of(path: Seq<char>) -> Option<Seq<char>>;

/// The file name of `path`.
///
/// Trusted: calls `std::path::Path::file_name` and converts the name to a
/// `String` (lossless, since it comes from a `&str`). The result is named
/// `file_name_of`, which depends on the path alone; how the standard
/// library splits components is not restated here.
#[verifier::external_body]
fn path_file_name(path: &str) -> (r: Option<String>)
    ensures
        match r {
            Some(name) => file_name_of(path@) == Some(name@),
            None => file_name_of(path@) is None,
        },
{
    match std::path::Path::new(path).file_name() {
        Some(name) => Some(name.to_string_lossy().into_owned()),
        None => None,
    }
}

/// The error for a section directory without a name.
pub open spec fn missing_section_name_message() -> Seq<char> {
    "missing section directory name"@
}

/// The slug of a section, given the name its directory has (if any).
pub fn section_slug_from_name(name: Option<String>) -> (r: Result<String, String>)
    ensures
        match name {
            Some(n) => r matches Ok(slug) && slug@ == n@,
            None => r matches Err(e) && e@ == missing_section_name_message(),
        },
{
    match name {
        Some(n) => Ok(n),
        None => Err(String::from_str("missing section directory name")),
    }
}

/// The slug of a section: the name of its directory.
pub fn section_slug(directory_path: &str) -> (r: Result<String, String>)
    ensures
        match file_name_of(directory_path@) {
            Some(n) => r matches Ok(slug) && slug@ == n,
            None => r matches Err(e) && e@ == missing_section_name_message(),
        },
{
    let name = path_file_name(directory_path);
    section_slug_from_name(name)
}

// ---------------------------------------------------------------------------
// Content entries
// ---------------------------------------------------------------------------

/// A file directly under `content/` that becomes a page: a markdown file
/// whose name does not start with `_`.
pub open spec fn page_entry(is_file: bool, name: Seq<char>) -> bool {
    is_file && has_suffix(name, ".md"@) && !has_prefix(name, "_"@)
}

/// A file in a section directory that becomes an article: a markdown file
/// other than the section's `_index.md`.
pub open spec fn article_entry(is_file: bool, name: Seq<char>) -> bool {
    is_file && has_suffix(name, ".md"@) && name != "_index.md"@
}

/// Whether a directory entry of `content/` is a page file.
pub fn is_page_entry(is_file: bool, file_name: &str) -> (r: bool)
    ensures
        r == page_entry(is_file, file_name@),
{
    is_file && text_ends_with(file_name, ".md") && !text_starts_with(file_name, "_")
}

/// Whether a directory entry of a section is an article file.
pub fn is_article_entry(is_file: bool, file_name: &str) -> (r: bool)
    ensures
        r == article_entry(is_file, file_name@),
{
    is_file && text_ends_with(file_name, ".md") && !same_text(file_name, "_index.md")
}

// ---------------------------------------------------------------------------
// Models
// ---------------------------------------------------------------------------

/// A declared value, or the given default.
pub open spec fn or_default(value: Option<Seq<char>>, default: Seq<char>) -> Seq<char> {
    match value {
        Some(v) => v,
        None => default,
    }
}

fn take_or(value: Option<String>, default: String) -> (r: String)
    ensures
        r@ == or_default(opt_text(value), default@),
{
    match value {
        Some(v) => v,
        None => default,
    }
}

/// The route of a page: `/` for `index`, else `/<slug>/`.
pub open spec fn page_route(slug: Seq<char>) -> Seq<char> {
    if slug == "index"@ {
        "/"@
    } else {
        "/"@ + slug + "/"@
    }
}

/// The route of a section: `/<slug>/`.
pub open spec fn section_route(slug: Seq<char>) -> Seq<char> {
    "/"@ + slug + "/"@
}

/// The route of an article: `/<section>/<slug>/`.
pub open spec fn article_route(section_slug: Seq<char>, slug: Seq<char>) -> Seq<char> {
    "/"@ + section_slug + "/"@ + slug + "/"@
}

/// The page a markdown file with slug `slug` and text `source` becomes.
pub open spec fn is_page_for(page: PageModel, slug: Seq<char>, source: Seq<char>) -> bool {
    let fm = parsed_frontmatter(source);
    &&& page.slug@ == slug
    &&& page.path@ == page_route(slug)
    &&& page.title@ == or_default(fm.title, title_for_slug(slug))
    &&& page.description@ == or_default(fm.description, Seq::empty())
    &&& page.order == fm.order
    &&& page.html@ == markdown_html(parsed_body(source))
}

/// The article a markdown file with slug `slug` in section `section_slug`
/// becomes.
pub open spec fn is_article_for(
    article: ArticleModel,
    section_slug: Seq<char>,
    slug: Seq<char>,
    source: Seq<char>,
) -> bool {
    let fm = parsed_frontmatter(source);
    let description = or_default(fm.description, Seq::empty());
    &&& article.path@ == article_route(section_slug, slug)
    &&& article.title@ == or_default(fm.title, title_for_slug(slug))
    &&& article.description@ == description
    &&& article.summary@ == or_default(fm.summary, description)
    &&& opt_text(article.date_display) == fm.date
    &&& opt_text(article.date_sort_key) == fm.date
    &&& article.order == fm.order
    &&& article.html@ == markdown_html(parsed_body(source))
}

/// The section whose directory is `slug`, whose `_index.md` holds `source`
/// and whose articles are `articles`.
pub open spec fn is_section_for(
    section: SectionModel,
    slug: Seq<char>,
    source: Seq<char>,
    articles: Seq<ArticleModel>,
) -> bool {
    let fm = parsed_frontmatter(source);
    &&& section.path@ == section_route(slug)
    &&& section.title@ == or_default(fm.title, title_for_slug(slug))
    &&& section.description@ == or_default(fm.description, Seq::empty())
    &&& section.order == fm.order
    &&& section.html@ == markdown_html(parsed_body(source))
    &&& is_stable_sort_of(section.articles@, articles)
}

/// The page a markdown file becomes, given its slug and text.
pub fn page_from_markdown(slug: &str, source: &str) -> (r: PageModel)
    ensures
        is_page_for(r, slug@, source@),
{
    let markdown = parse_markdown(source);
    let path = if same_text(slug, "index") {
        String::from_str("/")
    } else {
        let mut p = String::from_str("/");
        p.append(slug);
        p.append("/");
        p
    };
    let fm = markdown.frontmatter;
    let title = match fm.title {
        Some(t) => t,
        None => title_from_slug(slug),
    };
    PageModel {
        slug: String::from_str(slug),
        path,
        title,
        description: take_or(fm.description, String::new()),
        order: fm.order,
        html: render_markdown(markdown.body.as_str()),
    }
}

/// The article a markdown file becomes, given its section, slug and text.
pub fn article_from_markdown(section_slug: &str, slug: &str, source: &str) -> (r: ArticleModel)
    ensures
        is_article_for(r, section_slug@, slug@, source@),
{
    let markdown = parse_markdown(source);
    let fm = markdown.frontmatter;
    let description = take_or(fm.description, String::new());
    let summary = match fm.summary {
        Some(s) => s,
        None => description.clone(),
    };
    let mut path = String::from_str("/");
    path.append(section_slug);
    path.append("/");
    path.append(slug);
    path.append("/");
    let title = match fm.title {
        Some(t) => t,
        None => title_from_slug(slug),
    };
    let date_display = match &fm.date {
        Some(d) => Some(d.clone()),
        None => None,
    };
    ArticleModel {
        path,
        title,
        description,
        summary,
        date_display,
        date_sort_key: fm.date,
        order: fm.order,
        html: render_markdown(markdown.body.as_str()),
    }
}

/// In a section's listing, dated articles come before undated ones, and of
/// two dated articles the one with the greater date text comes first.
pub proof fn lemma_articles_newest_first(
    section: SectionModel,
    slug: Seq<char>,
    source: Seq<char>,
    articles: Seq<ArticleModel>,
    i: int,
    j: int,
)
    requires
        is_section_for(section, slug, source, articles),
        0 <= i < j < section.articles@.len(),
    ensures
        section.articles@[i].date_sort_key is None ==> section.articles@[j].date_sort_key is None,
        (opt_bytes(section.articles@[i].date_sort_key), opt_bytes(section.articles@[j].date_sort_key))
            matches (Some(newer), Some(older)) ==> byte_precedence(newer, older) != Precedence::Before,
{
    let a = section.articles@[i];
    let b = section.articles@[j];
    assert(rank_precedence(a.rank(), b.rank()) != Precedence::After);
    match (opt_bytes(a.date_sort_key), opt_bytes(b.date_sort_key)) {
        (Some(x), Some(y)) => {
            lemma_byte_flip(x, y);
            lemma_byte_tie(x, y);
        },
        _ => {},
    }
}

impl SiteGenerator {
    /// Builds the page for the markdown file at `file_path` holding `source`.
    pub fn build_page(&self, file_path: &str, source: &str) -> (r: Result<PageModel, String>)
        ensures
            match file_stem_of(file_path@) {
                Some(slug) => r matches Ok(page) && is_page_for(page, slug, source@),
                None => r matches Err(e) && e@ == missing_stem_message(file_path@),
            },
    {
        let slug = slug_from_path(file_path)?;
        Ok(page_from_markdown(slug.as_str(), source))
    }

    /// Builds the article for the markdown file at `file_path`, holding
    /// `source`, in the section `section_slug`.
    pub fn build_article(&self, section_slug: &str, file_path: &str, source: &str) -> (r: Result<
        ArticleModel,
        String,
    >)
        ensures
            match file_stem_of(file_path@) {
                Some(slug) => r matches Ok(article) && is_article_for(
                    article,
                    section_slug@,
                    slug,
                    source@,
                ),
                None => r matches Err(e) && e@ == missing_stem_message(file_path@),
            },
    {
        let slug = slug_from_path(file_path)?;
        Ok(article_from_markdown(section_slug, slug.as_str(), source))
    }

    /// Builds the section for the directory `directory_name`, whose
    /// `_index.md` holds `index_source`, from its articles (listed in
    /// article order).
    pub fn build_section(
        &self,
        directory_name: &str,
        index_source: &str,
        articles: Vec<ArticleModel>,
    ) -> (r: SectionModel)
        ensures
            is_section_for(r, directory_name@, index_source@, articles@),
    {
        let markdown = parse_markdown(index_source);
        let fm = markdown.frontmatter;
        let sorted = stable_sort(articles);
        let mut path = String::from_str("/");
        path.append(directory_name);
        path.append("/");
        let title = match fm.title {
            Some(t) => t,
            None => title_from_slug(directory_name),
        };
        SectionModel {
            path,
            title,
            description: take_or(fm.description, String::new()),
            order: fm.order,
            html: render_markdown(markdown.body.as_str()),
            articles: sorted,
        }
    }
}

} // verus!
