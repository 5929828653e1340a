//! The generator: command-line options, assembling the site, and the
//! routes a build writes.

use vstd::prelude::*;
use crate::model::{ArticleModel, NavigationItem, PageModel, SectionModel, SiteModel, order_value};
use crate::rank::{byte_precedence, is_stable_sort_of, stable_sort, Precedence, Ranked};
use crate::render::{article_main_html, document_html, section_main_html, standard_main_html};
use crate::text::{
    chars_of, join_texts, joined, lemma_trim_ends, same_chars, same_text, string_of_range, texts_of,
    trim_range, trimmed_of,
};

verus! {

// ---------------------------------------------------------------------------
// Options
// ---------------------------------------------------------------------------

/// Options of a build.
pub struct GeneratorOptions {
    pub output_directory: String,
}

/// The output directory the arguments choose, starting from `output`:
/// each `--output <dir>` sets it; a `--output` without a value, or any
/// other argument, is an error.
pub open spec fn options_from(args: Seq<Seq<char>>, output: Seq<char>) -> Result<Seq<char>, Seq<char>>
    decreases args.len(),
{
    if args.len() == 0 {
        Ok(output)
    } else if args[0] == "--output"@ {
        if args.len() >= 2 {
            options_from(args.skip(2), args[1])
        } else {
            Err("missing value for --output"@)
        }
    } else {
        Err("unsupported argument: "@ + args[0])
    }
}

impl GeneratorOptions {
    /// Reads the command-line arguments (without the program name); the
    /// output directory defaults to `dist`.
    pub fn parse(args: Vec<String>) -> (r: Result<GeneratorOptions, String>)
        ensures
            match options_from(texts_of(args@), "dist"@) {
                Ok(dir) => r matches Ok(options) && options.output_directory@ == dir,
                Err(message) => r matches Err(e) && e@ == message,
            },
    {
        let ghost all = texts_of(args@);
        let mut output_directory = String::from_str("dist");
        let mut index: usize = 0;
        let flag = chars_of("--output");
        assert(all.skip(0) =~= all);
        while index < args.len()
            invariant
                index <= args@.len(),
                all == texts_of(args@),
                flag@ == "--output"@,
                options_from(all, "dist"@) == options_from(all.skip(index as int), output_directory@),
            decreases args@.len() - index,
        {
            let ghost rest = all.skip(index as int);
            let arg = chars_of(args[index].as_str());
            if same_chars(arg.as_slice(), flag.as_slice()) {
                if index + 1 >= args.len() {
                    return Err(String::from_str("missing value for --output"));
                }
                output_directory = args[index + 1].clone();
                assert(rest.skip(2) =~= all.skip(index + 2));
                index = index + 2;
            } else {
                let mut message = String::from_str("unsupported argument: ");
                message.append(args[index].as_str());
                return Err(message);
            }
        }
        assert(all.skip(index as int) =~= Seq::<Seq<char>>::empty());
        Ok(GeneratorOptions { output_directory })
    }
}

// ---------------------------------------------------------------------------
// The generator
// ---------------------------------------------------------------------------

/// Where the generator reads and writes.
pub struct SiteGenerator {
    pub content_directory: String,
    pub static_directory: String,
    pub output_directory: String,
}

/// The path `child` joined onto `base`, as `Path::join` gives it.
pub uninterp spec fn joined_path(base: Seq<char>, child: Seq<char>) -> Seq<char>;

/// `base` joined with `child`.
///
/// Trusted: calls `std::path::Path::join` and converts the result to a
/// `String` (lossless, since both parts are `&str`). The result is named
/// `joined_path`, which depends on the two paths alone; the separator rules
/// of the standard library are not restated here.
#[verifier::external_body]
fn join_path(base: &str, child: &str) -> (r: String)
    ensures
        r@ == joined_path(base@, child@),
{
    std::path::Path::new(base).join(child).to_string_lossy().into_owned()
}

impl SiteGenerator {
    /// A generator for the project at `project_root` that reads `content/`
    /// and `static/` and writes into `output_directory`.
    pub fn new(project_root: &str, output_directory: String) -> (r: SiteGenerator)
        ensures
            r.content_directory@ == joined_path(project_root@, "content"@),
            r.static_directory@ == joined_path(project_root@, "static"@),
            r.output_directory@ == joined_path(project_root@, output_directory@),
    {
        SiteGenerator {
            content_directory: join_path(project_root, "content"),
            static_directory: join_path(project_root, "static"),
            output_directory: join_path(project_root, output_directory.as_str()),
        }
    }
}

// ---------------------------------------------------------------------------
// The site
// ---------------------------------------------------------------------------

/// The navigation entry of a page.
pub open spec fn nav_of_page(page: PageModel) -> NavigationItem {
    NavigationItem { title: page.title, path: page.path, order: page.order }
}

/// The navigation entry of a section.
pub open spec fn nav_of_section(section: SectionModel) -> NavigationItem {
    NavigationItem { title: section.title, path: section.path, order: section.order }
}

/// One navigation entry per page, then one per section.
pub open spec fn nav_entries(pages: Seq<PageModel>, sections: Seq<SectionModel>) -> Seq<NavigationItem> {
    pages.map_values(|p: PageModel| nav_of_page(p)) + sections.map_values(
        |s: SectionModel| nav_of_section(s),
    )
}

/// Whether a page is the home page (`content/index.md`).
pub open spec fn is_home(page: PageModel) -> bool {
    page.slug@ == "index"@
}

/// Position of the first home page.
pub open spec fn home_position(pages: Seq<PageModel>) -> Option<int>
    decreases pages.len(),
{
    if pages.len() == 0 {
        None
    } else if is_home(pages[0]) {
        Some(0)
    } else {
        match home_position(pages.drop_first()) {
            Some(k) => Some(k + 1),
            None => None,
        }
    }
}

pub proof fn lemma_home_position(pages: Seq<PageModel>)
    ensures
        home_position(pages) matches Some(k) ==> {
            &&& 0 <= k < pages.len()
            &&& is_home(pages[k])
            &&& forall|j: int| 0 <= j < k ==> !is_home(#[trigger] pages[j])
        },
        home_position(pages) is None ==> forall|j: int| 0 <= j < pages.len() ==> !is_home(#[trigger] pages[j]),
    decreases pages.len(),
{
    if pages.len() > 0 && !is_home(pages[0]) {
        lemma_home_position(pages.drop_first());
        assert forall|j: int| 0 < j < pages.len() implies pages[j] == pages.drop_first()[j - 1] by {}
    }
}

/// The tagline of the site.
pub open spec fn site_description() -> Seq<char> {
    "A small convention-based blog for pull request review demonstrations."@
}

/// The error when `content/index.md` is missing.
pub open spec fn missing_home_message() -> Seq<char> {
    "expected content/index.md to exist"@
}

/// The site built from its pages and sections.
pub open spec fn is_site_for(site: SiteModel, pages: Seq<PageModel>, sections: Seq<SectionModel>) -> bool {
    &&& is_stable_sort_of(site.pages@, pages)
    &&& is_stable_sort_of(site.sections@, sections)
    &&& is_stable_sort_of(site.navigation@, nav_entries(site.pages@, site.sections@))
    &&& home_position(site.pages@) matches Some(k) && site.home_page == site.pages@[k]
    &&& site.title == site.home_page.title
    &&& site.description@ == site_description()
}

/// Assembles the site from the pages and sections read from `content/`:
/// pages and sections in navigation order, the navigation, and the home
/// page. Fails when there is no `index` page.
pub fn assemble_site(pages: Vec<PageModel>, sections: Vec<SectionModel>) -> (r: Result<SiteModel, String>)
    ensures
        r is Ok <==> exists|i: int| 0 <= i < pages@.len() && is_home(#[trigger] pages@[i]),
        r matches Ok(site) ==> is_site_for(site, pages@, sections@),
        r matches Err(e) ==> e@ == missing_home_message(),
{
    let ghost input_pages = pages@;
    let pages = stable_sort(pages);
    let sections = stable_sort(sections);
    let ghost fp = |p: PageModel| nav_of_page(p);
    let ghost fs = |s: SectionModel| nav_of_section(s);
    let mut navigation: Vec<NavigationItem> = Vec::new();
    let mut i: usize = 0;
    while i < pages.len()
        invariant
            i <= pages@.len(),
            fp == (|p: PageModel| nav_of_page(p)),
            navigation@ == pages@.take(i as int).map_values(fp),
        decreases pages@.len() - i,
    {
        let item = NavigationItem {
            title: pages[i].title.clone(),
            path: pages[i].path.clone(),
            order: pages[i].order,
        };
        assert(item == fp(pages@[i as int]));
        navigation.push(item);
        assert(pages@.take(i + 1).map_values(fp) =~= pages@.take(i as int).map_values(fp).push(
            fp(pages@[i as int]),
        ));
        i = i + 1;
    }
    assert(pages@.take(pages@.len() as int) =~= pages@);
    let ghost page_items = navigation@;
    let mut j: usize = 0;
    while j < sections.len()
        invariant
            j <= sections@.len(),
            fs == (|s: SectionModel| nav_of_section(s)),
            navigation@ == page_items + sections@.take(j as int).map_values(fs),
        decreases sections@.len() - j,
    {
        let item = NavigationItem {
            title: sections[j].title.clone(),
            path: sections[j].path.clone(),
            order: sections[j].order,
        };
        assert(item == fs(sections@[j as int]));
        navigation.push(item);
        assert(sections@.take(j + 1).map_values(fs) =~= sections@.take(j as int).map_values(
            fs,
        ).push(fs(sections@[j as int])));
        assert(page_items + sections@.take(j + 1).map_values(fs) =~= (page_items + sections@.take(
            j as int,
        ).map_values(fs)).push(fs(sections@[j as int])));
        j = j + 1;
    }
    assert(sections@.take(sections@.len() as int) =~= sections@);
    assert(navigation@ == nav_entries(pages@, sections@));
    let navigation = stable_sort(navigation);
    let mut k: usize = 0;
    while k < pages.len() && !same_text(pages[k].slug.as_str(), "index")
        invariant
            k <= pages@.len(),
            forall|m: int| 0 <= m < k ==> !is_home(#[trigger] pages@[m]),
        decreases pages@.len() - k,
    {
        k = k + 1;
    }
    proof {
        lemma_home_position(pages@);
        broadcast use vstd::seq_lib::group_to_multiset_ensures;
    }
    if k == pages.len() {
        proof {
            assert forall|m: int| 0 <= m < input_pages.len() implies !is_home(#[trigger] input_pages[m]) by {
                let p = input_pages[m];
                assert(input_pages.contains(p));
                assert(input_pages.to_multiset().count(p) > 0);
                assert(pages@.to_multiset().count(p) > 0);
                assert(pages@.contains(p));
            }
        }
        return Err(String::from_str("expected content/index.md to exist"));
    }
    proof {
        match home_position(pages@) {
            Some(h) => {
                if h < k {
                    assert(!is_home(pages@[h]));
                }
                if k < h {
                    assert(!is_home(pages@[k as int]));
                }
            },
            None => {},
        }
        let p = pages@[k as int];
        assert(pages@.contains(p));
        assert(pages@.to_multiset().count(p) > 0);
        assert(input_pages.to_multiset().count(p) > 0);
        assert(input_pages.contains(p));
    }
    let home_page = pages[k].duplicate();
    let title = home_page.title.clone();
    Ok(SiteModel {
        title,
        description: String::from_str(
            "A small convention-based blog for pull request review demonstrations.",
        ),
        navigation,
        home_page,
        pages,
        sections,
    })
}

// ---------------------------------------------------------------------------
// Routes
// ---------------------------------------------------------------------------

/// One HTML document a build writes, with the route it is served under.
pub struct RenderedPage {
    pub route: String,
    pub html: String,
}

/// The document of a standalone page.
pub open spec fn standard_document(site: SiteModel, page: PageModel) -> Seq<char> {
    document_html(site, page.title@, page.description@, page.path@, standard_main_html(page))
}

/// The document of a section.
pub open spec fn section_document(site: SiteModel, section: SectionModel) -> Seq<char> {
    document_html(site, section.title@, section.description@, section.path@, section_main_html(section))
}

/// The document of an article.
pub open spec fn article_document(site: SiteModel, section: SectionModel, article: ArticleModel) -> Seq<char> {
    document_html(
        site,
        article.title@,
        article.description@,
        article.path@,
        article_main_html(section, article),
    )
}

/// Route and document of each rendered page.
pub open spec fn outputs_of(pages: Seq<RenderedPage>) -> Seq<(Seq<char>, Seq<char>)> {
    pages.map_values(|p: RenderedPage| (p.route@, p.html@))
}

/// The routes of the standalone pages other than the home page, in order.
pub open spec fn page_routes(site: SiteModel, pages: Seq<PageModel>) -> Seq<(Seq<char>, Seq<char>)>
    decreases pages.len(),
{
    if pages.len() == 0 {
        Seq::empty()
    } else {
        let rest = page_routes(site, pages.drop_last());
        if is_home(pages.last()) {
            rest
        } else {
            rest.push((pages.last().path@, standard_document(site, pages.last())))
        }
    }
}

/// The route of an article of `section`.
pub open spec fn article_output(site: SiteModel, section: SectionModel, article: ArticleModel) -> (Seq<char>, Seq<char>) {
    (article.path@, article_document(site, section, article))
}

/// A section's route, then its articles' routes.
pub open spec fn section_routes(site: SiteModel, section: SectionModel) -> Seq<(Seq<char>, Seq<char>)> {
    seq![(section.path@, section_document(site, section))] + section.articles@.map_values(
        |a: ArticleModel| article_output(site, section, a),
    )
}

/// Every route a build writes: the home page at `/`, each other page, then
/// each section followed by its articles.
pub open spec fn site_routes(site: SiteModel) -> Seq<(Seq<char>, Seq<char>)> {
    seq![("/"@, standard_document(site, site.home_page))] + page_routes(site, site.pages@)
        + site.sections@.map_values(|s: SectionModel| section_routes(site, s)).flatten()
}

impl SiteGenerator {
    /// Renders every document of the site, each with its route, in the
    /// order a build writes them.
    pub fn render_routes(&self, site: &SiteModel) -> (r: Vec<RenderedPage>)
        ensures
            outputs_of(r@) == site_routes(*site),
    {
        let mut out: Vec<RenderedPage> = Vec::new();
        let home = self.render_standard_page(site, &site.home_page);
        out.push(RenderedPage { route: String::from_str("/"), html: home });
        let ghost first = outputs_of(out@);
        assert(first =~= seq![("/"@, standard_document(*site, site.home_page))]);
        let mut i: usize = 0;
        assert(site.pages@.take(0) =~= Seq::<PageModel>::empty());
        while i < site.pages.len()
            invariant
                i <= site.pages@.len(),
                outputs_of(out@) == first + page_routes(*site, site.pages@.take(i as int)),
            decreases site.pages@.len() - i,
        {
            let page = &site.pages[i];
            assert(site.pages@.take(i + 1).drop_last() =~= site.pages@.take(i as int));
            if !same_text(page.slug.as_str(), "index") {
                let html = self.render_standard_page(site, page);
                let ghost before = outputs_of(out@);
                out.push(RenderedPage { route: page.path.clone(), html });
                assert(outputs_of(out@) =~= before.push((page.path@, standard_document(*site, *page))));
            }
            i = i + 1;
        }
        assert(site.pages@.take(site.pages@.len() as int) =~= site.pages@);
        let ghost pages_done = outputs_of(out@);
        let ghost fs = |s: SectionModel| section_routes(*site, s);
        let mut j: usize = 0;
        while j < site.sections.len()
            invariant
                j <= site.sections@.len(),
                fs == (|s: SectionModel| section_routes(*site, s)),
                outputs_of(out@) == pages_done + site.sections@.take(j as int).map_values(fs).flatten(),
            decreases site.sections@.len() - j,
        {
            let section = &site.sections[j];
            let ghost start = outputs_of(out@);
            let html = self.render_section_page(site, section);
            out.push(RenderedPage { route: section.path.clone(), html });
            let ghost fa = |a: ArticleModel| article_output(*site, *section, a);
            let mut k: usize = 0;
            assert(outputs_of(out@) =~= start + seq![(section.path@, section_document(*site, *section))]);
            assert(section.articles@.take(0).map_values(fa) =~= Seq::<(Seq<char>, Seq<char>)>::empty());
            while k < section.articles.len()
                invariant
                    k <= section.articles@.len(),
                    fa == (|a: ArticleModel| article_output(*site, *section, a)),
                    outputs_of(out@) == start + seq![(section.path@, section_document(*site, *section))]
                        + section.articles@.take(k as int).map_values(fa),
                decreases section.articles@.len() - k,
            {
                let article = &section.articles[k];
                let html = self.render_article_page(site, section, article);
                let ghost before = outputs_of(out@);
                out.push(RenderedPage { route: article.path.clone(), html });
                assert(section.articles@.take(k + 1).map_values(fa) =~= section.articles@.take(
                    k as int,
                ).map_values(fa).push(fa(section.articles@[k as int])));
                assert(outputs_of(out@) =~= before.push(fa(*article)));
                k = k + 1;
            }
            assert(section.articles@.take(section.articles@.len() as int) =~= section.articles@);
            proof {
                assert(site.sections@.take(j + 1).map_values(fs) =~= site.sections@.take(
                    j as int,
                ).map_values(fs).push(fs(*section)));
                site.sections@.take(j as int).map_values(fs).lemma_flatten_push(fs(*section));
                assert(outputs_of(out@) =~= pages_done + site.sections@.take(j + 1).map_values(
                    fs,
                ).flatten());
            }
            j = j + 1;
        }
        assert(site.sections@.take(site.sections@.len() as int) =~= site.sections@);
        out
    }
}

/// The output directory of a route, relative to the site root: nothing for
/// `/`, else the route without its leading and trailing slashes.
pub open spec fn route_directory_of(route_path: Seq<char>) -> Seq<char> {
    if route_path == "/"@ {
        Seq::empty()
    } else {
        trimmed_of(route_path, '/')
    }
}

/// The directory, relative to the output directory, that a route's
/// `index.html` is written into.
pub fn route_directory(route_path: &str) -> (r: String)
    ensures
        r@ == route_directory_of(route_path@),
{
    if same_text(route_path, "/") {
        return String::new();
    }
    let v = chars_of(route_path);
    let (a, b) = trim_range(v.as_slice(), 0, v.len(), Some('/'));
    assert(v@.subrange(0, v@.len() as int) =~= v@);
    string_of_range(v.as_slice(), a, b)
}

// ---------------------------------------------------------------------------
// Article export
// ---------------------------------------------------------------------------

/// An article's export line: title, a tab, summary.
pub open spec fn export_line(article: ArticleModel) -> Seq<char> {
    article.title@ + "\t"@ + article.summary@
}

/// The export lines of every article, section by section.
pub open spec fn export_lines(sections: Seq<SectionModel>) -> Seq<Seq<char>> {
    sections.map_values(
        |s: SectionModel| s.articles@.map_values(|a: ArticleModel| export_line(a)),
    ).flatten()
}

/// The article export: one line per article.
pub open spec fn export_text(site: SiteModel) -> Seq<char> {
    joined(export_lines(site.sections@), "\n"@)
}

/// The text of the article export.
pub fn article_export(site: &SiteModel) -> (r: String)
    ensures
        r@ == export_text(*site),
{
    let ghost fs = |s: SectionModel| s.articles@.map_values(|a: ArticleModel| export_line(a));
    let mut lines: Vec<String> = Vec::new();
    let mut j: usize = 0;
    while j < site.sections.len()
        invariant
            j <= site.sections@.len(),
            fs == (|s: SectionModel| s.articles@.map_values(|a: ArticleModel| export_line(a))),
            texts_of(lines@) == site.sections@.take(j as int).map_values(fs).flatten(),
        decreases site.sections@.len() - j,
    {
        let section = &site.sections[j];
        let ghost start = texts_of(lines@);
        let ghost fa = |a: ArticleModel| export_line(a);
        let mut k: usize = 0;
        assert(section.articles@.take(0).map_values(fa) =~= Seq::<Seq<char>>::empty());
        while k < section.articles.len()
            invariant
                k <= section.articles@.len(),
                fa == (|a: ArticleModel| export_line(a)),
                texts_of(lines@) == start + section.articles@.take(k as int).map_values(fa),
            decreases section.articles@.len() - k,
        {
            let article = &section.articles[k];
            let mut line = article.title.clone();
            line.append("\t");
            line.append(article.summary.as_str());
            let ghost before = texts_of(lines@);
            lines.push(line);
            assert(texts_of(lines@) =~= before.push(fa(*article)));
            assert(section.articles@.take(k + 1).map_values(fa) =~= section.articles@.take(
                k as int,
            ).map_values(fa).push(fa(section.articles@[k as int])));
            k = k + 1;
        }
        assert(section.articles@.take(section.articles@.len() as int) =~= section.articles@);
        proof {
            assert(fs(*section) =~= section.articles@.map_values(fa));
            assert(site.sections@.take(j + 1).map_values(fs) =~= site.sections@.take(
                j as int,
            ).map_values(fs).push(fs(*section)));
            site.sections@.take(j as int).map_values(fs).lemma_flatten_push(fs(*section));
        }
        j = j + 1;
    }
    assert(site.sections@.take(site.sections@.len() as int) =~= site.sections@);
    join_texts(&lines, "\n")
}

// ---------------------------------------------------------------------------
// Laws
// ---------------------------------------------------------------------------

/// The navigation has one entry for each page and each section, and no
/// other entries.
pub proof fn lemma_navigation_complete(site: SiteModel, pages: Seq<PageModel>, sections: Seq<SectionModel>)
    requires
        is_site_for(site, pages, sections),
    ensures
        site.navigation@.len() == pages.len() + sections.len(),
        forall|i: int| 0 <= i < site.pages@.len() ==> site.navigation@.contains(
            nav_of_page(#[trigger] site.pages@[i]),
        ),
        forall|i: int| 0 <= i < site.sections@.len() ==> site.navigation@.contains(
            nav_of_section(#[trigger] site.sections@[i]),
        ),
        forall|n: NavigationItem| #[trigger] site.navigation@.contains(n) ==> nav_entries(
            site.pages@,
            site.sections@,
        ).contains(n),
{
    broadcast use vstd::seq_lib::group_to_multiset_ensures;

    let entries = nav_entries(site.pages@, site.sections@);
    let pm = site.pages@.map_values(|p: PageModel| nav_of_page(p));
    let sm = site.sections@.map_values(|s: SectionModel| nav_of_section(s));
    assert(site.navigation@.len() == site.navigation@.to_multiset().len());
    assert(entries.len() == entries.to_multiset().len());
    assert(site.pages@.len() == site.pages@.to_multiset().len());
    assert(pages.len() == pages.to_multiset().len());
    assert(site.sections@.len() == site.sections@.to_multiset().len());
    assert(sections.len() == sections.to_multiset().len());
    assert forall|i: int| 0 <= i < site.pages@.len() implies site.navigation@.contains(
        nav_of_page(#[trigger] site.pages@[i]),
    ) by {
        let n = nav_of_page(site.pages@[i]);
        assert(entries[i] == n);
        assert(entries.contains(n));
        assert(entries.to_multiset().count(n) > 0);
    }
    assert forall|i: int| 0 <= i < site.sections@.len() implies site.navigation@.contains(
        nav_of_section(#[trigger] site.sections@[i]),
    ) by {
        let n = nav_of_section(site.sections@[i]);
        assert(entries[pm.len() + i] == n);
        assert(entries.contains(n));
        assert(entries.to_multiset().count(n) > 0);
    }
    assert forall|n: NavigationItem| #[trigger] site.navigation@.contains(n) implies entries.contains(n) by {
        assert(site.navigation@.to_multiset().count(n) > 0);
    }
}

proof fn lemma_flatten_contains<A>(xs: Seq<Seq<A>>, k: int, j: int)
    requires
        0 <= k < xs.len(),
        0 <= j < xs[k].len(),
    ensures
        xs.flatten().contains(xs[k][j]),
    decreases xs.len(),
{
    let rest = xs.drop_first().flatten();
    assert(xs.flatten() == xs[0] + rest);
    if k == 0 {
        assert((xs[0] + rest)[j] == xs[0][j]);
    } else {
        lemma_flatten_contains(xs.drop_first(), k - 1, j);
        let m = choose|m: int| 0 <= m < rest.len() && rest[m] == xs[k][j];
        assert((xs[0] + rest)[xs[0].len() + m] == rest[m]);
    }
}

proof fn lemma_page_routes_contains(site: SiteModel, pages: Seq<PageModel>, i: int)
    requires
        0 <= i < pages.len(),
        !is_home(pages[i]),
    ensures
        page_routes(site, pages).contains((pages[i].path@, standard_document(site, pages[i]))),
    decreases pages.len(),
{
    let rest = page_routes(site, pages.drop_last());
    if i == pages.len() - 1 {
        assert(page_routes(site, pages) == rest.push((pages[i].path@, standard_document(site, pages[i]))));
        assert(page_routes(site, pages)[rest.len() as int] == (pages[i].path@, standard_document(site, pages[i])));
    } else {
        lemma_page_routes_contains(site, pages.drop_last(), i);
        assert(pages.drop_last()[i] == pages[i]);
        let m = choose|m: int| 0 <= m < rest.len() && rest[m] == (pages[i].path@, standard_document(site, pages[i]));
        if is_home(pages.last()) {
        } else {
            assert(page_routes(site, pages)[m] == rest[m]);
        }
    }
}

/// A build writes the home page at `/`, every other page, every section
/// and every article of every section.
pub proof fn lemma_every_document_routed(site: SiteModel)
    ensures
        site_routes(site)[0] == ("/"@, standard_document(site, site.home_page)),
        forall|i: int| 0 <= i < site.pages@.len() && !is_home(#[trigger] site.pages@[i]) ==> site_routes(
            site,
        ).contains((site.pages@[i].path@, standard_document(site, site.pages@[i]))),
        forall|i: int| 0 <= i < site.sections@.len() ==> site_routes(site).contains(
            (site.sections@[i].path@, section_document(site, #[trigger] site.sections@[i])),
        ),
        forall|i: int, j: int|
            0 <= i < site.sections@.len() && 0 <= j < site.sections@[i].articles@.len()
                ==> site_routes(site).contains(
                article_output(site, site.sections@[i], #[trigger] site.sections@[i].articles@[j]),
            ),
{
    let head = seq![("/"@, standard_document(site, site.home_page))];
    let pr = page_routes(site, site.pages@);
    let xs = site.sections@.map_values(|s: SectionModel| section_routes(site, s));
    let sr = xs.flatten();
    assert(site_routes(site) == head + pr + sr);
    assert((head + pr + sr)[0] == head[0]);
    assert forall|i: int| 0 <= i < site.pages@.len() && !is_home(#[trigger] site.pages@[i]) implies site_routes(
        site,
    ).contains((site.pages@[i].path@, standard_document(site, site.pages@[i]))) by {
        lemma_page_routes_contains(site, site.pages@, i);
        let m = choose|m: int| 0 <= m < pr.len() && pr[m] == (site.pages@[i].path@, standard_document(site, site.pages@[i]));
        assert((head + pr + sr)[1 + m] == pr[m]);
    }
    assert forall|i: int| 0 <= i < site.sections@.len() implies site_routes(site).contains(
        (site.sections@[i].path@, section_document(site, #[trigger] site.sections@[i])),
    ) by {
        assert(xs[i][0] == (site.sections@[i].path@, section_document(site, site.sections@[i])));
        lemma_flatten_contains(xs, i, 0);
        let m = choose|m: int| 0 <= m < sr.len() && sr[m] == xs[i][0];
        assert((head + pr + sr)[1 + pr.len() + m] == sr[m]);
    }
    assert forall|i: int, j: int|
        0 <= i < site.sections@.len() && 0 <= j < site.sections@[i].articles@.len() implies site_routes(
        site,
    ).contains(article_output(site, site.sections@[i], #[trigger] site.sections@[i].articles@[j])) by {
        let s = site.sections@[i];
        assert(xs[i][1 + j] == article_output(site, s, s.articles@[j]));
        lemma_flatten_contains(xs, i, 1 + j);
        let m = choose|m: int| 0 <= m < sr.len() && sr[m] == xs[i][1 + j];
        assert((head + pr + sr)[1 + pr.len() + m] == sr[m]);
    }
}

/// A route's output directory neither begins nor ends with `/`, so it is
/// always taken relative to the output directory.
pub proof fn lemma_route_directory_relative(route_path: Seq<char>)
    ensures
        route_directory_of(route_path).len() > 0 ==> route_directory_of(route_path)[0] != '/'
            && route_directory_of(route_path).last() != '/',
{
    lemma_trim_ends(route_path, Some('/'));
}


/// `n` links to `path` under `title` and is listed by `order`.
pub open spec fn entry_for(n: NavigationItem, title: String, path: String, order: Option<i32>) -> bool {
    n.title == title && n.path == path && n.order == order
}

/// Every page and every section has a navigation entry with its own title,
/// path and order number; the navigation is listed by order number (an
/// entry without one comes last), then by the title's bytes.
pub proof fn lemma_navigation_entries(site: SiteModel, pages: Seq<PageModel>, sections: Seq<SectionModel>)
    requires
        is_site_for(site, pages, sections),
    ensures
        forall|i: int| #![trigger site.pages@[i]] 0 <= i < site.pages@.len() ==> exists|j: int|
            0 <= j < site.navigation@.len() && #[trigger] entry_for(
                site.navigation@[j],
                site.pages@[i].title,
                site.pages@[i].path,
                site.pages@[i].order,
            ),
        forall|i: int| #![trigger site.sections@[i]] 0 <= i < site.sections@.len() ==> exists|j: int|
            0 <= j < site.navigation@.len() && #[trigger] entry_for(
                site.navigation@[j],
                site.sections@[i].title,
                site.sections@[i].path,
                site.sections@[i].order,
            ),
        forall|i: int, j: int|
            0 <= i < j < site.navigation@.len() ==> order_value(#[trigger] site.navigation@[i].order)
                <= order_value(#[trigger] site.navigation@[j].order),
        forall|i: int, j: int|
            0 <= i < j < site.navigation@.len() && order_value(site.navigation@[i].order)
                == order_value(site.navigation@[j].order) ==> byte_precedence(
                vstd::utf8::encode_utf8((#[trigger] site.navigation@[i]).title@),
                vstd::utf8::encode_utf8((#[trigger] site.navigation@[j]).title@),
            ) != Precedence::After,
{
    lemma_navigation_complete(site, pages, sections);
    let nav = site.navigation@;
    assert forall|i: int| #![trigger site.pages@[i]] 0 <= i < site.pages@.len() implies exists|j: int|
        0 <= j < nav.len() && #[trigger] entry_for(
            nav[j],
            site.pages@[i].title,
            site.pages@[i].path,
            site.pages@[i].order,
        ) by {
        let n = nav_of_page(site.pages@[i]);
        assert(nav.contains(n));
        let j = choose|j: int| 0 <= j < nav.len() && nav[j] == n;
        assert(entry_for(nav[j], site.pages@[i].title, site.pages@[i].path, site.pages@[i].order));
    }
    assert forall|i: int| #![trigger site.sections@[i]] 0 <= i < site.sections@.len() implies exists|j: int|
        0 <= j < nav.len() && #[trigger] entry_for(
            nav[j],
            site.sections@[i].title,
            site.sections@[i].path,
            site.sections@[i].order,
        ) by {
        let n = nav_of_section(site.sections@[i]);
        assert(nav.contains(n));
        let j = choose|j: int| 0 <= j < nav.len() && nav[j] == n;
        assert(entry_for(
            nav[j],
            site.sections@[i].title,
            site.sections@[i].path,
            site.sections@[i].order,
        ));
    }
    assert forall|i: int, j: int| 0 <= i < j < nav.len() implies order_value(
        #[trigger] nav[i].order,
    ) <= order_value(#[trigger] nav[j].order) && (order_value(nav[i].order) == order_value(
        nav[j].order,
    ) ==> byte_precedence(
        vstd::utf8::encode_utf8(nav[i].title@),
        vstd::utf8::encode_utf8(nav[j].title@),
    ) != Precedence::After) by {
        assert(crate::rank::rank_precedence(nav[i].rank(), nav[j].rank()) != Precedence::After);
    }
}

} // verus!
