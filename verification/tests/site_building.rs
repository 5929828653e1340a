use static_blog::model::{ArticleModel, NavigationItem, PageModel, SectionModel, SiteModel};
use static_blog::pages::{article_from_markdown, page_from_markdown};
use static_blog::render::{render_article_header, render_article_meta, render_panel_description};
use static_blog::site::{article_export, assemble_site, SiteGenerator};

fn generator() -> SiteGenerator {
    SiteGenerator::new("/project", String::from("dist"))
}

fn sample_site() -> SiteModel {
    let home = page_from_markdown("index", "---\ntitle: Demo Blog\n---\nWelcome");
    let about = page_from_markdown("about", "---\norder: 2\n---\nAbout text");
    let blog_posts = vec![
        article_from_markdown("blog", "b", "---\ntitle: B\nsummary: Sb\n---\nbody b"),
        article_from_markdown("blog", "a", "---\ntitle: A <1>\ndate: 2024-01-01\nsummary: Sa\n---\nbody a"),
    ];
    let blog = generator().build_section("blog", "---\ntitle: Blog\norder: 1\n---\nPosts", blog_posts);
    let notes = generator().build_section("notes", "Notes", Vec::new());
    assemble_site(vec![about, home], vec![notes, blog]).ok().unwrap()
}

#[test]
fn assemble_site_requires_an_index_page() {
    let about = page_from_markdown("about", "x");
    assert_eq!(
        assemble_site(vec![about], Vec::new()).err().unwrap(),
        "expected content/index.md to exist"
    );
}

#[test]
fn assemble_site_orders_pages_sections_and_navigation() {
    let site = sample_site();
    assert_eq!(site.title, "Demo Blog");
    assert_eq!(site.home_page.path, "/");
    assert_eq!(
        site.description,
        "A small convention-based blog for pull request review demonstrations."
    );
    let pages: Vec<&str> = site.pages.iter().map(|p| p.slug.as_str()).collect();
    assert_eq!(pages, vec!["about", "index"]);
    let sections: Vec<&str> = site.sections.iter().map(|s| s.path.as_str()).collect();
    assert_eq!(sections, vec!["/blog/", "/notes/"]);
    let nav: Vec<(&str, &str)> =
        site.navigation.iter().map(|n| (n.title.as_str(), n.path.as_str())).collect();
    assert_eq!(
        nav,
        vec![("Blog", "/blog/"), ("About", "/about/"), ("Demo Blog", "/"), ("Notes", "/notes/")]
    );
}

#[test]
fn navigation_lists_every_page_and_section_once() {
    let site = sample_site();
    assert_eq!(site.navigation.len(), site.pages.len() + site.sections.len());
    for page in &site.pages {
        assert_eq!(site.navigation.iter().filter(|n| n.path == page.path).count(), 1);
    }
}

#[test]
fn render_routes_writes_every_document_in_order() {
    let site = sample_site();
    let routes = generator().render_routes(&site);
    let paths: Vec<&str> = routes.iter().map(|r| r.route.as_str()).collect();
    assert_eq!(paths, vec!["/", "/about/", "/blog/", "/blog/a/", "/blog/b/", "/notes/"]);
    assert_eq!(routes[0].html, generator().render_standard_page(&site, &site.home_page));
    assert_eq!(
        routes[3].html,
        generator().render_article_page(&site, &site.sections[0], &site.sections[0].articles[0])
    );
}

#[test]
fn article_export_lists_title_and_summary() {
    let site = sample_site();
    assert_eq!(article_export(&site), "A <1>\tSa\nB\tSb");
}

fn bare_site(navigation: Vec<NavigationItem>) -> SiteModel {
    let home = page_from_markdown("index", "---\ntitle: Home\n---\n");
    SiteModel {
        title: String::from("Home"),
        description: String::from("D & co"),
        navigation,
        home_page: home,
        pages: Vec::new(),
        sections: Vec::new(),
    }
}

#[test]
fn render_document_frames_the_content() {
    let site = bare_site(vec![
        NavigationItem { title: String::from("Home"), path: String::from("/"), order: None },
        NavigationItem { title: String::from("About <us>"), path: String::from("/about/"), order: None },
    ]);
    let html = generator().render_document(&site, "About", "desc <x>", "/about/", String::from("MAIN"));
    let expected = [
        "<!DOCTYPE html><html lang=\"en\"><head><meta charset=\"utf-8\">",
        "<meta name=\"viewport\" content=\"width=device-width, initial-scale=1\">",
        "<title>About | Home</title><meta name=\"description\" content=\"desc &lt;x&gt;\">",
        "<link rel=\"stylesheet\" href=\"/styles.css\"></head><body><div class=\"app-shell\">",
        "<header class=\"site-header\"><div><a class=\"site-title\" href=\"/\">Home</a>",
        "<p class=\"site-tagline\">D &amp; co</p></div>",
        "<nav class=\"site-nav\" aria-label=\"Primary navigation\">",
        "<a class=\"nav-link\" href=\"/\">Home</a>\n",
        "<a class=\"nav-link nav-link-active\" href=\"/about/\">About &lt;us&gt;</a>",
        "</nav></header><main>MAIN</main></div></body></html>",
    ]
    .concat();
    assert_eq!(html, expected);
}

#[test]
fn render_document_on_root_uses_site_title() {
    let site = bare_site(Vec::new());
    let html = generator().render_document(&site, "Ignored", "", "/", String::new());
    assert!(html.contains("<title>Home</title>"));
    assert!(html.contains("<nav class=\"site-nav\" aria-label=\"Primary navigation\"></nav>"));
}

#[test]
fn render_standard_page_with_description() {
    let site = bare_site(Vec::new());
    let page = PageModel {
        slug: String::from("x"),
        path: String::from("/x/"),
        title: String::from("X"),
        description: String::from("line one\nline two"),
        order: None,
        html: String::from("<p>hi</p>"),
    };
    let html = generator().render_standard_page(&site, &page);
    assert!(html.contains(&[
        "<main><article class=\"panel stack-gap\"><header class=\"panel-header\"><p>line one\nline two</p></header>",
        "<div class=\"markdown\"><p>hi</p></div></article></main>"
    ].concat()));
}

fn one_article(date: Option<&str>, description: &str) -> ArticleModel {
    ArticleModel {
        path: String::from("/blog/p/"),
        title: String::from("P & Q"),
        description: description.to_string(),
        summary: String::from("<sum>"),
        date_display: date.map(String::from),
        date_sort_key: date.map(String::from),
        order: None,
        html: String::from("<p>body</p>"),
    }
}

#[test]
fn article_meta_covers_each_case() {
    assert_eq!(render_article_meta(&one_article(Some("2024"), "D<")), "<span>2024</span><span>D&lt;</span>");
    assert_eq!(render_article_meta(&one_article(Some("2024"), "")), "<span>2024</span>");
    assert_eq!(render_article_meta(&one_article(None, "D")), "D");
    assert_eq!(render_article_meta(&one_article(None, "")), "");
}

#[test]
fn article_header_wraps_nonempty_meta() {
    assert_eq!(render_article_header(&one_article(None, "")), "");
    assert_eq!(
        render_article_header(&one_article(None, "D")),
        "<header class=\"panel-header\"><p>D</p></header>"
    );
}

#[test]
fn panel_description_is_escaped() {
    assert_eq!(render_panel_description(""), "");
    assert_eq!(
        render_panel_description("a'b"),
        "<header class=\"panel-header\"><p>a&#39;b</p></header>"
    );
}

#[test]
fn section_page_lists_article_cards() {
    let site = bare_site(Vec::new());
    let section = SectionModel {
        path: String::from("/blog/"),
        title: String::from("Blog"),
        description: String::new(),
        order: None,
        html: String::from("<p>Posts</p>"),
        articles: vec![one_article(Some("2024"), "")],
    };
    let html = generator().render_section_page(&site, &section);
    assert!(html.contains(&[
        "<main><article class=\"panel stack-gap\"><div class=\"markdown\"><p>Posts</p></div>",
        "<section class=\"stack-gap\" aria-labelledby=\"articles-heading\"><h2 id=\"articles-heading\">Articles</h2>",
        "<div class=\"article-list\"><article class=\"article-card\"><div class=\"article-card-meta\"><span>2024</span></div>",
        "<h2><a href=\"/blog/p/\">P &amp; Q</a></h2><p>&lt;sum&gt;</p></article></div></section></article></main>"
    ].concat()));
    let empty = SectionModel { articles: Vec::new(), ..section };
    let html = generator().render_section_page(&site, &empty);
    assert!(html.contains("<main><article class=\"panel stack-gap\"><div class=\"markdown\"><p>Posts</p></div></article></main>"));
}

#[test]
fn article_page_links_back_to_section() {
    let site = bare_site(Vec::new());
    let section = SectionModel {
        path: String::from("/blog/"),
        title: String::from("Blog & more"),
        description: String::new(),
        order: None,
        html: String::new(),
        articles: Vec::new(),
    };
    let html = generator().render_article_page(&site, &section, &one_article(None, ""));
    assert!(html.contains(&[
        "<main><article class=\"panel stack-gap\"><a class=\"back-link\" href=\"/blog/\">Back to Blog &amp; more</a>",
        "<div class=\"markdown\"><p>body</p></div></article></main>"
    ].concat()));
    assert!(html.contains("<title>P &amp; Q | Home</title>"));
}
