use static_blog::model::ArticleModel;
use static_blog::pages::{
    article_from_markdown, is_article_entry, is_page_entry, page_from_markdown, section_slug,
    section_slug_from_name, slug_from_path, slug_from_stem, title_from_slug,
};
use static_blog::site::SiteGenerator;

fn generator() -> SiteGenerator {
    SiteGenerator::new("/project", String::from("dist"))
}

#[test]
fn title_from_slug_capitalizes_words() {
    assert_eq!(title_from_slug("index"), "Home");
    assert_eq!(title_from_slug("getting-started"), "Getting Started");
    assert_eq!(title_from_slug("a--b-"), "A B");
    assert_eq!(title_from_slug("already-Up"), "Already Up");
    assert_eq!(title_from_slug("élan-vital"), "élan Vital");
    assert_eq!(title_from_slug(""), "");
    assert_eq!(title_from_slug("---"), "");
}

#[test]
fn slug_from_path_takes_the_file_stem() {
    assert_eq!(slug_from_path("content/about.md"), Ok(String::from("about")));
    assert_eq!(slug_from_path("content/blog/first-post.md"), Ok(String::from("first-post")));
    assert_eq!(slug_from_path("archive.tar.gz"), Ok(String::from("archive.tar")));
    assert_eq!(slug_from_path(""), Err(String::from("missing file stem for ")));
    assert_eq!(slug_from_path("content/.."), Err(String::from("missing file stem for content/..")));
}

#[test]
fn slug_from_stem_maps_missing_stem_to_error() {
    assert_eq!(slug_from_stem("x/y.md", Some(String::from("y"))), Ok(String::from("y")));
    assert_eq!(slug_from_stem("/", None), Err(String::from("missing file stem for /")));
}

#[test]
fn page_entries_and_article_entries() {
    assert!(is_page_entry(true, "about.md"));
    assert!(!is_page_entry(true, "_draft.md"));
    assert!(!is_page_entry(true, "notes.txt"));
    assert!(!is_page_entry(false, "dir.md"));
    assert!(is_article_entry(true, "post.md"));
    assert!(is_article_entry(true, "_other.md"));
    assert!(!is_article_entry(true, "_index.md"));
    assert!(!is_article_entry(false, "post.md"));
}

#[test]
fn index_page_is_served_at_root() {
    let page = page_from_markdown("index", "Welcome");
    assert_eq!(page.path, "/");
    assert_eq!(page.title, "Home");
    assert_eq!(page.html, "<p>Welcome</p>");
    assert_eq!(page.description, "");
    assert_eq!(page.order, None);
}

#[test]
fn named_page_is_served_under_its_slug() {
    let page = page_from_markdown("about-us", "---\ndescription: Who we are\norder: 2\n---\n# About\n");
    assert_eq!(page.slug, "about-us");
    assert_eq!(page.path, "/about-us/");
    assert_eq!(page.title, "About Us");
    assert_eq!(page.description, "Who we are");
    assert_eq!(page.order, Some(2));
    assert_eq!(page.html, "<h1>About</h1>");
}

#[test]
fn build_page_uses_the_path_stem() {
    let page = generator().build_page("content/contact.md", "---\ntitle: Reach us\n---\nMail").unwrap();
    assert_eq!(page.path, "/contact/");
    assert_eq!(page.title, "Reach us");
    assert_eq!(page.html, "<p>Mail</p>");
    assert!(generator().build_page("", "x").is_err());
}

#[test]
fn article_summary_defaults_to_description() {
    let article = article_from_markdown("blog", "first-post", "---\ndescription: Intro\ndate: 2024-05-01\n---\nHi");
    assert_eq!(article.path, "/blog/first-post/");
    assert_eq!(article.title, "First Post");
    assert_eq!(article.description, "Intro");
    assert_eq!(article.summary, "Intro");
    assert_eq!(article.date_display.as_deref(), Some("2024-05-01"));
    assert_eq!(article.date_sort_key.as_deref(), Some("2024-05-01"));
    assert_eq!(article.html, "<p>Hi</p>");
}

#[test]
fn build_article_with_explicit_summary() {
    let article: ArticleModel = generator()
        .build_article("notes", "content/notes/x.md", "---\ntitle: X\nsummary: S\n---\n")
        .unwrap();
    assert_eq!(article.path, "/notes/x/");
    assert_eq!(article.summary, "S");
    assert_eq!(article.description, "");
    assert_eq!(article.html, "");
}

#[test]
fn build_section_sorts_articles_newest_first() {
    let a = article_from_markdown("blog", "old", "---\ndate: 2023-01-01\n---\n");
    let b = article_from_markdown("blog", "undated", "no date");
    let c = article_from_markdown("blog", "new", "---\ndate: 2024-01-01\n---\n");
    let section = generator().build_section("blog", "---\ntitle: Blog\n---\nAll posts", vec![a, b, c]);
    assert_eq!(section.path, "/blog/");
    assert_eq!(section.title, "Blog");
    assert_eq!(section.html, "<p>All posts</p>");
    let paths: Vec<&str> = section.articles.iter().map(|x| x.path.as_str()).collect();
    assert_eq!(paths, vec!["/blog/new/", "/blog/old/", "/blog/undated/"]);
}

#[test]
fn section_slug_is_the_directory_name() {
    assert_eq!(section_slug("content/blog"), Ok(String::from("blog")));
    assert_eq!(section_slug("content/blog/"), Ok(String::from("blog")));
    assert_eq!(section_slug("content/.."), Err(String::from("missing section directory name")));
    assert_eq!(section_slug_from_name(None), Err(String::from("missing section directory name")));
}

#[test]
fn build_section_keeps_input_order_of_equal_articles() {
    let first = article_from_markdown("blog", "one", "---\ntitle: Same\n---\nfirst");
    let second = article_from_markdown("blog", "two", "---\ntitle: Same\n---\nsecond");
    let section = generator().build_section("blog", "", vec![first, second]);
    let paths: Vec<&str> = section.articles.iter().map(|x| x.path.as_str()).collect();
    assert_eq!(paths, vec!["/blog/one/", "/blog/two/"]);
    let first = article_from_markdown("blog", "one", "---\ntitle: Same\n---\nfirst");
    let second = article_from_markdown("blog", "two", "---\ntitle: Same\n---\nsecond");
    let section = generator().build_section("blog", "", vec![second, first]);
    let paths: Vec<&str> = section.articles.iter().map(|x| x.path.as_str()).collect();
    assert_eq!(paths, vec!["/blog/two/", "/blog/one/"]);
}
