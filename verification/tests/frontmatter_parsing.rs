use static_blog::frontmatter::{apply_frontmatter, parse_i32, parse_markdown, Frontmatter};

#[test]
fn parse_markdown_reads_frontmatter_and_body() {
    let source = "---\ntitle: \"Hello\"\ndescription: 'A post'\norder: 3\ndate: 2024-01-02\nsummary: Short\n---\n\nBody text\n";
    let parsed = parse_markdown(source);
    assert_eq!(parsed.frontmatter.title.as_deref(), Some("Hello"));
    assert_eq!(parsed.frontmatter.description.as_deref(), Some("A post"));
    assert_eq!(parsed.frontmatter.summary.as_deref(), Some("Short"));
    assert_eq!(parsed.frontmatter.date.as_deref(), Some("2024-01-02"));
    assert_eq!(parsed.frontmatter.order, Some(3));
    assert_eq!(parsed.body, "Body text");
}

#[test]
fn parse_markdown_without_frontmatter_keeps_whole_text() {
    let parsed = parse_markdown("  # Title\r\n\r\nText  \n");
    assert_eq!(parsed.frontmatter.title, None);
    assert_eq!(parsed.frontmatter.order, None);
    assert_eq!(parsed.body, "# Title\n\nText");
}

#[test]
fn parse_markdown_unclosed_frontmatter_has_empty_body() {
    let parsed = parse_markdown("---\ntitle: Only header\nno colon line\n");
    assert_eq!(parsed.frontmatter.title.as_deref(), Some("Only header"));
    assert_eq!(parsed.body, "");
}

#[test]
fn parse_markdown_second_fence_ends_header_only_once() {
    let parsed = parse_markdown("---\ntitle: A\n---\nfirst\n---\ntitle: B\n");
    assert_eq!(parsed.frontmatter.title.as_deref(), Some("A"));
    assert_eq!(parsed.body, "first\n---\ntitle: B");
}

#[test]
fn parse_markdown_empty_source() {
    let parsed = parse_markdown("");
    assert_eq!(parsed.frontmatter.title, None);
    assert_eq!(parsed.body, "");
}

#[test]
fn apply_frontmatter_sets_known_keys_only() {
    let mut fm = Frontmatter::default();
    apply_frontmatter(&mut fm, "title", "\"'Quoted'\"");
    assert_eq!(fm.title.as_deref(), Some("Quoted"));
    apply_frontmatter(&mut fm, "unknown", "x");
    assert_eq!(fm.description, None);
    apply_frontmatter(&mut fm, "order", "12");
    assert_eq!(fm.order, Some(12));
    apply_frontmatter(&mut fm, "order", "twelve");
    assert_eq!(fm.order, None);
}

#[test]
fn apply_frontmatter_value_keeps_inner_colons() {
    let parsed = parse_markdown("---\ntitle: Time: 10:30\n---\n");
    assert_eq!(parsed.frontmatter.title.as_deref(), Some("Time: 10:30"));
}

#[test]
fn parse_i32_follows_str_parse() {
    let p = |s: &str| parse_i32(&s.chars().collect::<Vec<char>>());
    assert_eq!(p("42"), Some(42));
    assert_eq!(p("-7"), Some(-7));
    assert_eq!(p("+7"), Some(7));
    assert_eq!(p("2147483647"), Some(i32::MAX));
    assert_eq!(p("-2147483648"), Some(i32::MIN));
    assert_eq!(p("2147483648"), None);
    assert_eq!(p("99999999999999999999"), None);
    assert_eq!(p(""), None);
    assert_eq!(p("-"), None);
    assert_eq!(p("1 2"), None);
    assert_eq!(p(" 1"), None);
    for s in ["0", "-0", "007", "123456789", "-2147483649", "+", "1a"] {
        assert_eq!(p(s), s.parse::<i32>().ok());
    }
}
