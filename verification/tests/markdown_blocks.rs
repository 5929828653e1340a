use static_blog::markdown::render_markdown;

#[test]
fn markdown_heading_paragraph_and_list() {
    let md = "# Title\n\nPara one\nline two\n\n- a\n- **b**\n";
    assert_eq!(
        render_markdown(md),
        "<h1>Title</h1>\n<p>Para one line two</p>\n<ul>\n  <li>a</li>\n  <li><strong>b</strong></li>\n</ul>"
    );
}

#[test]
fn markdown_empty_input() {
    assert_eq!(render_markdown(""), "");
    assert_eq!(render_markdown("   \n\n  "), "");
}

#[test]
fn markdown_crlf_line_endings() {
    assert_eq!(render_markdown("# A\r\nb\r\nc\r\n"), "<h1>A</h1>\n<p>b c</p>");
}

#[test]
fn markdown_list_closes_paragraph_and_paragraph_closes_list() {
    let md = "intro\n- one\n- two\nafter";
    assert_eq!(
        render_markdown(md),
        "<p>intro</p>\n<ul>\n  <li>one</li>\n  <li>two</li>\n</ul>\n<p>after</p>"
    );
}

#[test]
fn markdown_heading_content_is_trimmed_and_inline_rendered() {
    assert_eq!(render_markdown("  #   `code` title  "), "<h1><code>code</code> title</h1>");
}

#[test]
fn markdown_marker_needs_a_space() {
    assert_eq!(render_markdown("#NoSpace\n-dash"), "<p>#NoSpace -dash</p>");
}

#[test]
fn markdown_escapes_html_in_paragraphs() {
    assert_eq!(render_markdown("<b>bold</b> & co"), "<p>&lt;b&gt;bold&lt;/b&gt; &amp; co</p>");
}

#[test]
fn markdown_output_is_trimmed() {
    let out = render_markdown("\n\n  text  \n\n");
    assert_eq!(out, "<p>text</p>");
    assert_eq!(out.trim(), out);
}

const SAMPLE: &str = "# Title\nintro line\nmore intro\n\n- first\n- **second**\nclosing `code`";

#[test]
fn markdown_unchanged_by_crlf_normalization() {
    let crlf = SAMPLE.replace('\n', "\r\n");
    assert_eq!(render_markdown(&crlf), render_markdown(SAMPLE));
    assert_eq!(render_markdown(&crlf.replace("\r\n", "\n")), render_markdown(&crlf));
}

#[test]
fn markdown_unchanged_by_trimming_lines() {
    let padded: Vec<String> = SAMPLE.lines().map(|l| format!(" \t{}  ", l)).collect();
    let padded = padded.join("\n");
    assert_eq!(render_markdown(&padded), render_markdown(SAMPLE));
    let trimmed: Vec<&str> = padded.lines().map(|l| l.trim()).collect();
    assert_eq!(render_markdown(&trimmed.join("\n")), render_markdown(&padded));
}

#[test]
fn markdown_unchanged_by_blank_lines_at_either_end() {
    let expected = render_markdown(SAMPLE);
    assert_eq!(render_markdown(&format!("\n{}", SAMPLE)), expected);
    assert_eq!(render_markdown(&format!("  \t\n{}", SAMPLE)), expected);
    assert_eq!(render_markdown(&format!("{}\n", SAMPLE)), expected);
    assert_eq!(render_markdown(&format!("{}\n \u{a0}", SAMPLE)), expected);
    assert_eq!(render_markdown(&format!("\n\n{}\n\n\n", SAMPLE)), expected);
}
