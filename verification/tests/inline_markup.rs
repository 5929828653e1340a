use static_blog::inline::render_inline;

#[test]
fn inline_code_span_is_escaped() {
    assert_eq!(render_inline("use `x<y` here"), "use <code>x&lt;y</code> here");
}

#[test]
fn inline_strong_span() {
    assert_eq!(render_inline("a **bold** move"), "a <strong>bold</strong> move");
}

#[test]
fn inline_strong_content_is_escaped_not_nested() {
    assert_eq!(render_inline("**a `b` <c>**"), "<strong>a `b` &lt;c&gt;</strong>");
}

#[test]
fn inline_unmatched_markers_stay_text() {
    assert_eq!(render_inline("a ` b"), "a ` b");
    assert_eq!(render_inline("**open"), "**open");
    assert_eq!(render_inline("a * b"), "a * b");
}

#[test]
fn inline_brackets_are_kept() {
    assert_eq!(render_inline("see [this] and [that]"), "see [this] and [that]");
}

#[test]
fn inline_plain_text_is_only_escaped() {
    assert_eq!(render_inline("Tom & Jerry's <show>"), "Tom &amp; Jerry&#39;s &lt;show&gt;");
}

#[test]
fn inline_adjacent_spans_and_unicode() {
    assert_eq!(render_inline("`é`**ü**ß"), "<code>é</code><strong>ü</strong>ß");
    assert_eq!(render_inline("``"), "<code></code>");
    assert_eq!(render_inline("****"), "<strong></strong>");
}

#[test]
fn inline_star_pair_search_starts_after_opening() {
    // the closing pair is searched for after the opening pair
    assert_eq!(render_inline("***x**"), "<strong>*x</strong>");
}
