//! Block-level markdown: headings, paragraphs and bullet lists.

use vstd::prelude::*;
use crate::text::{
    chars_of, char_texts_of, copy_range, crlf_normalized, has_prefix, index_of, join_chars,
    joined, lemma_index_of, lemma_lines_concat, lemma_lines_crlf, lemma_lines_final_newline,
    lemma_lines_single, lemma_trim_ends, lemma_trimmed_blank, lemma_trimmed_idempotent,
    lemma_trimmed_drop_last, lemma_trimmed_lines_concat, lemma_trimmed_lines_cons,
    lemma_trimmed_unchanged, lemma_trimmed_without_cr, lines,
    lines_of, normalize_newlines, starts_with_at, trim_range, trim_text, trimmed, trimmed_lines,
    white_space, without_cr,
};
use crate::inline::{inline_markup, render_inline_chars};

verus! {

/// Where the block renderer stands after some lines: the HTML written so
/// far, the lines of an open paragraph and the items of an open list.
pub struct BlockState {
    pub html: Seq<char>,
    pub paragraph: Seq<Seq<char>>,
    pub items: Seq<Seq<char>>,
}

/// The state before any line.
pub open spec fn initial_blocks() -> BlockState {
    BlockState { html: Seq::empty(), paragraph: Seq::empty(), items: Seq::empty() }
}

/// A paragraph: its lines joined by spaces, with inline markup.
pub open spec fn paragraph_html(lines: Seq<Seq<char>>) -> Seq<char> {
    "<p>"@ + inline_markup(joined(lines, " "@)) + "</p>\n"@
}

/// One bullet of a list.
pub open spec fn list_item_html(item: Seq<char>) -> Seq<char> {
    "  <li>"@ + inline_markup(item) + "</li>\n"@
}

/// A bullet list.
pub open spec fn list_html(items: Seq<Seq<char>>) -> Seq<char> {
    "<ul>\n"@ + items.map_values(|item: Seq<char>| list_item_html(item)).flatten() + "</ul>\n"@
}

/// A heading line's HTML.
pub open spec fn heading_html(content: Seq<char>) -> Seq<char> {
    "<h1>"@ + inline_markup(content) + "</h1>\n"@
}

/// Closes an open paragraph, if any.
pub open spec fn close_paragraph(st: BlockState) -> BlockState {
    if st.paragraph.len() == 0 {
        st
    } else {
        BlockState { html: st.html + paragraph_html(st.paragraph), paragraph: Seq::empty(), ..st }
    }
}

/// Closes an open list, if any.
pub open spec fn close_list(st: BlockState) -> BlockState {
    if st.items.len() == 0 {
        st
    } else {
        BlockState { html: st.html + list_html(st.items), items: Seq::empty(), ..st }
    }
}

/// The state after one more raw line.
///
/// The line is trimmed. A blank line closes the open block; `# ` starts a
/// heading; `- ` adds a bullet to the open list (closing a paragraph); any
/// other line adds to the open paragraph (closing a list).
pub open spec fn next_blocks(st: BlockState, raw: Seq<char>) -> BlockState {
    let line = trimmed(raw);
    if line.len() == 0 {
        close_list(close_paragraph(st))
    } else if has_prefix(line, "# "@) {
        let closed = close_list(close_paragraph(st));
        BlockState { html: closed.html + heading_html(trimmed(line.skip(2))), ..closed }
    } else if has_prefix(line, "- "@) {
        let closed = close_paragraph(st);
        BlockState { items: closed.items.push(trimmed(line.skip(2))), ..closed }
    } else {
        let closed = close_list(st);
        BlockState { paragraph: closed.paragraph.push(line), ..closed }
    }
}

/// The state after all of `lines`.
pub open spec fn blocks_after(lines: Seq<Seq<char>>) -> BlockState
    decreases lines.len(),
{
    if lines.len() == 0 {
        initial_blocks()
    } else {
        next_blocks(blocks_after(lines.drop_last()), lines.last())
    }
}

/// The HTML for a markdown document: its lines (after `"\r\n"` becomes
/// `"\n"`) run through the block renderer, open blocks closed, the result
/// trimmed.
pub open spec fn markdown_html(markdown: Seq<char>) -> Seq<char> {
    let st = blocks_after(lines_of(crlf_normalized(markdown)));
    trimmed(close_list(close_paragraph(st)).html)
}

/// The block state held by the renderer's variables.
pub open spec fn state_of(html: String, paragraph: Seq<Vec<char>>, items: Seq<Vec<char>>) -> BlockState {
    BlockState { html: html@, paragraph: char_texts_of(paragraph), items: char_texts_of(items) }
}

fn flush_paragraph(html: &mut String, paragraph_lines: &mut Vec<Vec<char>>)
    ensures
        forall|items: Seq<Vec<char>>|
            #[trigger] state_of(*final(html), final(paragraph_lines)@, items) == close_paragraph(
                state_of(*old(html), old(paragraph_lines)@, items),
            ),
{
    if paragraph_lines.len() == 0 {
        return;
    }
    let space = chars_of(" ");
    let content = join_chars(paragraph_lines, space.as_slice());
    html.append("<p>");
    let rendered = render_inline_chars(content.as_slice());
    html.append(rendered.as_str());
    html.append("</p>\n");
    paragraph_lines.clear();
    assert(char_texts_of(paragraph_lines@) =~= Seq::<Seq<char>>::empty());
    assert(html@ =~= old(html)@ + paragraph_html(char_texts_of(old(paragraph_lines)@)));
}

fn flush_list(html: &mut String, list_items: &mut Vec<Vec<char>>)
    ensures
        forall|paragraph: Seq<Vec<char>>|
            #[trigger] state_of(*final(html), paragraph, final(list_items)@) == close_list(
                state_of(*old(html), paragraph, old(list_items)@),
            ),
{
    if list_items.len() == 0 {
        return;
    }
    let ghost items = char_texts_of(list_items@);
    let ghost f = |item: Seq<char>| list_item_html(item);
    html.append("<ul>\n");
    let ghost start = html@;
    let mut i: usize = 0;
    while i < list_items.len()
        invariant
            i <= list_items@.len(),
            items == char_texts_of(list_items@),
            f == (|item: Seq<char>| list_item_html(item)),
            html@ == start + items.take(i as int).map_values(f).flatten(),
        decreases list_items@.len() - i,
    {
        let ghost prev = html@;
        assert(items[i as int] == list_items@[i as int]@);
        html.append("  <li>");
        let rendered = render_inline_chars(list_items[i].as_slice());
        html.append(rendered.as_str());
        html.append("</li>\n");
        proof {
            assert(items.take(i + 1).map_values(f) =~= items.take(i as int).map_values(f).push(
                f(items[i as int]),
            ));
            items.take(i as int).map_values(f).lemma_flatten_push(f(items[i as int]));
            assert(html@ =~= prev + list_item_html(items[i as int]));
            assert(f(items[i as int]) == list_item_html(items[i as int]));
        }
        i = i + 1;
    }
    assert(items.take(list_items@.len() as int) =~= items);
    html.append("</ul>\n");
    list_items.clear();
    assert(char_texts_of(list_items@) =~= Seq::<Seq<char>>::empty());
    assert(html@ =~= old(html)@ + list_html(items));
}

/// Renders a markdown document into HTML.
pub fn render_markdown(markdown: &str) -> (r: String)
    ensures
        r@ == markdown_html(markdown@),
{
    let mut html = String::new();
    let mut paragraph_lines: Vec<Vec<char>> = Vec::new();
    let mut list_items: Vec<Vec<char>> = Vec::new();
    let source = chars_of(markdown);
    let normalized = normalize_newlines(source.as_slice());
    let all = lines(normalized.as_slice());
    let ghost lines_seq = lines_of(crlf_normalized(markdown@));
    let heading_marker = chars_of("# ");
    let item_marker = chars_of("- ");
    let mut n: usize = 0;
    assert(lines_seq.take(0) =~= Seq::<Seq<char>>::empty());
    assert(char_texts_of(paragraph_lines@) =~= Seq::<Seq<char>>::empty());
    assert(char_texts_of(list_items@) =~= Seq::<Seq<char>>::empty());
    while n < all.len()
        invariant
            n <= all@.len(),
            char_texts_of(all@) == lines_seq,
            heading_marker@ == "# "@,
            item_marker@ == "- "@,
            state_of(html, paragraph_lines@, list_items@) == blocks_after(lines_seq.take(n as int)),
        decreases all@.len() - n,
    {
        assert(lines_seq.take(n + 1).drop_last() =~= lines_seq.take(n as int));
        let ghost st = state_of(html, paragraph_lines@, list_items@);
        proof {
            reveal_strlit("# ");
            reveal_strlit("- ");
        }
        let raw = &all[n];
        assert(raw@ == lines_seq[n as int]);
        let (a, b) = trim_range(raw.as_slice(), 0, raw.len(), None);
        assert(raw@.subrange(0, raw@.len() as int) =~= raw@);
        let line = copy_range(raw.as_slice(), a, b);
        let ghost tl = trimmed(raw@);
        assert(line@ == tl);
        if line.len() == 0 {
            flush_paragraph(&mut html, &mut paragraph_lines);
            assert(state_of(html, paragraph_lines@, list_items@) == close_paragraph(st));
            flush_list(&mut html, &mut list_items);
            assert(state_of(html, paragraph_lines@, list_items@) == close_list(close_paragraph(st)));
        } else if starts_with_at(line.as_slice(), 0, line.len(), heading_marker.as_slice()) {
            assert(line@.subrange(0, line@.len() as int) =~= line@);
            flush_paragraph(&mut html, &mut paragraph_lines);
            assert(state_of(html, paragraph_lines@, list_items@) == close_paragraph(st));
            flush_list(&mut html, &mut list_items);
            let ghost closed = close_list(close_paragraph(st));
            assert(state_of(html, paragraph_lines@, list_items@) == closed);
            let (c0, c1) = trim_range(line.as_slice(), 2, line.len(), None);
            assert(line@.subrange(2, line@.len() as int) =~= line@.skip(2));
            html.append("<h1>");
            let content = copy_range(line.as_slice(), c0, c1);
            let rendered = render_inline_chars(content.as_slice());
            html.append(rendered.as_str());
            html.append("</h1>\n");
            assert(html@ =~= closed.html + heading_html(trimmed(tl.skip(2))));
        } else if starts_with_at(line.as_slice(), 0, line.len(), item_marker.as_slice()) {
            assert(line@.subrange(0, line@.len() as int) =~= line@);
            assert(!has_prefix(tl, "# "@));
            flush_paragraph(&mut html, &mut paragraph_lines);
            assert(state_of(html, paragraph_lines@, list_items@) == close_paragraph(st));
            let (c0, c1) = trim_range(line.as_slice(), 2, line.len(), None);
            assert(line@.subrange(2, line@.len() as int) =~= line@.skip(2));
            let content = copy_range(line.as_slice(), c0, c1);
            let ghost before = list_items@;
            list_items.push(content);
            assert(char_texts_of(list_items@) =~= char_texts_of(before).push(content@));
        } else {
            assert(line@.subrange(0, line@.len() as int) =~= line@);
            assert(!has_prefix(tl, "# "@));
            assert(!has_prefix(tl, "- "@));
            flush_list(&mut html, &mut list_items);
            assert(state_of(html, paragraph_lines@, list_items@) == close_list(st));
            let ghost before = paragraph_lines@;
            paragraph_lines.push(line);
            assert(char_texts_of(paragraph_lines@) =~= char_texts_of(before).push(tl));
        }
        n = n + 1;
    }
    assert(lines_seq.take(all@.len() as int) =~= lines_seq);
    let ghost st = blocks_after(lines_seq);
    flush_paragraph(&mut html, &mut paragraph_lines);
    assert(state_of(html, paragraph_lines@, list_items@) == close_paragraph(st));
    flush_list(&mut html, &mut list_items);
    assert(state_of(html, paragraph_lines@, list_items@) == close_list(close_paragraph(st)));
    trim_text(html.as_str())
}

/// Rendered markdown neither begins nor ends with white space.
pub proof fn lemma_markdown_trimmed(markdown: Seq<char>)
    ensures
        markdown_html(markdown).len() > 0 ==> !white_space(markdown_html(markdown)[0])
            && !white_space(markdown_html(markdown).last()),
{
    let st = blocks_after(lines_of(crlf_normalized(markdown)));
    lemma_trim_ends(close_list(close_paragraph(st)).html, None);
}


// ---------------------------------------------------------------------------
// What the rendered HTML depends on
// ---------------------------------------------------------------------------

/// The state after all of `lines` with every open block closed.
spec fn closed_blocks(lines: Seq<Seq<char>>) -> BlockState {
    close_list(close_paragraph(blocks_after(lines)))
}

/// The block state depends on each line only through its trimmed text.
proof fn lemma_blocks_after_trimmed(a: Seq<Seq<char>>, b: Seq<Seq<char>>)
    requires
        trimmed_lines(a) == trimmed_lines(b),
    ensures
        blocks_after(a) == blocks_after(b),
    decreases a.len(),
{
    assert(a.len() == trimmed_lines(a).len());
    assert(b.len() == trimmed_lines(b).len());
    if a.len() > 0 {
        assert(trimmed_lines(a.drop_last()) =~= trimmed_lines(a).drop_last());
        assert(trimmed_lines(b.drop_last()) =~= trimmed_lines(b).drop_last());
        lemma_blocks_after_trimmed(a.drop_last(), b.drop_last());
        assert(trimmed(a.last()) == trimmed_lines(a)[a.len() - 1]);
        assert(trimmed(b.last()) == trimmed_lines(b)[b.len() - 1]);
    }
}

/// A blank first line changes no block state.
proof fn lemma_blocks_after_blank_first(blank: Seq<char>, ls: Seq<Seq<char>>)
    requires
        trimmed(blank).len() == 0,
    ensures
        blocks_after(seq![blank] + ls) == blocks_after(ls),
    decreases ls.len(),
{
    if ls.len() == 0 {
        assert(seq![blank] + ls =~= seq![blank]);
        assert(seq![blank].drop_last() =~= Seq::<Seq<char>>::empty());
        assert(blocks_after(Seq::<Seq<char>>::empty()) == initial_blocks());
        assert(blocks_after(seq![blank]) == next_blocks(initial_blocks(), blank));
    } else {
        assert((seq![blank] + ls).drop_last() =~= seq![blank] + ls.drop_last());
        lemma_blocks_after_blank_first(blank, ls.drop_last());
    }
}

/// Blank last lines change nothing once the open blocks are closed.
proof fn lemma_closed_blocks_blank_tail(ls: Seq<Seq<char>>, tail: Seq<Seq<char>>)
    requires
        forall|i: int| 0 <= i < tail.len() ==> (#[trigger] trimmed(tail[i])).len() == 0,
    ensures
        closed_blocks(ls + tail) == closed_blocks(ls),
    decreases tail.len(),
{
    if tail.len() == 0 {
        assert(ls + tail =~= ls);
    } else {
        let front = ls + tail.drop_last();
        assert((ls + tail).drop_last() =~= front);
        assert((ls + tail).last() == tail[tail.len() - 1]);
        assert(trimmed(tail[tail.len() - 1]).len() == 0);
        lemma_closed_blocks_blank_tail(ls, tail.drop_last());
    }
}

/// A white-space line without a line feed.
pub open spec fn blank_line(w: Seq<char>) -> bool {
    forall|i: int| 0 <= i < w.len() ==> white_space(w[i]) && w[i] != '\n'
}

proof fn lemma_blank_line_facts(w: Seq<char>)
    requires
        blank_line(w),
    ensures
        index_of(w, '\n') is None,
        trimmed(w) == Seq::<char>::empty(),
        trimmed(without_cr(w)) == Seq::<char>::empty(),
{
    lemma_index_of(w, '\n');
    if let Some(k) = index_of(w, '\n') {
        assert(w[k] != '\n');
    }
    lemma_trimmed_blank(w);
    lemma_trimmed_without_cr(w);
}

/// Two documents whose lines are the same once each line is trimmed render
/// to the same HTML: white space at either end of a line, and a carriage
/// return before a line feed, never change the output.
pub proof fn lemma_markdown_same_trimmed_lines(s: Seq<char>, t: Seq<char>)
    requires
        trimmed_lines(lines_of(s)) == trimmed_lines(lines_of(t)),
    ensures
        markdown_html(s) == markdown_html(t),
{
    lemma_lines_crlf(s);
    lemma_lines_crlf(t);
    lemma_blocks_after_trimmed(lines_of(crlf_normalized(s)), lines_of(crlf_normalized(t)));
}

/// Replacing every `"\r\n"` by `"\n"` leaves the HTML as it was.
pub proof fn lemma_markdown_crlf(s: Seq<char>)
    ensures
        markdown_html(crlf_normalized(s)) == markdown_html(s),
{
    lemma_lines_crlf(s);
    lemma_markdown_same_trimmed_lines(crlf_normalized(s), s);
}

/// A document whose lines are those of `s`, each trimmed, renders as `s`
/// does.
pub proof fn lemma_markdown_lines_trimmed(s: Seq<char>, t: Seq<char>)
    requires
        lines_of(t) == trimmed_lines(lines_of(s)),
    ensures
        markdown_html(t) == markdown_html(s),
{
    let ls = lines_of(s);
    assert forall|i: int| 0 <= i < ls.len() implies trimmed(trimmed_lines(ls)[i]) == trimmed(
        ls[i],
    ) by {
        lemma_trimmed_idempotent(ls[i]);
    }
    assert(trimmed_lines(lines_of(t)) =~= trimmed_lines(ls));
    lemma_markdown_same_trimmed_lines(t, s);
}

/// A blank line put before a document leaves its HTML as it was.
pub proof fn lemma_markdown_leading_blank(w: Seq<char>, s: Seq<char>)
    requires
        blank_line(w),
    ensures
        markdown_html(w + seq!['\n'] + s) == markdown_html(s),
{
    let x = w + seq!['\n'] + s;
    let e = Seq::<char>::empty();
    let base = lines_of(crlf_normalized(s));
    lemma_blank_line_facts(w);
    lemma_lines_concat(w, s);
    lemma_lines_single(w);
    lemma_lines_crlf(x);
    lemma_lines_crlf(s);
    lemma_trimmed_lines_cons(without_cr(w), lines_of(s));
    assert(lines_of(x) == seq![without_cr(w)] + lines_of(s));
    lemma_trimmed_blank(e);
    lemma_trimmed_lines_cons(e, base);
    lemma_blocks_after_trimmed(lines_of(crlf_normalized(x)), seq![e] + base);
    lemma_blocks_after_blank_first(e, base);
}

/// A blank line put after a document leaves its HTML as it was.
pub proof fn lemma_markdown_trailing_blank(s: Seq<char>, w: Seq<char>)
    requires
        blank_line(w),
    ensures
        markdown_html(s + seq!['\n'] + w) == markdown_html(s),
{
    let x = s + seq!['\n'] + w;
    let e = Seq::<char>::empty();
    let base = lines_of(crlf_normalized(s));
    let tb = trimmed_lines(base);
    lemma_blank_line_facts(w);
    lemma_trimmed_blank(e);
    lemma_lines_concat(s, w);
    lemma_lines_final_newline(s);
    lemma_lines_crlf(x);
    lemma_lines_crlf(s);
    let a = trimmed_lines(lines_of(s + seq!['\n']));
    let b = trimmed_lines(lines_of(w));
    lemma_trimmed_lines_concat(lines_of(s + seq!['\n']), lines_of(w));
    if w.len() == 0 {
        assert(b =~= Seq::<Seq<char>>::empty());
    } else {
        assert(lines_of(w) == seq![w]);
        assert(b =~= seq![e]);
    }
    let tail = (a + b).skip(tb.len() as int);
    assert(a + b =~= tb + tail);
    assert forall|i: int| 0 <= i < tail.len() implies tail[i] == e by {
        if a == tb {
            assert(tail[i] == b[i]);
        } else {
            assert(a == tb.push(e));
            if i == 0 {
                assert(tail[i] == a[tb.len() as int]);
            } else {
                assert(tail[i] == b[i - 1]);
            }
        }
    }
    assert(trimmed_lines(tail) =~= tail);
    lemma_trimmed_lines_concat(base, tail);
    lemma_blocks_after_trimmed(lines_of(crlf_normalized(x)), base + tail);
    assert forall|i: int| 0 <= i < tail.len() implies (#[trigger] trimmed(tail[i])).len() == 0 by {
        assert(tail[i] == e);
    }
    lemma_closed_blocks_blank_tail(base, tail);
}


// ---------------------------------------------------------------------------
// What the blocks of a document become
// ---------------------------------------------------------------------------

/// A line that is ordinary paragraph text: not blank, already trimmed,
/// without a line feed, and not opening a heading or a list item.
pub open spec fn plain_line(x: Seq<char>) -> bool {
    &&& x.len() > 0
    &&& trimmed(x) == x
    &&& forall|i: int| 0 <= i < x.len() ==> x[i] != '\n'
    &&& !has_prefix(x, "# "@)
    &&& !has_prefix(x, "- "@)
}

/// One more line steps the block state once.
proof fn lemma_blocks_step(ls: Seq<Seq<char>>, l: Seq<char>)
    ensures
        blocks_after(ls.push(l)) == next_blocks(blocks_after(ls), l),
{
    assert(ls.push(l).drop_last() =~= ls);
}

/// A plain line closes an open list and adds to the paragraph.
proof fn lemma_next_plain(st: BlockState, x: Seq<char>)
    requires
        plain_line(x),
    ensures
        next_blocks(st, x) == (BlockState { paragraph: close_list(st).paragraph.push(x), ..close_list(st) }),
{
}

/// A heading line closes the open blocks and writes the heading.
proof fn lemma_next_heading(st: BlockState, x: Seq<char>)
    requires
        plain_line(x),
    ensures
        next_blocks(st, seq!['#', ' '] + x) == (BlockState {
            html: close_list(close_paragraph(st)).html + heading_html(x),
            ..close_list(close_paragraph(st))
        }),
{
    reveal_strlit("# ");
    let s = seq!['#', ' '] + x;
    lemma_trim_ends(x, None);
    assert(s[0] == '#' && s.last() == x.last());
    lemma_trimmed_unchanged(s);
    assert(s.take(2) =~= "# "@);
    assert(s.skip(2) =~= x);
}

/// A bullet line closes an open paragraph and adds an item.
proof fn lemma_next_item(st: BlockState, x: Seq<char>)
    requires
        plain_line(x),
    ensures
        next_blocks(st, seq!['-', ' '] + x) == (BlockState {
            items: close_paragraph(st).items.push(x),
            ..close_paragraph(st)
        }),
{
    reveal_strlit("# ");
    reveal_strlit("- ");
    let s = seq!['-', ' '] + x;
    lemma_trim_ends(x, None);
    assert(s[0] == '-' && s.last() == x.last());
    lemma_trimmed_unchanged(s);
    assert(s.take(2) =~= "- "@);
    assert(s.take(2) != "# "@) by {
        assert(s.take(2)[0] != ("# "@)[0]);
    }
    assert(s.skip(2) =~= x);
}

/// A marker followed by a plain line is a trimmed line without line feeds.
proof fn lemma_marked_line(m: char, x: Seq<char>)
    requires
        plain_line(x),
        m != '\n',
        !white_space(m),
    ensures
        trimmed(seq![m, ' '] + x) == seq![m, ' '] + x,
        forall|i: int| 0 <= i < (seq![m, ' '] + x).len() ==> (seq![m, ' '] + x)[i] != '\n',
        (seq![m, ' '] + x).len() > 0,
{
    let s = seq![m, ' '] + x;
    lemma_trim_ends(x, None);
    assert(s[0] == m && s.last() == x.last());
    lemma_trimmed_unchanged(s);
    assert forall|i: int| 0 <= i < s.len() implies s[i] != '\n' by {
        if i >= 2 {
            assert(s[i] == x[i - 2]);
        }
    }
}

/// A non-empty trimmed line without line feeds is its own single line.
proof fn lemma_single_line(x: Seq<char>)
    requires
        x.len() > 0,
        trimmed(x) == x,
        forall|i: int| 0 <= i < x.len() ==> x[i] != '\n',
    ensures
        index_of(x, '\n') is None,
        lines_of(x) == seq![x],
        without_cr(x) == x,
        lines_of(x + seq!['\n']) == seq![x],
{
    lemma_index_of(x, '\n');
    if let Some(k) = index_of(x, '\n') {
        assert(x[k] != '\n');
    }
    lemma_trim_ends(x, None);
    assert(x.last() != '\r');
    lemma_lines_single(x);
}

/// The HTML of a document whose lines, trimmed, are those of `ls`.
proof fn lemma_markdown_of_lines(s: Seq<char>, ls: Seq<Seq<char>>)
    requires
        trimmed_lines(lines_of(s)) == trimmed_lines(ls),
    ensures
        markdown_html(s) == trimmed(closed_blocks(ls).html),
{
    lemma_lines_crlf(s);
    lemma_blocks_after_trimmed(lines_of(crlf_normalized(s)), ls);
}

/// Trimming HTML that ends in one line feed and otherwise starts with `<`
/// and ends with `>`.
proof fn lemma_trim_html(h: Seq<char>)
    requires
        h.len() >= 2,
        h[0] == '<',
        h[h.len() - 2] == '>',
        h.last() == '\n',
    ensures
        trimmed(h) == h.drop_last(),
{
    lemma_trimmed_drop_last(h);
    lemma_trimmed_unchanged(h.drop_last());
}

/// Trimming each line of a list of trimmed lines changes nothing.
proof fn lemma_trimmed_lines_fixed(ls: Seq<Seq<char>>)
    requires
        forall|i: int| 0 <= i < ls.len() ==> #[trigger] trimmed(ls[i]) == ls[i],
    ensures
        trimmed_lines(ls) == ls,
{
    assert(trimmed_lines(ls) =~= ls);
}

/// A blank line ends a paragraph: two lines of text with a blank line
/// between them become two paragraphs.
pub proof fn lemma_markdown_two_paragraphs(x: Seq<char>, y: Seq<char>)
    requires
        plain_line(x),
        plain_line(y),
    ensures
        markdown_html(x + seq!['\n', '\n'] + y) == "<p>"@ + inline_markup(x) + "</p>\n<p>"@
            + inline_markup(y) + "</p>"@,
{
    reveal_strlit("<p>");
    reveal_strlit("</p>\n");
    reveal_strlit("</p>\n<p>");
    reveal_strlit("</p>");
    let e = Seq::<char>::empty();
    let none = Seq::<Seq<char>>::empty();
    let s = x + seq!['\n', '\n'] + y;
    lemma_single_line(x);
    lemma_single_line(y);
    assert(s =~= x + seq!['\n'] + (e + seq!['\n'] + y));
    lemma_lines_concat(x, e + seq!['\n'] + y);
    lemma_lines_concat(e, y);
    lemma_lines_single(e);
    assert(e + seq!['\n'] =~= seq!['\n']);
    assert(without_cr(e) == e);
    let ls = seq![x, e, y];
    assert(lines_of(s) =~= ls);
    lemma_trimmed_blank(e);
    lemma_trimmed_lines_fixed(ls);
    lemma_markdown_of_lines(s, ls);
    assert(none.push(x) =~= seq![x]);
    assert(seq![x].push(e) =~= seq![x, e]);
    assert(seq![x, e].push(y) =~= ls);
    lemma_blocks_step(none, x);
    lemma_blocks_step(seq![x], e);
    lemma_blocks_step(seq![x, e], y);
    assert(blocks_after(none) == initial_blocks());
    lemma_next_plain(initial_blocks(), x);
    let st1 = blocks_after(seq![x]);
    assert(st1.paragraph =~= seq![x]);
    assert(joined(seq![x], " "@) == x);
    assert(joined(seq![y], " "@) == y);
    let st2 = blocks_after(seq![x, e]);
    assert(st2.html =~= paragraph_html(seq![x]));
    lemma_next_plain(st2, y);
    let st3 = blocks_after(ls);
    assert(st3.paragraph =~= seq![y]);
    let h = closed_blocks(ls).html;
    assert(h =~= paragraph_html(seq![x]) + paragraph_html(seq![y]));
    lemma_trim_html(h);
    assert(h.drop_last() =~= "<p>"@ + inline_markup(x) + "</p>\n<p>"@ + inline_markup(y)
        + "</p>"@);
}

/// Lines of text without a blank line between them form one paragraph,
/// joined by a space.
pub proof fn lemma_markdown_one_paragraph(x: Seq<char>, y: Seq<char>)
    requires
        plain_line(x),
        plain_line(y),
    ensures
        markdown_html(x + seq!['\n'] + y) == "<p>"@ + inline_markup(x + seq![' '] + y)
            + "</p>"@,
{
    reveal_strlit("<p>");
    reveal_strlit("</p>\n");
    reveal_strlit("</p>");
    reveal_strlit(" ");
    let none = Seq::<Seq<char>>::empty();
    let s = x + seq!['\n'] + y;
    lemma_single_line(x);
    lemma_single_line(y);
    lemma_lines_concat(x, y);
    let ls = seq![x, y];
    assert(lines_of(s) =~= ls);
    lemma_trimmed_lines_fixed(ls);
    lemma_markdown_of_lines(s, ls);
    assert(none.push(x) =~= seq![x]);
    assert(seq![x].push(y) =~= ls);
    lemma_blocks_step(none, x);
    lemma_blocks_step(seq![x], y);
    assert(blocks_after(none) == initial_blocks());
    lemma_next_plain(initial_blocks(), x);
    let st1 = blocks_after(seq![x]);
    assert(st1.paragraph =~= seq![x]);
    lemma_next_plain(st1, y);
    let st2 = blocks_after(ls);
    assert(st2.paragraph =~= seq![x, y]);
    assert(seq![x, y].drop_last() =~= seq![x]);
    assert(joined(seq![x], " "@) == x);
    assert(joined(seq![x, y], " "@) =~= x + seq![' '] + y);
    let h = closed_blocks(ls).html;
    assert(h =~= paragraph_html(seq![x, y]));
    lemma_trim_html(h);
    assert(h.drop_last() =~= "<p>"@ + inline_markup(x + seq![' '] + y) + "</p>"@);
}

/// A heading line on its own becomes an `<h1>` of its text.
pub proof fn lemma_markdown_heading(x: Seq<char>)
    requires
        plain_line(x),
    ensures
        markdown_html(seq!['#', ' '] + x) == "<h1>"@ + inline_markup(x) + "</h1>"@,
{
    reveal_strlit("<h1>");
    reveal_strlit("</h1>\n");
    reveal_strlit("</h1>");
    let none = Seq::<Seq<char>>::empty();
    let s = seq!['#', ' '] + x;
    lemma_marked_line('#', x);
    lemma_single_line(s);
    let ls = seq![s];
    lemma_trimmed_lines_fixed(ls);
    lemma_markdown_of_lines(s, ls);
    assert(none.push(s) =~= ls);
    lemma_blocks_step(none, s);
    assert(blocks_after(none) == initial_blocks());
    lemma_next_heading(initial_blocks(), x);
    let h = closed_blocks(ls).html;
    assert(h =~= heading_html(x));
    lemma_trim_html(h);
    assert(h.drop_last() =~= "<h1>"@ + inline_markup(x) + "</h1>"@);
}

/// Consecutive bullet lines become the items of one list.
pub proof fn lemma_markdown_two_items(x: Seq<char>, y: Seq<char>)
    requires
        plain_line(x),
        plain_line(y),
    ensures
        markdown_html(seq!['-', ' '] + x + seq!['\n', '-', ' '] + y) == "<ul>\n  <li>"@
            + inline_markup(x) + "</li>\n  <li>"@ + inline_markup(y) + "</li>\n</ul>"@,
{
    reveal_strlit("<ul>\n");
    reveal_strlit("</ul>\n");
    reveal_strlit("  <li>");
    reveal_strlit("</li>\n");
    reveal_strlit("<ul>\n  <li>");
    reveal_strlit("</li>\n  <li>");
    reveal_strlit("</li>\n</ul>");
    let none = Seq::<Seq<char>>::empty();
    let a = seq!['-', ' '] + x;
    let b = seq!['-', ' '] + y;
    let s = seq!['-', ' '] + x + seq!['\n', '-', ' '] + y;
    assert(s =~= a + seq!['\n'] + b);
    lemma_marked_line('-', x);
    lemma_marked_line('-', y);
    lemma_single_line(a);
    lemma_single_line(b);
    lemma_lines_concat(a, b);
    let ls = seq![a, b];
    assert(lines_of(s) =~= ls);
    lemma_trimmed_lines_fixed(ls);
    lemma_markdown_of_lines(s, ls);
    assert(none.push(a) =~= seq![a]);
    assert(seq![a].push(b) =~= ls);
    lemma_blocks_step(none, a);
    lemma_blocks_step(seq![a], b);
    assert(blocks_after(none) == initial_blocks());
    lemma_next_item(initial_blocks(), x);
    let st1 = blocks_after(seq![a]);
    assert(st1.items =~= seq![x]);
    lemma_next_item(st1, y);
    let st2 = blocks_after(ls);
    assert(st2.items =~= seq![x, y]);
    assert(st2.html =~= Seq::<char>::empty());
    let f = |item: Seq<char>| list_item_html(item);
    let m = seq![x, y].map_values(f);
    assert(m.flatten() =~= list_item_html(x) + list_item_html(y)) by {
        assert(m =~= seq![list_item_html(x)].push(list_item_html(y)));
        seq![list_item_html(x)].lemma_flatten_push(list_item_html(y));
        assert(Seq::<Seq<char>>::empty().push(list_item_html(x)) =~= seq![list_item_html(x)]);
        Seq::<Seq<char>>::empty().lemma_flatten_push(list_item_html(x));
        assert(Seq::<Seq<char>>::empty().flatten() =~= Seq::<char>::empty());
    }
    let h = closed_blocks(ls).html;
    assert(h =~= list_html(seq![x, y]));
    lemma_trim_html(h);
    assert(h.drop_last() =~= "<ul>\n  <li>"@ + inline_markup(x) + "</li>\n  <li>"@
        + inline_markup(y) + "</li>\n</ul>"@);
}

/// A heading line closes the open paragraph before it.
pub proof fn lemma_markdown_paragraph_then_heading(x: Seq<char>, y: Seq<char>)
    requires
        plain_line(x),
        plain_line(y),
    ensures
        markdown_html(x + seq!['\n', '#', ' '] + y) == "<p>"@ + inline_markup(x) + "</p>\n<h1>"@
            + inline_markup(y) + "</h1>"@,
{
    reveal_strlit("<p>");
    reveal_strlit("</p>\n");
    reveal_strlit("<h1>");
    reveal_strlit("</h1>\n");
    reveal_strlit("</p>\n<h1>");
    reveal_strlit("</h1>");
    let none = Seq::<Seq<char>>::empty();
    let b = seq!['#', ' '] + y;
    let s = x + seq!['\n', '#', ' '] + y;
    assert(s =~= x + seq!['\n'] + b);
    lemma_marked_line('#', y);
    lemma_single_line(x);
    lemma_single_line(b);
    lemma_lines_concat(x, b);
    let ls = seq![x, b];
    assert(lines_of(s) =~= ls);
    lemma_trimmed_lines_fixed(ls);
    lemma_markdown_of_lines(s, ls);
    assert(none.push(x) =~= seq![x]);
    assert(seq![x].push(b) =~= ls);
    lemma_blocks_step(none, x);
    lemma_blocks_step(seq![x], b);
    assert(blocks_after(none) == initial_blocks());
    lemma_next_plain(initial_blocks(), x);
    let st1 = blocks_after(seq![x]);
    assert(st1.paragraph =~= seq![x]);
    assert(joined(seq![x], " "@) == x);
    lemma_next_heading(st1, y);
    let h = closed_blocks(ls).html;
    assert(h =~= paragraph_html(seq![x]) + heading_html(y));
    lemma_trim_html(h);
    assert(h.drop_last() =~= "<p>"@ + inline_markup(x) + "</p>\n<h1>"@ + inline_markup(y)
        + "</h1>"@);
}

/// A bullet line closes the open paragraph before it.
pub proof fn lemma_markdown_paragraph_then_item(x: Seq<char>, y: Seq<char>)
    requires
        plain_line(x),
        plain_line(y),
    ensures
        markdown_html(x + seq!['\n', '-', ' '] + y) == "<p>"@ + inline_markup(x)
            + "</p>\n<ul>\n  <li>"@ + inline_markup(y) + "</li>\n</ul>"@,
{
    reveal_strlit("<p>");
    reveal_strlit("</p>\n");
    reveal_strlit("<ul>\n");
    reveal_strlit("</ul>\n");
    reveal_strlit("  <li>");
    reveal_strlit("</li>\n");
    reveal_strlit("</p>\n<ul>\n  <li>");
    reveal_strlit("</li>\n</ul>");
    let none = Seq::<Seq<char>>::empty();
    let b = seq!['-', ' '] + y;
    let s = x + seq!['\n', '-', ' '] + y;
    assert(s =~= x + seq!['\n'] + b);
    lemma_marked_line('-', y);
    lemma_single_line(x);
    lemma_single_line(b);
    lemma_lines_concat(x, b);
    let ls = seq![x, b];
    assert(lines_of(s) =~= ls);
    lemma_trimmed_lines_fixed(ls);
    lemma_markdown_of_lines(s, ls);
    assert(none.push(x) =~= seq![x]);
    assert(seq![x].push(b) =~= ls);
    lemma_blocks_step(none, x);
    lemma_blocks_step(seq![x], b);
    assert(blocks_after(none) == initial_blocks());
    lemma_next_plain(initial_blocks(), x);
    let st1 = blocks_after(seq![x]);
    assert(st1.paragraph =~= seq![x]);
    assert(joined(seq![x], " "@) == x);
    lemma_next_item(st1, y);
    let st2 = blocks_after(ls);
    assert(st2.items =~= seq![y]);
    assert(st2.html =~= paragraph_html(seq![x]));
    let m = seq![y].map_values(|item: Seq<char>| list_item_html(item));
    assert(m.flatten() =~= list_item_html(y)) by {
        assert(m =~= Seq::<Seq<char>>::empty().push(list_item_html(y)));
        Seq::<Seq<char>>::empty().lemma_flatten_push(list_item_html(y));
        assert(Seq::<Seq<char>>::empty().flatten() =~= Seq::<char>::empty());
    }
    let h = closed_blocks(ls).html;
    assert(h =~= paragraph_html(seq![x]) + list_html(seq![y]));
    lemma_trim_html(h);
    assert(h.drop_last() =~= "<p>"@ + inline_markup(x) + "</p>\n<ul>\n  <li>"@ + inline_markup(y)
        + "</li>\n</ul>"@);
}

/// A line of text closes the open list before it and starts a paragraph.
pub proof fn lemma_markdown_item_then_paragraph(x: Seq<char>, y: Seq<char>)
    requires
        plain_line(x),
        plain_line(y),
    ensures
        markdown_html(seq!['-', ' '] + x + seq!['\n'] + y) == "<ul>\n  <li>"@ + inline_markup(x)
            + "</li>\n</ul>\n<p>"@ + inline_markup(y) + "</p>"@,
{
    reveal_strlit("<p>");
    reveal_strlit("</p>\n");
    reveal_strlit("<ul>\n");
    reveal_strlit("</ul>\n");
    reveal_strlit("  <li>");
    reveal_strlit("</li>\n");
    reveal_strlit("<ul>\n  <li>");
    reveal_strlit("</li>\n</ul>\n<p>");
    reveal_strlit("</p>");
    let none = Seq::<Seq<char>>::empty();
    let a = seq!['-', ' '] + x;
    let s = seq!['-', ' '] + x + seq!['\n'] + y;
    lemma_marked_line('-', x);
    lemma_single_line(a);
    lemma_single_line(y);
    lemma_lines_concat(a, y);
    let ls = seq![a, y];
    assert(lines_of(s) =~= ls);
    lemma_trimmed_lines_fixed(ls);
    lemma_markdown_of_lines(s, ls);
    assert(none.push(a) =~= seq![a]);
    assert(seq![a].push(y) =~= ls);
    lemma_blocks_step(none, a);
    lemma_blocks_step(seq![a], y);
    assert(blocks_after(none) == initial_blocks());
    lemma_next_item(initial_blocks(), x);
    let st1 = blocks_after(seq![a]);
    assert(st1.items =~= seq![x]);
    assert(st1.html =~= Seq::<char>::empty());
    lemma_next_plain(st1, y);
    let m = seq![x].map_values(|item: Seq<char>| list_item_html(item));
    assert(m.flatten() =~= list_item_html(x)) by {
        assert(m =~= Seq::<Seq<char>>::empty().push(list_item_html(x)));
        Seq::<Seq<char>>::empty().lemma_flatten_push(list_item_html(x));
        assert(Seq::<Seq<char>>::empty().flatten() =~= Seq::<char>::empty());
    }
    let st2 = blocks_after(ls);
    assert(st2.html =~= list_html(seq![x]));
    assert(st2.paragraph =~= seq![y]);
    assert(joined(seq![y], " "@) == y);
    let h = closed_blocks(ls).html;
    assert(h =~= list_html(seq![x]) + paragraph_html(seq![y]));
    lemma_trim_html(h);
    assert(h.drop_last() =~= "<ul>\n  <li>"@ + inline_markup(x) + "</li>\n</ul>\n<p>"@
        + inline_markup(y) + "</p>"@);
}

} // verus!
