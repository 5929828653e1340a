//! Inline markup: `` `code` `` and `**strong**` spans inside one block.

use vstd::prelude::*;
use crate::escape::{
    escaped, escaped_char, lemma_escape_concat, lemma_escape_single, push_escaped_char,
    push_escaped_range,
};
use crate::text::{
    chars_of, find_char, find_pair, index_of, index_of_pair, lemma_index_of, lemma_index_of_pair,
};

verus! {

/// The HTML for `t[i..]`, read from position `i`.
///
/// A backtick opens a code span that runs to the next backtick; two stars
/// open a strong span that runs to the next pair of stars. A marker
/// without its closing partner is ordinary text. Everything else is
/// escaped character by character.
pub open spec fn inline_from(t: Seq<char>, i: int) -> Seq<char>
    decreases t.len() - i,
{
    if i < 0 || i >= t.len() {
        Seq::empty()
    } else {
        proof {
            lemma_index_of(t.skip(i + 1), '`');
            lemma_index_of_pair(t.skip(i + 2), '*');
        }
        if t[i] == '`' && index_of(t.skip(i + 1), '`') is Some {
            let e = index_of(t.skip(i + 1), '`')->0;
            "<code>"@ + escaped(t.subrange(i + 1, i + 1 + e)) + "</code>"@ + inline_from(
                t,
                i + e + 2,
            )
        } else if t[i] == '*' && i + 1 < t.len() && t[i + 1] == '*' && index_of_pair(
            t.skip(i + 2),
            '*',
        ) is Some {
            let e = index_of_pair(t.skip(i + 2), '*')->0;
            "<strong>"@ + escaped(t.subrange(i + 2, i + 2 + e)) + "</strong>"@ + inline_from(
                t,
                i + e + 4,
            )
        } else {
            escaped_char(t[i]) + inline_from(t, i + 1)
        }
    }
}

/// The HTML for the inline markup in `t`.
pub open spec fn inline_markup(t: Seq<char>) -> Seq<char> {
    inline_from(t, 0)
}

/// Renders the inline markup of `t` into HTML.
pub fn render_inline_chars(t: &[char]) -> (r: String)
    ensures
        r@ == inline_markup(t@),
{
    let mut result = String::new();
    let mut index: usize = 0;
    while index < t.len()
        invariant
            index <= t@.len(),
            result@ + inline_from(t@, index as int) == inline_markup(t@),
        decreases t@.len() - index,
    {
        let ghost before = result@;
        let ghost i = index as int;
        proof {
            lemma_index_of(t@.skip(i + 1), '`');
            lemma_index_of_pair(t@.skip(i + 2), '*');
        }
        if t[index] == '`' {
            if let Some(end) = find_char(t, index + 1, '`') {
                let start = index + 1;
                let finish = start + end;
                result.append("<code>");
                push_escaped_range(&mut result, t, start, finish);
                result.append("</code>");
                assert(result@ + inline_from(t@, finish + 1) =~= before + inline_from(t@, i));
                index = finish + 1;
                continue;
            }
        }
        if t[index] == '*' && index + 1 < t.len() && t[index + 1] == '*' {
            if let Some(end) = find_pair(t, index + 2, '*') {
                let start = index + 2;
                let finish = start + end;
                result.append("<strong>");
                push_escaped_range(&mut result, t, start, finish);
                result.append("</strong>");
                assert(result@ + inline_from(t@, finish + 2) =~= before + inline_from(t@, i));
                index = finish + 2;
                continue;
            }
        }
        push_escaped_char(&mut result, t[index]);
        assert(result@ + inline_from(t@, i + 1) =~= before + inline_from(t@, i));
        index = index + 1;
    }
    assert(result@ + inline_from(t@, index as int) =~= result@);
    result
}

/// Renders the inline markup of `text` into HTML.
pub fn render_inline(text: &str) -> (r: String)
    ensures
        r@ == inline_markup(text@),
{
    let v = chars_of(text);
    render_inline_chars(v.as_slice())
}

/// Text without backticks or stars carries no inline markup: it is only
/// escaped (brackets and other punctuation pass through unchanged).
pub proof fn lemma_inline_plain(t: Seq<char>)
    requires
        forall|i: int| 0 <= i < t.len() ==> #[trigger] t[i] != '`' && t[i] != '*',
    ensures
        inline_markup(t) == escaped(t),
{
    lemma_inline_plain_from(t, 0);
    assert(t.skip(0) =~= t);
}

proof fn lemma_inline_plain_from(t: Seq<char>, i: int)
    requires
        0 <= i <= t.len(),
        forall|j: int| 0 <= j < t.len() ==> #[trigger] t[j] != '`' && t[j] != '*',
    ensures
        inline_from(t, i) == escaped(t.skip(i)),
    decreases t.len() - i,
{
    if i == t.len() {
        assert(t.skip(i) =~= Seq::<char>::empty());
        assert(Seq::<char>::empty().map_values(|c: char| escaped_char(c)) =~= Seq::<Seq<char>>::empty());
    } else {
        lemma_inline_plain_from(t, i + 1);
        assert(t.skip(i) =~= seq![t[i]] + t.skip(i + 1));
        lemma_escape_concat(seq![t[i]], t.skip(i + 1));
        lemma_escape_single(t[i]);
    }
}


/// Rendering from a position depends only on the text from there on.
proof fn lemma_inline_shift(p: Seq<char>, r: Seq<char>, i: int)
    requires
        0 <= i <= r.len(),
    ensures
        inline_from(p + r, p.len() + i) == inline_from(r, i),
    decreases r.len() - i,
{
    let t = p + r;
    let j = p.len() + i;
    if i < r.len() {
        assert(t[j] == r[i]);
        assert(t.skip(j + 1) =~= r.skip(i + 1));
        if i + 2 <= r.len() {
            assert(t.skip(j + 2) =~= r.skip(i + 2));
            assert(t[j + 1] == r[i + 1]);
        }
        lemma_index_of(r.skip(i + 1), '`');
        lemma_index_of_pair(r.skip(i + 2), '*');
        if r[i] == '`' && index_of(r.skip(i + 1), '`') is Some {
            let e = index_of(r.skip(i + 1), '`')->0;
            assert(t.subrange(j + 1, j + 1 + e) =~= r.subrange(i + 1, i + 1 + e));
            lemma_inline_shift(p, r, i + e + 2);
        } else if r[i] == '*' && i + 1 < r.len() && r[i + 1] == '*' && index_of_pair(
            r.skip(i + 2),
            '*',
        ) is Some {
            let e = index_of_pair(r.skip(i + 2), '*')->0;
            assert(t.subrange(j + 2, j + 2 + e) =~= r.subrange(i + 2, i + 2 + e));
            lemma_inline_shift(p, r, i + e + 4);
        } else {
            lemma_inline_shift(p, r, i + 1);
        }
    } else {
        assert(j >= t.len());
    }
}

/// A character that opens no span is escaped, and rendering goes on with
/// the rest of the text.
pub proof fn lemma_inline_plain_char(c: char, r: Seq<char>)
    requires
        c != '`',
        c != '*',
    ensures
        inline_markup(seq![c] + r) == escaped_char(c) + inline_markup(r),
{
    lemma_inline_shift(seq![c], r, 0);
    assert((seq![c] + r)[0] == c);
}

/// A code span: the text between two backticks is escaped inside
/// `<code>`, and rendering goes on after the closing backtick.
pub proof fn lemma_inline_code_span(s: Seq<char>, r: Seq<char>)
    requires
        forall|i: int| 0 <= i < s.len() ==> s[i] != '`',
    ensures
        inline_markup(seq!['`'] + s + seq!['`'] + r) == "<code>"@ + escaped(s) + "</code>"@
            + inline_markup(r),
{
    let pre = seq!['`'] + s + seq!['`'];
    let t = pre + r;
    assert(t[0] == '`');
    let u = t.skip(1);
    assert(u =~= s + (seq!['`'] + r));
    crate::text::lemma_index_of_concat(s, seq!['`'] + r, '`');
    lemma_index_of(s, '`');
    if let Some(k) = index_of(s, '`') {
        assert(s[k] == '`');
    }
    assert(index_of(seq!['`'] + r, '`') == Some(0int));
    assert(index_of(u, '`') == Some(s.len() as int));
    assert(t.subrange(1, 1 + s.len() as int) =~= s);
    lemma_inline_shift(pre, r, 0);
}

/// A strong span: the text between two pairs of stars is escaped inside
/// `<strong>`, and rendering goes on after the closing pair.
pub proof fn lemma_inline_strong_span(s: Seq<char>, r: Seq<char>)
    requires
        index_of_pair(s, '*') is None,
        s.len() == 0 || s.last() != '*',
    ensures
        inline_markup(seq!['*', '*'] + s + seq!['*', '*'] + r) == "<strong>"@ + escaped(s)
            + "</strong>"@ + inline_markup(r),
{
    let pre = seq!['*', '*'] + s + seq!['*', '*'];
    let t = pre + r;
    let n = s.len() as int;
    assert(t[0] == '*' && t[1] == '*');
    let u = t.skip(2);
    assert(u =~= s + seq!['*', '*'] + r);
    lemma_index_of_pair(u, '*');
    lemma_index_of_pair(s, '*');
    assert(u[n] == '*' && u[n + 1] == '*');
    assert(crate::text::doubled_at(u, n, '*'));
    match index_of_pair(u, '*') {
        Some(k) => {
            if k < n {
                assert(crate::text::doubled_at(u, k, '*'));
                if k + 1 < n {
                    assert(u[k] == s[k] && u[k + 1] == s[k + 1]);
                    assert(crate::text::doubled_at(s, k, '*'));
                } else {
                    assert(u[k] == s.last());
                }
            }
        },
        None => {},
    }
    assert(index_of_pair(u, '*') == Some(n));
    assert(t.subrange(2, 2 + n) =~= s);
    lemma_inline_shift(pre, r, 0);
}


/// A backtick with no closing backtick after it is ordinary text.
pub proof fn lemma_inline_unclosed_code(r: Seq<char>)
    requires
        forall|i: int| 0 <= i < r.len() ==> r[i] != '`',
    ensures
        inline_markup(seq!['`'] + r) == seq!['`'] + inline_markup(r),
{
    let t = seq!['`'] + r;
    assert(t[0] == '`');
    assert(t.skip(1) =~= r);
    lemma_index_of(r, '`');
    if let Some(k) = index_of(r, '`') {
        assert(r[k] == '`');
    }
    lemma_inline_shift(seq!['`'], r, 0);
}

/// Two stars with no closing pair after them are ordinary text.
pub proof fn lemma_inline_unclosed_strong(r: Seq<char>)
    requires
        index_of_pair(r, '*') is None,
        r.len() == 0 || r[0] != '*',
    ensures
        inline_markup(seq!['*', '*'] + r) == seq!['*', '*'] + inline_markup(r),
{
    let t = seq!['*', '*'] + r;
    assert(t[0] == '*' && t[1] == '*');
    assert(t.skip(2) =~= r);
    if t.len() >= 3 {
        assert(t.skip(3) =~= r.skip(1));
        lemma_index_of_pair(r, '*');
    }
    lemma_inline_shift(seq!['*', '*'], r, 0);
    lemma_inline_shift(seq!['*'], seq!['*'] + r, 1);
    assert(seq!['*'] + (seq!['*'] + r) =~= t);
    assert(t[1] == '*');
    assert(t.skip(2) =~= r);
    assert(inline_from(t, 2) == inline_markup(r));
    assert(inline_from(t, 1) == seq!['*'] + inline_from(t, 2));
    assert(inline_from(t, 0) == seq!['*'] + inline_from(t, 1));
    assert(seq!['*'] + (seq!['*'] + inline_markup(r)) =~= seq!['*', '*'] + inline_markup(r));
}

} // verus!
