//! HTML escaping of text.

use vstd::prelude::*;
use crate::text::{chars_of, push_char};

verus! {

/// The HTML text that stands for `c`.
pub open spec fn escaped_char(c: char) -> Seq<char> {
    if c == '&' {
        "&amp;"@
    } else if c == '<' {
        "&lt;"@
    } else if c == '>' {
        "&gt;"@
    } else if c == '"' {
        "&quot;"@
    } else if c == '\'' {
        "&#39;"@
    } else {
        seq![c]
    }
}

/// The HTML text that stands for `s`: each character escaped in turn.
pub open spec fn escaped(s: Seq<char>) -> Seq<char> {
    s.map_values(|c: char| escaped_char(c)).flatten()
}

/// The escaped form of one character.
pub fn html_encode_char(character: char) -> (r: String)
    ensures
        r@ == escaped_char(character),
{
    if character == '&' {
        String::from_str("&amp;")
    } else if character == '<' {
        String::from_str("&lt;")
    } else if character == '>' {
        String::from_str("&gt;")
    } else if character == '"' {
        String::from_str("&quot;")
    } else if character == '\'' {
        String::from_str("&#39;")
    } else {
        let mut r = String::new();
        push_char(&mut r, character);
        r
    }
}

/// Appends the escaped form of `c` to `out`.
pub fn push_escaped_char(out: &mut String, c: char)
    ensures
        final(out)@ == old(out)@ + escaped_char(c),
{
    if c == '&' {
        out.append("&amp;");
    } else if c == '<' {
        out.append("&lt;");
    } else if c == '>' {
        out.append("&gt;");
    } else if c == '"' {
        out.append("&quot;");
    } else if c == '\'' {
        out.append("&#39;");
    } else {
        push_char(out, c);
        assert(old(out)@.push(c) =~= old(out)@ + seq![c]);
    }
}

/// Escaping one more character appends its escaped form.
pub proof fn lemma_escaped_push(s: Seq<char>, c: char)
    ensures
        escaped(s.push(c)) == escaped(s) + escaped_char(c),
{
    let f = |c: char| escaped_char(c);
    assert(s.push(c).map_values(f) =~= s.map_values(f).push(f(c)));
    s.map_values(f).lemma_flatten_push(f(c));
}

/// Appends the escaped form of `s[from..to]` to `out`.
pub fn push_escaped_range(out: &mut String, s: &[char], from: usize, to: usize)
    requires
        from <= to <= s@.len(),
    ensures
        final(out)@ == old(out)@ + escaped(s@.subrange(from as int, to as int)),
{
    let mut i: usize = from;
    assert(s@.subrange(from as int, from as int) =~= Seq::<char>::empty());
    assert(escaped(Seq::<char>::empty()) =~= Seq::<char>::empty());
    assert(old(out)@ + Seq::<char>::empty() =~= old(out)@);
    while i < to
        invariant
            from <= i <= to <= s@.len(),
            out@ == old(out)@ + escaped(s@.subrange(from as int, i as int)),
        decreases to - i,
    {
        push_escaped_char(out, s[i]);
        proof {
            assert(s@.subrange(from as int, i + 1) =~= s@.subrange(from as int, i as int).push(
                s@[i as int],
            ));
            lemma_escaped_push(s@.subrange(from as int, i as int), s@[i as int]);
        }
        i = i + 1;
    }
}

/// The escaped form of `value`.
pub fn html_encode(value: &str) -> (r: String)
    ensures
        r@ == escaped(value@),
{
    let v = chars_of(value);
    let mut r = String::new();
    push_escaped_range(&mut r, v.as_slice(), 0, v.len());
    assert(v@.subrange(0, v@.len() as int) =~= v@);
    assert(Seq::<char>::empty() + escaped(v@) =~= escaped(v@));
    r
}

// ---------------------------------------------------------------------------
// Laws
// ---------------------------------------------------------------------------

/// Escaping a concatenation escapes each part in turn.
pub proof fn lemma_escape_concat(a: Seq<char>, b: Seq<char>)
    ensures
        escaped(a + b) == escaped(a) + escaped(b),
{
    let f = |c: char| escaped_char(c);
    assert((a + b).map_values(f) =~= a.map_values(f) + b.map_values(f));
    vstd::seq_lib::lemma_flatten_concat(a.map_values(f), b.map_values(f));
}

/// Escaping one character gives its escaped form.
pub proof fn lemma_escape_single(c: char)
    ensures
        escaped(seq![c]) == escaped_char(c),
{
    lemma_escaped_push(Seq::empty(), c);
    assert(Seq::<char>::empty().push(c) =~= seq![c]);
    assert(Seq::<char>::empty().map_values(|c: char| escaped_char(c)) =~= Seq::<Seq<char>>::empty());
    assert(Seq::<char>::empty() + escaped_char(c) =~= escaped_char(c));
}

/// No character that opens or closes markup or an attribute value.
pub open spec fn markup_free(s: Seq<char>) -> bool {
    forall|i: int| 0 <= i < s.len() ==> #[trigger] s[i] != '<' && s[i] != '>' && s[i] != '"' && s[i] != '\''
}

/// Escaped text holds no `<`, `>`, `"` or `'`: whatever it is placed into,
/// it cannot open a tag or end an attribute value.
pub proof fn lemma_escaped_markup_free(s: Seq<char>)
    ensures
        markup_free(escaped(s)),
    decreases s.len(),
{
    if s.len() > 0 {
        lemma_escaped_markup_free(s.drop_last());
        assert(s.drop_last().push(s.last()) =~= s);
        lemma_escaped_push(s.drop_last(), s.last());
        reveal_strlit("&amp;");
        reveal_strlit("&lt;");
        reveal_strlit("&gt;");
        reveal_strlit("&quot;");
        reveal_strlit("&#39;");
        let e = escaped_char(s.last());
        assert(markup_free(e));
        let p = escaped(s.drop_last());
        assert forall|i: int| 0 <= i < (p + e).len() implies #[trigger] (p + e)[i] != '<' && (p + e)[i]
            != '>' && (p + e)[i] != '"' && (p + e)[i] != '\'' by {
            if i < p.len() {
                assert((p + e)[i] == p[i]);
            } else {
                assert((p + e)[i] == e[i - p.len()]);
            }
        }
    } else {
        assert(s.map_values(|c: char| escaped_char(c)) =~= Seq::<Seq<char>>::empty());
    }
}

/// Text without `&`, `<`, `>`, `"` and `'` is left as it is.
pub proof fn lemma_escape_plain(s: Seq<char>)
    requires
        forall|i: int| 0 <= i < s.len() ==> #[trigger] s[i] != '&' && s[i] != '<' && s[i] != '>'
            && s[i] != '"' && s[i] != '\'',
    ensures
        escaped(s) == s,
    decreases s.len(),
{
    if s.len() > 0 {
        lemma_escape_plain(s.drop_last());
        assert(s.drop_last().push(s.last()) =~= s);
        lemma_escaped_push(s.drop_last(), s.last());
        assert(s.drop_last() + seq![s.last()] =~= s);
    } else {
        assert(s.map_values(|c: char| escaped_char(c)) =~= Seq::<Seq<char>>::empty());
    }
}

/// Every character has a non-empty escaped form, which begins with `&`
/// exactly when the character is escaped.
proof fn lemma_escaped_char_shape(c: char)
    ensures
        escaped_char(c).len() > 0,
        (escaped_char(c)[0] == '&') == (c == '&' || c == '<' || c == '>' || c == '"' || c == '\''),
        !(c == '&' || c == '<' || c == '>' || c == '"' || c == '\'') ==> escaped_char(c) == seq![c],
        (c == '&' || c == '<' || c == '>' || c == '"' || c == '\'') ==> escaped_char(c).len() >= 2,
{
    reveal_strlit("&amp;");
    reveal_strlit("&lt;");
    reveal_strlit("&gt;");
    reveal_strlit("&quot;");
    reveal_strlit("&#39;");
}

/// Two characters whose escaped forms begin alike in their first two
/// positions are the same character.
proof fn lemma_escaped_char_distinct(c: char, d: char)
    requires
        c == '&' || c == '<' || c == '>' || c == '"' || c == '\'',
        d == '&' || d == '<' || d == '>' || d == '"' || d == '\'',
        escaped_char(c)[1] == escaped_char(d)[1],
    ensures
        c == d,
{
    reveal_strlit("&amp;");
    reveal_strlit("&lt;");
    reveal_strlit("&gt;");
    reveal_strlit("&quot;");
    reveal_strlit("&#39;");
}

/// Escaping loses nothing: different texts have different escaped forms.
pub proof fn lemma_escape_injective(a: Seq<char>, b: Seq<char>)
    requires
        escaped(a) == escaped(b),
    ensures
        a == b,
    decreases a.len(),
{
    if a.len() == 0 {
        assert(a.map_values(|c: char| escaped_char(c)) =~= Seq::<Seq<char>>::empty());
        if b.len() > 0 {
            assert(b =~= seq![b[0]] + b.drop_first());
            lemma_escape_concat(seq![b[0]], b.drop_first());
            lemma_escape_single(b[0]);
            lemma_escaped_char_shape(b[0]);
            assert(escaped(b).len() > 0);
        }
        assert(a =~= b);
    } else {
        assert(a =~= seq![a[0]] + a.drop_first());
        lemma_escape_concat(seq![a[0]], a.drop_first());
        lemma_escape_single(a[0]);
        lemma_escaped_char_shape(a[0]);
        if b.len() == 0 {
            assert(b.map_values(|c: char| escaped_char(c)) =~= Seq::<Seq<char>>::empty());
            assert(escaped(a).len() > 0);
        } else {
            assert(b =~= seq![b[0]] + b.drop_first());
            lemma_escape_concat(seq![b[0]], b.drop_first());
            lemma_escape_single(b[0]);
            lemma_escaped_char_shape(b[0]);
            let ea = escaped_char(a[0]);
            let eb = escaped_char(b[0]);
            let ra = escaped(a.drop_first());
            let rb = escaped(b.drop_first());
            assert(escaped(a) == ea + ra);
            assert(escaped(b) == eb + rb);
            assert((ea + ra)[0] == ea[0]);
            assert((eb + rb)[0] == eb[0]);
            if ea[0] == '&' {
                assert((ea + ra)[1] == ea[1]);
                assert((eb + rb)[1] == eb[1]);
                lemma_escaped_char_distinct(a[0], b[0]);
            } else {
                assert(a[0] == b[0]);
            }
            assert(ea == eb);
            assert(ra =~= (ea + ra).skip(ea.len() as int));
            assert(rb =~= (eb + rb).skip(eb.len() as int));
            lemma_escape_injective(a.drop_first(), b.drop_first());
        }
    }
}

} // verus!
