//! Character-level text utilities: the handful of `str` operations the
//! generator relies on, each stated over the character sequence of a string.

use vstd::prelude::*;

verus! {

/// Appends one character to a string.
///
/// Trusted: calls `String::push`, which the standard library documents as
/// appending the given `char` to the end of the string.
#[verifier::external_body]
pub(crate) fn push_char(s: &mut String, c: char)
    ensures
        final(s)@ == old(s)@.push(c),
{
    s.push(c);
}

/// The Unicode `White_Space` property, which `char::is_whitespace` tests:
/// U+0009–U+000D, U+0020, U+0085, U+00A0, U+1680, U+2000–U+200A, U+2028,
/// U+2029, U+202F, U+205F and U+3000.
pub open spec fn white_space(c: char) -> bool {
    ||| ('\u{9}' <= c && c <= '\u{d}')
    ||| c == ' '
    ||| c == '\u{85}'
    ||| c == '\u{a0}'
    ||| c == '\u{1680}'
    ||| ('\u{2000}' <= c && c <= '\u{200a}')
    ||| c == '\u{2028}'
    ||| c == '\u{2029}'
    ||| c == '\u{202f}'
    ||| c == '\u{205f}'
    ||| c == '\u{3000}'
}

/// Whether `c` is white space (`char::is_whitespace`).
pub fn is_whitespace(c: char) -> (r: bool)
    ensures
        r == white_space(c),
{
    ('\u{9}' <= c && c <= '\u{d}') || c == ' ' || c == '\u{85}' || c == '\u{a0}' || c == '\u{1680}'
        || ('\u{2000}' <= c && c <= '\u{200a}') || c == '\u{2028}' || c == '\u{2029}' || c
        == '\u{202f}' || c == '\u{205f}' || c == '\u{3000}'
}

/// The characters of `s`, in order.
pub fn chars_of(s: &str) -> (r: Vec<char>)
    ensures
        r@ == s@,
{
    let mut r: Vec<char> = Vec::new();
    for c in it: s.chars()
        invariant
            r@ == it.history(),
    {
        r.push(c);
    }
    r
}

/// The string made of the characters `v[from..to]`.
pub fn string_of_range(v: &[char], from: usize, to: usize) -> (r: String)
    requires
        from <= to <= v@.len(),
    ensures
        r@ == v@.subrange(from as int, to as int),
{
    let mut r = String::new();
    let mut i: usize = from;
    while i < to
        invariant
            from <= i <= to <= v@.len(),
            r@ == v@.subrange(from as int, i as int),
        decreases to - i,
    {
        push_char(&mut r, v[i]);
        assert(v@.subrange(from as int, i as int).push(v@[i as int]) =~= v@.subrange(
            from as int,
            i + 1,
        ));
        i = i + 1;
    }
    r
}

/// Whether two character sequences are equal.
pub fn same_chars(a: &[char], b: &[char]) -> (r: bool)
    ensures
        r == (a@ == b@),
{
    if a.len() != b.len() {
        return false;
    }
    let mut i: usize = 0;
    while i < a.len()
        invariant
            a@.len() == b@.len(),
            i <= a@.len(),
            forall|k: int| 0 <= k < i ==> a@[k] == b@[k],
        decreases a@.len() - i,
    {
        if a[i] != b[i] {
            return false;
        }
        i = i + 1;
    }
    assert(a@ =~= b@);
    true
}

/// Whether two strings hold the same characters.
pub fn same_text(a: &str, b: &str) -> (r: bool)
    ensures
        r == (a@ == b@),
{
    let x = chars_of(a);
    let y = chars_of(b);
    same_chars(x.as_slice(), y.as_slice())
}

// ---------------------------------------------------------------------------
// Trimming
// ---------------------------------------------------------------------------

/// Whether `c` is removed by a trim: white space when `target` is `None`,
/// else exactly the character `target`.
pub open spec fn trims(c: char, target: Option<char>) -> bool {
    match target {
        None => white_space(c),
        Some(t) => c == t,
    }
}

/// How many characters at the front of `s` a trim removes.
pub open spec fn leading_count(s: Seq<char>, target: Option<char>) -> nat
    decreases s.len(),
{
    if s.len() > 0 && trims(s[0], target) {
        1 + leading_count(s.drop_first(), target)
    } else {
        0
    }
}

/// How many characters at the back of `s` a trim removes.
pub open spec fn trailing_count(s: Seq<char>, target: Option<char>) -> nat
    decreases s.len(),
{
    if s.len() > 0 && trims(s.last(), target) {
        1 + trailing_count(s.drop_last(), target)
    } else {
        0
    }
}

pub proof fn lemma_leading_count_bound(s: Seq<char>, target: Option<char>)
    ensures
        leading_count(s, target) <= s.len(),
    decreases s.len(),
{
    if s.len() > 0 && trims(s[0], target) {
        lemma_leading_count_bound(s.drop_first(), target);
    }
}

pub proof fn lemma_trailing_count_bound(s: Seq<char>, target: Option<char>)
    ensures
        trailing_count(s, target) <= s.len(),
    decreases s.len(),
{
    if s.len() > 0 && trims(s.last(), target) {
        lemma_trailing_count_bound(s.drop_last(), target);
    }
}

proof fn lemma_leading_stop(s: Seq<char>, target: Option<char>)
    ensures
        leading_count(s, target) < s.len() ==> !trims(s[leading_count(s, target) as int], target),
    decreases s.len(),
{
    if s.len() > 0 && trims(s[0], target) {
        lemma_leading_stop(s.drop_first(), target);
    }
}

proof fn lemma_trailing_stop(s: Seq<char>, target: Option<char>)
    ensures
        trailing_count(s, target) < s.len() ==> !trims(
            s[s.len() - 1 - trailing_count(s, target)],
            target,
        ),
    decreases s.len(),
{
    if s.len() > 0 && trims(s.last(), target) {
        lemma_trailing_stop(s.drop_last(), target);
    }
}

/// `s` with the leading and then the trailing trimmed characters removed.
pub open spec fn trim_both(s: Seq<char>, target: Option<char>) -> Seq<char> {
    let r = s.skip(leading_count(s, target) as int);
    r.take(r.len() - trailing_count(r, target))
}

/// A trimmed text neither begins nor ends with a trimmed character.
pub proof fn lemma_trim_ends(s: Seq<char>, target: Option<char>)
    ensures
        trim_both(s, target).len() > 0 ==> !trims(trim_both(s, target)[0], target) && !trims(
            trim_both(s, target).last(),
            target,
        ),
{
    lemma_leading_count_bound(s, target);
    lemma_leading_stop(s, target);
    let r = s.skip(leading_count(s, target) as int);
    lemma_trailing_count_bound(r, target);
    lemma_trailing_stop(r, target);
}

/// `str::trim`: leading and trailing white space removed.
pub open spec fn trimmed(s: Seq<char>) -> Seq<char> {
    trim_both(s, None)
}

/// `str::trim_matches(c)`: every leading and trailing `c` removed.
pub open spec fn trimmed_of(s: Seq<char>, c: char) -> Seq<char> {
    trim_both(s, Some(c))
}

fn trims_exec(c: char, target: Option<char>) -> (r: bool)
    ensures
        r == trims(c, target),
{
    match target {
        None => is_whitespace(c),
        Some(t) => c == t,
    }
}

/// The bounds, within `s`, of the trimmed `s[from..to]`.
pub fn trim_range(s: &[char], from: usize, to: usize, target: Option<char>) -> (r: (
    usize,
    usize,
))
    requires
        from <= to <= s@.len(),
    ensures
        from <= r.0 <= r.1 <= to,
        s@.subrange(r.0 as int, r.1 as int) == trim_both(s@.subrange(from as int, to as int), target),
{
    let ghost t = s@.subrange(from as int, to as int);
    let mut i: usize = from;
    while i < to && trims_exec(s[i], target)
        invariant
            from <= i <= to <= s@.len(),
            t == s@.subrange(from as int, to as int),
            leading_count(t, target) == (i - from) + leading_count(
                s@.subrange(i as int, to as int),
                target,
            ),
        decreases to - i,
    {
        assert(s@.subrange(i as int, to as int).drop_first() =~= s@.subrange(i + 1, to as int));
        i = i + 1;
    }
    assert(leading_count(s@.subrange(i as int, to as int), target) == 0);
    assert(t.skip(i - from) =~= s@.subrange(i as int, to as int));
    let ghost u = s@.subrange(i as int, to as int);
    let mut j: usize = to;
    while j > i && trims_exec(s[j - 1], target)
        invariant
            from <= i <= j <= to <= s@.len(),
            u == s@.subrange(i as int, to as int),
            trailing_count(u, target) == (to - j) + trailing_count(
                s@.subrange(i as int, j as int),
                target,
            ),
        decreases j - i,
    {
        assert(s@.subrange(i as int, j as int).drop_last() =~= s@.subrange(i as int, j - 1));
        j = j - 1;
    }
    assert(trailing_count(s@.subrange(i as int, j as int), target) == 0);
    assert(u.take(u.len() - trailing_count(u, target)) =~= s@.subrange(i as int, j as int));
    (i, j)
}

/// `str::trim`.
pub fn trim_text(s: &str) -> (r: String)
    ensures
        r@ == trimmed(s@),
{
    let v = chars_of(s);
    let (a, b) = trim_range(v.as_slice(), 0, v.len(), None);
    assert(v@.subrange(0, v@.len() as int) =~= v@);
    string_of_range(v.as_slice(), a, b)
}


// ---------------------------------------------------------------------------
// Prefixes and suffixes
// ---------------------------------------------------------------------------

/// `s` begins with `p`.
pub open spec fn has_prefix(s: Seq<char>, p: Seq<char>) -> bool {
    p.len() <= s.len() && s.take(p.len() as int) == p
}

/// `s` ends with `p`.
pub open spec fn has_suffix(s: Seq<char>, p: Seq<char>) -> bool {
    p.len() <= s.len() && s.skip(s.len() - p.len()) == p
}

/// Whether `s[from..to]` begins with `p`.
pub fn starts_with_at(s: &[char], from: usize, to: usize, p: &[char]) -> (r: bool)
    requires
        from <= to <= s@.len(),
    ensures
        r == has_prefix(s@.subrange(from as int, to as int), p@),
{
    let ghost t = s@.subrange(from as int, to as int);
    if p.len() > to - from {
        return false;
    }
    let mut k: usize = 0;
    while k < p.len()
        invariant
            from + p@.len() <= to <= s@.len(),
            t == s@.subrange(from as int, to as int),
            k <= p@.len(),
            forall|m: int| 0 <= m < k ==> s@[from + m] == p@[m],
        decreases p@.len() - k,
    {
        if s[from + k] != p[k] {
            assert(t.take(p@.len() as int)[k as int] != p@[k as int]);
            return false;
        }
        k = k + 1;
    }
    assert(t.take(p@.len() as int) =~= p@);
    true
}

/// `str::starts_with` for a string pattern.
pub fn text_starts_with(s: &str, p: &str) -> (r: bool)
    ensures
        r == has_prefix(s@, p@),
{
    let v = chars_of(s);
    let w = chars_of(p);
    assert(v@.subrange(0, v@.len() as int) =~= v@);
    starts_with_at(v.as_slice(), 0, v.len(), w.as_slice())
}

/// `str::ends_with` for a string pattern.
pub fn text_ends_with(s: &str, p: &str) -> (r: bool)
    ensures
        r == has_suffix(s@, p@),
{
    let v = chars_of(s);
    let w = chars_of(p);
    if w.len() > v.len() {
        return false;
    }
    let r = starts_with_at(v.as_slice(), v.len() - w.len(), v.len(), w.as_slice());
    let ghost tail = v@.subrange(v@.len() - w@.len(), v@.len() as int);
    assert(tail =~= v@.skip(v@.len() - w@.len()));
    assert(tail.take(w@.len() as int) =~= tail);
    r
}

// ---------------------------------------------------------------------------
// Searching
// ---------------------------------------------------------------------------

/// Index of the first `c` in `s`.
pub open spec fn index_of(s: Seq<char>, c: char) -> Option<int>
    decreases s.len(),
{
    if s.len() == 0 {
        None
    } else if s[0] == c {
        Some(0)
    } else {
        match index_of(s.drop_first(), c) {
            Some(k) => Some(k + 1),
            None => None,
        }
    }
}

/// `s` holds `c` at `j` and at `j + 1`.
pub open spec fn doubled_at(s: Seq<char>, j: int, c: char) -> bool {
    s[j] == c && s[j + 1] == c
}

/// Index of the first place where `s` holds `c` twice in a row.
pub open spec fn index_of_pair(s: Seq<char>, c: char) -> Option<int>
    decreases s.len(),
{
    if s.len() < 2 {
        None
    } else if s[0] == c && s[1] == c {
        Some(0)
    } else {
        match index_of_pair(s.drop_first(), c) {
            Some(k) => Some(k + 1),
            None => None,
        }
    }
}

/// `index_of` is the first occurrence, or `None` where there is none.
pub proof fn lemma_index_of(s: Seq<char>, c: char)
    ensures
        index_of(s, c) matches Some(k) ==> {
            &&& 0 <= k < s.len()
            &&& s[k] == c
            &&& forall|j: int| 0 <= j < k ==> s[j] != c
        },
        index_of(s, c) is None ==> forall|j: int| 0 <= j < s.len() ==> s[j] != c,
    decreases s.len(),
{
    if s.len() > 0 && s[0] != c {
        lemma_index_of(s.drop_first(), c);
        assert forall|j: int| 0 < j < s.len() implies s[j] == s.drop_first()[j - 1] by {}
    }
}

/// `index_of_pair` is the first pair, or `None` where there is none.
pub proof fn lemma_index_of_pair(s: Seq<char>, c: char)
    ensures
        index_of_pair(s, c) matches Some(k) ==> {
            &&& 0 <= k && k + 1 < s.len()
            &&& s[k] == c && s[k + 1] == c
            &&& forall|j: int| 0 <= j < k ==> !#[trigger] doubled_at(s, j, c)
        },
        index_of_pair(s, c) is None ==> forall|j: int|
            0 <= j && j + 1 < s.len() ==> !#[trigger] doubled_at(s, j, c),
    decreases s.len(),
{
    if s.len() >= 2 && !(s[0] == c && s[1] == c) {
        lemma_index_of_pair(s.drop_first(), c);
        assert forall|j: int| 0 < j && j + 1 < s.len() implies doubled_at(s, j, c) == doubled_at(
            s.drop_first(),
            j - 1,
            c,
        ) by {}
    }
}

/// The first `c` in `s[start..]`, as an offset from `start`.
pub fn find_char(s: &[char], start: usize, c: char) -> (r: Option<usize>)
    requires
        start <= s@.len(),
    ensures
        r matches Some(k) ==> index_of(s@.skip(start as int), c) == Some(k as int),
        r matches Some(k) ==> start + k < s@.len() && s@[start + k] == c,
        r is None ==> index_of(s@.skip(start as int), c) is None,
{
    let ghost t = s@.skip(start as int);
    let mut i: usize = start;
    while i < s.len()
        invariant
            start <= i <= s@.len(),
            t == s@.skip(start as int),
            forall|j: int| start <= j < i ==> s@[j] != c,
        decreases s@.len() - i,
    {
        if s[i] == c {
            proof {
                lemma_index_of(t, c);
                assert(t[i - start] == c);
                assert forall|j: int| 0 <= j < i - start implies t[j] != c by {
                    assert(t[j] == s@[start + j]);
                }
                match index_of(t, c) {
                    Some(k) => {
                        assert(t[k] == c);
                        if k < i - start {
                            assert(t[k] == s@[start + k]);
                        }
                    },
                    None => {},
                }
            }
            return Some(i - start);
        }
        i = i + 1;
    }
    proof {
        lemma_index_of(t, c);
        match index_of(t, c) {
            Some(k) => {
                assert(t[k] == s@[start + k]);
            },
            None => {},
        }
    }
    None
}

/// The first doubled `c` in `s[start..]`, as an offset from `start`.
pub fn find_pair(s: &[char], start: usize, c: char) -> (r: Option<usize>)
    requires
        start <= s@.len(),
    ensures
        r matches Some(k) ==> index_of_pair(s@.skip(start as int), c) == Some(k as int),
        r is None ==> index_of_pair(s@.skip(start as int), c) is None,
{
    let ghost t = s@.skip(start as int);
    let mut i: usize = start;
    while i < s.len() && s.len() - i >= 2
        invariant
            start <= i <= s@.len(),
            t == s@.skip(start as int),
            forall|j: int| 0 <= j < i - start && j + 1 < t.len() ==> !#[trigger] doubled_at(t, j, c),
        decreases s@.len() - i,
    {
        if s[i] == c && s[i + 1] == c {
            proof {
                lemma_index_of_pair(t, c);
                assert(doubled_at(t, i - start, c));
                match index_of_pair(t, c) {
                    Some(k) => {
                        if k < i - start {
                            assert(doubled_at(t, k, c));
                        }
                    },
                    None => {},
                }
            }
            return Some(i - start);
        }
        assert(!doubled_at(t, i - start, c));
        i = i + 1;
    }
    proof {
        lemma_index_of_pair(t, c);
        match index_of_pair(t, c) {
            Some(k) => {
                assert(doubled_at(t, k, c));
            },
            None => {},
        }
    }
    None
}

// ---------------------------------------------------------------------------
// Copying, joining, lines
// ---------------------------------------------------------------------------

/// The characters `s[from..to]` as a new vector.
pub fn copy_range(s: &[char], from: usize, to: usize) -> (r: Vec<char>)
    requires
        from <= to <= s@.len(),
    ensures
        r@ == s@.subrange(from as int, to as int),
{
    let mut r: Vec<char> = Vec::new();
    let mut i: usize = from;
    while i < to
        invariant
            from <= i <= to <= s@.len(),
            r@ == s@.subrange(from as int, i as int),
        decreases to - i,
    {
        r.push(s[i]);
        assert(s@.subrange(from as int, i as int).push(s@[i as int]) =~= s@.subrange(
            from as int,
            i + 1,
        ));
        i = i + 1;
    }
    r
}

/// The pieces of `parts` with `sep` between neighbours (`[T]::join`).
pub open spec fn joined(parts: Seq<Seq<char>>, sep: Seq<char>) -> Seq<char>
    decreases parts.len(),
{
    if parts.len() == 0 {
        Seq::empty()
    } else if parts.len() == 1 {
        parts[0]
    } else {
        joined(parts.drop_last(), sep) + sep + parts.last()
    }
}

/// The character sequences held by a vector of strings.
pub open spec fn texts_of(v: Seq<String>) -> Seq<Seq<char>> {
    v.map_values(|s: String| s@)
}

/// The character sequences held by a vector of character vectors.
pub open spec fn char_texts_of(v: Seq<Vec<char>>) -> Seq<Seq<char>> {
    v.map_values(|s: Vec<char>| s@)
}

/// `parts.join(sep)` for strings.
pub fn join_texts(parts: &Vec<String>, sep: &str) -> (r: String)
    ensures
        r@ == joined(texts_of(parts@), sep@),
{
    let mut r = String::new();
    let ghost all = texts_of(parts@);
    let mut i: usize = 0;
    while i < parts.len()
        invariant
            i <= parts@.len(),
            all == texts_of(parts@),
            r@ == joined(all.take(i as int), sep@),
        decreases parts@.len() - i,
    {
        assert(all.take(i + 1).drop_last() =~= all.take(i as int));
        if i > 0 {
            r.append(sep);
        }
        r.append(parts[i].as_str());
        i = i + 1;
    }
    assert(all.take(parts@.len() as int) =~= all);
    r
}

/// `parts.join(sep)` for character vectors.
pub fn join_chars(parts: &Vec<Vec<char>>, sep: &[char]) -> (r: Vec<char>)
    ensures
        r@ == joined(char_texts_of(parts@), sep@),
{
    let mut r: Vec<char> = Vec::new();
    let ghost all = char_texts_of(parts@);
    let mut i: usize = 0;
    while i < parts.len()
        invariant
            i <= parts@.len(),
            all == char_texts_of(parts@),
            r@ == joined(all.take(i as int), sep@),
        decreases parts@.len() - i,
    {
        assert(all.take(i + 1).drop_last() =~= all.take(i as int));
        if i > 0 {
            let mut k: usize = 0;
            let ghost before = r@;
            while k < sep.len()
                invariant
                    k <= sep@.len(),
                    r@ == before + sep@.take(k as int),
                decreases sep@.len() - k,
            {
                r.push(sep[k]);
                assert(before + sep@.take(k + 1) =~= (before + sep@.take(k as int)).push(sep@[k as int]));
                k = k + 1;
            }
            assert(sep@.take(sep@.len() as int) =~= sep@);
        }
        let ghost before = r@;
        let mut k: usize = 0;
        while k < parts[i].len()
            invariant
                i < parts@.len(),
                k <= parts@[i as int]@.len(),
                r@ == before + parts@[i as int]@.take(k as int),
            decreases parts@[i as int]@.len() - k,
        {
            r.push(parts[i][k]);
            assert(before + parts@[i as int]@.take(k + 1) =~= (before + parts@[i as int]@.take(
                k as int,
            )).push(parts@[i as int]@[k as int]));
            k = k + 1;
        }
        assert(parts@[i as int]@.take(parts@[i as int]@.len() as int) =~= parts@[i as int]@);
        i = i + 1;
    }
    assert(all.take(parts@.len() as int) =~= all);
    r
}

/// `s` without one trailing carriage return.
pub open spec fn without_cr(s: Seq<char>) -> Seq<char> {
    if s.len() > 0 && s.last() == '\r' {
        s.drop_last()
    } else {
        s
    }
}

/// `str::lines`: the pieces between `'\n'` endings, each without a `'\r'`
/// just before its ending; a final ending adds no empty line.
pub open spec fn lines_of(s: Seq<char>) -> Seq<Seq<char>>
    decreases s.len(),
{
    if s.len() == 0 {
        Seq::empty()
    } else {
        proof {
            lemma_index_of(s, '\n');
        }
        match index_of(s, '\n') {
            Some(k) => seq![without_cr(s.take(k))] + lines_of(s.skip(k + 1)),
            None => seq![s],
        }
    }
}

/// The lines of `s`, as `str::lines` gives them.
pub fn lines(s: &[char]) -> (r: Vec<Vec<char>>)
    ensures
        char_texts_of(r@) == lines_of(s@),
{
    let mut r: Vec<Vec<char>> = Vec::new();
    let mut pos: usize = 0;
    assert(s@.skip(0) =~= s@);
    while pos < s.len()
        invariant
            pos <= s@.len(),
            char_texts_of(r@) + lines_of(s@.skip(pos as int)) == lines_of(s@),
        decreases s@.len() - pos,
    {
        let ghost rest = s@.skip(pos as int);
        match find_char(s, pos, '\n') {
            Some(k) => {
                proof {
                    lemma_index_of(rest, '\n');
                }
                let mut end: usize = pos + k;
                if end > pos && s[end - 1] == '\r' {
                    end = end - 1;
                }
                let line = copy_range(s, pos, end);
                assert(line@ == without_cr(rest.take(k as int))) by {
                    assert(rest.take(k as int) =~= s@.subrange(pos as int, pos + k));
                    if k > 0 && s@[pos + k - 1] == '\r' {
                        assert(s@.subrange(pos as int, pos + k).drop_last() =~= s@.subrange(
                            pos as int,
                            pos + k - 1,
                        ));
                    }
                }
                let ghost old_r = char_texts_of(r@);
                r.push(line);
                assert(char_texts_of(r@) =~= old_r.push(line@));
                assert(rest.skip(k + 1) =~= s@.skip(pos + k + 1));
                assert(lines_of(rest) == seq![without_cr(rest.take(k as int))] + lines_of(
                    rest.skip(k + 1),
                ));
                assert(old_r.push(line@) + lines_of(s@.skip(pos + k + 1)) =~= old_r + (seq![
                    line@,
                ] + lines_of(s@.skip(pos + k + 1))));
                pos = pos + k + 1;
            },
            None => {
                let line = copy_range(s, pos, s.len());
                assert(line@ =~= rest);
                let ghost old_r = char_texts_of(r@);
                r.push(line);
                assert(char_texts_of(r@) =~= old_r.push(line@));
                assert(lines_of(rest) == seq![rest]);
                pos = s.len();
                assert(s@.skip(pos as int) =~= Seq::<char>::empty());
                assert(lines_of(s@.skip(pos as int)) =~= Seq::<Seq<char>>::empty());
                assert(old_r.push(line@) + lines_of(s@.skip(pos as int)) =~= old_r + seq![rest]);
            },
        }
    }
    assert(s@.skip(pos as int) =~= Seq::<char>::empty());
    assert(char_texts_of(r@) + lines_of(s@.skip(pos as int)) =~= char_texts_of(r@));
    r
}

/// `str::replace("\r\n", "\n")`: each carriage-return/line-feed pair, read
/// from the left, becomes a single line feed.
pub open spec fn crlf_normalized(s: Seq<char>) -> Seq<char>
    decreases s.len(),
{
    if s.len() == 0 {
        s
    } else if s.len() >= 2 && s[0] == '\r' && s[1] == '\n' {
        seq!['\n'] + crlf_normalized(s.skip(2))
    } else {
        seq![s[0]] + crlf_normalized(s.drop_first())
    }
}

/// `s` with every `"\r\n"` replaced by `"\n"`.
pub fn normalize_newlines(s: &[char]) -> (r: Vec<char>)
    ensures
        r@ == crlf_normalized(s@),
{
    let mut r: Vec<char> = Vec::new();
    let mut i: usize = 0;
    assert(s@.skip(0) =~= s@);
    while i < s.len()
        invariant
            i <= s@.len(),
            r@ + crlf_normalized(s@.skip(i as int)) == crlf_normalized(s@),
        decreases s@.len() - i,
    {
        let ghost rest = s@.skip(i as int);
        let ghost old_r = r@;
        if s.len() - i >= 2 && s[i] == '\r' && s[i + 1] == '\n' {
            r.push('\n');
            assert(rest.skip(2) =~= s@.skip(i + 2));
            assert(old_r.push('\n') + crlf_normalized(s@.skip(i + 2)) =~= old_r + (seq!['\n']
                + crlf_normalized(rest.skip(2))));
            i = i + 2;
        } else {
            r.push(s[i]);
            assert(rest.drop_first() =~= s@.skip(i + 1));
            assert(old_r.push(s@[i as int]) + crlf_normalized(s@.skip(i + 1)) =~= old_r + (seq![
                rest[0],
            ] + crlf_normalized(rest.drop_first())));
            i = i + 1;
        }
    }
    assert(s@.skip(i as int) =~= Seq::<char>::empty());
    assert(r@ + crlf_normalized(s@.skip(i as int)) =~= r@);
    r
}


// ---------------------------------------------------------------------------
// Facts about trimming, line splitting and CRLF normalization
// ---------------------------------------------------------------------------

/// Each line of `ls`, trimmed.
pub open spec fn trimmed_lines(ls: Seq<Seq<char>>) -> Seq<Seq<char>> {
    ls.map_values(|l: Seq<char>| trimmed(l))
}

/// What a trim removes from the front of `u + v`.
proof fn lemma_leading_count_concat(u: Seq<char>, v: Seq<char>, target: Option<char>)
    ensures
        leading_count(u + v, target) == (if leading_count(u, target) < u.len() {
            leading_count(u, target) as int
        } else {
            (u.len() + leading_count(v, target)) as int
        }),
    decreases u.len(),
{
    lemma_leading_count_bound(u, target);
    if u.len() == 0 {
        assert(u + v =~= v);
    } else if trims(u[0], target) {
        assert((u + v).drop_first() =~= u.drop_first() + v);
        lemma_leading_count_concat(u.drop_first(), v, target);
    }
}

/// A text made only of white space loses all of it at the front.
proof fn lemma_leading_count_blank(s: Seq<char>)
    requires
        forall|i: int| 0 <= i < s.len() ==> white_space(s[i]),
    ensures
        leading_count(s, None) == s.len(),
    decreases s.len(),
{
    if s.len() > 0 {
        assert forall|i: int| 0 <= i < s.drop_first().len() implies white_space(
            s.drop_first()[i],
        ) by {
            assert(s.drop_first()[i] == s[i + 1]);
        }
        lemma_leading_count_blank(s.drop_first());
        assert(white_space(s[0]));
    }
}

/// A text made only of white space trims to nothing.
pub proof fn lemma_trimmed_blank(s: Seq<char>)
    requires
        forall|i: int| 0 <= i < s.len() ==> white_space(s[i]),
    ensures
        trimmed(s) == Seq::<char>::empty(),
{
    lemma_leading_count_blank(s);
    let r = s.skip(s.len() as int);
    assert(r =~= Seq::<char>::empty());
    assert(trailing_count(r, None) == 0);
    assert(trimmed(s) =~= Seq::<char>::empty());
}

/// Dropping a final white-space character leaves the trimmed text as it was.
pub proof fn lemma_trimmed_drop_last(s: Seq<char>)
    requires
        s.len() > 0,
        white_space(s.last()),
    ensures
        trimmed(s.drop_last()) == trimmed(s),
{
    let u = s.drop_last();
    let w = s.last();
    assert(s =~= u + seq![w]);
    lemma_leading_count_concat(u, seq![w], None);
    lemma_leading_count_bound(u, None);
    let i = leading_count(u, None);
    if i < u.len() {
        let ru = u.skip(i as int);
        let rs = s.skip(i as int);
        assert(rs.drop_last() =~= ru);
        assert(rs.last() == w);
        lemma_trailing_count_bound(ru, None);
        assert(trailing_count(rs, None) == 1 + trailing_count(ru, None));
        assert(rs.take(rs.len() - trailing_count(rs, None)) =~= ru.take(
            ru.len() - trailing_count(ru, None),
        ));
    } else {
        assert(seq![w].drop_first() =~= Seq::<char>::empty());
        assert(seq![w][0] == w);
        assert(leading_count(Seq::<char>::empty(), None) == 0);
        assert(leading_count(seq![w], None) == 1);
        assert(s.skip(s.len() as int) =~= Seq::<char>::empty());
        assert(u.skip(u.len() as int) =~= Seq::<char>::empty());
        assert(trimmed(s) =~= Seq::<char>::empty());
        assert(trimmed(u) =~= Seq::<char>::empty());
    }
}

/// Dropping one trailing carriage return leaves the trimmed text as it was.
pub proof fn lemma_trimmed_without_cr(s: Seq<char>)
    ensures
        trimmed(without_cr(s)) == trimmed(s),
{
    if s.len() > 0 && s.last() == '\r' {
        lemma_trimmed_drop_last(s);
    }
}

/// Trimming twice is trimming once.
pub proof fn lemma_trimmed_idempotent(s: Seq<char>)
    ensures
        trimmed(trimmed(s)) == trimmed(s),
{
    let y = trimmed(s);
    lemma_trim_ends(s, None);
    assert(y.skip(0) =~= y);
    if y.len() == 0 {
        assert(trimmed(y) =~= y);
    } else {
        assert(leading_count(y, None) == 0);
        assert(trailing_count(y, None) == 0);
        assert(y.take(y.len() as int) =~= y);
    }
}

/// Where the first `c` of `s + r` lies.
pub proof fn lemma_index_of_concat(s: Seq<char>, r: Seq<char>, c: char)
    ensures
        index_of(s, c) matches Some(k) ==> index_of(s + r, c) == Some(k),
        index_of(s, c) is None ==> index_of(s + r, c) == (match index_of(r, c) {
            Some(k) => Some(s.len() + k),
            None => None,
        }),
    decreases s.len(),
{
    if s.len() == 0 {
        assert(s + r =~= r);
    } else {
        assert((s + r).drop_first() =~= s.drop_first() + r);
        if s[0] != c {
            lemma_index_of_concat(s.drop_first(), r, c);
        }
    }
}

/// A text without `c` has no first `c`.
proof fn lemma_index_of_none(s: Seq<char>, c: char)
    requires
        forall|i: int| 0 <= i < s.len() ==> s[i] != c,
    ensures
        index_of(s, c) is None,
{
    lemma_index_of(s, c);
    if let Some(k) = index_of(s, c) {
        assert(s[k] == c);
    }
}

/// CRLF normalization leaves a text without line feeds as it is.
proof fn lemma_crlf_plain(x: Seq<char>)
    requires
        index_of(x, '\n') is None,
    ensures
        crlf_normalized(x) == x,
    decreases x.len(),
{
    if x.len() > 0 {
        lemma_index_of(x, '\n');
        if x.len() >= 2 {
            assert(x[1] != '\n');
        }
        assert(index_of(x.drop_first(), '\n') is None);
        lemma_crlf_plain(x.drop_first());
        assert(seq![x[0]] + x.drop_first() =~= x);
    }
}

/// CRLF normalization up to and past the first line feed.
proof fn lemma_crlf_split(x: Seq<char>, k: int)
    requires
        index_of(x, '\n') == Some(k),
    ensures
        crlf_normalized(x) == without_cr(x.take(k)) + seq!['\n'] + crlf_normalized(x.skip(k + 1)),
    decreases x.len(),
{
    lemma_index_of(x, '\n');
    if k == 0 {
        assert(x.take(0) =~= Seq::<char>::empty());
        assert(x.drop_first() =~= x.skip(1));
        assert(without_cr(x.take(0)) + seq!['\n'] + crlf_normalized(x.skip(1)) =~= seq![x[0]]
            + crlf_normalized(x.drop_first()));
    } else if k == 1 && x[0] == '\r' {
        assert(x.take(1) =~= seq!['\r']);
        assert(without_cr(x.take(1)) =~= Seq::<char>::empty());
        assert(without_cr(x.take(1)) + seq!['\n'] + crlf_normalized(x.skip(2)) =~= seq!['\n']
            + crlf_normalized(x.skip(2)));
    } else {
        let y = x.drop_first();
        if k > 1 {
            assert(x[1] != '\n');
        }
        assert(index_of(y, '\n') == Some(k - 1));
        lemma_crlf_split(y, k - 1);
        assert(y.skip(k) =~= x.skip(k + 1));
        if k == 1 {
            assert(y.take(0) =~= Seq::<char>::empty());
            assert(x.take(1) =~= seq![x[0]]);
        } else {
            assert(x.take(k) =~= seq![x[0]] + y.take(k - 1));
            assert(x.take(k).last() == y.take(k - 1).last());
            if y.take(k - 1).last() == '\r' {
                assert(x.take(k).drop_last() =~= seq![x[0]] + y.take(k - 1).drop_last());
            }
        }
        assert(seq![x[0]] + without_cr(y.take(k - 1)) =~= without_cr(x.take(k)));
        assert(seq![x[0]] + (without_cr(y.take(k - 1)) + seq!['\n'] + crlf_normalized(y.skip(k)))
            =~= without_cr(x.take(k)) + seq!['\n'] + crlf_normalized(x.skip(k + 1)));
    }
}

/// Trimming the lines of a sequence that starts with `a`.
pub proof fn lemma_trimmed_lines_cons(a: Seq<char>, ls: Seq<Seq<char>>)
    ensures
        trimmed_lines(seq![a] + ls) == seq![trimmed(a)] + trimmed_lines(ls),
{
    assert(trimmed_lines(seq![a] + ls) =~= seq![trimmed(a)] + trimmed_lines(ls));
}

/// Trimming the lines of two sequences put together.
pub proof fn lemma_trimmed_lines_concat(a: Seq<Seq<char>>, b: Seq<Seq<char>>)
    ensures
        trimmed_lines(a + b) == trimmed_lines(a) + trimmed_lines(b),
{
    assert(trimmed_lines(a + b) =~= trimmed_lines(a) + trimmed_lines(b));
}

/// The lines of a text after CRLF normalization are, once trimmed, the
/// lines of the text itself.
pub proof fn lemma_lines_crlf(x: Seq<char>)
    ensures
        trimmed_lines(lines_of(crlf_normalized(x))) == trimmed_lines(lines_of(x)),
    decreases x.len(),
{
    lemma_index_of(x, '\n');
    if x.len() > 0 {
        match index_of(x, '\n') {
            None => {
                lemma_crlf_plain(x);
            },
            Some(k) => {
                let p = without_cr(x.take(k));
                let q = x.skip(k + 1);
                let cq = crlf_normalized(q);
                lemma_crlf_split(x, k);
                assert forall|i: int| 0 <= i < p.len() implies p[i] != '\n' by {
                    assert(p[i] == x[i]);
                }
                lemma_index_of_none(p, '\n');
                lemma_index_of_concat(p, seq!['\n'] + cq, '\n');
                let n = crlf_normalized(x);
                assert(n =~= p + (seq!['\n'] + cq));
                assert(n.take(p.len() as int) =~= p);
                assert(n.skip(p.len() as int + 1) =~= cq);
                assert(lines_of(n) == seq![without_cr(p)] + lines_of(cq));
                assert(lines_of(x) == seq![p] + lines_of(q));
                lemma_lines_crlf(q);
                lemma_trimmed_lines_cons(without_cr(p), lines_of(cq));
                lemma_trimmed_lines_cons(p, lines_of(q));
                lemma_trimmed_without_cr(p);
            },
        }
    }
}

/// The lines of a text without line feeds, once a line feed ends it.
pub proof fn lemma_lines_single(s: Seq<char>)
    requires
        index_of(s, '\n') is None,
    ensures
        lines_of(s + seq!['\n']) == seq![without_cr(s)],
{
    let t = s + seq!['\n'];
    lemma_index_of_concat(s, seq!['\n'], '\n');
    assert(index_of(seq!['\n'], '\n') == Some(0int));
    assert(t.take(s.len() as int) =~= s);
    assert(t.skip(s.len() as int + 1) =~= Seq::<char>::empty());
    assert(seq![without_cr(s)] + lines_of(Seq::<char>::empty()) =~= seq![without_cr(s)]);
}

/// A line feed splits the lines of a text in two.
pub proof fn lemma_lines_concat(s: Seq<char>, q: Seq<char>)
    ensures
        lines_of(s + seq!['\n'] + q) == lines_of(s + seq!['\n']) + lines_of(q),
    decreases s.len(),
{
    let t = s + seq!['\n'];
    let x = t + q;
    lemma_index_of(s, '\n');
    lemma_index_of_concat(s, seq!['\n'], '\n');
    lemma_index_of_concat(t, q, '\n');
    assert(index_of(seq!['\n'], '\n') == Some(0int));
    match index_of(s, '\n') {
        Some(k) => {
            let s2 = s.skip(k + 1);
            assert(x.take(k) =~= s.take(k));
            assert(t.take(k) =~= s.take(k));
            assert(x.skip(k + 1) =~= s2 + seq!['\n'] + q);
            assert(t.skip(k + 1) =~= s2 + seq!['\n']);
            lemma_lines_concat(s2, q);
            let l = without_cr(s.take(k));
            assert(seq![l] + (lines_of(s2 + seq!['\n']) + lines_of(q)) =~= (seq![l] + lines_of(
                s2 + seq!['\n'],
            )) + lines_of(q));
        },
        None => {
            lemma_lines_single(s);
            assert(x.take(s.len() as int) =~= s);
            assert(x.skip(s.len() as int + 1) =~= q);
        },
    }
}

/// A final line feed adds at most one blank line to the trimmed lines.
pub proof fn lemma_lines_final_newline(s: Seq<char>)
    ensures
        trimmed_lines(lines_of(s + seq!['\n'])) == trimmed_lines(lines_of(s))
            || trimmed_lines(lines_of(s + seq!['\n'])) == trimmed_lines(lines_of(s)).push(
            Seq::<char>::empty(),
        ),
    decreases s.len(),
{
    let t = s + seq!['\n'];
    lemma_index_of(s, '\n');
    lemma_index_of_concat(s, seq!['\n'], '\n');
    assert(index_of(seq!['\n'], '\n') == Some(0int));
    match index_of(s, '\n') {
        Some(k) => {
            let s2 = s.skip(k + 1);
            assert(t.take(k) =~= s.take(k));
            assert(t.skip(k + 1) =~= s2 + seq!['\n']);
            lemma_lines_final_newline(s2);
            let l = without_cr(s.take(k));
            lemma_trimmed_lines_cons(l, lines_of(s2 + seq!['\n']));
            lemma_trimmed_lines_cons(l, lines_of(s2));
            assert((seq![trimmed(l)] + trimmed_lines(lines_of(s2))).push(Seq::<char>::empty())
                =~= seq![trimmed(l)] + trimmed_lines(lines_of(s2)).push(Seq::<char>::empty()));
        },
        None => {
            lemma_lines_single(s);
            lemma_trimmed_without_cr(s);
            if s.len() == 0 {
                lemma_trimmed_blank(s);
                assert(trimmed_lines(lines_of(t)) =~= trimmed_lines(lines_of(s)).push(
                    Seq::<char>::empty(),
                ));
            } else {
                assert(lines_of(s) == seq![s]);
                assert(trimmed_lines(lines_of(t)) =~= trimmed_lines(lines_of(s)));
            }
        },
    }
}


/// A text with no white space at either end is its own trim.
pub proof fn lemma_trimmed_unchanged(s: Seq<char>)
    requires
        s.len() > 0,
        !white_space(s[0]),
        !white_space(s.last()),
    ensures
        trimmed(s) == s,
{
    assert(leading_count(s, None) == 0);
    assert(s.skip(0) =~= s);
    assert(trailing_count(s, None) == 0);
    assert(s.take(s.len() as int) =~= s);
}

/// `p` stands in `s` at position `o`.
pub open spec fn occurs_at(s: Seq<char>, p: Seq<char>, o: int) -> bool {
    0 <= o && o + p.len() <= s.len() && s.subrange(o, o + p.len()) == p
}

/// Where the part at index `i` starts in `joined(parts, sep)`.
pub open spec fn joined_start(parts: Seq<Seq<char>>, sep: Seq<char>, i: int) -> int {
    if i == 0 {
        0
    } else {
        (joined(parts.take(i), sep).len() + sep.len()) as int
    }
}

/// Each part stands in the joined text at its start position.
pub proof fn lemma_joined_part(parts: Seq<Seq<char>>, sep: Seq<char>, i: int)
    requires
        0 <= i < parts.len(),
    ensures
        occurs_at(joined(parts, sep), parts[i], joined_start(parts, sep, i)),
        joined_start(parts, sep, i) + parts[i].len() == joined(parts.take(i + 1), sep).len(),
    decreases parts.len(),
{
    let n = parts.len();
    let j = joined(parts, sep);
    if i > 0 {
        assert(parts.take(i + 1).drop_last() =~= parts.take(i));
        assert(parts.take(i + 1).last() == parts[i]);
    } else {
        assert(parts.take(1) =~= seq![parts[0]]);
    }
    if n == 1 {
        assert(j.subrange(0, parts[0].len() as int) =~= parts[0]);
    } else if i == n - 1 {
        assert(parts.take(i) =~= parts.drop_last());
        let front = joined(parts.drop_last(), sep);
        assert(j.subrange((front.len() + sep.len()) as int, j.len() as int) =~= parts[i]);
        assert(parts.take(i + 1) =~= parts);
    } else {
        let d = parts.drop_last();
        lemma_joined_part(d, sep, i);
        assert(d.take(i) =~= parts.take(i));
        assert(d.take(i + 1) =~= parts.take(i + 1));
        let front = joined(d, sep);
        let o = joined_start(parts, sep, i);
        assert(j.subrange(o, o + parts[i].len()) =~= front.subrange(o, o + parts[i].len()));
    }
}

/// Joining more leading parts never gives a shorter text.
pub proof fn lemma_joined_take_len(parts: Seq<Seq<char>>, sep: Seq<char>, a: int, b: int)
    requires
        0 <= a <= b <= parts.len(),
    ensures
        joined(parts.take(a), sep).len() <= joined(parts.take(b), sep).len(),
    decreases b - a,
{
    if a < b {
        lemma_joined_take_len(parts, sep, a, b - 1);
        if b - 1 >= 1 {
            assert(parts.take(b).drop_last() =~= parts.take(b - 1));
        } else {
            assert(parts.take(0) =~= Seq::<Seq<char>>::empty());
        }
    }
}

/// The parts stand in the joined text in their order, without overlap.
pub proof fn lemma_joined_parts_in_order(parts: Seq<Seq<char>>, sep: Seq<char>, i: int, k: int)
    requires
        0 <= i < k < parts.len(),
    ensures
        joined_start(parts, sep, i) + parts[i].len() <= joined_start(parts, sep, k),
{
    lemma_joined_part(parts, sep, i);
    lemma_joined_take_len(parts, sep, i + 1, k);
}

} // verus!
