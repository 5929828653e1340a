//! Markdown files with an optional `---` fenced frontmatter header.

use vstd::prelude::*;
use crate::text::{
    chars_of, char_texts_of, copy_range, crlf_normalized, find_char, index_of, join_chars, joined,
    lemma_index_of, lines, lines_of, normalize_newlines, same_chars, same_text, string_of_range,
    trim_range, trimmed, trimmed_of,
};

verus! {

/// The characters of an optional string.
pub open spec fn opt_text(o: Option<String>) -> Option<Seq<char>> {
    match o {
        Some(s) => Some(s@),
        None => None,
    }
}

/// The fields a frontmatter header may set.
#[derive(Clone)]
pub struct Frontmatter {
    pub title: Option<String>,
    pub description: Option<String>,
    pub summary: Option<String>,
    pub date: Option<String>,
    pub order: Option<i32>,
}

/// A frontmatter header as character sequences.
pub struct FrontmatterView {
    pub title: Option<Seq<char>>,
    pub description: Option<Seq<char>>,
    pub summary: Option<Seq<char>>,
    pub date: Option<Seq<char>>,
    pub order: Option<i32>,
}

impl View for Frontmatter {
    type V = FrontmatterView;

    open spec fn view(&self) -> FrontmatterView {
        FrontmatterView {
            title: opt_text(self.title),
            description: opt_text(self.description),
            summary: opt_text(self.summary),
            date: opt_text(self.date),
            order: self.order,
        }
    }
}

/// A header that sets nothing.
pub open spec fn empty_frontmatter() -> FrontmatterView {
    FrontmatterView { title: None, description: None, summary: None, date: None, order: None }
}

impl Default for Frontmatter {
    fn default() -> (r: Frontmatter)
        ensures
            r@ == empty_frontmatter(),
    {
        Frontmatter { title: None, description: None, summary: None, date: None, order: None }
    }
}

/// A markdown file split into its header and its body.
#[derive(Clone)]
pub struct ParsedMarkdown {
    pub frontmatter: Frontmatter,
    pub body: String,
}

// ---------------------------------------------------------------------------
// Integers
// ---------------------------------------------------------------------------

pub open spec fn is_digit(c: char) -> bool {
    '0' <= c && c <= '9'
}

pub open spec fn all_digits(s: Seq<char>) -> bool {
    forall|i: int| 0 <= i < s.len() ==> #[trigger] is_digit(s[i])
}

/// The number written by the decimal digits `s`.
pub open spec fn digits_value(s: Seq<char>) -> int
    decreases s.len(),
{
    if s.len() == 0 {
        0
    } else {
        digits_value(s.drop_last()) * 10 + (s.last() as int - '0' as int)
    }
}

/// `i32::from_str`: an optional `+` or `-` followed by at least one decimal
/// digit and nothing else, whose value fits in an `i32`.
pub open spec fn parsed_i32(s: Seq<char>) -> Option<i32> {
    let negative = s.len() > 0 && s[0] == '-';
    let digits = if s.len() > 0 && (s[0] == '-' || s[0] == '+') {
        s.drop_first()
    } else {
        s
    };
    let value = if negative {
        -digits_value(digits)
    } else {
        digits_value(digits)
    };
    if digits.len() == 0 || !all_digits(digits) || value < i32::MIN || value > i32::MAX {
        None
    } else {
        Some(value as i32)
    }
}

proof fn lemma_digits_value_prefix(s: Seq<char>, i: int)
    requires
        0 <= i <= s.len(),
        all_digits(s),
    ensures
        digits_value(s.take(i)) <= digits_value(s),
        0 <= digits_value(s.take(i)),
    decreases s.len() - i,
{
    if i < s.len() {
        lemma_digits_value_prefix(s, i + 1);
        assert(s.take(i + 1).drop_last() =~= s.take(i));
        assert(is_digit(s[i]));
    } else {
        assert(s.take(i) =~= s);
        lemma_digits_nonneg(s);
    }
}

proof fn lemma_digits_nonneg(s: Seq<char>)
    requires
        all_digits(s),
    ensures
        0 <= digits_value(s),
    decreases s.len(),
{
    if s.len() > 0 {
        assert(is_digit(s.last()));
        assert(all_digits(s.drop_last())) by {
            assert forall|i: int| 0 <= i < s.drop_last().len() implies #[trigger] is_digit(
                s.drop_last()[i],
            ) by {
                assert(is_digit(s[i]));
            }
        }
        lemma_digits_nonneg(s.drop_last());
    }
}

/// Parses a decimal `i32` as `str::parse::<i32>` does, `None` on failure.
pub fn parse_i32(text: &[char]) -> (r: Option<i32>)
    ensures
        r == parsed_i32(text@),
{
    let ghost s = text@;
    let negative = text.len() > 0 && text[0] == '-';
    let start: usize = if text.len() > 0 && (text[0] == '-' || text[0] == '+') {
        1
    } else {
        0
    };
    let ghost digits = s.skip(start as int);
    assert(start == 1 ==> digits =~= s.drop_first());
    assert(start == 0 ==> digits =~= s);
    if start == text.len() {
        return None;
    }
    let limit: i64 = 2147483648;
    let mut acc: i64 = 0;
    let mut i: usize = start;
    while i < text.len()
        invariant
            start <= i <= s.len(),
            s == text@,
            digits == s.skip(start as int),
            start == 1 ==> digits == s.drop_first(),
            start == 0 ==> digits == s,
            (start == 1) == (s.len() > 0 && (s[0] == '-' || s[0] == '+')),
            start <= 1,
            negative == (s.len() > 0 && s[0] == '-'),
            limit == 2147483648,
            0 <= acc <= limit,
            all_digits(digits.take(i - start)),
            acc == digits_value(digits.take(i - start)),
        decreases s.len() - i,
    {
        let c = text[i];
        if !('0' <= c && c <= '9') {
            assert(!is_digit(digits[i - start]));
            return None;
        }
        let d = (c as u32 - '0' as u32) as i64;
        assert(digits.take(i - start + 1).drop_last() =~= digits.take(i - start));
        assert(all_digits(digits.take(i - start + 1))) by {
            assert forall|k: int| 0 <= k < i - start + 1 implies #[trigger] is_digit(
                digits.take(i - start + 1)[k],
            ) by {
                if k < i - start {
                    assert(digits.take(i - start + 1)[k] == digits.take(i - start)[k]);
                }
            }
        }
        if acc > (limit - d) / 10 {
            proof {
                assert(acc * 10 + d > limit);
                let whole = digits;
                if all_digits(whole) {
                    lemma_digits_value_prefix(whole, i - start + 1);
                }
            }
            return None;
        }
        acc = acc * 10 + d;
        i = i + 1;
    }
    assert(digits.take(i - start) =~= digits);
    if negative {
        let v = -acc;
        if v < -2147483648 {
            return None;
        }
        Some(v as i32)
    } else {
        if acc > 2147483647 {
            return None;
        }
        Some(acc as i32)
    }
}

// ---------------------------------------------------------------------------
// Header fields
// ---------------------------------------------------------------------------

/// A header value with surrounding double quotes, then single quotes,
/// removed.
pub open spec fn cleaned_value(value: Seq<char>) -> Seq<char> {
    trimmed_of(trimmed_of(value, '"'), '\'')
}

/// The header after setting `key` to `value`: `title`, `description`,
/// `summary` and `date` take the cleaned value, `order` takes it parsed as
/// an `i32` (or nothing when it does not parse); other keys change nothing.
pub open spec fn applied(fm: FrontmatterView, key: Seq<char>, value: Seq<char>) -> FrontmatterView {
    let cleaned = cleaned_value(value);
    if key == "title"@ {
        FrontmatterView { title: Some(cleaned), ..fm }
    } else if key == "description"@ {
        FrontmatterView { description: Some(cleaned), ..fm }
    } else if key == "summary"@ {
        FrontmatterView { summary: Some(cleaned), ..fm }
    } else if key == "date"@ {
        FrontmatterView { date: Some(cleaned), ..fm }
    } else if key == "order"@ {
        FrontmatterView { order: parsed_i32(cleaned), ..fm }
    } else {
        fm
    }
}

/// Sets one header field from a key and a value.
pub fn apply_frontmatter(frontmatter: &mut Frontmatter, key: &str, value: &str)
    ensures
        final(frontmatter)@ == applied(old(frontmatter)@, key@, value@),
{
    let v = chars_of(value);
    let (a, b) = trim_range(v.as_slice(), 0, v.len(), Some('"'));
    assert(v@.subrange(0, v@.len() as int) =~= v@);
    let (c, d) = trim_range(v.as_slice(), a, b, Some('\''));
    let cleaned = string_of_range(v.as_slice(), c, d);
    if same_text(key, "title") {
        frontmatter.title = Some(cleaned);
    } else if same_text(key, "description") {
        frontmatter.description = Some(cleaned);
    } else if same_text(key, "summary") {
        frontmatter.summary = Some(cleaned);
    } else if same_text(key, "date") {
        frontmatter.date = Some(cleaned);
    } else if same_text(key, "order") {
        let cs = chars_of(cleaned.as_str());
        frontmatter.order = parse_i32(cs.as_slice());
    }
}

// ---------------------------------------------------------------------------
// Files
// ---------------------------------------------------------------------------

/// A header line `key: value` applied to `fm`; a line without a colon
/// changes nothing.
pub open spec fn header_line_applied(fm: FrontmatterView, line: Seq<char>) -> FrontmatterView {
    match index_of(line, ':') {
        Some(k) => applied(fm, trimmed(line.take(k)), trimmed(line.skip(k + 1))),
        None => fm,
    }
}

/// The header set by `lines`, in order.
pub open spec fn header_of(lines: Seq<Seq<char>>) -> FrontmatterView
    decreases lines.len(),
{
    if lines.len() == 0 {
        empty_frontmatter()
    } else {
        header_line_applied(header_of(lines.drop_last()), lines.last())
    }
}

/// Index of the first `---` line.
pub open spec fn fence_index(lines: Seq<Seq<char>>) -> Option<int>
    decreases lines.len(),
{
    if lines.len() == 0 {
        None
    } else if lines[0] == "---"@ {
        Some(0)
    } else {
        match fence_index(lines.drop_first()) {
            Some(k) => Some(k + 1),
            None => None,
        }
    }
}

pub proof fn lemma_fence_index(lines: Seq<Seq<char>>)
    ensures
        fence_index(lines) matches Some(k) ==> {
            &&& 0 <= k < lines.len()
            &&& lines[k] == "---"@
            &&& forall|j: int| 0 <= j < k ==> lines[j] != "---"@
        },
        fence_index(lines) is None ==> forall|j: int| 0 <= j < lines.len() ==> lines[j] != "---"@,
    decreases lines.len(),
{
    if lines.len() > 0 && lines[0] != "---"@ {
        lemma_fence_index(lines.drop_first());
        assert forall|j: int| 0 < j < lines.len() implies lines[j] == lines.drop_first()[j - 1] by {}
    }
}

/// The lines of a markdown file.
pub open spec fn source_lines(source: Seq<char>) -> Seq<Seq<char>> {
    lines_of(crlf_normalized(source))
}

/// Whether the file opens with a `---` line.
pub open spec fn has_frontmatter(source: Seq<char>) -> bool {
    source_lines(source).len() > 0 && source_lines(source)[0] == "---"@
}

/// The lines between the opening `---` and the closing one (or the end).
pub open spec fn header_lines(source: Seq<char>) -> Seq<Seq<char>> {
    let rest = source_lines(source).skip(1);
    match fence_index(rest) {
        Some(k) => rest.take(k),
        None => rest,
    }
}

/// The lines after the closing `---` (none where it is missing).
pub open spec fn body_lines(source: Seq<char>) -> Seq<Seq<char>> {
    let rest = source_lines(source).skip(1);
    match fence_index(rest) {
        Some(k) => rest.skip(k + 1),
        None => Seq::empty(),
    }
}

/// The header a markdown file declares.
pub open spec fn parsed_frontmatter(source: Seq<char>) -> FrontmatterView {
    if has_frontmatter(source) {
        header_of(header_lines(source))
    } else {
        empty_frontmatter()
    }
}

/// The body of a markdown file: without a header, the whole (normalised)
/// text trimmed; with one, its body lines joined by newlines and trimmed.
pub open spec fn parsed_body(source: Seq<char>) -> Seq<char> {
    if has_frontmatter(source) {
        trimmed(joined(body_lines(source), "\n"@))
    } else {
        trimmed(crlf_normalized(source))
    }
}

/// Splits the text of a markdown file into its header and its body.
pub fn parse_markdown(source: &str) -> (r: ParsedMarkdown)
    ensures
        r.frontmatter@ == parsed_frontmatter(source@),
        r.body@ == parsed_body(source@),
{
    let chars = chars_of(source);
    let normalized = normalize_newlines(chars.as_slice());
    let all = lines(normalized.as_slice());
    let fence = chars_of("---");
    let ghost ls = source_lines(source@);
    assert(char_texts_of(all@) == ls);
    if all.len() == 0 || !same_chars(all[0].as_slice(), fence.as_slice()) {
        let (a, b) = trim_range(normalized.as_slice(), 0, normalized.len(), None);
        assert(normalized@.subrange(0, normalized@.len() as int) =~= normalized@);
        let body = string_of_range(normalized.as_slice(), a, b);
        return ParsedMarkdown { frontmatter: Frontmatter::default(), body };
    }
    let ghost rest = ls.skip(1);
    let mut frontmatter = Frontmatter::default();
    let mut body_parts: Vec<Vec<char>> = Vec::new();
    let mut in_frontmatter = true;
    let ghost mut close: int = 0;
    let mut i: usize = 1;
    assert(rest.take(0) =~= Seq::<Seq<char>>::empty());
    assert(char_texts_of(body_parts@) =~= Seq::<Seq<char>>::empty());
    while i < all.len()
        invariant
            1 <= i <= all@.len(),
            char_texts_of(all@) == ls,
            ls.len() == all@.len(),
            rest == ls.skip(1),
            fence@ == "---"@,
            in_frontmatter ==> {
                &&& frontmatter@ == header_of(rest.take(i - 1))
                &&& forall|j: int| 0 <= j < i - 1 ==> rest[j] != "---"@
                &&& body_parts@.len() == 0
            },
            !in_frontmatter ==> {
                &&& fence_index(rest) == Some(close)
                &&& 0 <= close < i - 1
                &&& frontmatter@ == header_of(rest.take(close))
                &&& char_texts_of(body_parts@) == rest.subrange(close + 1, i - 1)
            },
        decreases all@.len() - i,
    {
        let line = &all[i];
        assert(line@ == rest[i - 1]);
        if in_frontmatter {
            if same_chars(line.as_slice(), fence.as_slice()) {
                in_frontmatter = false;
                proof {
                    close = i - 1;
                    lemma_fence_index(rest);
                    match fence_index(rest) {
                        Some(k) => {
                            assert(k == close);
                        },
                        None => {},
                    }
                    assert(rest.subrange(close + 1, i as int) =~= Seq::<Seq<char>>::empty());
                    assert(char_texts_of(body_parts@) =~= Seq::<Seq<char>>::empty());
                }
                i = i + 1;
                continue;
            }
            let ghost before = frontmatter@;
            assert(rest.take(i as int).drop_last() =~= rest.take(i - 1));
            match find_char(line.as_slice(), 0, ':') {
                Some(k) => {
                    assert(line@.skip(0) =~= line@);
                    proof {
                        lemma_index_of(line@, ':');
                        assert(index_of(line@, ':') == Some(k as int));
                    }
                    let n = line.len();
                    assert(k < n);
                    let (a, b) = trim_range(line.as_slice(), 0, k, None);
                    let (c, d) = trim_range(line.as_slice(), k + 1, n, None);
                    assert(line@.subrange(0, k as int) =~= line@.take(k as int));
                    assert(line@.subrange(k + 1, line@.len() as int) =~= line@.skip(k + 1));
                    let key = string_of_range(line.as_slice(), a, b);
                    let value = string_of_range(line.as_slice(), c, d);
                    apply_frontmatter(&mut frontmatter, key.as_str(), value.as_str());
                },
                None => {
                    assert(line@.skip(0) =~= line@);
                },
            }
        } else {
            let copied = copy_range(line.as_slice(), 0, line.len());
            assert(line@.subrange(0, line@.len() as int) =~= line@);
            let ghost before = char_texts_of(body_parts@);
            body_parts.push(copied);
            assert(char_texts_of(body_parts@) =~= before.push(line@));
            assert(rest.subrange(close + 1, i as int) =~= rest.subrange(close + 1, i - 1).push(
                rest[i - 1],
            ));
        }
        i = i + 1;
    }
    proof {
        lemma_fence_index(rest);
        if in_frontmatter {
            assert(rest.take(i - 1) =~= rest);
            match fence_index(rest) {
                Some(k) => {
                    assert(rest[k] == "---"@);
                },
                None => {},
            }
        } else {
            assert(rest.subrange(close + 1, i - 1) =~= rest.skip(close + 1));
        }
        assert(body_lines(source@) == char_texts_of(body_parts@)) by {
            if in_frontmatter {
                assert(char_texts_of(body_parts@) =~= Seq::<Seq<char>>::empty());
            }
        }
    }
    let newline = chars_of("\n");
    let joined_body = join_chars(&body_parts, newline.as_slice());
    let (a, b) = trim_range(joined_body.as_slice(), 0, joined_body.len(), None);
    assert(joined_body@.subrange(0, joined_body@.len() as int) =~= joined_body@);
    let body = string_of_range(joined_body.as_slice(), a, b);
    ParsedMarkdown { frontmatter, body }
}

} // verus!
