use static_blog::escape::{html_encode, html_encode_char};

#[test]
fn html_encode_escapes_markup_characters() {
    assert_eq!(html_encode("a<b>&\"'c"), "a&lt;b&gt;&amp;&quot;&#39;c");
}

#[test]
fn html_encode_char_maps_each_special_character() {
    assert_eq!(html_encode_char('&'), "&amp;");
    assert_eq!(html_encode_char('<'), "&lt;");
    assert_eq!(html_encode_char('>'), "&gt;");
    assert_eq!(html_encode_char('"'), "&quot;");
    assert_eq!(html_encode_char('\''), "&#39;");
}

#[test]
fn html_encode_char_keeps_plain_characters() {
    assert_eq!(html_encode_char('x'), "x");
    assert_eq!(html_encode_char('é'), "é");
    assert_eq!(html_encode_char(' '), " ");
}

#[test]
fn html_encode_of_empty_and_plain_text() {
    assert_eq!(html_encode(""), "");
    assert_eq!(html_encode("plain [text] with (brackets)"), "plain [text] with (brackets)");
}

#[test]
fn html_encode_of_concatenation_is_concatenation_of_encodings() {
    let a = "x < y & ";
    let b = "\"z\" > 'w'";
    let joined = format!("{a}{b}");
    assert_eq!(html_encode(&joined), format!("{}{}", html_encode(a), html_encode(b)));
}

#[test]
fn html_encode_output_has_no_raw_markup() {
    let out = html_encode("<script>alert('x\"y')</script>");
    assert!(!out.contains('<') && !out.contains('>') && !out.contains('"') && !out.contains('\''));
    assert_eq!(out, "&lt;script&gt;alert(&#39;x&quot;y&#39;)&lt;/script&gt;");
}

#[test]
fn html_encode_keeps_distinct_texts_distinct() {
    assert_ne!(html_encode("&lt;"), html_encode("<"));
    assert_eq!(html_encode("&lt;"), "&amp;lt;");
    assert_ne!(html_encode("a'"), html_encode("a\""));
}
