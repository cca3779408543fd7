use htmlize::{escape_all_quotes, escape_attribute, escape_text, unescape};

#[test]
fn escape_text_empty() {
    assert_eq!(escape_text(b""), b"".to_vec());
}

#[test]
fn escape_text_clean() {
    assert_eq!(escape_text(b"clean"), b"clean".to_vec());
}

#[test]
fn escape_text_angles() {
    assert_eq!(escape_text(b"< >"), b"&lt; &gt;".to_vec());
}

#[test]
fn escape_text_double_escapes() {
    assert_eq!(escape_text(b"&amp;"), b"&amp;amp;".to_vec());
}

#[test]
fn escape_text_leaves_quotes() {
    assert_eq!(
        escape_text(b"He said, \"That's mine.\""),
        b"He said, \"That's mine.\"".to_vec()
    );
}

#[test]
fn escape_attribute_basic() {
    assert_eq!(escape_attribute(b""), b"".to_vec());
    assert_eq!(escape_attribute(b"clean"), b"clean".to_vec());
    assert_eq!(escape_attribute(b"< >"), b"&lt; &gt;".to_vec());
    assert_eq!(escape_attribute(b"&amp;"), b"&amp;amp;".to_vec());
}

#[test]
fn escape_attribute_quotes() {
    assert_eq!(
        escape_attribute(b"He said, \"That's mine.\""),
        b"He said, &quot;That's mine.&quot;".to_vec()
    );
}

#[test]
fn escape_all_quotes_basic() {
    assert_eq!(escape_all_quotes(b""), b"".to_vec());
    assert_eq!(escape_all_quotes(b"clean"), b"clean".to_vec());
    assert_eq!(escape_all_quotes(b"< >"), b"&lt; &gt;".to_vec());
    assert_eq!(escape_all_quotes(b"&amp;"), b"&amp;amp;".to_vec());
}

#[test]
fn escape_all_quotes_quotes() {
    assert_eq!(
        escape_all_quotes(b"He said, \"That's mine.\""),
        b"He said, &quot;That&apos;s mine.&quot;".to_vec()
    );
}

#[test]
fn escape_text_multibyte_passthrough() {
    let raw = "Bj\u{f6}rk & \u{411}\u{43e}\u{440}\u{438}\u{441} O'Brien <3, \"love > hate\"";
    let expected =
        "Bj\u{f6}rk &amp; \u{411}\u{43e}\u{440}\u{438}\u{441} O'Brien &lt;3, \"love &gt; hate\"";
    assert_eq!(escape_text(raw.as_bytes()), expected.as_bytes().to_vec());
}

#[test]
fn unescape_inverts_escape_text() {
    let raw: &[u8] = b"a & b < c > d \"e\" 'f' &amp; <script>";
    assert_eq!(unescape(&escape_text(raw)), raw.to_vec());
}

#[test]
fn unescape_inverts_escape_all_quotes() {
    let raw: &[u8] = b"a & b < c > d \"e\" 'f' &amp; <script>";
    assert_eq!(unescape(&escape_all_quotes(raw)), raw.to_vec());
}
