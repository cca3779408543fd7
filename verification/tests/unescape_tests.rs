use htmlize::unescape;

#[test]
fn almost_entity() {
    assert_eq!(unescape(b"&time"), b"&time".to_vec());
}

#[test]
fn exact_no_semicolon() {
    assert_eq!(unescape(b"&times"), "\u{d7}".as_bytes().to_vec());
}

#[test]
fn exact() {
    assert_eq!(unescape(b"&times;"), "\u{d7}".as_bytes().to_vec());
}

#[test]
fn entity_then_char() {
    let mut expected = "\u{d7}".as_bytes().to_vec();
    expected.push(b'a');
    assert_eq!(unescape(b"&timesa"), expected);
}

#[test]
fn entity_prefix_longer_match() {
    // the longer spelling wins over the shorter shared prefix
    assert_eq!(unescape(b"&timesb"), "\u{22a0}".as_bytes().to_vec());
}

#[test]
fn exact_timesb() {
    assert_eq!(unescape(b"&timesb;"), "\u{22a0}".as_bytes().to_vec());
}

#[test]
fn exact_timesbar() {
    assert_eq!(unescape(b"&timesbar;"), "\u{2a31}".as_bytes().to_vec());
}

#[test]
fn exact_timesd() {
    assert_eq!(unescape(b"&timesd;"), "\u{2a30}".as_bytes().to_vec());
}

#[test]
fn no_entities() {
    assert_eq!(unescape(b"none"), b"none".to_vec());
}

#[test]
fn empty_input() {
    assert_eq!(unescape(b""), b"".to_vec());
}

#[test]
fn only_ampersand() {
    assert_eq!(unescape(b"&"), b"&".to_vec());
}

#[test]
fn empty_entity() {
    assert_eq!(unescape(b"&;"), b"&;".to_vec());
}

#[test]
fn unknown_entity() {
    assert_eq!(unescape(b"&unknown;"), b"&unknown;".to_vec());
}

#[test]
fn middle_entity() {
    assert_eq!(unescape(b" &amp; "), b" & ".to_vec());
}

#[test]
fn extra_ampersands() {
    assert_eq!(unescape(b"&&amp;&"), b"&&&".to_vec());
}

#[test]
fn two_entities() {
    assert_eq!(unescape(b"AND &amp;&AMP; and"), b"AND && and".to_vec());
}

#[test]
fn long_entity() {
    let input: &[u8] =
        b"&aaaaaaaaaaaaaaaaaaaaaaaaaaaaaaaaaaaaaaaaaaaaaaaaaaaaaaaaaaaaaaaaaaaaaa;";
    assert_eq!(unescape(input), input.to_vec());
}

#[test]
fn correct_hex_lowerx_lower() {
    assert_eq!(unescape(b"&#x7a;"), b"z".to_vec());
}

#[test]
fn correct_hex_lowerx_upper() {
    assert_eq!(unescape(b"&#x7A;"), b"z".to_vec());
}

#[test]
fn correct_hex_upperx_lower() {
    assert_eq!(unescape(b"&#X7a;"), b"z".to_vec());
}

#[test]
fn correct_hex_upperx_upper() {
    assert_eq!(unescape(b"&#X7A;"), b"z".to_vec());
}

#[test]
fn correct_dec() {
    assert_eq!(unescape(b"&#122;"), b"z".to_vec());
}

#[test]
fn hex_dec_equivalent() {
    assert_eq!(unescape(b"&#x7A;"), unescape(b"&#122;"));
}

#[test]
fn correct_hex_unicode() {
    assert_eq!(unescape(b"&#x21D2;"), "\u{21d2}".as_bytes().to_vec());
}

#[test]
fn hex_no_semicolon() {
    assert_eq!(unescape(b"&#x7Az"), b"zz".to_vec());
}

#[test]
fn hex_no_semicolon_end() {
    assert_eq!(unescape(b"&#x7A"), b"z".to_vec());
}

#[test]
fn dec_no_semicolon() {
    assert_eq!(unescape(b"&#122z"), b"zz".to_vec());
}

#[test]
fn dec_no_semicolon_end() {
    assert_eq!(unescape(b"&#122"), b"z".to_vec());
}

#[test]
fn hex_instead_of_dec() {
    assert_eq!(unescape(b"&#7a;"), b"&#7a;".to_vec());
}

#[test]
fn invalid_hex_lowerx() {
    assert_eq!(unescape(b"&#xZ;"), b"&#xZ;".to_vec());
}

#[test]
fn invalid_hex_upperx() {
    assert_eq!(unescape(b"&#XZ;"), b"&#XZ;".to_vec());
}

#[test]
fn bare_hash_forms() {
    assert_eq!(unescape(b"&#"), b"&#".to_vec());
    assert_eq!(unescape(b"&#;"), b"&#;".to_vec());
    assert_eq!(unescape(b"&#x"), b"&#x".to_vec());
    assert_eq!(unescape(b"&#x;"), b"&#x;".to_vec());
}

#[test]
fn special_entity_null() {
    assert_eq!(unescape(b"&#0;"), "\u{fffd}".as_bytes().to_vec());
}

#[test]
fn surrogate_yields_replacement() {
    assert_eq!(unescape(b"&#xD800;"), "\u{fffd}".as_bytes().to_vec());
    assert_eq!(unescape(b"&#55296;"), "\u{fffd}".as_bytes().to_vec());
    assert_eq!(unescape(b"&#xDFFF;"), "\u{fffd}".as_bytes().to_vec());
}

#[test]
fn out_of_range_yields_replacement() {
    assert_eq!(unescape(b"&#1114112;"), "\u{fffd}".as_bytes().to_vec());
    assert_eq!(unescape(b"&#4294967295;"), "\u{fffd}".as_bytes().to_vec());
}

#[test]
fn overflowing_value_stays_literal() {
    assert_eq!(unescape(b"&#4294967296;"), b"&#4294967296;".to_vec());
}

#[test]
fn noncharacter_stays_literal() {
    assert_eq!(unescape(b"&#xFDD0;"), b"&#xFDD0;".to_vec());
    assert_eq!(unescape(b"&#xFFFE;"), b"&#xFFFE;".to_vec());
}

#[test]
fn carriage_return_stays_literal() {
    assert_eq!(unescape(b"&#13;"), b"&#13;".to_vec());
    assert_eq!(unescape(b"&#x0D;"), b"&#x0D;".to_vec());
}

#[test]
fn unmapped_control_stays_literal() {
    assert_eq!(unescape(b"&#x81;"), b"&#x81;".to_vec());
    assert_eq!(unescape(b"&#x07;"), b"&#x07;".to_vec());
}

#[test]
fn legacy_euro_sign() {
    assert_eq!(unescape(b"&#x80;"), "\u{20ac}".as_bytes().to_vec());
}

#[test]
fn special_entity_bullet() {
    assert_eq!(unescape(b"&#x95;"), "\u{2022}".as_bytes().to_vec());
}

#[test]
fn special_entity_bullets() {
    let mut input: Vec<u8> = b"&#x95;&#149;&#x2022;".to_vec();
    input.extend_from_slice("\u{2022}".as_bytes());
    let expected = "\u{2022}\u{2022}\u{2022}\u{2022}".as_bytes().to_vec();
    assert_eq!(unescape(&input), expected);
}

#[test]
fn special_entity_space() {
    assert_eq!(unescape(b"&#x20"), b" ".to_vec());
}

#[test]
fn whitespace_tab() {
    assert_eq!(unescape(b"&#9;"), b"\t".to_vec());
}

#[test]
fn common_named_references() {
    assert_eq!(unescape(b"&copy; &nbsp;"), "\u{a9} \u{a0}".as_bytes().to_vec());
    assert_eq!(unescape(b"&hellip;"), "\u{2026}".as_bytes().to_vec());
    assert_eq!(unescape(b"&lt;&gt;&quot;&apos;"), b"<>\"'".to_vec());
}
