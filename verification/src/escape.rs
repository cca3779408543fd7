//! Escaping raw text for embedding in HTML.
//!
//! Each variant makes a single forward pass and replaces every occurrence of
//! a reserved byte with its named character reference; every other byte is
//! copied through unchanged.

use crate::ascii::{AMPERSAND, DOUBLE_QUOTE, GREATER_THAN, LESS_THAN, SEMICOLON, SINGLE_QUOTE};
use vstd::prelude::*;

verus! {

/// True when `b` is replaced by a character reference under the given
/// variant: `&`, `<` and `>` always, `"` when `quot` is set, `'` when
/// `apos` is set.
pub open spec fn escapes_byte(b: u8, quot: bool, apos: bool) -> bool {
    b == AMPERSAND || b == LESS_THAN || b == GREATER_THAN || (quot && b == DOUBLE_QUOTE) || (apos
        && b == SINGLE_QUOTE)
}

/// The character reference emitted for an escaped byte: `&amp;`, `&lt;`,
/// `&gt;`, `&quot;` or `&apos;`.
pub open spec fn entity_for(b: u8) -> Seq<u8> {
    if b == AMPERSAND {
        seq![AMPERSAND, 0x61, 0x6D, 0x70, SEMICOLON]  // &amp;
    } else if b == LESS_THAN {
        seq![AMPERSAND, 0x6C, 0x74, SEMICOLON]  // &lt;
    } else if b == GREATER_THAN {
        seq![AMPERSAND, 0x67, 0x74, SEMICOLON]  // &gt;
    } else if b == DOUBLE_QUOTE {
        seq![AMPERSAND, 0x71, 0x75, 0x6F, 0x74, SEMICOLON]  // &quot;
    } else {
        seq![AMPERSAND, 0x61, 0x70, 0x6F, 0x73, SEMICOLON]  // &apos;
    }
}

/// The escaped form of `s`: each byte selected by the variant flags becomes
/// its character reference, every other byte passes through unchanged.
pub open spec fn spec_escape(s: Seq<u8>, quot: bool, apos: bool) -> Seq<u8>
    decreases s.len(),
{
    if s.len() == 0 {
        Seq::empty()
    } else {
        (if escapes_byte(s[0], quot, apos) {
            entity_for(s[0])
        } else {
            seq![s[0]]
        }) + spec_escape(s.drop_first(), quot, apos)
    }
}

/// The replacement bytes for one escapable byte.
pub fn map_u8(c: u8) -> (r: Vec<u8>)
    requires
        escapes_byte(c, true, true),
    ensures
        r@ == entity_for(c),
{
    let mut r: Vec<u8> = Vec::new();
    r.push(AMPERSAND);
    if c == AMPERSAND {
        r.push(0x61);
        r.push(0x6D);
        r.push(0x70);
    } else if c == LESS_THAN {
        r.push(0x6C);
        r.push(0x74);
    } else if c == GREATER_THAN {
        r.push(0x67);
        r.push(0x74);
    } else if c == DOUBLE_QUOTE {
        r.push(0x71);
        r.push(0x75);
        r.push(0x6F);
        r.push(0x74);
    } else {
        r.push(0x61);
        r.push(0x70);
        r.push(0x6F);
        r.push(0x73);
    }
    r.push(SEMICOLON);
    assert(r@ =~= entity_for(c));
    r
}

/// One forward pass over `raw`, substituting the bytes that the variant
/// flags select.
fn escape_with(raw: &[u8], quot: bool, apos: bool) -> (r: Vec<u8>)
    ensures
        r@ == spec_escape(raw@, quot, apos),
{
    let mut out: Vec<u8> = Vec::new();
    let mut i: usize = 0;
    proof {
        assert(raw@.skip(0) =~= raw@);
        assert(Seq::<u8>::empty() + spec_escape(raw@, quot, apos) =~= spec_escape(
            raw@,
            quot,
            apos,
        ));
    }
    while i < raw.len()
        invariant
            i <= raw@.len(),
            out@ + spec_escape(raw@.skip(i as int), quot, apos) == spec_escape(raw@, quot, apos),
        decreases raw@.len() - i,
    {
        let c = raw[i];
        let ghost prev = out@;
        let ghost rest = raw@.skip(i as int);
        proof {
            assert(rest[0] == c);
            assert(rest.drop_first() =~= raw@.skip(i + 1));
        }
        if c == AMPERSAND || c == LESS_THAN || c == GREATER_THAN || (quot && c == DOUBLE_QUOTE) || (
        apos && c == SINGLE_QUOTE) {
            let mut piece = map_u8(c);
            out.append(&mut piece);
            assert(out@ + spec_escape(raw@.skip(i + 1), quot, apos) =~= prev + spec_escape(
                rest,
                quot,
                apos,
            ));
        } else {
            out.push(c);
            assert(out@ + spec_escape(raw@.skip(i + 1), quot, apos) =~= prev + spec_escape(
                rest,
                quot,
                apos,
            ));
        }
        i = i + 1;
    }
    proof {
        assert(raw@.skip(raw@.len() as int) =~= Seq::<u8>::empty());
        assert(out@ + Seq::<u8>::empty() =~= out@);
    }
    out
}

/// Escape a string used in a text node: `&`, `<` and `>` become `&amp;`,
/// `&lt;` and `&gt;`; everything else passes through unchanged.
///
/// Do not use this for attribute values: quotes are left alone.
pub fn escape_text(raw: &[u8]) -> (r: Vec<u8>)
    ensures
        r@ == spec_escape(raw@, false, false),
{
    escape_with(raw, false, false)
}

/// Escape a string for a double-quoted attribute value: the text-node set
/// plus `"` → `&quot;`.
pub fn escape_attribute(raw: &[u8]) -> (r: Vec<u8>)
    ensures
        r@ == spec_escape(raw@, true, false),
{
    escape_with(raw, true, false)
}

/// Escape a string including both double and single quotes: the attribute
/// set plus `'` → `&apos;`.
pub fn escape_all_quotes(raw: &[u8]) -> (r: Vec<u8>)
    ensures
        r@ == spec_escape(raw@, true, true),
{
    escape_with(raw, true, true)
}

} // verus!
