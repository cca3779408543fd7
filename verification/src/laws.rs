//! The decoder's general guarantees, stated over the specification functions
//! and proved once for all inputs.

use crate::ascii::{
    all_alnum, is_alnum, is_dec_digit, is_hex_digit, lemma_all_alnum_index, AMPERSAND,
    DOUBLE_QUOTE, GREATER_THAN, LESS_THAN, LOWER_X, NUMBER_SIGN, SEMICOLON, UPPER_X,
};
use crate::entities::{
    default_entries, default_table_model, entry_key_wf, lemma_default_table_wf,
    lemma_lookup_first_match, lemma_lookup_present, spec_lookup, table_wf, TableModel,
};
use crate::escape::{entity_for, escapes_byte, spec_escape};
use crate::unescape::{
    digits_val, find_longest, lemma_run_len_is, replacement_bytes, spec_correct,
    spec_is_outside_range, spec_is_surrogate, spec_match_entity, spec_match_numeric,
    spec_unescape,
};
use vstd::prelude::*;

verus! {

/// Decoding an input that starts with a `;`-terminated spelling of the table
/// emits that spelling's expansion and continues after it, whatever follows.
proof fn lemma_decode_key_prefix(m: TableModel, key: Seq<u8>, tail: Seq<u8>)
    requires
        2 <= m.min_len <= key.len() <= m.max_len,
        key.len() >= 3,
        key[0] == AMPERSAND,
        key.last() == SEMICOLON,
        all_alnum(key.subrange(1, key.len() - 1)),
        spec_lookup(m.entries, key) is Some,
    ensures
        spec_unescape(m, key + tail) == (match spec_lookup(m.entries, key) {
            Some(e) => e,
            None => Seq::<u8>::empty(),
        }) + spec_unescape(m, tail),
{
    let input = key + tail;
    let rest = input.drop_first();
    let klen = key.len() as int;
    let n = (klen - 2) as nat;
    let name = key.subrange(1, klen - 1);
    assert(input[0] == AMPERSAND);
    assert(rest =~= key.skip(1) + tail);
    lemma_all_alnum_index(name);
    assert(forall|j: int| 0 <= j < n ==> #[trigger] rest[j] == key[j + 1]);
    assert(forall|j: int| 0 <= j < n ==> is_alnum(#[trigger] rest[j])) by {
        assert(forall|j: int| 0 <= j < n ==> #[trigger] name[j] == key[j + 1]);
    }
    assert(rest[n as int] == SEMICOLON);
    assert(!is_alnum(SEMICOLON));
    lemma_run_len_is(rest, |b: u8| is_alnum(b), n);
    assert(rest[0] != NUMBER_SIGN);
    let cand = seq![AMPERSAND] + rest.take(n as int + 1);
    assert(cand =~= key);
    assert(cand.take(klen) =~= key);
    let exp = match spec_lookup(m.entries, key) {
        Some(e) => e,
        None => Seq::<u8>::empty(),
    };
    assert(find_longest(m, cand, klen as nat) == Some((klen as nat, exp)));
    assert(cand.skip(klen) =~= Seq::<u8>::empty());
    assert(exp + Seq::<u8>::empty() =~= exp);
    assert(rest.skip(klen - 1) =~= tail);
}

/// Unescaping inverts escaping: under the built-in table, decoding the
/// escaped form of any byte string — under any of the three variants —
/// returns exactly the original bytes.
pub proof fn lemma_unescape_inverts_escape(s: Seq<u8>, quot: bool, apos: bool)
    ensures
        spec_unescape(default_table_model(), spec_escape(s, quot, apos)) == s,
    decreases s.len(),
{
    let m = default_table_model();
    if s.len() == 0 {
    } else {
        let c = s[0];
        let t = s.drop_first();
        let etail = spec_escape(t, quot, apos);
        lemma_unescape_inverts_escape(t, quot, apos);
        if escapes_byte(c, quot, apos) {
            let key = entity_for(c);
            let i: int = if c == AMPERSAND {
                0
            } else if c == LESS_THAN {
                1
            } else if c == GREATER_THAN {
                2
            } else if c == DOUBLE_QUOTE {
                3
            } else {
                4
            };
            assert(default_entries()[i].0 == key);
            assert(default_entries()[i].1 =~= seq![c]);
            assert(forall|j: int| 0 <= j < i ==> (#[trigger] default_entries()[j].0) != key) by {
                if i >= 2 {
                    assert(default_entries()[0].0.len() == 5);
                    assert(default_entries()[1].0.len() == 4);
                }
                if i == 2 {
                    assert(default_entries()[1].0[1] == 0x6C && key[1] == 0x67);
                }
                if i >= 3 {
                    assert(default_entries()[2].0.len() == 4);
                }
                if i == 4 {
                    assert(default_entries()[3].0[1] == 0x71 && key[1] == 0x61);
                }
            }
            lemma_lookup_first_match(m.entries, key, i);
            assert(all_alnum(key.subrange(1, key.len() - 1))) by {
                reveal_with_fuel(all_alnum, 6);
                assert(key.subrange(1, key.len() - 1) =~= key.skip(1).drop_last());
                if c == AMPERSAND {
                    assert(key.subrange(1, key.len() - 1) =~= seq![0x61u8, 0x6D, 0x70]);
                } else if c == LESS_THAN {
                    assert(key.subrange(1, key.len() - 1) =~= seq![0x6Cu8, 0x74]);
                } else if c == GREATER_THAN {
                    assert(key.subrange(1, key.len() - 1) =~= seq![0x67u8, 0x74]);
                } else if c == DOUBLE_QUOTE {
                    assert(key.subrange(1, key.len() - 1) =~= seq![0x71u8, 0x75, 0x6F, 0x74]);
                } else {
                    assert(key.subrange(1, key.len() - 1) =~= seq![0x61u8, 0x70, 0x6F, 0x73]);
                }
            }
            lemma_decode_key_prefix(m, key, etail);
            assert(spec_escape(s, quot, apos) == key + etail);
            assert(seq![c] + t =~= s);
        } else {
            let input = seq![c] + etail;
            assert(input[0] == c && c != AMPERSAND);
            assert(input.drop_first() =~= etail);
            assert(spec_escape(s, quot, apos) == input);
            assert(seq![c] + t =~= s);
        }
    }
}

/// Greedy longest-match: decoding the full spelling of any key that a
/// well-formed table holds yields exactly that key's expansion — never a
/// shorter prefix key's expansion followed by leftover text.
pub proof fn lemma_longest_match_wins(m: TableModel, k: Seq<u8>)
    requires
        table_wf(m),
        exists|i: int| 0 <= i < m.entries.len() && (#[trigger] m.entries[i].0) == k,
    ensures
        spec_lookup(m.entries, k) is Some,
        spec_unescape(m, k) == (match spec_lookup(m.entries, k) {
            Some(e) => e,
            None => Seq::<u8>::empty(),
        }),
{
    lemma_lookup_present(m.entries, k);
    let i = choose|i: int| 0 <= i < m.entries.len() && (#[trigger] m.entries[i].0) == k;
    assert(entry_key_wf(m.min_len, m.max_len, k));
    let exp = match spec_lookup(m.entries, k) {
        Some(e) => e,
        None => Seq::<u8>::empty(),
    };
    let klen = k.len() as int;
    let rest = k.drop_first();
    assert(rest =~= k.skip(1));
    assert(rest[0] == k[1] && is_alnum(k[1]));
    assert(rest[0] != NUMBER_SIGN);
    if all_alnum(k.skip(1)) {
        // the spelling has no trailing semicolon
        lemma_all_alnum_index(rest);
        lemma_run_len_is(rest, |b: u8| is_alnum(b), rest.len());
        let cand = seq![AMPERSAND] + rest.take(rest.len() as int);
        assert(cand =~= k);
        assert(cand.take(klen) =~= k);
        assert(find_longest(m, cand, klen as nat) == Some((klen as nat, exp)));
        assert(cand.skip(klen) =~= Seq::<u8>::empty());
        assert(exp + Seq::<u8>::empty() =~= exp);
        assert(rest.skip(rest.len() as int) =~= Seq::<u8>::empty());
        assert(spec_unescape(m, Seq::<u8>::empty()) == Seq::<u8>::empty());
        assert(exp + spec_unescape(m, Seq::<u8>::empty()) =~= exp);
    } else {
        // the spelling ends with a semicolon
        lemma_decode_key_prefix(m, k, Seq::<u8>::empty());
        assert(k + Seq::<u8>::empty() =~= k);
        assert(spec_unescape(m, Seq::<u8>::empty()) == Seq::<u8>::empty());
        assert(exp + Seq::<u8>::empty() =~= exp);
    }
}

/// Greedy longest-match on the built-in table: decoding the full spelling
/// of any key that the built-in table holds yields exactly that key's
/// expansion.
pub proof fn lemma_default_longest_match_wins(k: Seq<u8>)
    requires
        exists|i: int|
            0 <= i < default_entries().len() && (#[trigger] default_entries()[i].0) == k,
    ensures
        spec_lookup(default_entries(), k) is Some,
        spec_unescape(default_table_model(), k) == (match spec_lookup(default_entries(), k) {
            Some(e) => e,
            None => Seq::<u8>::empty(),
        }),
{
    lemma_default_table_wf();
    lemma_longest_match_wins(default_table_model(), k);
}

/// Decoding an input that is exactly one well-terminated decimal reference:
/// the corrected expansion when the value fits and the correction table
/// yields one, the literal input otherwise.
pub proof fn lemma_decode_dec_reference(m: TableModel, digits: Seq<u8>)
    requires
        digits.len() > 0,
        forall|j: int| 0 <= j < digits.len() ==> is_dec_digit(#[trigger] digits[j]),
    ensures
        ({
            let input = seq![AMPERSAND, NUMBER_SIGN] + digits + seq![SEMICOLON];
            let v = digits_val(digits, 10);
            spec_unescape(m, input) == (if v > u32::MAX {
                input
            } else {
                match spec_correct(v as u32) {
                    Some(e) => e,
                    None => input,
                }
            })
        }),
{
    let input = seq![AMPERSAND, NUMBER_SIGN] + digits + seq![SEMICOLON];
    let rest = input.drop_first();
    let dlen = digits.len() as int;
    assert(input[0] == AMPERSAND && rest[0] == NUMBER_SIGN);
    let after = rest.skip(1);
    assert(after =~= digits + seq![SEMICOLON]);
    assert(after[0] == digits[0] && is_dec_digit(digits[0]));
    assert(after[0] != LOWER_X && after[0] != UPPER_X);
    assert(forall|j: int| 0 <= j < dlen ==> #[trigger] after[j] == digits[j]);
    assert(after[dlen] == SEMICOLON && !is_dec_digit(SEMICOLON));
    lemma_run_len_is(after, |b: u8| is_dec_digit(b), digits.len());
    assert(after.take(dlen) =~= digits);
    assert(after.skip(dlen) =~= seq![SEMICOLON]);
    assert(seq![AMPERSAND, NUMBER_SIGN] + digits + seq![SEMICOLON] =~= input);
    assert(rest.skip(dlen + 2) =~= Seq::<u8>::empty());
    assert(rest.len() == dlen + 2);
    let mr = spec_match_entity(m, rest);
    assert(mr == spec_match_numeric(rest));
    assert(mr.1 == dlen + 2);
    assert(spec_unescape(m, input) == mr.0 + spec_unescape(m, rest.skip(dlen + 2)));
    assert(spec_unescape(m, rest.skip(dlen + 2)) == Seq::<u8>::empty());
    let v = digits_val(digits, 10);
    if v > u32::MAX {
        assert(mr.0 == input);
        assert(input + Seq::<u8>::empty() =~= input);
    } else {
        match spec_correct(v as u32) {
            Some(e) => {
                assert(mr.0 == e);
                assert(e + Seq::<u8>::empty() =~= e);
            },
            None => {
                assert(mr.0 == input);
                assert(input + Seq::<u8>::empty() =~= input);
            },
        }
    }
}

/// Decoding an input that is exactly one well-terminated hexadecimal
/// reference, with either case of the base marker.
pub proof fn lemma_decode_hex_reference(m: TableModel, marker: u8, digits: Seq<u8>)
    requires
        marker == LOWER_X || marker == UPPER_X,
        digits.len() > 0,
        forall|j: int| 0 <= j < digits.len() ==> is_hex_digit(#[trigger] digits[j]),
    ensures
        ({
            let input = seq![AMPERSAND, NUMBER_SIGN, marker] + digits + seq![SEMICOLON];
            let v = digits_val(digits, 16);
            spec_unescape(m, input) == (if v > u32::MAX {
                input
            } else {
                match spec_correct(v as u32) {
                    Some(e) => e,
                    None => input,
                }
            })
        }),
{
    let input = seq![AMPERSAND, NUMBER_SIGN, marker] + digits + seq![SEMICOLON];
    let rest = input.drop_first();
    let dlen = digits.len() as int;
    assert(input[0] == AMPERSAND && rest[0] == NUMBER_SIGN);
    let after = rest.skip(1);
    assert(after =~= seq![marker] + digits + seq![SEMICOLON]);
    assert(after[0] == marker);
    let digits_area = after.skip(1);
    assert(digits_area =~= digits + seq![SEMICOLON]);
    assert(forall|j: int| 0 <= j < dlen ==> #[trigger] digits_area[j] == digits[j]);
    assert(digits_area[dlen] == SEMICOLON && !is_hex_digit(SEMICOLON));
    lemma_run_len_is(digits_area, |b: u8| is_hex_digit(b), digits.len());
    assert(digits_area.take(dlen) =~= digits);
    assert(digits_area.skip(dlen) =~= seq![SEMICOLON]);
    assert(seq![AMPERSAND, NUMBER_SIGN, after[0]] + digits + seq![SEMICOLON] =~= input);
    assert(rest.skip(dlen + 3) =~= Seq::<u8>::empty());
    assert(rest.len() == dlen + 3);
    let mr = spec_match_entity(m, rest);
    assert(mr == spec_match_numeric(rest));
    assert(mr.1 == dlen + 3);
    assert(spec_unescape(m, input) == mr.0 + spec_unescape(m, rest.skip(dlen + 3)));
    assert(spec_unescape(m, rest.skip(dlen + 3)) == Seq::<u8>::empty());
    let v = digits_val(digits, 16);
    if v > u32::MAX {
        assert(mr.0 == input);
        assert(input + Seq::<u8>::empty() =~= input);
    } else {
        match spec_correct(v as u32) {
            Some(e) => {
                assert(mr.0 == e);
                assert(e + Seq::<u8>::empty() =~= e);
            },
            None => {
                assert(mr.0 == input);
                assert(input + Seq::<u8>::empty() =~= input);
            },
        }
    }
}

/// The correction-table invariant: a decimal reference to zero, to a UTF-16
/// surrogate, or to a value beyond the Unicode range decodes to the
/// replacement character, under any table.
pub proof fn lemma_numeric_correction(m: TableModel, digits: Seq<u8>)
    requires
        digits.len() > 0,
        forall|j: int| 0 <= j < digits.len() ==> is_dec_digit(#[trigger] digits[j]),
        digits_val(digits, 10) <= u32::MAX,
        digits_val(digits, 10) == 0 || spec_is_surrogate(digits_val(digits, 10) as u32)
            || spec_is_outside_range(digits_val(digits, 10) as u32),
    ensures
        spec_unescape(m, seq![AMPERSAND, NUMBER_SIGN] + digits + seq![SEMICOLON])
            == replacement_bytes(),
{
    lemma_decode_dec_reference(m, digits);
}

/// Hexadecimal/decimal equivalence: two well-terminated numeric references
/// naming the same value decode alike whenever the correction table yields
/// an expansion for that value.
pub proof fn lemma_hex_dec_equivalence(
    m: TableModel,
    marker: u8,
    hex_digits: Seq<u8>,
    dec_digits: Seq<u8>,
)
    requires
        marker == LOWER_X || marker == UPPER_X,
        hex_digits.len() > 0,
        dec_digits.len() > 0,
        forall|j: int| 0 <= j < hex_digits.len() ==> is_hex_digit(#[trigger] hex_digits[j]),
        forall|j: int| 0 <= j < dec_digits.len() ==> is_dec_digit(#[trigger] dec_digits[j]),
        digits_val(hex_digits, 16) == digits_val(dec_digits, 10),
        digits_val(dec_digits, 10) <= u32::MAX,
        spec_correct(digits_val(dec_digits, 10) as u32) is Some,
    ensures
        spec_unescape(m, seq![AMPERSAND, NUMBER_SIGN, marker] + hex_digits + seq![SEMICOLON])
            == spec_unescape(m, seq![AMPERSAND, NUMBER_SIGN] + dec_digits + seq![SEMICOLON]),
{
    lemma_decode_hex_reference(m, marker, hex_digits);
    lemma_decode_dec_reference(m, dec_digits);
}

} // verus!
