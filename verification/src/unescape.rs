//! Decoding HTML character references.
//!
//! The decoder makes one forward pass. At each `&` it tries to read a
//! character reference — a numeric one after `&#`, a named one otherwise —
//! and emits either the reference's expansion or, when nothing valid can be
//! read, the consumed bytes unchanged. No input is ever rejected: every
//! malformed reference falls back to literal passthrough.

use crate::ascii::{
    alnum, dec_digit, hex_digit, is_alnum, is_dec_digit, is_hex_digit, AMPERSAND, DIGIT_NINE,
    DIGIT_ZERO, LOWER_A, LOWER_X, NUMBER_SIGN, SEMICOLON, UPPER_A, UPPER_X,
};
use crate::entities::{
    default_table, default_table_model, spec_lookup, EntityTable, TableModel,
};
use vstd::prelude::*;

verus! {

/// Length of the longest prefix of `s` whose bytes all satisfy `pred`.
pub open spec fn run_len(s: Seq<u8>, pred: spec_fn(u8) -> bool) -> nat
    decreases s.len(),
{
    if s.len() > 0 && pred(s[0]) {
        1 + run_len(s.drop_first(), pred)
    } else {
        0
    }
}

pub proof fn lemma_run_len_bound(s: Seq<u8>, pred: spec_fn(u8) -> bool)
    ensures
        run_len(s, pred) <= s.len(),
    decreases s.len(),
{
    if s.len() > 0 && pred(s[0]) {
        lemma_run_len_bound(s.drop_first(), pred);
    }
}

/// The run length is exactly the position of the first byte that fails
/// `pred`, or the whole length when none does.
pub proof fn lemma_run_len_is(s: Seq<u8>, pred: spec_fn(u8) -> bool, n: nat)
    requires
        n <= s.len(),
        forall|j: int| 0 <= j < n ==> pred(#[trigger] s[j]),
        n == s.len() || !pred(s[n as int]),
    ensures
        run_len(s, pred) == n,
    decreases n,
{
    if n == 0 {
    } else {
        assert(pred(s[0]));
        let t = s.drop_first();
        assert(forall|j: int| 0 <= j < n - 1 ==> #[trigger] t[j] == s[j + 1]);
        lemma_run_len_is(t, pred, (n - 1) as nat);
    }
}

/// Every byte inside the run satisfies `pred`.
pub proof fn lemma_run_len_all(s: Seq<u8>, pred: spec_fn(u8) -> bool)
    ensures
        forall|j: int| 0 <= j < run_len(s, pred) ==> pred(#[trigger] s[j]),
    decreases s.len(),
{
    if s.len() > 0 && pred(s[0]) {
        lemma_run_len_bound(s, pred);
        lemma_run_len_all(s.drop_first(), pred);
        assert forall|j: int| 0 <= j < run_len(s, pred) implies pred(#[trigger] s[j]) by {
            if j > 0 {
                assert(s.drop_first()[j - 1] == s[j]);
                assert(pred(s.drop_first()[j - 1]));
            }
        }
    }
}

/// Maximal run of ASCII letters and digits at the front of `s`.
pub open spec fn alnum_run(s: Seq<u8>) -> nat {
    run_len(s, |b: u8| is_alnum(b))
}

/// Maximal run of decimal digits at the front of `s`.
pub open spec fn dec_run(s: Seq<u8>) -> nat {
    run_len(s, |b: u8| is_dec_digit(b))
}

/// Maximal run of hexadecimal digits at the front of `s`.
pub open spec fn hex_run(s: Seq<u8>) -> nat {
    run_len(s, |b: u8| is_hex_digit(b))
}

/// Numeric value of one ASCII digit, in either base (decimal digits have the
/// same value in both).
pub open spec fn digit_val(b: u8) -> nat {
    if is_dec_digit(b) {
        (b - DIGIT_ZERO) as nat
    } else if LOWER_A <= b {
        (b - LOWER_A + 10) as nat
    } else {
        (b - UPPER_A + 10) as nat
    }
}

/// Value of a digit string read in the given base, most significant first.
pub open spec fn digits_val(s: Seq<u8>, base: nat) -> nat
    decreases s.len(),
{
    if s.len() == 0 {
        0
    } else {
        digits_val(s.drop_last(), base) * base + digit_val(s.last())
    }
}

/// Code points beyond the Unicode range.
pub open spec fn spec_is_outside_range(c: u32) -> bool {
    c > 0x10FFFF
}

/// UTF-16 surrogate code points, invalid as standalone scalar values.
pub open spec fn spec_is_surrogate(c: u32) -> bool {
    0xD800 <= c <= 0xDFFF
}

/// C0 and C1 control code points, together with DELETE.
pub open spec fn spec_is_control(c: u32) -> bool {
    c <= 0x1F || (0x7F <= c <= 0x9F)
}

/// ASCII whitespace: tab, line feed, form feed, carriage return, space.
pub open spec fn spec_is_ascii_whitespace(c: u32) -> bool {
    c == 0x09 || c == 0x0A || c == 0x0C || c == 0x0D || c == 0x20
}

/// Code points permanently reserved as noncharacters: `U+FDD0..=U+FDEF` and
/// the final two code points of every plane.
pub open spec fn spec_is_noncharacter(c: u32) -> bool {
    (0xFDD0 <= c <= 0xFDEF) || ((c % 0x10000 == 0xFFFE || c % 0x10000 == 0xFFFF) && c <= 0x10FFFF)
}

/// The Windows-1252 legacy remapping of C1 control code points that the
/// numeric-reference correction applies.
pub open spec fn spec_legacy(c: u32) -> Option<u32> {
    if c == 0x80 {
        Some(0x20AC)  // EURO SIGN
    } else if c == 0x82 {
        Some(0x201A)  // SINGLE LOW-9 QUOTATION MARK
    } else if c == 0x83 {
        Some(0x0192)  // LATIN SMALL LETTER F WITH HOOK
    } else if c == 0x84 {
        Some(0x201E)  // DOUBLE LOW-9 QUOTATION MARK
    } else if c == 0x85 {
        Some(0x2026)  // HORIZONTAL ELLIPSIS
    } else if c == 0x86 {
        Some(0x2020)  // DAGGER
    } else if c == 0x87 {
        Some(0x2021)  // DOUBLE DAGGER
    } else if c == 0x88 {
        Some(0x02C6)  // MODIFIER LETTER CIRCUMFLEX ACCENT
    } else if c == 0x89 {
        Some(0x2030)  // PER MILLE SIGN
    } else if c == 0x8A {
        Some(0x0160)  // LATIN CAPITAL LETTER S WITH CARON
    } else if c == 0x8B {
        Some(0x2039)  // SINGLE LEFT-POINTING ANGLE QUOTATION MARK
    } else if c == 0x8C {
        Some(0x0152)  // LATIN CAPITAL LIGATURE OE
    } else if c == 0x8E {
        Some(0x017D)  // LATIN CAPITAL LETTER Z WITH CARON
    } else if c == 0x91 {
        Some(0x2018)  // LEFT SINGLE QUOTATION MARK
    } else if c == 0x92 {
        Some(0x2019)  // RIGHT SINGLE QUOTATION MARK
    } else if c == 0x93 {
        Some(0x201C)  // LEFT DOUBLE QUOTATION MARK
    } else if c == 0x94 {
        Some(0x201D)  // RIGHT DOUBLE QUOTATION MARK
    } else if c == 0x95 {
        Some(0x2022)  // BULLET
    } else if c == 0x96 {
        Some(0x2013)  // EN DASH
    } else if c == 0x97 {
        Some(0x2014)  // EM DASH
    } else if c == 0x98 {
        Some(0x02DC)  // SMALL TILDE
    } else if c == 0x99 {
        Some(0x2122)  // TRADE MARK SIGN
    } else if c == 0x9A {
        Some(0x0161)  // LATIN SMALL LETTER S WITH CARON
    } else if c == 0x9B {
        Some(0x203A)  // SINGLE RIGHT-POINTING ANGLE QUOTATION MARK
    } else if c == 0x9C {
        Some(0x0153)  // LATIN SMALL LIGATURE OE
    } else if c == 0x9E {
        Some(0x017E)  // LATIN SMALL LETTER Z WITH CARON
    } else if c == 0x9F {
        Some(0x0178)  // LATIN CAPITAL LETTER Y WITH DIAERESIS
    } else {
        None
    }
}

/// The UTF-8 encoding of a Unicode scalar value.
pub open spec fn utf8_encode(c: u32) -> Seq<u8> {
    if c < 0x80 {
        seq![c as u8]
    } else if c < 0x800 {
        seq![(0xC0 + c / 0x40) as u8, (0x80 + c % 0x40) as u8]
    } else if c < 0x10000 {
        seq![(0xE0 + c / 0x1000) as u8, (0x80 + (c / 0x40) % 0x40) as u8, (0x80 + c % 0x40) as u8]
    } else {
        seq![
            (0xF0 + c / 0x40000) as u8,
            (0x80 + (c / 0x1000) % 0x40) as u8,
            (0x80 + (c / 0x40) % 0x40) as u8,
            (0x80 + c % 0x40) as u8,
        ]
    }
}

/// The replacement character `U+FFFD`, as UTF-8 bytes.
pub open spec fn replacement_bytes() -> Seq<u8> {
    utf8_encode(0xFFFD)
}

/// The correction a parsed numeric reference receives: `Some` bytes to emit
/// in place of the reference, or `None` when the reference stays literal.
pub open spec fn spec_correct(n: u32) -> Option<Seq<u8>> {
    if n == 0 {
        Some(replacement_bytes())
    } else if spec_is_outside_range(n) {
        Some(replacement_bytes())
    } else if spec_is_surrogate(n) {
        Some(replacement_bytes())
    } else if spec_is_noncharacter(n) {
        None
    } else if spec_legacy(n) is Some {
        match spec_legacy(n) {
            Some(m) => Some(utf8_encode(m)),
            None => None,
        }
    } else if n == 0x0D {
        None
    } else if spec_is_ascii_whitespace(n) {
        Some(utf8_encode(n))
    } else if spec_is_control(n) {
        None
    } else {
        Some(utf8_encode(n))
    }
}

/// Relative to the bytes after `&`: what a numeric reference starting at the
/// `#` at index 0 emits, and how many bytes it consumes (the `#`, the base
/// marker, the digits, and a closing `;` when one is present).
pub open spec fn spec_match_numeric(rest: Seq<u8>) -> (Seq<u8>, nat) {
    let after = rest.skip(1);
    if after.len() == 0 {
        (seq![AMPERSAND, NUMBER_SIGN], 1)
    } else if after[0] == LOWER_X || after[0] == UPPER_X {
        let digits_area = after.skip(1);
        let n = hex_run(digits_area);
        numeric_result(
            seq![AMPERSAND, NUMBER_SIGN, after[0]],
            digits_area.take(n as int),
            16,
            (2 + n) as nat,
            digits_area.skip(n as int),
        )
    } else {
        let n = dec_run(after);
        numeric_result(
            seq![AMPERSAND, NUMBER_SIGN],
            after.take(n as int),
            10,
            (1 + n) as nat,
            after.skip(n as int),
        )
    }
}

/// Resolution of a scanned numeric reference: `prefix` is what was read
/// before the digits (`&#` or `&#x`), `digits` the digit run, `pos` the
/// count of bytes consumed after `&` so far, and `tail` what follows the
/// digits. A `;` in front of `tail` is consumed either way; the reference
/// resolves to corrected bytes only when digits exist, their value fits in
/// 32 bits, and the correction table yields a replacement — otherwise the
/// consumed bytes are emitted unchanged.
pub open spec fn numeric_result(
    prefix: Seq<u8>,
    digits: Seq<u8>,
    base: nat,
    pos: nat,
    tail: Seq<u8>,
) -> (Seq<u8>, nat) {
    let semi = tail.len() > 0 && tail[0] == SEMICOLON;
    let lit = prefix + digits + (if semi {
        seq![SEMICOLON]
    } else {
        Seq::empty()
    });
    let consumed = pos + (if semi {
        1nat
    } else {
        0nat
    });
    let v = digits_val(digits, base);
    if digits.len() == 0 || v > u32::MAX {
        (lit, consumed)
    } else {
        match spec_correct(v as u32) {
            Some(exp) => (exp, consumed),
            None => (lit, consumed),
        }
    }
}

/// The longest probe length in `min_len..=len` at which a prefix of `cand`
/// is a spelling of the table, with its expansion.
pub open spec fn find_longest(m: TableModel, cand: Seq<u8>, len: nat) -> Option<(nat, Seq<u8>)>
    decreases len,
{
    if len < m.min_len {
        None
    } else {
        match spec_lookup(m.entries, cand.take(len as int)) {
            Some(exp) => Some((len, exp)),
            None => {
                if len <= m.min_len {
                    None
                } else {
                    find_longest(m, cand, (len - 1) as nat)
                }
            },
        }
    }
}

/// Relative to the bytes after `&`: what a named reference starting at
/// index 0 emits, and how many bytes it consumes. The candidate is the
/// maximal alphanumeric run plus a `;` when one follows; the longest
/// matching spelling wins, its expansion is emitted, and candidate bytes
/// beyond the match are re-emitted as ordinary text. Without a match the
/// whole candidate passes through unchanged.
pub open spec fn spec_match_named(m: TableModel, rest: Seq<u8>) -> (Seq<u8>, nat) {
    let n = alnum_run(rest);
    let semi = rest.len() > n && rest[n as int] == SEMICOLON;
    let clen: nat = n + (if semi {
        1nat
    } else {
        0nat
    });
    let cand = seq![AMPERSAND] + rest.take(clen as int);
    if cand.len() < m.min_len {
        (cand, clen)
    } else {
        let top: nat = if cand.len() <= m.max_len {
            cand.len()
        } else {
            m.max_len
        };
        match find_longest(m, cand, top) {
            Some(le) => (le.1 + cand.skip(le.0 as int), clen),
            None => (cand, clen),
        }
    }
}

/// What the reference at a `&` emits and consumes, relative to the bytes
/// after the `&`: numeric when a `#` follows, named otherwise.
pub open spec fn spec_match_entity(m: TableModel, rest: Seq<u8>) -> (Seq<u8>, nat) {
    if rest.len() > 0 && rest[0] == NUMBER_SIGN {
        spec_match_numeric(rest)
    } else {
        spec_match_named(m, rest)
    }
}

/// The decoded form of `s` under table `m`: every byte other than `&`
/// passes through unchanged; each `&` emits what its reference resolves to
/// and the scan resumes after the consumed bytes.
pub open spec fn spec_unescape(m: TableModel, s: Seq<u8>) -> Seq<u8>
    decreases s.len(),
{
    if s.len() == 0 {
        Seq::empty()
    } else if s[0] != AMPERSAND {
        seq![s[0]] + spec_unescape(m, s.drop_first())
    } else {
        let rest = s.drop_first();
        let mr = spec_match_entity(m, rest);
        let consumed: nat = if mr.1 <= rest.len() {
            mr.1
        } else {
            rest.len()
        };
        mr.0 + spec_unescape(m, rest.skip(consumed as int))
    }
}

/// Append all of `src` to `out`.
fn push_vec(out: &mut Vec<u8>, src: &Vec<u8>)
    ensures
        final (out)@ == old(out)@ + src@,
{
    proof {
        assert(old(out)@ + src@.take(0) =~= old(out)@);
    }
    let mut j: usize = 0;
    while j < src.len()
        invariant
            j <= src@.len(),
            out@ == old(out)@ + src@.take(j as int),
        decreases src@.len() - j,
    {
        out.push(src[j]);
        proof {
            assert(out@ =~= old(out)@ + src@.take(j + 1));
        }
        j = j + 1;
    }
    proof {
        assert(src@.take(src@.len() as int) =~= src@);
    }
}

/// Append the bytes `s[from..to]` to `out`.
fn push_range(out: &mut Vec<u8>, s: &[u8], from: usize, to: usize)
    requires
        from <= to <= s@.len(),
    ensures
        final (out)@ == old(out)@ + s@.subrange(from as int, to as int),
{
    proof {
        assert(old(out)@ + s@.subrange(from as int, from as int) =~= old(out)@);
    }
    let mut j: usize = from;
    while j < to
        invariant
            from <= j <= to <= s@.len(),
            out@ == old(out)@ + s@.subrange(from as int, j as int),
        decreases to - j,
    {
        out.push(s[j]);
        proof {
            assert(out@ =~= old(out)@ + s@.subrange(from as int, j + 1));
        }
        j = j + 1;
    }
}

/// Length of the alphanumeric run in `s` starting at `from`.
fn scan_alnum(s: &[u8], from: usize) -> (n: usize)
    requires
        from <= s@.len(),
    ensures
        n as nat == alnum_run(s@.skip(from as int)),
        from + n <= s@.len(),
{
    let mut j: usize = from;
    while j < s.len() && alnum(s[j])
        invariant
            from <= j <= s@.len(),
            forall|l: int| from <= l < j ==> is_alnum(#[trigger] s@[l]),
        decreases s@.len() - j,
    {
        j = j + 1;
    }
    proof {
        let t = s@.skip(from as int);
        let pred = |b: u8| is_alnum(b);
        assert(forall|idx: int| 0 <= idx < j - from ==> pred(#[trigger] t[idx]));
        lemma_run_len_is(t, pred, (j - from) as nat);
    }
    j - from
}

/// Length of the decimal-digit run in `s` starting at `from`.
fn scan_dec(s: &[u8], from: usize) -> (n: usize)
    requires
        from <= s@.len(),
    ensures
        n as nat == dec_run(s@.skip(from as int)),
        from + n <= s@.len(),
{
    let mut j: usize = from;
    while j < s.len() && dec_digit(s[j])
        invariant
            from <= j <= s@.len(),
            forall|l: int| from <= l < j ==> is_dec_digit(#[trigger] s@[l]),
        decreases s@.len() - j,
    {
        j = j + 1;
    }
    proof {
        let t = s@.skip(from as int);
        let pred = |b: u8| is_dec_digit(b);
        assert(forall|idx: int| 0 <= idx < j - from ==> pred(#[trigger] t[idx]));
        lemma_run_len_is(t, pred, (j - from) as nat);
    }
    j - from
}

/// Length of the hexadecimal-digit run in `s` starting at `from`.
fn scan_hex(s: &[u8], from: usize) -> (n: usize)
    requires
        from <= s@.len(),
    ensures
        n as nat == hex_run(s@.skip(from as int)),
        from + n <= s@.len(),
{
    let mut j: usize = from;
    while j < s.len() && hex_digit(s[j])
        invariant
            from <= j <= s@.len(),
            forall|l: int| from <= l < j ==> is_hex_digit(#[trigger] s@[l]),
        decreases s@.len() - j,
    {
        j = j + 1;
    }
    proof {
        let t = s@.skip(from as int);
        let pred = |b: u8| is_hex_digit(b);
        assert(forall|idx: int| 0 <= idx < j - from ==> pred(#[trigger] t[idx]));
        lemma_run_len_is(t, pred, (j - from) as nat);
    }
    j - from
}

/// The value of one ASCII digit.
fn digit_value(b: u8) -> (d: u8)
    requires
        is_hex_digit(b),
    ensures
        d as nat == digit_val(b),
        d < 16,
{
    if b <= DIGIT_NINE {
        b - DIGIT_ZERO
    } else if b >= LOWER_A {
        b - LOWER_A + 10
    } else {
        b - UPPER_A + 10
    }
}

/// Read `n` digit bytes at `from` as an unsigned 32-bit number in the chosen
/// base; `None` when the value does not fit.
fn parse_digits(s: &[u8], from: usize, n: usize, hex: bool) -> (r: Option<u32>)
    requires
        from + n <= s@.len(),
        forall|j: int|
            from <= j < from + n ==> (if hex {
                is_hex_digit(#[trigger] s@[j])
            } else {
                is_dec_digit(s@[j])
            }),
    ensures
        ({
            let v = digits_val(
                s@.subrange(from as int, (from + n) as int),
                if hex {
                    16nat
                } else {
                    10nat
                },
            );
            match r {
                Some(x) => x as nat == v,
                None => v > u32::MAX,
            }
        }),
{
    let ghost base: nat = if hex {
        16nat
    } else {
        10nat
    };
    let mut acc: u64 = 0;
    let mut j: usize = from;
    // binding the slice length gives the prover the machine bound on `from + n`
    let slen: usize = s.len();
    let end: usize = from + n;
    proof {
        assert(end <= slen);
        assert(s@.subrange(from as int, from as int).len() == 0);
    }
    while j < end
        invariant
            end == from + n,
            from <= j <= from + n,
            from + n <= s@.len(),
            base == (if hex {
                16nat
            } else {
                10nat
            }),
            forall|l: int|
                from <= l < from + n ==> (if hex {
                    is_hex_digit(#[trigger] s@[l])
                } else {
                    is_dec_digit(s@[l])
                }),
            acc <= 0x1_0000_0000u64,
            ({
                let v = digits_val(s@.subrange(from as int, j as int), base);
                if v <= u32::MAX {
                    acc as nat == v
                } else {
                    acc == 0x1_0000_0000u64
                }
            }),
        decreases from + n - j,
    {
        let ghost prefix = s@.subrange(from as int, j as int);
        let ghost prefix2 = s@.subrange(from as int, j + 1);
        let ghost v = digits_val(prefix, base);
        let ghost v2 = digits_val(prefix2, base);
        proof {
            assert(prefix2.drop_last() =~= prefix);
            assert(prefix2.last() == s@[j as int]);
            assert(v2 == v * base + digit_val(s@[j as int]));
            if v > u32::MAX {
                if hex {
                    assert(v * 16 >= v);
                } else {
                    assert(v * 10 >= v);
                }
            }
        }
        let b = s[j];
        proof {
            assert(is_hex_digit(b));
        }
        let d = digit_value(b);
        let step: u64 = if hex {
            acc * 16
        } else {
            acc * 10
        };
        acc = step + (d as u64);
        if acc > 0xFFFF_FFFFu64 {
            acc = 0x1_0000_0000u64;
        }
        proof {
            if v <= u32::MAX {
                assert(v2 == v * base + digit_val(s@[j as int]));
            }
        }
        j = j + 1;
    }
    if acc > 0xFFFF_FFFFu64 {
        None
    } else {
        Some(acc as u32)
    }
}

/// The UTF-8 encoding of a Unicode scalar value, as executable bytes.
pub fn encode_utf8(c: u32) -> (r: Vec<u8>)
    requires
        c <= 0x10FFFF,
    ensures
        r@ == utf8_encode(c),
{
    let mut r: Vec<u8> = Vec::new();
    if c < 0x80 {
        r.push(c as u8);
    } else if c < 0x800 {
        r.push((0xC0 + c / 0x40) as u8);
        r.push((0x80 + c % 0x40) as u8);
    } else if c < 0x10000 {
        r.push((0xE0 + c / 0x1000) as u8);
        r.push((0x80 + (c / 0x40) % 0x40) as u8);
        r.push((0x80 + c % 0x40) as u8);
    } else {
        r.push((0xF0 + c / 0x40000) as u8);
        r.push((0x80 + (c / 0x1000) % 0x40) as u8);
        r.push((0x80 + (c / 0x40) % 0x40) as u8);
        r.push((0x80 + c % 0x40) as u8);
    }
    assert(r@ =~= utf8_encode(c));
    r
}

/// Whether the code point lies beyond the Unicode range.
pub fn is_outside_range(c: u32) -> (r: bool)
    ensures
        r == spec_is_outside_range(c),
{
    c > 0x10FFFF
}

/// Whether the code point is a UTF-16 surrogate.
pub fn is_surrogate(c: u32) -> (r: bool)
    ensures
        r == spec_is_surrogate(c),
{
    0xD800 <= c && c <= 0xDFFF
}

/// Whether the code point is a C0 or C1 control, or DELETE.
pub fn is_control(c: u32) -> (r: bool)
    ensures
        r == spec_is_control(c),
{
    c <= 0x1F || (0x7F <= c && c <= 0x9F)
}

/// Whether the code point is ASCII whitespace.
pub fn is_ascii_whitespace(c: u32) -> (r: bool)
    ensures
        r == spec_is_ascii_whitespace(c),
{
    c == 0x09 || c == 0x0A || c == 0x0C || c == 0x0D || c == 0x20
}

/// Whether the code point is a designated noncharacter.
pub fn is_noncharacter(c: u32) -> (r: bool)
    ensures
        r == spec_is_noncharacter(c),
{
    (0xFDD0 <= c && c <= 0xFDEF) || ((c % 0x10000 == 0xFFFE || c % 0x10000 == 0xFFFF) && c
        <= 0x10FFFF)
}

/// The Windows-1252 legacy remapping of C1 controls, at runtime.
fn legacy_mapping(c: u32) -> (r: Option<u32>)
    ensures
        r == spec_legacy(c),
{
    if c == 0x80 {
        Some(0x20AC)
    } else if c == 0x82 {
        Some(0x201A)
    } else if c == 0x83 {
        Some(0x0192)
    } else if c == 0x84 {
        Some(0x201E)
    } else if c == 0x85 {
        Some(0x2026)
    } else if c == 0x86 {
        Some(0x2020)
    } else if c == 0x87 {
        Some(0x2021)
    } else if c == 0x88 {
        Some(0x02C6)
    } else if c == 0x89 {
        Some(0x2030)
    } else if c == 0x8A {
        Some(0x0160)
    } else if c == 0x8B {
        Some(0x2039)
    } else if c == 0x8C {
        Some(0x0152)
    } else if c == 0x8E {
        Some(0x017D)
    } else if c == 0x91 {
        Some(0x2018)
    } else if c == 0x92 {
        Some(0x2019)
    } else if c == 0x93 {
        Some(0x201C)
    } else if c == 0x94 {
        Some(0x201D)
    } else if c == 0x95 {
        Some(0x2022)
    } else if c == 0x96 {
        Some(0x2013)
    } else if c == 0x97 {
        Some(0x2014)
    } else if c == 0x98 {
        Some(0x02DC)
    } else if c == 0x99 {
        Some(0x2122)
    } else if c == 0x9A {
        Some(0x0161)
    } else if c == 0x9B {
        Some(0x203A)
    } else if c == 0x9C {
        Some(0x0153)
    } else if c == 0x9E {
        Some(0x017E)
    } else if c == 0x9F {
        Some(0x0178)
    } else {
        None
    }
}

/// Apply the numeric-reference correction table to a parsed value: `Some`
/// replacement bytes, or `None` when the reference stays literal.
pub fn correct_numeric_entity(number: u32) -> (r: Option<Vec<u8>>)
    ensures
        (match r {
            Some(v) => spec_correct(number) == Some(v@),
            None => spec_correct(number) is None,
        }),
{
    if number == 0 {
        return Some(encode_utf8(0xFFFD));
    }
    if is_outside_range(number) {
        return Some(encode_utf8(0xFFFD));
    }
    if is_surrogate(number) {
        return Some(encode_utf8(0xFFFD));
    }
    if is_noncharacter(number) {
        return None;
    }
    let legacy = legacy_mapping(number);
    match legacy {
        Some(m) => {
            assert(m <= 0x10FFFF);
            return Some(encode_utf8(m));
        },
        None => {},
    }
    if number == 0x0D {
        return None;
    }
    if is_ascii_whitespace(number) {
        return Some(encode_utf8(number));
    }
    if is_control(number) {
        return None;
    }
    Some(encode_utf8(number))
}

/// A reference never consumes more bytes than follow the `&`.
pub proof fn lemma_match_entity_consumed(m: TableModel, rest: Seq<u8>)
    ensures
        spec_match_entity(m, rest).1 <= rest.len(),
{
    if rest.len() > 0 && rest[0] == NUMBER_SIGN {
        let after = rest.skip(1);
        if after.len() == 0 {
        } else if after[0] == LOWER_X || after[0] == UPPER_X {
            let digits_area = after.skip(1);
            lemma_run_len_bound(digits_area, |b: u8| is_hex_digit(b));
        } else {
            lemma_run_len_bound(after, |b: u8| is_dec_digit(b));
        }
    } else {
        lemma_run_len_bound(rest, |b: u8| is_alnum(b));
    }
}

/// Consume a numeric reference. `pos` indexes the `#` that follows the `&`;
/// the result is what the reference emits and how many bytes it consumed,
/// the `#` included.
#[verifier::rlimit(60)]
pub fn match_numeric_entity(s: &[u8], pos: usize) -> (res: (Vec<u8>, usize))
    requires
        pos < s@.len(),
        s@[pos as int] == NUMBER_SIGN,
    ensures
        ({
            let mr = spec_match_numeric(s@.skip(pos as int));
            res.0@ == mr.0 && res.1 as nat == mr.1 && pos + mr.1 <= s@.len()
        }),
{
    let slen: usize = s.len();
    let ghost rest = s@.skip(pos as int);
    let ghost after = rest.skip(1);
    proof {
        assert(after =~= s@.skip(pos + 1));
    }
    let mut lit: Vec<u8> = Vec::new();
    lit.push(AMPERSAND);
    lit.push(NUMBER_SIGN);
    if pos + 1 == slen {
        proof {
            assert(lit@ =~= seq![AMPERSAND, NUMBER_SIGN]);
        }
        return (lit, 1);
    }
    let b = s[pos + 1];
    proof {
        assert(after[0] == b);
    }
    let hex = b == LOWER_X || b == UPPER_X;
    let digits_from: usize = if hex {
        lit.push(b);
        pos + 2
    } else {
        pos + 1
    };
    let n = if hex {
        scan_hex(s, digits_from)
    } else {
        scan_dec(s, digits_from)
    };
    let ghost digits_area = s@.skip(digits_from as int);
    let ghost digits = digits_area.take(n as int);
    push_range(&mut lit, s, digits_from, digits_from + n);
    let after_digits: usize = digits_from + n;
    let semi = after_digits < slen && s[after_digits] == SEMICOLON;
    if semi {
        lit.push(SEMICOLON);
    }
    let consumed: usize = (after_digits - pos) + (if semi {
        1
    } else {
        0
    });
    let ghost tail = digits_area.skip(n as int);
    proof {
        assert(tail =~= s@.skip(after_digits as int));
        assert(tail.len() == s@.len() - after_digits);
        if tail.len() > 0 {
            assert(tail[0] == s@[after_digits as int]);
        }
        assert(digits =~= s@.subrange(digits_from as int, (digits_from + n) as int));
        if hex {
            assert(digits_area =~= after.skip(1));
            assert(lit@ =~= seq![AMPERSAND, NUMBER_SIGN, after[0]] + digits + (if semi {
                seq![SEMICOLON]
            } else {
                Seq::<u8>::empty()
            }));
        } else {
            assert(digits_area == after);
            assert(lit@ =~= seq![AMPERSAND, NUMBER_SIGN] + digits + (if semi {
                seq![SEMICOLON]
            } else {
                Seq::<u8>::empty()
            }));
        }
    }
    if n == 0 {
        return (lit, consumed);
    }
    proof {
        if hex {
            lemma_run_len_all(digits_area, |x: u8| is_hex_digit(x));
        } else {
            lemma_run_len_all(digits_area, |x: u8| is_dec_digit(x));
        }
        assert(forall|j: int|
            digits_from <= j < digits_from + n ==> #[trigger] s@[j] == digits_area[j
                - digits_from]);
    }
    let parsed = parse_digits(s, digits_from, n, hex);
    match parsed {
        None => (lit, consumed),
        Some(v) => {
            match correct_numeric_entity(v) {
                Some(e) => (e, consumed),
                None => (lit, consumed),
            }
        },
    }
}

/// Consume the reference at a `&`. `pos` indexes the byte just after the
/// `&`; the result is what the reference emits and how many further bytes it
/// consumed.
#[verifier::loop_isolation(false)]
pub fn match_entity(table: &EntityTable, s: &[u8], pos: usize) -> (res: (Vec<u8>, usize))
    requires
        pos <= s@.len(),
    ensures
        ({
            let mr = spec_match_entity(table@, s@.skip(pos as int));
            res.0@ == mr.0 && res.1 as nat == mr.1 && pos + mr.1 <= s@.len()
        }),
{
    let slen: usize = s.len();
    let ghost m = table@;
    let ghost rest = s@.skip(pos as int);
    if pos < slen && s[pos] == NUMBER_SIGN {
        proof {
            assert(rest[0] == NUMBER_SIGN);
        }
        return match_numeric_entity(s, pos);
    }
    proof {
        if rest.len() > 0 {
            assert(rest[0] == s@[pos as int]);
        }
    }
    let n = scan_alnum(s, pos);
    let semi = pos + n < slen && s[pos + n] == SEMICOLON;
    proof {
        assert(rest.len() > n <==> pos + n < s@.len());
        if pos + n < s@.len() {
            assert(rest[n as int] == s@[(pos + n) as int]);
        }
    }
    let clen: usize = n + (if semi {
        1
    } else {
        0
    });
    let mut cand: Vec<u8> = Vec::new();
    cand.push(AMPERSAND);
    push_range(&mut cand, s, pos, pos + clen);
    proof {
        assert(rest.take(clen as int) =~= s@.subrange(pos as int, (pos + clen) as int));
        assert(cand@ =~= seq![AMPERSAND] + rest.take(clen as int));
    }
    let minl = table.min_len();
    if cand.len() < minl {
        return (cand, clen);
    }
    let maxl = table.max_len();
    let top: usize = if cand.len() <= maxl {
        cand.len()
    } else {
        maxl
    };
    if top < minl {
        return (cand, clen);
    }
    let mut l: usize = top;
    loop
        invariant
            minl as nat == m.min_len,
            maxl as nat == m.max_len,
            m == table@,
            minl <= l <= top,
            top <= cand@.len(),
            find_longest(m, cand@, top as nat) == find_longest(m, cand@, l as nat),
        decreases l,
    {
        match table.lookup_prefix(&cand, l) {
            Some(exp) => {
                let mut out: Vec<u8> = Vec::new();
                push_vec(&mut out, exp);
                push_range(&mut out, cand.as_slice(), l, cand.len());
                proof {
                    assert(cand@.subrange(l as int, cand@.len() as int) =~= cand@.skip(l as int));
                    assert(find_longest(m, cand@, l as nat) == Some((l as nat, exp@)));
                }
                return (out, clen);
            },
            None => {
                if l == minl {
                    return (cand, clen);
                }
                l = l - 1;
            },
        }
    }
}

/// Decode every character reference in `escaped` against the given table,
/// copying all other bytes through unchanged.
pub fn unescape_with(table: &EntityTable, escaped: &[u8]) -> (r: Vec<u8>)
    ensures
        r@ == spec_unescape(table@, escaped@),
{
    let ghost m = table@;
    let mut out: Vec<u8> = Vec::new();
    let mut i: usize = 0;
    proof {
        assert(escaped@.skip(0) =~= escaped@);
        assert(Seq::<u8>::empty() + spec_unescape(m, escaped@) =~= spec_unescape(m, escaped@));
    }
    while i < escaped.len()
        invariant
            m == table@,
            i <= escaped@.len(),
            out@ + spec_unescape(m, escaped@.skip(i as int)) == spec_unescape(m, escaped@),
        decreases escaped@.len() - i,
    {
        let c = escaped[i];
        let ghost prev = out@;
        let ghost here = escaped@.skip(i as int);
        proof {
            assert(here[0] == c);
            assert(here.drop_first() =~= escaped@.skip(i + 1));
        }
        if c == AMPERSAND {
            let (mut exp, consumed) = match_entity(table, escaped, i + 1);
            proof {
                let mr = spec_match_entity(m, escaped@.skip(i + 1));
                lemma_match_entity_consumed(m, escaped@.skip(i + 1));
                assert(escaped@.skip(i + 1).skip(mr.1 as int) =~= escaped@.skip(
                    i + 1 + consumed,
                ));
            }
            out.append(&mut exp);
            proof {
                assert(out@ + spec_unescape(m, escaped@.skip(i + 1 + consumed)) =~= prev
                    + spec_unescape(m, here));
            }
            i = i + 1 + consumed;
        } else {
            out.push(c);
            proof {
                assert(out@ + spec_unescape(m, escaped@.skip(i + 1)) =~= prev + spec_unescape(
                    m,
                    here,
                ));
            }
            i = i + 1;
        }
    }
    proof {
        assert(escaped@.skip(escaped@.len() as int) =~= Seq::<u8>::empty());
        assert(out@ + Seq::<u8>::empty() =~= out@);
    }
    out
}

/// Decode every character reference in `escaped` against the table of named
/// references that this library ships.
pub fn unescape(escaped: &[u8]) -> (r: Vec<u8>)
    ensures
        r@ == spec_unescape(default_table_model(), escaped@),
{
    let table = default_table();
    unescape_with(&table, escaped)
}

} // verus!
