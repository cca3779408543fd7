//! The table of named character references.
//!
//! The decoder only queries the table; the table itself is an input. A table
//! maps a full spelling — the leading `&`, the name, and the trailing `;`
//! where the spelling has one — to its expansion as UTF-8 bytes, and carries
//! the two length bounds between which the matcher probes candidate prefixes.
//! [`default_table`] builds the table of spellings that this library ships;
//! callers with a larger data set can supply their own through
//! [`EntityTable::new`].

use crate::ascii::{all_alnum, is_alnum, lemma_all_alnum_from_index, AMPERSAND, SEMICOLON};
use vstd::prelude::*;
use vstd::slice::slice_to_vec;

verus! {

/// One named character reference: its full spelling (including the leading
/// `&` and, where the spelling has one, the trailing `;`) and its expansion
/// as UTF-8 bytes.
pub struct Entity {
    pub key: Vec<u8>,
    pub expansion: Vec<u8>,
}

/// The mathematical content of an entity table: the key/expansion pairs in
/// lookup order, and the bounds on spelling length between which the matcher
/// probes.
#[verifier::ext_equal]
pub ghost struct TableModel {
    pub entries: Seq<(Seq<u8>, Seq<u8>)>,
    pub min_len: nat,
    pub max_len: nat,
}

/// An immutable table of named character references: built once, only
/// queried afterwards.
pub struct EntityTable {
    entries: Vec<Entity>,
    min_len: usize,
    max_len: usize,
}

impl View for EntityTable {
    type V = TableModel;

    closed spec fn view(&self) -> TableModel {
        TableModel {
            entries: Seq::new(
                self.entries@.len(),
                |i: int| (self.entries@[i].key@, self.entries@[i].expansion@),
            ),
            min_len: self.min_len as nat,
            max_len: self.max_len as nat,
        }
    }
}

/// The expansion of the first entry whose key is exactly `k`, if any.
pub open spec fn spec_lookup(entries: Seq<(Seq<u8>, Seq<u8>)>, k: Seq<u8>) -> Option<Seq<u8>>
    decreases entries.len(),
{
    if entries.len() == 0 {
        None
    } else if entries[0].0 == k {
        Some(entries[0].1)
    } else {
        spec_lookup(entries.drop_first(), k)
    }
}

/// A well-shaped spelling: the leading `&`, then at least one letter or
/// digit, then letters and digits, optionally closed by one `;`, with the
/// whole length inside the table's bounds.
pub open spec fn entry_key_wf(min_len: nat, max_len: nat, k: Seq<u8>) -> bool {
    &&& min_len <= k.len() <= max_len
    &&& k.len() >= 2
    &&& k[0] == AMPERSAND
    &&& is_alnum(k[1])
    &&& (all_alnum(k.skip(1)) || (k.last() == SEMICOLON && all_alnum(
        k.subrange(1, k.len() - 1),
    )))
}

/// A well-formed table: sensible bounds, and every spelling well shaped.
pub open spec fn table_wf(m: TableModel) -> bool {
    &&& 2 <= m.min_len <= m.max_len
    &&& forall|i: int|
        0 <= i < m.entries.len() ==> entry_key_wf(m.min_len, m.max_len, #[trigger] m.entries[i].0)
}

/// A key that occurs in the table is found by [`spec_lookup`].
pub proof fn lemma_lookup_present(entries: Seq<(Seq<u8>, Seq<u8>)>, k: Seq<u8>)
    requires
        exists|i: int| 0 <= i < entries.len() && #[trigger] entries[i].0 == k,
    ensures
        spec_lookup(entries, k) is Some,
    decreases entries.len(),
{
    if entries[0].0 == k {
    } else {
        let i = choose|i: int| 0 <= i < entries.len() && #[trigger] entries[i].0 == k;
        assert(entries.drop_first()[i - 1].0 == k);
        lemma_lookup_present(entries.drop_first(), k);
    }
}

/// When `k` first occurs at position `i`, [`spec_lookup`] returns that
/// entry's expansion.
pub proof fn lemma_lookup_first_match(entries: Seq<(Seq<u8>, Seq<u8>)>, k: Seq<u8>, i: int)
    requires
        0 <= i < entries.len(),
        entries[i].0 == k,
        forall|j: int| 0 <= j < i ==> (#[trigger] entries[j].0) != k,
    ensures
        spec_lookup(entries, k) == Some(entries[i].1),
    decreases i,
{
    if i == 0 {
    } else {
        let t = entries.drop_first();
        assert(forall|j: int| 0 <= j < i - 1 ==> (#[trigger] t[j].0) == entries[j + 1].0);
        lemma_lookup_first_match(t, k, i - 1);
    }
}

impl EntityTable {
    /// Build a table from explicit entries and length bounds.
    pub fn new(entries: Vec<Entity>, min_len: usize, max_len: usize) -> (t: EntityTable)
        ensures
            t@.min_len == min_len as nat,
            t@.max_len == max_len as nat,
            t@.entries.len() == entries@.len(),
            forall|i: int|
                0 <= i < entries@.len() ==> #[trigger] t@.entries[i] == (
                    entries@[i].key@,
                    entries@[i].expansion@,
                ),
    {
        EntityTable { entries, min_len, max_len }
    }

    /// The shortest spelling length the matcher probes.
    pub fn min_len(&self) -> (n: usize)
        ensures
            n as nat == self@.min_len,
    {
        self.min_len
    }

    /// The longest spelling length the matcher probes.
    pub fn max_len(&self) -> (n: usize)
        ensures
            n as nat == self@.max_len,
    {
        self.max_len
    }

    /// Look up the first `len` bytes of `cand` as a spelling.
    pub fn lookup_prefix(&self, cand: &Vec<u8>, len: usize) -> (r: Option<&Vec<u8>>)
        requires
            len <= cand@.len(),
        ensures
            match r {
                Some(e) => spec_lookup(self@.entries, cand@.take(len as int)) == Some(e@),
                None => spec_lookup(self@.entries, cand@.take(len as int)) is None,
            },
    {
        let ghost k = cand@.take(len as int);
        let mut idx: usize = 0;
        proof {
            assert(self@.entries.skip(0) =~= self@.entries);
        }
        while idx < self.entries.len()
            invariant
                idx <= self.entries@.len(),
                len <= cand@.len(),
                k == cand@.take(len as int),
                self@.entries.len() == self.entries@.len(),
                spec_lookup(self@.entries, k) == spec_lookup(self@.entries.skip(idx as int), k),
            decreases self.entries@.len() - idx,
        {
            let e = &self.entries[idx];
            let ghost tail = self@.entries.skip(idx as int);
            proof {
                assert(tail[0] == self@.entries[idx as int]);
            }
            if key_matches(&e.key, cand, len) {
                return Some(&e.expansion);
            }
            proof {
                assert(tail.drop_first() =~= self@.entries.skip(idx + 1));
            }
            idx = idx + 1;
        }
        proof {
            assert(self@.entries.skip(idx as int).len() == 0);
        }
        None
    }
}

/// Whether `key` equals the first `len` bytes of `cand`.
fn key_matches(key: &Vec<u8>, cand: &Vec<u8>, len: usize) -> (r: bool)
    requires
        len <= cand@.len(),
    ensures
        r == (key@ == cand@.take(len as int)),
{
    if key.len() != len {
        assert(cand@.take(len as int).len() == len);
        return false;
    }
    let mut j: usize = 0;
    while j < len
        invariant
            j <= len,
            len <= cand@.len(),
            key@.len() == len,
            forall|l: int| 0 <= l < j ==> key@[l] == cand@[l],
        decreases len - j,
    {
        if key[j] != cand[j] {
            assert(cand@.take(len as int)[j as int] == cand@[j as int]);
            return false;
        }
        j = j + 1;
    }
    proof {
        assert(key@ =~= cand@.take(len as int));
    }
    true
}

/// The key/expansion pairs of the built-in table, in lookup order.
pub open spec fn default_entries() -> Seq<(Seq<u8>, Seq<u8>)> {
    seq![
        (seq![0x26u8, 0x61, 0x6D, 0x70, 0x3B], seq![0x26u8]),  // &amp;
        (seq![0x26u8, 0x6C, 0x74, 0x3B], seq![0x3Cu8]),  // &lt;
        (seq![0x26u8, 0x67, 0x74, 0x3B], seq![0x3Eu8]),  // &gt;
        (seq![0x26u8, 0x71, 0x75, 0x6F, 0x74, 0x3B], seq![0x22u8]),  // &quot;
        (seq![0x26u8, 0x61, 0x70, 0x6F, 0x73, 0x3B], seq![0x27u8]),  // &apos;
        (seq![0x26u8, 0x61, 0x6D, 0x70], seq![0x26u8]),  // &amp
        (seq![0x26u8, 0x41, 0x4D, 0x50, 0x3B], seq![0x26u8]),  // &AMP;
        (seq![0x26u8, 0x41, 0x4D, 0x50], seq![0x26u8]),  // &AMP
        (seq![0x26u8, 0x6C, 0x74], seq![0x3Cu8]),  // &lt
        (seq![0x26u8, 0x4C, 0x54, 0x3B], seq![0x3Cu8]),  // &LT;
        (seq![0x26u8, 0x4C, 0x54], seq![0x3Cu8]),  // &LT
        (seq![0x26u8, 0x67, 0x74], seq![0x3Eu8]),  // &gt
        (seq![0x26u8, 0x47, 0x54, 0x3B], seq![0x3Eu8]),  // &GT;
        (seq![0x26u8, 0x47, 0x54], seq![0x3Eu8]),  // &GT
        (seq![0x26u8, 0x71, 0x75, 0x6F, 0x74], seq![0x22u8]),  // &quot
        (seq![0x26u8, 0x51, 0x55, 0x4F, 0x54, 0x3B], seq![0x22u8]),  // &QUOT;
        (seq![0x26u8, 0x51, 0x55, 0x4F, 0x54], seq![0x22u8]),  // &QUOT
        (seq![0x26u8, 0x74, 0x69, 0x6D, 0x65, 0x73, 0x3B], seq![0xC3u8, 0x97]),  // &times;
        (seq![0x26u8, 0x74, 0x69, 0x6D, 0x65, 0x73], seq![0xC3u8, 0x97]),  // &times
        (seq![0x26u8, 0x74, 0x69, 0x6D, 0x65, 0x73, 0x62, 0x3B], seq![0xE2u8, 0x8A, 0xA0]),  // &timesb;
        (seq![0x26u8, 0x74, 0x69, 0x6D, 0x65, 0x73, 0x62], seq![0xE2u8, 0x8A, 0xA0]),  // &timesb
        (seq![0x26u8, 0x74, 0x69, 0x6D, 0x65, 0x73, 0x62, 0x61, 0x72, 0x3B], seq![0xE2u8, 0xA8, 0xB1]),  // &timesbar;
        (seq![0x26u8, 0x74, 0x69, 0x6D, 0x65, 0x73, 0x64, 0x3B], seq![0xE2u8, 0xA8, 0xB0]),  // &timesd;
        (seq![0x26u8, 0x62, 0x75, 0x6C, 0x6C, 0x3B], seq![0xE2u8, 0x80, 0xA2]),  // &bull;
        (seq![0x26u8, 0x63, 0x6F, 0x70, 0x79, 0x3B], seq![0xC2u8, 0xA9]),  // &copy;
        (seq![0x26u8, 0x63, 0x6F, 0x70, 0x79], seq![0xC2u8, 0xA9]),  // &copy
        (seq![0x26u8, 0x6E, 0x62, 0x73, 0x70, 0x3B], seq![0xC2u8, 0xA0]),  // &nbsp;
        (seq![0x26u8, 0x6E, 0x62, 0x73, 0x70], seq![0xC2u8, 0xA0]),  // &nbsp
        (seq![0x26u8, 0x68, 0x65, 0x6C, 0x6C, 0x69, 0x70, 0x3B], seq![0xE2u8, 0x80, 0xA6]),  // &hellip;
        (seq![0x26u8, 0x6D, 0x64, 0x61, 0x73, 0x68, 0x3B], seq![0xE2u8, 0x80, 0x94]),  // &mdash;
        (seq![0x26u8, 0x6E, 0x64, 0x61, 0x73, 0x68, 0x3B], seq![0xE2u8, 0x80, 0x93]),  // &ndash;
        (seq![0x26u8, 0x74, 0x72, 0x61, 0x64, 0x65, 0x3B], seq![0xE2u8, 0x84, 0xA2]),  // &trade;
    ]
}

/// The model of the built-in table.
pub open spec fn default_table_model() -> TableModel {
    TableModel { entries: default_entries(), min_len: 3, max_len: 10 }
}

/// Build the table of named references that this library ships: the
/// spellings behind the escaping variants in both their cased forms, with
/// and without the trailing `;` where both spellings exist, and a handful of
/// common typographic references.
pub fn default_table() -> (t: EntityTable)
    ensures
        t@ == default_table_model(),
{
    let mut entries: Vec<Entity> = Vec::new();
    push_entry(&mut entries, [0x26u8, 0x61, 0x6D, 0x70, 0x3B].as_slice(), [0x26u8].as_slice());  // &amp;
    push_entry(&mut entries, [0x26u8, 0x6C, 0x74, 0x3B].as_slice(), [0x3Cu8].as_slice());  // &lt;
    push_entry(&mut entries, [0x26u8, 0x67, 0x74, 0x3B].as_slice(), [0x3Eu8].as_slice());  // &gt;
    push_entry(
        &mut entries,
        [0x26u8, 0x71, 0x75, 0x6F, 0x74, 0x3B].as_slice(),
        [0x22u8].as_slice(),
    );  // &quot;
    push_entry(
        &mut entries,
        [0x26u8, 0x61, 0x70, 0x6F, 0x73, 0x3B].as_slice(),
        [0x27u8].as_slice(),
    );  // &apos;
    push_entry(&mut entries, [0x26u8, 0x61, 0x6D, 0x70].as_slice(), [0x26u8].as_slice());  // &amp
    push_entry(&mut entries, [0x26u8, 0x41, 0x4D, 0x50, 0x3B].as_slice(), [0x26u8].as_slice());  // &AMP;
    push_entry(&mut entries, [0x26u8, 0x41, 0x4D, 0x50].as_slice(), [0x26u8].as_slice());  // &AMP
    push_entry(&mut entries, [0x26u8, 0x6C, 0x74].as_slice(), [0x3Cu8].as_slice());  // &lt
    push_entry(&mut entries, [0x26u8, 0x4C, 0x54, 0x3B].as_slice(), [0x3Cu8].as_slice());  // &LT;
    push_entry(&mut entries, [0x26u8, 0x4C, 0x54].as_slice(), [0x3Cu8].as_slice());  // &LT
    push_entry(&mut entries, [0x26u8, 0x67, 0x74].as_slice(), [0x3Eu8].as_slice());  // &gt
    push_entry(&mut entries, [0x26u8, 0x47, 0x54, 0x3B].as_slice(), [0x3Eu8].as_slice());  // &GT;
    push_entry(&mut entries, [0x26u8, 0x47, 0x54].as_slice(), [0x3Eu8].as_slice());  // &GT
    push_entry(&mut entries, [0x26u8, 0x71, 0x75, 0x6F, 0x74].as_slice(), [0x22u8].as_slice());  // &quot
    push_entry(
        &mut entries,
        [0x26u8, 0x51, 0x55, 0x4F, 0x54, 0x3B].as_slice(),
        [0x22u8].as_slice(),
    );  // &QUOT;
    push_entry(&mut entries, [0x26u8, 0x51, 0x55, 0x4F, 0x54].as_slice(), [0x22u8].as_slice());  // &QUOT
    push_entry(
        &mut entries,
        [0x26u8, 0x74, 0x69, 0x6D, 0x65, 0x73, 0x3B].as_slice(),
        [0xC3u8, 0x97].as_slice(),
    );  // &times;
    push_entry(
        &mut entries,
        [0x26u8, 0x74, 0x69, 0x6D, 0x65, 0x73].as_slice(),
        [0xC3u8, 0x97].as_slice(),
    );  // &times
    push_entry(
        &mut entries,
        [0x26u8, 0x74, 0x69, 0x6D, 0x65, 0x73, 0x62, 0x3B].as_slice(),
        [0xE2u8, 0x8A, 0xA0].as_slice(),
    );  // &timesb;
    push_entry(
        &mut entries,
        [0x26u8, 0x74, 0x69, 0x6D, 0x65, 0x73, 0x62].as_slice(),
        [0xE2u8, 0x8A, 0xA0].as_slice(),
    );  // &timesb
    push_entry(
        &mut entries,
        [0x26u8, 0x74, 0x69, 0x6D, 0x65, 0x73, 0x62, 0x61, 0x72, 0x3B].as_slice(),
        [0xE2u8, 0xA8, 0xB1].as_slice(),
    );  // &timesbar;
    push_entry(
        &mut entries,
        [0x26u8, 0x74, 0x69, 0x6D, 0x65, 0x73, 0x64, 0x3B].as_slice(),
        [0xE2u8, 0xA8, 0xB0].as_slice(),
    );  // &timesd;
    push_entry(
        &mut entries,
        [0x26u8, 0x62, 0x75, 0x6C, 0x6C, 0x3B].as_slice(),
        [0xE2u8, 0x80, 0xA2].as_slice(),
    );  // &bull;
    push_entry(
        &mut entries,
        [0x26u8, 0x63, 0x6F, 0x70, 0x79, 0x3B].as_slice(),
        [0xC2u8, 0xA9].as_slice(),
    );  // &copy;
    push_entry(
        &mut entries,
        [0x26u8, 0x63, 0x6F, 0x70, 0x79].as_slice(),
        [0xC2u8, 0xA9].as_slice(),
    );  // &copy
    push_entry(
        &mut entries,
        [0x26u8, 0x6E, 0x62, 0x73, 0x70, 0x3B].as_slice(),
        [0xC2u8, 0xA0].as_slice(),
    );  // &nbsp;
    push_entry(
        &mut entries,
        [0x26u8, 0x6E, 0x62, 0x73, 0x70].as_slice(),
        [0xC2u8, 0xA0].as_slice(),
    );  // &nbsp
    push_entry(
        &mut entries,
        [0x26u8, 0x68, 0x65, 0x6C, 0x6C, 0x69, 0x70, 0x3B].as_slice(),
        [0xE2u8, 0x80, 0xA6].as_slice(),
    );  // &hellip;
    push_entry(
        &mut entries,
        [0x26u8, 0x6D, 0x64, 0x61, 0x73, 0x68, 0x3B].as_slice(),
        [0xE2u8, 0x80, 0x94].as_slice(),
    );  // &mdash;
    push_entry(
        &mut entries,
        [0x26u8, 0x6E, 0x64, 0x61, 0x73, 0x68, 0x3B].as_slice(),
        [0xE2u8, 0x80, 0x93].as_slice(),
    );  // &ndash;
    push_entry(
        &mut entries,
        [0x26u8, 0x74, 0x72, 0x61, 0x64, 0x65, 0x3B].as_slice(),
        [0xE2u8, 0x84, 0xA2].as_slice(),
    );  // &trade;
    let t = EntityTable { entries, min_len: 3, max_len: 10 };
    proof {
        assert(t@.entries =~~= default_entries());
        assert(t@ =~~= default_table_model());
    }
    t
}

/// A spelling of the expected shape, between the built-in length bounds, is
/// well formed.
proof fn lemma_default_key_wf(k: Seq<u8>)
    requires
        3 <= k.len() <= 10,
        k[0] == AMPERSAND,
        forall|j: int| 1 <= j < k.len() - 1 ==> is_alnum(#[trigger] k[j]),
        is_alnum(k[k.len() - 1]) || k[k.len() - 1] == SEMICOLON,
    ensures
        entry_key_wf(3, 10, k),
{
    if is_alnum(k[k.len() - 1]) {
        let t = k.skip(1);
        assert(forall|j: int| 0 <= j < t.len() ==> #[trigger] t[j] == k[j + 1]);
        lemma_all_alnum_from_index(t);
    } else {
        let t = k.subrange(1, k.len() - 1);
        assert(forall|j: int| 0 <= j < t.len() ==> #[trigger] t[j] == k[j + 1]);
        lemma_all_alnum_from_index(t);
    }
}

/// The built-in table is well formed.
pub proof fn lemma_default_table_wf()
    ensures
        table_wf(default_table_model()),
{
    let m = default_table_model();
    assert forall|i: int|
        0 <= i < m.entries.len() implies entry_key_wf(
        m.min_len,
        m.max_len,
        #[trigger] m.entries[i].0,
    ) by {
        if i == 0 {
            lemma_default_key_wf(m.entries[0].0);  // &amp;
        } else if i == 1 {
            lemma_default_key_wf(m.entries[1].0);  // &lt;
        } else if i == 2 {
            lemma_default_key_wf(m.entries[2].0);  // &gt;
        } else if i == 3 {
            lemma_default_key_wf(m.entries[3].0);  // &quot;
        } else if i == 4 {
            lemma_default_key_wf(m.entries[4].0);  // &apos;
        } else if i == 5 {
            lemma_default_key_wf(m.entries[5].0);  // &amp
        } else if i == 6 {
            lemma_default_key_wf(m.entries[6].0);  // &AMP;
        } else if i == 7 {
            lemma_default_key_wf(m.entries[7].0);  // &AMP
        } else if i == 8 {
            lemma_default_key_wf(m.entries[8].0);  // &lt
        } else if i == 9 {
            lemma_default_key_wf(m.entries[9].0);  // &LT;
        } else if i == 10 {
            lemma_default_key_wf(m.entries[10].0);  // &LT
        } else if i == 11 {
            lemma_default_key_wf(m.entries[11].0);  // &gt
        } else if i == 12 {
            lemma_default_key_wf(m.entries[12].0);  // &GT;
        } else if i == 13 {
            lemma_default_key_wf(m.entries[13].0);  // &GT
        } else if i == 14 {
            lemma_default_key_wf(m.entries[14].0);  // &quot
        } else if i == 15 {
            lemma_default_key_wf(m.entries[15].0);  // &QUOT;
        } else if i == 16 {
            lemma_default_key_wf(m.entries[16].0);  // &QUOT
        } else if i == 17 {
            lemma_default_key_wf(m.entries[17].0);  // &times;
        } else if i == 18 {
            lemma_default_key_wf(m.entries[18].0);  // &times
        } else if i == 19 {
            lemma_default_key_wf(m.entries[19].0);  // &timesb;
        } else if i == 20 {
            lemma_default_key_wf(m.entries[20].0);  // &timesb
        } else if i == 21 {
            lemma_default_key_wf(m.entries[21].0);  // &timesbar;
        } else if i == 22 {
            lemma_default_key_wf(m.entries[22].0);  // &timesd;
        } else if i == 23 {
            lemma_default_key_wf(m.entries[23].0);  // &bull;
        } else if i == 24 {
            lemma_default_key_wf(m.entries[24].0);  // &copy;
        } else if i == 25 {
            lemma_default_key_wf(m.entries[25].0);  // &copy
        } else if i == 26 {
            lemma_default_key_wf(m.entries[26].0);  // &nbsp;
        } else if i == 27 {
            lemma_default_key_wf(m.entries[27].0);  // &nbsp
        } else if i == 28 {
            lemma_default_key_wf(m.entries[28].0);  // &hellip;
        } else if i == 29 {
            lemma_default_key_wf(m.entries[29].0);  // &mdash;
        } else if i == 30 {
            lemma_default_key_wf(m.entries[30].0);  // &ndash;
        } else if i == 31 {
            lemma_default_key_wf(m.entries[31].0);  // &trade;
        }
    }
}

/// Append one entry, given as borrowed byte slices.

fn push_entry(entries: &mut Vec<Entity>, key: &[u8], expansion: &[u8])
    ensures
        final (entries)@.len() == old(entries)@.len() + 1,
        forall|i: int|
            0 <= i < old(entries)@.len() ==> final (entries)@[i] == old(entries)@[i],
        final (entries)@[old(entries)@.len() as int].key@ == key@,
        final (entries)@[old(entries)@.len() as int].expansion@ == expansion@,
{
    let e = Entity { key: slice_to_vec(key), expansion: slice_to_vec(expansion) };
    entries.push(e);
}

} // verus!
