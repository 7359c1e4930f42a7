use vstd::prelude::*;

use vstd::utf8::{decode_utf8, valid_utf8};

use crate::record::{read_field, stored_field, DATA_ENTRY_SIZE, FIELD_COUNT};
use crate::text::{chars_of, distinct_words, lemma_distinct_phrases, phrases, phrases_of, split_words, utf8_text, words};
use crate::trie::Trie;

verus! {

/// Why an index could not be built.
#[derive(Debug, PartialEq, Eq, Structural)]
pub enum BuildError {
    /// The arena would outgrow 32-bit node positions.
    Full,
    /// A field's bytes are not valid UTF-8.
    InvalidText,
    /// The record store does not hold a whole number of records.
    Truncated,
}

/// How many times `s` occurs in `ps`.
pub open spec fn occurrences(ps: Seq<Seq<char>>, s: Seq<char>) -> nat
    decreases ps.len(),
{
    if ps.len() == 0 {
        0
    } else {
        occurrences(ps.drop_last(), s) + if ps.last() == s { 1nat } else { 0nat }
    }
}

/// The number of characters of all of `ps`.
pub open spec fn total_chars(ps: Seq<Seq<char>>) -> nat
    decreases ps.len(),
{
    if ps.len() == 0 {
        0
    } else {
        total_chars(ps.drop_last()) + ps.last().len()
    }
}

/// The phrases under which a field's text is indexed.
pub open spec fn text_phrases(text: Seq<char>) -> Seq<Seq<char>> {
    phrases(words(text))
}

/// Whether `s` is a prefix of one of `ps`.
pub open spec fn prefixes_one(ps: Seq<Seq<char>>, s: Seq<char>) -> bool {
    exists|i: int| 0 <= i < ps.len() && s.is_prefix_of(#[trigger] ps[i])
}

/// `n` copies of `id`.
pub open spec fn copies(id: u32, n: nat) -> Seq<u32> {
    Seq::new(n, |i: int| id)
}

impl Trie {
    /// Stores `val` under every phrase of `text` (every run of consecutive
    /// whitespace-separated words, joined by single spaces), once per
    /// occurrence. Fails with `Full`, changing nothing, when the arena could
    /// outgrow 32-bit node positions.
    pub fn index_text(&mut self, text: &str, val: u32) -> (r: Result<(), BuildError>)
        requires
            old(self).wf(),
        ensures
            final(self).wf(),
            r is Ok <==> old(self).node_seq().len() + total_chars(text_phrases(text@)) <= u32::MAX,
            r is Err ==> r == Err::<(), BuildError>(BuildError::Full) && *final(self) == *old(self),
            r is Ok ==> final(self).node_seq().len() <= old(self).node_seq().len() + total_chars(text_phrases(text@)),
            r is Ok ==> forall|s: Seq<char>| #[trigger] final(self).values_at(s)
                == old(self).values_at(s) + copies(val, occurrences(text_phrases(text@), s)),
            r is Ok ==> forall|s: Seq<char>| #[trigger] final(self).has_path(s) <==> (old(self).has_path(s)
                || prefixes_one(text_phrases(text@), s)),
    {
        let chars = chars_of(text);
        let ws = split_words(&chars);
        assert(ws@.map_values(|w: Vec<char>| w@) =~= words(text@));
        let ps = phrases_of(&ws);
        let ghost pv = text_phrases(text@);
        assert(ps@.map_values(|p: Vec<char>| p@) =~= pv);
        let n = self.nodes.nodes.len() as u64;
        let mut total: u64 = 0;
        let mut i: usize = 0;
        while i < ps.len()
            invariant
                pv == ps@.map_values(|p: Vec<char>| p@),
                pv == text_phrases(text@),
                0 <= i <= ps@.len(),
                total == total_chars(pv.subrange(0, i as int)),
                n + total <= u32::MAX,
                n == old(self).node_seq().len(),
                *self == *old(self),
                self.wf(),
            decreases ps@.len() - i,
        {
            assert(pv.subrange(0, i + 1).drop_last() =~= pv.subrange(0, i as int));
            assert(pv.subrange(0, i + 1).last() == ps@[i as int]@);
            assert(total_chars(pv.subrange(0, i + 1)) == total + ps@[i as int]@.len());
            let len = ps[i].len() as u64;
            assert(len == ps@[i as int]@.len());
            if len > u32::MAX as u64 - n - total {
                proof {
                    lemma_total_chars_prefix(pv, i + 1);
                    assert(n + total_chars(pv) > u32::MAX);
                }
                return Err(BuildError::Full);
            }
            total = total + len;
            i = i + 1;
        }
        assert(pv.subrange(0, ps@.len() as int) =~= pv);
        let ghost start = *self;
        let mut i: usize = 0;
        assert(pv.subrange(0, 0) =~= Seq::<Seq<char>>::empty());
        assert forall|s: Seq<char>| #[trigger] self.values_at(s) == start.values_at(s) + copies(val, 0) by {
            assert(start.values_at(s) + copies(val, 0) =~= start.values_at(s));
        }
        assert forall|s: Seq<char>| #[trigger] self.has_path(s) <==> (start.has_path(s) || prefixes_one(
            pv.subrange(0, 0),
            s,
        )) by {}
        while i < ps.len()
            invariant
                pv == ps@.map_values(|p: Vec<char>| p@),
                0 <= i <= ps@.len(),
                self.wf(),
                start.wf(),
                start == *old(self),
                n == start.node_seq().len(),
                n + total_chars(pv) <= u32::MAX,
                self.node_seq().len() <= n + total_chars(pv.subrange(0, i as int)),
                forall|s: Seq<char>| #[trigger] self.values_at(s) == start.values_at(s) + copies(
                    val,
                    occurrences(pv.subrange(0, i as int), s),
                ),
                forall|s: Seq<char>| #[trigger] self.has_path(s) <==> (start.has_path(s) || prefixes_one(
                    pv.subrange(0, i as int),
                    s,
                )),
            decreases ps@.len() - i,
        {
            let ghost part = pv.subrange(0, i + 1);
            assert(part.drop_last() =~= pv.subrange(0, i as int));
            assert(part.last() == ps@[i as int]@);
            proof {
                lemma_total_chars_prefix(pv, i + 1);
            }
            let ghost before = *self;
            self.add_chars(&ps[i], val);
            assert forall|s: Seq<char>| #[trigger] self.values_at(s) == start.values_at(s) + copies(
                val,
                occurrences(part, s),
            ) by {
                let k = occurrences(pv.subrange(0, i as int), s);
                if s == ps@[i as int]@ {
                    assert(copies(val, k + 1) =~= copies(val, k).push(val));
                    assert(start.values_at(s) + copies(val, k + 1) =~= (start.values_at(s) + copies(val, k)).push(val));
                } else {
                    assert(before.values_at(s) == start.values_at(s) + copies(val, k));
                }
            }
            assert forall|s: Seq<char>| #[trigger] self.has_path(s) <==> (start.has_path(s) || prefixes_one(part, s)) by {
                let prev = pv.subrange(0, i as int);
                assert(before.has_path(s) <==> (start.has_path(s) || prefixes_one(prev, s)));
                if prefixes_one(part, s) {
                    let j = choose|j: int| 0 <= j < part.len() && s.is_prefix_of(#[trigger] part[j]);
                    if j < i {
                        assert(prev[j] == part[j]);
                    }
                }
                if prefixes_one(prev, s) {
                    let j = choose|j: int| 0 <= j < prev.len() && s.is_prefix_of(#[trigger] prev[j]);
                    assert(part[j] == prev[j]);
                }
                if s.is_prefix_of(ps@[i as int]@) {
                    assert(part[i as int] == ps@[i as int]@);
                }
            }
            i = i + 1;
        }
        assert(pv.subrange(0, ps@.len() as int) =~= pv);
        Ok(())
    }

    /// Indexes field `field` of the stored record `entry` under the
    /// identifier `id`; see `index_text`.
    pub fn index_record(&mut self, entry: &[u8], field: usize, id: u32) -> (r: Result<(), BuildError>)
        requires
            old(self).wf(),
            field < FIELD_COUNT,
            entry@.len() == DATA_ENTRY_SIZE,
        ensures
            final(self).wf(),
            !valid_utf8(stored_field(entry@, field as int)) ==> r == Err::<(), BuildError>(BuildError::InvalidText)
                && *final(self) == *old(self),
            valid_utf8(stored_field(entry@, field as int)) ==> {
                let text = decode_utf8(stored_field(entry@, field as int));
                &&& (r is Ok <==> old(self).node_seq().len() + total_chars(text_phrases(text)) <= u32::MAX)
                &&& (r is Err ==> r == Err::<(), BuildError>(BuildError::Full) && *final(self) == *old(self))
                &&& (r is Ok ==> final(self).node_seq().len() <= old(self).node_seq().len() + total_chars(text_phrases(text)))
                &&& (r is Ok ==> forall|s: Seq<char>| #[trigger] final(self).values_at(s)
                    == old(self).values_at(s) + copies(id, occurrences(text_phrases(text), s)))
                &&& (r is Ok ==> forall|s: Seq<char>| #[trigger] final(self).has_path(s) <==> (old(self).has_path(s)
                    || prefixes_one(text_phrases(text), s)))
            },
    {
        let bytes = read_field(entry, field);
        match utf8_text(bytes.as_slice()) {
            None => Err(BuildError::InvalidText),
            Some(text) => self.index_text(text.as_str(), id),
        }
    }
}

/// Whether `store` holds a whole number of records.
pub open spec fn is_whole(store: Seq<u8>) -> bool {
    store.len() as int % DATA_ENTRY_SIZE as int == 0
}

/// The number of whole records in `store`.
pub open spec fn record_count(store: Seq<u8>) -> int {
    store.len() as int / DATA_ENTRY_SIZE as int
}

/// The `r`-th record (from 0) of the record store `store`.
pub open spec fn store_entry(store: Seq<u8>, r: int) -> Seq<u8> {
    store.subrange(r * DATA_ENTRY_SIZE, (r + 1) * DATA_ENTRY_SIZE)
}

/// Whether field `field` of each of the first `n` records is valid text.
pub open spec fn all_valid(store: Seq<u8>, field: int, n: int) -> bool {
    forall|r: int| 0 <= r < n ==> valid_utf8(#[trigger] stored_field(store_entry(store, r), field))
}

/// The text of field `field` of the `r`-th record.
pub open spec fn record_text(store: Seq<u8>, field: int, r: int) -> Seq<char> {
    decode_utf8(stored_field(store_entry(store, r), field))
}

/// The number of characters of the phrases of the first `n` records.
pub open spec fn store_chars(store: Seq<u8>, field: int, n: int) -> nat
    decreases n,
{
    if n <= 0 {
        0
    } else {
        store_chars(store, field, n - 1) + total_chars(text_phrases(record_text(store, field, n - 1)))
    }
}

/// Whether `s` is a prefix of a phrase of field `field` of one of the
/// first `n` records.
pub open spec fn store_prefix(store: Seq<u8>, field: int, s: Seq<char>, n: int) -> bool
    decreases n,
{
    if n <= 0 {
        false
    } else {
        store_prefix(store, field, s, n - 1) || prefixes_one(text_phrases(record_text(store, field, n - 1)), s)
    }
}

/// What an index of field `field` over the first `n` records stores under
/// `s`: the identifier `r + 1` of each record `r` in order, once per
/// occurrence of `s` among the record's phrases.
pub open spec fn store_values(store: Seq<u8>, field: int, s: Seq<char>, n: int) -> Seq<u32>
    decreases n,
{
    if n <= 0 {
        Seq::empty()
    } else {
        store_values(store, field, s, n - 1) + copies(n as u32, occurrences(text_phrases(record_text(store, field, n - 1)), s))
    }
}

impl Trie {
    /// Builds the index of field `field` over the record store `store`: the
    /// phrases of that field of each record are stored under the record's
    /// identifier (its 1-based position).
    pub fn new_from_database(store: &[u8], field: usize) -> (r: Result<Trie, BuildError>)
        requires
            field < FIELD_COUNT,
        ensures
            !is_whole(store@) ==> r == Err::<Trie, BuildError>(BuildError::Truncated),
            r matches Ok(t) ==> {
                &&& t.wf()
                &&& all_valid(store@, field as int, record_count(store@))
                &&& is_whole(store@)
                &&& forall|s: Seq<char>| #[trigger] t.values_at(s)
                    == store_values(store@, field as int, s, record_count(store@))
                &&& forall|s: Seq<char>| #[trigger] t.has_path(s) <==> (s.len() == 0 || store_prefix(
                    store@,
                    field as int,
                    s,
                    record_count(store@),
                ))
            },
            r == Err::<Trie, BuildError>(BuildError::InvalidText) ==> !all_valid(
                store@,
                field as int,
                record_count(store@),
            ),
            ({
                let n = record_count(store@);
                is_whole(store@) && all_valid(store@, field as int, n) && n < u32::MAX
                    && 1 + store_chars(store@, field as int, n) <= u32::MAX
            }) ==> r is Ok,
    {
        let size = DATA_ENTRY_SIZE;
        if store.len() % size != 0 {
            return Err(BuildError::Truncated);
        }
        let total = store.len();
        let count = total / size;
        if count >= u32::MAX as usize {
            return Err(BuildError::Full);
        }
        let ghost n = count as int;
        let mut trie = Trie::new();
        let mut rec: usize = 0;
        assert forall|s: Seq<char>| #[trigger] trie.values_at(s) == store_values(store@, field as int, s, 0) by {}
        assert forall|s: Seq<char>| #[trigger] trie.has_path(s) <==> (s.len() == 0 || store_prefix(store@, field as int, s, 0)) by {}
        while rec < count
            invariant
                field < FIELD_COUNT,
                size == DATA_ENTRY_SIZE,
                count == record_count(store@),
                is_whole(store@),
                count < u32::MAX,
                n == count,
                total == store@.len(),
                0 <= rec <= count,
                trie.wf(),
                trie.node_seq().len() <= 1 + store_chars(store@, field as int, rec as int),
                all_valid(store@, field as int, rec as int),
                forall|s: Seq<char>| #[trigger] trie.values_at(s) == store_values(store@, field as int, s, rec as int),
                forall|s: Seq<char>| #[trigger] trie.has_path(s) <==> (s.len() == 0 || store_prefix(
                    store@,
                    field as int,
                    s,
                    rec as int,
                )),
            decreases count - rec,
        {
            assert(count * size <= store@.len()) by (nonlinear_arith)
                requires
                    count == store@.len() as int / size as int,
                    size > 0,
            ;
            assert(rec * size + size <= store@.len()) by (nonlinear_arith)
                requires
                    rec < count,
                    count * size <= store@.len(),
                    size > 0,
            ;
            assert(rec * size + size == (rec + 1) * size) by (nonlinear_arith);
            let start = rec * size;
            let entry = &store[start..start + size];
            assert(entry@ == store_entry(store@, rec as int));
            let ghost before = trie;
            match trie.index_record(entry, field, (rec + 1) as u32) {
                Err(e) => {
                    proof {
                        if e == BuildError::InvalidText {
                            assert(!valid_utf8(stored_field(store_entry(store@, rec as int), field as int)));
                        } else {
                            lemma_store_chars_monotone(store@, field as int, rec + 1, n);
                        }
                    }
                    return Err(e);
                },
                Ok(()) => {},
            }
            assert forall|s: Seq<char>| #[trigger] trie.values_at(s) == store_values(store@, field as int, s, rec + 1) by {
                assert(before.values_at(s) == store_values(store@, field as int, s, rec as int));
            }
            assert forall|s: Seq<char>| #[trigger] trie.has_path(s) <==> (s.len() == 0 || store_prefix(
                store@,
                field as int,
                s,
                rec + 1,
            )) by {
                assert(before.has_path(s) <==> (s.len() == 0 || store_prefix(store@, field as int, s, rec as int)));
            }
            assert forall|r: int| 0 <= r < rec + 1 implies valid_utf8(#[trigger] stored_field(store_entry(store@, r), field as int)) by {
                if r < rec {
                    assert(all_valid(store@, field as int, rec as int));
                }
            }
            rec = rec + 1;
        }
        Ok(trie)
    }
}

/// The phrase characters of more records are no fewer.
pub proof fn lemma_store_chars_monotone(store: Seq<u8>, field: int, a: int, b: int)
    requires
        0 <= a <= b,
    ensures
        store_chars(store, field, a) <= store_chars(store, field, b),
    decreases b - a,
{
    if a < b {
        lemma_store_chars_monotone(store, field, a, b - 1);
    }
}

/// A prefix of a list of phrases has no more characters than the list.
pub proof fn lemma_total_chars_prefix(ps: Seq<Seq<char>>, i: int)
    requires
        0 <= i <= ps.len(),
    ensures
        total_chars(ps.subrange(0, i)) <= total_chars(ps),
    decreases ps.len() - i,
{
    if i < ps.len() {
        lemma_total_chars_prefix(ps, i + 1);
        assert(ps.subrange(0, i + 1).drop_last() =~= ps.subrange(0, i));
    } else {
        assert(ps.subrange(0, i) =~= ps);
    }
}

/// In a list without repeats a string occurs once or not at all.
proof fn lemma_occurrences_distinct(ps: Seq<Seq<char>>, s: Seq<char>)
    requires
        ps.no_duplicates(),
    ensures
        occurrences(ps, s) == if ps.contains(s) { 1nat } else { 0nat },
    decreases ps.len(),
{
    if ps.len() > 0 {
        let q = ps.drop_last();
        assert(q.no_duplicates()) by {
            assert forall|i: int, j: int| 0 <= i < q.len() && 0 <= j < q.len() && i != j implies q[i] != q[j] by {
                assert(q[i] == ps[i] && q[j] == ps[j]);
            }
        }
        lemma_occurrences_distinct(q, s);
        if q.contains(s) {
            let i = choose|i: int| 0 <= i < q.len() && q[i] == s;
            assert(ps[i] == s);
            assert(ps[ps.len() - 1] != ps[i]);
        }
        if ps.contains(s) && !q.contains(s) {
            let i = choose|i: int| 0 <= i < ps.len() && ps[i] == s;
            if i < ps.len() - 1 {
                assert(q[i] == s);
            }
        }
        if q.contains(s) {
            let i = choose|i: int| 0 <= i < q.len() && q[i] == s;
            assert(ps[i] == s);
        }
        if ps.last() == s {
            assert(ps[ps.len() - 1] == s);
        }
    }
}

/// Indexing a text whose `k` words all differ under `id` (the relation
/// `index_text` states between `before` and `after`) stores `id` once under
/// each of the `k * (k + 1) / 2` phrases, which are all different, and
/// under no other string.
pub proof fn lemma_indexed_once_per_phrase(before: Trie, after: Trie, text: Seq<char>, id: u32)
    requires
        distinct_words(words(text)),
        forall|s: Seq<char>| #[trigger] after.values_at(s) == before.values_at(s) + copies(
            id,
            occurrences(text_phrases(text), s),
        ),
    ensures
        text_phrases(text).len() == words(text).len() * (words(text).len() + 1) / 2,
        text_phrases(text).no_duplicates(),
        forall|s: Seq<char>| #[trigger] after.values_at(s) == if text_phrases(text).contains(s) {
            before.values_at(s).push(id)
        } else {
            before.values_at(s)
        },
{
    let ps = text_phrases(text);
    lemma_phrases_no_duplicates(text);
    assert forall|s: Seq<char>| #[trigger] after.values_at(s) == if ps.contains(s) {
        before.values_at(s).push(id)
    } else {
        before.values_at(s)
    } by {
        lemma_occurrences_distinct(ps, s);
        if ps.contains(s) {
            assert(copies(id, 1) =~= seq![id]);
            assert(before.values_at(s) + seq![id] =~= before.values_at(s).push(id));
        } else {
            assert(before.values_at(s) + copies(id, 0) =~= before.values_at(s));
        }
    }
}

/// The phrases of a text whose words all differ are all different.
pub proof fn lemma_phrases_no_duplicates(text: Seq<char>)
    requires
        distinct_words(words(text)),
    ensures
        text_phrases(text).len() == words(text).len() * (words(text).len() + 1) / 2,
        text_phrases(text).no_duplicates(),
{
    let ps = text_phrases(text);
    lemma_distinct_phrases(text);
    assert forall|i: int, j: int| 0 <= i < ps.len() && 0 <= j < ps.len() && i != j implies ps[i] != ps[j] by {
        if i < j {
            assert(ps[i] != ps[j]);
        } else {
            assert(ps[j] != ps[i]);
        }
    }
}

proof fn lemma_copies_count(id: u32, k: nat, x: u32)
    ensures
        copies(id, k).to_multiset().count(x) == if x == id { k } else { 0 },
    decreases k,
{
    let c = copies(id, k);
    if k == 0 {
        c.to_multiset_ensures();
        assert(!c.contains(x));
    } else {
        lemma_copies_count(id, (k - 1) as nat, x);
        assert(c =~= copies(id, (k - 1) as nat).push(id));
        copies(id, (k - 1) as nat).to_multiset_ensures();
    }
}

proof fn lemma_store_count(store: Seq<u8>, field: int, s: Seq<char>, m: int, x: u32)
    requires
        0 <= m < u32::MAX,
    ensures
        store_values(store, field, s, m).to_multiset().count(x) == if 1 <= x <= m {
            occurrences(text_phrases(record_text(store, field, x - 1)), s)
        } else {
            0
        },
    decreases m,
{
    if m > 0 {
        lemma_store_count(store, field, s, m - 1, x);
        let a = store_values(store, field, s, m - 1);
        let b = copies(m as u32, occurrences(text_phrases(record_text(store, field, m - 1)), s));
        vstd::seq_lib::lemma_multiset_commutative(a, b);
        lemma_copies_count(m as u32, occurrences(text_phrases(record_text(store, field, m - 1)), s), x);
    } else {
        let e = store_values(store, field, s, m);
        e.to_multiset_ensures();
        assert(!e.contains(x));
    }
}

/// In an index built from a record store, the identifier `r + 1` of record
/// `r` sits under each string as often as that string occurs among the
/// record's phrases. For a record whose `k` words all differ that is once
/// under each of its `k * (k + 1) / 2` phrases, and under no other string.
pub proof fn lemma_record_once_per_phrase(store: Seq<u8>, field: int, t: Trie, r: int, s: Seq<char>)
    requires
        record_count(store) < u32::MAX,
        0 <= r < record_count(store),
        forall|q: Seq<char>| #[trigger] t.values_at(q) == store_values(store, field, q, record_count(store)),
    ensures
        t.values_at(s).to_multiset().count((r + 1) as u32) == occurrences(text_phrases(record_text(store, field, r)), s),
        distinct_words(words(record_text(store, field, r))) ==> {
            &&& text_phrases(record_text(store, field, r)).len() == words(record_text(store, field, r)).len() * (words(
                record_text(store, field, r),
            ).len() + 1) / 2
            &&& text_phrases(record_text(store, field, r)).no_duplicates()
            &&& t.values_at(s).to_multiset().count((r + 1) as u32) == if text_phrases(record_text(store, field, r)).contains(
                s,
            ) {
                1nat
            } else {
                0nat
            }
        },
{
    lemma_store_count(store, field, s, record_count(store), (r + 1) as u32);
    let text = record_text(store, field, r);
    if distinct_words(words(text)) {
        lemma_phrases_no_duplicates(text);
        lemma_occurrences_distinct(text_phrases(text), s);
    }
}

} // verus!
