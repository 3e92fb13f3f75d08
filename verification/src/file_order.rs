use vstd::prelude::*;
use crate::toml_model::TomlValue;
use crate::translations::{
    lookup, has_pair, no_duplicate_pairs, first_duplicate, lemma_first_duplicate_none, explicit_rows,
    all_keys, file_rows, file_keys, table_rows, doc_rows, entry_rows, lang_rows,
};
use crate::laws::{
    lemma_lookup_row, lemma_lookup_unique, law_table_holds_file_texts_and_base_entries, file_gives,
    lemma_doc_rows_contains,
};

verus! {

/// How many elements of `s` satisfy `p`.
pub open spec fn count<A>(s: Seq<A>, p: spec_fn(A) -> bool) -> nat
    decreases s.len(),
{
    if s.len() == 0 {
        0
    } else {
        count(s.drop_last(), p) + if p(s.last()) { 1nat } else { 0nat }
    }
}

/// The sum of `f` over the elements of `s`.
pub open spec fn sum<A>(s: Seq<A>, f: spec_fn(A) -> nat) -> nat
    decreases s.len(),
{
    if s.len() == 0 {
        0
    } else {
        sum(s.drop_last(), f) + f(s.last())
    }
}

/// A row holds a text for message `key` in `lang`.
pub open spec fn pair_is(key: Seq<char>, lang: Seq<char>) -> spec_fn((Seq<char>, Seq<char>, Seq<char>)) -> bool {
    |r: (Seq<char>, Seq<char>, Seq<char>)| r.0 == key && r.1 == lang
}

/// How many rows hold a text for message `key` in `lang`.
pub open spec fn pair_count(rows: Seq<(Seq<char>, Seq<char>, Seq<char>)>, key: Seq<char>, lang: Seq<char>) -> nat {
    count(rows, pair_is(key, lang))
}

proof fn lemma_count_concat<A>(a: Seq<A>, b: Seq<A>, p: spec_fn(A) -> bool)
    ensures
        count(a + b, p) == count(a, p) + count(b, p),
    decreases b.len(),
{
    if b.len() == 0 {
        assert(a + b =~= a);
    } else {
        assert((a + b).drop_last() =~= a + b.drop_last());
        assert((a + b).last() == b.last());
        lemma_count_concat(a, b.drop_last(), p);
    }
}

proof fn lemma_count_positive<A>(s: Seq<A>, p: spec_fn(A) -> bool)
    ensures
        count(s, p) > 0 <==> exists|i: int| 0 <= i < s.len() && #[trigger] p(s[i]),
    decreases s.len(),
{
    if s.len() > 0 {
        lemma_count_positive(s.drop_last(), p);
        if exists|i: int| 0 <= i < s.len() && #[trigger] p(s[i]) {
            let i = choose|i: int| 0 <= i < s.len() && #[trigger] p(s[i]);
            if i < s.len() - 1 {
                assert(s.drop_last()[i] == s[i]);
            }
        }
        if exists|i: int| 0 <= i < s.drop_last().len() && #[trigger] p(s.drop_last()[i]) {
            let i = choose|i: int| 0 <= i < s.drop_last().len() && #[trigger] p(s.drop_last()[i]);
            assert(s[i] == s.drop_last()[i]);
        }
    }
}

proof fn lemma_sum_concat<A>(a: Seq<A>, b: Seq<A>, f: spec_fn(A) -> nat)
    ensures
        sum(a + b, f) == sum(a, f) + sum(b, f),
    decreases b.len(),
{
    if b.len() == 0 {
        assert(a + b =~= a);
    } else {
        assert((a + b).drop_last() =~= a + b.drop_last());
        assert((a + b).last() == b.last());
        lemma_sum_concat(a, b.drop_last(), f);
    }
}

proof fn lemma_sum_remove<A>(s: Seq<A>, j: int, f: spec_fn(A) -> nat)
    requires
        0 <= j < s.len(),
    ensures
        sum(s, f) == sum(s.remove(j), f) + f(s[j]),
{
    let a = s.take(j);
    let b = s.skip(j + 1);
    assert(s =~= a + seq![s[j]] + b);
    assert(s.remove(j) =~= a + b);
    lemma_sum_concat(a + seq![s[j]], b, f);
    lemma_sum_concat(a, seq![s[j]], f);
    lemma_sum_concat(a, b, f);
    let one = seq![s[j]];
    assert(one.drop_last() =~= Seq::<A>::empty());
    assert(sum(one.drop_last(), f) == 0);
    assert(one.last() == s[j]);
    assert(sum(one, f) == f(s[j]));
}

/// A sum over a sequence is the same over any reordering of it.
proof fn lemma_sum_reordered<A>(s1: Seq<A>, s2: Seq<A>, f: spec_fn(A) -> nat)
    requires
        s1.to_multiset() == s2.to_multiset(),
    ensures
        sum(s1, f) == sum(s2, f),
    decreases s1.len(),
{
    broadcast use vstd::seq_lib::group_to_multiset_ensures, vstd::multiset::group_multiset_axioms;
    if s1.len() == 0 {
        assert(s2.to_multiset().len() == 0);
        assert(s2.len() == 0);
    } else {
        let x = s1.last();
        let p1 = s1.drop_last();
        assert(s1 =~= p1.push(x));
        vstd::seq_lib::to_multiset_build(p1, x);
        assert(p1.to_multiset() =~= s1.to_multiset().remove(x));
        assert(s2.to_multiset().contains(x));
        assert(s2.contains(x));
        let j = choose|j: int| 0 <= j < s2.len() && s2[j] == x;
        vstd::seq_lib::to_multiset_remove(s2, j);
        lemma_sum_reordered(p1, s2.remove(j), f);
        lemma_sum_remove(s2, j, f);
    }
}

/// A count over the rows of all files is the sum of the counts over each file.
proof fn lemma_explicit_count(docs: Seq<Option<TomlValue>>, p: spec_fn((Seq<char>, Seq<char>, Seq<char>)) -> bool)
    ensures
        count(explicit_rows(docs), p) == sum(docs, |d: Option<TomlValue>| count(file_rows(d), p)),
    decreases docs.len(),
{
    if docs.len() > 0 {
        lemma_explicit_count(docs.drop_last(), p);
        lemma_count_concat(explicit_rows(docs.drop_last()), file_rows(docs.last()), p);
    }
}

/// A count over the messages of all files is the sum of the counts over each file.
proof fn lemma_keys_count(docs: Seq<Option<TomlValue>>, p: spec_fn(Seq<char>) -> bool)
    ensures
        count(all_keys(docs), p) == sum(docs, |d: Option<TomlValue>| count(file_keys(d), p)),
    decreases docs.len(),
{
    if docs.len() > 0 {
        lemma_keys_count(docs.drop_last(), p);
        lemma_count_concat(all_keys(docs.drop_last()), file_keys(docs.last()), p);
    }
}

/// No pair repeats exactly when each pair has at most one row.
proof fn lemma_no_duplicates_count(rows: Seq<(Seq<char>, Seq<char>, Seq<char>)>)
    ensures
        no_duplicate_pairs(rows) <==> forall|k: Seq<char>, l: Seq<char>| #[trigger] pair_count(rows, k, l) <= 1,
    decreases rows.len(),
{
    lemma_first_duplicate_none(rows);
    if rows.len() > 0 {
        let p = rows.drop_last();
        let x = rows.last();
        lemma_no_duplicates_count(p);
        lemma_first_duplicate_none(p);
        let px = pair_is(x.0, x.1);
        lemma_count_positive(p, px);
        if has_pair(p, x.0, x.1) {
            let i = choose|i: int| 0 <= i < p.len() && #[trigger] p[i].0 == x.0 && p[i].1 == x.1;
            assert(px(p[i]));
        }
        if exists|i: int| 0 <= i < p.len() && #[trigger] px(p[i]) {
            let i = choose|i: int| 0 <= i < p.len() && #[trigger] px(p[i]);
            assert(p[i].0 == x.0 && p[i].1 == x.1);
        }
        assert(has_pair(p, x.0, x.1) <==> count(p, px) > 0);
        if no_duplicate_pairs(rows) {
            assert forall|k: Seq<char>, l: Seq<char>| #[trigger] pair_count(rows, k, l) <= 1 by {
                assert(pair_count(rows, k, l) == pair_count(p, k, l)
                    + if x.0 == k && x.1 == l { 1nat } else { 0nat });
                if x.0 == k && x.1 == l {
                    assert(pair_count(p, k, l) == count(p, px));
                }
            }
        }
        if forall|k: Seq<char>, l: Seq<char>| #[trigger] pair_count(rows, k, l) <= 1 {
            assert forall|k: Seq<char>, l: Seq<char>| #[trigger] pair_count(p, k, l) <= 1 by {
                assert(pair_count(rows, k, l) == pair_count(p, k, l)
                    + if x.0 == k && x.1 == l { 1nat } else { 0nat });
            }
            assert(pair_count(rows, x.0, x.1) == pair_count(p, x.0, x.1) + 1);
            assert(pair_count(p, x.0, x.1) == count(p, px));
        }
    }
}

/// Without repeated pairs, the rows hold text `v` for a pair exactly when
/// `lookup` finds it.
proof fn lemma_lookup_count(rows: Seq<(Seq<char>, Seq<char>, Seq<char>)>, key: Seq<char>, lang: Seq<char>, v: Seq<char>)
    requires
        no_duplicate_pairs(rows),
    ensures
        lookup(rows, key, lang) == Some(v) <==>
            count(rows, |r: (Seq<char>, Seq<char>, Seq<char>)| r == (key, lang, v)) > 0,
{
    let q = |r: (Seq<char>, Seq<char>, Seq<char>)| r == (key, lang, v);
    lemma_count_positive(rows, q);
    lemma_lookup_row(rows, key, lang);
    if count(rows, q) > 0 {
        let m = choose|m: int| 0 <= m < rows.len() && #[trigger] q(rows[m]);
        lemma_lookup_unique(rows, m);
    }
    if lookup(rows, key, lang) == Some(v) {
        let m = choose|m: int| 0 <= m < rows.len() && #[trigger] rows[m] == (key, lang, v);
        assert(q(rows[m]));
    }
}

/// Reordering the files keeps the pair counts of their rows.
proof fn lemma_reordered_counts(
    docs1: Seq<Option<TomlValue>>,
    docs2: Seq<Option<TomlValue>>,
    p: spec_fn((Seq<char>, Seq<char>, Seq<char>)) -> bool,
)
    requires
        docs1.to_multiset() == docs2.to_multiset(),
    ensures
        count(explicit_rows(docs1), p) == count(explicit_rows(docs2), p),
{
    lemma_explicit_count(docs1, p);
    lemma_explicit_count(docs2, p);
    lemma_sum_reordered(docs1, docs2, |d: Option<TomlValue>| count(file_rows(d), p));
}

/// Reordering the files keeps which messages they name.
proof fn lemma_reordered_keys(docs1: Seq<Option<TomlValue>>, docs2: Seq<Option<TomlValue>>, key: Seq<char>)
    requires
        docs1.to_multiset() == docs2.to_multiset(),
    ensures
        all_keys(docs1).contains(key) <==> all_keys(docs2).contains(key),
{
    let p = |k: Seq<char>| k == key;
    lemma_keys_count(docs1, p);
    lemma_keys_count(docs2, p);
    lemma_sum_reordered(docs1, docs2, |d: Option<TomlValue>| count(file_keys(d), p));
    lemma_count_positive(all_keys(docs1), p);
    lemma_count_positive(all_keys(docs2), p);
    let k1 = all_keys(docs1);
    let k2 = all_keys(docs2);
    if k1.contains(key) {
        let i = choose|i: int| 0 <= i < k1.len() && k1[i] == key;
        assert(p(k1[i]));
    }
    if k2.contains(key) {
        let i = choose|i: int| 0 <= i < k2.len() && k2[i] == key;
        assert(p(k2[i]));
    }
    if count(k1, p) > 0 {
        let i = choose|i: int| 0 <= i < k1.len() && #[trigger] p(k1[i]);
        assert(k1[i] == key);
    }
    if count(k2, p) > 0 {
        let i = choose|i: int| 0 <= i < k2.len() && #[trigger] p(k2[i]);
        assert(k2[i] == key);
    }
}

/// The order of the translation files changes neither whether a pair is
/// written out twice (so whether the table is refused) nor, when it is not,
/// what the table holds for any message and language.
pub proof fn law_file_order_does_not_matter(
    docs1: Seq<Option<TomlValue>>,
    docs2: Seq<Option<TomlValue>>,
    base: Seq<char>,
)
    requires
        docs1.to_multiset() == docs2.to_multiset(),
    ensures
        no_duplicate_pairs(explicit_rows(docs1)) <==> no_duplicate_pairs(explicit_rows(docs2)),
        no_duplicate_pairs(explicit_rows(docs1)) ==> forall|key: Seq<char>, lang: Seq<char>|
            #[trigger] lookup(table_rows(docs1, base), key, lang) == lookup(table_rows(docs2, base), key, lang),
{
    let e1 = explicit_rows(docs1);
    let e2 = explicit_rows(docs2);
    lemma_no_duplicates_count(e1);
    lemma_no_duplicates_count(e2);
    assert forall|k: Seq<char>, l: Seq<char>| #[trigger] pair_count(e1, k, l) == pair_count(e2, k, l) by {
        lemma_reordered_counts(docs1, docs2, pair_is(k, l));
    }
    if no_duplicate_pairs(e1) {
        assert forall|k: Seq<char>, l: Seq<char>| #[trigger] pair_count(e2, k, l) <= 1 by {
            assert(pair_count(e1, k, l) <= 1);
            assert(pair_count(e1, k, l) == pair_count(e2, k, l));
        }
    }
    if no_duplicate_pairs(e2) {
        assert forall|k: Seq<char>, l: Seq<char>| #[trigger] pair_count(e1, k, l) <= 1 by {
            assert(pair_count(e2, k, l) <= 1);
            assert(pair_count(e1, k, l) == pair_count(e2, k, l));
        }
    }
    if no_duplicate_pairs(e1) {
        assert forall|key: Seq<char>, lang: Seq<char>|
            #[trigger] lookup(table_rows(docs1, base), key, lang) == lookup(table_rows(docs2, base), key, lang) by {
            law_table_holds_file_texts_and_base_entries(docs1, base, key, lang);
            law_table_holds_file_texts_and_base_entries(docs2, base, key, lang);
            lemma_reordered_keys(docs1, docs2, key);
            if let Some(v) = lookup(e1, key, lang) {
                lemma_lookup_count(e1, key, lang, v);
                lemma_lookup_count(e2, key, lang, v);
                lemma_reordered_counts(docs1, docs2, |r: (Seq<char>, Seq<char>, Seq<char>)| r == (key, lang, v));
            }
            if let Some(w) = lookup(e2, key, lang) {
                lemma_lookup_count(e1, key, lang, w);
                lemma_lookup_count(e2, key, lang, w);
                lemma_reordered_counts(docs1, docs2, |r: (Seq<char>, Seq<char>, Seq<char>)| r == (key, lang, w));
            }
        }
    }
}

/// A sum is positive exactly when some term is.
proof fn lemma_sum_positive<A>(s: Seq<A>, f: spec_fn(A) -> nat)
    ensures
        sum(s, f) > 0 <==> exists|i: int| 0 <= i < s.len() && #[trigger] f(s[i]) > 0,
    decreases s.len(),
{
    if s.len() > 0 {
        let p = s.drop_last();
        lemma_sum_positive(p, f);
        if exists|i: int| 0 <= i < s.len() && #[trigger] f(s[i]) > 0 {
            let i = choose|i: int| 0 <= i < s.len() && #[trigger] f(s[i]) > 0;
            if i < p.len() {
                assert(p[i] == s[i]);
            }
        }
        if exists|i: int| 0 <= i < p.len() && #[trigger] f(p[i]) > 0 {
            let i = choose|i: int| 0 <= i < p.len() && #[trigger] f(p[i]) > 0;
            assert(s[i] == p[i]);
        }
    }
}

/// A sum of terms that are each at most one is at most one exactly when no
/// two terms are positive.
proof fn lemma_sum_at_most_one<A>(s: Seq<A>, f: spec_fn(A) -> nat)
    requires
        forall|i: int| 0 <= i < s.len() ==> #[trigger] f(s[i]) <= 1,
    ensures
        sum(s, f) <= 1 <==> !(exists|a: int, b: int| 0 <= a < b < s.len() && #[trigger] f(s[a]) > 0 && #[trigger] f(s[b]) > 0),
    decreases s.len(),
{
    if s.len() > 0 {
        let p = s.drop_last();
        let n = p.len() as int;
        assert forall|i: int| 0 <= i < p.len() implies #[trigger] f(p[i]) <= 1 by {
            assert(p[i] == s[i]);
        }
        lemma_sum_at_most_one(p, f);
        lemma_sum_positive(p, f);
        assert(s[n] == s.last());
        if exists|a: int, b: int| 0 <= a < b < s.len() && #[trigger] f(s[a]) > 0 && #[trigger] f(s[b]) > 0 {
            let (a, b) = choose|a: int, b: int| 0 <= a < b < s.len() && #[trigger] f(s[a]) > 0 && #[trigger] f(s[b]) > 0;
            assert(p[a] == s[a]);
            if b < n {
                assert(p[b] == s[b]);
            }
        }
        if exists|a: int, b: int| 0 <= a < b < p.len() && #[trigger] f(p[a]) > 0 && #[trigger] f(p[b]) > 0 {
            let (a, b) = choose|a: int, b: int| 0 <= a < b < p.len() && #[trigger] f(p[a]) > 0 && #[trigger] f(p[b]) > 0;
            assert(s[a] == p[a] && s[b] == p[b]);
        }
        if sum(p, f) > 0 && f(s.last()) > 0 {
            let a = choose|a: int| 0 <= a < p.len() && #[trigger] f(p[a]) > 0;
            assert(s[a] == p[a]);
            assert(f(s[a]) > 0 && f(s[n]) > 0);
        }
    }
}

/// 1 for a language of message `key` that gives `k` a text in `l`, else 0.
pub open spec fn lang_hits(key: Seq<char>, k: Seq<char>, l: Seq<char>) -> spec_fn((String, TomlValue)) -> nat {
    |x: (String, TomlValue)| if key == k && x.0@ == l && x.1 is Str { 1nat } else { 0nat }
}

/// How many texts for `k` in `l` a message gives.
pub open spec fn entry_hits(k: Seq<char>, l: Seq<char>) -> spec_fn((String, TomlValue)) -> nat {
    |e: (String, TomlValue)| pair_count(entry_rows(e.0@, e.1), k, l)
}

/// How many texts for `k` in `l` a translation file gives.
pub open spec fn file_hits(k: Seq<char>, l: Seq<char>) -> spec_fn(Option<TomlValue>) -> nat {
    |d: Option<TomlValue>| pair_count(file_rows(d), k, l)
}

/// The rows of a message's language table that hold a text for `k` in
/// `l`, counted language by language.
proof fn lemma_lang_rows_count(key: Seq<char>, langs: Seq<(String, TomlValue)>, k: Seq<char>, l: Seq<char>)
    ensures
        pair_count(lang_rows(key, langs), k, l) == sum(langs, lang_hits(key, k, l)),
    decreases langs.len(),
{
    let pk = pair_is(k, l);
    if langs.len() > 0 {
        let p = langs.drop_last();
        lemma_lang_rows_count(key, p, k, l);
        let tail = match langs.last().1 {
            TomlValue::Str(t) => seq![(key, langs.last().0@, t@)],
            _ => Seq::empty(),
        };
        assert(lang_rows(key, langs) == lang_rows(key, p) + tail);
        lemma_count_concat(lang_rows(key, p), tail, pk);
        if tail.len() > 0 {
            assert(tail.drop_last() =~= Seq::<(Seq<char>, Seq<char>, Seq<char>)>::empty());
            assert(tail.last() == tail[0]);
            assert(tail.drop_last().len() == 0);
            assert(count(tail.drop_last(), pk) == 0);
            assert(count(tail, pk) == if pk(tail[0]) { 1nat } else { 0nat });
        } else {
            assert(count(tail, pk) == 0);
        }
        assert(count(tail, pk) == lang_hits(key, k, l)(langs.last()));
        assert(sum(langs, lang_hits(key, k, l)) == sum(p, lang_hits(key, k, l)) + lang_hits(key, k, l)(langs.last()));
    }
}

/// The rows of a document that hold a text for `k` in `l`, counted message
/// by message.
proof fn lemma_doc_rows_count(entries: Seq<(String, TomlValue)>, k: Seq<char>, l: Seq<char>)
    ensures
        pair_count(doc_rows(entries), k, l) == sum(entries, entry_hits(k, l)),
    decreases entries.len(),
{
    if entries.len() > 0 {
        let p = entries.drop_last();
        lemma_doc_rows_count(p, k, l);
        lemma_count_concat(doc_rows(p), entry_rows(entries.last().0@, entries.last().1), pair_is(k, l));
    }
}

/// The fields of a table are named once each.
pub open spec fn names_once(entries: Seq<(String, TomlValue)>) -> bool {
    forall|a: int, b: int| 0 <= a < b < entries.len() ==> #[trigger] entries[a].0@ != #[trigger] entries[b].0@
}

/// A value that is a table names each of its fields once.
pub open spec fn table_names_once(value: TomlValue) -> bool {
    match value {
        TomlValue::Table(fields) => names_once(fields@),
        _ => true,
    }
}

/// A translation file names each message once, and each message's table
/// names each language once, as a TOML document does.
pub open spec fn file_keyed_once(doc: Option<TomlValue>) -> bool {
    match doc {
        Some(TomlValue::Table(entries)) => names_once(entries@)
            && forall|a: int| 0 <= a < entries@.len() ==> table_names_once(#[trigger] entries@[a].1),
        _ => true,
    }
}

/// A translation file gives message `key` some text in `lang`.
pub open spec fn file_has(doc: Option<TomlValue>, key: Seq<char>, lang: Seq<char>) -> bool {
    exists|v: Seq<char>| #[trigger] file_gives(doc, key, lang, v)
}

/// One message's value holds at most one text for `k` in `l`, and none
/// unless the message is `k`.
proof fn lemma_entry_count(key: Seq<char>, value: TomlValue, k: Seq<char>, l: Seq<char>)
    requires
        table_names_once(value),
    ensures
        pair_count(entry_rows(key, value), k, l) <= 1,
        key != k ==> pair_count(entry_rows(key, value), k, l) == 0,
{
    if let TomlValue::Table(fields) = value {
        let fs = fields@;
        let g = lang_hits(key, k, l);
        lemma_lang_rows_count(key, fs, k, l);
        assert forall|i: int| 0 <= i < fs.len() implies #[trigger] g(fs[i]) <= 1 by {}
        lemma_sum_at_most_one(fs, g);
        assert forall|a: int, b: int| 0 <= a < b < fs.len() implies !(#[trigger] g(fs[a]) > 0 && #[trigger] g(fs[b]) > 0) by {
            assert(fs[a].0@ != fs[b].0@);
        }
        lemma_sum_positive(fs, g);
    } else {
        assert(entry_rows(key, value).len() == 0);
    }
}

/// A file that names each message and language once holds at most one text
/// for `k` in `l`, and one exactly when it gives one.
proof fn lemma_file_count(doc: Option<TomlValue>, k: Seq<char>, l: Seq<char>)
    requires
        file_keyed_once(doc),
    ensures
        pair_count(file_rows(doc), k, l) <= 1,
        pair_count(file_rows(doc), k, l) > 0 <==> file_has(doc, k, l),
{
    let pk = pair_is(k, l);
    let rows = file_rows(doc);
    if let Some(TomlValue::Table(entries)) = doc {
        let es = entries@;
        let h = entry_hits(k, l);
        lemma_doc_rows_count(es, k, l);
        assert forall|i: int| 0 <= i < es.len() implies #[trigger] h(es[i]) <= 1 by {
            assert(table_names_once(es[i].1));
            lemma_entry_count(es[i].0@, es[i].1, k, l);
        }
        lemma_sum_at_most_one(es, h);
        assert forall|a: int, b: int| 0 <= a < b < es.len() implies !(#[trigger] h(es[a]) > 0 && #[trigger] h(es[b]) > 0) by {
            assert(table_names_once(es[a].1) && table_names_once(es[b].1));
            lemma_entry_count(es[a].0@, es[a].1, k, l);
            lemma_entry_count(es[b].0@, es[b].1, k, l);
            assert(es[a].0@ != es[b].0@);
        }
        lemma_count_positive(rows, pk);
        if count(rows, pk) > 0 {
            let i = choose|i: int| 0 <= i < rows.len() && #[trigger] pk(rows[i]);
            let v = rows[i].2;
            assert(rows[i] == (k, l, v));
            assert(rows.contains((k, l, v)));
            lemma_doc_rows_contains(es, k, l, v);
            assert(file_gives(doc, k, l, v));
        }
        if file_has(doc, k, l) {
            let v = choose|v: Seq<char>| #[trigger] file_gives(doc, k, l, v);
            lemma_doc_rows_contains(es, k, l, v);
            let i = choose|i: int| 0 <= i < rows.len() && rows[i] == (k, l, v);
            assert(pk(rows[i]));
        }
    } else {
        assert(rows.len() == 0);
        assert(!file_has(doc, k, l));
    }
}

/// When each translation file names each message, and each message each
/// language, once (as a TOML document does), the files write out some pair
/// twice, and so the table is refused, exactly when two different files
/// give the same message a text in the same language.
pub proof fn law_duplicates_are_across_files(docs: Seq<Option<TomlValue>>)
    requires
        forall|f: int| 0 <= f < docs.len() ==> file_keyed_once(#[trigger] docs[f]),
    ensures
        !no_duplicate_pairs(explicit_rows(docs)) <==> exists|f: int, g: int, key: Seq<char>, lang: Seq<char>|
            0 <= f < g < docs.len() && #[trigger] file_has(docs[f], key, lang) && #[trigger] file_has(docs[g], key, lang),
{
    let e = explicit_rows(docs);
    lemma_no_duplicates_count(e);
    assert forall|k: Seq<char>, l: Seq<char>| #[trigger] pair_count(e, k, l) <= 1 <==>
        !(exists|f: int, g: int| 0 <= f < g < docs.len() && #[trigger] file_has(docs[f], k, l) && #[trigger] file_has(docs[g], k, l)) by {
        let pk = pair_is(k, l);
        let c = file_hits(k, l);
        lemma_explicit_count(docs, pk);
        assert(pair_count(e, k, l) == sum(docs, c)) by {
            assert(c =~= |d: Option<TomlValue>| count(file_rows(d), pk));
        }
        assert forall|i: int| 0 <= i < docs.len() implies #[trigger] c(docs[i]) <= 1 by {
            lemma_file_count(docs[i], k, l);
        }
        lemma_sum_at_most_one(docs, c);
        assert forall|f: int, g: int| 0 <= f < g < docs.len() implies
            (#[trigger] c(docs[f]) > 0 && #[trigger] c(docs[g]) > 0 <==> file_has(docs[f], k, l) && file_has(docs[g], k, l)) by {
            lemma_file_count(docs[f], k, l);
            lemma_file_count(docs[g], k, l);
        }
        if exists|f: int, g: int| 0 <= f < g < docs.len() && #[trigger] file_has(docs[f], k, l) && #[trigger] file_has(docs[g], k, l) {
            let (f, g) = choose|f: int, g: int| 0 <= f < g < docs.len() && #[trigger] file_has(docs[f], k, l) && #[trigger] file_has(docs[g], k, l);
            lemma_file_count(docs[f], k, l);
            lemma_file_count(docs[g], k, l);
            assert(c(docs[f]) > 0 && c(docs[g]) > 0);
        }
        if exists|f: int, g: int| 0 <= f < g < docs.len() && #[trigger] c(docs[f]) > 0 && #[trigger] c(docs[g]) > 0 {
            let (f, g) = choose|f: int, g: int| 0 <= f < g < docs.len() && #[trigger] c(docs[f]) > 0 && #[trigger] c(docs[g]) > 0;
            assert(file_has(docs[f], k, l) && file_has(docs[g], k, l));
        }
    }
    if !no_duplicate_pairs(e) {
        let (k, l) = choose|k: Seq<char>, l: Seq<char>| !(#[trigger] pair_count(e, k, l) <= 1);
        let (f, g) = choose|f: int, g: int| 0 <= f < g < docs.len() && #[trigger] file_has(docs[f], k, l) && #[trigger] file_has(docs[g], k, l);
        assert(file_has(docs[f], k, l) && file_has(docs[g], k, l));
    }
    if exists|f: int, g: int, key: Seq<char>, lang: Seq<char>|
        0 <= f < g < docs.len() && #[trigger] file_has(docs[f], key, lang) && #[trigger] file_has(docs[g], key, lang) {
        let (f, g, k, l) = choose|f: int, g: int, key: Seq<char>, lang: Seq<char>|
            0 <= f < g < docs.len() && #[trigger] file_has(docs[f], key, lang) && #[trigger] file_has(docs[g], key, lang);
        assert(!(pair_count(e, k, l) <= 1));
    }
}

} // verus!
