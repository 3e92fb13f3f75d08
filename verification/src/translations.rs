use vstd::prelude::*;
use crate::toml_model::{TomlValue, str_eq};

verus! {

/// The text of a message in one language.
pub struct Translation {
    pub key: String,
    pub lang: String,
    pub text: String,
}

impl View for Translation {
    type V = (Seq<char>, Seq<char>, Seq<char>);

    open spec fn view(&self) -> (Seq<char>, Seq<char>, Seq<char>) {
        (self.key@, self.lang@, self.text@)
    }
}

/// A second text for a message in a language that already has one.
pub struct DuplicateTranslation {
    pub key: String,
    pub lang: String,
}

/// Some row of `rows` holds a text for `key` in `lang`.
pub open spec fn has_pair(rows: Seq<(Seq<char>, Seq<char>, Seq<char>)>, key: Seq<char>, lang: Seq<char>) -> bool {
    exists|i: int| 0 <= i < rows.len() && #[trigger] rows[i].0 == key && rows[i].1 == lang
}

/// No two rows hold a text for the same message in the same language.
pub open spec fn no_duplicate_pairs(rows: Seq<(Seq<char>, Seq<char>, Seq<char>)>) -> bool {
    forall|i: int, j: int|
        0 <= i < j < rows.len() ==> !(#[trigger] rows[i].0 == #[trigger] rows[j].0 && rows[i].1 == rows[j].1)
}

/// The (message, language) pair of the first row that repeats the pair of an
/// earlier row.
pub open spec fn first_duplicate(rows: Seq<(Seq<char>, Seq<char>, Seq<char>)>) -> Option<(Seq<char>, Seq<char>)>
    decreases rows.len(),
{
    if rows.len() == 0 {
        None
    } else {
        match first_duplicate(rows.drop_last()) {
            Some(p) => Some(p),
            None => if has_pair(rows.drop_last(), rows.last().0, rows.last().1) {
                Some((rows.last().0, rows.last().1))
            } else {
                None
            },
        }
    }
}

/// The text that the first row for `key` in `lang` holds.
pub open spec fn lookup(rows: Seq<(Seq<char>, Seq<char>, Seq<char>)>, key: Seq<char>, lang: Seq<char>) -> Option<Seq<char>>
    decreases rows.len(),
{
    if rows.len() == 0 {
        None
    } else if rows[0].0 == key && rows[0].1 == lang {
        Some(rows[0].2)
    } else {
        lookup(rows.drop_first(), key, lang)
    }
}

/// The rows that the languages of one message contribute, in order: each
/// language whose value is a string.
pub open spec fn lang_rows(key: Seq<char>, langs: Seq<(String, TomlValue)>) -> Seq<(Seq<char>, Seq<char>, Seq<char>)>
    decreases langs.len(),
{
    if langs.len() == 0 {
        Seq::empty()
    } else {
        lang_rows(key, langs.drop_last()) + match langs.last().1 {
            TomlValue::Str(t) => seq![(key, langs.last().0@, t@)],
            _ => Seq::empty(),
        }
    }
}

/// The rows that one message's value gives: the strings of its language
/// table, if it has one.
pub open spec fn entry_rows(key: Seq<char>, value: TomlValue) -> Seq<(Seq<char>, Seq<char>, Seq<char>)> {
    match value {
        TomlValue::Table(langs) => lang_rows(key, langs@),
        _ => Seq::empty(),
    }
}

/// The rows that the messages of one document give, in order.
pub open spec fn doc_rows(entries: Seq<(String, TomlValue)>) -> Seq<(Seq<char>, Seq<char>, Seq<char>)>
    decreases entries.len(),
{
    if entries.len() == 0 {
        Seq::empty()
    } else {
        doc_rows(entries.drop_last()) + entry_rows(entries.last().0@, entries.last().1)
    }
}

/// The rows that one translation file gives; a file that is not TOML, or
/// whose document is not a table, gives none.
pub open spec fn file_rows(doc: Option<TomlValue>) -> Seq<(Seq<char>, Seq<char>, Seq<char>)> {
    match doc {
        Some(TomlValue::Table(entries)) => doc_rows(entries@),
        _ => Seq::empty(),
    }
}

/// The rows that the translation files give, file after file: the texts
/// they write out.
pub open spec fn explicit_rows(docs: Seq<Option<TomlValue>>) -> Seq<(Seq<char>, Seq<char>, Seq<char>)>
    decreases docs.len(),
{
    if docs.len() == 0 {
        Seq::empty()
    } else {
        explicit_rows(docs.drop_last()) + file_rows(docs.last())
    }
}

/// The messages of one translation file, in order.
pub open spec fn file_keys(doc: Option<TomlValue>) -> Seq<Seq<char>> {
    match doc {
        Some(TomlValue::Table(entries)) => entries@.map_values(|e: (String, TomlValue)| e.0@),
        _ => Seq::empty(),
    }
}

/// The messages of all translation files, file after file.
pub open spec fn all_keys(docs: Seq<Option<TomlValue>>) -> Seq<Seq<char>>
    decreases docs.len(),
{
    if docs.len() == 0 {
        Seq::empty()
    } else {
        all_keys(docs.drop_last()) + file_keys(docs.last())
    }
}

/// `rows` followed by the base-language row of each message of `keys` that
/// has none yet: its text is the message itself.
pub open spec fn with_base_rows(
    rows: Seq<(Seq<char>, Seq<char>, Seq<char>)>,
    keys: Seq<Seq<char>>,
    base: Seq<char>,
) -> Seq<(Seq<char>, Seq<char>, Seq<char>)>
    decreases keys.len(),
{
    if keys.len() == 0 {
        rows
    } else {
        let prev = with_base_rows(rows, keys.drop_last(), base);
        if has_pair(prev, keys.last(), base) {
            prev
        } else {
            prev.push((keys.last(), base, keys.last()))
        }
    }
}

/// The rows of the translation table built from the files: the texts they
/// write out, then the base-language text of each message they name and
/// give no base-language text.
pub open spec fn table_rows(docs: Seq<Option<TomlValue>>, base: Seq<char>) -> Seq<(Seq<char>, Seq<char>, Seq<char>)> {
    with_base_rows(explicit_rows(docs), all_keys(docs), base)
}

/// Translations keyed by message and language, at most one per pair.
pub struct TranslationTable {
    rows: Vec<Translation>,
}

impl View for TranslationTable {
    type V = Seq<(Seq<char>, Seq<char>, Seq<char>)>;

    closed spec fn view(&self) -> Seq<(Seq<char>, Seq<char>, Seq<char>)> {
        self.rows@.map_values(|t: Translation| t@)
    }
}

impl TranslationTable {
    #[verifier::type_invariant]
    spec fn wf(self) -> bool {
        no_duplicate_pairs(self@)
    }

    /// The text of `key` in `lang`, if the table holds one.
    pub open spec fn spec_get(self, key: Seq<char>, lang: Seq<char>) -> Option<Seq<char>> {
        lookup(self@, key, lang)
    }

    /// The empty table.
    pub fn new() -> (t: Self)
        ensures
            t@ == Seq::<(Seq<char>, Seq<char>, Seq<char>)>::empty(),
    {
        let t = TranslationTable { rows: Vec::new() };
        assert(t@ =~= Seq::<(Seq<char>, Seq<char>, Seq<char>)>::empty());
        t
    }

    /// Whether the table holds a text for `key` in `lang`.
    pub fn contains(&self, key: &str, lang: &str) -> (r: bool)
        ensures
            r == has_pair(self@, key@, lang@),
    {
        let mut i: usize = 0;
        while i < self.rows.len()
            invariant
                i <= self.rows@.len(),
                self@ == self.rows@.map_values(|t: Translation| t@),
                forall|k: int| 0 <= k < i ==> !(self@[k].0 == key@ && self@[k].1 == lang@),
            decreases self.rows@.len() - i,
        {
            if str_eq(self.rows[i].key.as_str(), key) && str_eq(self.rows[i].lang.as_str(), lang) {
                assert(self@[i as int].0 == key@);
                return true;
            }
            i = i + 1;
        }
        false
    }

    /// Adds the text of `key` in `lang`, unless the table already holds one.
    pub fn insert(&mut self, row: Translation) -> (r: Result<(), DuplicateTranslation>)
        ensures
            match r {
                Ok(()) => !has_pair(old(self)@, row.key@, row.lang@) && final(self)@ == old(self)@.push(row@),
                Err(d) => has_pair(old(self)@, row.key@, row.lang@) && final(self)@ == old(self)@
                    && d.key@ == row.key@ && d.lang@ == row.lang@,
            },
    {
        proof { use_type_invariant(&*self); }
        if self.contains(row.key.as_str(), row.lang.as_str()) {
            return Err(DuplicateTranslation { key: row.key, lang: row.lang });
        }
        let ghost old_view = self@;
        let mut rows: Vec<Translation> = Vec::new();
        std::mem::swap(&mut rows, &mut self.rows);
        assert(rows@.map_values(|t: Translation| t@) == old_view);
        rows.push(row);
        assert(rows@.map_values(|t: Translation| t@) =~= old_view.push(row@));
        assert forall|i: int, j: int| 0 <= i < j < rows@.len() implies
            !(#[trigger] rows@[i]@.0 == #[trigger] rows@[j]@.0 && rows@[i]@.1 == rows@[j]@.1) by {
            if j == old_view.len() {
                if rows@[i]@.0 == rows@[j]@.0 && rows@[i]@.1 == rows@[j]@.1 {
                    assert(old_view[i].0 == row.key@ && old_view[i].1 == row.lang@);
                }
            } else {
                assert(old_view[i] == rows@[i]@ && old_view[j] == rows@[j]@);
            }
        }
        self.rows = rows;
        Ok(())
    }

    /// The text of `key` in `lang`.
    pub fn get(&self, key: &str, lang: &str) -> (r: Option<&String>)
        ensures
            match r {
                Some(t) => self.spec_get(key@, lang@) == Some(t@),
                None => self.spec_get(key@, lang@) is None,
            },
    {
        let mut i: usize = 0;
        assert(self@.skip(0) =~= self@);
        while i < self.rows.len()
            invariant
                i <= self.rows@.len(),
                self@ == self.rows@.map_values(|t: Translation| t@),
                lookup(self@, key@, lang@) == lookup(self@.skip(i as int), key@, lang@),
            decreases self.rows@.len() - i,
        {
            assert(self@.skip(i as int).drop_first() =~= self@.skip(i + 1));
            assert(self@.skip(i as int)[0] == self@[i as int]);
            if str_eq(self.rows[i].key.as_str(), key) && str_eq(self.rows[i].lang.as_str(), lang) {
                return Some(&self.rows[i].text);
            }
            i = i + 1;
        }
        None
    }

    /// The number of rows.
    pub fn len(&self) -> (n: usize)
        ensures
            n == self@.len(),
    {
        self.rows.len()
    }

    /// The `i`-th row, in the order the rows were added.
    pub fn row(&self, i: usize) -> (r: &Translation)
        requires
            i < self@.len(),
        ensures
            r@ == self@[i as int],
    {
        &self.rows[i]
    }

    /// A table holding `rows` in order, or the first pair that `rows` repeats.
    pub fn from_rows(rows: &Vec<Translation>) -> (r: Result<TranslationTable, DuplicateTranslation>)
        ensures
            match r {
                Ok(t) => first_duplicate(rows@.map_values(|t: Translation| t@)) is None
                    && t@ == rows@.map_values(|t: Translation| t@),
                Err(d) => first_duplicate(rows@.map_values(|t: Translation| t@)) == Some((d.key@, d.lang@)),
            },
    {
        let ghost all = rows@.map_values(|t: Translation| t@);
        let mut table = TranslationTable::new();
        let mut i: usize = 0;
        while i < rows.len()
            invariant
                i <= rows@.len(),
                all == rows@.map_values(|t: Translation| t@),
                table@ == all.take(i as int),
                first_duplicate(all.take(i as int)) is None,
            decreases rows@.len() - i,
        {
            let row = Translation {
                key: rows[i].key.clone(),
                lang: rows[i].lang.clone(),
                text: rows[i].text.clone(),
            };
            assert(all.take(i + 1).drop_last() =~= all.take(i as int));
            assert(all.take(i + 1).last() == all[i as int]);
            match table.insert(row) {
                Ok(()) => {
                    assert(table@ =~= all.take(i + 1));
                },
                Err(d) => {
                    proof { lemma_first_duplicate_extends(all, i as int + 1); }
                    assert(all.take(all.len() as int) =~= all);
                    return Err(d);
                },
            }
            i = i + 1;
        }
        assert(all.take(all.len() as int) =~= all);
        Ok(table)
    }
}

/// A pair repeated within a prefix of `rows` is the first pair that `rows`
/// itself repeats.
pub proof fn lemma_first_duplicate_extends(rows: Seq<(Seq<char>, Seq<char>, Seq<char>)>, k: int)
    requires
        0 <= k <= rows.len(),
        first_duplicate(rows.take(k)) is Some,
    ensures
        forall|j: int| k <= j <= rows.len() ==> #[trigger] first_duplicate(rows.take(j)) == first_duplicate(rows.take(k)),
    decreases rows.len() - k,
{
    if k < rows.len() {
        assert(rows.take(k + 1).drop_last() =~= rows.take(k));
        lemma_first_duplicate_extends(rows, k + 1);
    }
}

/// `rows` repeats no pair exactly when it has no first repeated pair.
pub proof fn lemma_first_duplicate_none(rows: Seq<(Seq<char>, Seq<char>, Seq<char>)>)
    ensures
        first_duplicate(rows) is None <==> no_duplicate_pairs(rows),
    decreases rows.len(),
{
    if rows.len() > 0 {
        let p = rows.drop_last();
        lemma_first_duplicate_none(p);
        let n = rows.len() - 1;
        if first_duplicate(rows) is None {
            assert forall|i: int, j: int| 0 <= i < j < rows.len() implies
                !(#[trigger] rows[i].0 == #[trigger] rows[j].0 && rows[i].1 == rows[j].1) by {
                if j == n {
                    if rows[i].0 == rows[j].0 && rows[i].1 == rows[j].1 {
                        assert(p[i].0 == rows.last().0);
                        assert(has_pair(p, rows.last().0, rows.last().1));
                    }
                } else {
                    assert(p[i] == rows[i] && p[j] == rows[j]);
                }
            }
        }
        if no_duplicate_pairs(rows) {
            assert forall|i: int, j: int| 0 <= i < j < p.len() implies
                !(#[trigger] p[i].0 == #[trigger] p[j].0 && p[i].1 == p[j].1) by {
                assert(p[i] == rows[i] && p[j] == rows[j]);
            }
            if has_pair(p, rows.last().0, rows.last().1) {
                let i = choose|i: int| 0 <= i < p.len() && #[trigger] p[i].0 == rows.last().0 && p[i].1 == rows.last().1;
                assert(rows[i].0 == rows[n].0);
            }
        }
    }
}

/// Appends the rows of the language table `langs` of message `key`.
fn push_lang_rows(key: &String, langs: &Vec<(String, TomlValue)>, out: &mut Vec<Translation>)
    ensures
        final(out)@.map_values(|t: Translation| t@) == old(out)@.map_values(|t: Translation| t@) + lang_rows(key@, langs@),
{
    let ghost start = out@.map_values(|t: Translation| t@);
    let mut i: usize = 0;
    while i < langs.len()
        invariant
            i <= langs@.len(),
            out@.map_values(|t: Translation| t@) == start + lang_rows(key@, langs@.take(i as int)),
        decreases langs@.len() - i,
    {
        assert(langs@.take(i + 1).drop_last() =~= langs@.take(i as int));
        assert(langs@.take(i + 1).last() == langs@[i as int]);
        let ghost before = out@.map_values(|t: Translation| t@);
        if let TomlValue::Str(text) = &langs[i].1 {
            out.push(Translation { key: key.clone(), lang: langs[i].0.clone(), text: text.clone() });
            assert(out@.map_values(|t: Translation| t@) =~= before.push((key@, langs@[i as int].0@, text@)));
            assert(lang_rows(key@, langs@.take(i + 1)) == lang_rows(key@, langs@.take(i as int))
                + seq![(key@, langs@[i as int].0@, text@)]);
        } else {
            assert(lang_rows(key@, langs@.take(i + 1)) =~= lang_rows(key@, langs@.take(i as int)));
        }
        assert(out@.map_values(|t: Translation| t@) =~= start + lang_rows(key@, langs@.take(i + 1)));
        i = i + 1;
    }
    assert(langs@.take(langs@.len() as int) =~= langs@);
}

/// Appends the rows that the messages of one document give.
fn push_doc_rows(entries: &Vec<(String, TomlValue)>, out: &mut Vec<Translation>)
    ensures
        final(out)@.map_values(|t: Translation| t@) == old(out)@.map_values(|t: Translation| t@) + doc_rows(entries@),
{
    let ghost start = out@.map_values(|t: Translation| t@);
    let mut i: usize = 0;
    while i < entries.len()
        invariant
            i <= entries@.len(),
            out@.map_values(|t: Translation| t@) == start + doc_rows(entries@.take(i as int)),
        decreases entries@.len() - i,
    {
        assert(entries@.take(i + 1).drop_last() =~= entries@.take(i as int));
        assert(entries@.take(i + 1).last() == entries@[i as int]);
        let key = &entries[i].0;
        let ghost mid = out@.map_values(|t: Translation| t@);
        if let TomlValue::Table(langs) = &entries[i].1 {
            push_lang_rows(key, langs, out);
        }
        assert(out@.map_values(|t: Translation| t@) =~= start + doc_rows(entries@.take(i + 1)));
        i = i + 1;
    }
    assert(entries@.take(entries@.len() as int) =~= entries@);
}

/// The rows that the translation files give, in file order.
pub fn collect_rows(docs: &Vec<Option<TomlValue>>) -> (rows: Vec<Translation>)
    ensures
        rows@.map_values(|t: Translation| t@) == explicit_rows(docs@),
{
    let mut out: Vec<Translation> = Vec::new();
    let mut i: usize = 0;
    while i < docs.len()
        invariant
            i <= docs@.len(),
            out@.map_values(|t: Translation| t@) == explicit_rows(docs@.take(i as int)),
        decreases docs@.len() - i,
    {
        assert(docs@.take(i + 1).drop_last() =~= docs@.take(i as int));
        assert(docs@.take(i + 1).last() == docs@[i as int]);
        if let Some(TomlValue::Table(entries)) = &docs[i] {
            push_doc_rows(entries, &mut out);
        }
        assert(out@.map_values(|t: Translation| t@) =~= explicit_rows(docs@.take(i + 1)));
        i = i + 1;
    }
    assert(docs@.take(docs@.len() as int) =~= docs@);
    out
}

/// The messages that the translation files name, in file order.
pub fn collect_keys(docs: &Vec<Option<TomlValue>>) -> (keys: Vec<String>)
    ensures
        keys@.map_values(|k: String| k@) == all_keys(docs@),
{
    let mut out: Vec<String> = Vec::new();
    let mut i: usize = 0;
    while i < docs.len()
        invariant
            i <= docs@.len(),
            out@.map_values(|k: String| k@) == all_keys(docs@.take(i as int)),
        decreases docs@.len() - i,
    {
        assert(docs@.take(i + 1).drop_last() =~= docs@.take(i as int));
        assert(docs@.take(i + 1).last() == docs@[i as int]);
        if let Some(TomlValue::Table(entries)) = &docs[i] {
            let ghost start = out@.map_values(|k: String| k@);
            let mut j: usize = 0;
            while j < entries.len()
                invariant
                    j <= entries@.len(),
                    out@.map_values(|k: String| k@) == start + entries@.take(j as int).map_values(|e: (String, TomlValue)| e.0@),
                decreases entries@.len() - j,
            {
                let ghost before = out@.map_values(|k: String| k@);
                out.push(entries[j].0.clone());
                assert(out@.map_values(|k: String| k@) =~= before.push(entries@[j as int].0@));
                assert(entries@.take(j + 1).map_values(|e: (String, TomlValue)| e.0@)
                    =~= entries@.take(j as int).map_values(|e: (String, TomlValue)| e.0@).push(entries@[j as int].0@));
                j = j + 1;
            }
            assert(entries@.take(entries@.len() as int) =~= entries@);
        }
        assert(out@.map_values(|k: String| k@) =~= all_keys(docs@.take(i + 1)));
        i = i + 1;
    }
    assert(docs@.take(docs@.len() as int) =~= docs@);
    out
}

/// Builds the translation table from the parsed translation files (`None`
/// for a file that is not TOML): each string in a message's language table
/// is its text in that language, and a message without a text in `base`
/// gets itself as that text. A pair of message and language that the files
/// write out twice is refused with the first such pair.
pub fn parse_translations(docs: &Vec<Option<TomlValue>>, base: &String) -> (r: Result<TranslationTable, DuplicateTranslation>)
    ensures
        match r {
            Ok(t) => first_duplicate(explicit_rows(docs@)) is None && t@ == table_rows(docs@, base@),
            Err(d) => first_duplicate(explicit_rows(docs@)) == Some((d.key@, d.lang@)),
        },
        r is Ok <==> no_duplicate_pairs(explicit_rows(docs@)),
{
    let rows = collect_rows(docs);
    let keys = collect_keys(docs);
    proof { lemma_first_duplicate_none(explicit_rows(docs@)); }
    let mut table = match TranslationTable::from_rows(&rows) {
        Ok(t) => t,
        Err(d) => return Err(d),
    };
    let ghost kv = keys@.map_values(|k: String| k@);
    let ghost e = explicit_rows(docs@);
    assert(kv.take(0) =~= Seq::<Seq<char>>::empty());
    let mut i: usize = 0;
    while i < keys.len()
        invariant
            i <= keys@.len(),
            kv == keys@.map_values(|k: String| k@),
            kv == all_keys(docs@),
            table@ == with_base_rows(e, kv.take(i as int), base@),
        decreases keys@.len() - i,
    {
        assert(kv.take(i + 1).drop_last() =~= kv.take(i as int));
        assert(kv.take(i + 1).last() == kv[i as int]);
        if !table.contains(keys[i].as_str(), base.as_str()) {
            let row = Translation { key: keys[i].clone(), lang: base.clone(), text: keys[i].clone() };
            let _ = table.insert(row);
        }
        i = i + 1;
    }
    assert(kv.take(kv.len() as int) =~= kv);
    Ok(table)
}

} // verus!
