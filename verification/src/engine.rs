//! The search engine's index and its document lifecycle: adding, removing,
//! discarding and vacuuming documents, over an inverted index that maps each
//! term to its fields, each field to its documents, and each document to the
//! term's frequency there.
//!
//! Fields and documents are referenced by short numeric IDs. Every table is
//! insertion-ordered, so that iteration order, which decides ties and match
//! order in search results, is fully determined by the history of the index.
//! Document IDs and stored field values are held as their JSON text; scores
//! and average field lengths, which are floating-point, are kept by the
//! caller, which receives every change of a field length.
use vstd::prelude::*;

use crate::js::{
    IdKey,
    decimal,
    json_array,
    json_member,
    json_object,
    json_quoted,
    json_string_to,
    json_string_value,
    lemma_members_step,
    members,
    push_decimal,
    push_separator,
};
use crate::search::{Interner, MatchSet, matches_view};
use crate::text::push_char;
use crate::maps::{DocumentIds, FieldIds, FieldLengths, ShortIds, StoredFields, stored_view};
use crate::levenshtein::{levenshtein, lemma_zero_distance};
use crate::reading::{
    lemma_lengths_object_reads_back,
    lemma_term_item_reads_back,
    read_lengths_object,
    read_postings_object,
};
use crate::radix::{RadixTree, entry_view, fuzzy_view, is_prefix, entry_keys, keys_after_insert, keys_after_remove};
use crate::tokens::{
    Tokenizer,
    distinct_tokens,
    new_token_set,
    text_terms,
    token_set_contains,
    token_set_contents,
    token_set_insert,
    views,
};
use crate::removal::{
    index_below,
    index_compact,
    index_unique,
    lemma_add_document_below,
    lemma_add_document_keeps,
    lemma_remove_document_keeps,
    lemma_remove_refs_keeps,
    lemma_vacuumed_keeps,
    lemma_field_texts_distinct,
    lemma_field_texts_terms,
    lemma_lengths_add_fresh,
    postings_unique,
};
use crate::written::{
    distinct_names,
    entries_map,
    lemma_entries_map,
    lemma_load_field_ids_written,
    lemma_load_ids_written,
    lemma_load_index_written,
    lemma_load_lengths_written,
    lemma_load_stored_written,
    written_field_ids,
    written_id,
    written_ids,
    written_index,
    written_keys,
    written_lengths,
    written_stored,
};
use crate::vecmap::{
    VecMap,
    assoc_get,
    assoc_remove,
    assoc_set,
    has_key,
    index_of,
    lemma_assoc_remove_unique,
    lemma_assoc_set_unique,
    lemma_map_second,
    lemma_map_second_remove,
    lemma_map_second_set,
    map_second,
    unique_keys,
};

verus! {

broadcast use vstd::laws_eq::group_laws_eq;

/// The occurrences of a term in one field: documents and term frequencies.
pub type DocFreqs = VecMap<u32, u32>;

/// The occurrences of a term: fields, then documents.
pub type FieldTermData = VecMap<u32, DocFreqs>;

/// The postings of a term as plain sequences: `(field ID, [(short ID,
/// frequency)])`, in insertion order.
pub type Postings = Seq<(u32, Seq<(u32, u32)>)>;

/// A document ID: its identity key and its JSON text.
pub struct DocumentId {
    pub key: IdKey,
    pub json: String,
}

/// A document as the engine reads it.
pub struct Document {
    /// The ID, if the ID field is present and not null.
    pub id: Option<DocumentId>,
    /// The text of each indexed field, in field order: `None` where the field
    /// is missing or null.
    pub texts: Vec<Option<String>>,
    /// The JSON text of each stored field, in stored-field order: `None` where
    /// the field is missing.
    pub stored: Vec<Option<String>>,
}

/// Why an operation was refused.
#[derive(Clone, Copy, Debug, PartialEq, Eq)]
pub enum EngineError {
    /// The document has no ID.
    MissingId,
    /// A document with the same ID is already indexed.
    DuplicateId,
    /// No document with this ID is indexed.
    NotInIndex,
    /// The serialized index has an unknown version.
    IncompatibleVersion,
    /// A short document ID in the serialized index is not a number.
    InvalidDocumentId,
    /// A field ID in the serialized index is not a number.
    InvalidFieldId,
    /// An index entry in the serialized index is malformed.
    InvalidIndexEntry,
}

/// A change of one field length, for the caller's running averages: the
/// length of a field of a document was added to, or removed from, the
/// average over `count` documents.
#[derive(Clone, Copy, Debug, PartialEq, Eq)]
pub struct LengthChange {
    pub field_id: u32,
    pub count: u32,
    pub length: u32,
    pub added: bool,
}

/// A term that a removed document no longer contains: the document changed
/// after it was indexed, and its removal left the index unchanged for that
/// term.
pub struct Warning {
    /// The JSON text of the document's ID, if the document is indexed.
    pub document_id: Option<String>,
    pub term: String,
    pub field: String,
}

/// The postings of a term.
pub open spec fn postings_view(data: FieldTermData) -> Postings {
    map_second(data@, |docs: DocFreqs| docs@)
}

/// Keys are unique at both levels of a term's postings.
pub open spec fn postings_wf(data: FieldTermData) -> bool {
    &&& data.wf()
    &&& forall|i: int| 0 <= i < data@.len() ==> (#[trigger] data@[i]).1.wf()
}

/// The postings of a term after one more occurrence of it in `field` of
/// `doc`. The frequency wraps around at `u32::MAX`.
pub open spec fn posting_add(data: Postings, field: u32, doc: u32) -> Postings {
    let docs = match assoc_get(data, field) {
        Some(docs) => docs,
        None => Seq::empty(),
    };
    let freq: u32 = match assoc_get(docs, doc) {
        Some(freq) => freq,
        None => 0,
    };
    assoc_set(data, field, assoc_set(docs, doc, (if freq == u32::MAX { 0 } else { freq + 1 }) as u32))
}

/// The postings of a term after one occurrence of it in `field` of `doc` is
/// taken away: the frequency drops by one, and an entry that would drop to
/// zero is removed, together with its field when that was the field's last
/// document.
pub open spec fn posting_remove(data: Postings, field: u32, doc: u32) -> Postings {
    let docs = assoc_get(data, field)->Some_0;
    let freq = assoc_get(docs, doc)->Some_0;
    if freq <= 1 {
        if docs.len() <= 1 {
            assoc_remove(data, field)
        } else {
            assoc_set(data, field, assoc_remove(docs, doc))
        }
    } else {
        assoc_set(data, field, assoc_set(docs, doc, (freq - 1) as u32))
    }
}

/// Whether `doc` occurs in `field` of the postings.
pub open spec fn posting_has(data: Postings, field: u32, doc: u32) -> bool {
    &&& assoc_get(data, field) is Some
    &&& assoc_get(assoc_get(data, field)->Some_0, doc) is Some
}

/// The index after one occurrence of `term` in `field` of `doc` is taken
/// away, or unchanged if there is none; a term left without fields is
/// removed.
pub open spec fn index_remove(
    index: Map<Seq<char>, Postings>,
    term: Seq<char>,
    field: u32,
    doc: u32,
) -> Map<Seq<char>, Postings> {
    if index.contains_key(term) && posting_has(index[term], field, doc) {
        let data = posting_remove(index[term], field, doc);
        if data.len() == 0 {
            index.remove(term)
        } else {
            index.insert(term, data)
        }
    } else {
        index
    }
}

/// The index after one more occurrence of `term` in `field` of `doc`.
pub open spec fn index_add(
    index: Map<Seq<char>, Postings>,
    term: Seq<char>,
    field: u32,
    doc: u32,
) -> Map<Seq<char>, Postings> {
    let data = if index.contains_key(term) {
        index[term]
    } else {
        Seq::empty()
    };
    index.insert(term, posting_add(data, field, doc))
}

#[verifier::spinoff_prover]
fn new_term_data() -> (data: FieldTermData)
    ensures
        data@.len() == 0,
{
    VecMap::default()
}

#[verifier::spinoff_prover]
fn new_doc_freqs() -> (docs: DocFreqs)
    ensures
        docs@.len() == 0,
{
    VecMap::default()
}

#[verifier::spinoff_prover]
fn zero_frequency() -> (freq: u32)
    ensures
        freq == 0,
{
    0
}

/// The name of the first field in `table` whose ID is `id`.
pub open spec fn field_name_of(table: Seq<(Seq<char>, u32)>, id: u32) -> Option<Seq<char>> {
    if exists|i: int| 0 <= i < table.len() && (#[trigger] table[i]).1 == id {
        let i = choose|i: int|
            0 <= i < table.len() && (#[trigger] table[i]).1 == id && forall|j: int|
                0 <= j < i ==> (#[trigger] table[j]).1 != id;
        Some(table[i].0)
    } else {
        None
    }
}

/// The view of an optional string.
pub open spec fn opt_view(text: Option<String>) -> Option<Seq<char>> {
    match text {
        Some(t) => Some(t@),
        None => None,
    }
}

/// The warning for a term that is absent where a removed document should
/// have had it: none if no field has this ID.
pub open spec fn warning_for(
    fields: Seq<(Seq<char>, u32)>,
    documents: Seq<(u32, Seq<char>)>,
    doc: u32,
    field: u32,
    term: Seq<char>,
    warning: Option<Warning>,
) -> bool {
    match field_name_of(fields, field) {
        Some(name) => warning matches Some(w) && w.field@ == name && w.term@ == term
            && opt_view(w.document_id) == assoc_get(documents, doc),
        None => warning is None,
    }
}

/// The indexed fields of a document that have text, with their IDs: the
/// first `count` fields.
pub open spec fn field_texts(
    ids: Seq<(Seq<char>, u32)>,
    fields: Seq<Seq<char>>,
    texts: Seq<Option<String>>,
    count: int,
) -> Seq<(u32, Seq<char>)>
    decreases count,
{
    if count <= 0 {
        Seq::empty()
    } else {
        let before = field_texts(ids, fields, texts, count - 1);
        match texts[count - 1] {
            Some(text) => before.push((assoc_get(ids, fields[count - 1])->Some_0, text@)),
            None => before,
        }
    }
}

/// The number of characters of the texts, plus one per text.
pub open spec fn text_size(texts: Seq<Option<String>>) -> nat
    decreases texts.len(),
{
    if texts.len() == 0 {
        0
    } else {
        text_size(texts.drop_last()) + match texts.last() {
            Some(text) => text@.len() + 1,
            None => 0,
        }
    }
}

/// The index after one occurrence of each of `terms` in `field` of `doc`.
pub open spec fn index_add_terms(
    index: Map<Seq<char>, Postings>,
    terms: Seq<Seq<char>>,
    field: u32,
    doc: u32,
) -> Map<Seq<char>, Postings>
    decreases terms.len(),
{
    if terms.len() == 0 {
        index
    } else {
        index_add(index_add_terms(index, terms.drop_last(), field, doc), terms.last(), field, doc)
    }
}

/// The index terms in traversal order after `term` is added: a term
/// already there keeps its place, a new one goes where the tree puts a new
/// key.
pub open spec fn keys_with(keys: Seq<Seq<char>>, term: Seq<char>) -> Seq<Seq<char>> {
    if keys.contains(term) {
        keys
    } else {
        keys_after_insert(keys, Seq::empty(), term)
    }
}

/// The index terms in traversal order after `terms` are added in order.
pub open spec fn keys_with_terms(keys: Seq<Seq<char>>, terms: Seq<Seq<char>>) -> Seq<Seq<char>>
    decreases terms.len(),
{
    if terms.len() == 0 {
        keys
    } else {
        keys_with(keys_with_terms(keys, terms.drop_last()), terms.last())
    }
}

/// The index terms in traversal order after the terms of each field text
/// are added, field by field.
pub open spec fn keys_with_document(keys: Seq<Seq<char>>, texts: Seq<(u32, Seq<char>)>) -> Seq<
    Seq<char>,
>
    decreases texts.len(),
{
    if texts.len() == 0 {
        keys
    } else {
        keys_with_terms(keys_with_document(keys, texts.drop_last()), text_terms(texts.last().1))
    }
}

/// The index after the terms of each field text are added for `doc`.
pub open spec fn index_add_document(
    index: Map<Seq<char>, Postings>,
    texts: Seq<(u32, Seq<char>)>,
    doc: u32,
) -> Map<Seq<char>, Postings>
    decreases texts.len(),
{
    if texts.len() == 0 {
        index
    } else {
        index_add_terms(
            index_add_document(index, texts.drop_last(), doc),
            text_terms(texts.last().1),
            texts.last().0,
            doc,
        )
    }
}

/// Field lengths after `length` is recorded at `position`, the list growing
/// with `None` as needed.
pub open spec fn set_length(lengths: Seq<Option<u32>>, position: int, length: u32) -> Seq<
    Option<u32>,
> {
    let grown = if lengths.len() <= position {
        lengths + Seq::new((position + 1 - lengths.len()) as nat, |i: int| None)
    } else {
        lengths
    };
    grown.update(position, Some(length))
}

/// The field-length table after the distinct-token counts of each field text
/// are recorded for `doc`.
pub open spec fn lengths_add_document(
    table: Seq<(u32, Seq<Option<u32>>)>,
    texts: Seq<(u32, Seq<char>)>,
    doc: u32,
) -> Seq<(u32, Seq<Option<u32>>)>
    decreases texts.len(),
{
    if texts.len() == 0 {
        table
    } else {
        let before = lengths_add_document(table, texts.drop_last(), doc);
        let lengths = match assoc_get(before, doc) {
            Some(lengths) => lengths,
            None => Seq::empty(),
        };
        assoc_set(
            before,
            doc,
            set_length(lengths, texts.last().0 as int, distinct_tokens(texts.last().1) as u32),
        )
    }
}

/// The length changes reported when a document's field texts are added, the
/// average then running over `count` documents.
pub open spec fn added_lengths(texts: Seq<(u32, Seq<char>)>, count: u32) -> Seq<LengthChange> {
    texts.map_values(
        |text: (u32, Seq<char>)|
            LengthChange {
                field_id: text.0,
                count,
                length: distinct_tokens(text.1) as u32,
                added: true,
            },
    )
}

/// A document's stored values after the present ones of the first `count`
/// stored fields are saved, by stored-field position.
pub open spec fn stored_add(
    values: Seq<(u16, Seq<char>)>,
    stored: Seq<Option<String>>,
    count: int,
) -> Seq<(u16, Seq<char>)>
    decreases count,
{
    if count <= 0 {
        values
    } else {
        let before = stored_add(values, stored, count - 1);
        match stored[count - 1] {
            Some(json) => assoc_set(before, (count - 1) as u16, json@),
            None => before,
        }
    }
}

proof fn lemma_text_size_take(texts: Seq<Option<String>>, count: int)
    requires
        0 <= count <= texts.len(),
    ensures
        text_size(texts.take(count)) <= text_size(texts),
    decreases texts.len(),
{
    if count < texts.len() {
        assert(texts.drop_last().take(count) =~= texts.take(count));
        lemma_text_size_take(texts.drop_last(), count);
    } else {
        assert(texts.take(count) =~= texts);
    }
}

/// The number of characters of the texts, plus one per text.
pub open spec fn pair_size(texts: Seq<(u32, Seq<char>)>) -> nat
    decreases texts.len(),
{
    if texts.len() == 0 {
        0
    } else {
        pair_size(texts.drop_last()) + texts.last().1.len() + 1
    }
}

proof fn lemma_pair_size_take(texts: Seq<(u32, Seq<char>)>, count: int)
    requires
        0 <= count <= texts.len(),
    ensures
        pair_size(texts.take(count)) <= pair_size(texts),
    decreases texts.len(),
{
    if count < texts.len() {
        assert(texts.drop_last().take(count) =~= texts.take(count));
        lemma_pair_size_take(texts.drop_last(), count);
    } else {
        assert(texts.take(count) =~= texts);
    }
}

proof fn lemma_field_texts_size(
    ids: Seq<(Seq<char>, u32)>,
    fields: Seq<Seq<char>>,
    texts: Seq<Option<String>>,
    count: int,
)
    requires
        0 <= count <= texts.len(),
    ensures
        pair_size(field_texts(ids, fields, texts, count)) == text_size(texts.take(count)),
    decreases count,
{
    if count > 0 {
        lemma_field_texts_size(ids, fields, texts, count - 1);
        assert(texts.take(count).drop_last() =~= texts.take(count - 1));
        let before = field_texts(ids, fields, texts, count - 1);
        match texts[count - 1] {
            Some(text) => {
                assert(before.push((assoc_get(ids, fields[count - 1])->Some_0, text@)).drop_last()
                    =~= before);
            },
            None => {},
        }
    } else {
        assert(texts.take(0) =~= Seq::<Option<String>>::empty());
    }
}

proof fn lemma_field_texts_ids(
    ids: Seq<(Seq<char>, u32)>,
    fields: Seq<Seq<char>>,
    texts: Seq<Option<String>>,
    count: int,
)
    requires
        0 <= count <= fields.len(),
        count <= texts.len(),
        forall|j: int|
            0 <= j < count && (#[trigger] texts[j]) is Some ==> (assoc_get(ids, fields[j])->Some_0 as int)
                < usize::MAX,
    ensures
        forall|i: int|
            0 <= i < field_texts(ids, fields, texts, count).len() ==> ((#[trigger] field_texts(
                ids,
                fields,
                texts,
                count,
            )[i]).0 as int) < usize::MAX,
    decreases count,
{
    if count > 0 {
        lemma_field_texts_ids(ids, fields, texts, count - 1);
        if texts[count - 1] is Some {
            assert((assoc_get(ids, fields[count - 1])->Some_0 as int) < usize::MAX);
        }
        let before = field_texts(ids, fields, texts, count - 1);
        let now = field_texts(ids, fields, texts, count);
        assert forall|i: int| 0 <= i < now.len() implies ((#[trigger] now[i]).0 as int) < usize::MAX by {
            if i < before.len() {
                assert(now[i] == before[i]);
            }
        }
    }
}

proof fn lemma_stored_remove(table: Seq<(u32, Seq<(u16, Seq<char>)>)>, key: u32, names: nat)
    requires
        unique_keys(table),
        forall|i: int| 0 <= i < table.len() ==> unique_keys(#[trigger] table[i].1),
        forall|i: int, j: int|
            0 <= i < table.len() && 0 <= j < table[i].1.len() ==> (#[trigger] table[i].1[j]).0
                < names,
    ensures
        forall|i: int|
            0 <= i < assoc_remove(table, key).len() ==> unique_keys(
                #[trigger] assoc_remove(table, key)[i].1,
            ),
        forall|i: int, j: int|
            0 <= i < assoc_remove(table, key).len() && 0 <= j < assoc_remove(table, key)[i].1.len()
                ==> (#[trigger] assoc_remove(table, key)[i].1[j]).0 < names,
{
    let r = assoc_remove(table, key);
    if has_key(table, key) {
        let p = index_of(table, key);
        assert forall|i: int| 0 <= i < r.len() implies unique_keys(#[trigger] r[i].1) by {
            let fi = if i < p { i } else { i + 1 };
            assert(r[i] == table[fi]);
        }
        assert forall|i: int, j: int| 0 <= i < r.len() && 0 <= j < r[i].1.len() implies (
        #[trigger] r[i].1[j]).0 < names by {
            let fi = if i < p { i } else { i + 1 };
            assert(r[i] == table[fi]);
            assert(table[fi].1[j] == r[i].1[j]);
        }
    }
}

/// The documents kept in a posting list are all indexed.
proof fn lemma_live_docs_live(docs: Seq<(u32, u32)>, documents: Seq<(u32, Seq<char>)>)
    ensures
        forall|j: int|
            0 <= j < live_docs(docs, documents).len() ==> has_key(
                documents,
                (#[trigger] live_docs(docs, documents)[j]).0,
            ),
    decreases docs.len(),
{
    if docs.len() > 0 {
        lemma_live_docs_live(docs.drop_last(), documents);
        let before = live_docs(docs.drop_last(), documents);
        let now = live_docs(docs, documents);
        assert forall|j: int| 0 <= j < now.len() implies has_key(documents, (#[trigger] now[j]).0) by {
            if j < before.len() {
                assert(now[j] == before[j]);
            }
        }
    }
}

/// The postings kept by `live_postings` refer only to indexed documents.
proof fn lemma_live_postings_live(data: Postings, documents: Seq<(u32, Seq<char>)>)
    ensures
        !has_stale(live_postings(data, documents), documents),
    decreases data.len(),
{
    if data.len() > 0 {
        lemma_live_postings_live(data.drop_last(), documents);
        let before = live_postings(data.drop_last(), documents);
        let now = live_postings(data, documents);
        let docs = live_docs(data.last().1, documents);
        lemma_live_docs_live(data.last().1, documents);
        if exists|i: int, j: int|
            0 <= i < now.len() && 0 <= j < now[i].1.len() && !has_key(
                documents,
                (#[trigger] now[i].1[j]).0,
            ) {
            let (i, j) = choose|i: int, j: int|
                0 <= i < now.len() && 0 <= j < now[i].1.len() && !has_key(
                    documents,
                    (#[trigger] now[i].1[j]).0,
                );
            if i < before.len() {
                assert(now[i] == before[i]);
                assert(before[i].1[j] == now[i].1[j]);
            } else {
                assert(now[i].1 == docs);
                assert(docs[j] == now[i].1[j]);
            }
        }
    }
}

/// After a vacuum no term's postings refer to a document that is not
/// indexed.
pub proof fn lemma_vacuumed_has_no_stale(
    index: Map<Seq<char>, Postings>,
    documents: Seq<(u32, Seq<char>)>,
)
    ensures
        forall|term: Seq<char>| #[trigger]
            vacuumed(index, documents).contains_key(term) ==> !has_stale(
                vacuumed(index, documents)[term],
                documents,
            ),
{
    assert forall|term: Seq<char>| #[trigger]
        vacuumed(index, documents).contains_key(term) implies !has_stale(
        vacuumed(index, documents)[term],
        documents,
    ) by {
        lemma_live_postings_live(index[term], documents);
    }
}

/// A field whose documents are all indexed has no stale reference.
proof fn lemma_field_postings_clean(
    docs: Seq<(u32, u32)>,
    total: u32,
    position: int,
    field_id: u32,
    documents: Seq<(u32, Seq<char>)>,
    lengths: Seq<(u32, Seq<Option<u32>>)>,
)
    requires
        forall|k: int| 0 <= k < docs.len() ==> has_key(documents, (#[trigger] docs[k]).0),
    ensures
        field_postings(docs, total, position, field_id, documents, lengths).1 == Seq::<
            (u32, u32),
        >::empty(),
    decreases docs.len(),
{
    if docs.len() > 0 {
        assert forall|k: int| 0 <= k < docs.drop_last().len() implies has_key(
            documents,
            (#[trigger] docs.drop_last()[k]).0,
        ) by {
            assert(docs.drop_last()[k] == docs[k]);
        }
        lemma_field_postings_clean(docs.drop_last(), total, position, field_id, documents, lengths);
        assert(has_key(documents, docs[docs.len() - 1].0));
    }
}

/// Scoring postings that refer only to indexed documents finds no stale
/// reference, so searching their term takes nothing away from the index.
pub proof fn lemma_clean_postings_have_no_stale(
    data: Postings,
    fields: Seq<Seq<char>>,
    count: int,
    table: Seq<(Seq<char>, u32)>,
    documents: Seq<(u32, Seq<char>)>,
    lengths: Seq<(u32, Seq<Option<u32>>)>,
)
    requires
        !has_stale(data, documents),
    ensures
        term_postings(data, fields, count, table, documents, lengths).1 == Seq::<(u32, u32)>::empty(),
    decreases count,
{
    if count > 0 {
        lemma_clean_postings_have_no_stale(data, fields, count - 1, table, documents, lengths);
        match assoc_get(table, fields[count - 1]) {
            None => {},
            Some(field_id) => match assoc_get(data, field_id) {
                None => {},
                Some(docs) => {
                    let i = index_of(data, field_id);
                    assert(docs == data[i].1);
                    assert forall|k: int| 0 <= k < docs.len() implies has_key(
                        documents,
                        (#[trigger] docs[k]).0,
                    ) by {
                        assert(docs[k] == data[i].1[k]);
                    }
                    lemma_field_postings_clean(
                        docs,
                        docs.len() as u32,
                        count - 1,
                        field_id,
                        documents,
                        lengths,
                    );
                    assert(Seq::<(u32, u32)>::empty() + Seq::<(u32, u32)>::empty() =~= Seq::<
                        (u32, u32),
                    >::empty());
                },
            },
        }
    }
}

/// Removing an entry keeps every key below a bound that all were below.
proof fn lemma_removed_below<V>(entries: Seq<(u32, V)>, key: u32, bound: u32)
    requires
        forall|i: int| 0 <= i < entries.len() ==> (#[trigger] entries[i]).0 < bound,
    ensures
        forall|i: int|
            0 <= i < assoc_remove(entries, key).len() ==> (#[trigger] assoc_remove(entries, key)[i]).0
                < bound,
{
    if has_key(entries, key) {
        let p = index_of(entries, key);
        let r = assoc_remove(entries, key);
        assert forall|i: int| 0 <= i < r.len() implies (#[trigger] r[i]).0 < bound by {
            let fi = if i < p { i } else { i + 1 };
            assert(r[i] == entries[fi]);
        }
    }
}

/// Without one key, the short IDs stay distinct and below the bound, and
/// every other key keeps a short ID different from the removed key's.
proof fn lemma_ids_shrink(ids: Seq<(IdKey, u32)>, key: IdKey, bound: u32)
    requires
        unique_keys(ids),
        has_key(ids, key),
        forall|i: int| 0 <= i < ids.len() ==> (#[trigger] ids[i]).1 < bound,
        forall|a: int, b: int|
            0 <= a < ids.len() && 0 <= b < ids.len() && a != b ==> #[trigger] ids[a].1
                != #[trigger] ids[b].1,
    ensures
        forall|a: int, b: int|
            0 <= a < assoc_remove(ids, key).len() && 0 <= b < assoc_remove(ids, key).len() && a != b
                ==> #[trigger] assoc_remove(ids, key)[a].1 != #[trigger] assoc_remove(ids, key)[b].1,
        forall|i: int|
            0 <= i < assoc_remove(ids, key).len() ==> (#[trigger] assoc_remove(ids, key)[i]).1 < bound,
        forall|other: IdKey|
            #[trigger] has_key(ids, other) && other != key ==> assoc_get(ids, other)->Some_0
                != assoc_get(ids, key)->Some_0,
{
    let p = index_of(ids, key);
    assert(ids[p].0 == key);
    let r = assoc_remove(ids, key);
    assert forall|i: int| 0 <= i < r.len() implies #[trigger] r[i] == ids[if i < p {
        i
    } else {
        i + 1
    }] by {}
    assert forall|a: int, b: int|
        0 <= a < r.len() && 0 <= b < r.len() && a != b implies #[trigger] r[a].1 != #[trigger] r[b].1 by {
        let fa = if a < p { a } else { a + 1 };
        let fb = if b < p { b } else { b + 1 };
        assert(r[a] == ids[fa] && r[b] == ids[fb]);
    }
    assert forall|i: int| 0 <= i < r.len() implies (#[trigger] r[i]).1 < bound by {
        let fi = if i < p { i } else { i + 1 };
        assert(r[i] == ids[fi]);
    }
    assert forall|other: IdKey| #[trigger] has_key(ids, other) && other != key implies assoc_get(
        ids,
        other,
    )->Some_0 != assoc_get(ids, key)->Some_0 by {
        let q = index_of(ids, other);
        assert(ids[q].0 == other);
        assert(q != p);
    }
}

/// A document kept in a posting list keeps its entry.
proof fn lemma_live_docs_keep(docs: Seq<(u32, u32)>, documents: Seq<(u32, Seq<char>)>, j: int)
    requires
        0 <= j < docs.len(),
        has_key(documents, docs[j].0),
    ensures
        live_docs(docs, documents).contains(docs[j]),
    decreases docs.len(),
{
    let before = live_docs(docs.drop_last(), documents);
    if j < docs.len() - 1 {
        assert(docs.drop_last()[j] == docs[j]);
        lemma_live_docs_keep(docs.drop_last(), documents, j);
        let k = choose|k: int| 0 <= k < before.len() && before[k] == docs[j];
        assert(live_docs(docs, documents)[k] == docs[j]);
    } else {
        assert(live_docs(docs, documents)[before.len() as int] == docs[j]);
    }
}

/// Every entry of an indexed document stays in the postings kept by a
/// vacuum, in its field.
proof fn lemma_live_postings_keep(
    data: Postings,
    documents: Seq<(u32, Seq<char>)>,
    i: int,
    j: int,
)
    requires
        0 <= i < data.len(),
        0 <= j < data[i].1.len(),
        has_key(documents, data[i].1[j].0),
    ensures
        exists|k: int|
            0 <= k < live_postings(data, documents).len() && (#[trigger] live_postings(
                data,
                documents,
            )[k]).0 == data[i].0 && live_postings(data, documents)[k].1.contains(data[i].1[j]),
    decreases data.len(),
{
    let before = live_postings(data.drop_last(), documents);
    let now = live_postings(data, documents);
    if i < data.len() - 1 {
        assert(data.drop_last()[i] == data[i]);
        lemma_live_postings_keep(data.drop_last(), documents, i, j);
        let k = choose|k: int|
            0 <= k < before.len() && (#[trigger] before[k]).0 == data[i].0 && before[k].1.contains(
                data[i].1[j],
            );
        assert(now[k] == before[k]);
    } else {
        lemma_live_docs_keep(data[i].1, documents, j);
        assert(data.last() == data[i]);
        let docs = live_docs(data[i].1, documents);
        assert(docs.len() > 0);
        assert(now[before.len() as int] == (data[i].0, docs));
    }
}

/// A vacuum keeps every reference to an indexed document: each entry of
/// such a document stays in the postings of its term, in its field.
pub proof fn lemma_vacuumed_keeps_indexed(
    index: Map<Seq<char>, Postings>,
    documents: Seq<(u32, Seq<char>)>,
    term: Seq<char>,
    i: int,
    j: int,
)
    requires
        index.contains_key(term),
        0 <= i < index[term].len(),
        0 <= j < index[term][i].1.len(),
        has_key(documents, index[term][i].1[j].0),
    ensures
        vacuumed(index, documents).contains_key(term),
        exists|k: int|
            0 <= k < vacuumed(index, documents)[term].len() && (#[trigger] vacuumed(
                index,
                documents,
            )[term][k]).0 == index[term][i].0 && vacuumed(index, documents)[term][k].1.contains(
                index[term][i].1[j],
            ),
{
    let data = index[term];
    let v = vacuumed(index, documents);
    if has_stale(data, documents) {
        lemma_live_postings_keep(data, documents, i, j);
        let live = live_postings(data, documents);
        let k = choose|k: int|
            0 <= k < live.len() && (#[trigger] live[k]).0 == data[i].0 && live[k].1.contains(
                data[i].1[j],
            );
        assert(v.contains_key(term));
        assert(v[term] == live);
        assert(v[term][k] == live[k]);
    } else {
        assert(data[i].1[j] == data[i].1[j]);
        assert(data[i].1.contains(data[i].1[j]));
        assert(v.contains_key(term));
        assert(v[term] == data);
        assert(v[term][i] == data[i]);
    }
}

/// No term's postings refer to a document that is not indexed.
pub open spec fn no_stale(index: Map<Seq<char>, Postings>, documents: Seq<(u32, Seq<char>)>) -> bool {
    forall|t: Seq<char>| #[trigger] index.contains_key(t) ==> !has_stale(index[t], documents)
}

/// A vacuum keeps no term that was not there.
proof fn lemma_vacuumed_smaller(index: Map<Seq<char>, Postings>, documents: Seq<(u32, Seq<char>)>)
    ensures
        vacuumed(index, documents).dom().subset_of(index.dom()),
        no_stale(index, documents) ==> vacuumed(index, documents) == index,
{
    if no_stale(index, documents) {
        assert(vacuumed(index, documents) =~= index);
    }
}

/// Vacuuming twice is vacuuming once: the second finds nothing to take
/// away.
pub proof fn lemma_vacuumed_idempotent(index: Map<Seq<char>, Postings>, documents: Seq<(u32, Seq<char>)>)
    ensures
        vacuumed(vacuumed(index, documents), documents) == vacuumed(index, documents),
        vacuumed(index, documents).dom().subset_of(index.dom()),
{
    lemma_vacuumed_has_no_stale(index, documents);
    lemma_vacuumed_smaller(vacuumed(index, documents), documents);
    lemma_vacuumed_smaller(index, documents);
}

proof fn lemma_live_docs_from(docs: Seq<(u32, u32)>, documents: Seq<(u32, Seq<char>)>)
    ensures
        forall|i: int|
            0 <= i < live_docs(docs, documents).len() ==> exists|j: int|
                0 <= j < docs.len() && docs[j] == #[trigger] live_docs(docs, documents)[i],
    decreases docs.len(),
{
    if docs.len() > 0 {
        lemma_live_docs_from(docs.drop_last(), documents);
        let before = live_docs(docs.drop_last(), documents);
        let now = live_docs(docs, documents);
        assert forall|i: int| 0 <= i < now.len() implies exists|j: int|
            0 <= j < docs.len() && docs[j] == #[trigger] now[i] by {
            if i < before.len() {
                assert(now[i] == before[i]);
                let j = choose|j: int| 0 <= j < docs.drop_last().len() && docs.drop_last()[j] == before[i];
                assert(docs[j] == docs.drop_last()[j]);
            } else {
                assert(now[i] == docs[docs.len() - 1]);
            }
        }
    }
}

proof fn lemma_live_postings_from(data: Postings, documents: Seq<(u32, Seq<char>)>)
    ensures
        forall|i: int|
            0 <= i < live_postings(data, documents).len() ==> exists|j: int|
                0 <= j < data.len() && data[j].0 == (#[trigger] live_postings(data, documents)[i]).0,
    decreases data.len(),
{
    if data.len() > 0 {
        lemma_live_postings_from(data.drop_last(), documents);
        let before = live_postings(data.drop_last(), documents);
        let now = live_postings(data, documents);
        assert forall|i: int| 0 <= i < now.len() implies exists|j: int|
            0 <= j < data.len() && data[j].0 == (#[trigger] now[i]).0 by {
            if i < before.len() {
                assert(now[i] == before[i]);
                let j = choose|j: int| 0 <= j < data.drop_last().len() && data.drop_last()[j].0 == before[i].0;
                assert(data[j] == data.drop_last()[j]);
            } else {
                assert(now[i].0 == data[data.len() - 1].0);
            }
        }
    }
}

/// Writes `n` as a quoted JSON object key.
#[verifier::spinoff_prover]
fn write_key(out: &mut String, n: u64)
    ensures
        final(out)@ == old(out)@ + json_quoted(decimal(n as nat)),
{
    let mut key = String::new();
    push_decimal(&mut key, n);
    json_string_to(out, key.as_str());
}

/// Writes the items, each already JSON, as a JSON array.
#[verifier::spinoff_prover]
fn write_array(out: &mut String, items: &Vec<String>)
    ensures
        final(out)@ == old(out)@ + json_array(views(items@)),
{
    let ghost all = views(items@);
    let ghost start = out@;
    push_char(out, '[');
    let mut i: usize = 0;
    proof {
        assert(all.take(0) =~= Seq::<Seq<char>>::empty());
    }
    while i < items.len()
        invariant
            all == views(items@),
            i <= items@.len(),
            out@ == start + seq!['['] + members(all.take(i as int)),
        decreases items@.len() - i,
    {
        proof {
            lemma_members_step(all, i as int);
        }
        push_separator(out, i);
        out.append(items[i].as_str());
        proof {
            assert(out@ =~= start + seq!['['] + members(all.take(i + 1)));
        }
        i = i + 1;
    }
    push_char(out, ']');
    proof {
        assert(all.take(items@.len() as int) =~= all);
    }
}

/// Writes the postings of a term as a JSON object: field ID, then document
/// ID, to frequency.
#[verifier::spinoff_prover]
fn write_postings(out: &mut String, data: &FieldTermData)
    requires
        postings_wf(*data),
    ensures
        final(out)@ == old(out)@ + json_object(
            postings_view(*data).map_values(|field: (u32, Seq<(u32, u32)>)| field_member(field)),
        ),
{
    let ghost pv = postings_view(*data);
    let ghost items = pv.map_values(|field: (u32, Seq<(u32, u32)>)| field_member(field));
    let ghost start = out@;
    let fields = data.as_slice();
    push_char(out, '{');
    let mut i: usize = 0;
    proof {
        assert(items.take(0) =~= Seq::<Seq<char>>::empty());
    }
    while i < fields.len()
        invariant
            fields@ == data@,
            pv == postings_view(*data),
            items == pv.map_values(|field: (u32, Seq<(u32, u32)>)| field_member(field)),
            i <= fields@.len(),
            out@ == start + seq!['{'] + members(items.take(i as int)),
        decreases fields@.len() - i,
    {
        proof {
            lemma_members_step(items, i as int);
        }
        push_separator(out, i);
        write_key(out, fields[i].0 as u64);
        push_char(out, ':');
        let docs = fields[i].1.as_slice();
        let ghost dv = docs@;
        let ghost inner = dv.map_values(|doc: (u32, u32)| freq_member(doc));
        let ghost mid = out@;
        push_char(out, '{');
        let mut j: usize = 0;
        proof {
            assert(inner.take(0) =~= Seq::<Seq<char>>::empty());
        }
        while j < docs.len()
            invariant
                dv == docs@,
                inner == dv.map_values(|doc: (u32, u32)| freq_member(doc)),
                j <= docs@.len(),
                out@ == mid + seq!['{'] + members(inner.take(j as int)),
            decreases docs@.len() - j,
        {
            proof {
                lemma_members_step(inner, j as int);
            }
            push_separator(out, j);
            write_key(out, docs[j].0 as u64);
            push_char(out, ':');
            push_decimal(out, docs[j].1 as u64);
            proof {
                assert(out@ =~= mid + seq!['{'] + members(inner.take(j + 1)));
            }
            j = j + 1;
        }
        push_char(out, '}');
        proof {
            assert(inner.take(docs@.len() as int) =~= inner);
            assert(pv[i as int] == (fields@[i as int].0, dv));
            assert(out@ =~= start + seq!['{'] + members(items.take(i + 1)));
        }
        i = i + 1;
    }
    push_char(out, '}');
    proof {
        assert(items.take(fields@.len() as int) =~= items);
    }
}

proof fn lemma_term_postings_empty(
    fields: Seq<Seq<char>>,
    count: int,
    table: Seq<(Seq<char>, u32)>,
    documents: Seq<(u32, Seq<char>)>,
    lengths: Seq<(u32, Seq<Option<u32>>)>,
)
    ensures
        term_postings(Seq::empty(), fields, count, table, documents, lengths) == (
            Seq::<Match>::empty(),
            Seq::<(u32, u32)>::empty(),
        ),
    decreases count,
{
    if count > 0 {
        lemma_term_postings_empty(fields, count - 1, table, documents, lengths);
    }
}

/// Writes interned terms as a JSON array of strings.
#[verifier::spinoff_prover]
fn write_term_array(out: &mut String, ids: &Vec<u16>, interner: &Interner)
    requires
        interner.wf(),
        forall|i: int| 0 <= i < ids@.len() ==> ((#[trigger] ids@[i]) as int) < interner.terms().len(),
    ensures
        final(out)@ == old(out)@ + json_array(quoted_terms(ids@, interner.terms())),
{
    let ghost items = quoted_terms(ids@, interner.terms());
    let ghost start = out@;
    push_char(out, '[');
    let mut i: usize = 0;
    proof {
        assert(items.take(0) =~= Seq::<Seq<char>>::empty());
    }
    while i < ids.len()
        invariant
            interner.wf(),
            forall|k: int| 0 <= k < ids@.len() ==> ((#[trigger] ids@[k]) as int) < interner.terms().len(),
            items == quoted_terms(ids@, interner.terms()),
            i <= ids@.len(),
            out@ == start + seq!['['] + members(items.take(i as int)),
        decreases ids@.len() - i,
    {
        proof {
            lemma_members_step(items, i as int);
        }
        push_separator(out, i);
        json_string_to(out, interner.resolve(ids[i]));
        proof {
            assert(out@ =~= start + seq!['['] + members(items.take(i + 1)));
        }
        i = i + 1;
    }
    push_char(out, ']');
    proof {
        assert(items.take(ids@.len() as int) =~= items);
    }
}

/// Writes the matched document terms as a JSON array of strings.
#[verifier::spinoff_prover]
fn write_term_array_of_matches(out: &mut String, matches: &Vec<(u16, Vec<u32>)>, interner: &Interner)
    requires
        interner.wf(),
        forall|i: int| 0 <= i < matches@.len() ==> ((#[trigger] matches_view(matches@)[i]).0 as int)
            < interner.terms().len(),
    ensures
        final(out)@ == old(out)@ + json_array(
            quoted_terms(
                matches_view(matches@).map_values(|entry: (u16, Seq<u32>)| entry.0),
                interner.terms(),
            ),
        ),
{
    let mut ids: Vec<u16> = Vec::new();
    let mut i: usize = 0;
    while i < matches.len()
        invariant
            i <= matches@.len(),
            ids@ == matches_view(matches@).take(i as int).map_values(|entry: (u16, Seq<u32>)| entry.0),
        decreases matches@.len() - i,
    {
        ids.push(matches[i].0);
        proof {
            assert(ids@ =~= matches_view(matches@).take(i + 1).map_values(|entry: (u16, Seq<u32>)| entry.0));
        }
        i = i + 1;
    }
    proof {
        assert(matches_view(matches@).take(matches@.len() as int) =~= matches_view(matches@));
        assert forall|k: int| 0 <= k < ids@.len() implies ((#[trigger] ids@[k]) as int) < interner.terms().len() by {
            assert(ids@[k] == matches_view(matches@)[k].0);
        }
    }
    write_term_array(out, &ids, interner);
}

/// A copy of a list of stored values.
#[verifier::spinoff_prover]
fn copy_stored(values: &Vec<(u16, String)>) -> (copy: Vec<(u16, String)>)
    ensures
        stored_view(copy@) == stored_view(values@),
{
    let mut copy: Vec<(u16, String)> = Vec::new();
    let mut i: usize = 0;
    while i < values.len()
        invariant
            i <= values@.len(),
            stored_view(copy@) == stored_view(values@.take(i as int)),
        decreases values@.len() - i,
    {
        let entry = &values[i];
        let ghost before = copy@;
        copy.push((entry.0, entry.1.clone()));
        proof {
            assert(copy@ == before.push((values@[i as int].0, values@[i as int].1)));
            assert(stored_view(values@.take(i + 1)) =~= stored_view(values@.take(i as int)).push(
                (values@[i as int].0, values@[i as int].1@),
            ));
            assert(stored_view(copy@) =~= stored_view(values@.take(i + 1)));
        }
        i = i + 1;
    }
    proof {
        assert(values@.take(values@.len() as int) =~= values@);
    }
    copy
}

/// A warning as plain values: the document ID's JSON text, the term and the
/// field name.
pub type WarningView = (Option<Seq<char>>, Seq<char>, Seq<char>);

pub open spec fn warning_view(warning: Warning) -> WarningView {
    (opt_view(warning.document_id), warning.term@, warning.field@)
}

/// The warning for a term missing from field `field` of document `doc`, if
/// the field has a name.
pub open spec fn missing_warning(
    fields: Seq<(Seq<char>, u32)>,
    documents: Seq<(u32, Seq<char>)>,
    doc: u32,
    field: u32,
    term: Seq<char>,
) -> Option<WarningView> {
    match field_name_of(fields, field) {
        Some(name) => Some((assoc_get(documents, doc), term, name)),
        None => None,
    }
}

/// The index and warnings after one occurrence of each of `terms` in `field`
/// of `doc` is taken away.
pub open spec fn index_remove_terms(
    index: Map<Seq<char>, Postings>,
    terms: Seq<Seq<char>>,
    field: u32,
    doc: u32,
    fields: Seq<(Seq<char>, u32)>,
    documents: Seq<(u32, Seq<char>)>,
) -> (Map<Seq<char>, Postings>, Seq<WarningView>)
    decreases terms.len(),
{
    if terms.len() == 0 {
        (index, Seq::empty())
    } else {
        let (before, warnings) = index_remove_terms(
            index,
            terms.drop_last(),
            field,
            doc,
            fields,
            documents,
        );
        let term = terms.last();
        let present = before.contains_key(term) && posting_has(before[term], field, doc);
        let warnings = if present {
            warnings
        } else {
            match missing_warning(fields, documents, doc, field, term) {
                Some(warning) => warnings.push(warning),
                None => warnings,
            }
        };
        (index_remove(before, term, field, doc), warnings)
    }
}

/// The index terms in traversal order after `term` leaves the index: as a
/// key leaves the tree.
#[verifier::opaque]
pub open spec fn keys_dropping(keys: Seq<Seq<char>>, term: Seq<char>) -> Seq<Seq<char>> {
    keys_after_remove(keys, Seq::empty(), term)
}

/// `after` is the index terms in traversal order after `term` lost an
/// occurrence in an index whose terms were `before`: unchanged if the term
/// is kept, else as the term leaves the tree.
#[verifier::opaque]
pub open spec fn removal_order(
    before: Seq<Seq<char>>,
    after: Seq<Seq<char>>,
    kept: bool,
    term: Seq<char>,
) -> bool {
    after == if kept {
        before
    } else {
        keys_dropping(before, term)
    }
}

/// Two removals of the same term in a row: the order after both is as
/// after one, since a term that has left stays away.
proof fn lemma_removal_order_step(
    k0: Seq<Seq<char>>,
    k1: Seq<Seq<char>>,
    k2: Seq<Seq<char>>,
    kept1: bool,
    kept2: bool,
    term: Seq<char>,
)
    requires
        removal_order(k0, k1, kept1, term),
        removal_order(k1, k2, kept2, term),
        kept2 ==> kept1,
        !kept1 ==> !k1.contains(term),
    ensures
        removal_order(k0, k2, kept2, term),
{
    reveal(removal_order);
    reveal(keys_dropping);
}

/// The index terms in traversal order, with the index, after each of
/// `terms` loses one occurrence in `field` of `doc`: a term whose postings
/// run out leaves the order as a key leaves the tree.
pub open spec fn keys_after_removals(
    keys: Seq<Seq<char>>,
    index: Map<Seq<char>, Postings>,
    terms: Seq<Seq<char>>,
    field: u32,
    doc: u32,
) -> (Seq<Seq<char>>, Map<Seq<char>, Postings>)
    decreases terms.len(),
{
    if terms.len() == 0 {
        (keys, index)
    } else {
        let (before, map) = keys_after_removals(keys, index, terms.drop_last(), field, doc);
        let term = terms.last();
        let after = index_remove(map, term, field, doc);
        (
            if after.contains_key(term) {
                before
            } else {
                keys_dropping(before, term)
            },
            after,
        )
    }
}

/// The index terms in traversal order, with the index, after the terms of
/// each field text of `doc` are taken away, field by field.
pub open spec fn keys_after_removing_document(
    keys: Seq<Seq<char>>,
    index: Map<Seq<char>, Postings>,
    texts: Seq<(u32, Seq<char>)>,
    doc: u32,
) -> (Seq<Seq<char>>, Map<Seq<char>, Postings>)
    decreases texts.len(),
{
    if texts.len() == 0 {
        (keys, index)
    } else {
        let (before, map) = keys_after_removing_document(keys, index, texts.drop_last(), doc);
        keys_after_removals(before, map, text_terms(texts.last().1), texts.last().0, doc)
    }
}

/// The index that the order of removals follows is the index after them.
proof fn lemma_removals_index(
    keys: Seq<Seq<char>>,
    index: Map<Seq<char>, Postings>,
    terms: Seq<Seq<char>>,
    field: u32,
    doc: u32,
    fields: Seq<(Seq<char>, u32)>,
    documents: Seq<(u32, Seq<char>)>,
)
    ensures
        keys_after_removals(keys, index, terms, field, doc).1 == index_remove_terms(
            index,
            terms,
            field,
            doc,
            fields,
            documents,
        ).0,
    decreases terms.len(),
{
    if terms.len() > 0 {
        lemma_removals_index(keys, index, terms.drop_last(), field, doc, fields, documents);
    }
}

/// The index that the order of a document's removal follows is the index
/// after it.
proof fn lemma_removing_document_index(
    keys: Seq<Seq<char>>,
    index: Map<Seq<char>, Postings>,
    texts: Seq<(u32, Seq<char>)>,
    doc: u32,
    fields: Seq<(Seq<char>, u32)>,
    documents: Seq<(u32, Seq<char>)>,
)
    ensures
        keys_after_removing_document(keys, index, texts, doc).1 == index_remove_document(
            index,
            texts,
            doc,
            fields,
            documents,
        ).0,
    decreases texts.len(),
{
    if texts.len() > 0 {
        lemma_removing_document_index(keys, index, texts.drop_last(), doc, fields, documents);
        let (before, map) = keys_after_removing_document(keys, index, texts.drop_last(), doc);
        lemma_removals_index(
            before,
            map,
            text_terms(texts.last().1),
            texts.last().0,
            doc,
            fields,
            documents,
        );
    }
}

/// The index and warnings after the terms of each field text of `doc` are
/// taken away.
pub open spec fn index_remove_document(
    index: Map<Seq<char>, Postings>,
    texts: Seq<(u32, Seq<char>)>,
    doc: u32,
    fields: Seq<(Seq<char>, u32)>,
    documents: Seq<(u32, Seq<char>)>,
) -> (Map<Seq<char>, Postings>, Seq<WarningView>)
    decreases texts.len(),
{
    if texts.len() == 0 {
        (index, Seq::empty())
    } else {
        let (before, warnings) = index_remove_document(
            index,
            texts.drop_last(),
            doc,
            fields,
            documents,
        );
        let (after, more) = index_remove_terms(
            before,
            text_terms(texts.last().1),
            texts.last().0,
            doc,
            fields,
            documents,
        );
        (after, warnings + more)
    }
}

/// The length changes reported when a document's field texts are removed
/// from the average over `count` documents.
pub open spec fn removed_lengths(texts: Seq<(u32, Seq<char>)>, count: u32) -> Seq<LengthChange> {
    texts.map_values(
        |text: (u32, Seq<char>)|
            LengthChange {
                field_id: text.0,
                count,
                length: distinct_tokens(text.1) as u32,
                added: false,
            },
    )
}

/// The length changes reported when a document with recorded field lengths
/// is discarded from the average over `count` documents: one per recorded
/// length, by position.
pub open spec fn discarded_lengths(lengths: Seq<Option<u32>>, count: u32) -> Seq<LengthChange>
    decreases lengths.len(),
{
    if lengths.len() == 0 {
        Seq::empty()
    } else {
        let before = discarded_lengths(lengths.drop_last(), count);
        match lengths.last() {
            Some(length) => before.push(
                LengthChange {
                    field_id: (lengths.len() - 1) as u32,
                    count,
                    length,
                    added: false,
                },
            ),
            None => before,
        }
    }
}

/// The documents of a posting list that are indexed.
pub open spec fn live_docs(docs: Seq<(u32, u32)>, documents: Seq<(u32, Seq<char>)>) -> Seq<
    (u32, u32),
>
    decreases docs.len(),
{
    if docs.len() == 0 {
        Seq::empty()
    } else {
        let before = live_docs(docs.drop_last(), documents);
        if has_key(documents, docs.last().0) {
            before.push(docs.last())
        } else {
            before
        }
    }
}

/// The postings of a term without the documents that are not indexed; a
/// field left without documents is dropped.
pub open spec fn live_postings(data: Postings, documents: Seq<(u32, Seq<char>)>) -> Postings
    decreases data.len(),
{
    if data.len() == 0 {
        Seq::empty()
    } else {
        let before = live_postings(data.drop_last(), documents);
        let docs = live_docs(data.last().1, documents);
        if docs.len() > 0 || data.last().1.len() == 0 {
            before.push((data.last().0, docs))
        } else {
            before
        }
    }
}

/// Whether the postings refer to a document that is not indexed.
pub open spec fn has_stale(data: Postings, documents: Seq<(u32, Seq<char>)>) -> bool {
    exists|i: int, j: int|
        0 <= i < data.len() && 0 <= j < data[i].1.len() && !has_key(
            documents,
            (#[trigger] data[i].1[j]).0,
        )
}

/// The index without references to documents that are not indexed: the
/// postings of every term that refers to one keep only indexed documents,
/// and such a term left without fields is dropped.
pub open spec fn vacuumed(index: Map<Seq<char>, Postings>, documents: Seq<(u32, Seq<char>)>) -> Map<
    Seq<char>,
    Postings,
> {
    Map::new(
        |term: Seq<char>|
            index.contains_key(term) && (!has_stale(index[term], documents) || live_postings(
                index[term],
                documents,
            ).len() > 0),
        |term: Seq<char>|
            if has_stale(index[term], documents) {
                live_postings(index[term], documents)
            } else {
                index[term]
            },
    )
}

/// The terms of index entries whose postings refer to a document that is
/// not indexed, in the order of the entries, each with whether no indexed
/// document is left in its postings.
pub open spec fn stale_steps(
    entries: Seq<(Seq<char>, Postings)>,
    documents: Seq<(u32, Seq<char>)>,
) -> Seq<(Seq<char>, bool)>
    decreases entries.len(),
{
    if entries.len() == 0 {
        Seq::empty()
    } else {
        let rest = stale_steps(entries.drop_last(), documents);
        let (term, data) = entries.last();
        if has_stale(data, documents) {
            rest.push((term, live_postings(data, documents).len() == 0))
        } else {
            rest
        }
    }
}

/// The index terms in traversal order after the stale terms of `steps`
/// are cleaned up, first to last: a term left without postings leaves as a
/// key leaves the tree, the others keep their place.
pub open spec fn keys_after_vacuum(keys: Seq<Seq<char>>, steps: Seq<(Seq<char>, bool)>) -> Seq<
    Seq<char>,
>
    decreases steps.len(),
{
    if steps.len() == 0 {
        keys
    } else {
        let before = keys_after_vacuum(keys, steps.drop_last());
        if steps.last().1 {
            keys_dropping(before, steps.last().0)
        } else {
            before
        }
    }
}

/// The items of `items` in the opposite order.
fn reversed<T>(items: Vec<T>) -> (result: Vec<T>)
    ensures
        result@.len() == items@.len(),
        forall|i: int| 0 <= i < items@.len() ==> #[trigger] result@[i] == items@[items@.len() - 1 - i],
{
    let ghost all = items@;
    let mut items = items;
    let mut result: Vec<T> = Vec::new();
    while items.len() > 0
        invariant
            items@ == all.take(items@.len() as int),
            items@.len() + result@.len() == all.len(),
            forall|i: int| 0 <= i < result@.len() ==> #[trigger] result@[i] == all[all.len() - 1 - i],
        decreases items@.len(),
    {
        let ghost m = items@.len() as int;
        let item = items.pop().unwrap();
        proof {
            assert(all.take(m - 1) =~= all.take(m).drop_last());
        }
        result.push(item);
    }
    result
}

/// One more stale term cleaned up: the order is that after the steps so
/// far.
proof fn lemma_vacuum_step(
    keys: Seq<Seq<char>>,
    steps: Seq<(Seq<char>, bool)>,
    p: int,
    before: Seq<Seq<char>>,
    after: Seq<Seq<char>>,
)
    requires
        0 <= p < steps.len(),
        before == keys_after_vacuum(keys, steps.take(p)),
        after == if steps[p].1 {
            keys_dropping(before, steps[p].0)
        } else {
            before
        },
    ensures
        after == keys_after_vacuum(keys, steps.take(p + 1)),
{
    assert(steps.take(p + 1).drop_last() =~= steps.take(p));
    assert(steps.take(p + 1).last() == steps[p]);
}

/// A stale term with its reduced postings, as a step of the clean-up.
pub open spec fn change_step(change: (String, FieldTermData)) -> (Seq<char>, bool) {
    (change.0@, change.1@.len() == 0)
}

/// A field length as JSON.
pub open spec fn length_text(length: Option<u32>) -> Seq<char> {
    match length {
        Some(n) => decimal(n as nat),
        None => "null"@,
    }
}

/// The member for a document ID.
pub open spec fn id_member(entry: (u32, Seq<char>)) -> Seq<char> {
    json_member(decimal(entry.0 as nat), entry.1)
}

/// The member for a field ID.
pub open spec fn field_id_member(entry: (Seq<char>, u32)) -> Seq<char> {
    json_member(entry.0, decimal(entry.1 as nat))
}

/// The member for the field lengths of a document.
pub open spec fn lengths_member(entry: (u32, Seq<Option<u32>>)) -> Seq<char> {
    json_member(
        decimal(entry.0 as nat),
        json_array(entry.1.map_values(|length: Option<u32>| length_text(length))),
    )
}

/// The member for the stored fields of a document.
pub open spec fn stored_member(entry: (u32, Seq<(u16, Seq<char>)>), names: Seq<Seq<char>>) -> Seq<
    char,
> {
    json_member(
        decimal(entry.0 as nat),
        json_object(
            entry.1.map_values(|value: (u16, Seq<char>)| json_member(names[value.0 as int], value.1)),
        ),
    )
}

/// The member for the frequency of a term in a document.
pub open spec fn freq_member(entry: (u32, u32)) -> Seq<char> {
    json_member(decimal(entry.0 as nat), decimal(entry.1 as nat))
}

/// The member for the documents of a term in a field.
pub open spec fn field_member(entry: (u32, Seq<(u32, u32)>)) -> Seq<char> {
    json_member(
        decimal(entry.0 as nat),
        json_object(entry.1.map_values(|doc: (u32, u32)| freq_member(doc))),
    )
}

/// The item for a term and its postings.
pub open spec fn term_item(entry: (Seq<char>, Postings)) -> Seq<char> {
    seq!['['] + json_quoted(entry.0) + seq![','] + json_object(
        entry.1.map_values(|field: (u32, Seq<(u32, u32)>)| field_member(field)),
    ) + seq![']']
}

/// An ASCII decimal digit.
pub open spec fn is_digit(c: char) -> bool {
    '0' <= c && c <= '9'
}

/// The value of a sequence of decimal digits.
pub open spec fn digits_value(digits: Seq<char>) -> nat
    decreases digits.len(),
{
    if digits.len() == 0 {
        0
    } else {
        digits_value(digits.drop_last()) * 10 + ((digits.last() as int - 48) as nat)
    }
}

/// The text of an unsigned number without its optional leading `+`.
pub open spec fn unsigned_digits(text: Seq<char>) -> Seq<char> {
    if text.len() > 0 && text[0] == '+' {
        text.skip(1)
    } else {
        text
    }
}

/// The `u32` that `text` denotes, as `str::parse` reads it: an optional `+`
/// then at least one decimal digit, with a value that fits.
pub open spec fn parsed_u32(text: Seq<char>) -> Option<u32> {
    let digits = unsigned_digits(text);
    if digits.len() > 0 && (forall|i: int| 0 <= i < digits.len() ==> is_digit(#[trigger] digits[i]))
        && digits_value(digits) <= u32::MAX {
        Some(digits_value(digits) as u32)
    } else {
        None
    }
}

proof fn lemma_digits_value_grows(digits: Seq<char>, count: int)
    requires
        0 <= count <= digits.len(),
        forall|i: int| 0 <= i < digits.len() ==> is_digit(#[trigger] digits[i]),
    ensures
        digits_value(digits.take(count)) <= digits_value(digits),
    decreases digits.len(),
{
    if count < digits.len() {
        assert(digits.drop_last().take(count) =~= digits.take(count));
        lemma_digits_value_grows(digits.drop_last(), count);
    } else {
        assert(digits.take(count) =~= digits);
    }
}

/// The `u32` that `text` denotes, if any.
#[verifier::spinoff_prover]
fn parse_u32(text: &str) -> (value: Option<u32>)
    ensures
        value == parsed_u32(text@),
{
    let chars = crate::text::chars_of(text);
    let start: usize = if chars.len() > 0 && chars[0] == '+' {
        1
    } else {
        0
    };
    let ghost digits = unsigned_digits(chars@);
    proof {
        assert(digits =~= chars@.skip(start as int));
    }
    if start == chars.len() {
        return None;
    }
    let mut value: u64 = 0;
    let mut i: usize = start;
    proof {
        assert(digits.take(0) =~= Seq::<char>::empty());
    }
    while i < chars.len()
        invariant
            start <= i <= chars@.len(),
            chars@ == text@,
            digits == unsigned_digits(text@),
            digits == chars@.skip(start as int),
            value == digits_value(digits.take(i - start)),
            value <= u32::MAX,
            forall|j: int| 0 <= j < i - start ==> is_digit(#[trigger] digits[j]),
        decreases chars@.len() - i,
    {
        let c = chars[i];
        proof {
            assert(digits[i - start] == c);
            assert(digits.take(i - start + 1).drop_last() =~= digits.take(i - start));
        }
        if !('0' <= c && c <= '9') {
            proof {
                assert(!is_digit(digits[i - start]));
                assert(digits == unsigned_digits(text@));
            }
            return None;
        }
        let d = (c as u32 - 48) as u64;
        value = value * 10 + d;
        if value > 0xFFFF_FFFF {
            proof {
                assert(digits == unsigned_digits(text@));
                assert(value == digits_value(digits.take(i - start + 1)));
                if forall|j: int| 0 <= j < digits.len() ==> is_digit(#[trigger] digits[j]) {
                    lemma_digits_value_grows(digits, i - start + 1);
                }
            }
            return None;
        }
        i = i + 1;
    }
    proof {
        assert(digits.take(digits.len() as int) =~= digits);
    }
    Some(value as u32)
}

/// Parses a short document ID of a serialized index.
#[verifier::spinoff_prover]
pub fn parse_short_id(text: &str) -> (id: Result<u32, EngineError>)
    ensures
        match id {
            Ok(n) => parsed_u32(text@) == Some(n),
            Err(e) => parsed_u32(text@) is None && e == EngineError::InvalidDocumentId,
        },
{
    match parse_u32(text) {
        Some(n) => Ok(n),
        None => Err(EngineError::InvalidDocumentId),
    }
}

/// The documents of a term in one field of a serialized index: each short
/// ID's text with the frequency, if it is an unsigned integer.
pub type FreqList = Vec<(String, Option<u64>)>;

/// The entry for one field of a term in a serialized index.
pub struct FieldEntry {
    /// The field ID's text.
    pub field_id: String,
    /// The entry's members, if it is an object.
    pub freqs: Option<FreqList>,
    /// The members of its `ds` member, if it has one: `Some(None)` when that
    /// member is not an object. Version 1 nests the frequencies there.
    pub ds: Option<Option<FreqList>>,
}

/// An element of the `index` array of a serialized index.
pub struct IndexEntry {
    /// Its first element, if it is a string.
    pub term: Option<String>,
    /// The members of its second element, if it is an object.
    pub fields: Option<Vec<FieldEntry>>,
}

/// A serialized index as plain values: each member that is present and of
/// the expected JSON type, objects as their members in order.
pub struct SerializedIndex {
    pub version: Option<u64>,
    pub document_count: Option<u64>,
    pub next_id: Option<u64>,
    pub dirt_count: Option<u64>,
    pub document_ids: Option<Vec<(String, DocumentId)>>,
    /// Each list of field lengths, if it is an array: an item is `None`
    /// unless it is an unsigned integer.
    pub field_length: Option<Vec<(String, Option<Vec<Option<u64>>>)>>,
    /// The stored fields of each document, if they are an object.
    pub stored_fields: Option<Vec<(String, Option<Vec<(String, String)>>)>>,
    pub field_ids: Option<Vec<(String, Option<u64>)>>,
    /// The index entries: `None` for one that is not an array.
    pub index: Option<Vec<Option<IndexEntry>>>,
}

/// Whether a serialized index of this version can be loaded.
pub open spec fn supported(version: Option<u64>) -> bool {
    version == Some(1u64) || version == Some(2u64)
}

/// Whether a serialized index of this version can be loaded.
#[verifier::spinoff_prover]
pub fn supported_version(version: Option<u64>) -> (supported_now: bool)
    ensures
        supported_now == supported(version),
{
    match version {
        Some(v) => v == 1 || v == 2,
        None => false,
    }
}

/// The documents and short IDs read from the `documentIds` members.
pub open spec fn load_ids(list: Seq<(String, DocumentId)>) -> Result<
    (Seq<(u32, Seq<char>)>, Seq<(IdKey, u32)>),
    EngineError,
>
    decreases list.len(),
{
    if list.len() == 0 {
        Ok((Seq::empty(), Seq::empty()))
    } else {
        match load_ids(list.drop_last()) {
            Err(e) => Err(e),
            Ok((docs, ids)) => match parsed_u32(list.last().0@) {
                None => Err(EngineError::InvalidDocumentId),
                Some(short_id) => Ok(
                    (
                        assoc_set(docs, short_id, list.last().1.json@),
                        assoc_set(ids, list.last().1.key, short_id),
                    ),
                ),
            },
        }
    }
}

/// A list of field lengths read from a serialized index.
pub open spec fn loaded_lengths(items: Option<Vec<Option<u64>>>) -> Seq<Option<u32>> {
    match items {
        Some(items) => items@.map_values(
            |item: Option<u64>|
                match item {
                    Some(n) => Some(n as u32),
                    None => None,
                },
        ),
        None => Seq::empty(),
    }
}

/// The field lengths read from the `fieldLength` members.
pub open spec fn load_lengths(list: Seq<(String, Option<Vec<Option<u64>>>)>) -> Result<
    Seq<(u32, Seq<Option<u32>>)>,
    EngineError,
>
    decreases list.len(),
{
    if list.len() == 0 {
        Ok(Seq::empty())
    } else {
        match load_lengths(list.drop_last()) {
            Err(e) => Err(e),
            Ok(table) => match parsed_u32(list.last().0@) {
                None => Err(EngineError::InvalidDocumentId),
                Some(short_id) => Ok(assoc_set(table, short_id, loaded_lengths(list.last().1))),
            },
        }
    }
}

/// The ID of a stored-field name, and the names with it added if it is new.
pub open spec fn name_id(names: Seq<Seq<char>>, name: Seq<char>) -> (u16, Seq<Seq<char>>) {
    if exists|i: int| 0 <= i < names.len() && names[i] == name {
        let i = choose|i: int|
            0 <= i < names.len() && names[i] == name && forall|j: int|
                0 <= j < i ==> names[j] != name;
        (i as u16, names)
    } else {
        (names.len() as u16, names.push(name))
    }
}

/// The stored values of one document read from a serialized index, and the
/// names with those it introduces.
pub open spec fn load_values(values: Seq<(String, String)>, names: Seq<Seq<char>>) -> (
    Seq<(u16, Seq<char>)>,
    Seq<Seq<char>>,
)
    decreases values.len(),
{
    if values.len() == 0 {
        (Seq::empty(), names)
    } else {
        let (entries, names) = load_values(values.drop_last(), names);
        let (id, names) = name_id(names, values.last().0@);
        (assoc_set(entries, id, values.last().1@), names)
    }
}

/// The stored fields read from the `storedFields` members, and the names.
pub open spec fn load_stored(
    list: Seq<(String, Option<Vec<(String, String)>>)>,
    names: Seq<Seq<char>>,
) -> Result<(Seq<(u32, Seq<(u16, Seq<char>)>)>, Seq<Seq<char>>), EngineError>
    decreases list.len(),
{
    if list.len() == 0 {
        Ok((Seq::empty(), names))
    } else {
        match load_stored(list.drop_last(), names) {
            Err(e) => Err(e),
            Ok((table, names)) => match list.last().1 {
                None => Ok((table, names)),
                Some(values) => match parsed_u32(list.last().0@) {
                    None => Err(EngineError::InvalidDocumentId),
                    Some(short_id) => {
                        let (entries, names) = load_values(values@, names);
                        Ok((assoc_set(table, short_id, entries), names))
                    },
                },
            },
        }
    }
}

/// The field IDs read from the `fieldIds` members.
pub open spec fn load_field_ids(list: Seq<(String, Option<u64>)>) -> Result<
    Seq<(Seq<char>, u32)>,
    EngineError,
>
    decreases list.len(),
{
    if list.len() == 0 {
        Ok(Seq::empty())
    } else {
        match load_field_ids(list.drop_last()) {
            Err(e) => Err(e),
            Ok(table) => match list.last().1 {
                None => Err(EngineError::InvalidFieldId),
                Some(id) => Ok(assoc_set(table, list.last().0@, id as u32)),
            },
        }
    }
}

/// The documents of a term in a field read from a serialized index; a
/// frequency that is not an unsigned integer counts as 0.
pub open spec fn load_freqs(list: Seq<(String, Option<u64>)>) -> Result<Seq<(u32, u32)>, EngineError>
    decreases list.len(),
{
    if list.len() == 0 {
        Ok(Seq::empty())
    } else {
        match load_freqs(list.drop_last()) {
            Err(e) => Err(e),
            Ok(docs) => match parsed_u32(list.last().0@) {
                None => Err(EngineError::InvalidDocumentId),
                Some(doc) => Ok(
                    assoc_set(
                        docs,
                        doc,
                        (match list.last().1 {
                            Some(n) => n,
                            None => 0,
                        }) as u32,
                    ),
                ),
            },
        }
    }
}

/// The frequencies of a field entry: in version 1, those of its `ds`
/// member when it has one.
pub open spec fn chosen_freqs(entry: FieldEntry, version: Option<u64>) -> Option<FreqList> {
    if version == Some(1u64) {
        match entry.ds {
            Some(ds) => ds,
            None => entry.freqs,
        }
    } else {
        entry.freqs
    }
}

/// The postings of a term read from a serialized index; an entry whose
/// frequencies are not an object is skipped.
pub open spec fn load_fields(list: Seq<FieldEntry>, version: Option<u64>) -> Result<
    Postings,
    EngineError,
>
    decreases list.len(),
{
    if list.len() == 0 {
        Ok(Seq::empty())
    } else {
        match load_fields(list.drop_last(), version) {
            Err(e) => Err(e),
            Ok(data) => match parsed_u32(list.last().field_id@) {
                None => Err(EngineError::InvalidFieldId),
                Some(field) => match chosen_freqs(list.last(), version) {
                    None => Ok(data),
                    Some(freqs) => match load_freqs(freqs@) {
                        Err(e) => Err(e),
                        Ok(docs) => Ok(assoc_set(data, field, docs)),
                    },
                },
            },
        }
    }
}

/// The index read from the `index` array.
pub open spec fn load_index(list: Seq<Option<IndexEntry>>, version: Option<u64>) -> Result<
    Map<Seq<char>, Postings>,
    EngineError,
>
    decreases list.len(),
{
    if list.len() == 0 {
        Ok(Map::empty())
    } else {
        match load_index(list.drop_last(), version) {
            Err(e) => Err(e),
            Ok(index) => match list.last() {
                Some(IndexEntry { term: Some(term), fields: Some(fields) }) => match load_fields(
                    fields@,
                    version,
                ) {
                    Err(e) => Err(e),
                    Ok(data) => Ok(index.insert(term@, data)),
                },
                _ => Err(EngineError::InvalidIndexEntry),
            },
        }
    }
}

/// The terms of the entries of a serialized index, in order.
pub open spec fn loaded_terms(list: Seq<Option<IndexEntry>>) -> Seq<Seq<char>>
    decreases list.len(),
{
    if list.len() == 0 {
        Seq::empty()
    } else {
        loaded_terms(list.drop_last()) + match list.last() {
            Some(IndexEntry { term: Some(term), fields: _ }) => seq![term@],
            _ => Seq::empty(),
        }
    }
}

/// The index terms of a loaded index, in traversal order: its terms added
/// one after the other, in the order of its entries.
pub open spec fn parts_terms(parts: SerializedIndex) -> Seq<Seq<char>> {
    match parts.index {
        Some(list) => keys_with_terms(Seq::empty(), loaded_terms(list@)),
        None => Seq::empty(),
    }
}

/// The documents and short IDs of a serialized index.
pub open spec fn parts_ids(parts: SerializedIndex) -> Result<
    (Seq<(u32, Seq<char>)>, Seq<(IdKey, u32)>),
    EngineError,
> {
    match parts.document_ids {
        Some(list) => load_ids(list@),
        None => Ok((Seq::empty(), Seq::empty())),
    }
}

/// The field lengths of a serialized index.
pub open spec fn parts_lengths(parts: SerializedIndex) -> Result<
    Seq<(u32, Seq<Option<u32>>)>,
    EngineError,
> {
    match parts.field_length {
        Some(list) => load_lengths(list@),
        None => Ok(Seq::empty()),
    }
}

/// The stored fields of a serialized index, with the stored-field names.
pub open spec fn parts_stored(parts: SerializedIndex, names: Seq<Seq<char>>) -> Result<
    (Seq<(u32, Seq<(u16, Seq<char>)>)>, Seq<Seq<char>>),
    EngineError,
> {
    match parts.stored_fields {
        Some(list) => load_stored(list@, names),
        None => Ok((Seq::empty(), names)),
    }
}

/// The field IDs of a serialized index, or `default` if it has none.
pub open spec fn parts_field_ids(parts: SerializedIndex, default: Seq<(Seq<char>, u32)>) -> Result<
    Seq<(Seq<char>, u32)>,
    EngineError,
> {
    match parts.field_ids {
        Some(list) => load_field_ids(list@),
        None => Ok(default),
    }
}

/// The inverted index of a serialized index.
pub open spec fn parts_index(parts: SerializedIndex) -> Result<Map<Seq<char>, Postings>, EngineError> {
    match parts.index {
        Some(list) => load_index(list@, parts.version),
        None => Ok(Map::empty()),
    }
}

/// The first reason to refuse a serialized index, in the order it is read.
pub open spec fn load_error(parts: SerializedIndex, names: Seq<Seq<char>>) -> Option<EngineError> {
    if !supported(parts.version) {
        Some(EngineError::IncompatibleVersion)
    } else if let Err(e) = parts_ids(parts) {
        Some(e)
    } else if let Err(e) = parts_lengths(parts) {
        Some(e)
    } else if let Err(e) = parts_stored(parts, names) {
        Some(e)
    } else if let Err(e) = parts_field_ids(parts, Seq::empty()) {
        Some(e)
    } else if let Err(e) = parts_index(parts) {
        Some(e)
    } else {
        None
    }
}

/// A count read from a serialized index: 0 when absent.
pub open spec fn loaded_count(count: Option<u64>) -> u32 {
    (match count {
        Some(n) => n,
        None => 0,
    }) as u32
}

proof fn lemma_load_ids_err(list: Seq<(String, DocumentId)>, count: int)
    requires
        0 <= count <= list.len(),
        load_ids(list.take(count)) is Err,
    ensures
        load_ids(list) == load_ids(list.take(count)),
    decreases list.len(),
{
    if count < list.len() {
        assert(list.drop_last().take(count) =~= list.take(count));
        lemma_load_ids_err(list.drop_last(), count);
    } else {
        assert(list.take(count) =~= list);
    }
}

proof fn lemma_load_lengths_err(list: Seq<(String, Option<Vec<Option<u64>>>)>, count: int)
    requires
        0 <= count <= list.len(),
        load_lengths(list.take(count)) is Err,
    ensures
        load_lengths(list) == load_lengths(list.take(count)),
    decreases list.len(),
{
    if count < list.len() {
        assert(list.drop_last().take(count) =~= list.take(count));
        lemma_load_lengths_err(list.drop_last(), count);
    } else {
        assert(list.take(count) =~= list);
    }
}

proof fn lemma_load_stored_err(
    list: Seq<(String, Option<Vec<(String, String)>>)>,
    names: Seq<Seq<char>>,
    count: int,
)
    requires
        0 <= count <= list.len(),
        load_stored(list.take(count), names) is Err,
    ensures
        load_stored(list, names) == load_stored(list.take(count), names),
    decreases list.len(),
{
    if count < list.len() {
        assert(list.drop_last().take(count) =~= list.take(count));
        lemma_load_stored_err(list.drop_last(), names, count);
    } else {
        assert(list.take(count) =~= list);
    }
}

proof fn lemma_load_field_ids_err(list: Seq<(String, Option<u64>)>, count: int)
    requires
        0 <= count <= list.len(),
        load_field_ids(list.take(count)) is Err,
    ensures
        load_field_ids(list) == load_field_ids(list.take(count)),
    decreases list.len(),
{
    if count < list.len() {
        assert(list.drop_last().take(count) =~= list.take(count));
        lemma_load_field_ids_err(list.drop_last(), count);
    } else {
        assert(list.take(count) =~= list);
    }
}

proof fn lemma_load_freqs_err(list: Seq<(String, Option<u64>)>, count: int)
    requires
        0 <= count <= list.len(),
        load_freqs(list.take(count)) is Err,
    ensures
        load_freqs(list) == load_freqs(list.take(count)),
    decreases list.len(),
{
    if count < list.len() {
        assert(list.drop_last().take(count) =~= list.take(count));
        lemma_load_freqs_err(list.drop_last(), count);
    } else {
        assert(list.take(count) =~= list);
    }
}

proof fn lemma_load_fields_err(list: Seq<FieldEntry>, version: Option<u64>, count: int)
    requires
        0 <= count <= list.len(),
        load_fields(list.take(count), version) is Err,
    ensures
        load_fields(list, version) == load_fields(list.take(count), version),
    decreases list.len(),
{
    if count < list.len() {
        assert(list.drop_last().take(count) =~= list.take(count));
        lemma_load_fields_err(list.drop_last(), version, count);
    } else {
        assert(list.take(count) =~= list);
    }
}

proof fn lemma_load_index_err(list: Seq<Option<IndexEntry>>, version: Option<u64>, count: int)
    requires
        0 <= count <= list.len(),
        load_index(list.take(count), version) is Err,
    ensures
        load_index(list, version) == load_index(list.take(count), version),
    decreases list.len(),
{
    if count < list.len() {
        assert(list.drop_last().take(count) =~= list.take(count));
        lemma_load_index_err(list.drop_last(), version, count);
    } else {
        assert(list.take(count) =~= list);
    }
}

/// The documents of a term in a field read from a serialized index.
#[verifier::spinoff_prover]
fn read_freqs(list: &FreqList) -> (docs: Result<DocFreqs, EngineError>)
    ensures
        match docs {
            Ok(d) => d.wf() && load_freqs(list@) == Ok::<Seq<(u32, u32)>, EngineError>(d@),
            Err(e) => load_freqs(list@) == Err::<Seq<(u32, u32)>, EngineError>(e),
        },
{
    let mut docs: DocFreqs = VecMap::default();
    let mut i: usize = 0;
    proof {
        assert(list@.take(0) =~= Seq::<(String, Option<u64>)>::empty());
    }
    while i < list.len()
        invariant
            i <= list@.len(),
            docs.wf(),
            load_freqs(list@.take(i as int)) == Ok::<Seq<(u32, u32)>, EngineError>(docs@),
        decreases list@.len() - i,
    {
        proof {
            assert(list@.take(i + 1).drop_last() =~= list@.take(i as int));
        }
        let doc = match parse_short_id(list[i].0.as_str()) {
            Ok(doc) => doc,
            Err(e) => {
                proof {
                    lemma_load_freqs_err(list@, i + 1);
                }
                return Err(e);
            },
        };
        let freq = match list[i].1 {
            Some(n) => n,
            None => 0,
        };
        docs.insert(doc, freq as u32);
        i = i + 1;
    }
    proof {
        assert(list@.take(list@.len() as int) =~= list@);
    }
    Ok(docs)
}

/// The postings of a term read from a serialized index.
#[verifier::spinoff_prover]
fn read_fields(list: &Vec<FieldEntry>, version: Option<u64>) -> (data: Result<
    FieldTermData,
    EngineError,
>)
    ensures
        match data {
            Ok(d) => postings_wf(d) && load_fields(list@, version) == Ok::<Postings, EngineError>(
                postings_view(d),
            ),
            Err(e) => load_fields(list@, version) == Err::<Postings, EngineError>(e),
        },
{
    let mut data: FieldTermData = VecMap::default();
    let mut i: usize = 0;
    proof {
        assert(list@.take(0) =~= Seq::<FieldEntry>::empty());
        assert(postings_view(data) =~= Seq::<(u32, Seq<(u32, u32)>)>::empty());
    }
    while i < list.len()
        invariant
            i <= list@.len(),
            postings_wf(data),
            load_fields(list@.take(i as int), version) == Ok::<Postings, EngineError>(
                postings_view(data),
            ),
        decreases list@.len() - i,
    {
        proof {
            assert(list@.take(i + 1).drop_last() =~= list@.take(i as int));
        }
        let entry = &list[i];
        let field_id = match parse_u32(entry.field_id.as_str()) {
            Some(field_id) => field_id,
            None => {
                proof {
                    lemma_load_fields_err(list@, version, i + 1);
                }
                return Err(EngineError::InvalidFieldId);
            },
        };
        let chosen = if version == Some(1u64) {
            match &entry.ds {
                Some(ds) => ds,
                None => &entry.freqs,
            }
        } else {
            &entry.freqs
        };
        assert(*chosen == chosen_freqs(*entry, version));
        match chosen {
            Some(freqs) => {
                let docs = match read_freqs(freqs) {
                    Ok(docs) => docs,
                    Err(e) => {
                        proof {
                            lemma_load_fields_err(list@, version, i + 1);
                        }
                        return Err(e);
                    },
                };
                let ghost before = data;
                proof {
                    lemma_assoc_set_unique(data@, field_id, docs);
                }
                data.insert(field_id, docs);
                proof {
                    lemma_map_second_set(before@, |d: DocFreqs| d@, field_id, docs);
                    assert forall|k: int| 0 <= k < data@.len() implies (#[trigger] data@[k]).1.wf() by {
                        if data@[k].0 != field_id {
                            assert(data@[k] == before@[k]) by {
                                if has_key(before@, field_id) {
                                } else {
                                }
                            }
                        }
                    }
                }
            },
            None => {},
        }
        i = i + 1;
    }
    proof {
        assert(list@.take(list@.len() as int) =~= list@);
    }
    Ok(data)
}

proof fn lemma_u16_truncation_below(n: usize)
    ensures
        (n as u16) as int <= n as int,
{
    assert((n as u16) as usize <= n) by (bit_vector);
}

/// Sets the stored value with name ID `id`, keeping its position if present.
#[verifier::spinoff_prover]
fn set_stored_value(entries: &mut Vec<(u16, String)>, id: u16, json: String)
    requires
        unique_keys(stored_view(old(entries)@)),
    ensures
        stored_view(final(entries)@) == assoc_set(stored_view(old(entries)@), id, json@),
        unique_keys(stored_view(final(entries)@)),
{
    let ghost values = stored_view(entries@);
    let mut position: usize = 0;
    while position < entries.len()
        invariant
            position <= entries@.len(),
            values == stored_view(entries@),
            forall|j: int| 0 <= j < position ==> (#[trigger] values[j]).0 != id,
        ensures
            position <= entries@.len(),
            position < entries@.len() ==> values[position as int].0 == id,
            forall|j: int| 0 <= j < position ==> (#[trigger] values[j]).0 != id,
        decreases entries@.len() - position,
    {
        if entries[position].0 == id {
            break;
        }
        position = position + 1;
    }
    proof {
        lemma_assoc_set_unique(values, id, json@);
    }
    if position < entries.len() {
        proof {
            assert(values[position as int].0 == id);
            assert(has_key(values, id));
            assert(index_of(values, id) == position);
        }
        let ghost json_view = json@;
        entries.set(position, (id, json));
        proof {
            assert(stored_view(entries@) =~= assoc_set(values, id, json_view));
        }
    } else {
        proof {
            assert(!has_key(values, id));
        }
        let ghost json_view = json@;
        entries.push((id, json));
        proof {
            assert(stored_view(entries@) =~= assoc_set(values, id, json_view));
        }
    }
}

/// A posting to score: document `doc_id` has `term_freq` occurrences of a
/// term in field `field_id`, the field at `field_position` among the
/// searched fields; `matching` documents are counted for the term in that
/// field, and the document's field has length `field_length`.
#[derive(Clone, Copy, Debug, PartialEq, Eq)]
pub struct Match {
    pub field_position: usize,
    pub field_id: u32,
    pub doc_id: u32,
    pub term_freq: u32,
    pub matching: u32,
    pub field_length: u32,
}

/// `count` decrements of `value`, wrapping around at zero.
pub open spec fn count_down(value: u32, count: nat) -> u32
    decreases count,
{
    if count == 0 {
        value
    } else {
        let before = count_down(value, (count - 1) as nat);
        if before == 0 {
            u32::MAX
        } else {
            (before - 1) as u32
        }
    }
}

/// The recorded length of field `field_id` of document `doc`, or 0.
pub open spec fn field_length_of(table: Seq<(u32, Seq<Option<u32>>)>, doc: u32, field_id: u32) -> u32 {
    match assoc_get(table, doc) {
        Some(lengths) => if (field_id as int) < lengths.len() {
            match lengths[field_id as int] {
                Some(n) => n,
                None => 0,
            }
        } else {
            0
        },
        None => 0,
    }
}

/// The postings of one field to score, and the references to documents that
/// are not indexed, for a field whose posting list `docs` is a prefix of one
/// of length `total`. The matching count starts at `total` and drops by one
/// at every document that is not indexed.
pub open spec fn field_postings(
    docs: Seq<(u32, u32)>,
    total: u32,
    position: int,
    field_id: u32,
    documents: Seq<(u32, Seq<char>)>,
    lengths: Seq<(u32, Seq<Option<u32>>)>,
) -> (Seq<Match>, Seq<(u32, u32)>)
    decreases docs.len(),
{
    if docs.len() == 0 {
        (Seq::empty(), Seq::empty())
    } else {
        let (matches, stale) = field_postings(
            docs.drop_last(),
            total,
            position,
            field_id,
            documents,
            lengths,
        );
        let doc = docs.last();
        if has_key(documents, doc.0) {
            (
                matches.push(
                    Match {
                        field_position: position as usize,
                        field_id,
                        doc_id: doc.0,
                        term_freq: doc.1,
                        matching: count_down(total, stale.len()),
                        field_length: field_length_of(lengths, doc.0, field_id),
                    },
                ),
                stale,
            )
        } else {
            (matches, stale.push((field_id, doc.0)))
        }
    }
}

/// The postings of a term to score in the first `count` searched fields,
/// and the references to documents that are not indexed. Fields without an
/// ID, or without the term, are skipped.
pub open spec fn term_postings(
    data: Postings,
    fields: Seq<Seq<char>>,
    count: int,
    table: Seq<(Seq<char>, u32)>,
    documents: Seq<(u32, Seq<char>)>,
    lengths: Seq<(u32, Seq<Option<u32>>)>,
) -> (Seq<Match>, Seq<(u32, u32)>)
    decreases count,
{
    if count <= 0 {
        (Seq::empty(), Seq::empty())
    } else {
        let (matches, stale) = term_postings(data, fields, count - 1, table, documents, lengths);
        match assoc_get(table, fields[count - 1]) {
            None => (matches, stale),
            Some(field_id) => match assoc_get(data, field_id) {
                None => (matches, stale),
                Some(docs) => {
                    let (more, gone) = field_postings(
                        docs,
                        docs.len() as u32,
                        count - 1,
                        field_id,
                        documents,
                        lengths,
                    );
                    (matches + more, stale + gone)
                },
            },
        }
    }
}

/// Saving a document's stored values puts the value of each store field
/// that has one under that field's own name ID, its position among the
/// store fields, and leaves every other name ID as it was.
pub proof fn lemma_stored_add_keeps_positions(
    values: Seq<(u16, Seq<char>)>,
    stored: Seq<Option<String>>,
    count: int,
)
    requires
        unique_keys(values),
        0 <= count <= stored.len(),
        stored.len() <= u16::MAX + 1,
    ensures
        unique_keys(stored_add(values, stored, count)),
        forall|i: int|
            0 <= i < count && (#[trigger] stored[i]) is Some ==> assoc_get(
                stored_add(values, stored, count),
                i as u16,
            ) == Some(stored[i]->Some_0@),
        forall|k: u16|
            (k as int >= count || stored[k as int] is None) ==> #[trigger] assoc_get(
                stored_add(values, stored, count),
                k,
            ) == assoc_get(values, k),
    decreases count,
{
    if count > 0 {
        lemma_stored_add_keeps_positions(values, stored, count - 1);
        let before = stored_add(values, stored, count - 1);
        let now = stored_add(values, stored, count);
        match stored[count - 1] {
            Some(json) => {
                let key = (count - 1) as u16;
                lemma_assoc_set_unique(before, key, json@);
                assert forall|i: int| 0 <= i < count && (#[trigger] stored[i]) is Some implies assoc_get(
                    now,
                    i as u16,
                ) == Some(stored[i]->Some_0@) by {
                    if i < count - 1 {
                        assert(i as u16 != key);
                    }
                }
                assert forall|k: u16| (k as int >= count || stored[k as int] is None) implies #[trigger] assoc_get(
                    now,
                    k,
                ) == assoc_get(values, k) by {
                    assert(k != key);
                    assert(assoc_get(before, k) == assoc_get(values, k));
                }
            },
            None => {
                assert forall|k: u16| (k as int >= count || stored[k as int] is None) implies #[trigger] assoc_get(
                    now,
                    k,
                ) == assoc_get(values, k) by {
                    assert(assoc_get(before, k) == assoc_get(values, k));
                }
            },
        }
    }
}

/// The length recorded for field `field_id` of document `doc` in the
/// field-length table: the entry of the document at that field ID, 0 when
/// there is none.
pub open spec fn recorded_length(lengths: Seq<(u32, Seq<Option<u32>>)>, doc: u32, field_id: u32) -> int {
    if has_key(lengths, doc) && (field_id as int) < lengths[index_of(lengths, doc)].1.len()
        && lengths[index_of(lengths, doc)].1[field_id as int] is Some {
        lengths[index_of(lengths, doc)].1[field_id as int]->Some_0 as int
    } else {
        0
    }
}

/// A match read from one field's posting list: it is for that field, at
/// that search position, for an indexed document posted there with that
/// frequency, and carries the length recorded for that document and field.
pub open spec fn match_of_field(
    m: Match,
    docs: Seq<(u32, u32)>,
    position: int,
    field_id: u32,
    documents: Seq<(u32, Seq<char>)>,
    lengths: Seq<(u32, Seq<Option<u32>>)>,
) -> bool {
    &&& m.field_position as int == position
    &&& m.field_id == field_id
    &&& docs.contains((m.doc_id, m.term_freq))
    &&& has_key(documents, m.doc_id)
    &&& m.field_length as int == recorded_length(lengths, m.doc_id, m.field_id)
}

/// The number of postings that refer to a document that is not indexed.
pub open spec fn unindexed_count(docs: Seq<(u32, u32)>, documents: Seq<(u32, Seq<char>)>) -> nat
    decreases docs.len(),
{
    if docs.len() == 0 {
        0
    } else {
        unindexed_count(docs.drop_last(), documents) + if has_key(documents, docs.last().0) {
            0nat
        } else {
            1nat
        }
    }
}

/// Counting down no further than the start is subtraction.
proof fn lemma_count_down_is_subtraction(value: u32, count: nat)
    requires
        count <= value,
    ensures
        count_down(value, count) == value - count,
    decreases count,
{
    if count > 0 {
        lemma_count_down_is_subtraction(value, (count - 1) as nat);
    }
}

#[verifier::spinoff_prover]
#[verifier::rlimit(100)]
proof fn lemma_field_postings_sources(
    docs: Seq<(u32, u32)>,
    total: u32,
    position: int,
    field_id: u32,
    documents: Seq<(u32, Seq<char>)>,
    lengths: Seq<(u32, Seq<Option<u32>>)>,
)
    requires
        0 <= position <= usize::MAX,
    ensures
        field_postings(docs, total, position, field_id, documents, lengths).1.len() == unindexed_count(
            docs,
            documents,
        ),
        forall|i: int|
            0 <= i < field_postings(docs, total, position, field_id, documents, lengths).0.len()
                ==> match_of_field(
                #[trigger] field_postings(docs, total, position, field_id, documents, lengths).0[i],
                docs,
                position,
                field_id,
                documents,
                lengths,
            ),
        docs.len() <= total ==> forall|i: int|
            0 <= i < field_postings(docs, total, position, field_id, documents, lengths).0.len()
                ==> exists|j: int|
                0 <= j < docs.len() && docs[j] == ((#[trigger] field_postings(
                    docs,
                    total,
                    position,
                    field_id,
                    documents,
                    lengths,
                ).0[i]).doc_id, field_postings(docs, total, position, field_id, documents, lengths).0[i].term_freq)
                    && field_postings(docs, total, position, field_id, documents, lengths).0[i].matching
                    == total - unindexed_count(docs.take(j), documents),
        forall|j: int|
            0 <= j < docs.len() && has_key(documents, (#[trigger] docs[j]).0) ==> exists|i: int|
                0 <= i < field_postings(docs, total, position, field_id, documents, lengths).0.len()
                    && field_postings(docs, total, position, field_id, documents, lengths).0[i].doc_id
                    == docs[j].0 && field_postings(
                    docs,
                    total,
                    position,
                    field_id,
                    documents,
                    lengths,
                ).0[i].term_freq == docs[j].1,
    decreases docs.len(),
{
    if docs.len() > 0 {
        let rest = docs.drop_last();
        lemma_field_postings_sources(rest, total, position, field_id, documents, lengths);
        let before = field_postings(rest, total, position, field_id, documents, lengths).0;
        let now = field_postings(docs, total, position, field_id, documents, lengths).0;
        let last = docs.len() - 1;
        assert(rest =~= docs.take(last));
        assert forall|i: int| 0 <= i < now.len() implies match_of_field(
            #[trigger] now[i],
            docs,
            position,
            field_id,
            documents,
            lengths,
        ) by {
            if i < before.len() {
                assert(now[i] == before[i]);
                let m = before[i];
                let j = choose|j: int| 0 <= j < rest.len() && rest[j] == (m.doc_id, m.term_freq);
                assert(docs[j] == (m.doc_id, m.term_freq));
            } else {
                assert(docs[last] == docs.last());
            }
        }
        if docs.len() <= total {
            assert forall|i: int| 0 <= i < now.len() implies exists|j: int|
                0 <= j < docs.len() && docs[j] == ((#[trigger] now[i]).doc_id, now[i].term_freq)
                    && now[i].matching == total - unindexed_count(docs.take(j), documents) by {
                if i < before.len() {
                    assert(now[i] == before[i]);
                    let j = choose|j: int|
                        0 <= j < rest.len() && rest[j] == (before[i].doc_id, before[i].term_freq)
                            && before[i].matching == total - unindexed_count(rest.take(j), documents);
                    assert(rest.take(j) =~= docs.take(j));
                    assert(docs[j] == rest[j]);
                } else {
                    lemma_unindexed_count_bound(rest, documents);
                    lemma_count_down_is_subtraction(total, unindexed_count(rest, documents));
                    assert(docs[last] == docs.last());
                }
            }
        }
        assert forall|j: int| 0 <= j < docs.len() && has_key(documents, (#[trigger] docs[j]).0) implies exists|i: int|
            0 <= i < now.len() && now[i].doc_id == docs[j].0 && now[i].term_freq == docs[j].1 by {
            if j < last {
                assert(rest[j] == docs[j]);
                let i = choose|i: int| 0 <= i < before.len() && before[i].doc_id == rest[j].0 && before[i].term_freq == rest[j].1;
                assert(now[i] == before[i]);
            } else {
                assert(now[now.len() - 1].doc_id == docs[j].0);
            }
        }
    }
}

/// At most every posting refers to a document that is not indexed.
proof fn lemma_unindexed_count_bound(docs: Seq<(u32, u32)>, documents: Seq<(u32, Seq<char>)>)
    ensures
        unindexed_count(docs, documents) <= docs.len(),
    decreases docs.len(),
{
    if docs.len() > 0 {
        lemma_unindexed_count_bound(docs.drop_last(), documents);
    }
}

/// Every match that a search scores for a term comes from the posting list
/// of its own field: the searched field at its position has its field ID,
/// its document is indexed and posted in that field's list with its
/// frequency, and its field length is the length recorded for that document
/// under that same field ID, whatever fields are searched and in what order.
pub proof fn lemma_matches_come_from_their_fields(
    data: Postings,
    fields: Seq<Seq<char>>,
    count: int,
    table: Seq<(Seq<char>, u32)>,
    documents: Seq<(u32, Seq<char>)>,
    lengths: Seq<(u32, Seq<Option<u32>>)>,
)
    requires
        0 <= count <= fields.len(),
        count <= usize::MAX,
    ensures
        forall|i: int|
            0 <= i < term_postings(data, fields, count, table, documents, lengths).0.len() ==> {
                let m = #[trigger] term_postings(data, fields, count, table, documents, lengths).0[i];
                &&& 0 <= m.field_position < count
                &&& assoc_get(table, fields[m.field_position as int]) == Some(m.field_id)
                &&& assoc_get(data, m.field_id) matches Some(docs) && docs.contains(
                    (m.doc_id, m.term_freq),
                )
                &&& has_key(documents, m.doc_id)
                &&& m.field_length as int == recorded_length(lengths, m.doc_id, m.field_id)
            },
    decreases count,
{
    if count > 0 {
        lemma_matches_come_from_their_fields(data, fields, count - 1, table, documents, lengths);
        let before = term_postings(data, fields, count - 1, table, documents, lengths).0;
        let now = term_postings(data, fields, count, table, documents, lengths).0;
        match assoc_get(table, fields[count - 1]) {
            None => {},
            Some(field_id) => match assoc_get(data, field_id) {
                None => {},
                Some(docs) => {
                    lemma_field_postings_sources(docs, docs.len() as u32, count - 1, field_id, documents, lengths);
                    let more = field_postings(docs, docs.len() as u32, count - 1, field_id, documents, lengths).0;
                    assert forall|i: int| 0 <= i < now.len() implies {
                        let m = #[trigger] now[i];
                        &&& 0 <= m.field_position < count
                        &&& assoc_get(table, fields[m.field_position as int]) == Some(m.field_id)
                        &&& assoc_get(data, m.field_id) matches Some(docs) && docs.contains(
                            (m.doc_id, m.term_freq),
                        )
                        &&& has_key(documents, m.doc_id)
                        &&& m.field_length as int == recorded_length(lengths, m.doc_id, m.field_id)
                    } by {
                        if i < before.len() {
                            assert(now[i] == before[i]);
                        } else {
                            assert(now[i] == more[i - before.len()]);
                            assert(match_of_field(more[i - before.len()], docs, count - 1, field_id, documents, lengths));
                        }
                    }
                },
            },
        }
    }
}


/// Every indexed document posted for the term in a searched field is
/// matched there once at least, with its frequency, and each match carries
/// as its matching count the length of its field's posting list less the
/// postings before it that refer to documents that are not indexed.
#[verifier::spinoff_prover]
#[verifier::rlimit(50)]
pub proof fn lemma_matches_cover_their_fields(
    data: Postings,
    fields: Seq<Seq<char>>,
    count: int,
    table: Seq<(Seq<char>, u32)>,
    documents: Seq<(u32, Seq<char>)>,
    lengths: Seq<(u32, Seq<Option<u32>>)>,
)
    requires
        0 <= count <= fields.len(),
        count <= usize::MAX,
    ensures
        forall|i: int|
            0 <= i < term_postings(data, fields, count, table, documents, lengths).0.len() ==> {
                let m = #[trigger] term_postings(data, fields, count, table, documents, lengths).0[i];
                assoc_get(data, m.field_id) matches Some(docs) && (docs.len() <= u32::MAX
                    ==> exists|j: int|
                    0 <= j < docs.len() && docs[j] == (m.doc_id, m.term_freq) && m.matching
                        == docs.len() - unindexed_count(docs.take(j), documents))
            },
        forall|p: int|
            0 <= p < count ==> match assoc_get(table, #[trigger] fields[p]) {
                Some(field_id) => match assoc_get(data, field_id) {
                    Some(docs) => forall|j: int|
                        0 <= j < docs.len() && has_key(documents, (#[trigger] docs[j]).0) ==> exists|
                            i: int,
                        |
                            0 <= i < term_postings(data, fields, count, table, documents, lengths).0.len()
                                && term_postings(data, fields, count, table, documents, lengths).0[i].field_position
                                as int == p && term_postings(data, fields, count, table, documents, lengths).0[i].doc_id
                                == docs[j].0 && term_postings(data, fields, count, table, documents, lengths).0[i].term_freq
                                == docs[j].1,
                    None => true,
                },
                None => true,
            },
    decreases count,
{
    if count > 0 {
        lemma_matches_cover_their_fields(data, fields, count - 1, table, documents, lengths);
        let before = term_postings(data, fields, count - 1, table, documents, lengths).0;
        let now = term_postings(data, fields, count, table, documents, lengths).0;
        match assoc_get(table, fields[count - 1]) {
            None => {},
            Some(field_id) => match assoc_get(data, field_id) {
                None => {},
                Some(docs) => {
                    lemma_field_postings_sources(docs, docs.len() as u32, count - 1, field_id, documents, lengths);
                    let more = field_postings(docs, docs.len() as u32, count - 1, field_id, documents, lengths).0;
                    assert(now == before + more);
                    assert forall|i: int| 0 <= i < now.len() implies {
                        let m = #[trigger] now[i];
                        assoc_get(data, m.field_id) matches Some(docs) && (docs.len() <= u32::MAX
                            ==> exists|j: int|
                            0 <= j < docs.len() && docs[j] == (m.doc_id, m.term_freq) && m.matching
                                == docs.len() - unindexed_count(docs.take(j), documents))
                    } by {
                        if i < before.len() {
                            assert(now[i] == before[i]);
                        } else {
                            assert(now[i] == more[i - before.len()]);
                            assert(match_of_field(more[i - before.len()], docs, count - 1, field_id, documents, lengths));
                        }
                    }
                    assert forall|p: int| 0 <= p < count implies match assoc_get(table, #[trigger] fields[p]) {
                        Some(field_id) => match assoc_get(data, field_id) {
                            Some(docs) => forall|j: int|
                                0 <= j < docs.len() && has_key(documents, (#[trigger] docs[j]).0) ==> exists|
                                    i: int,
                                |
                                    0 <= i < now.len() && now[i].field_position as int == p && now[i].doc_id == docs[j].0
                                        && now[i].term_freq == docs[j].1,
                            None => true,
                        },
                        None => true,
                    } by {
                        if p < count - 1 {
                            if let Some(f) = assoc_get(table, fields[p]) {
                                if let Some(ds) = assoc_get(data, f) {
                                    assert forall|j: int|
                                        0 <= j < ds.len() && has_key(documents, (#[trigger] ds[j]).0) implies exists|i: int|
                                            0 <= i < now.len() && now[i].field_position as int == p && now[i].doc_id == ds[j].0
                                                && now[i].term_freq == ds[j].1 by {
                                        let i = choose|i: int|
                                            0 <= i < before.len() && before[i].field_position as int == p && before[i].doc_id == ds[j].0
                                                && before[i].term_freq == ds[j].1;
                                        assert(now[i] == before[i]);
                                    }
                                }
                            }
                        } else {
                            assert forall|j: int|
                                0 <= j < docs.len() && has_key(documents, (#[trigger] docs[j]).0) implies exists|i: int|
                                    0 <= i < now.len() && now[i].field_position as int == p && now[i].doc_id == docs[j].0
                                        && now[i].term_freq == docs[j].1 by {
                                let k = choose|k: int|
                                    0 <= k < more.len() && more[k].doc_id == docs[j].0 && more[k].term_freq == docs[j].1;
                                assert(match_of_field(more[k], docs, count - 1, field_id, documents, lengths));
                                assert(now[before.len() + k] == more[k]);
                            }
                        }
                    }
                },
            },
        }
        if assoc_get(table, fields[count - 1]) is None || assoc_get(data, assoc_get(table, fields[count - 1])->Some_0) is None {
            assert(now == before);
        }
    }
}

/// The warnings for one occurrence of `term` in `field` of `doc` that is
/// absent from the index: none if it is present.
pub open spec fn step_warnings(
    index: Map<Seq<char>, Postings>,
    term: Seq<char>,
    field: u32,
    doc: u32,
    fields: Seq<(Seq<char>, u32)>,
    documents: Seq<(u32, Seq<char>)>,
) -> Seq<WarningView> {
    if index.contains_key(term) && posting_has(index[term], field, doc) {
        Seq::empty()
    } else {
        match missing_warning(fields, documents, doc, field, term) {
            Some(warning) => seq![warning],
            None => Seq::empty(),
        }
    }
}

/// The index and warnings after one occurrence of `term` is taken away for
/// each `(field, document)` reference.
pub open spec fn index_remove_refs(
    index: Map<Seq<char>, Postings>,
    term: Seq<char>,
    refs: Seq<(u32, u32)>,
    fields: Seq<(Seq<char>, u32)>,
    documents: Seq<(u32, Seq<char>)>,
) -> (Map<Seq<char>, Postings>, Seq<WarningView>)
    decreases refs.len(),
{
    if refs.len() == 0 {
        (index, Seq::empty())
    } else {
        let previous = index_remove_refs(index, term, refs.drop_last(), fields, documents);
        (
            index_remove(previous.0, term, refs.last().0, refs.last().1),
            previous.1 + step_warnings(
                previous.0,
                term,
                refs.last().0,
                refs.last().1,
                fields,
                documents,
            ),
        )
    }
}

/// How a derived term was found from a query term.
#[derive(Clone, Copy, Debug, PartialEq, Eq)]
pub enum ExpansionKind {
    Prefix,
    Fuzzy,
}

/// A term of the index derived from a query term, with its distance: the
/// number of extra characters for a prefix match, the edit distance for a
/// fuzzy match.
pub struct Expansion {
    pub term: String,
    pub distance: usize,
    pub kind: ExpansionKind,
}

/// An expansion as plain values.
pub open spec fn expansion_view(expansion: Expansion) -> (Seq<char>, int, ExpansionKind) {
    (expansion.term@, expansion.distance as int, expansion.kind)
}

/// The prefix expansions: each term that extends the query term, other than
/// the query term itself, with its number of extra characters.
pub open spec fn prefix_expansions(terms: Seq<Seq<char>>, query_length: int) -> Seq<
    (Seq<char>, int, ExpansionKind),
>
    decreases terms.len(),
{
    if terms.len() == 0 {
        Seq::empty()
    } else {
        let before = prefix_expansions(terms.drop_last(), query_length);
        let distance = terms.last().len() - query_length;
        if distance == 0 {
            before
        } else {
            before.push((terms.last(), distance, ExpansionKind::Prefix))
        }
    }
}

/// The fuzzy expansions: each term within the edit distance, other than the
/// query term itself and the terms already found by prefix.
pub open spec fn fuzzy_expansions(found: Seq<(Seq<char>, int)>, prefix_terms: Seq<Seq<char>>) -> Seq<
    (Seq<char>, int, ExpansionKind),
>
    decreases found.len(),
{
    if found.len() == 0 {
        Seq::empty()
    } else {
        let before = fuzzy_expansions(found.drop_last(), prefix_terms);
        let (term, distance) = found.last();
        if distance == 0 || prefix_terms.contains(term) {
            before
        } else {
            before.push((term, distance, ExpansionKind::Fuzzy))
        }
    }
}

/// The prefix expansions come from the terms, each with its number of
/// extra characters and none without extra characters, every term with
/// extra characters gives one, and distinct terms give distinct expansions.
proof fn lemma_prefix_expansions_from(terms: Seq<Seq<char>>, query_length: int)
    ensures
        forall|i: int|
            0 <= i < prefix_expansions(terms, query_length).len() ==> exists|j: int|
                0 <= j < terms.len() && (#[trigger] prefix_expansions(terms, query_length)[i]) == (
                    terms[j],
                    terms[j].len() - query_length,
                    ExpansionKind::Prefix,
                ) && terms[j].len() != query_length,
        forall|j: int|
            0 <= j < terms.len() && (#[trigger] terms[j]).len() != query_length ==> exists|i: int|
                0 <= i < prefix_expansions(terms, query_length).len() && prefix_expansions(
                    terms,
                    query_length,
                )[i] == (terms[j], terms[j].len() - query_length, ExpansionKind::Prefix),
        (forall|a: int, b: int|
            0 <= a < terms.len() && 0 <= b < terms.len() && a != b ==> #[trigger] terms[a]
                != #[trigger] terms[b]) ==> forall|a: int, b: int|
            0 <= a < prefix_expansions(terms, query_length).len() && 0 <= b < prefix_expansions(
                terms,
                query_length,
            ).len() && a != b ==> (#[trigger] prefix_expansions(terms, query_length)[a]).0 != (
            #[trigger] prefix_expansions(terms, query_length)[b]).0,
    decreases terms.len(),
{
    if terms.len() > 0 {
        let rest = terms.drop_last();
        lemma_prefix_expansions_from(rest, query_length);
        let before = prefix_expansions(rest, query_length);
        let now = prefix_expansions(terms, query_length);
        let last = terms.len() - 1;
        assert forall|i: int| 0 <= i < now.len() implies exists|j: int|
            0 <= j < terms.len() && (#[trigger] now[i]) == (
                terms[j],
                terms[j].len() - query_length,
                ExpansionKind::Prefix,
            ) && terms[j].len() != query_length by {
            if i < before.len() {
                let j = choose|j: int|
                    0 <= j < rest.len() && (#[trigger] before[i]) == (
                        rest[j],
                        rest[j].len() - query_length,
                        ExpansionKind::Prefix,
                    ) && rest[j].len() != query_length;
                assert(terms[j] == rest[j]);
            } else {
                assert(now[i] == (terms[last], terms[last].len() - query_length, ExpansionKind::Prefix));
            }
        }
        assert forall|j: int| 0 <= j < terms.len() && (#[trigger] terms[j]).len() != query_length implies exists|i: int|
            0 <= i < now.len() && now[i] == (terms[j], terms[j].len() - query_length, ExpansionKind::Prefix) by {
            if j < last {
                assert(rest[j] == terms[j]);
                let i = choose|i: int| 0 <= i < before.len() && before[i] == (rest[j], rest[j].len() - query_length, ExpansionKind::Prefix);
                assert(now[i] == before[i]);
            } else {
                assert(now[now.len() - 1] == (terms[last], terms[last].len() - query_length, ExpansionKind::Prefix));
            }
        }
        if forall|a: int, b: int|
            0 <= a < terms.len() && 0 <= b < terms.len() && a != b ==> #[trigger] terms[a]
                != #[trigger] terms[b] {
            assert forall|a: int, b: int|
                0 <= a < rest.len() && 0 <= b < rest.len() && a != b implies #[trigger] rest[a]
                    != #[trigger] rest[b] by {
                assert(rest[a] == terms[a] && rest[b] == terms[b]);
            }
            assert forall|a: int, b: int|
                0 <= a < now.len() && 0 <= b < now.len() && a != b implies (#[trigger] now[a]).0 != (
                #[trigger] now[b]).0 by {
                if a < before.len() && b < before.len() {
                    assert(now[a] == before[a] && now[b] == before[b]);
                } else if a < before.len() || b < before.len() {
                    let x = if a < before.len() { a } else { b };
                    let j = choose|j: int|
                        0 <= j < rest.len() && (#[trigger] before[x]) == (
                            rest[j],
                            rest[j].len() - query_length,
                            ExpansionKind::Prefix,
                        ) && rest[j].len() != query_length;
                    assert(now[x] == before[x]);
                    assert(terms[j] != terms[last]);
                }
            }
        }
    }
}

/// The fuzzy expansions come from the found terms, each with its distance,
/// none at distance 0 or among the prefix terms, every other found term
/// gives one, and distinct found terms give distinct expansions.
proof fn lemma_fuzzy_expansions_from(found: Seq<(Seq<char>, int)>, prefix_terms: Seq<Seq<char>>)
    ensures
        forall|i: int|
            0 <= i < fuzzy_expansions(found, prefix_terms).len() ==> exists|j: int|
                0 <= j < found.len() && (#[trigger] fuzzy_expansions(found, prefix_terms)[i]) == (
                    found[j].0,
                    found[j].1,
                    ExpansionKind::Fuzzy,
                ) && found[j].1 != 0 && !prefix_terms.contains(found[j].0),
        forall|j: int|
            0 <= j < found.len() && (#[trigger] found[j]).1 != 0 && !prefix_terms.contains(found[j].0)
                ==> exists|i: int|
                0 <= i < fuzzy_expansions(found, prefix_terms).len() && fuzzy_expansions(
                    found,
                    prefix_terms,
                )[i] == (found[j].0, found[j].1, ExpansionKind::Fuzzy),
        (forall|a: int, b: int|
            0 <= a < found.len() && 0 <= b < found.len() && a != b ==> (#[trigger] found[a]).0
                != (#[trigger] found[b]).0) ==> forall|a: int, b: int|
            0 <= a < fuzzy_expansions(found, prefix_terms).len() && 0 <= b < fuzzy_expansions(
                found,
                prefix_terms,
            ).len() && a != b ==> (#[trigger] fuzzy_expansions(found, prefix_terms)[a]).0 != (
            #[trigger] fuzzy_expansions(found, prefix_terms)[b]).0,
    decreases found.len(),
{
    if found.len() > 0 {
        let rest = found.drop_last();
        lemma_fuzzy_expansions_from(rest, prefix_terms);
        let before = fuzzy_expansions(rest, prefix_terms);
        let now = fuzzy_expansions(found, prefix_terms);
        let last = found.len() - 1;
        assert forall|i: int| 0 <= i < now.len() implies exists|j: int|
            0 <= j < found.len() && (#[trigger] now[i]) == (found[j].0, found[j].1, ExpansionKind::Fuzzy)
                && found[j].1 != 0 && !prefix_terms.contains(found[j].0) by {
            if i < before.len() {
                let j = choose|j: int|
                    0 <= j < rest.len() && (#[trigger] before[i]) == (rest[j].0, rest[j].1, ExpansionKind::Fuzzy)
                        && rest[j].1 != 0 && !prefix_terms.contains(rest[j].0);
                assert(found[j] == rest[j]);
            } else {
                assert(now[i] == (found[last].0, found[last].1, ExpansionKind::Fuzzy));
            }
        }
        assert forall|j: int|
            0 <= j < found.len() && (#[trigger] found[j]).1 != 0 && !prefix_terms.contains(found[j].0)
                implies exists|i: int|
                0 <= i < now.len() && now[i] == (found[j].0, found[j].1, ExpansionKind::Fuzzy) by {
            if j < last {
                assert(rest[j] == found[j]);
                let i = choose|i: int| 0 <= i < before.len() && before[i] == (rest[j].0, rest[j].1, ExpansionKind::Fuzzy);
                assert(now[i] == before[i]);
            } else {
                assert(now[now.len() - 1] == (found[last].0, found[last].1, ExpansionKind::Fuzzy));
            }
        }
        if forall|a: int, b: int|
            0 <= a < found.len() && 0 <= b < found.len() && a != b ==> (#[trigger] found[a]).0
                != (#[trigger] found[b]).0 {
            assert forall|a: int, b: int|
                0 <= a < rest.len() && 0 <= b < rest.len() && a != b implies (#[trigger] rest[a]).0
                    != (#[trigger] rest[b]).0 by {
                assert(rest[a] == found[a] && rest[b] == found[b]);
            }
            assert forall|a: int, b: int|
                0 <= a < now.len() && 0 <= b < now.len() && a != b implies (#[trigger] now[a]).0 != (
                #[trigger] now[b]).0 by {
                if a < before.len() && b < before.len() {
                    assert(now[a] == before[a] && now[b] == before[b]);
                } else if a < before.len() || b < before.len() {
                    let x = if a < before.len() { a } else { b };
                    let j = choose|j: int|
                        0 <= j < rest.len() && (#[trigger] before[x]) == (rest[j].0, rest[j].1, ExpansionKind::Fuzzy)
                            && rest[j].1 != 0 && !prefix_terms.contains(rest[j].0);
                    assert(now[x] == before[x]);
                    assert(found[j].0 != found[last].0);
                }
            }
        }
    }
}

/// A scored result to write: the document's short ID, its score as a JSON
/// number, and what matched.
pub struct Hit {
    pub doc_id: u32,
    pub score: String,
    pub matches: MatchSet,
}

/// The name of the last field in `table` whose ID is `id`, or the empty
/// text.
pub open spec fn field_name_last(table: Seq<(Seq<char>, u32)>, id: u32) -> Seq<char> {
    if exists|i: int| 0 <= i < table.len() && (#[trigger] table[i]).1 == id {
        let i = choose|i: int|
            0 <= i < table.len() && (#[trigger] table[i]).1 == id && forall|j: int|
                i < j < table.len() ==> (#[trigger] table[j]).1 != id;
        table[i].0
    } else {
        Seq::empty()
    }
}

/// Interned terms as quoted JSON strings.
pub open spec fn quoted_terms(ids: Seq<u16>, terms: Seq<Seq<char>>) -> Seq<Seq<char>> {
    ids.map_values(|id: u16| json_quoted(terms[id as int]))
}

/// The `match` members of a result: each matched document term with the
/// names of its fields.
pub open spec fn match_members(
    matches: Seq<(u16, Seq<u32>)>,
    terms: Seq<Seq<char>>,
    table: Seq<(Seq<char>, u32)>,
) -> Seq<Seq<char>> {
    matches.map_values(
        |entry: (u16, Seq<u32>)|
            json_member(
                terms[entry.0 as int],
                json_array(entry.1.map_values(|id: u32| json_quoted(field_name_last(table, id)))),
            ),
    )
}

/// The stored fields of a result, each as a further member.
pub open spec fn stored_suffix(values: Seq<(u16, Seq<char>)>, names: Seq<Seq<char>>) -> Seq<char>
    decreases values.len(),
{
    if values.len() == 0 {
        Seq::empty()
    } else {
        stored_suffix(values.drop_last(), names) + seq![','] + json_member(
            names[values.last().0 as int],
            values.last().1,
        )
    }
}

/// The processed terms of one field of a document.
struct FieldTokens {
    field_id: u32,
    unique_tokens: u32,
    terms: Vec<String>,
}

pub struct Engine {
    fields: Vec<String>,
    field_ids: FieldIds,
    store_fields: Vec<String>,
    index: RadixTree<FieldTermData>,
    document_count: u32,
    document_ids: DocumentIds,
    id_to_short: ShortIds,
    field_length: FieldLengths,
    next_id: u32,
    stored_fields: StoredFields,
    stored_field_names: Vec<String>,
    dirt_count: u32,
    tokenizer: Tokenizer,
}

/// The IDs given to fields in order: each field gets its position, and a
/// repeated name keeps its first entry and takes the later position.
pub open spec fn enumerate_ids(fields: Seq<Seq<char>>, count: int) -> Seq<(Seq<char>, u32)>
    decreases count,
{
    if count <= 0 {
        Seq::empty()
    } else {
        assoc_set(enumerate_ids(fields, count - 1), fields[count - 1], (count - 1) as u32)
    }
}

impl Engine {
    /// The inverted index: term to postings.
    pub closed spec fn index_view(&self) -> Map<Seq<char>, Postings> {
        self.index@.map_values(|data: FieldTermData| postings_view(data))
    }

    /// Indexed documents: `(short ID, JSON text of the ID)` in insertion
    /// order.
    pub closed spec fn documents(&self) -> Seq<(u32, Seq<char>)> {
        self.document_ids@
    }

    /// Short IDs by document ID key.
    pub closed spec fn short_ids(&self) -> Seq<(IdKey, u32)> {
        self.id_to_short@
    }

    /// Field lengths by short ID.
    pub closed spec fn lengths(&self) -> Seq<(u32, Seq<Option<u32>>)> {
        self.field_length@
    }

    /// Stored values by short ID: `(name ID, JSON text)` pairs.
    pub closed spec fn stored(&self) -> Seq<(u32, Seq<(u16, Seq<char>)>)> {
        self.stored_fields@
    }

    /// Field IDs by field name.
    pub closed spec fn field_id_table(&self) -> Seq<(Seq<char>, u32)> {
        self.field_ids@
    }

    /// The indexed fields.
    pub closed spec fn field_names(&self) -> Seq<Seq<char>> {
        views(self.fields@)
    }

    /// The stored fields.
    pub closed spec fn store_field_names(&self) -> Seq<Seq<char>> {
        views(self.store_fields@)
    }

    /// The names that stored values refer to by name ID.
    pub closed spec fn stored_names(&self) -> Seq<Seq<char>> {
        views(self.stored_field_names@)
    }

    pub closed spec fn doc_count(&self) -> u32 {
        self.document_count
    }

    pub closed spec fn dirt(&self) -> u32 {
        self.dirt_count
    }

    pub closed spec fn next_short_id(&self) -> u32 {
        self.next_id
    }

    pub closed spec fn wf(&self) -> bool {
        &&& self.index.wf()
        &&& forall|term: Seq<char>| #[trigger]
            self.index@.contains_key(term) ==> postings_wf(self.index@[term])
        &&& unique_keys(self.document_ids@)
        &&& unique_keys(self.id_to_short@)
        &&& unique_keys(self.field_length@)
        &&& unique_keys(self.stored_fields@)
        &&& forall|i: int|
            0 <= i < self.stored_fields@.len() ==> unique_keys(#[trigger] self.stored_fields@[i].1)
        &&& forall|i: int, j: int|
            0 <= i < self.stored_fields@.len() && 0 <= j < self.stored_fields@[i].1.len() ==> (
            #[trigger] self.stored_fields@[i].1[j]).0 < self.stored_field_names@.len()
        &&& self.store_fields@.len() <= self.stored_field_names@.len()
        &&& unique_keys(self.field_ids@)
    }

    /// Every indexed field in which `document` has text has an ID, small
    /// enough to be a position.
    pub closed spec fn ready_for(&self, document: Document) -> bool {
        forall|i: int|
            0 <= i < self.fields@.len() && i < document.texts@.len() && (
            #[trigger] document.texts@[i]) is Some ==> {
                &&& has_key(self.field_ids@, self.fields@[i]@)
                &&& (assoc_get(self.field_ids@, self.fields@[i]@)->Some_0 as int) < usize::MAX
            }
    }

    /// An engine whose indexed fields all have IDs is ready for any
    /// document.
    pub proof fn lemma_ready_for(&self, document: Document)
        requires
            self.ready(),
        ensures
            self.ready_for(document),
    {
        assert forall|i: int|
            0 <= i < self.fields@.len() && i < document.texts@.len() && (
            #[trigger] document.texts@[i]) is Some implies {
            &&& has_key(self.field_ids@, self.fields@[i]@)
            &&& (assoc_get(self.field_ids@, self.fields@[i]@)->Some_0 as int) < usize::MAX
        } by {
            assert(has_key(self.field_ids@, self.fields@[i]@));
        }
    }

    /// Every indexed field has an ID, small enough to be a position.
    pub closed spec fn ready(&self) -> bool {
        forall|i: int|
            0 <= i < self.fields@.len() ==> {
                &&& has_key(self.field_ids@, (#[trigger] self.fields@[i])@)
                &&& (assoc_get(self.field_ids@, self.fields@[i]@)->Some_0 as int) < usize::MAX
            }
    }

    /// The indexed fields of `document` that have text, with their IDs.
    pub closed spec fn texts_of(&self, document: Document) -> Seq<(u32, Seq<char>)> {
        field_texts(
            self.field_ids@,
            views(self.fields@),
            document.texts@,
            self.fields@.len() as int,
        )
    }

    /// This engine is `old` after `document`, with ID `id`, was added,
    /// reporting `changes`.
    pub closed spec fn added(
        &self,
        old: Engine,
        document: Document,
        id: DocumentId,
        changes: Seq<LengthChange>,
    ) -> bool {
        let short_id = old.next_id;
        let texts = old.texts_of(document);
        &&& self.id_to_short@ == old.id_to_short@.push((id.key, short_id))
        &&& self.document_ids@ == assoc_set(old.document_ids@, short_id, id.json@)
        &&& self.document_count == old.document_count + 1
        &&& self.next_id == old.next_id + 1
        &&& self.dirt_count == old.dirt_count
        &&& self.index_view() == index_add_document(old.index_view(), texts, short_id)
        &&& self.index_terms() == keys_with_document(old.index_terms(), texts)
        &&& self.field_length@ == lengths_add_document(old.field_length@, texts, short_id)
        &&& old.store_fields@.len() == 0 ==> self.stored_fields@ == old.stored_fields@
        &&& old.store_fields@.len() > 0 ==> self.stored_fields@ == assoc_set(
            old.stored_fields@,
            short_id,
            stored_add(
                match assoc_get(old.stored_fields@, short_id) {
                    Some(values) => values,
                    None => Seq::empty(),
                },
                document.stored@,
                document.stored@.len() as int,
            ),
        )
        &&& changes == added_lengths(texts, old.document_count)
        &&& self.fields == old.fields
        &&& self.field_ids == old.field_ids
        &&& self.store_fields == old.store_fields
        &&& self.stored_field_names == old.stored_field_names
    }

    /// This engine is `old` after `document`, with ID `id`, was removed,
    /// reporting `changes` and `warnings`.
    pub closed spec fn removed(
        &self,
        old: Engine,
        document: Document,
        id: DocumentId,
        changes: Seq<LengthChange>,
        warnings: Seq<Warning>,
    ) -> bool {
        let short_id = assoc_get(old.id_to_short@, id.key)->Some_0;
        let texts = old.texts_of(document);
        let (index, expected) = index_remove_document(
            old.index_view(),
            texts,
            short_id,
            old.field_ids@,
            old.document_ids@,
        );
        &&& self.index_view() == index
        &&& self.index_terms() == keys_after_removing_document(
            old.index_terms(),
            old.index_view(),
            texts,
            short_id,
        ).0
        &&& warnings.map_values(|w: Warning| warning_view(w)) == expected
        &&& changes == removed_lengths(texts, old.document_count)
        &&& self.id_to_short@ == assoc_remove(old.id_to_short@, id.key)
        &&& self.document_ids@ == assoc_remove(old.document_ids@, short_id)
        &&& self.stored_fields@ == assoc_remove(old.stored_fields@, short_id)
        &&& self.field_length@ == assoc_remove(old.field_length@, short_id)
        &&& self.document_count == old.document_count - 1
        &&& self.next_id == old.next_id
        &&& self.dirt_count == old.dirt_count
        &&& self.fields == old.fields
        &&& self.field_ids == old.field_ids
        &&& self.store_fields == old.store_fields
        &&& self.stored_field_names == old.stored_field_names
    }

    /// This engine is `old` after the document with ID `key` was discarded,
    /// reporting `changes`.
    pub closed spec fn discarded(&self, old: Engine, key: IdKey, changes: Seq<LengthChange>) -> bool {
        let short_id = assoc_get(old.id_to_short@, key)->Some_0;
        &&& self.index == old.index
        &&& self.index_terms() == old.index_terms()
        &&& changes == discarded_lengths(
            match assoc_get(old.field_length@, short_id) {
                Some(lengths) => lengths,
                None => Seq::empty(),
            },
            old.document_count,
        )
        &&& self.id_to_short@ == assoc_remove(old.id_to_short@, key)
        &&& self.document_ids@ == assoc_remove(old.document_ids@, short_id)
        &&& self.stored_fields@ == assoc_remove(old.stored_fields@, short_id)
        &&& self.field_length@ == assoc_remove(old.field_length@, short_id)
        &&& self.document_count == old.document_count - 1
        &&& self.dirt_count == old.dirt_count + 1
        &&& self.next_id == old.next_id
        &&& self.fields == old.fields
        &&& self.field_ids == old.field_ids
        &&& self.store_fields == old.store_fields
        &&& self.stored_field_names == old.stored_field_names
    }

    /// The index entries in traversal order, each term with its postings.
    pub closed spec fn index_entries(&self) -> Seq<(Seq<char>, Postings)> {
        self.index.entries().map_values(
            |entry: (Seq<char>, FieldTermData)| (entry.0, postings_view(entry.1)),
        )
    }

    /// The index terms in traversal order: the order in which serialization
    /// lists them.
    #[verifier::opaque]
    pub closed spec fn index_terms(&self) -> Seq<Seq<char>> {
        entry_keys(self.index.entries())
    }

    /// The terms of the serialized index entries are the index terms, in
    /// the same order.
    pub proof fn lemma_index_terms(&self)
        ensures
            entry_keys(self.index_entries()) == self.index_terms(),
    {
        reveal(Engine::index_terms);
        assert(entry_keys(self.index_entries()) =~= self.index_terms());
    }

    /// Before any removal, the order is as after a removal that changed
    /// nothing.
    proof fn lemma_removal_order_none(e: Engine, term: Seq<char>)
        requires
            e.index.wf(),
        ensures
            removal_order(e.index_terms(), e.index_terms(), e.index@.contains_key(term), term),
    {
        e.lemma_terms_are_the_index(term);
        reveal(removal_order);
        reveal(keys_dropping);
    }

    /// One more term of a list taken away: the order after it is that of
    /// the whole list so far.
    proof fn lemma_removals_step(
        start_keys: Seq<Seq<char>>,
        start_index: Map<Seq<char>, Postings>,
        terms: Seq<Seq<char>>,
        field: u32,
        doc: u32,
        table: Seq<(Seq<char>, u32)>,
        docs: Seq<(u32, Seq<char>)>,
        before: Engine,
        after: Engine,
    )
        requires
            terms.len() > 0,
            before.index_terms() == keys_after_removals(
                start_keys,
                start_index,
                terms.drop_last(),
                field,
                doc,
            ).0,
            before.index_view() == index_remove_terms(
                start_index,
                terms.drop_last(),
                field,
                doc,
                table,
                docs,
            ).0,
            after.index_view() == index_remove(before.index_view(), terms.last(), field, doc),
            removal_order(
                before.index_terms(),
                after.index_terms(),
                after.index@.contains_key(terms.last()),
                terms.last(),
            ),
        ensures
            after.index_terms() == keys_after_removals(start_keys, start_index, terms, field, doc).0,
    {
        lemma_removals_index(start_keys, start_index, terms.drop_last(), field, doc, table, docs);
        reveal(removal_order);
        assert(after.index@.dom() == after.index_view().dom());
    }

    /// One more removal of `term`, after earlier ones: the order is as after
    /// one.
    proof fn lemma_refs_step(
        start: Engine,
        before: Engine,
        after: Engine,
        term: Seq<char>,
        field: u32,
        doc: u32,
    )
        requires
            before.index.wf(),
            removal_order(
                start.index_terms(),
                before.index_terms(),
                before.index@.contains_key(term),
                term,
            ),
            removal_order(
                before.index_terms(),
                after.index_terms(),
                after.index@.contains_key(term),
                term,
            ),
            after.index_view() == index_remove(before.index_view(), term, field, doc),
        ensures
            removal_order(
                start.index_terms(),
                after.index_terms(),
                after.index@.contains_key(term),
                term,
            ),
    {
        before.lemma_terms_are_the_index(term);
        assert(after.index@.dom() == after.index_view().dom());
        assert(before.index@.dom() == before.index_view().dom());
        lemma_removal_order_step(
            start.index_terms(),
            before.index_terms(),
            after.index_terms(),
            before.index@.contains_key(term),
            after.index@.contains_key(term),
            term,
        );
    }

    /// A term is in the index exactly when it is among the index terms.
    proof fn lemma_terms_are_the_index(&self, term: Seq<char>)
        requires
            self.index.wf(),
        ensures
            self.index@.contains_key(term) == self.index_terms().contains(term),
    {
        reveal(Engine::index_terms);
        self.index.lemma_entries_are_the_map();
        let keys = self.index_terms();
        if self.index@.contains_key(term) {
            let i = choose|i: int|
                0 <= i < self.index.entries().len() && (#[trigger] self.index.entries()[i]).0 == term;
            assert(keys[i] == term);
        }
        if keys.contains(term) {
            let i = choose|i: int| 0 <= i < keys.len() && keys[i] == term;
            assert(keys[i] == self.index.entries()[i].0);
        }
    }

    /// The serialized index, with the given average field lengths: a JSON
    /// object in the version-2 format.
    pub closed spec fn serialized(&self, averages: Seq<Seq<char>>) -> Seq<char> {
        "{\"documentCount\":"@ + decimal(self.document_count as nat) + ",\"nextId\":"@ + decimal(
            self.next_id as nat,
        ) + ",\"documentIds\":"@ + json_object(
            self.document_ids@.map_values(|entry: (u32, Seq<char>)| id_member(entry)),
        ) + ",\"fieldIds\":"@ + json_object(
            self.field_ids@.map_values(|entry: (Seq<char>, u32)| field_id_member(entry)),
        ) + ",\"fieldLength\":"@ + json_object(
            self.field_length@.map_values(|entry: (u32, Seq<Option<u32>>)| lengths_member(entry)),
        ) + ",\"averageFieldLength\":"@ + json_array(averages) + ",\"storedFields\":"@
            + json_object(
            self.stored_fields@.map_values(
                |entry: (u32, Seq<(u16, Seq<char>)>)| stored_member(entry, self.stored_names()),
            ),
        ) + ",\"dirtCount\":"@ + decimal(self.dirt_count as nat) + ",\"index\":"@ + json_array(
            self.index_entries().map_values(|entry: (Seq<char>, Postings)| term_item(entry)),
        ) + ",\"serializationVersion\":2}"@
    }

    /// This engine holds what `parts` describes, over the given indexed and
    /// stored fields.
    pub closed spec fn loaded(
        &self,
        parts: SerializedIndex,
        fields: Seq<Seq<char>>,
        store_fields: Seq<Seq<char>>,
    ) -> bool {
        &&& self.wf()
        &&& self.field_names() == fields
        &&& self.store_field_names() == store_fields
        &&& self.document_count == loaded_count(parts.document_count)
        &&& self.next_id == loaded_count(parts.next_id)
        &&& self.dirt_count == loaded_count(parts.dirt_count)
        &&& parts_ids(parts) == Ok::<(Seq<(u32, Seq<char>)>, Seq<(IdKey, u32)>), EngineError>(
            (self.document_ids@, self.id_to_short@),
        )
        &&& parts_lengths(parts) == Ok::<Seq<(u32, Seq<Option<u32>>)>, EngineError>(
            self.field_length@,
        )
        &&& parts_stored(parts, store_fields) == Ok::<
            (Seq<(u32, Seq<(u16, Seq<char>)>)>, Seq<Seq<char>>),
            EngineError,
        >((self.stored_fields@, self.stored_names()))
        &&& parts_field_ids(parts, enumerate_ids(fields, fields.len() as int)) == Ok::<
            Seq<(Seq<char>, u32)>,
            EngineError,
        >(self.field_ids@)
        &&& parts_index(parts) == Ok::<Map<Seq<char>, Postings>, EngineError>(self.index_view())
        &&& self.index_terms() == parts_terms(parts)
    }

    /// What adding a document changed, in terms of the public views.
    pub proof fn lemma_added_views(
        &self,
        old: Engine,
        document: Document,
        id: DocumentId,
        changes: Seq<LengthChange>,
    )
        requires
            self.added(old, document, id, changes),
        ensures
            self.short_ids() == old.short_ids().push((id.key, old.next_short_id())),
            self.documents() == assoc_set(old.documents(), old.next_short_id(), id.json@),
            self.doc_count() == old.doc_count() + 1,
            self.next_short_id() == old.next_short_id() + 1,
            self.dirt() == old.dirt(),
            self.index_view() == index_add_document(
                old.index_view(),
                old.texts_of(document),
                old.next_short_id(),
            ),
            self.index_terms() == keys_with_document(old.index_terms(), old.texts_of(document)),
            self.lengths() == lengths_add_document(
                old.lengths(),
                old.texts_of(document),
                old.next_short_id(),
            ),
            changes == added_lengths(old.texts_of(document), old.doc_count()),
            old.store_field_names().len() == 0 ==> self.stored() == old.stored(),
            old.store_field_names().len() > 0 ==> self.stored() == assoc_set(
                old.stored(),
                old.next_short_id(),
                stored_add(
                    match assoc_get(old.stored(), old.next_short_id()) {
                        Some(values) => values,
                        None => Seq::empty(),
                    },
                    document.stored@,
                    document.stored@.len() as int,
                ),
            ),
            self.field_names() == old.field_names(),
            self.field_id_table() == old.field_id_table(),
            self.store_field_names() == old.store_field_names(),
            self.stored_names() == old.stored_names(),
    {
    }

    /// What removing a document changed, in terms of the public views.
    pub proof fn lemma_removed_views(
        &self,
        old: Engine,
        document: Document,
        id: DocumentId,
        changes: Seq<LengthChange>,
        warnings: Seq<Warning>,
    )
        requires
            self.removed(old, document, id, changes, warnings),
        ensures
            ({
                let short_id = assoc_get(old.short_ids(), id.key)->Some_0;
                let texts = old.texts_of(document);
                &&& self.index_view() == index_remove_document(
                    old.index_view(),
                    texts,
                    short_id,
                    old.field_id_table(),
                    old.documents(),
                ).0
                &&& warnings.map_values(|w: Warning| warning_view(w)) == index_remove_document(
                    old.index_view(),
                    texts,
                    short_id,
                    old.field_id_table(),
                    old.documents(),
                ).1
                &&& self.index_terms() == keys_after_removing_document(
                    old.index_terms(),
                    old.index_view(),
                    texts,
                    short_id,
                ).0
                &&& changes == removed_lengths(texts, old.doc_count())
                &&& self.short_ids() == assoc_remove(old.short_ids(), id.key)
                &&& self.documents() == assoc_remove(old.documents(), short_id)
                &&& self.stored() == assoc_remove(old.stored(), short_id)
                &&& self.lengths() == assoc_remove(old.lengths(), short_id)
            }),
            self.doc_count() == old.doc_count() - 1,
            self.next_short_id() == old.next_short_id(),
            self.dirt() == old.dirt(),
            self.field_names() == old.field_names(),
            self.field_id_table() == old.field_id_table(),
            self.store_field_names() == old.store_field_names(),
            self.stored_names() == old.stored_names(),
    {
    }

    /// What discarding a document changed, in terms of the public views.
    pub proof fn lemma_discarded_views(&self, old: Engine, key: IdKey, changes: Seq<LengthChange>)
        requires
            self.discarded(old, key, changes),
        ensures
            ({
                let short_id = assoc_get(old.short_ids(), key)->Some_0;
                &&& changes == discarded_lengths(
                    match assoc_get(old.lengths(), short_id) {
                        Some(lengths) => lengths,
                        None => Seq::empty(),
                    },
                    old.doc_count(),
                )
                &&& self.short_ids() == assoc_remove(old.short_ids(), key)
                &&& self.documents() == assoc_remove(old.documents(), short_id)
                &&& self.stored() == assoc_remove(old.stored(), short_id)
                &&& self.lengths() == assoc_remove(old.lengths(), short_id)
            }),
            self.index_view() == old.index_view(),
            self.index_entries() == old.index_entries(),
            self.index_terms() == old.index_terms(),
            self.doc_count() == old.doc_count() - 1,
            self.dirt() == old.dirt() + 1,
            self.next_short_id() == old.next_short_id(),
            self.field_names() == old.field_names(),
            self.field_id_table() == old.field_id_table(),
            self.store_field_names() == old.store_field_names(),
            self.stored_names() == old.stored_names(),
    {
    }

    /// What a loaded engine holds, in terms of the public views.
    pub proof fn lemma_loaded_views(
        &self,
        parts: SerializedIndex,
        fields: Seq<Seq<char>>,
        store_fields: Seq<Seq<char>>,
    )
        requires
            self.loaded(parts, fields, store_fields),
        ensures
            self.wf(),
            self.field_names() == fields,
            self.store_field_names() == store_fields,
            self.doc_count() == loaded_count(parts.document_count),
            self.next_short_id() == loaded_count(parts.next_id),
            self.dirt() == loaded_count(parts.dirt_count),
            parts_ids(parts) == Ok::<(Seq<(u32, Seq<char>)>, Seq<(IdKey, u32)>), EngineError>(
                (self.documents(), self.short_ids()),
            ),
            parts_lengths(parts) == Ok::<Seq<(u32, Seq<Option<u32>>)>, EngineError>(self.lengths()),
            parts_stored(parts, store_fields) == Ok::<
                (Seq<(u32, Seq<(u16, Seq<char>)>)>, Seq<Seq<char>>),
                EngineError,
            >((self.stored(), self.stored_names())),
            parts_field_ids(parts, enumerate_ids(fields, fields.len() as int)) == Ok::<
                Seq<(Seq<char>, u32)>,
                EngineError,
            >(self.field_id_table()),
            parts_index(parts) == Ok::<Map<Seq<char>, Postings>, EngineError>(self.index_view()),
            self.index_terms() == parts_terms(parts),
    {
    }

    /// A result as a JSON object: the document ID, the score, the matched
    /// document terms, the matched query terms, the fields of each matched
    /// document term, then the stored fields, which may repeat a key.
    pub closed spec fn hit_json(&self, hit: Hit, terms: Seq<Seq<char>>) -> Seq<char> {
        let matches = hit.matches.field_matches();
        "{\"id\":"@ + assoc_get(self.document_ids@, hit.doc_id)->Some_0 + ",\"score\":"@
            + hit.score@ + ",\"terms\":"@ + json_array(
            quoted_terms(matches.map_values(|entry: (u16, Seq<u32>)| entry.0), terms),
        ) + ",\"queryTerms\":"@ + json_array(quoted_terms(hit.matches.query_terms(), terms))
            + ",\"match\":"@ + json_object(match_members(matches, terms, self.field_ids@))
            + stored_suffix(
            match assoc_get(self.stored_fields@, hit.doc_id) {
                Some(values) => values,
                None => Seq::empty(),
            },
            self.stored_names(),
        ) + seq!['}']
    }

    /// The serialized index, spelled out over the public views.
    pub proof fn lemma_serialized_is(&self, averages: Seq<Seq<char>>)
        ensures
            self.serialized(averages) == "{\"documentCount\":"@ + decimal(self.doc_count() as nat)
                + ",\"nextId\":"@ + decimal(self.next_short_id() as nat) + ",\"documentIds\":"@
                + json_object(
                self.documents().map_values(|entry: (u32, Seq<char>)| id_member(entry)),
            ) + ",\"fieldIds\":"@ + json_object(
                self.field_id_table().map_values(|entry: (Seq<char>, u32)| field_id_member(entry)),
            ) + ",\"fieldLength\":"@ + json_object(
                self.lengths().map_values(|entry: (u32, Seq<Option<u32>>)| lengths_member(entry)),
            ) + ",\"averageFieldLength\":"@ + json_array(averages) + ",\"storedFields\":"@
                + json_object(
                self.stored().map_values(
                    |entry: (u32, Seq<(u16, Seq<char>)>)| stored_member(entry, self.stored_names()),
                ),
            ) + ",\"dirtCount\":"@ + decimal(self.dirt() as nat) + ",\"index\":"@ + json_array(
                self.index_entries().map_values(|entry: (Seq<char>, Postings)| term_item(entry)),
            ) + ",\"serializationVersion\":2}"@,
    {
    }

    /// The serialized text ends with the index as a JSON array with one item
    /// per index entry, in traversal order, and each item is valid JSON that
    /// denotes its entry: a JSON string that denotes the term and an object
    /// that reads back as every field of the term with every document and
    /// frequency of its posting list.
    pub proof fn lemma_serialized_index_reads_back(&self, averages: Seq<Seq<char>>)
        ensures
            exists|head: Seq<char>|
                self.serialized(averages) == head + ",\"index\":"@ + json_array(
                    self.index_entries().map_values(|entry: (Seq<char>, Postings)| term_item(entry)),
                ) + ",\"serializationVersion\":2}"@,
            forall|i: int|
                0 <= i < self.index_entries().len() ==> exists|key: Seq<char>, postings: Seq<char>|
                    term_item(#[trigger] self.index_entries()[i]) == seq!['['] + key + seq![',']
                        + postings + seq![']'] && json_string_value(key) == Some(
                        self.index_entries()[i].0,
                    ) && read_postings_object(postings) == Some(self.index_entries()[i].1),
    {
        self.lemma_serialized_is(averages);
        let index = json_array(
            self.index_entries().map_values(|entry: (Seq<char>, Postings)| term_item(entry)),
        );
        let tail = ",\"serializationVersion\":2}"@;
        let marker = ",\"index\":"@;
        let whole = self.serialized(averages);
        let head = whole.take(whole.len() - tail.len() - index.len() - marker.len());
        assert(whole =~= head + marker + index + tail);
        assert forall|i: int| 0 <= i < self.index_entries().len() implies exists|
            key: Seq<char>,
            postings: Seq<char>,
        |
            term_item(#[trigger] self.index_entries()[i]) == seq!['['] + key + seq![','] + postings
                + seq![']'] && json_string_value(key) == Some(self.index_entries()[i].0)
                && read_postings_object(postings) == Some(self.index_entries()[i].1) by {
            lemma_term_item_reads_back(self.index_entries()[i]);
        }
    }

    /// The serialized text holds the field lengths as a JSON object, right
    /// after the `fieldLength` key, that reads back as every document with
    /// the length of each of its fields, in order.
    #[verifier::spinoff_prover]
    #[verifier::rlimit(100)]
    pub proof fn lemma_serialized_lengths_read_back(&self, averages: Seq<Seq<char>>)
        ensures
            exists|head: Seq<char>, lengths: Seq<char>, tail: Seq<char>|
                self.serialized(averages) == head + ",\"fieldLength\":"@ + lengths
                    + ",\"averageFieldLength\":"@ + tail && read_lengths_object(lengths) == Some(
                    self.lengths(),
                ),
    {
        self.lemma_serialized_is(averages);
        let lengths = json_object(
            self.lengths().map_values(|entry: (u32, Seq<Option<u32>>)| lengths_member(entry)),
        );
        lemma_lengths_object_reads_back(self.lengths());
        let head = "{\"documentCount\":"@ + decimal(self.doc_count() as nat) + ",\"nextId\":"@
            + decimal(self.next_short_id() as nat) + ",\"documentIds\":"@ + json_object(
            self.documents().map_values(|entry: (u32, Seq<char>)| id_member(entry)),
        ) + ",\"fieldIds\":"@ + json_object(
            self.field_id_table().map_values(|entry: (Seq<char>, u32)| field_id_member(entry)),
        );
        let tail = json_array(averages) + ",\"storedFields\":"@ + json_object(
            self.stored().map_values(
                |entry: (u32, Seq<(u16, Seq<char>)>)| stored_member(entry, self.stored_names()),
            ),
        ) + ",\"dirtCount\":"@ + decimal(self.dirt() as nat) + ",\"index\":"@ + json_array(
            self.index_entries().map_values(|entry: (Seq<char>, Postings)| term_item(entry)),
        ) + ",\"serializationVersion\":2}"@;
        assert(self.serialized(averages) =~= head + ",\"fieldLength\":"@ + lengths
            + ",\"averageFieldLength\":"@ + tail);
    }

    /// A result as a JSON object, spelled out over the public views.
    pub proof fn lemma_hit_json_is(&self, hit: Hit, terms: Seq<Seq<char>>)
        ensures
            self.hit_json(hit, terms) == "{\"id\":"@ + assoc_get(self.documents(), hit.doc_id)->Some_0
                + ",\"score\":"@ + hit.score@ + ",\"terms\":"@ + json_array(
                quoted_terms(
                    hit.matches.field_matches().map_values(|entry: (u16, Seq<u32>)| entry.0),
                    terms,
                ),
            ) + ",\"queryTerms\":"@ + json_array(quoted_terms(hit.matches.query_terms(), terms))
                + ",\"match\":"@ + json_object(
                match_members(hit.matches.field_matches(), terms, self.field_id_table()),
            ) + stored_suffix(
                match assoc_get(self.stored(), hit.doc_id) {
                    Some(values) => values,
                    None => Seq::empty(),
                },
                self.stored_names(),
            ) + seq!['}'],
            self.hit_known(hit, terms) == {
                &&& has_key(self.documents(), hit.doc_id)
                &&& forall|i: int|
                    0 <= i < hit.matches.query_terms().len() ==> ((
                    #[trigger] hit.matches.query_terms()[i]) as int) < terms.len()
                &&& forall|i: int|
                    0 <= i < hit.matches.field_matches().len() ==> ((
                    #[trigger] hit.matches.field_matches()[i]).0 as int) < terms.len()
            },
    {
    }

    /// The field texts of a document, spelled out over the public views.
    pub proof fn lemma_texts_of_is(&self, document: Document)
        ensures
            self.texts_of(document) == field_texts(
                self.field_id_table(),
                self.field_names(),
                document.texts@,
                self.field_names().len() as int,
            ),
    {
    }

    /// Whether every document and term a result refers to is known.
    pub closed spec fn hit_known(&self, hit: Hit, terms: Seq<Seq<char>>) -> bool {
        &&& has_key(self.document_ids@, hit.doc_id)
        &&& forall|i: int|
            0 <= i < hit.matches.query_terms().len() ==> ((#[trigger] hit.matches.query_terms()[i])
                as int) < terms.len()
        &&& forall|i: int|
            0 <= i < hit.matches.field_matches().len() ==> ((
            #[trigger] hit.matches.field_matches()[i]).0 as int) < terms.len()
    }

    /// Whether a document with this ID key is indexed and searchable.
    pub open spec fn contains(&self, key: IdKey) -> bool {
        has_key(self.short_ids(), key)
    }

    /// An empty engine over the given indexed and stored fields. Each field
    /// gets its position as its ID.
    #[verifier::spinoff_prover]
    pub fn new(fields: Vec<String>, store_fields: Vec<String>, tokenizer: Tokenizer) -> (engine:
        Engine)
        ensures
            engine.wf(),
            engine.field_names() == views(fields@),
            engine.store_field_names() == views(store_fields@),
            engine.stored_names() == views(store_fields@),
            engine.field_id_table() == enumerate_ids(views(fields@), fields@.len() as int),
            engine.index_view() == Map::<Seq<char>, Postings>::empty(),
            engine.index_terms() == Seq::<Seq<char>>::empty(),
            engine.documents() == Seq::<(u32, Seq<char>)>::empty(),
            engine.short_ids() == Seq::<(IdKey, u32)>::empty(),
            engine.lengths() == Seq::<(u32, Seq<Option<u32>>)>::empty(),
            engine.stored() == Seq::<(u32, Seq<(u16, Seq<char>)>)>::empty(),
            engine.doc_count() == 0,
            engine.dirt() == 0,
            engine.next_short_id() == 0,
            engine.consistent(),
    {
        proof {
            reveal(Engine::index_terms);
        }
        let mut field_ids = FieldIds::new();
        let mut position: usize = 0;
        while position < fields.len()
            invariant
                position <= fields@.len(),
                field_ids@ == enumerate_ids(views(fields@), position as int),
                unique_keys(field_ids@),
            decreases fields@.len() - position,
        {
            proof {
                lemma_assoc_set_unique(
                    field_ids@,
                    fields@[position as int]@,
                    position as u32,
                );
            }
            field_ids.insert(fields[position].clone(), position as u32);
            position = position + 1;
        }
        let index = RadixTree::new();
        let stored_field_names = store_fields.clone();
        proof {
            assert(views(stored_field_names@) =~= views(store_fields@));
        }
        let engine = Engine {
            fields,
            field_ids,
            store_fields,
            index,
            document_count: 0,
            document_ids: DocumentIds::new(),
            id_to_short: ShortIds::new(),
            field_length: FieldLengths::new(),
            next_id: 0,
            stored_fields: StoredFields::new(),
            stored_field_names,
            dirt_count: 0,
            tokenizer,
        };
        proof {
            assert(engine.index_view() =~= Map::<Seq<char>, Postings>::empty());
            assert(engine.ids_consistent());
        }
        engine
    }

    /// The number of searchable documents.
    #[verifier::spinoff_prover]
    pub fn document_count(&self) -> (count: u32)
        ensures
            count == self.doc_count(),
    {
        self.document_count
    }

    /// The number of terms in the index.
    #[verifier::spinoff_prover]
    pub fn term_count(&self) -> (count: usize)
        requires
            self.wf(),
        ensures
            count == self.index_view().len(),
    {
        proof {
            assert(self.index_view().dom() =~= self.index@.dom());
        }
        self.index.len()
    }

    /// The number of discards since the last vacuum.
    #[verifier::spinoff_prover]
    pub fn dirt_count(&self) -> (count: u32)
        ensures
            count == self.dirt(),
    {
        self.dirt_count
    }

    /// The short ID that the next added document gets.
    #[verifier::spinoff_prover]
    pub fn next_id(&self) -> (id: u32)
        ensures
            id == self.next_short_id(),
    {
        self.next_id
    }

    /// The indexed fields, in order.
    #[verifier::spinoff_prover]
    pub fn fields(&self) -> (fields: &Vec<String>)
        ensures
            views(fields@) == self.field_names(),
    {
        &self.fields
    }

    /// The stored fields, in order.
    #[verifier::spinoff_prover]
    pub fn store_fields(&self) -> (fields: &Vec<String>)
        ensures
            views(fields@) == self.store_field_names(),
    {
        &self.store_fields
    }

    /// Whether a document with this ID key is indexed and searchable.
    #[verifier::spinoff_prover]
    pub fn has(&self, key: &IdKey) -> (found: bool)
        requires
            self.wf(),
        ensures
            found == self.contains(*key),
    {
        self.id_to_short.get(key).is_some()
    }

    /// The warning for a term missing from field `field_id` of a removed
    /// document, if the field has a name.
    #[verifier::spinoff_prover]
    fn warn_document_changed(&self, short_id: u32, field_id: u32, term: &str) -> (warning: Option<
        Warning,
    >)
        requires
            self.wf(),
        ensures
            warning_for(
                self.field_id_table(),
                self.documents(),
                short_id,
                field_id,
                term@,
                warning,
            ),
    {
        let ghost table = self.field_ids@;
        let mut i: usize = 0;
        let len = self.field_ids.len();
        while i < len
            invariant
                self.wf(),
                len == table.len(),
                table == self.field_ids@,
                i <= len,
                forall|j: int| 0 <= j < i ==> (#[trigger] table[j]).1 != field_id,
            decreases len - i,
        {
            let (name, id) = self.field_ids.get_index(i).unwrap();
            if *id == field_id {
                let document_id = match self.document_ids.get(short_id) {
                    Some(json) => Some(json.clone()),
                    None => None,
                };
                proof {
                    let k = choose|k: int|
                        0 <= k < table.len() && (#[trigger] table[k]).1 == field_id && forall|j: int|
                            0 <= j < k ==> (#[trigger] table[j]).1 != field_id;
                    assert(table[i as int].1 == field_id);
                    if k < i {
                    } else if k > i {
                        assert(table[i as int].1 != field_id);
                    }
                }
                return Some(Warning { document_id, term: term.to_string(), field: name.clone() });
            }
            i = i + 1;
        }
        None
    }

    /// Takes away one occurrence of `term` in field `field_id` of document
    /// `document_id`: a frequency above one is decremented, and otherwise the
    /// document, then the field, then the term are removed as they become
    /// empty. When the occurrence is absent the index is left unchanged and
    /// the warning is returned.
    #[verifier::spinoff_prover]
    fn remove_term(&mut self, field_id: u32, document_id: u32, term: &str) -> (warning: Option<
        Warning,
    >)
        requires
            old(self).wf(),
        ensures
            final(self).wf(),
            final(self).index_view() == index_remove(
                old(self).index_view(),
                term@,
                field_id,
                document_id,
            ),
            final(self).index@.len() <= old(self).index@.len(),
            final(self).unchanged_but_index(*old(self)),
            removal_order(
                old(self).index_terms(),
                final(self).index_terms(),
                final(self).index@.contains_key(term@),
                term@,
            ),
            ({
                let iv = old(self).index_view();
                if iv.contains_key(term@) && posting_has(iv[term@], field_id, document_id) {
                    warning is None
                } else {
                    warning_for(
                        old(self).field_id_table(),
                        old(self).documents(),
                        document_id,
                        field_id,
                        term@,
                        warning,
                    )
                }
            }),
    {
        proof {
            reveal(Engine::index_terms);
        }
        let ghost old_self = *self;
        let ghost f = |d: DocFreqs| d@;
        proof {
            old_self.lemma_terms_are_the_index(term@);
        }
        let freq = match self.index.get(term) {
            Some(data) => match data.get(field_id) {
                Some(docs) => match docs.get(document_id) {
                    Some(freq) => Some(*freq),
                    None => None,
                },
                None => None,
            },
            None => None,
        };
        proof {
            let iv = old_self.index_view();
            if self.index@.contains_key(term@) {
                let data = self.index@[term@];
                lemma_map_second(data@, f);
                assert(iv[term@] == postings_view(data));
                if has_key(data@, field_id) {
                    let i = index_of(data@, field_id);
                    assert(data@[i].1.wf());
                }
            }
        }
        let freq = match freq {
            Some(freq) => freq,
            None => {
                proof {
                    reveal(removal_order);
                    reveal(keys_dropping);
                }
                return self.warn_document_changed(document_id, field_id, term);
            },
        };
        let data = self.index.get_mut(term).unwrap();
        let ghost data0 = *data;
        let ghost data_final = *final(data);
        let ghost pv = postings_view(data0);
        proof {
            lemma_map_second(data0@, f);
            let i = index_of(data0@, field_id);
            assert(data0@[i].1.wf());
            assert(old_self.index_view()[term@] == pv);
            assert(posting_has(pv, field_id, document_id));
            assert(assoc_get(assoc_get(pv, field_id)->Some_0, document_id)->Some_0 == freq);
        }
        if freq <= 1 {
            let remove_field = match data.get(field_id) {
                Some(docs) => docs.len() <= 1,
                None => false,
            };
            if remove_field {
                data.remove(field_id);
                proof {
                    lemma_map_second_remove(data0@, f, field_id);
                    lemma_assoc_remove_unique(data0@, field_id);
                    assert(postings_view(*data) == posting_remove(pv, field_id, document_id));
                    assert forall|i: int| 0 <= i < data@.len() implies (#[trigger] data@[i]).1.wf() by {
                        let p = index_of(data0@, field_id);
                        let fi = if i < p { i } else { i + 1 };
                        assert(data@[i] == data0@[fi]);
                    }
                }
            } else {
                let docs = data.get_mut(field_id).unwrap();
                let ghost docs0 = *docs;
                docs.remove(document_id);
                proof {
                    lemma_assoc_remove_unique(docs0@, document_id);
                    lemma_assoc_set_unique(data0@, field_id, *docs);
                    lemma_map_second_set(data0@, f, field_id, *docs);
                    assert(postings_view(*data) == posting_remove(pv, field_id, document_id));
                    assert forall|i: int| 0 <= i < data@.len() implies (#[trigger] data@[i]).1.wf() by {
                        if data@[i].0 != field_id {
                            assert(data@[i] == data0@[i]);
                        }
                    }
                }
            }
        } else {
            let docs = data.get_mut(field_id).unwrap();
            let ghost docs0 = *docs;
            docs.insert(document_id, freq - 1);
            proof {
                lemma_assoc_set_unique(docs0@, document_id, (freq - 1) as u32);
                lemma_assoc_set_unique(data0@, field_id, *docs);
                lemma_map_second_set(data0@, f, field_id, *docs);
                assert(postings_view(*data) == posting_remove(pv, field_id, document_id));
                assert forall|i: int| 0 <= i < data@.len() implies (#[trigger] data@[i]).1.wf() by {
                    if data@[i].0 != field_id {
                        assert(data@[i] == data0@[i]);
                    }
                }
            }
        }
        let now_empty = data.is_empty();
        proof {
            assert(postings_wf(data_final));
            assert(postings_view(data_final) == posting_remove(pv, field_id, document_id));
            assert(self.index@ == old_self.index@.insert(term@, data_final));
            assert forall|t: Seq<char>| #[trigger] self.index@.contains_key(t) implies postings_wf(
                self.index@[t],
            ) by {
                if t != term@ {
                    assert(old_self.index@.contains_key(t));
                }
            }
            assert(self.index@.dom() =~= old_self.index@.dom());
            if !now_empty {
                assert(self.index_view() =~= index_remove(
                    old_self.index_view(),
                    term@,
                    field_id,
                    document_id,
                ));
            }
        }
        if now_empty {
            let ghost mid = *self;
            self.index.remove(term);
            proof {
                assert(self.index@ == old_self.index@.remove(term@));
                assert(postings_view(data_final).len() == 0);
                assert(self.index_view() =~= index_remove(
                    old_self.index_view(),
                    term@,
                    field_id,
                    document_id,
                ));
                assert forall|t: Seq<char>| #[trigger] self.index@.contains_key(t) implies postings_wf(
                    self.index@[t],
                ) by {
                    assert(mid.index@.contains_key(t));
                }
                assert(self.index@.dom() =~= old_self.index@.dom().remove(term@));
                old_self.index.lemma_finite();
            }
        }
        proof {
            reveal(removal_order);
            reveal(keys_dropping);
        }
        None
    }

    /// Whether every indexed field in which `document` has text has an ID
    /// small enough to be a position, as adding and removing it requires.
    #[verifier::spinoff_prover]
    pub fn is_ready_for(&self, document: &Document) -> (ready: bool)
        requires
            self.wf(),
            document.texts@.len() == self.field_names().len(),
        ensures
            ready == self.ready_for(*document),
    {
        let mut i: usize = 0;
        while i < self.fields.len()
            invariant
                self.wf(),
                document.texts@.len() == self.fields@.len(),
                i <= self.fields@.len(),
                forall|j: int|
                    0 <= j < i && (#[trigger] document.texts@[j]) is Some ==> {
                        &&& has_key(self.field_ids@, self.fields@[j]@)
                        &&& (assoc_get(self.field_ids@, self.fields@[j]@)->Some_0 as int)
                            < usize::MAX
                    },
            decreases self.fields@.len() - i,
        {
            if document.texts[i].is_some() {
                match self.field_ids.get(self.fields[i].as_str()) {
                    Some(id) => {
                        if id as u64 >= usize::MAX as u64 {
                            proof {
                                assert(document.texts@[i as int] is Some);
                            }
                            return false;
                        }
                    },
                    None => {
                        proof {
                            assert(document.texts@[i as int] is Some);
                        }
                        return false;
                    },
                }
            }
            i = i + 1;
        }
        true
    }

    /// Whether every indexed field has an ID small enough to be a position,
    /// as adding and removing documents requires.
    #[verifier::spinoff_prover]
    pub fn is_ready(&self) -> (ready: bool)
        requires
            self.wf(),
        ensures
            ready == self.ready(),
    {
        let mut i: usize = 0;
        while i < self.fields.len()
            invariant
                self.wf(),
                i <= self.fields@.len(),
                forall|j: int|
                    0 <= j < i ==> {
                        &&& has_key(self.field_ids@, (#[trigger] self.fields@[j])@)
                        &&& (assoc_get(self.field_ids@, self.fields@[j]@)->Some_0 as int)
                            < usize::MAX
                    },
            decreases self.fields@.len() - i,
        {
            match self.field_ids.get(self.fields[i].as_str()) {
                Some(id) => {
                    if id as u64 >= usize::MAX as u64 {
                        return false;
                    }
                },
                None => {
                    return false;
                },
            }
            i = i + 1;
        }
        true
    }

    /// Whether the index has room for the terms of `document`: the index
    /// can hold fewer than `usize::MAX` terms.
    #[verifier::spinoff_prover]
    pub fn has_room_for(&self, document: &Document) -> (room: bool)
        requires
            self.wf(),
        ensures
            room == (self.index_view().len() + text_size(document.texts@) < usize::MAX),
    {
        proof {
            assert(self.index_view().dom() =~= self.index@.dom());
        }
        let mut size: usize = self.index.len();
        assert(size == self.index_view().len());
        if size == usize::MAX {
            return false;
        }
        proof {
            assert(document.texts@.take(0) =~= Seq::<Option<String>>::empty());
        }
        let mut i: usize = 0;
        while i < document.texts.len()
            invariant
                self.wf(),
                i <= document.texts@.len(),
                size == self.index_view().len() + text_size(document.texts@.take(i as int)),
                size < usize::MAX,
            decreases document.texts@.len() - i,
        {
            proof {
                assert(document.texts@.take(i + 1).drop_last() =~= document.texts@.take(i as int));
            }
            match &document.texts[i] {
                Some(text) => {
                    let length = crate::text::chars_of(text.as_str()).len();
                    proof {
                        assert(document.texts@.take(i + 1).last() == document.texts@[i as int]);
                        assert(text_size(document.texts@.take(i + 1)) == text_size(
                            document.texts@.take(i as int),
                        ) + length + 1);
                    }
                    if length >= usize::MAX - 1 - size {
                        proof {
                            lemma_text_size_take(document.texts@, i as int + 1);
                        }
                        return false;
                    }
                    size = size + length + 1;
                },
                None => {},
            }
            i = i + 1;
        }
        proof {
            assert(document.texts@.take(document.texts@.len() as int) =~= document.texts@);
        }
        true
    }

    /// The terms of each indexed field of `document` that has text.
    #[verifier::spinoff_prover]
    fn tokenized_fields(&self, document: &Document) -> (tokens: Vec<FieldTokens>)
        requires
            self.wf(),
            self.ready_for(*document),
            document.texts@.len() == self.fields@.len(),
        ensures
            tokens@.len() == self.texts_of(*document).len(),
            forall|i: int|
                0 <= i < tokens@.len() ==> {
                    let text = self.texts_of(*document)[i];
                    &&& (#[trigger] tokens@[i]).field_id == text.0
                    &&& views(tokens@[i].terms@) == text_terms(text.1)
                    &&& tokens@[i].terms@.len() <= text.1.len() + 1
                    &&& tokens@[i].unique_tokens == distinct_tokens(text.1) as u32
                },
    {
        let mut tokens: Vec<FieldTokens> = Vec::new();
        let ghost names = views(self.fields@);
        let mut i: usize = 0;
        while i < self.fields.len()
            invariant
                self.wf(),
                self.ready_for(*document),
                names == views(self.fields@),
                document.texts@.len() == self.fields@.len(),
                i <= self.fields@.len(),
                tokens@.len() == field_texts(self.field_ids@, names, document.texts@, i as int).len(),
                forall|j: int|
                    0 <= j < tokens@.len() ==> {
                        let text = field_texts(self.field_ids@, names, document.texts@, i as int)[j];
                        &&& (#[trigger] tokens@[j]).field_id == text.0
                        &&& views(tokens@[j].terms@) == text_terms(text.1)
                        &&& tokens@[j].terms@.len() <= text.1.len() + 1
                        &&& tokens@[j].unique_tokens == distinct_tokens(text.1) as u32
                    },
            decreases self.fields@.len() - i,
        {
            match &document.texts[i] {
                Some(text) => {
                    proof {
                        assert(has_key(self.field_ids@, (self.fields@[i as int])@));
                    }
                    let field_id = self.field_ids.get(self.fields[i].as_str()).unwrap();
                    let (terms, unique) = self.tokenizer.terms(text.as_str());
                    tokens.push(FieldTokens { field_id, unique_tokens: unique as u32, terms });
                },
                None => {},
            }
            i = i + 1;
        }
        tokens
    }

    /// Records the length of field `field_id` of document `document_id`.
    #[verifier::spinoff_prover]
    fn add_field_length(&mut self, document_id: u32, field_id: u32, length: u32)
        requires
            old(self).wf(),
            (field_id as int) < usize::MAX,
        ensures
            final(self).wf(),
            final(self).field_length@ == assoc_set(
                old(self).field_length@,
                document_id,
                set_length(
                    match assoc_get(old(self).field_length@, document_id) {
                        Some(lengths) => lengths,
                        None => Seq::empty(),
                    },
                    field_id as int,
                    length,
                ),
            ),
            final(self).index == old(self).index,
            final(self).document_ids == old(self).document_ids,
            final(self).id_to_short == old(self).id_to_short,
            final(self).stored_fields == old(self).stored_fields,
            final(self).field_ids == old(self).field_ids,
            final(self).fields == old(self).fields,
            final(self).store_fields == old(self).store_fields,
            final(self).stored_field_names == old(self).stored_field_names,
            final(self).document_count == old(self).document_count,
            final(self).next_id == old(self).next_id,
            final(self).dirt_count == old(self).dirt_count,
            final(self).tokenizer == old(self).tokenizer,
    {
        let ghost table = self.field_length@;
        let mut lengths: Vec<Option<u32>> = match self.field_length.get(document_id) {
            Some(lengths) => lengths.clone(),
            None => Vec::new(),
        };
        let ghost start = lengths@;
        proof {
            if has_key(table, document_id) {
                assert(start == assoc_get(table, document_id)->Some_0);
            } else {
                assert(start =~= Seq::<Option<u32>>::empty());
            }
        }
        let position = field_id as usize;
        if lengths.len() <= position {
            while lengths.len() <= position
                invariant
                    position == field_id as int,
                    (position as int) < usize::MAX,
                    start.len() <= lengths@.len() <= position + 1,
                    lengths@.subrange(0, start.len() as int) == start,
                    forall|i: int| start.len() <= i < lengths@.len() ==> lengths@[i] is None,
                decreases position + 1 - lengths@.len(),
            {
                lengths.push(None);
            }
        }
        lengths.set(position, Some(length));
        proof {
            assert(lengths@ =~= set_length(start, field_id as int, length));
            lemma_assoc_set_unique(table, document_id, lengths@);
        }
        self.field_length.insert(document_id, lengths);
    }

    /// Saves the present stored fields of `document` for `document_id`, if
    /// any field is stored.
    #[verifier::spinoff_prover]
    fn save_stored_fields(&mut self, document_id: u32, document: &Document)
        requires
            old(self).wf(),
            document.stored@.len() == old(self).store_fields@.len(),
        ensures
            final(self).wf(),
            old(self).store_fields@.len() == 0 ==> final(self).stored_fields@ == old(self).stored_fields@,
            old(self).store_fields@.len() > 0 ==> final(self).stored_fields@ == assoc_set(
                old(self).stored_fields@,
                document_id,
                stored_add(
                    match assoc_get(old(self).stored_fields@, document_id) {
                        Some(values) => values,
                        None => Seq::empty(),
                    },
                    document.stored@,
                    document.stored@.len() as int,
                ),
            ),
            final(self).index == old(self).index,
            final(self).document_ids == old(self).document_ids,
            final(self).id_to_short == old(self).id_to_short,
            final(self).field_length == old(self).field_length,
            final(self).field_ids == old(self).field_ids,
            final(self).fields == old(self).fields,
            final(self).store_fields == old(self).store_fields,
            final(self).stored_field_names == old(self).stored_field_names,
            final(self).document_count == old(self).document_count,
            final(self).next_id == old(self).next_id,
            final(self).dirt_count == old(self).dirt_count,
            final(self).tokenizer == old(self).tokenizer,
    {
        if self.store_fields.len() == 0 {
            return;
        }
        let ghost table = self.stored_fields@;
        let mut entries: Vec<(u16, String)> = match self.stored_fields.get(document_id) {
            Some(entries) => copy_stored(entries),
            None => Vec::new(),
        };
        let ghost start = stored_view(entries@);
        let ghost names_len = self.stored_field_names@.len();
        proof {
            if has_key(table, document_id) {
                let i = index_of(table, document_id);
                assert(unique_keys(table[i].1));
                assert(stored_view(entries@) == table[i].1);
                assert forall|j: int| 0 <= j < start.len() implies (#[trigger] start[j]).0 < names_len by {
                    assert(table[i].1[j] == start[j]);
                }
            } else {
                assert(start =~= Seq::<(u16, Seq<char>)>::empty());
            }
        }
        let mut index: usize = 0;
        while index < document.stored.len()
            invariant
                index <= document.stored@.len(),
                stored_view(entries@) == stored_add(start, document.stored@, index as int),
                unique_keys(stored_view(entries@)),
                document.stored@.len() <= names_len,
                forall|j: int|
                    0 <= j < stored_view(entries@).len() ==> (#[trigger] stored_view(entries@)[j]).0
                        < names_len,
            decreases document.stored@.len() - index,
        {
            match &document.stored[index] {
                Some(json) => {
                    let id = index as u16;
                    let mut position: usize = 0;
                    let ghost values = stored_view(entries@);
                    while position < entries.len()
                        invariant
                            position <= entries@.len(),
                            values == stored_view(entries@),
                            forall|j: int| 0 <= j < position ==> (#[trigger] values[j]).0 != id,
                        ensures
                            position <= entries@.len(),
                            position < entries@.len() ==> values[position as int].0 == id,
                            forall|j: int| 0 <= j < position ==> (#[trigger] values[j]).0 != id,
                        decreases entries@.len() - position,
                    {
                        if entries[position].0 == id {
                            break;
                        }
                        position = position + 1;
                    }
                    proof {
                        lemma_assoc_set_unique(values, id, json@);
                    }
                    if position < entries.len() {
                        proof {
                            assert(values[position as int].0 == id);
                            assert(has_key(values, id));
                            assert(index_of(values, id) == position);
                        }
                        entries.set(position, (id, json.clone()));
                        proof {
                            assert(stored_view(entries@) =~= assoc_set(values, id, json@));
                        }
                    } else {
                        proof {
                            assert(!has_key(values, id));
                        }
                        entries.push((id, json.clone()));
                        proof {
                            assert(stored_view(entries@) =~= assoc_set(values, id, json@));
                        }
                    }
                },
                None => {},
            }
            index = index + 1;
        }
        proof {
            lemma_assoc_set_unique(table, document_id, stored_view(entries@));
            let new_table = assoc_set(table, document_id, stored_view(entries@));
            assert forall|i: int| 0 <= i < new_table.len() implies unique_keys(#[trigger] new_table[i].1) by {
                if new_table[i].0 != document_id {
                    assert(new_table[i] == table[i]);
                }
            }
            assert forall|i: int, j: int|
                0 <= i < new_table.len() && 0 <= j < new_table[i].1.len() implies (
                #[trigger] new_table[i].1[j]).0 < names_len by {
                let p = if has_key(table, document_id) {
                    index_of(table, document_id)
                } else {
                    table.len() as int
                };
                assert(new_table[p].0 == document_id);
                if i != p {
                    assert(new_table[i] == table[i]);
                    assert(table[i].1[j] == self.stored_fields@[i].1[j]);
                } else {
                    assert(new_table[i].1 == stored_view(entries@));
                }
            }
        }
        self.stored_fields.insert(document_id, entries);
    }

    /// Adds a document. Refused, leaving the engine unchanged, when the
    /// document has no ID or its ID is already indexed. Otherwise the
    /// document gets the next short ID, its stored fields are saved, the
    /// distinct-token count of each indexed field with text is recorded as
    /// that field's length, and every term of every such field is indexed.
    /// The length changes are returned in field order.
    #[verifier::spinoff_prover]
    pub fn add(&mut self, document: &Document) -> (result: Result<Vec<LengthChange>, EngineError>)
        requires
            old(self).wf(),
            document.id matches Some(id) && !old(self).contains(id.key) ==> old(self).ready_for(
                *document,
            ),
            document.texts@.len() == old(self).field_names().len(),
            document.stored@.len() == old(self).store_field_names().len(),
            old(self).next_short_id() < u32::MAX,
            old(self).doc_count() < u32::MAX,
            old(self).index_view().len() + text_size(document.texts@) < usize::MAX,
        ensures
            final(self).wf(),
            old(self).ready() ==> final(self).ready(),
            match result {
                Err(EngineError::MissingId) => document.id is None && *final(self) == *old(self),
                Err(EngineError::DuplicateId) => document.id matches Some(id) && old(self).contains(
                    id.key,
                ) && *final(self) == *old(self),
                Err(_) => false,
                Ok(changes) => document.id matches Some(id) && !old(self).contains(id.key)
                    && final(self).added(*old(self), *document, id, changes@),
            },
    {
        proof {
            reveal(Engine::index_terms);
        }
        let id = match &document.id {
            Some(id) => id,
            None => {
                return Err(EngineError::MissingId);
            },
        };
        if self.id_to_short.get(&id.key).is_some() {
            return Err(EngineError::DuplicateId);
        }
        let ghost old_self = *self;
        let short_id = self.next_id;
        self.next_id = self.next_id + 1;
        proof {
            lemma_assoc_set_unique(self.id_to_short@, id.key, short_id);
            lemma_assoc_set_unique(self.document_ids@, short_id, id.json@);
        }
        self.id_to_short.insert(id.key.copy(), short_id);
        self.document_ids.insert(short_id, id.json.clone());
        self.document_count = self.document_count + 1;
        self.save_stored_fields(short_id, document);
        let ghost registered = *self;
        let fields = self.tokenized_fields(document);
        let ghost texts = old_self.texts_of(*document);
        assert(texts == self.texts_of(*document));
        proof {
            lemma_field_texts_size(
                old_self.field_ids@,
                views(old_self.fields@),
                document.texts@,
                document.texts@.len() as int,
            );
            assert(document.texts@.take(document.texts@.len() as int) =~= document.texts@);
            assert(old_self.index_view().dom() =~= old_self.index@.dom());
            assert(texts.take(0) =~= Seq::<(u32, Seq<char>)>::empty());
            lemma_field_texts_ids(
                old_self.field_ids@,
                views(old_self.fields@),
                document.texts@,
                document.texts@.len() as int,
            );
        }
        let mut changes: Vec<LengthChange> = Vec::new();
        let mut k: usize = 0;
        while k < fields.len()
            invariant
                self.wf(),
                self.ready_for(*document),
                old_self.ready() ==> self.ready(),
                fields@.len() == texts.len(),
                forall|i: int|
                    0 <= i < fields@.len() ==> {
                        let text = texts[i];
                        &&& (#[trigger] fields@[i]).field_id == text.0
                        &&& views(fields@[i].terms@) == text_terms(text.1)
                        &&& fields@[i].terms@.len() <= text.1.len() + 1
                        &&& fields@[i].unique_tokens == distinct_tokens(text.1) as u32
                    },
                forall|i: int| 0 <= i < texts.len() ==> ((#[trigger] texts[i]).0 as int) < usize::MAX,
                k <= fields@.len(),
                self.document_count >= 1,
                self.index_view() == index_add_document(old_self.index_view(), texts.take(k as int), short_id),
                self.index_terms() == keys_with_document(old_self.index_terms(), texts.take(k as int)),
                self.field_length@ == lengths_add_document(old_self.field_length@, texts.take(k as int), short_id),
                changes@ == added_lengths(texts.take(k as int), (registered.document_count - 1) as u32),
                self.index@.len() <= old_self.index@.len() + pair_size(texts.take(k as int)),
                old_self.index@.len() + pair_size(texts) < usize::MAX,
                self.document_ids == registered.document_ids,
                self.id_to_short == registered.id_to_short,
                self.stored_fields == registered.stored_fields,
                self.field_ids == registered.field_ids,
                self.fields == registered.fields,
                self.store_fields == registered.store_fields,
                self.stored_field_names == registered.stored_field_names,
                self.document_count == registered.document_count,
                self.next_id == registered.next_id,
                self.dirt_count == registered.dirt_count,
                self.tokenizer == registered.tokenizer,
            decreases fields@.len() - k,
        {
            let field = &fields[k];
            proof {
                reveal(Engine::index_terms);
                assert(texts.take(k + 1).drop_last() =~= texts.take(k as int));
                assert(texts.take(k + 1).last() == texts[k as int]);
                lemma_pair_size_take(texts, k + 1);
            }
            self.add_field_length(short_id, field.field_id, field.unique_tokens);
            changes.push(
                LengthChange {
                    field_id: field.field_id,
                    count: self.document_count - 1,
                    length: field.unique_tokens,
                    added: true,
                },
            );
            proof {
                assert(changes@ =~= added_lengths(texts.take(k + 1), (registered.document_count - 1) as u32));
            }
            self.add_terms(field.field_id, short_id, &field.terms);
            k = k + 1;
        }
        proof {
            assert(texts.take(fields@.len() as int) =~= texts);
            assert(self.short_ids() == old_self.short_ids().push((id.key, short_id)));
        }
        Ok(changes)
    }

    /// Removes a document, which must be unchanged since it was added.
    /// Refused, leaving the engine unchanged, when the document has no ID or
    /// its ID is not indexed. Otherwise every term of every indexed field
    /// with text loses one occurrence for the document, and the document's
    /// ID, stored fields and field lengths are dropped. A term that the
    /// document no longer contains leaves the index unchanged and yields a
    /// warning. The length changes are returned in field order.
    #[verifier::spinoff_prover]
    pub fn remove(&mut self, document: &Document) -> (result: Result<
        (Vec<LengthChange>, Vec<Warning>),
        EngineError,
    >)
        requires
            old(self).wf(),
            document.id matches Some(id) && old(self).contains(id.key) ==> old(self).ready_for(
                *document,
            ),
            document.texts@.len() == old(self).field_names().len(),
            document.id matches Some(id) && old(self).contains(id.key) ==> old(self).doc_count()
                > 0,
        ensures
            final(self).wf(),
            old(self).ready() ==> final(self).ready(),
            match result {
                Err(EngineError::MissingId) => document.id is None && *final(self) == *old(self),
                Err(EngineError::NotInIndex) => document.id matches Some(id) && !old(self).contains(
                    id.key,
                ) && *final(self) == *old(self),
                Err(_) => false,
                Ok((changes, warnings)) => document.id matches Some(id) && old(self).contains(
                    id.key,
                ) && final(self).removed(*old(self), *document, id, changes@, warnings@),
            },
    {
        proof {
            reveal(Engine::index_terms);
        }
        let id = match &document.id {
            Some(id) => id,
            None => {
                return Err(EngineError::MissingId);
            },
        };
        let short_id = match self.id_to_short.get(&id.key) {
            Some(short_id) => short_id,
            None => {
                return Err(EngineError::NotInIndex);
            },
        };
        let ghost old_self = *self;
        let fields = self.tokenized_fields(document);
        let ghost texts = old_self.texts_of(*document);
        let ghost table = old_self.field_ids@;
        let ghost docs = old_self.document_ids@;
        proof {
            assert(texts.take(0) =~= Seq::<(u32, Seq<char>)>::empty());
        }
        let mut changes: Vec<LengthChange> = Vec::new();
        let mut warnings: Vec<Warning> = Vec::new();
        let mut k: usize = 0;
        while k < fields.len()
            invariant
                self.wf(),
                self.ready_for(*document),
                old_self.ready() ==> self.ready(),
                fields@.len() == texts.len(),
                forall|i: int|
                    0 <= i < fields@.len() ==> {
                        let text = texts[i];
                        &&& (#[trigger] fields@[i]).field_id == text.0
                        &&& views(fields@[i].terms@) == text_terms(text.1)
                        &&& fields@[i].unique_tokens == distinct_tokens(text.1) as u32
                    },
                k <= fields@.len(),
                table == self.field_ids@,
                docs == self.document_ids@,
                self.document_count == old_self.document_count,
                self.index_view() == index_remove_document(old_self.index_view(), texts.take(k as int), short_id, table, docs).0,
                self.index_terms() == keys_after_removing_document(
                    old_self.index_terms(),
                    old_self.index_view(),
                    texts.take(k as int),
                    short_id,
                ).0,
                warnings@.map_values(|w: Warning| warning_view(w)) == index_remove_document(old_self.index_view(), texts.take(k as int), short_id, table, docs).1,
                changes@ == removed_lengths(texts.take(k as int), old_self.document_count),
                self.unchanged_but_index(old_self),
            decreases fields@.len() - k,
        {
            let field = &fields[k];
            proof {
                reveal(Engine::index_terms);
                assert(texts.take(k + 1).drop_last() =~= texts.take(k as int));
                assert(texts.take(k + 1).last() == texts[k as int]);
            }
            changes.push(
                LengthChange {
                    field_id: field.field_id,
                    count: self.document_count,
                    length: field.unique_tokens,
                    added: false,
                },
            );
            proof {
                assert(changes@ =~= removed_lengths(texts.take(k + 1), old_self.document_count));
            }
            let ghost before_warnings = warnings@;
            proof {
                lemma_removing_document_index(
                    old_self.index_terms(),
                    old_self.index_view(),
                    texts.take(k as int),
                    short_id,
                    table,
                    docs,
                );
            }
            let mut more = self.remove_terms(field.field_id, short_id, &field.terms);
            let ghost added = more@;
            warnings.append(&mut more);
            proof {
                assert(warnings@.map_values(|w: Warning| warning_view(w)) =~= before_warnings.map_values(
                    |w: Warning| warning_view(w),
                ) + added.map_values(|w: Warning| warning_view(w)));
            }
            k = k + 1;
        }
        proof {
            assert(texts.take(fields@.len() as int) =~= texts);
        }
        proof {
            lemma_assoc_remove_unique(self.stored_fields@, short_id);
            lemma_assoc_remove_unique(self.document_ids@, short_id);
            lemma_assoc_remove_unique(self.id_to_short@, id.key);
            lemma_assoc_remove_unique(self.field_length@, short_id);
            lemma_stored_remove(self.stored_fields@, short_id, self.stored_field_names@.len());
        }
        self.stored_fields.shift_remove(short_id);
        self.document_ids.shift_remove(short_id);
        self.id_to_short.shift_remove(&id.key);
        self.field_length.shift_remove(short_id);
        self.document_count = self.document_count - 1;
        Ok((changes, warnings))
    }

    /// This engine is `old` after the document with `id`'s ID was discarded,
    /// reporting `discarded`, and `document` was then added, reporting
    /// `added`.
    pub open spec fn replaced(
        &self,
        old: Engine,
        document: Document,
        id: DocumentId,
        discarded: Seq<LengthChange>,
        added: Seq<LengthChange>,
    ) -> bool {
        exists|middle: Engine|
            #![trigger middle.discarded(old, id.key, discarded)]
            middle.discarded(old, id.key, discarded) && self.added(middle, document, id, added)
    }

    /// Replaces a document by a new version with the same ID: the old one is
    /// discarded, then the new one is added. Refused, leaving the engine
    /// unchanged, when the document has no ID or no document has its ID.
    /// Returns the length changes of the discard, then those of the add.
    #[verifier::spinoff_prover]
    pub fn replace(&mut self, document: &Document) -> (result: Result<
        (Vec<LengthChange>, Vec<LengthChange>),
        EngineError,
    >)
        requires
            old(self).wf(),
            document.texts@.len() == old(self).field_names().len(),
            document.stored@.len() == old(self).store_field_names().len(),
            document.id matches Some(id) && old(self).contains(id.key) ==> {
                &&& old(self).doc_count() > 0
                &&& old(self).dirt() < u32::MAX
                &&& old(self).next_short_id() < u32::MAX
                &&& old(self).ready_for(*document)
                &&& old(self).index_view().len() + text_size(document.texts@) < usize::MAX
            },
        ensures
            final(self).wf(),
            old(self).ready() ==> final(self).ready(),
            match result {
                Err(EngineError::NotInIndex) => !(document.id matches Some(id) && old(self).contains(
                    id.key,
                )) && *final(self) == *old(self),
                Err(_) => false,
                Ok((discarded, added)) => document.id matches Some(id) && old(self).contains(id.key)
                    && final(self).replaced(*old(self), *document, id, discarded@, added@),
            },
    {
        let id = match &document.id {
            Some(id) => id,
            None => {
                return Err(EngineError::NotInIndex);
            },
        };
        let ghost old_self = *self;
        let discarded = match self.discard(&id.key) {
            Ok(changes) => changes,
            Err(e) => {
                return Err(e);
            },
        };
        let ghost middle = *self;
        proof {
            middle.lemma_discarded_views(old_self, id.key, discarded@);
            assert(!middle.contains(id.key)) by {
                lemma_assoc_remove_unique(old_self.short_ids(), id.key);
            }
        }
        match self.add(document) {
            Ok(added) => {
                proof {
                    assert(middle.discarded(old_self, id.key, discarded@));
                    assert(self.added(middle, *document, *id, added@));
                    assert(self.replaced(old_self, *document, *id, discarded@, added@));
                }
                Ok((discarded, added))
            },
            Err(e) => {
                proof {
                    assert(false);
                }
                Err(e)
            },
        }
    }

    /// Discards the document with ID `key`: it stops being indexed and
    /// searchable at once, while the index keeps its references until they
    /// are cleaned up by searches or vacuuming. Refused, leaving the engine
    /// unchanged, when no document has this ID. Returns a length change for
    /// each recorded field length of the document, by field position.
    #[verifier::spinoff_prover]
    pub fn discard(&mut self, key: &IdKey) -> (result: Result<Vec<LengthChange>, EngineError>)
        requires
            old(self).wf(),
            old(self).contains(*key) ==> old(self).doc_count() > 0 && old(self).dirt() < u32::MAX,
        ensures
            final(self).wf(),
            old(self).ready() ==> final(self).ready(),
            match result {
                Err(EngineError::NotInIndex) => !old(self).contains(*key) && *final(self) == *old(
                    self,
                ),
                Err(_) => false,
                Ok(changes) => old(self).contains(*key) && final(self).discarded(
                    *old(self),
                    *key,
                    changes@,
                ),
            },
    {
        proof {
            reveal(Engine::index_terms);
        }
        let short_id = match self.id_to_short.get(key) {
            Some(short_id) => short_id,
            None => {
                return Err(EngineError::NotInIndex);
            },
        };
        let ghost old_self = *self;
        proof {
            lemma_assoc_remove_unique(self.stored_fields@, short_id);
            lemma_assoc_remove_unique(self.document_ids@, short_id);
            lemma_assoc_remove_unique(self.id_to_short@, *key);
            lemma_assoc_remove_unique(self.field_length@, short_id);
            lemma_stored_remove(self.stored_fields@, short_id, self.stored_field_names@.len());
        }
        self.id_to_short.shift_remove(key);
        self.document_ids.shift_remove(short_id);
        self.stored_fields.shift_remove(short_id);
        let mut changes: Vec<LengthChange> = Vec::new();
        match self.field_length.shift_remove(short_id) {
            Some(lengths) => {
                let mut position: usize = 0;
                proof {
                    assert(lengths@.take(0) =~= Seq::<Option<u32>>::empty());
                }
                while position < lengths.len()
                    invariant
                        position <= lengths@.len(),
                        changes@ == discarded_lengths(lengths@.take(position as int), old_self.document_count),
                        self.document_count == old_self.document_count,
                    decreases lengths@.len() - position,
                {
                    proof {
                        assert(lengths@.take(position + 1).drop_last() =~= lengths@.take(position as int));
                    }
                    match lengths[position] {
                        Some(length) => {
                            changes.push(
                                LengthChange {
                                    field_id: position as u32,
                                    count: self.document_count,
                                    length,
                                    added: false,
                                },
                            );
                        },
                        None => {},
                    }
                    position = position + 1;
                }
                proof {
                    assert(lengths@.take(lengths@.len() as int) =~= lengths@);
                }
            },
            None => {},
        }
        self.document_count = self.document_count - 1;
        self.dirt_count = self.dirt_count + 1;
        Ok(changes)
    }

    /// Removes all documents, resetting the index and the short IDs. The
    /// count of discards awaiting vacuum is kept.
    #[verifier::spinoff_prover]
    pub fn remove_all(&mut self)
        requires
            old(self).wf(),
        ensures
            final(self).wf(),
            old(self).ready() ==> final(self).ready(),
            final(self).index_view() == Map::<Seq<char>, Postings>::empty(),
            final(self).documents() == Seq::<(u32, Seq<char>)>::empty(),
            final(self).short_ids() == Seq::<(IdKey, u32)>::empty(),
            final(self).lengths() == Seq::<(u32, Seq<Option<u32>>)>::empty(),
            final(self).stored() == Seq::<(u32, Seq<(u16, Seq<char>)>)>::empty(),
            final(self).doc_count() == 0,
            final(self).next_short_id() == 0,
            final(self).dirt() == old(self).dirt(),
            final(self).field_names() == old(self).field_names(),
            final(self).field_id_table() == old(self).field_id_table(),
            final(self).store_field_names() == old(self).store_field_names(),
            final(self).stored_names() == old(self).stored_names(),
            old(self).consistent() ==> final(self).consistent(),
    {
        self.index.clear();
        self.document_count = 0;
        self.document_ids.clear();
        self.id_to_short.clear();
        self.field_length.clear();
        self.stored_fields.clear();
        self.next_id = 0;
        proof {
            assert(self.index_view() =~= Map::<Seq<char>, Postings>::empty());
            assert(self.ids_consistent());
        }
    }

    /// The stored fields of the document with ID `key`, as `(name, JSON
    /// text)` pairs in the order they were saved; `None` if no document has
    /// this ID or none of its fields were saved.
    #[verifier::spinoff_prover]
    pub fn get_stored_fields(&self, key: &IdKey) -> (fields: Option<Vec<(String, String)>>)
        requires
            self.wf(),
        ensures
            match fields {
                Some(list) => self.contains(*key) && {
                    let short_id = assoc_get(self.short_ids(), *key)->Some_0;
                    &&& assoc_get(self.stored(), short_id) matches Some(values)
                    &&& self.named_values(values) == list@.map_values(
                        |field: (String, String)| (field.0@, field.1@),
                    )
                },
                None => !self.contains(*key) || assoc_get(
                    self.stored(),
                    assoc_get(self.short_ids(), *key)->Some_0,
                ) is None,
            },
    {
        let short_id = match self.id_to_short.get(key) {
            Some(short_id) => short_id,
            None => {
                return None;
            },
        };
        let values = match self.stored_fields.get(short_id) {
            Some(values) => values,
            None => {
                return None;
            },
        };
        proof {
            let i = index_of(self.stored_fields@, short_id);
            assert forall|j: int| 0 <= j < values@.len() implies (#[trigger] values@[j]).0
                < self.stored_field_names@.len() by {
                assert(stored_view(values@)[j] == self.stored_fields@[i].1[j]);
            }
        }
        Some(self.name_values(values))
    }

    /// Stored values with their names, as `(name, JSON text)` pairs.
    pub closed spec fn named_values(&self, values: Seq<(u16, Seq<char>)>) -> Seq<
        (Seq<char>, Seq<char>),
    > {
        values.map_values(
            |value: (u16, Seq<char>)| (self.stored_field_names@[value.0 as int]@, value.1),
        )
    }

    /// Stored values with their names, spelled out over the public views.
    pub proof fn lemma_named_values_is(&self, values: Seq<(u16, Seq<char>)>)
        requires
            forall|j: int| 0 <= j < values.len() ==> ((#[trigger] values[j]).0 as int) < self.stored_names().len(),
        ensures
            self.named_values(values) == values.map_values(
                |value: (u16, Seq<char>)| (self.stored_names()[value.0 as int], value.1),
            ),
    {
        assert(self.named_values(values) =~= values.map_values(
            |value: (u16, Seq<char>)| (self.stored_names()[value.0 as int], value.1),
        ));
    }

    /// Pairs each stored value with its name.
    #[verifier::spinoff_prover]
    fn name_values(&self, values: &Vec<(u16, String)>) -> (named: Vec<(String, String)>)
        requires
            forall|j: int| 0 <= j < values@.len() ==> (#[trigger] values@[j]).0 < self.stored_field_names@.len(),
        ensures
            named@.map_values(|field: (String, String)| (field.0@, field.1@)) == self.named_values(
                stored_view(values@),
            ),
    {
        let mut named: Vec<(String, String)> = Vec::new();
        let mut i: usize = 0;
        while i < values.len()
            invariant
                i <= values@.len(),
                forall|j: int| 0 <= j < values@.len() ==> (#[trigger] values@[j]).0 < self.stored_field_names@.len(),
                named@.map_values(|field: (String, String)| (field.0@, field.1@)) == self.named_values(
                    stored_view(values@.take(i as int)),
                ),
            decreases values@.len() - i,
        {
            let entry = &values[i];
            let ghost before = named@;
            named.push((self.stored_field_names[entry.0 as usize].clone(), entry.1.clone()));
            proof {
                assert(named@ == before.push((self.stored_field_names@[values@[i as int].0 as int], values@[i as int].1)));
                let sv = stored_view(values@.take(i as int));
                assert(stored_view(values@.take(i + 1)) =~= sv.push((values@[i as int].0, values@[i as int].1@)));
                assert(self.named_values(sv.push((values@[i as int].0, values@[i as int].1@))) =~= self.named_values(sv).push(
                    (self.stored_field_names@[values@[i as int].0 as int]@, values@[i as int].1@),
                ));
                assert(named@.map_values(|field: (String, String)| (field.0@, field.1@)) =~= self.named_values(
                    stored_view(values@.take(i + 1)),
                ));
            }
            i = i + 1;
        }
        proof {
            assert(values@.take(values@.len() as int) =~= values@);
        }
        named
    }

    /// The postings `data` without the documents that are not indexed, and
    /// whether there were any.
    #[verifier::spinoff_prover]
    fn live_term_data(&self, data: &FieldTermData) -> (result: (FieldTermData, bool))
        requires
            self.wf(),
            postings_wf(*data),
        ensures
            postings_wf(result.0),
            postings_view(result.0) == live_postings(postings_view(*data), self.document_ids@),
            result.1 == has_stale(postings_view(*data), self.document_ids@),
    {
        let ghost documents = self.document_ids@;
        let ghost pv = postings_view(*data);
        let entries = data.as_slice();
        let mut result: FieldTermData = VecMap::default();
        let mut stale = false;
        let mut i: usize = 0;
        proof {
            lemma_map_second(data@, |d: DocFreqs| d@);
            assert(pv.take(0) =~= Seq::<(u32, Seq<(u32, u32)>)>::empty());
            assert(postings_view(result) =~= live_postings(pv.take(0), documents));
        }
        while i < entries.len()
            invariant
                self.wf(),
                documents == self.document_ids@,
                entries@ == data@,
                pv == postings_view(*data),
                postings_wf(*data),
                i <= entries@.len(),
                postings_wf(result),
                postings_view(result) == live_postings(pv.take(i as int), documents),
                stale == has_stale(pv.take(i as int), documents),
            decreases entries@.len() - i,
        {
            let field_id = entries[i].0;
            let docs = entries[i].1.as_slice();
            let ghost dv = entries@[i as int].1@;
            proof {
                assert(entries@[i as int].1.wf());
                assert(pv[i as int] == (field_id, dv));
                assert(dv.take(0) =~= Seq::<(u32, u32)>::empty());
            }
            let mut kept: DocFreqs = VecMap::default();
            let mut field_stale = false;
            let mut j: usize = 0;
            while j < docs.len()
                invariant
                    self.wf(),
                    documents == self.document_ids@,
                    docs@ == dv,
                    unique_keys(dv),
                    j <= dv.len(),
                    kept.wf(),
                    kept@ == live_docs(dv.take(j as int), documents),
                    field_stale == exists|k: int| 0 <= k < j && !has_key(documents, (#[trigger] dv[k]).0),
                decreases dv.len() - j,
            {
                let (doc_id, freq) = docs[j];
                proof {
                    assert(dv.take(j + 1).drop_last() =~= dv.take(j as int));
                    assert(dv.take(j + 1).last() == dv[j as int]);
                }
                if self.document_ids.contains_key(doc_id) {
                    proof {
                        lemma_live_docs_from(dv.take(j as int), documents);
                        assert(!has_key(kept@, doc_id)) by {
                            if has_key(kept@, doc_id) {
                                let q = index_of(kept@, doc_id);
                                let r = choose|r: int| 0 <= r < dv.take(j as int).len() && dv.take(j as int)[r] == kept@[q];
                                assert(dv[r].0 == dv[j as int].0);
                            }
                        }
                    }
                    kept.insert(doc_id, freq);
                } else {
                    field_stale = true;
                }
                j = j + 1;
            }
            proof {
                assert(dv.take(dv.len() as int) =~= dv);
                assert(pv.take(i + 1).drop_last() =~= pv.take(i as int));
                assert(pv.take(i + 1).last() == pv[i as int]);
            }
            if kept.len() > 0 || docs.len() == 0 {
                proof {
                    lemma_live_postings_from(pv.take(i as int), documents);
                    lemma_map_second(result@, |d: DocFreqs| d@);
                    assert(!has_key(result@, field_id)) by {
                        if has_key(result@, field_id) {
                            assert(has_key(postings_view(result), field_id));
                            let q = index_of(postings_view(result), field_id);
                            let r = choose|r: int| 0 <= r < pv.take(i as int).len() && pv.take(i as int)[r].0 == postings_view(result)[q].0;
                            assert(data@[r].0 == data@[i as int].0);
                        }
                    }
                    lemma_assoc_set_unique(result@, field_id, kept);
                }
                let ghost before = result;
                result.insert(field_id, kept);
                proof {
                    lemma_map_second_set(before@, |d: DocFreqs| d@, field_id, kept);
                    assert forall|k: int| 0 <= k < result@.len() implies (#[trigger] result@[k]).1.wf() by {
                        if k < before@.len() {
                            assert(result@[k] == before@[k]);
                        }
                    }
                }
            }
            if field_stale {
                stale = true;
            }
            proof {
                let p1 = pv.take(i + 1);
                if field_stale {
                    let k = choose|k: int| 0 <= k < dv.len() && !has_key(documents, (#[trigger] dv[k]).0);
                    assert(p1[i as int].1[k] == dv[k]);
                }
                if has_stale(p1, documents) {
                    let (a, b) = choose|a: int, b: int|
                        0 <= a < p1.len() && 0 <= b < p1[a].1.len() && !has_key(
                            documents,
                            (#[trigger] p1[a].1[b]).0,
                        );
                    if a < i {
                        assert(pv.take(i as int)[a].1[b] == p1[a].1[b]);
                    } else {
                        assert(dv[b] == p1[a].1[b]);
                    }
                }
                if has_stale(pv.take(i as int), documents) {
                    let (a, b) = choose|a: int, b: int|
                        0 <= a < pv.take(i as int).len() && 0 <= b < pv.take(i as int)[a].1.len()
                            && !has_key(documents, (#[trigger] pv.take(i as int)[a].1[b]).0);
                    assert(p1[a].1[b] == pv.take(i as int)[a].1[b]);
                }
            }
            i = i + 1;
        }
        proof {
            assert(pv.take(entries@.len() as int) =~= pv);
        }
        (result, stale)
    }

    /// The terms whose postings refer to a document that is not indexed,
    /// each with its postings reduced to indexed documents.
    #[verifier::spinoff_prover]
    fn stale_terms(&self) -> (changes: Vec<(String, FieldTermData)>)
        requires
            self.wf(),
        ensures
            forall|k: int|
                0 <= k < changes@.len() ==> {
                    let t = (#[trigger] changes@[k]).0@;
                    &&& self.index_view().contains_key(t)
                    &&& has_stale(self.index_view()[t], self.document_ids@)
                    &&& postings_wf(changes@[k].1)
                    &&& postings_view(changes@[k].1) == live_postings(
                        self.index_view()[t],
                        self.document_ids@,
                    )
                },
            forall|t: Seq<char>|
                #![trigger self.index_view().contains_key(t)]
                self.index_view().contains_key(t) && has_stale(self.index_view()[t], self.document_ids@)
                    ==> exists|k: int| 0 <= k < changes@.len() && (#[trigger] changes@[k]).0@ == t,
            forall|a: int, b: int|
                0 <= a < changes@.len() && 0 <= b < changes@.len() && a != b ==> (
                #[trigger] changes@[a]).0@ != (#[trigger] changes@[b]).0@,
            changes@.map_values(|c: (String, FieldTermData)| change_step(c)) == stale_steps(
                self.index_entries(),
                self.document_ids@,
            ),
    {
        let ghost ix0 = self.index_view();
        let ghost documents = self.document_ids@;
        let mut changes: Vec<(String, FieldTermData)> = Vec::new();
        let ghost mut origin: Seq<int> = Seq::empty();
        let entries = self.index.for_each();
        let ghost e = self.index.entries();
        let ghost ev = self.index_entries();
        proof {
            self.index.lemma_entries_are_the_map();
            assert(ev.take(0) =~= Seq::<(Seq<char>, Postings)>::empty());
            assert(changes@.map_values(|c: (String, FieldTermData)| change_step(c)) =~= Seq::<
                (Seq<char>, bool),
            >::empty());
        }
        let mut i: usize = 0;
        while i < entries.len()
            invariant
                self.wf(),
                ix0 == self.index_view(),
                documents == self.document_ids@,
                entry_view(entries@) == e,
                forall|m: int|
                    #![trigger e[m]]
                    0 <= m < e.len() ==> self.index@.contains_key(e[m].0) && self.index@[e[m].0]
                        == e[m].1,
                forall|a: int, b: int|
                    0 <= a < e.len() && 0 <= b < e.len() && a != b ==> (#[trigger] e[a]).0 != (
                    #[trigger] e[b]).0,
                i <= entries@.len(),
                origin.len() == changes@.len(),
                forall|k: int| 0 <= k < origin.len() ==> 0 <= #[trigger] origin[k] < i,
                forall|a: int, b: int|
                    0 <= a < b < origin.len() ==> #[trigger] origin[a] < #[trigger] origin[b],
                forall|k: int|
                    0 <= k < changes@.len() ==> {
                        let t = (#[trigger] changes@[k]).0@;
                        &&& t == e[origin[k]].0
                        &&& ix0.contains_key(t)
                        &&& has_stale(ix0[t], documents)
                        &&& postings_wf(changes@[k].1)
                        &&& postings_view(changes@[k].1) == live_postings(ix0[t], documents)
                    },
                forall|m: int|
                    0 <= m < i && has_stale(ix0[(#[trigger] e[m]).0], documents) ==> exists|k: int|
                        0 <= k < origin.len() && origin[k] == m,
                ev == self.index_entries(),
                e == self.index.entries(),
                changes@.map_values(|c: (String, FieldTermData)| change_step(c)) == stale_steps(
                    ev.take(i as int),
                    documents,
                ),
            decreases entries@.len() - i,
        {
            let term = &entries[i].0;
            let data = entries[i].1;
            proof {
                assert(e[i as int] == (term@, *data));
                assert(self.index@.contains_key(term@));
                assert(ix0[term@] == postings_view(*data));
            }
            let (live, stale) = self.live_term_data(data);
            let ghost old_origin = origin;
            let ghost old_changes = changes@;
            proof {
                assert(ev.len() == e.len());
                assert(ev[i as int] == (e[i as int].0, postings_view(e[i as int].1)));
                assert(ev.take(i + 1).drop_last() =~= ev.take(i as int));
                assert(ev.take(i + 1).last() == (term@, postings_view(*data)));
            }
            if stale {
                changes.push((term.clone(), live));
                proof {
                    origin = origin.push(i as int);
                    assert(changes@.map_values(|c: (String, FieldTermData)| change_step(c))
                        =~= old_changes.map_values(|c: (String, FieldTermData)| change_step(c)).push(
                        change_step(changes@.last()),
                    ));
                    assert(postings_view(live).len() == live@.len());
                }
            }
            proof {
                assert forall|m: int|
                    0 <= m < i + 1 && has_stale(ix0[(#[trigger] e[m]).0], documents) implies exists|k: int|
                        0 <= k < origin.len() && origin[k] == m by {
                    if m == i {
                        assert(stale);
                        assert(origin[origin.len() - 1] == m);
                    } else {
                        let k = choose|k: int| 0 <= k < old_origin.len() && old_origin[k] == m;
                        assert(origin[k] == m);
                    }
                }
            }
            i = i + 1;
        }
        proof {
            assert forall|t: Seq<char>| #![trigger ix0.contains_key(t)]
                ix0.contains_key(t) && has_stale(ix0[t], documents)
                implies exists|k: int| 0 <= k < changes@.len() && (#[trigger] changes@[k]).0@ == t by {
                assert(self.index@.contains_key(t));
                let m = choose|m: int| 0 <= m < e.len() && (#[trigger] e[m]).0 == t;
                let k = choose|k: int| 0 <= k < origin.len() && origin[k] == m;
                assert(changes@[k].0@ == t);
            }
            assert forall|a: int, b: int|
                0 <= a < changes@.len() && 0 <= b < changes@.len() && a != b implies (
                #[trigger] changes@[a]).0@ != (#[trigger] changes@[b]).0@ by {
                if a < b {
                    assert(origin[a] < origin[b]);
                } else {
                    assert(origin[b] < origin[a]);
                }
            }
            assert(ev.take(entries@.len() as int) =~= ev);
        }
        changes
    }

    /// Removes every reference to a discarded document from the index, and
    /// resets the count of discards. A term whose postings refer to such a
    /// document keeps only indexed documents; a field left without documents
    /// is dropped, and so is a term left without fields.
    #[verifier::spinoff_prover]
    pub fn vacuum(&mut self)
        requires
            old(self).wf(),
        ensures
            final(self).wf(),
            old(self).ready() ==> final(self).ready(),
            final(self).index_view() == vacuumed(old(self).index_view(), old(self).documents()),
            forall|term: Seq<char>| #[trigger]
                final(self).index_view().contains_key(term) ==> !has_stale(
                    final(self).index_view()[term],
                    final(self).documents(),
                ),
            final(self).dirt() == 0,
            final(self).documents() == old(self).documents(),
            final(self).short_ids() == old(self).short_ids(),
            final(self).lengths() == old(self).lengths(),
            final(self).stored() == old(self).stored(),
            final(self).doc_count() == old(self).doc_count(),
            final(self).next_short_id() == old(self).next_short_id(),
            final(self).field_names() == old(self).field_names(),
            final(self).field_id_table() == old(self).field_id_table(),
            final(self).store_field_names() == old(self).store_field_names(),
            final(self).stored_names() == old(self).stored_names(),
            old(self).consistent() ==> final(self).consistent(),
            final(self).index_view().len() <= old(self).index_view().len(),
            no_stale(old(self).index_view(), old(self).documents()) ==> final(self).index_entries()
                == old(self).index_entries(),
            old(self).dirt() == 0 && no_stale(old(self).index_view(), old(self).documents())
                ==> forall|averages: Seq<Seq<char>>| #[trigger]
                final(self).serialized(averages) == old(self).serialized(averages),
            final(self).index_terms() == keys_after_vacuum(
                old(self).index_terms(),
                stale_steps(old(self).index_entries(), old(self).documents()),
            ),
    {
        let ghost old_self = *self;
        let initial_dirt_count = self.dirt_count;
        let found = self.stale_terms();
        let ghost ix0 = self.index_view();
        let ghost documents = self.document_ids@;
        let changes = reversed(found);
        let ghost n = found@.len() as int;
        proof {
            assert forall|k: int| 0 <= k < n implies #[trigger] changes@[k] == found@[n - 1 - k] by {}
            assert forall|t: Seq<char>|
                #![trigger ix0.contains_key(t)]
                ix0.contains_key(t) && has_stale(ix0[t], documents)
                implies exists|k: int| 0 <= k < changes@.len() && (#[trigger] changes@[k]).0@ == t by {
                let j = choose|j: int| 0 <= j < found@.len() && (#[trigger] found@[j]).0@ == t;
                assert(changes@[n - 1 - j] == found@[j]);
            }
            assert forall|a: int, b: int|
                0 <= a < changes@.len() && 0 <= b < changes@.len() && a != b implies (
                #[trigger] changes@[a]).0@ != (#[trigger] changes@[b]).0@ by {
                assert(changes@[a] == found@[n - 1 - a]);
                assert(changes@[b] == found@[n - 1 - b]);
            }
            assert(Seq::new(changes@.len(), |i: int| change_step(changes@[changes@.len() - 1 - i]))
                =~= found@.map_values(|c: (String, FieldTermData)| change_step(c)));
        }
        if changes.len() > 0 {
            self.apply_stale_terms(changes);
        } else {
            proof {
                assert(self.index_view() =~= vacuumed(old_self.index_view(), old_self.documents()));
                assert(Seq::new(changes@.len(), |i: int| change_step(changes@[changes@.len() - 1 - i]))
                    =~= Seq::<(Seq<char>, bool)>::empty());
            }
        }
        let ghost cleaned = *self;
        self.dirt_count = self.dirt_count - initial_dirt_count;
        proof {
            assert(self.index_terms() == cleaned.index_terms()) by {
                reveal(Engine::index_terms);
            }
            lemma_vacuumed_smaller(old_self.index_view(), old_self.documents());
            old_self.index.lemma_finite();
            assert(old_self.index_view().dom() == old_self.index@.dom());
            vstd::set_lib::lemma_len_subset(
                self.index_view().dom(),
                old_self.index_view().dom(),
            );
            if no_stale(old_self.index_view(), old_self.documents()) {
                if changes@.len() > 0 {
                    let t = changes@[0].0@;
                    assert(old_self.index_view().contains_key(t));
                }
            }
            lemma_vacuumed_has_no_stale(old_self.index_view(), old_self.documents());
            lemma_vacuumed_keeps(
                old_self.index_view(),
                old_self.documents(),
                old_self.next_short_id() as int,
            );
            if old_self.consistent() {
                assert(self.short_ids() == old_self.short_ids());
                assert(self.documents() == old_self.documents());
                assert(self.lengths() == old_self.lengths());
                assert(self.stored() == old_self.stored());
                assert(self.next_short_id() == old_self.next_short_id());
                self.lemma_ids_consistent_same(old_self);
            }
        }
    }

    /// Replaces the postings of each term of `changes`, dropping the terms
    /// left without fields.
    #[verifier::spinoff_prover]
    fn apply_stale_terms(&mut self, changes: Vec<(String, FieldTermData)>)
        requires
            old(self).wf(),
            forall|k: int|
                0 <= k < changes@.len() ==> {
                    let t = (#[trigger] changes@[k]).0@;
                    &&& old(self).index_view().contains_key(t)
                    &&& has_stale(old(self).index_view()[t], old(self).document_ids@)
                    &&& postings_wf(changes@[k].1)
                    &&& postings_view(changes@[k].1) == live_postings(
                        old(self).index_view()[t],
                        old(self).document_ids@,
                    )
                },
            forall|t: Seq<char>|
                #![trigger old(self).index_view().contains_key(t)]
                old(self).index_view().contains_key(t) && has_stale(
                    old(self).index_view()[t],
                    old(self).document_ids@,
                ) ==> exists|k: int| 0 <= k < changes@.len() && (#[trigger] changes@[k]).0@ == t,
            forall|a: int, b: int|
                0 <= a < changes@.len() && 0 <= b < changes@.len() && a != b ==> (
                #[trigger] changes@[a]).0@ != (#[trigger] changes@[b]).0@,
        ensures
            final(self).wf(),
            final(self).unchanged_but_index(*old(self)),
            final(self).index_view() == vacuumed(old(self).index_view(), old(self).document_ids@),
            final(self).index_terms() == keys_after_vacuum(
                old(self).index_terms(),
                Seq::new(
                    changes@.len(),
                    |i: int| change_step(changes@[changes@.len() - 1 - i]),
                ),
            ),
    {
        let ghost old_self = *self;
        let ghost ix0 = self.index_view();
        let ghost documents = self.document_ids@;
        let ghost target = vacuumed(ix0, documents);
        let ghost all = changes@;
        let ghost steps = Seq::new(all.len(), |i: int| change_step(all[all.len() - 1 - i]));
        let mut changes = changes;
        proof {
            assert(steps.take(0) =~= Seq::<(Seq<char>, bool)>::empty());
        }
        while changes.len() > 0
            invariant
                steps == Seq::new(all.len(), |i: int| change_step(all[all.len() - 1 - i])),
                self.index_terms() == keys_after_vacuum(
                    old_self.index_terms(),
                    steps.take(all.len() - changes@.len()),
                ),
                self.wf(),
                self.unchanged_but_index(old_self),
                documents == self.document_ids@,
                target == vacuumed(ix0, documents),
                changes@ == all.take(changes@.len() as int),
                changes@.len() <= all.len(),
                forall|k: int|
                    0 <= k < all.len() ==> {
                        let t = (#[trigger] all[k]).0@;
                        &&& ix0.contains_key(t)
                        &&& has_stale(ix0[t], documents)
                        &&& postings_wf(all[k].1)
                        &&& postings_view(all[k].1) == live_postings(ix0[t], documents)
                    },
                forall|a: int, b: int|
                    0 <= a < all.len() && 0 <= b < all.len() && a != b ==> (#[trigger] all[a]).0@
                        != (#[trigger] all[b]).0@,
                forall|t: Seq<char>|
                    #![trigger self.index_view().contains_key(t)]
                    (exists|k: int| changes@.len() <= k < all.len() && (#[trigger] all[k]).0@ == t)
                        ==> self.index_view().contains_key(t) == target.contains_key(t) && (
                    target.contains_key(t) ==> self.index_view()[t] == target[t]),
                forall|t: Seq<char>|
                    #![trigger self.index_view().contains_key(t)]
                    !(exists|k: int| changes@.len() <= k < all.len() && (#[trigger] all[k]).0@ == t)
                        ==> self.index_view().contains_key(t) == ix0.contains_key(t) && (
                    ix0.contains_key(t) ==> self.index_view()[t] == ix0[t]),
            decreases changes@.len(),
        {
            let (term, live) = changes.pop().unwrap();
            let ghost k = changes@.len() as int;
            proof {
                assert(all[k] == (term, live));
                assert(!(exists|j: int| changes@.len() + 1 <= j < all.len() && (#[trigger] all[j]).0@
                    == term@)) by {
                    if exists|j: int| changes@.len() + 1 <= j < all.len() && (#[trigger] all[j]).0@ == term@ {
                        let j = choose|j: int| changes@.len() + 1 <= j < all.len() && (#[trigger] all[j]).0@
                            == term@;
                        assert(j != k);
                    }
                }
                assert(self.index_view().contains_key(term@) == ix0.contains_key(term@));
                assert(self.index@.contains_key(term@));
            }
            let ghost before = *self;
            let ghost live_view = postings_view(live);
            proof {
                assert(all[k].0@ == term@);
                assert(live_view == live_postings(ix0[term@], documents));
                assert(has_stale(ix0[term@], documents));
                assert(live_view.len() == live@.len());
            }
            proof {
                assert(steps[all.len() - k - 1] == change_step(all[k]));
            }
            if live.is_empty() {
                self.index.remove(term.as_str());
                proof {
                    assert(self.index@ == before.index@.remove(term@));
                    assert(!self.index_view().contains_key(term@));
                    assert(!target.contains_key(term@));
                    assert(self.index_terms() == keys_dropping(before.index_terms(), term@)) by {
                        reveal(Engine::index_terms);
                        reveal(keys_dropping);
                    }
                }
            } else {
                let slot = self.index.get_mut(term.as_str()).unwrap();
                *slot = live;
                proof {
                    assert(self.index@ == before.index@.insert(term@, live));
                    assert(self.index_view().contains_key(term@));
                    assert(target.contains_key(term@));
                    assert(self.index_view()[term@] == live_view);
                    assert(target[term@] == live_view);
                    assert(self.index_terms() == before.index_terms()) by {
                        reveal(Engine::index_terms);
                    }
                }
            }
            proof {
                lemma_vacuum_step(
                    old_self.index_terms(),
                    steps,
                    all.len() - k - 1,
                    before.index_terms(),
                    self.index_terms(),
                );
            }
            proof {
                assert forall|t: Seq<char>| #[trigger] self.index@.contains_key(t) implies postings_wf(
                    self.index@[t],
                ) by {
                    if t != term@ {
                        assert(before.index@.contains_key(t));
                    }
                }
                assert forall|t: Seq<char>|
                    #![trigger self.index_view().contains_key(t)]
                    (exists|j: int| changes@.len() <= j < all.len() && (#[trigger] all[j]).0@ == t)
                        implies self.index_view().contains_key(t) == target.contains_key(t) && (
                    target.contains_key(t) ==> self.index_view()[t] == target[t]) by {
                    if t != term@ {
                        let j = choose|j: int| changes@.len() <= j < all.len() && (#[trigger] all[j]).0@
                            == t;
                        assert(j != k);
                        assert(before.index_view().contains_key(t) == self.index_view().contains_key(t));
                        assert(exists|j: int| changes@.len() + 1 <= j < all.len() && (#[trigger] all[j]).0@
                            == t);
                    }
                }
                assert forall|t: Seq<char>|
                    #![trigger self.index_view().contains_key(t)]
                    !(exists|j: int| changes@.len() <= j < all.len() && (#[trigger] all[j]).0@ == t)
                        implies self.index_view().contains_key(t) == ix0.contains_key(t) && (
                    ix0.contains_key(t) ==> self.index_view()[t] == ix0[t]) by {
                    if t == term@ {
                        assert(all[k].0@ == t);
                    } else {
                        assert(before.index_view().contains_key(t) == self.index_view().contains_key(t));
                        if exists|j: int| changes@.len() + 1 <= j < all.len() && (#[trigger] all[j]).0@ == t {
                            let j = choose|j: int| changes@.len() + 1 <= j < all.len() && (#[trigger] all[j]).0@
                                == t;
                            assert(changes@.len() <= j);
                        }
                    }
                }
                assert(changes@ =~= all.take(changes@.len() as int));
            }
        }
        proof {
            assert forall|t: Seq<char>|
                #![trigger self.index_view().contains_key(t)]
                self.index_view().contains_key(t) == target.contains_key(t) && (target.contains_key(t)
                    ==> self.index_view()[t] == target[t]) by {
                if !(exists|j: int| 0 <= j < all.len() && (#[trigger] all[j]).0@ == t) {
                    if ix0.contains_key(t) && has_stale(ix0[t], documents) {
                        assert(exists|j: int| 0 <= j < all.len() && (#[trigger] all[j]).0@ == t);
                    }
                }
            }
            assert(self.index_view() =~= target);
            assert(steps.take(all.len() as int) =~= steps);
        }
    }

    /// Writes the serialized index, with the given average field lengths as
    /// JSON numbers or `null`, in the version-2 format.
    #[verifier::spinoff_prover]
    pub fn to_json_string(&self, averages: &Vec<String>) -> (text: String)
        requires
            self.wf(),
        ensures
            text@ == self.serialized(views(averages@)),
    {
        let mut out = String::new();
        out.append("{\"documentCount\":");
        push_decimal(&mut out, self.document_count as u64);
        out.append(",\"nextId\":");
        push_decimal(&mut out, self.next_id as u64);
        out.append(",\"documentIds\":");
        self.write_document_ids(&mut out);
        out.append(",\"fieldIds\":");
        self.write_field_ids(&mut out);
        out.append(",\"fieldLength\":");
        self.write_field_lengths(&mut out);
        out.append(",\"averageFieldLength\":");
        write_array(&mut out, averages);
        out.append(",\"storedFields\":");
        self.write_stored_fields(&mut out);
        out.append(",\"dirtCount\":");
        push_decimal(&mut out, self.dirt_count as u64);
        out.append(",\"index\":");
        self.write_index(&mut out);
        out.append(",\"serializationVersion\":2}");
        proof {
            assert(out@ =~= self.serialized(views(averages@)));
        }
        out
    }

    #[verifier::spinoff_prover]
    fn write_document_ids(&self, out: &mut String)
        requires
            self.wf(),
        ensures
            final(out)@ == old(out)@ + json_object(
                self.document_ids@.map_values(|entry: (u32, Seq<char>)| id_member(entry)),
            ),
    {
        let ghost items = self.document_ids@.map_values(|entry: (u32, Seq<char>)| id_member(entry));
        let ghost start = out@;
        push_char(out, '{');
        let len = self.document_ids.len();
        let mut i: usize = 0;
        proof {
            assert(items.take(0) =~= Seq::<Seq<char>>::empty());
        }
        while i < len
            invariant
                len == self.document_ids@.len(),
                items == self.document_ids@.map_values(|entry: (u32, Seq<char>)| id_member(entry)),
                i <= len,
                out@ == start + seq!['{'] + members(items.take(i as int)),
            decreases len - i,
        {
            let (short_id, json) = self.document_ids.get_index(i).unwrap();
            proof {
                lemma_members_step(items, i as int);
            }
            push_separator(out, i);
            write_key(out, *short_id as u64);
            push_char(out, ':');
            out.append(json.as_str());
            proof {
                assert(out@ =~= start + seq!['{'] + members(items.take(i + 1)));
            }
            i = i + 1;
        }
        push_char(out, '}');
        proof {
            assert(items.take(len as int) =~= items);
        }
    }

    #[verifier::spinoff_prover]
    fn write_field_ids(&self, out: &mut String)
        requires
            self.wf(),
        ensures
            final(out)@ == old(out)@ + json_object(
                self.field_ids@.map_values(|entry: (Seq<char>, u32)| field_id_member(entry)),
            ),
    {
        let ghost items = self.field_ids@.map_values(|entry: (Seq<char>, u32)| field_id_member(entry));
        let ghost start = out@;
        push_char(out, '{');
        let len = self.field_ids.len();
        let mut i: usize = 0;
        proof {
            assert(items.take(0) =~= Seq::<Seq<char>>::empty());
        }
        while i < len
            invariant
                len == self.field_ids@.len(),
                items == self.field_ids@.map_values(|entry: (Seq<char>, u32)| field_id_member(entry)),
                i <= len,
                out@ == start + seq!['{'] + members(items.take(i as int)),
            decreases len - i,
        {
            let (name, id) = self.field_ids.get_index(i).unwrap();
            proof {
                lemma_members_step(items, i as int);
            }
            push_separator(out, i);
            json_string_to(out, name.as_str());
            push_char(out, ':');
            push_decimal(out, *id as u64);
            proof {
                assert(out@ =~= start + seq!['{'] + members(items.take(i + 1)));
            }
            i = i + 1;
        }
        push_char(out, '}');
        proof {
            assert(items.take(len as int) =~= items);
        }
    }

    #[verifier::spinoff_prover]
    fn write_field_lengths(&self, out: &mut String)
        requires
            self.wf(),
        ensures
            final(out)@ == old(out)@ + json_object(
                self.field_length@.map_values(|entry: (u32, Seq<Option<u32>>)| lengths_member(entry)),
            ),
    {
        let ghost items = self.field_length@.map_values(
            |entry: (u32, Seq<Option<u32>>)| lengths_member(entry),
        );
        let ghost start = out@;
        push_char(out, '{');
        let len = self.field_length.len();
        let mut i: usize = 0;
        proof {
            assert(items.take(0) =~= Seq::<Seq<char>>::empty());
        }
        while i < len
            invariant
                len == self.field_length@.len(),
                items == self.field_length@.map_values(
                    |entry: (u32, Seq<Option<u32>>)| lengths_member(entry),
                ),
                i <= len,
                out@ == start + seq!['{'] + members(items.take(i as int)),
            decreases len - i,
        {
            let (short_id, lengths) = self.field_length.get_index(i).unwrap();
            proof {
                lemma_members_step(items, i as int);
            }
            push_separator(out, i);
            write_key(out, *short_id as u64);
            push_char(out, ':');
            let ghost inner = lengths@.map_values(|length: Option<u32>| length_text(length));
            let ghost mid = out@;
            push_char(out, '[');
            let mut j: usize = 0;
            proof {
                assert(inner.take(0) =~= Seq::<Seq<char>>::empty());
            }
            while j < lengths.len()
                invariant
                    inner == lengths@.map_values(|length: Option<u32>| length_text(length)),
                    j <= lengths@.len(),
                    out@ == mid + seq!['['] + members(inner.take(j as int)),
                decreases lengths@.len() - j,
            {
                proof {
                    lemma_members_step(inner, j as int);
                }
                push_separator(out, j);
                match lengths[j] {
                    Some(length) => push_decimal(out, length as u64),
                    None => out.append("null"),
                }
                proof {
                    assert(out@ =~= mid + seq!['['] + members(inner.take(j + 1)));
                }
                j = j + 1;
            }
            push_char(out, ']');
            proof {
                assert(inner.take(lengths@.len() as int) =~= inner);
                assert(out@ =~= start + seq!['{'] + members(items.take(i + 1)));
            }
            i = i + 1;
        }
        push_char(out, '}');
        proof {
            assert(items.take(len as int) =~= items);
        }
    }

    #[verifier::spinoff_prover]
    fn write_stored_fields(&self, out: &mut String)
        requires
            self.wf(),
        ensures
            final(out)@ == old(out)@ + json_object(
                self.stored_fields@.map_values(
                    |entry: (u32, Seq<(u16, Seq<char>)>)| stored_member(entry, self.stored_names()),
                ),
            ),
    {
        let ghost names = self.stored_names();
        let ghost items = self.stored_fields@.map_values(
            |entry: (u32, Seq<(u16, Seq<char>)>)| stored_member(entry, names),
        );
        let ghost start = out@;
        push_char(out, '{');
        let len = self.stored_fields.len();
        let mut i: usize = 0;
        proof {
            assert(items.take(0) =~= Seq::<Seq<char>>::empty());
        }
        while i < len
            invariant
                self.wf(),
                names == self.stored_names(),
                len == self.stored_fields@.len(),
                items == self.stored_fields@.map_values(
                    |entry: (u32, Seq<(u16, Seq<char>)>)| stored_member(entry, names),
                ),
                i <= len,
                out@ == start + seq!['{'] + members(items.take(i as int)),
            decreases len - i,
        {
            let (short_id, values) = self.stored_fields.get_index(i).unwrap();
            proof {
                lemma_members_step(items, i as int);
            }
            push_separator(out, i);
            write_key(out, *short_id as u64);
            push_char(out, ':');
            let ghost sv = stored_view(values@);
            let ghost inner = sv.map_values(
                |value: (u16, Seq<char>)| json_member(names[value.0 as int], value.1),
            );
            let ghost mid = out@;
            push_char(out, '{');
            let mut j: usize = 0;
            proof {
                assert(inner.take(0) =~= Seq::<Seq<char>>::empty());
                assert(self.stored_fields@[i as int].1 == sv);
            }
            while j < values.len()
                invariant
                    self.wf(),
                    names == self.stored_names(),
                    i < self.stored_fields@.len(),
                    self.stored_fields@[i as int].1 == sv,
                    sv == stored_view(values@),
                    inner == sv.map_values(
                        |value: (u16, Seq<char>)| json_member(names[value.0 as int], value.1),
                    ),
                    j <= values@.len(),
                    out@ == mid + seq!['{'] + members(inner.take(j as int)),
                decreases values@.len() - j,
            {
                proof {
                    lemma_members_step(inner, j as int);
                    assert(sv[j as int] == self.stored_fields@[i as int].1[j as int]);
                }
                push_separator(out, j);
                let value = &values[j];
                json_string_to(out, self.stored_field_names[value.0 as usize].as_str());
                push_char(out, ':');
                out.append(value.1.as_str());
                proof {
                    assert(out@ =~= mid + seq!['{'] + members(inner.take(j + 1)));
                }
                j = j + 1;
            }
            push_char(out, '}');
            proof {
                assert(inner.take(values@.len() as int) =~= inner);
                assert(out@ =~= start + seq!['{'] + members(items.take(i + 1)));
            }
            i = i + 1;
        }
        push_char(out, '}');
        proof {
            assert(items.take(len as int) =~= items);
        }
    }

    #[verifier::spinoff_prover]
    fn write_index(&self, out: &mut String)
        requires
            self.wf(),
        ensures
            final(out)@ == old(out)@ + json_array(
                self.index_entries().map_values(|entry: (Seq<char>, Postings)| term_item(entry)),
            ),
    {
        let ghost items = self.index_entries().map_values(
            |entry: (Seq<char>, Postings)| term_item(entry),
        );
        let ghost start = out@;
        let entries = self.index.for_each();
        push_char(out, '[');
        let mut i: usize = 0;
        proof {
            assert(items.take(0) =~= Seq::<Seq<char>>::empty());
            self.index.lemma_entries_are_the_map();
        }
        while i < entries.len()
            invariant
                self.wf(),
                entry_view(entries@) == self.index.entries(),
                items == self.index_entries().map_values(|entry: (Seq<char>, Postings)| term_item(entry)),
                forall|m: int|
                    #![trigger self.index.entries()[m]]
                    0 <= m < self.index.entries().len() ==> self.index@.contains_key(
                        self.index.entries()[m].0,
                    ) && self.index@[self.index.entries()[m].0] == self.index.entries()[m].1,
                i <= entries@.len(),
                out@ == start + seq!['['] + members(items.take(i as int)),
            decreases entries@.len() - i,
        {
            let term = &entries[i].0;
            let data = entries[i].1;
            proof {
                lemma_members_step(items, i as int);
                assert(self.index.entries()[i as int] == (term@, *data));
                assert(self.index@.contains_key(term@));
                assert(postings_wf(*data));
            }
            push_separator(out, i);
            let ghost mid = out@;
            push_char(out, '[');
            json_string_to(out, term.as_str());
            push_char(out, ',');
            write_postings(out, data);
            push_char(out, ']');
            proof {
                assert(items[i as int] == term_item((term@, postings_view(*data))));
                assert(out@ =~= start + seq!['['] + members(items.take(i + 1)));
            }
            i = i + 1;
        }
        push_char(out, ']');
        proof {
            assert(items.take(entries@.len() as int) =~= items);
        }
    }

    /// Records one more occurrence of each of `terms` in field `field_id` of
    /// document `document_id`.
    #[verifier::spinoff_prover]
    fn add_terms(&mut self, field_id: u32, document_id: u32, terms: &Vec<String>)
        requires
            old(self).wf(),
            old(self).index@.len() + terms@.len() < usize::MAX,
        ensures
            final(self).wf(),
            final(self).index_view() == index_add_terms(
                old(self).index_view(),
                views(terms@),
                field_id,
                document_id,
            ),
            final(self).index@.len() <= old(self).index@.len() + terms@.len(),
            final(self).unchanged_but_index(*old(self)),
            old(self).ready() ==> final(self).ready(),
            final(self).index_terms() == keys_with_terms(old(self).index_terms(), views(terms@)),
    {
        let ghost old_self = *self;
        let ghost start_index = self.index_view();
        let ghost start_len = self.index@.len();
        let ghost all = views(terms@);
        let mut j: usize = 0;
        proof {
            assert(all.take(0) =~= Seq::<Seq<char>>::empty());
        }
        while j < terms.len()
            invariant
                self.wf(),
                all == views(terms@),
                j <= terms@.len(),
                self.index_view() == index_add_terms(start_index, all.take(j as int), field_id, document_id),
                self.index_terms() == keys_with_terms(old_self.index_terms(), all.take(j as int)),
                self.index@.len() <= start_len + j,
                start_len + terms@.len() < usize::MAX,
                self.unchanged_but_index(old_self),
            decreases terms@.len() - j,
        {
            proof {
                assert(all.take(j + 1).drop_last() =~= all.take(j as int));
                assert(all.take(j + 1).last() == terms@[j as int]@);
            }
            self.add_term(field_id, document_id, terms[j].as_str());
            j = j + 1;
        }
        proof {
            assert(all.take(terms@.len() as int) =~= all);
        }
    }

    /// Takes away one occurrence of each of `terms` in field `field_id` of
    /// document `document_id`, returning the warnings for the absent ones.
    #[verifier::spinoff_prover]
    #[verifier::rlimit(100)]
    fn remove_terms(&mut self, field_id: u32, document_id: u32, terms: &Vec<String>) -> (warnings: Vec<
        Warning,
    >)
        requires
            old(self).wf(),
        ensures
            final(self).wf(),
            final(self).index_view() == index_remove_terms(
                old(self).index_view(),
                views(terms@),
                field_id,
                document_id,
                old(self).field_ids@,
                old(self).document_ids@,
            ).0,
            warnings@.map_values(|w: Warning| warning_view(w)) == index_remove_terms(
                old(self).index_view(),
                views(terms@),
                field_id,
                document_id,
                old(self).field_ids@,
                old(self).document_ids@,
            ).1,
            final(self).unchanged_but_index(*old(self)),
            old(self).ready() ==> final(self).ready(),
            final(self).index_terms() == keys_after_removals(
                old(self).index_terms(),
                old(self).index_view(),
                views(terms@),
                field_id,
                document_id,
            ).0,
    {
        let ghost old_self = *self;
        let ghost start_index = self.index_view();
        let ghost table = self.field_ids@;
        let ghost docs = self.document_ids@;
        let ghost all = views(terms@);
        let mut warnings: Vec<Warning> = Vec::new();
        let mut j: usize = 0;
        proof {
            assert(all.take(0) =~= Seq::<Seq<char>>::empty());
            assert(warnings@.map_values(|w: Warning| warning_view(w)) =~= Seq::<WarningView>::empty());
        }
        while j < terms.len()
            invariant
                self.wf(),
                all == views(terms@),
                j <= terms@.len(),
                self.index_view() == index_remove_terms(start_index, all.take(j as int), field_id, document_id, table, docs).0,
                warnings@.map_values(|w: Warning| warning_view(w)) == index_remove_terms(start_index, all.take(j as int), field_id, document_id, table, docs).1,
                self.unchanged_but_index(old_self),
                table == self.field_ids@,
                docs == self.document_ids@,
                self.index_terms() == keys_after_removals(
                    old_self.index_terms(),
                    start_index,
                    all.take(j as int),
                    field_id,
                    document_id,
                ).0,
            decreases terms@.len() - j,
        {
            proof {
                assert(all.take(j + 1).drop_last() =~= all.take(j as int));
                assert(all.take(j + 1).last() == terms@[j as int]@);
            }
            let ghost before_warnings = warnings@;
            let ghost prev = index_remove_terms(start_index, all.take(j as int), field_id, document_id, table, docs);
            let ghost next = index_remove_terms(start_index, all.take(j + 1), field_id, document_id, table, docs);
            let ghost before_self = *self;
            proof {
                assert(next.0 == index_remove(prev.0, terms@[j as int]@, field_id, document_id));
            }
            match self.remove_term(field_id, document_id, terms[j].as_str()) {
                Some(warning) => {
                    warnings.push(warning);
                    proof {
                        assert(warnings@.map_values(|w: Warning| warning_view(w)) =~= before_warnings.map_values(
                            |w: Warning| warning_view(w),
                        ).push(warning_view(warning)));
                    }
                },
                None => {},
            }
            proof {
                assert(warnings@.map_values(|w: Warning| warning_view(w)) =~= next.1);
                Engine::lemma_removals_step(
                    old_self.index_terms(),
                    start_index,
                    all.take(j + 1),
                    field_id,
                    document_id,
                    table,
                    docs,
                    before_self,
                    *self,
                );
            }
            j = j + 1;
        }
        proof {
            assert(all.take(terms@.len() as int) =~= all);
        }
        warnings
    }

    /// The ID of a stored-field name, adding the name if it is new.
    #[verifier::spinoff_prover]
    fn stored_name_id(&mut self, name: &String) -> (id: u16)
        ensures
            (id, views(final(self).stored_field_names@)) == name_id(
                views(old(self).stored_field_names@),
                name@,
            ),
            final(self).stored_field_names@.len() >= old(self).stored_field_names@.len(),
            (id as int) < final(self).stored_field_names@.len(),
            final(self).index == old(self).index,
            final(self).document_ids == old(self).document_ids,
            final(self).id_to_short == old(self).id_to_short,
            final(self).field_length == old(self).field_length,
            final(self).stored_fields == old(self).stored_fields,
            final(self).field_ids == old(self).field_ids,
            final(self).fields == old(self).fields,
            final(self).store_fields == old(self).store_fields,
            final(self).document_count == old(self).document_count,
            final(self).next_id == old(self).next_id,
            final(self).dirt_count == old(self).dirt_count,
            final(self).tokenizer == old(self).tokenizer,
    {
        let ghost names = views(self.stored_field_names@);
        let mut i: usize = 0;
        while i < self.stored_field_names.len()
            invariant
                names == views(self.stored_field_names@),
                i <= self.stored_field_names@.len(),
                forall|j: int| 0 <= j < i ==> names[j] != name@,
            decreases self.stored_field_names@.len() - i,
        {
            if self.stored_field_names[i] == *name {
                proof {
                    assert(names[i as int] == name@);
                    let k = choose|k: int|
                        0 <= k < names.len() && names[k] == name@ && forall|j: int|
                            0 <= j < k ==> names[j] != name@;
                    if k < i {
                    } else if k > i {
                    }
                }
                proof {
                    lemma_u16_truncation_below(i);
                }
                return i as u16;
            }
            i = i + 1;
        }
        self.stored_field_names.push(name.clone());
        proof {
            assert(views(self.stored_field_names@) =~= names.push(name@));
            lemma_u16_truncation_below((self.stored_field_names.len() - 1) as usize);
        }
        (self.stored_field_names.len() - 1) as u16
    }

    /// Reads the documents and short IDs of a serialized index into an
    /// engine that has none.
    #[verifier::spinoff_prover]
    fn load_document_ids(&mut self, list: &Vec<(String, DocumentId)>) -> (result: Result<(), EngineError>)
        requires
            old(self).wf(),
            old(self).document_ids@.len() == 0,
            old(self).id_to_short@.len() == 0,
        ensures
            final(self).wf(),
            match result {
                Ok(()) => load_ids(list@) == Ok::<(Seq<(u32, Seq<char>)>, Seq<(IdKey, u32)>), EngineError>(
                    (final(self).document_ids@, final(self).id_to_short@),
                ),
                Err(e) => load_ids(list@) == Err::<(Seq<(u32, Seq<char>)>, Seq<(IdKey, u32)>), EngineError>(e),
            },
            final(self).index == old(self).index,
            final(self).field_length == old(self).field_length,
            final(self).stored_fields == old(self).stored_fields,
            final(self).field_ids == old(self).field_ids,
            final(self).fields == old(self).fields,
            final(self).store_fields == old(self).store_fields,
            final(self).stored_field_names == old(self).stored_field_names,
            final(self).document_count == old(self).document_count,
            final(self).next_id == old(self).next_id,
            final(self).dirt_count == old(self).dirt_count,
            final(self).tokenizer == old(self).tokenizer,
    {
        let ghost old_self = *self;
        let mut i: usize = 0;
        proof {
            assert(list@.take(0) =~= Seq::<(String, DocumentId)>::empty());
            assert(self.document_ids@ =~= Seq::<(u32, Seq<char>)>::empty());
            assert(self.id_to_short@ =~= Seq::<(IdKey, u32)>::empty());
        }
        while i < list.len()
            invariant
                self.wf(),
                i <= list@.len(),
                load_ids(list@.take(i as int)) == Ok::<(Seq<(u32, Seq<char>)>, Seq<(IdKey, u32)>), EngineError>(
                    (self.document_ids@, self.id_to_short@),
                ),
                *old(self) == old_self,
                self.index == old_self.index,
                self.field_length == old_self.field_length,
                self.stored_fields == old_self.stored_fields,
                self.field_ids == old_self.field_ids,
                self.fields == old_self.fields,
                self.store_fields == old_self.store_fields,
                self.stored_field_names == old_self.stored_field_names,
                self.document_count == old_self.document_count,
                self.next_id == old_self.next_id,
                self.dirt_count == old_self.dirt_count,
                self.tokenizer == old_self.tokenizer,
            decreases list@.len() - i,
        {
            proof {
                assert(list@.take(i + 1).drop_last() =~= list@.take(i as int));
            }
            let entry = &list[i];
            let short_id = match parse_short_id(entry.0.as_str()) {
                Ok(short_id) => short_id,
                Err(e) => {
                    proof {
                        lemma_load_ids_err(list@, i + 1);
                    }
                    return Err(e);
                },
            };
            proof {
                lemma_assoc_set_unique(self.document_ids@, short_id, entry.1.json@);
                lemma_assoc_set_unique(self.id_to_short@, entry.1.key, short_id);
            }
            self.document_ids.insert(short_id, entry.1.json.clone());
            self.id_to_short.insert(entry.1.key.copy(), short_id);
            i = i + 1;
        }
        proof {
            assert(list@.take(list@.len() as int) =~= list@);
        }
        Ok(())
    }

    /// Reads the field lengths of a serialized index into an engine that has
    /// none.
    #[verifier::spinoff_prover]
    fn load_field_lengths(&mut self, list: &Vec<(String, Option<Vec<Option<u64>>>)>) -> (result:
        Result<(), EngineError>)
        requires
            old(self).wf(),
            old(self).field_length@.len() == 0,
        ensures
            final(self).wf(),
            match result {
                Ok(()) => load_lengths(list@) == Ok::<Seq<(u32, Seq<Option<u32>>)>, EngineError>(
                    final(self).field_length@,
                ),
                Err(e) => load_lengths(list@) == Err::<Seq<(u32, Seq<Option<u32>>)>, EngineError>(e),
            },
            final(self).index == old(self).index,
            final(self).document_ids == old(self).document_ids,
            final(self).id_to_short == old(self).id_to_short,
            final(self).stored_fields == old(self).stored_fields,
            final(self).field_ids == old(self).field_ids,
            final(self).fields == old(self).fields,
            final(self).store_fields == old(self).store_fields,
            final(self).stored_field_names == old(self).stored_field_names,
            final(self).document_count == old(self).document_count,
            final(self).next_id == old(self).next_id,
            final(self).dirt_count == old(self).dirt_count,
            final(self).tokenizer == old(self).tokenizer,
    {
        let ghost old_self = *self;
        let mut i: usize = 0;
        proof {
            assert(list@.take(0) =~= Seq::<(String, Option<Vec<Option<u64>>>)>::empty());
            assert(self.field_length@ =~= Seq::<(u32, Seq<Option<u32>>)>::empty());
        }
        while i < list.len()
            invariant
                self.wf(),
                i <= list@.len(),
                load_lengths(list@.take(i as int)) == Ok::<Seq<(u32, Seq<Option<u32>>)>, EngineError>(
                    self.field_length@,
                ),
                *old(self) == old_self,
                self.index == old_self.index,
                self.document_ids == old_self.document_ids,
                self.id_to_short == old_self.id_to_short,
                self.stored_fields == old_self.stored_fields,
                self.field_ids == old_self.field_ids,
                self.fields == old_self.fields,
                self.store_fields == old_self.store_fields,
                self.stored_field_names == old_self.stored_field_names,
                self.document_count == old_self.document_count,
                self.next_id == old_self.next_id,
                self.dirt_count == old_self.dirt_count,
                self.tokenizer == old_self.tokenizer,
            decreases list@.len() - i,
        {
            proof {
                assert(list@.take(i + 1).drop_last() =~= list@.take(i as int));
            }
            let entry = &list[i];
            let mut lengths: Vec<Option<u32>> = Vec::new();
            match &entry.1 {
                Some(items) => {
                    let mut j: usize = 0;
                    while j < items.len()
                        invariant
                            j <= items@.len(),
                            lengths@ == loaded_lengths(Some(*items)).take(j as int),
                        decreases items@.len() - j,
                    {
                        let item = match items[j] {
                            Some(n) => Some(n as u32),
                            None => None,
                        };
                        lengths.push(item);
                        proof {
                            assert(lengths@ =~= loaded_lengths(Some(*items)).take(j + 1));
                        }
                        j = j + 1;
                    }
                    proof {
                        assert(lengths@ =~= loaded_lengths(Some(*items)));
                    }
                },
                None => {
                    proof {
                        assert(lengths@ =~= loaded_lengths(None));
                    }
                },
            }
            let short_id = match parse_short_id(entry.0.as_str()) {
                Ok(short_id) => short_id,
                Err(e) => {
                    proof {
                        lemma_load_lengths_err(list@, i + 1);
                    }
                    return Err(e);
                },
            };
            proof {
                lemma_assoc_set_unique(self.field_length@, short_id, lengths@);
            }
            self.field_length.insert(short_id, lengths);
            i = i + 1;
        }
        proof {
            assert(list@.take(list@.len() as int) =~= list@);
        }
        Ok(())
    }

    /// Reads the stored fields of a serialized index into an engine that has
    /// none.
    #[verifier::spinoff_prover]
    fn load_stored_fields(&mut self, list: &Vec<(String, Option<Vec<(String, String)>>)>) -> (result:
        Result<(), EngineError>)
        requires
            old(self).wf(),
            old(self).stored_fields@.len() == 0,
        ensures
            final(self).wf(),
            match result {
                Ok(()) => load_stored(list@, views(old(self).stored_field_names@)) == Ok::<
                    (Seq<(u32, Seq<(u16, Seq<char>)>)>, Seq<Seq<char>>),
                    EngineError,
                >((final(self).stored_fields@, views(final(self).stored_field_names@))),
                Err(e) => load_stored(list@, views(old(self).stored_field_names@)) == Err::<
                    (Seq<(u32, Seq<(u16, Seq<char>)>)>, Seq<Seq<char>>),
                    EngineError,
                >(e),
            },
            final(self).index == old(self).index,
            final(self).document_ids == old(self).document_ids,
            final(self).id_to_short == old(self).id_to_short,
            final(self).field_length == old(self).field_length,
            final(self).field_ids == old(self).field_ids,
            final(self).fields == old(self).fields,
            final(self).store_fields == old(self).store_fields,
            final(self).document_count == old(self).document_count,
            final(self).next_id == old(self).next_id,
            final(self).dirt_count == old(self).dirt_count,
            final(self).tokenizer == old(self).tokenizer,
    {
        let ghost old_self = *self;
        let ghost names0 = views(self.stored_field_names@);
        let mut i: usize = 0;
        proof {
            assert(list@.take(0) =~= Seq::<(String, Option<Vec<(String, String)>>)>::empty());
            assert(self.stored_fields@ =~= Seq::<(u32, Seq<(u16, Seq<char>)>)>::empty());
        }
        while i < list.len()
            invariant
                self.wf(),
                i <= list@.len(),
                names0 == views(old_self.stored_field_names@),
                load_stored(list@.take(i as int), names0) == Ok::<
                    (Seq<(u32, Seq<(u16, Seq<char>)>)>, Seq<Seq<char>>),
                    EngineError,
                >((self.stored_fields@, views(self.stored_field_names@))),
                *old(self) == old_self,
                self.index == old_self.index,
                self.document_ids == old_self.document_ids,
                self.id_to_short == old_self.id_to_short,
                self.field_length == old_self.field_length,
                self.field_ids == old_self.field_ids,
                self.fields == old_self.fields,
                self.store_fields == old_self.store_fields,
                self.document_count == old_self.document_count,
                self.next_id == old_self.next_id,
                self.dirt_count == old_self.dirt_count,
                self.tokenizer == old_self.tokenizer,
            decreases list@.len() - i,
        {
            proof {
                assert(list@.take(i + 1).drop_last() =~= list@.take(i as int));
            }
            let entry = &list[i];
            match &entry.1 {
                None => {},
                Some(values) => {
                    let short_id = match parse_short_id(entry.0.as_str()) {
                        Ok(short_id) => short_id,
                        Err(e) => {
                            proof {
                                lemma_load_stored_err(list@, names0, i + 1);
                            }
                            return Err(e);
                        },
                    };
                    let ghost names_before = views(self.stored_field_names@);
                    let mut entries: Vec<(u16, String)> = Vec::new();
                    let mut j: usize = 0;
                    proof {
                        assert(values@.take(0) =~= Seq::<(String, String)>::empty());
                        assert(stored_view(entries@) =~= Seq::<(u16, Seq<char>)>::empty());
                    }
                    while j < values.len()
                        invariant
                            self.wf(),
                            j <= values@.len(),
                            (stored_view(entries@), views(self.stored_field_names@)) == load_values(
                                values@.take(j as int),
                                names_before,
                            ),
                            unique_keys(stored_view(entries@)),
                            forall|k: int|
                                0 <= k < entries@.len() ==> ((#[trigger] entries@[k]).0 as int)
                                    < self.stored_field_names@.len(),
                            *old(self) == old_self,
                            self.index == old_self.index,
                            self.document_ids == old_self.document_ids,
                            self.id_to_short == old_self.id_to_short,
                            self.field_length == old_self.field_length,
                            self.field_ids == old_self.field_ids,
                            self.fields == old_self.fields,
                            self.store_fields == old_self.store_fields,
                            self.document_count == old_self.document_count,
                            self.next_id == old_self.next_id,
                            self.dirt_count == old_self.dirt_count,
                            self.tokenizer == old_self.tokenizer,
                            self.stored_fields@ == load_stored(list@.take(i as int), names0)->Ok_0.0,
                        decreases values@.len() - j,
                    {
                        proof {
                            assert(values@.take(j + 1).drop_last() =~= values@.take(j as int));
                        }
                        let ghost before_entries = entries@;
                        let ghost old_len = self.stored_field_names@.len();
                        let id = self.stored_name_id(&values[j].0);
                        set_stored_value(&mut entries, id, values[j].1.clone());
                        proof {
                            assert forall|k: int| 0 <= k < entries@.len() implies ((
                            #[trigger] entries@[k]).0 as int) < self.stored_field_names@.len() by {
                                let sv = stored_view(before_entries);
                                let nv = stored_view(entries@);
                                let jv = values@[j as int].1@;
                                assert(nv == assoc_set(sv, id, jv));
                                assert(nv.len() == entries@.len());
                                assert(sv.len() == before_entries.len());
                                assert(nv[k].0 == entries@[k].0);
                                if nv[k].0 != id {
                                    if has_key(sv, id) {
                                        let p = index_of(sv, id);
                                        assert(0 <= p < sv.len() && sv[p].0 == id);
                                        assert(nv == sv.update(p, (id, jv)));
                                        assert(k != p);
                                        assert(nv[k] == sv[k]);
                                    } else {
                                        assert(nv == sv.push((id, jv)));
                                        assert(k < sv.len());
                                        assert(nv[k] == sv[k]);
                                    }
                                    assert(sv[k].0 == before_entries[k].0);
                                    assert((before_entries[k].0 as int) < old_len);
                                }
                            }
                        }
                        j = j + 1;
                    }
                    proof {
                        assert(values@.take(values@.len() as int) =~= values@);
                        let table = self.stored_fields@;
                        let sv = stored_view(entries@);
                        lemma_assoc_set_unique(table, short_id, sv);
                        let new_table = assoc_set(table, short_id, sv);
                        let p = if has_key(table, short_id) {
                            index_of(table, short_id)
                        } else {
                            table.len() as int
                        };
                        assert(new_table[p].0 == short_id);
                        assert forall|a: int| 0 <= a < new_table.len() implies unique_keys(
                            #[trigger] new_table[a].1,
                        ) by {
                            if a != p {
                                assert(new_table[a] == table[a]);
                            }
                        }
                        assert forall|a: int, b: int|
                            0 <= a < new_table.len() && 0 <= b < new_table[a].1.len() implies (
                            #[trigger] new_table[a].1[b]).0 < self.stored_field_names@.len() by {
                            if a != p {
                                assert(new_table[a] == table[a]);
                                assert(table[a].1[b] == self.stored_fields@[a].1[b]);
                            } else {
                                assert(new_table[a].1 == sv);
                                assert(sv[b].0 == entries@[b].0);
                            }
                        }
                    }
                    self.stored_fields.insert(short_id, entries);
                },
            }
            i = i + 1;
        }
        proof {
            assert(list@.take(list@.len() as int) =~= list@);
        }
        Ok(())
    }

    /// Replaces the field IDs by those of a serialized index.
    #[verifier::spinoff_prover]
    fn load_field_ids(&mut self, list: &Vec<(String, Option<u64>)>) -> (result: Result<(), EngineError>)
        requires
            old(self).wf(),
        ensures
            final(self).wf(),
            match result {
                Ok(()) => load_field_ids(list@) == Ok::<Seq<(Seq<char>, u32)>, EngineError>(
                    final(self).field_ids@,
                ),
                Err(e) => load_field_ids(list@) == Err::<Seq<(Seq<char>, u32)>, EngineError>(e),
            },
            final(self).index == old(self).index,
            final(self).document_ids == old(self).document_ids,
            final(self).id_to_short == old(self).id_to_short,
            final(self).field_length == old(self).field_length,
            final(self).stored_fields == old(self).stored_fields,
            final(self).fields == old(self).fields,
            final(self).store_fields == old(self).store_fields,
            final(self).stored_field_names == old(self).stored_field_names,
            final(self).document_count == old(self).document_count,
            final(self).next_id == old(self).next_id,
            final(self).dirt_count == old(self).dirt_count,
            final(self).tokenizer == old(self).tokenizer,
    {
        let ghost old_self = *self;
        self.field_ids.clear();
        let mut i: usize = 0;
        proof {
            assert(list@.take(0) =~= Seq::<(String, Option<u64>)>::empty());
        }
        while i < list.len()
            invariant
                self.wf(),
                i <= list@.len(),
                load_field_ids(list@.take(i as int)) == Ok::<Seq<(Seq<char>, u32)>, EngineError>(
                    self.field_ids@,
                ),
                *old(self) == old_self,
                self.index == old_self.index,
                self.document_ids == old_self.document_ids,
                self.id_to_short == old_self.id_to_short,
                self.field_length == old_self.field_length,
                self.stored_fields == old_self.stored_fields,
                self.fields == old_self.fields,
                self.store_fields == old_self.store_fields,
                self.stored_field_names == old_self.stored_field_names,
                self.document_count == old_self.document_count,
                self.next_id == old_self.next_id,
                self.dirt_count == old_self.dirt_count,
                self.tokenizer == old_self.tokenizer,
            decreases list@.len() - i,
        {
            proof {
                assert(list@.take(i + 1).drop_last() =~= list@.take(i as int));
            }
            let entry = &list[i];
            let id = match entry.1 {
                Some(id) => id,
                None => {
                    proof {
                        lemma_load_field_ids_err(list@, i + 1);
                    }
                    return Err(EngineError::InvalidFieldId);
                },
            };
            proof {
                lemma_assoc_set_unique(self.field_ids@, entry.0@, id as u32);
            }
            self.field_ids.insert(entry.0.clone(), id as u32);
            i = i + 1;
        }
        proof {
            assert(list@.take(list@.len() as int) =~= list@);
        }
        Ok(())
    }

    /// Reads the inverted index of a serialized index into an engine whose
    /// index is empty.
    #[verifier::spinoff_prover]
    fn load_index(&mut self, list: &Vec<Option<IndexEntry>>, version: Option<u64>) -> (result:
        Result<(), EngineError>)
        requires
            old(self).wf(),
            old(self).index@.len() == 0,
            list@.len() < usize::MAX,
        ensures
            final(self).wf(),
            match result {
                Ok(()) => load_index(list@, version) == Ok::<Map<Seq<char>, Postings>, EngineError>(
                    final(self).index_view(),
                ),
                Err(e) => load_index(list@, version) == Err::<Map<Seq<char>, Postings>, EngineError>(e),
            },
            final(self).unchanged_but_index(*old(self)),
            result is Ok ==> final(self).index_terms() == keys_with_terms(
                Seq::empty(),
                loaded_terms(list@),
            ),
    {
        proof {
            reveal(Engine::index_terms);
        }
        let ghost old_self = *self;
        let mut i: usize = 0;
        proof {
            assert(list@.take(0) =~= Seq::<Option<IndexEntry>>::empty());
            self.index.lemma_finite();
            vstd::set_lib::lemma_set_empty_equivalency_len(self.index@.dom());
            assert(self.index_view() =~= Map::<Seq<char>, Postings>::empty());
            self.index.lemma_entries_are_the_map();
            assert(self.index_terms() =~= Seq::<Seq<char>>::empty());
            assert(loaded_terms(list@.take(0)) =~= Seq::<Seq<char>>::empty());
        }
        while i < list.len()
            invariant
                self.wf(),
                i <= list@.len(),
                list@.len() < usize::MAX,
                self.index@.len() <= i,
                load_index(list@.take(i as int), version) == Ok::<Map<Seq<char>, Postings>, EngineError>(
                    self.index_view(),
                ),
                *old(self) == old_self,
                self.unchanged_but_index(old_self),
                self.index_terms() == keys_with_terms(Seq::empty(), loaded_terms(list@.take(i as int))),
            decreases list@.len() - i,
        {
            proof {
                reveal(Engine::index_terms);
                assert(list@.take(i + 1).drop_last() =~= list@.take(i as int));
            }
            let (term, fields) = match &list[i] {
                Some(IndexEntry { term: Some(term), fields: Some(fields) }) => (term, fields),
                _ => {
                    proof {
                        lemma_load_index_err(list@, version, i + 1);
                    }
                    return Err(EngineError::InvalidIndexEntry);
                },
            };
            let data = match read_fields(fields, version) {
                Ok(data) => data,
                Err(e) => {
                    proof {
                        lemma_load_index_err(list@, version, i + 1);
                    }
                    return Err(e);
                },
            };
            let ghost before = self.index@;
            let ghost before_tree = self.index;
            let ghost before_self = *self;
            proof {
                before_self.lemma_terms_are_the_index(term@);
                assert(loaded_terms(list@.take(i + 1)) == loaded_terms(list@.take(i as int)).push(term@)) by {
                    assert(list@.take(i + 1).last() == list@[i as int]);
                    assert(loaded_terms(list@.take(i as int)) + seq![term@] =~= loaded_terms(
                        list@.take(i as int),
                    ).push(term@));
                }
                assert(loaded_terms(list@.take(i as int)).push(term@).drop_last() =~= loaded_terms(
                    list@.take(i as int),
                ));
            }
            self.index.insert(term.as_str(), data);
            proof {
                if before.contains_key(term@) {
                    assert(self.index_terms() =~= before_self.index_terms());
                }
                assert(self.index_view() =~= load_index(list@.take(i + 1), version)->Ok_0);
                assert forall|t: Seq<char>| #[trigger] self.index@.contains_key(t) implies postings_wf(
                    self.index@[t],
                ) by {
                    if t != term@ {
                        assert(before.contains_key(t));
                    }
                }
                before_tree.lemma_finite();
                assert(self.index@.dom() =~= before.dom().insert(term@));
            }
            i = i + 1;
        }
        proof {
            assert(list@.take(list@.len() as int) =~= list@);
        }
        Ok(())
    }

    /// Loads a serialized index into an engine over the given indexed and
    /// stored fields, which must be those the index was serialized with.
    /// Refused when the version is unknown, a short document ID or a field
    /// ID is not a number, a field ID is missing, or an index entry is not a
    /// `[term, fields]` pair; the first such reason in reading order is
    /// returned. Missing counts read as 0; absent members leave their part
    /// empty, and absent field IDs leave each field its position.
    #[verifier::spinoff_prover]
    pub fn load(
        parts: &SerializedIndex,
        fields: Vec<String>,
        store_fields: Vec<String>,
        tokenizer: Tokenizer,
    ) -> (result: Result<Engine, EngineError>)
        requires
            parts.index matches Some(list) ==> list@.len() < usize::MAX,
        ensures
            match result {
                Err(e) => load_error(*parts, views(store_fields@)) == Some(e),
                Ok(engine) => load_error(*parts, views(store_fields@)) is None && engine.loaded(
                    *parts,
                    views(fields@),
                    views(store_fields@),
                ),
            },
    {
        proof {
            reveal(Engine::index_terms);
        }
        if !supported_version(parts.version) {
            return Err(EngineError::IncompatibleVersion);
        }
        let ghost field_names = views(fields@);
        let ghost count = fields@.len();
        let mut engine = Engine::new(fields, store_fields, tokenizer);
        proof {
            assert(engine.index@.dom() =~= engine.index_view().dom());
        }
        let ghost fresh = engine.index;
        engine.document_count = match parts.document_count {
            Some(n) => n,
            None => 0,
        } as u32;
        engine.next_id = match parts.next_id {
            Some(n) => n,
            None => 0,
        } as u32;
        engine.dirt_count = match parts.dirt_count {
            Some(n) => n,
            None => 0,
        } as u32;
        match &parts.document_ids {
            Some(list) => {
                engine.load_document_ids(list)?;
            },
            None => {},
        }
        match &parts.field_length {
            Some(list) => {
                engine.load_field_lengths(list)?;
            },
            None => {},
        }
        match &parts.stored_fields {
            Some(list) => {
                engine.load_stored_fields(list)?;
            },
            None => {},
        }
        match &parts.field_ids {
            Some(list) => {
                engine.load_field_ids(list)?;
            },
            None => {},
        }
        match &parts.index {
            Some(list) => {
                engine.load_index(list, parts.version)?;
            },
            None => {
                assert(engine.index == fresh);
            },
        }
        Ok(engine)
    }

    /// The postings of `term` as the index holds them, or none.
    pub closed spec fn postings_of(&self, term: Seq<char>) -> Postings {
        if self.index_view().contains_key(term) {
            self.index_view()[term]
        } else {
            Seq::empty()
        }
    }

    /// The postings of `term` to score in the searched fields, in field
    /// order then posting order, and the references to discarded documents
    /// met on the way.
    #[verifier::spinoff_prover]
    fn collect_matches(&self, term: &str, search_fields: &Vec<String>) -> (result: (
        Vec<Match>,
        Vec<(u32, u32)>,
    ))
        requires
            self.wf(),
        ensures
            (result.0@, result.1@) == term_postings(
                self.postings_of(term@),
                views(search_fields@),
                search_fields@.len() as int,
                self.field_ids@,
                self.document_ids@,
                self.field_length@,
            ),
    {
        let ghost names = views(search_fields@);
        let mut matches: Vec<Match> = Vec::new();
        let mut stale: Vec<(u32, u32)> = Vec::new();
        let data = match self.index.get(term) {
            Some(data) => data,
            None => {
                proof {
                    lemma_term_postings_empty(
                        names,
                        search_fields@.len() as int,
                        self.field_ids@,
                        self.document_ids@,
                        self.field_length@,
                    );
                }
                return (matches, stale);
            },
        };
        let ghost pv = postings_view(*data);
        proof {
            assert(pv == self.postings_of(term@));
            assert(postings_wf(*data));
            lemma_map_second(data@, |d: DocFreqs| d@);
        }
        let mut position: usize = 0;
        while position < search_fields.len()
            invariant
                self.wf(),
                names == views(search_fields@),
                pv == postings_view(*data),
                postings_wf(*data),
                forall|k: u32| #[trigger] assoc_get(pv, k) == match assoc_get(data@, k) {
                    Some(v) => Some(v@),
                    None => None,
                },
                position <= search_fields@.len(),
                (matches@, stale@) == term_postings(
                    pv,
                    names,
                    position as int,
                    self.field_ids@,
                    self.document_ids@,
                    self.field_length@,
                ),
            decreases search_fields@.len() - position,
        {
            let ghost prev_matches = matches@;
            let ghost prev_stale = stale@;
            match self.field_ids.get(search_fields[position].as_str()) {
                None => {},
                Some(field_id) => {
                    match data.get(field_id) {
                        None => {},
                        Some(docs) => {
                            let entries = docs.as_slice();
                            let ghost dv = entries@;
                            let total = entries.len() as u32;
                            let mut matching = total;
                            let mut j: usize = 0;
                            let ghost start_matches = matches@;
                            let ghost start_stale = stale@;
                            proof {
                                assert(dv.take(0) =~= Seq::<(u32, u32)>::empty());
                                assert(matches@ =~= start_matches + Seq::<Match>::empty());
                                assert(stale@ =~= start_stale + Seq::<(u32, u32)>::empty());
                            }
                            while j < entries.len()
                                invariant
                                    self.wf(),
                                    dv == entries@,
                                    j <= dv.len(),
                                    matches@ == start_matches + field_postings(dv.take(j as int), total, position as int, field_id, self.document_ids@, self.field_length@).0,
                                    stale@ == start_stale + field_postings(dv.take(j as int), total, position as int, field_id, self.document_ids@, self.field_length@).1,
                                    matching == count_down(total, field_postings(dv.take(j as int), total, position as int, field_id, self.document_ids@, self.field_length@).1.len()),
                                decreases dv.len() - j,
                            {
                                proof {
                                    assert(dv.take(j + 1).drop_last() =~= dv.take(j as int));
                                }
                                let (doc_id, term_freq) = entries[j];
                                if !self.document_ids.contains_key(doc_id) {
                                    stale.push((field_id, doc_id));
                                    matching = if matching == 0 {
                                        u32::MAX
                                    } else {
                                        matching - 1
                                    };
                                } else {
                                    let field_length = self.length_of(doc_id, field_id);
                                    matches.push(
                                        Match {
                                            field_position: position,
                                            field_id,
                                            doc_id,
                                            term_freq,
                                            matching,
                                            field_length,
                                        },
                                    );
                                }
                                proof {
                                    let prev = field_postings(dv.take(j as int), total, position as int, field_id, self.document_ids@, self.field_length@);
                                    let next = field_postings(dv.take(j + 1), total, position as int, field_id, self.document_ids@, self.field_length@);
                                    if has_key(self.document_ids@, doc_id) {
                                        assert(next.0 == prev.0.push(matches@.last()));
                                        assert(matches@ =~= start_matches + next.0);
                                    } else {
                                        assert(stale@ =~= start_stale + next.1);
                                    }
                                }
                                j = j + 1;
                            }
                            proof {
                                assert(dv.take(dv.len() as int) =~= dv);
                                assert(dv == assoc_get(pv, field_id)->Some_0);
                            }
                        },
                    }
                },
            }
            position = position + 1;
        }
        (matches, stale)
    }

    /// The recorded length of field `field_id` of document `doc_id`, or 0.
    #[verifier::spinoff_prover]
    fn length_of(&self, doc_id: u32, field_id: u32) -> (length: u32)
        requires
            self.wf(),
        ensures
            length == field_length_of(self.field_length@, doc_id, field_id),
    {
        match self.field_length.get(doc_id) {
            Some(lengths) => {
                if (field_id as usize) < lengths.len() {
                    match lengths[field_id as usize] {
                        Some(n) => n,
                        None => 0,
                    }
                } else {
                    0
                }
            },
            None => 0,
        }
    }

    /// Takes away one occurrence of `term` in field `field_id` of document
    /// `doc_id`, adding the warning if it is absent.
    #[verifier::spinoff_prover]
    #[verifier::rlimit(100)]
    fn remove_ref(&mut self, term: &str, field_id: u32, doc_id: u32, warnings: &mut Vec<Warning>)
        requires
            old(self).wf(),
        ensures
            final(self).wf(),
            final(self).index_view() == index_remove(old(self).index_view(), term@, field_id, doc_id),
            final(warnings)@.map_values(|w: Warning| warning_view(w)) == old(warnings)@.map_values(
                |w: Warning| warning_view(w),
            ) + step_warnings(
                old(self).index_view(),
                term@,
                field_id,
                doc_id,
                old(self).field_ids@,
                old(self).document_ids@,
            ),
            final(self).unchanged_but_index(*old(self)),
            old(self).ready() ==> final(self).ready(),
            removal_order(
                old(self).index_terms(),
                final(self).index_terms(),
                final(self).index@.contains_key(term@),
                term@,
            ),
    {
        let ghost before = warnings@;
        match self.remove_term(field_id, doc_id, term) {
            Some(warning) => {
                warnings.push(warning);
                proof {
                    assert(warnings@.map_values(|w: Warning| warning_view(w)) =~= before.map_values(
                        |w: Warning| warning_view(w),
                    ).push(warning_view(warning)));
                }
            },
            None => {
                proof {
                    assert(before.map_values(|w: Warning| warning_view(w)) + Seq::<WarningView>::empty()
                        =~= before.map_values(|w: Warning| warning_view(w)));
                }
            },
        }
        proof {
            let v = warnings@.map_values(|w: Warning| warning_view(w));
            let b = before.map_values(|w: Warning| warning_view(w));
            let iv = old(self).index_view();
            if !(iv.contains_key(term@) && posting_has(iv[term@], field_id, doc_id)) {
                match missing_warning(old(self).field_ids@, old(self).document_ids@, doc_id, field_id, term@) {
                    Some(w) => {
                        assert(v =~= b + seq![w]);
                    },
                    None => {
                        assert(v =~= b + Seq::<WarningView>::empty());
                    },
                }
            }
        }
    }

    /// Takes away one occurrence of `term` for each `(field, document)`
    /// reference, returning the warnings for the absent ones.
    #[verifier::spinoff_prover]
    #[verifier::rlimit(100)]
    fn remove_refs(&mut self, term: &str, refs: &Vec<(u32, u32)>) -> (warnings: Vec<Warning>)
        requires
            old(self).wf(),
        ensures
            final(self).wf(),
            final(self).index_view() == index_remove_refs(
                old(self).index_view(),
                term@,
                refs@,
                old(self).field_ids@,
                old(self).document_ids@,
            ).0,
            warnings@.map_values(|w: Warning| warning_view(w)) == index_remove_refs(
                old(self).index_view(),
                term@,
                refs@,
                old(self).field_ids@,
                old(self).document_ids@,
            ).1,
            final(self).unchanged_but_index(*old(self)),
            old(self).ready() ==> final(self).ready(),
            removal_order(
                old(self).index_terms(),
                final(self).index_terms(),
                final(self).index@.contains_key(term@),
                term@,
            ),
    {
        let ghost old_self = *self;
        let ghost start_index = self.index_view();
        let ghost table = self.field_ids@;
        let ghost docs = self.document_ids@;
        let mut warnings: Vec<Warning> = Vec::new();
        let mut j: usize = 0;
        proof {
            Engine::lemma_removal_order_none(old_self, term@);
            assert(refs@.take(0) =~= Seq::<(u32, u32)>::empty());
            assert(index_remove_refs(start_index, term@, refs@.take(0), table, docs) == (
                start_index,
                Seq::<WarningView>::empty(),
            ));
            assert(warnings@.map_values(|w: Warning| warning_view(w)) =~= Seq::<WarningView>::empty());
        }
        while j < refs.len()
            invariant
                self.wf(),
                j <= refs@.len(),
                self.index_view() == index_remove_refs(start_index, term@, refs@.take(j as int), table, docs).0,
                warnings@.map_values(|w: Warning| warning_view(w)) == index_remove_refs(start_index, term@, refs@.take(j as int), table, docs).1,
                self.unchanged_but_index(old_self),
                old_self.ready() ==> self.ready(),
                table == self.field_ids@,
                docs == self.document_ids@,
                removal_order(
                    old_self.index_terms(),
                    self.index_terms(),
                    self.index@.contains_key(term@),
                    term@,
                ),
            decreases refs@.len() - j,
        {
            proof {
                assert(refs@.take(j + 1).drop_last() =~= refs@.take(j as int));
                assert(refs@.take(j + 1).last() == refs@[j as int]);
            }
            let ghost before = *self;
            self.remove_ref(term, refs[j].0, refs[j].1, &mut warnings);
            proof {
                Engine::lemma_refs_step(old_self, before, *self, term@, refs@[j as int].0, refs@[j as int].1);
            }
            j = j + 1;
        }
        proof {
            assert(refs@.take(refs@.len() as int) =~= refs@);
        }
        warnings
    }

    /// The postings of `term` to score in the searched fields, in field
    /// order then posting order. References to discarded documents met on
    /// the way are then taken away from the index, one occurrence each, with
    /// the warnings for those already absent.
    #[verifier::spinoff_prover]
    pub fn term_matches(&mut self, term: &str, search_fields: &Vec<String>) -> (result: (
        Vec<Match>,
        Vec<Warning>,
    ))
        requires
            old(self).wf(),
        ensures
            final(self).wf(),
            old(self).ready() ==> final(self).ready(),
            final(self).documents() == old(self).documents(),
            final(self).short_ids() == old(self).short_ids(),
            final(self).lengths() == old(self).lengths(),
            final(self).stored() == old(self).stored(),
            final(self).doc_count() == old(self).doc_count(),
            final(self).dirt() == old(self).dirt(),
            final(self).next_short_id() == old(self).next_short_id(),
            final(self).field_id_table() == old(self).field_id_table(),
            ({
                let (matches, stale) = term_postings(
                    old(self).postings_of(term@),
                    views(search_fields@),
                    search_fields@.len() as int,
                    old(self).field_id_table(),
                    old(self).documents(),
                    old(self).lengths(),
                );
                let (index, warnings) = index_remove_refs(
                    old(self).index_view(),
                    term@,
                    stale,
                    old(self).field_id_table(),
                    old(self).documents(),
                );
                &&& result.0@ == matches
                &&& final(self).index_view() == index
                &&& result.1@.map_values(|w: Warning| warning_view(w)) == warnings
            }),
            !has_stale(old(self).postings_of(term@), old(self).documents()) ==> (
            final(self).index_view() == old(self).index_view() && result.1@.len() == 0),
            old(self).consistent() ==> final(self).consistent(),
            removal_order(
                old(self).index_terms(),
                final(self).index_terms(),
                final(self).index_view().contains_key(term@),
                term@,
            ),
    {
        let ghost old_self = *self;
        let (matches, stale) = self.collect_matches(term, search_fields);
        let warnings = self.remove_refs(term, &stale);
        proof {
            assert(self.index@.dom() == self.index_view().dom());
            if !has_stale(old_self.postings_of(term@), old_self.documents()) {
                lemma_clean_postings_have_no_stale(
                    old_self.postings_of(term@),
                    views(search_fields@),
                    search_fields@.len() as int,
                    old_self.field_id_table(),
                    old_self.documents(),
                    old_self.lengths(),
                );
                assert(warnings@.map_values(|w: Warning| warning_view(w)).len() == 0);
            }
            old_self.lemma_index_unique();
            lemma_remove_refs_keeps(
                old_self.index_view(),
                term@,
                stale@,
                old_self.field_id_table(),
                old_self.documents(),
                old_self.next_short_id() as int,
            );
            if old_self.consistent() {
                assert(self.short_ids() == old_self.short_ids());
                assert(self.documents() == old_self.documents());
                assert(self.lengths() == old_self.lengths());
                assert(self.stored() == old_self.stored());
                assert(self.next_short_id() == old_self.next_short_id());
                assert(self.stored_names() == old_self.stored_names());
                assert(self.store_field_names() == old_self.store_field_names());
                self.lemma_ids_consistent_same(old_self);
            }
        }
        (matches, warnings)
    }

    /// The terms of the index that extend `term`, in traversal order.
    pub closed spec fn prefix_terms(&self, term: Seq<char>) -> Seq<Seq<char>> {
        self.index.prefix_entries(term).map_values(|entry: (Seq<char>, FieldTermData)| entry.0)
    }

    /// The terms of the index within `max` edits of `term`, with their
    /// distances, in forward insertion order.
    pub closed spec fn fuzzy_terms(&self, term: Seq<char>, max: int) -> Seq<(Seq<char>, int)> {
        self.index.fuzzy_entries(term, max)
    }

    /// The expansions of the query term `term` as plain values: with
    /// `prefix`, the prefix expansions of the terms extending it; then,
    /// within `max_fuzzy` edits if given, the fuzzy expansions of the close
    /// terms not already found by prefix.
    pub open spec fn expansion_list(&self, term: Seq<char>, prefix: bool, max_fuzzy: Option<usize>) -> Seq<
        (Seq<char>, int, ExpansionKind),
    > {
        let prefix_terms = if prefix {
            self.prefix_terms(term)
        } else {
            Seq::empty()
        };
        let found = match max_fuzzy {
            Some(max) => self.fuzzy_terms(term, max as int),
            None => Seq::empty(),
        };
        prefix_expansions(prefix_terms, term.len() as int) + fuzzy_expansions(found, prefix_terms)
    }

    /// What the expansions of a query term are. Each is a term of the index
    /// other than the query term, and no term is listed twice. A prefix
    /// expansion, made only with prefix search on, extends the query term
    /// and carries its number of extra characters; a fuzzy expansion, made
    /// only with a fuzzy bound, is within the bound at its edit distance and
    /// is never a term that prefix search found. Every term of the index
    /// other than the query term that extends it is a prefix expansion when
    /// prefix search is on, and every other one within the fuzzy bound is a
    /// fuzzy expansion, whether or not prefix search is on.
    pub proof fn lemma_expansions_are_the_derived_terms(
        &self,
        term: Seq<char>,
        prefix: bool,
        max_fuzzy: Option<usize>,
    )
        requires
            self.wf(),
        ensures
            forall|a: int, b: int|
                0 <= a < self.expansion_list(term, prefix, max_fuzzy).len() && 0 <= b
                    < self.expansion_list(term, prefix, max_fuzzy).len() && a != b ==> (
                #[trigger] self.expansion_list(term, prefix, max_fuzzy)[a]).0 != (
                #[trigger] self.expansion_list(term, prefix, max_fuzzy)[b]).0,
            forall|i: int|
                0 <= i < self.expansion_list(term, prefix, max_fuzzy).len() ==> {
                    let e = #[trigger] self.expansion_list(term, prefix, max_fuzzy)[i];
                    &&& self.index_view().contains_key(e.0)
                    &&& e.0 != term
                    &&& e.2 == ExpansionKind::Prefix ==> prefix && is_prefix(term, e.0) && e.1
                        == e.0.len() - term.len()
                    &&& e.2 == ExpansionKind::Fuzzy ==> (max_fuzzy matches Some(max) && e.1
                        == levenshtein(e.0, term) && e.1 <= max) && !(prefix && is_prefix(term, e.0))
                },
            forall|k: Seq<char>|
                #[trigger] self.index_view().contains_key(k) && k != term ==> {
                    &&& prefix && is_prefix(term, k) ==> exists|i: int|
                        0 <= i < self.expansion_list(term, prefix, max_fuzzy).len()
                            && #[trigger] self.expansion_list(term, prefix, max_fuzzy)[i] == (
                            k,
                            k.len() - term.len(),
                            ExpansionKind::Prefix,
                        )
                    &&& (max_fuzzy matches Some(max) && levenshtein(k, term) <= max && !(prefix
                        && is_prefix(term, k))) ==> exists|i: int|
                        0 <= i < self.expansion_list(term, prefix, max_fuzzy).len()
                            && #[trigger] self.expansion_list(term, prefix, max_fuzzy)[i] == (
                            k,
                            levenshtein(k, term) as int,
                            ExpansionKind::Fuzzy,
                        )
                },
    {
        let ql = term.len() as int;
        let pt = if prefix {
            self.prefix_terms(term)
        } else {
            Seq::empty()
        };
        let found = match max_fuzzy {
            Some(max) => self.fuzzy_terms(term, max as int),
            None => Seq::empty(),
        };
        let pe = prefix_expansions(pt, ql);
        let fe = fuzzy_expansions(found, pt);
        let r = self.expansion_list(term, prefix, max_fuzzy);
        assert(r == pe + fe);
        assert(self.index_view().dom() == self.index@.dom());
        self.index.lemma_prefix_entries_are_the_prefixed_map(term);
        let pentries = self.index.prefix_entries(term);
        // The prefix terms: keys of the index that extend the query term, each once.
        assert forall|j: int| 0 <= j < pt.len() implies is_prefix(term, #[trigger] pt[j])
            && self.index@.contains_key(pt[j]) by {
            assert(prefix);
            assert(pt[j] == pentries[j].0);
        }
        assert forall|a: int, b: int| 0 <= a < pt.len() && 0 <= b < pt.len() && a != b implies #[trigger] pt[a]
            != #[trigger] pt[b] by {
            assert(pt[a] == pentries[a].0 && pt[b] == pentries[b].0);
        }
        assert forall|k: Seq<char>| prefix && self.index@.contains_key(k) && is_prefix(term, k) implies pt.contains(
            k,
        ) by {
            let i = choose|i: int| 0 <= i < pentries.len() && (#[trigger] pentries[i]).0 == k;
            assert(pt[i] == k);
        }
        // The found terms: keys of the index within the bound, at their distance, each once.
        if let Some(max) = max_fuzzy {
            self.index.lemma_fuzzy_entries_are_the_close_keys(term, max as int);
        }
        assert forall|j: int| 0 <= j < found.len() implies self.index@.contains_key((#[trigger] found[j]).0)
            && (max_fuzzy matches Some(max) && found[j].1 == levenshtein(found[j].0, term) && found[j].1 <= max) by {
            assert(max_fuzzy is Some);
        }
        lemma_prefix_expansions_from(pt, ql);
        lemma_fuzzy_expansions_from(found, pt);
        assert forall|i: int| 0 <= i < r.len() implies {
            let e = #[trigger] r[i];
            &&& self.index_view().contains_key(e.0)
            &&& e.0 != term
            &&& e.2 == ExpansionKind::Prefix ==> prefix && is_prefix(term, e.0) && e.1 == e.0.len()
                - term.len()
            &&& e.2 == ExpansionKind::Fuzzy ==> (max_fuzzy matches Some(max) && e.1 == levenshtein(
                e.0,
                term,
            ) && e.1 <= max) && !(prefix && is_prefix(term, e.0))
        } by {
            if i < pe.len() {
                assert(r[i] == pe[i]);
                let j = choose|j: int|
                    0 <= j < pt.len() && (#[trigger] pe[i]) == (
                        pt[j],
                        pt[j].len() - ql,
                        ExpansionKind::Prefix,
                    ) && pt[j].len() != ql;
                assert(is_prefix(term, pt[j]));
            } else {
                let x = i - pe.len();
                assert(r[i] == fe[x]);
                let j = choose|j: int|
                    0 <= j < found.len() && (#[trigger] fe[x]) == (found[j].0, found[j].1, ExpansionKind::Fuzzy)
                        && found[j].1 != 0 && !pt.contains(found[j].0);
                let k = found[j].0;
                assert(self.index@.contains_key(k));
                lemma_zero_distance(k, term);
                if prefix && is_prefix(term, k) {
                    assert(pt.contains(k));
                }
            }
        }
        assert forall|a: int, b: int| 0 <= a < r.len() && 0 <= b < r.len() && a != b implies (
            #[trigger] r[a]).0 != (#[trigger] r[b]).0 by {
            if a < pe.len() && b < pe.len() {
                assert(r[a] == pe[a] && r[b] == pe[b]);
            } else if a >= pe.len() && b >= pe.len() {
                assert(r[a] == fe[a - pe.len()] && r[b] == fe[b - pe.len()]);
            } else {
                let p = if a < pe.len() { a } else { b };
                let f = if a < pe.len() { b } else { a };
                assert(r[p] == pe[p]);
                assert(r[f] == fe[f - pe.len()]);
                let j = choose|j: int|
                    0 <= j < pt.len() && (#[trigger] pe[p]) == (
                        pt[j],
                        pt[j].len() - ql,
                        ExpansionKind::Prefix,
                    ) && pt[j].len() != ql;
                let x = f - pe.len();
                let m = choose|m: int|
                    0 <= m < found.len() && (#[trigger] fe[x]) == (found[m].0, found[m].1, ExpansionKind::Fuzzy)
                        && found[m].1 != 0 && !pt.contains(found[m].0);
                assert(pt.contains(pt[j]));
            }
        }
        assert forall|k: Seq<char>| #[trigger] self.index_view().contains_key(k) && k != term implies {
            &&& prefix && is_prefix(term, k) ==> exists|i: int|
                0 <= i < r.len() && #[trigger] r[i] == (k, k.len() - term.len(), ExpansionKind::Prefix)
            &&& (max_fuzzy matches Some(max) && levenshtein(k, term) <= max && !(prefix && is_prefix(
                term,
                k,
            ))) ==> exists|i: int|
                0 <= i < r.len() && #[trigger] r[i] == (k, levenshtein(k, term) as int, ExpansionKind::Fuzzy)
        } by {
            assert(self.index@.contains_key(k));
            if prefix && is_prefix(term, k) {
                assert(pt.contains(k));
                let j = choose|j: int| 0 <= j < pt.len() && pt[j] == k;
                if k.len() == term.len() {
                    assert(k =~= k.take(term.len() as int));
                }
                assert(pt[j].len() != ql);
                let i = choose|i: int| 0 <= i < pe.len() && pe[i] == (pt[j], pt[j].len() - ql, ExpansionKind::Prefix);
                assert(r[i] == pe[i]);
            }
            if max_fuzzy matches Some(max) && levenshtein(k, term) <= max && !(prefix && is_prefix(term, k)) {
                let max = max_fuzzy->Some_0;
                let j = choose|j: int| 0 <= j < found.len() && (#[trigger] found[j]).0 == k;
                lemma_zero_distance(k, term);
                assert(found[j].1 != 0);
                if pt.contains(k) {
                    let q = choose|q: int| 0 <= q < pt.len() && pt[q] == k;
                    assert(is_prefix(term, pt[q]));
                }
                let i = choose|i: int| 0 <= i < fe.len() && fe[i] == (found[j].0, found[j].1, ExpansionKind::Fuzzy);
                assert(r[pe.len() + i] == fe[i]);
            }
        }
    }

    /// The terms derived from the query term `term`: with `prefix`, the terms
    /// extending it; within `max_fuzzy` edits, if given, the close terms not
    /// already found by prefix. The query term itself is left out.
    #[verifier::spinoff_prover]
    pub fn expansions(&self, term: &str, prefix: bool, max_fuzzy: Option<usize>) -> (expansions: Vec<
        Expansion,
    >)
        requires
            self.wf(),
            max_fuzzy matches Some(max) ==> term@.len() + max + 1 <= 65535,
        ensures
            expansions@.map_values(|e: Expansion| expansion_view(e)) == self.expansion_list(
                term@,
                prefix,
                max_fuzzy,
            ),
    {
        let query_length = crate::text::chars_of(term).len();
        let mut expansions: Vec<Expansion> = Vec::new();
        let mut prefix_terms: Vec<String> = Vec::new();
        let ghost all_prefix = if prefix {
            self.prefix_terms(term@)
        } else {
            Seq::<Seq<char>>::empty()
        };
        if prefix {
            let entries = self.index.for_each_prefix(term);
            proof {
                self.index.lemma_prefix_entries_are_the_prefixed_map(term@);
                assert(all_prefix.take(0) =~= Seq::<Seq<char>>::empty());
            }
            let mut i: usize = 0;
            while i < entries.len()
                invariant
                    self.wf(),
                    prefix,
                    query_length == term@.len(),
                    entry_view(entries@) == self.index.prefix_entries(term@),
                    all_prefix == self.prefix_terms(term@),
                    forall|k: int|
                        #![trigger self.index.prefix_entries(term@)[k]]
                        0 <= k < self.index.prefix_entries(term@).len() ==> is_prefix(
                            term@,
                            self.index.prefix_entries(term@)[k].0,
                        ),
                    i <= entries@.len(),
                    views(prefix_terms@) == all_prefix.take(i as int),
                    expansions@.map_values(|e: Expansion| expansion_view(e)) == prefix_expansions(
                        all_prefix.take(i as int),
                        term@.len() as int,
                    ),
                decreases entries@.len() - i,
            {
                let derived = &entries[i].0;
                proof {
                    assert(self.index.prefix_entries(term@)[i as int].0 == derived@);
                    assert(all_prefix.take(i + 1).drop_last() =~= all_prefix.take(i as int));
                    assert(all_prefix[i as int] == derived@);
                }
                let length = crate::text::chars_of(derived.as_str()).len();
                let ghost before = expansions@;
                if length != query_length {
                    expansions.push(
                        Expansion {
                            term: derived.clone(),
                            distance: length - query_length,
                            kind: ExpansionKind::Prefix,
                        },
                    );
                    proof {
                        assert(expansions@.map_values(|e: Expansion| expansion_view(e)) =~= before.map_values(
                            |e: Expansion| expansion_view(e),
                        ).push((derived@, length - query_length, ExpansionKind::Prefix)));
                    }
                }
                prefix_terms.push(derived.clone());
                proof {
                    assert(views(prefix_terms@) =~= all_prefix.take(i + 1));
                }
                i = i + 1;
            }
            proof {
                assert(all_prefix.take(entries@.len() as int) =~= all_prefix);
            }
        } else {
            proof {
                assert(views(prefix_terms@) =~= all_prefix);
                assert(expansions@.map_values(|e: Expansion| expansion_view(e)) =~= prefix_expansions(
                    all_prefix,
                    term@.len() as int,
                ));
            }
        }
        let ghost after_prefix = expansions@.map_values(|e: Expansion| expansion_view(e));
        match max_fuzzy {
            None => {
                proof {
                    assert(after_prefix + fuzzy_expansions(Seq::empty(), all_prefix) =~= after_prefix);
                }
            },
            Some(max) => {
                let found = self.index.fuzzy_get(term, max);
                let ghost fv = fuzzy_view(found@);
                let mut known = new_token_set();
                if found.len() > 0 {
                    let mut k: usize = 0;
                    while k < prefix_terms.len()
                        invariant
                            k <= prefix_terms@.len(),
                            token_set_contents(known) == views(prefix_terms@).take(k as int).to_set(),
                        decreases prefix_terms@.len() - k,
                    {
                        proof {
                            assert(views(prefix_terms@).take(k + 1) =~= views(prefix_terms@).take(k as int).push(
                                prefix_terms@[k as int]@,
                            ));
                            crate::tokens::lemma_take_to_set(views(prefix_terms@), k as int);
                        }
                        token_set_insert(&mut known, prefix_terms[k].clone());
                        k = k + 1;
                    }
                    proof {
                        assert(views(prefix_terms@).take(prefix_terms@.len() as int) =~= views(prefix_terms@));
                    }
                }
                let mut j: usize = 0;
                proof {
                    assert(fv.take(0) =~= Seq::<(Seq<char>, int)>::empty());
                    assert(expansions@.map_values(|e: Expansion| expansion_view(e)) =~= after_prefix
                        + fuzzy_expansions(fv.take(0), all_prefix));
                }
                while j < found.len()
                    invariant
                        fv == fuzzy_view(found@),
                        views(prefix_terms@) == all_prefix,
                        found@.len() > 0 ==> token_set_contents(known) == all_prefix.to_set(),
                        j <= found@.len(),
                        expansions@.map_values(|e: Expansion| expansion_view(e)) == after_prefix
                            + fuzzy_expansions(fv.take(j as int), all_prefix),
                    decreases found@.len() - j,
                {
                    proof {
                        assert(fv.take(j + 1).drop_last() =~= fv.take(j as int));
                        assert(fv[j as int] == (found@[j as int].0@, found@[j as int].1 as int));
                    }
                    let distance = found[j].1;
                    let ghost before = expansions@;
                    if distance != 0 && !token_set_contains(&known, found[j].0.as_str()) {
                        expansions.push(
                            Expansion {
                                term: found[j].0.clone(),
                                distance,
                                kind: ExpansionKind::Fuzzy,
                            },
                        );
                        proof {
                            assert(expansions@.map_values(|e: Expansion| expansion_view(e)) =~= before.map_values(
                                |e: Expansion| expansion_view(e),
                            ).push((found@[j as int].0@, distance as int, ExpansionKind::Fuzzy)));
                        }
                    }
                    proof {
                        assert(all_prefix.to_set().contains(found@[j as int].0@) == all_prefix.contains(
                            found@[j as int].0@,
                        ));
                    }
                    j = j + 1;
                }
                proof {
                    assert(fv.take(found@.len() as int) =~= fv);
                }
            },
        }
        expansions
    }

    /// The terms of a query text, in order.
    #[verifier::spinoff_prover]
    pub fn query_terms(&self, text: &str) -> (terms: Vec<String>)
        ensures
            views(terms@) == text_terms(text@),
    {
        let (terms, _) = self.tokenizer.terms(text);
        terms
    }

    /// Whether a document with this short ID is indexed.
    #[verifier::spinoff_prover]
    pub fn has_short_id(&self, short_id: u32) -> (found: bool)
        ensures
            found == has_key(self.documents(), short_id),
    {
        self.document_ids.contains_key(short_id)
    }

    /// The short IDs of the indexed documents, in insertion order.
    #[verifier::spinoff_prover]
    pub fn short_ids_in_order(&self) -> (ids: Vec<u32>)
        ensures
            ids@ == self.documents().map_values(|entry: (u32, Seq<char>)| entry.0),
    {
        let mut ids: Vec<u32> = Vec::new();
        let len = self.document_ids.len();
        let mut i: usize = 0;
        while i < len
            invariant
                len == self.document_ids@.len(),
                i <= len,
                ids@ == self.document_ids@.take(i as int).map_values(|entry: (u32, Seq<char>)| entry.0),
            decreases len - i,
        {
            let (short_id, _) = self.document_ids.get_index(i).unwrap();
            ids.push(*short_id);
            proof {
                assert(ids@ =~= self.document_ids@.take(i + 1).map_values(|entry: (u32, Seq<char>)| entry.0));
            }
            i = i + 1;
        }
        proof {
            assert(self.document_ids@.take(len as int) =~= self.document_ids@);
        }
        ids
    }

    /// Whether every result refers to indexed documents and interned terms.
    #[verifier::spinoff_prover]
    pub fn hits_known(&self, hits: &Vec<Hit>, interner: &Interner) -> (known: bool)
        requires
            self.wf(),
            interner.wf(),
        ensures
            known == forall|i: int| 0 <= i < hits@.len() ==> self.hit_known(#[trigger] hits@[i], interner.terms()),
    {
        let count = interner.term_count();
        let mut i: usize = 0;
        while i < hits.len()
            invariant
                self.wf(),
                interner.wf(),
                count == interner.terms().len(),
                i <= hits@.len(),
                forall|k: int| 0 <= k < i ==> self.hit_known(#[trigger] hits@[k], interner.terms()),
            decreases hits@.len() - i,
        {
            let hit = &hits[i];
            if !self.document_ids.contains_key(hit.doc_id) {
                proof {
                    assert(hits@[i as int] == *hit);
                }
                return false;
            }
            let terms = hit.matches.terms();
            let mut j: usize = 0;
            while j < terms.len()
                invariant
                    j <= terms@.len(),
                    i < hits@.len(),
                    hits@[i as int] == *hit,
                    count == interner.terms().len(),
                    terms@ == hit.matches.query_terms(),
                    forall|k: int| 0 <= k < j ==> ((#[trigger] terms@[k]) as int) < count,
                decreases terms@.len() - j,
            {
                if terms[j] as usize >= count {
                    proof {
                        assert(hits@[i as int] == *hit);
                        assert(hit.matches.query_terms()[j as int] == terms@[j as int]);
                        assert(!self.hit_known(hits@[i as int], interner.terms()));
                    }
                    return false;
                }
                j = j + 1;
            }
            let matches = hit.matches.matches();
            let mut j: usize = 0;
            while j < matches.len()
                invariant
                    j <= matches@.len(),
                    i < hits@.len(),
                    hits@[i as int] == *hit,
                    count == interner.terms().len(),
                    matches_view(matches@) == hit.matches.field_matches(),
                    forall|k: int| 0 <= k < j ==> ((#[trigger] matches_view(matches@)[k]).0 as int) < count,
                decreases matches@.len() - j,
            {
                if matches[j].0 as usize >= count {
                    proof {
                        assert(hits@[i as int] == *hit);
                        assert(hit.matches.field_matches()[j as int].0 == matches_view(matches@)[j as int].0);
                        assert(matches_view(matches@)[j as int].0 == matches@[j as int].0);
                        assert(!self.hit_known(hits@[i as int], interner.terms()));
                    }
                    return false;
                }
                j = j + 1;
            }
            i = i + 1;
        }
        true
    }

    /// Writes the results as a JSON array of objects, in order.
    #[verifier::spinoff_prover]
    pub fn hits_to_json_string(&self, hits: &Vec<Hit>, interner: &Interner) -> (text: String)
        requires
            self.wf(),
            interner.wf(),
            forall|i: int| 0 <= i < hits@.len() ==> self.hit_known(#[trigger] hits@[i], interner.terms()),
        ensures
            text@ == json_array(hits@.map_values(|hit: Hit| self.hit_json(hit, interner.terms()))),
    {
        let ghost items = hits@.map_values(|hit: Hit| self.hit_json(hit, interner.terms()));
        let mut out = String::new();
        push_char(&mut out, '[');
        let mut i: usize = 0;
        proof {
            assert(items.take(0) =~= Seq::<Seq<char>>::empty());
        }
        while i < hits.len()
            invariant
                self.wf(),
                interner.wf(),
                forall|k: int| 0 <= k < hits@.len() ==> self.hit_known(#[trigger] hits@[k], interner.terms()),
                items == hits@.map_values(|hit: Hit| self.hit_json(hit, interner.terms())),
                i <= hits@.len(),
                out@ == seq!['['] + members(items.take(i as int)),
            decreases hits@.len() - i,
        {
            proof {
                lemma_members_step(items, i as int);
            }
            push_separator(&mut out, i);
            self.write_hit(&mut out, &hits[i], interner);
            proof {
                assert(out@ =~= seq!['['] + members(items.take(i + 1)));
            }
            i = i + 1;
        }
        push_char(&mut out, ']');
        proof {
            assert(items.take(hits@.len() as int) =~= items);
            assert(out@ =~= json_array(items));
        }
        out
    }

    #[verifier::spinoff_prover]
    fn write_hit(&self, out: &mut String, hit: &Hit, interner: &Interner)
        requires
            self.wf(),
            interner.wf(),
            self.hit_known(*hit, interner.terms()),
        ensures
            final(out)@ == old(out)@ + self.hit_json(*hit, interner.terms()),
    {
        let ghost start = out@;
        let ghost terms = interner.terms();
        let ghost fm = hit.matches.field_matches();
        out.append("{\"id\":");
        let json = self.document_ids.get(hit.doc_id).unwrap();
        out.append(json.as_str());
        out.append(",\"score\":");
        out.append(hit.score.as_str());
        out.append(",\"terms\":");
        let matches = hit.matches.matches();
        write_term_array_of_matches(out, matches, interner);
        out.append(",\"queryTerms\":");
        write_term_array(out, hit.matches.terms(), interner);
        out.append(",\"match\":");
        self.write_match_object(out, matches, interner);
        let ghost mid = out@;
        match self.stored_fields.get(hit.doc_id) {
            Some(values) => {
                proof {
                    let i = index_of(self.stored_fields@, hit.doc_id);
                    assert forall|j: int| 0 <= j < values@.len() implies (#[trigger] values@[j]).0
                        < self.stored_field_names@.len() by {
                        assert(stored_view(values@)[j] == self.stored_fields@[i].1[j]);
                    }
                }
                self.write_stored_suffix(out, values);
            },
            None => {
                proof {
                    assert(out@ =~= mid + stored_suffix(Seq::empty(), self.stored_names()));
                }
            },
        }
        push_char(out, '}');
        proof {
            assert(out@ =~= start + self.hit_json(*hit, terms));
        }
    }

    #[verifier::spinoff_prover]
    fn write_match_object(&self, out: &mut String, matches: &Vec<(u16, Vec<u32>)>, interner: &Interner)
        requires
            self.wf(),
            interner.wf(),
            forall|i: int| 0 <= i < matches@.len() ==> ((#[trigger] matches_view(matches@)[i]).0 as int)
                < interner.terms().len(),
        ensures
            final(out)@ == old(out)@ + json_object(
                match_members(matches_view(matches@), interner.terms(), self.field_ids@),
            ),
    {
        let ghost items = match_members(matches_view(matches@), interner.terms(), self.field_ids@);
        let ghost start = out@;
        push_char(out, '{');
        let mut i: usize = 0;
        proof {
            assert(items.take(0) =~= Seq::<Seq<char>>::empty());
        }
        while i < matches.len()
            invariant
                self.wf(),
                interner.wf(),
                forall|k: int| 0 <= k < matches@.len() ==> ((#[trigger] matches_view(matches@)[k]).0 as int)
                    < interner.terms().len(),
                items == match_members(matches_view(matches@), interner.terms(), self.field_ids@),
                i <= matches@.len(),
                out@ == start + seq!['{'] + members(items.take(i as int)),
            decreases matches@.len() - i,
        {
            proof {
                lemma_members_step(items, i as int);
                assert(matches_view(matches@)[i as int] == (matches@[i as int].0, matches@[i as int].1@));
            }
            push_separator(out, i);
            json_string_to(out, interner.resolve(matches[i].0));
            push_char(out, ':');
            let fields = &matches[i].1;
            let ghost inner = fields@.map_values(|id: u32| json_quoted(field_name_last(self.field_ids@, id)));
            let ghost mid = out@;
            push_char(out, '[');
            let mut j: usize = 0;
            proof {
                assert(inner.take(0) =~= Seq::<Seq<char>>::empty());
            }
            while j < fields.len()
                invariant
                    self.wf(),
                    inner == fields@.map_values(|id: u32| json_quoted(field_name_last(self.field_ids@, id))),
                    j <= fields@.len(),
                    out@ == mid + seq!['['] + members(inner.take(j as int)),
                decreases fields@.len() - j,
            {
                proof {
                    lemma_members_step(inner, j as int);
                }
                push_separator(out, j);
                let name = self.field_name(fields[j]);
                json_string_to(out, name.as_str());
                proof {
                    assert(out@ =~= mid + seq!['['] + members(inner.take(j + 1)));
                }
                j = j + 1;
            }
            push_char(out, ']');
            proof {
                assert(inner.take(fields@.len() as int) =~= inner);
                assert(out@ =~= start + seq!['{'] + members(items.take(i + 1)));
            }
            i = i + 1;
        }
        push_char(out, '}');
        proof {
            assert(items.take(matches@.len() as int) =~= items);
        }
    }

    /// The name of the last field with ID `id`, or the empty text.
    #[verifier::spinoff_prover]
    fn field_name(&self, id: u32) -> (name: String)
        requires
            self.wf(),
        ensures
            name@ == field_name_last(self.field_ids@, id),
    {
        let ghost table = self.field_ids@;
        let len = self.field_ids.len();
        let mut i: usize = len;
        while i > 0
            invariant
                len == table.len(),
                table == self.field_ids@,
                i <= len,
                forall|j: int| i <= j < len ==> (#[trigger] table[j]).1 != id,
            decreases i,
        {
            let (name, field_id) = self.field_ids.get_index(i - 1).unwrap();
            if *field_id == id {
                proof {
                    let k = choose|k: int|
                        0 <= k < table.len() && (#[trigger] table[k]).1 == id && forall|j: int|
                            k < j < table.len() ==> (#[trigger] table[j]).1 != id;
                    assert(table[i - 1].1 == id);
                    if k < i - 1 {
                        assert(table[i - 1].1 != id);
                    } else if k > i - 1 {
                    }
                }
                return name.clone();
            }
            i = i - 1;
        }
        String::new()
    }

    #[verifier::spinoff_prover]
    fn write_stored_suffix(&self, out: &mut String, values: &Vec<(u16, String)>)
        requires
            self.wf(),
            forall|j: int| 0 <= j < values@.len() ==> (#[trigger] values@[j]).0 < self.stored_field_names@.len(),
        ensures
            final(out)@ == old(out)@ + stored_suffix(stored_view(values@), self.stored_names()),
    {
        let ghost start = out@;
        let ghost sv = stored_view(values@);
        let mut i: usize = 0;
        proof {
            assert(sv.take(0) =~= Seq::<(u16, Seq<char>)>::empty());
        }
        while i < values.len()
            invariant
                self.wf(),
                forall|j: int| 0 <= j < values@.len() ==> (#[trigger] values@[j]).0 < self.stored_field_names@.len(),
                sv == stored_view(values@),
                i <= values@.len(),
                out@ == start + stored_suffix(sv.take(i as int), self.stored_names()),
            decreases values@.len() - i,
        {
            proof {
                assert(sv.take(i + 1).drop_last() =~= sv.take(i as int));
                assert(sv[i as int] == (values@[i as int].0, values@[i as int].1@));
            }
            push_char(out, ',');
            json_string_to(out, self.stored_field_names[values[i].0 as usize].as_str());
            push_char(out, ':');
            out.append(values[i].1.as_str());
            proof {
                assert(out@ =~= start + stored_suffix(sv.take(i + 1), self.stored_names()));
            }
            i = i + 1;
        }
        proof {
            assert(sv.take(values@.len() as int) =~= sv);
        }
    }


    /// After a document is added, its ID is indexed, every other ID keeps
    /// its status, and the document count grows by one.
    pub proof fn lemma_added_contains(
        &self,
        old: Engine,
        document: Document,
        id: DocumentId,
        changes: Seq<LengthChange>,
    )
        requires
            self.added(old, document, id, changes),
        ensures
            self.contains(id.key),
            forall|key: IdKey| key != id.key ==> (self.contains(key) <==> old.contains(key)),
            self.doc_count() == old.doc_count() + 1,
    {
        let before = old.id_to_short@;
        let now = self.id_to_short@;
        assert(now[before.len() as int].0 == id.key);
        assert forall|key: IdKey| key != id.key implies (self.contains(key) <==> old.contains(key)) by {
            if has_key(before, key) {
                let i = choose|i: int| 0 <= i < before.len() && (#[trigger] before[i]).0 == key;
                assert(now[i] == before[i]);
            }
            if has_key(now, key) {
                let i = choose|i: int| 0 <= i < now.len() && (#[trigger] now[i]).0 == key;
                assert(i < before.len());
                assert(now[i] == before[i]);
            }
        }
    }

    /// After a document is removed, its ID is no longer indexed, every other
    /// ID keeps its status, and the document count drops by one.
    pub proof fn lemma_removed_not_contained(
        &self,
        old: Engine,
        document: Document,
        id: DocumentId,
        changes: Seq<LengthChange>,
        warnings: Seq<Warning>,
    )
        requires
            old.wf(),
            self.removed(old, document, id, changes, warnings),
        ensures
            !self.contains(id.key),
            forall|key: IdKey| key != id.key ==> (self.contains(key) <==> old.contains(key)),
            self.doc_count() == old.doc_count() - 1,
    {
        lemma_assoc_remove_unique(old.id_to_short@, id.key);
        assert forall|key: IdKey| key != id.key implies (self.contains(key) <==> old.contains(key)) by {
            assert(assoc_get(self.id_to_short@, key) == assoc_get(old.id_to_short@, key));
        }
    }

    /// After a document is discarded, its ID is no longer indexed, every
    /// other ID keeps its status, the document count drops by one and the
    /// count of discards grows by one; the index is left as it was.
    pub proof fn lemma_discarded_not_contained(
        &self,
        old: Engine,
        key: IdKey,
        changes: Seq<LengthChange>,
    )
        requires
            old.wf(),
            self.discarded(old, key, changes),
        ensures
            !self.contains(key),
            forall|other: IdKey| other != key ==> (self.contains(other) <==> old.contains(other)),
            self.doc_count() == old.doc_count() - 1,
            self.dirt() == old.dirt() + 1,
            self.index_view() == old.index_view(),
    {
        lemma_assoc_remove_unique(old.id_to_short@, key);
        assert forall|other: IdKey| other != key implies (self.contains(other) <==> old.contains(
            other,
        )) by {
            assert(assoc_get(self.id_to_short@, other) == assoc_get(old.id_to_short@, other));
        }
    }


    /// What serialization writes of this engine, read back as the plain
    /// values that `load` takes: the counters, then each table member by
    /// member in the order it is written, in the version-2 format.
    pub open spec fn written_as(&self, parts: SerializedIndex) -> bool {
        &&& parts.version == Some(2u64)
        &&& parts.document_count == Some(self.doc_count() as u64)
        &&& parts.next_id == Some(self.next_short_id() as u64)
        &&& parts.dirt_count == Some(self.dirt() as u64)
        &&& parts.document_ids is Some
        &&& written_ids(parts.document_ids->Some_0@, self.documents(), self.short_ids())
        &&& parts.field_length is Some
        &&& written_lengths(parts.field_length->Some_0@, self.lengths())
        &&& parts.stored_fields is Some
        &&& written_stored(parts.stored_fields->Some_0@, self.stored(), self.stored_names())
        &&& parts.field_ids is Some
        &&& written_field_ids(parts.field_ids->Some_0@, self.field_id_table())
        &&& parts.index is Some
        &&& written_index(parts.index->Some_0@, self.index_entries())
    }

    /// Every ID key has its own short ID, and every short ID of a key
    /// belongs to an indexed document, as after any sequence of additions,
    /// removals and discards.
    pub open spec fn ids_consistent(&self) -> bool {
        &&& forall|a: int, b: int|
            0 <= a < self.short_ids().len() && 0 <= b < self.short_ids().len() && a != b
                ==> #[trigger] self.short_ids()[a].1 != #[trigger] self.short_ids()[b].1
        &&& forall|key: IdKey| #[trigger]
            self.contains(key) ==> has_key(
                self.documents(),
                assoc_get(self.short_ids(), key)->Some_0,
            )
    }

    /// Over the stored fields it was made with, with no name repeated, and
    /// no other names.
    pub open spec fn plain_stored_names(&self) -> bool {
        &&& self.stored_names() == self.store_field_names()
        &&& distinct_names(self.stored_names())
    }

    /// The index entries in traversal order make up the index.
    pub proof fn lemma_index_entries(&self)
        requires
            self.wf(),
        ensures
            unique_keys(self.index_entries()),
            entries_map(self.index_entries()) == self.index_view(),
            forall|i: int|
                0 <= i < self.index_entries().len() ==> {
                    &&& unique_keys(#[trigger] self.index_entries()[i].1)
                    &&& forall|j: int|
                        0 <= j < self.index_entries()[i].1.len() ==> unique_keys(
                            #[trigger] self.index_entries()[i].1[j].1,
                        )
                },
    {
        let entries = self.index.entries();
        let written = self.index_entries();
        self.index.lemma_entries_are_the_map();
        assert forall|i: int, j: int|
            0 <= i < written.len() && 0 <= j < written.len() && i != j implies (#[trigger] written[i]).0
            != (#[trigger] written[j]).0 by {
            assert(written[i].0 == entries[i].0 && written[j].0 == entries[j].0);
        }
        lemma_entries_map(written);
        assert forall|i: int| 0 <= i < written.len() implies {
            &&& unique_keys(#[trigger] written[i].1)
            &&& forall|j: int|
                0 <= j < written[i].1.len() ==> unique_keys(#[trigger] written[i].1[j].1)
        } by {
            let data = entries[i].1;
            assert(self.index@.contains_key(entries[i].0));
            assert(postings_wf(self.index@[entries[i].0]));
            assert(written[i].1 == postings_view(data));
            lemma_map_second(data@, |docs: DocFreqs| docs@);
            assert forall|j: int| 0 <= j < written[i].1.len() implies unique_keys(
                #[trigger] written[i].1[j].1,
            ) by {
                assert(data@[j].1.wf());
            }
        }
        assert forall|k: Seq<char>| #[trigger]
            entries_map(written).contains_key(k) == self.index_view().contains_key(k) by {
            if entries_map(written).contains_key(k) {
                let i = choose|i: int| 0 <= i < written.len() && (#[trigger] written[i]).0 == k;
                assert(entries[i].0 == k);
            }
            if self.index@.contains_key(k) {
                let i = choose|i: int| 0 <= i < entries.len() && (#[trigger] entries[i]).0 == k;
                assert(written[i].0 == k);
            }
        }
        assert forall|k: Seq<char>| #[trigger]
            entries_map(written).contains_key(k) implies entries_map(written)[k]
            == self.index_view()[k] by {
            let i = choose|i: int| 0 <= i < written.len() && (#[trigger] written[i]).0 == k;
            assert(entries[i].0 == k);
            assert(entries_map(written)[written[i].0] == written[i].1);
        }
        assert(entries_map(written) =~= self.index_view());
    }

    /// What serialization writes of an engine loads without error.
    pub proof fn lemma_written_loads(&self, parts: SerializedIndex)
        requires
            self.wf(),
            self.plain_stored_names(),
            self.written_as(parts),
        ensures
            load_error(parts, self.store_field_names()) is None,
    {
        self.lemma_reads_back(parts);
    }

    /// The values that each member of a written index loads as.
    proof fn lemma_reads_back(&self, parts: SerializedIndex)
        requires
            self.wf(),
            self.plain_stored_names(),
            self.written_as(parts),
        ensures
            load_error(parts, self.store_field_names()) is None,
            parts_ids(parts) == Ok::<(Seq<(u32, Seq<char>)>, Seq<(IdKey, u32)>), EngineError>(
                (self.documents(), written_keys(parts.document_ids->Some_0@, self.documents())),
            ),
            unique_keys(written_keys(parts.document_ids->Some_0@, self.documents())),
            parts_lengths(parts) == Ok::<Seq<(u32, Seq<Option<u32>>)>, EngineError>(self.lengths()),
            parts_stored(parts, self.store_field_names()) == Ok::<
                (Seq<(u32, Seq<(u16, Seq<char>)>)>, Seq<Seq<char>>),
                EngineError,
            >((self.stored(), self.stored_names())),
            load_field_ids(parts.field_ids->Some_0@) == Ok::<Seq<(Seq<char>, u32)>, EngineError>(
                self.field_id_table(),
            ),
            parts_index(parts) == Ok::<Map<Seq<char>, Postings>, EngineError>(self.index_view()),
    {
        lemma_load_ids_written(parts.document_ids->Some_0@, self.documents(), self.short_ids());
        lemma_load_lengths_written(parts.field_length->Some_0@, self.lengths());
        assert forall|i: int, j: int|
            0 <= i < self.stored().len() && 0 <= j < self.stored()[i].1.len() implies ((
            #[trigger] self.stored()[i].1[j]).0 as int) < self.stored_names().len() by {
            assert((self.stored_fields@[i].1[j]).0 < self.stored_field_names@.len());
        }
        assert forall|i: int| 0 <= i < self.stored().len() implies unique_keys(
            #[trigger] self.stored()[i].1,
        ) by {
            assert(unique_keys(self.stored_fields@[i].1));
        }
        lemma_load_stored_written(parts.stored_fields->Some_0@, self.stored(), self.stored_names());
        lemma_load_field_ids_written(parts.field_ids->Some_0@, self.field_id_table());
        self.lemma_index_entries();
        lemma_load_index_written(parts.index->Some_0@, self.index_entries());
    }

    /// Loading what serialization writes of an engine reads it back: the
    /// loaded engine has the same documents under the same ID keys and
    /// short IDs, the same field lengths, stored values, field IDs and
    /// counters, and the same inverted index.
    pub proof fn lemma_load_reads_back(&self, parts: SerializedIndex, loaded: Engine)
        requires
            self.wf(),
            self.consistent(),
            distinct_names(self.store_field_names()),
            self.written_as(parts),
            loaded.loaded(parts, self.field_names(), self.store_field_names()),
        ensures
            loaded.documents() == self.documents(),
            forall|key: IdKey| #[trigger] loaded.contains(key) <==> self.contains(key),
            forall|key: IdKey|
                #[trigger] loaded.contains(key) ==> assoc_get(loaded.short_ids(), key) == assoc_get(
                    self.short_ids(),
                    key,
                ),
            loaded.lengths() == self.lengths(),
            loaded.stored() == self.stored(),
            loaded.stored_names() == self.stored_names(),
            loaded.field_names() == self.field_names(),
            loaded.store_field_names() == self.store_field_names(),
            loaded.field_id_table() == self.field_id_table(),
            loaded.index_view() == self.index_view(),
            loaded.doc_count() == self.doc_count(),
            loaded.next_short_id() == self.next_short_id(),
            loaded.dirt() == self.dirt(),
    {
        self.lemma_reads_back(parts);
        let list = parts.document_ids->Some_0@;
        let keys = written_keys(list, self.documents());
        assert(loaded.id_to_short@ == keys);
        assert forall|key: IdKey| #[trigger] loaded.contains(key) implies self.contains(key)
            && assoc_get(loaded.short_ids(), key) == assoc_get(self.short_ids(), key) by {
            let i = choose|i: int| 0 <= i < keys.len() && (#[trigger] keys[i]).0 == key;
            assert(written_id(list[i], self.documents()[i], self.short_ids()));
            assert(index_of(keys, key) == i);
        }
        assert forall|key: IdKey| #[trigger] self.contains(key) implies loaded.contains(key) by {
            let short_id = assoc_get(self.short_ids(), key)->Some_0;
            let docs = self.documents();
            let i = choose|i: int| 0 <= i < docs.len() && (#[trigger] docs[i]).0 == short_id;
            assert(written_id(list[i], docs[i], self.short_ids()));
            let other = list[i].1.key;
            let ids = self.short_ids();
            if other != key {
                let a = index_of(ids, key);
                let b = index_of(ids, other);
                assert(ids[a].1 == ids[b].1);
            }
            assert(keys[i].0 == key);
        }
    }


    /// The postings of every term have unique keys at both levels.
    proof fn lemma_index_unique(&self)
        requires
            self.wf(),
        ensures
            index_unique(self.index_view()),
    {
        assert forall|t: Seq<char>| #[trigger] self.index_view().contains_key(t) implies postings_unique(
            self.index_view()[t],
        ) by {
            let data = self.index@[t];
            assert(postings_wf(data));
            lemma_map_second(data@, |docs: DocFreqs| docs@);
            assert forall|j: int| 0 <= j < postings_view(data).len() implies unique_keys(
                #[trigger] postings_view(data)[j].1,
            ) by {
                assert(data@[j].1.wf());
            }
        }
    }

    /// The tables other than the index are back after an addition and the
    /// removal of the same document.
    #[verifier::spinoff_prover]
    proof fn lemma_undo_tables(
        &self,
        old: Engine,
        added: Engine,
        document: Document,
        id: DocumentId,
        add_changes: Seq<LengthChange>,
        remove_changes: Seq<LengthChange>,
        warnings: Seq<Warning>,
    )
        requires
            old.wf(),
            !old.contains(id.key),
            added.added(old, document, id, add_changes),
            self.removed(added, document, id, remove_changes, warnings),
            !has_key(old.documents(), old.next_short_id()),
            !has_key(old.lengths(), old.next_short_id()),
            !has_key(old.stored(), old.next_short_id()),
        ensures
            assoc_get(added.id_to_short@, id.key) == Some(old.next_id),
            self.documents() == old.documents(),
            self.short_ids() == old.short_ids(),
            self.lengths() == old.lengths(),
            self.stored() == old.stored(),
            added.texts_of(document) == old.texts_of(document),
    {
        let short_id = old.next_id;
        let key = id.key;
        lemma_assoc_set_unique(old.id_to_short@, key, short_id);
        assert(assoc_set(old.id_to_short@, key, short_id) == old.id_to_short@.push((key, short_id)));
        let n = old.id_to_short@.len() as int;
        assert(added.id_to_short@[n].0 == key);
        assert(index_of(added.id_to_short@, key) == n) by {
            let i = index_of(added.id_to_short@, key);
            if i != n {
                assert(added.id_to_short@[i] == old.id_to_short@[i]);
            }
        }
        assert(self.id_to_short@ =~= old.id_to_short@);
        let m = old.document_ids@.len() as int;
        assert(added.document_ids@ == old.document_ids@.push((short_id, id.json@)));
        assert(added.document_ids@[m].0 == short_id);
        assert(index_of(added.document_ids@, short_id) == m) by {
            let i = index_of(added.document_ids@, short_id);
            if i != m {
                assert(added.document_ids@[i] == old.document_ids@[i]);
            }
        }
        assert(self.document_ids@ =~= old.document_ids@);
        let texts = old.texts_of(document);
        lemma_lengths_add_fresh(old.field_length@, texts, short_id);
        if old.store_fields@.len() > 0 {
            let values = stored_add(
                match assoc_get(old.stored_fields@, short_id) {
                    Some(values) => values,
                    None => Seq::empty(),
                },
                document.stored@,
                document.stored@.len() as int,
            );
            let s = old.stored_fields@.len() as int;
            assert(added.stored_fields@ == old.stored_fields@.push((short_id, values)));
            assert(added.stored_fields@[s].0 == short_id);
            assert(index_of(added.stored_fields@, short_id) == s) by {
                let i = index_of(added.stored_fields@, short_id);
                if i != s {
                    assert(added.stored_fields@[i] == old.stored_fields@[i]);
                }
            }
            assert(self.stored_fields@ =~= old.stored_fields@);
        }
    }

    /// The field texts of a document have distinct field IDs and bounded
    /// numbers of terms.
    #[verifier::spinoff_prover]
    proof fn lemma_texts_of_fit(&self, document: Document)
        requires
            self.ready_for(document),
            self.wf(),
            document.texts@.len() == self.field_names().len(),
            distinct_names(self.field_names()),
            forall|a: int, b: int|
                0 <= a < self.field_id_table().len() && 0 <= b < self.field_id_table().len() && a
                    != b ==> #[trigger] self.field_id_table()[a].1
                    != #[trigger] self.field_id_table()[b].1,
            forall|i: int|
                0 <= i < document.texts@.len() && (#[trigger] document.texts@[i]) is Some
                    ==> text_terms(document.texts@[i]->Some_0@).len() + 1 < u32::MAX,
        ensures
            forall|i: int, j: int|
                0 <= i < self.texts_of(document).len() && 0 <= j < self.texts_of(document).len()
                    && i != j ==> (#[trigger] self.texts_of(document)[i]).0 != (
                    #[trigger] self.texts_of(document)[j]).0,
            forall|i: int|
                0 <= i < self.texts_of(document).len() ==> text_terms(
                    (#[trigger] self.texts_of(document)[i]).1,
                ).len() + 1 < u32::MAX,
    {
        let fields = views(self.fields@);
        let texts = document.texts@;
        assert forall|i: int| 0 <= i < self.fields@.len() && (#[trigger] texts[i]) is Some implies has_key(
            self.field_ids@,
            fields[i],
        ) by {
            assert(has_key(self.field_ids@, self.fields@[i]@));
        }
        let ids = self.field_ids@;
        assert forall|a: int, b: int|
            0 <= a < ids.len() && 0 <= b < ids.len() && a != b implies #[trigger] ids[a].1
            != #[trigger] ids[b].1 by {
            assert(self.field_id_table()[a].1 != self.field_id_table()[b].1);
        }
        lemma_field_texts_distinct(
            self.field_ids@,
            fields,
            document.texts@,
            self.fields@.len() as int,
        );
        lemma_field_texts_terms(self.field_ids@, fields, document.texts@, self.fields@.len() as int);
    }

    /// After a document is added, the stored values of its short ID hold,
    /// for each store field that the document has a value for, that value
    /// under the field's own name ID (its position among the store fields),
    /// and nothing else. Where the stored names begin with the store fields,
    /// as `new` makes them, each value is read back under its own store
    /// field's name.
    pub proof fn lemma_add_stores_own_values(
        &self,
        old: Engine,
        document: Document,
        id: DocumentId,
        changes: Seq<LengthChange>,
    )
        requires
            old.wf(),
            self.added(old, document, id, changes),
            old.store_field_names().len() > 0,
            document.stored@.len() == old.store_field_names().len(),
            old.store_field_names().len() <= u16::MAX + 1,
            !has_key(old.stored(), old.next_short_id()),
        ensures
            self.stored_names() == old.stored_names(),
            self.store_field_names() == old.store_field_names(),
            assoc_get(self.stored(), old.next_short_id()) matches Some(values) && {
                &&& forall|i: int|
                    0 <= i < document.stored@.len() && (#[trigger] document.stored@[i]) is Some
                        ==> assoc_get(values, i as u16) == Some(document.stored@[i]->Some_0@)
                &&& forall|j: int|
                    0 <= j < values.len() ==> {
                        let k = (#[trigger] values[j]).0 as int;
                        &&& k < document.stored@.len()
                        &&& document.stored@[k] matches Some(json) && json@ == values[j].1
                        &&& old.stored_names().take(document.stored@.len() as int)
                            == old.store_field_names() ==> self.named_values(values)[j] == (
                            self.store_field_names()[k],
                            values[j].1,
                        )
                    }
            },
    {
        let stored = document.stored@;
        let n = stored.len() as int;
        let empty = Seq::<(u16, Seq<char>)>::empty();
        assert(match assoc_get(old.stored_fields@, old.next_id) {
            Some(values) => values,
            None => Seq::empty(),
        } == empty);
        lemma_stored_add_keeps_positions(empty, stored, n);
        let values = stored_add(empty, stored, n);
        lemma_assoc_set_unique(old.stored_fields@, old.next_id, values);
        assert forall|j: int| 0 <= j < values.len() implies {
            let k = (#[trigger] values[j]).0 as int;
            &&& k < stored.len()
            &&& stored[k] matches Some(json) && json@ == values[j].1
            &&& old.stored_names().take(n) == old.store_field_names() ==> self.named_values(values)[j]
                == (self.store_field_names()[k], values[j].1)
        } by {
            let key = values[j].0;
            let k = key as int;
            assert(values[index_of(values, key)].0 == key);
            assert(index_of(values, key) == j);
            assert(assoc_get(values, key) == Some(values[j].1));
            if k >= n || stored[k] is None {
                assert(assoc_get(values, key) == assoc_get(empty, key));
            }
            assert(stored[k] is Some);
            assert(k as u16 == key);
            if old.stored_names().take(n) == old.store_field_names() {
                assert(old.stored_names().take(n)[k] == old.stored_names()[k]);
            }
        }
    }

    /// Removing a document just after adding it takes back all that the
    /// addition did but the use of a short ID: the documents, ID keys, field
    /// lengths, stored values, counts and inverted index are as before, no
    /// warning is given, and each length change is that of the addition,
    /// taken back from an average over one document more.
    #[verifier::spinoff_prover]
    pub proof fn lemma_remove_undoes_add(
        &self,
        old: Engine,
        added: Engine,
        document: Document,
        id: DocumentId,
        add_changes: Seq<LengthChange>,
        remove_changes: Seq<LengthChange>,
        warnings: Seq<Warning>,
    )
        requires
            old.wf(),
            old.ready_for(document),
            !old.contains(id.key),
            added.added(old, document, id, add_changes),
            self.removed(added, document, id, remove_changes, warnings),
            old.consistent(),
            document.texts@.len() == old.field_names().len(),
            distinct_names(old.field_names()),
            forall|a: int, b: int|
                0 <= a < old.field_id_table().len() && 0 <= b < old.field_id_table().len() && a
                    != b ==> #[trigger] old.field_id_table()[a].1
                    != #[trigger] old.field_id_table()[b].1,
            forall|i: int|
                0 <= i < document.texts@.len() && (#[trigger] document.texts@[i]) is Some
                    ==> text_terms(document.texts@[i]->Some_0@).len() + 1 < u32::MAX,
        ensures
            warnings.len() == 0,
            self.index_view() == old.index_view(),
            self.documents() == old.documents(),
            self.short_ids() == old.short_ids(),
            self.lengths() == old.lengths(),
            self.stored() == old.stored(),
            self.doc_count() == old.doc_count(),
            self.dirt() == old.dirt(),
            self.next_short_id() == old.next_short_id() + 1,
            remove_changes.len() == add_changes.len(),
            forall|i: int|
                0 <= i < remove_changes.len() ==> (#[trigger] remove_changes[i]).field_id
                    == add_changes[i].field_id && remove_changes[i].length == add_changes[i].length
                    && remove_changes[i].count == add_changes[i].count + 1 && add_changes[i].added
                    && !remove_changes[i].added,
    {
        old.lemma_next_short_id_is_fresh();
        self.lemma_undo_tables(old, added, document, id, add_changes, remove_changes, warnings);
        old.lemma_texts_of_fit(document);
        old.lemma_index_unique();
        let texts = old.texts_of(document);
        crate::removal::lemma_remove_undoes_add(
            old.index_view(),
            texts,
            old.next_id,
            added.field_ids@,
            added.document_ids@,
        );
        assert(warnings.map_values(|w: Warning| warning_view(w)).len() == 0);
    }


    /// When no term's postings refer to a document that is not indexed, as
    /// after a vacuum, the postings of any term refer only to indexed
    /// documents, so that searching leaves the index as it is.
    pub proof fn lemma_no_stale_term(&self, term: Seq<char>)
        requires
            forall|t: Seq<char>| #[trigger]
                self.index_view().contains_key(t) ==> !has_stale(self.index_view()[t], self.documents()),
        ensures
            !has_stale(self.postings_of(term), self.documents()),
    {
        if !self.index_view().contains_key(term) {
            assert(self.postings_of(term) =~= Seq::<(u32, Seq<(u32, u32)>)>::empty());
        }
    }


    /// What every engine built by `new` and the lifecycle operations keeps,
    /// though one loaded from a serialized index need not: each ID key has
    /// a short ID of its own, which belongs to an indexed document, and
    /// there are as many keys as documents, as many as the document count;
    /// every short ID in the tables and the postings is below the next one;
    /// every term has a field and every field a document; and stored values
    /// name the stored fields only.
    pub open spec fn consistent(&self) -> bool {
        &&& self.ids_consistent()
        &&& self.short_ids().len() == self.documents().len()
        &&& self.doc_count() == self.documents().len()
        &&& forall|i: int|
            0 <= i < self.short_ids().len() ==> (#[trigger] self.short_ids()[i]).1
                < self.next_short_id()
        &&& forall|i: int|
            0 <= i < self.documents().len() ==> (#[trigger] self.documents()[i]).0
                < self.next_short_id()
        &&& forall|i: int|
            0 <= i < self.lengths().len() ==> (#[trigger] self.lengths()[i]).0 < self.next_short_id()
        &&& forall|i: int|
            0 <= i < self.stored().len() ==> (#[trigger] self.stored()[i]).0 < self.next_short_id()
        &&& index_below(self.index_view(), self.next_short_id() as int)
        &&& index_compact(self.index_view())
        &&& self.stored_names() == self.store_field_names()
    }

    /// In a consistent engine the next short ID is in no table and no
    /// posting.
    pub proof fn lemma_next_short_id_is_fresh(&self)
        requires
            self.consistent(),
        ensures
            !has_key(self.documents(), self.next_short_id()),
            !has_key(self.lengths(), self.next_short_id()),
            !has_key(self.stored(), self.next_short_id()),
            forall|t: Seq<char>, f: u32|
                self.index_view().contains_key(t) ==> !#[trigger] posting_has(
                    self.index_view()[t],
                    f,
                    self.next_short_id(),
                ),
    {
        let n = self.next_short_id();
        assert forall|t: Seq<char>, f: u32|
            self.index_view().contains_key(t) implies !#[trigger] posting_has(
            self.index_view()[t],
            f,
            n,
        ) by {
            let data = self.index_view()[t];
            if posting_has(data, f, n) {
                let i = index_of(data, f);
                let docs = data[i].1;
                let j = index_of(docs, n);
                assert(data[i].1[j].0 == n);
            }
        }
    }

    /// Adding a document keeps an engine consistent.
    #[verifier::spinoff_prover]
    pub proof fn lemma_add_keeps_consistent(
        &self,
        old: Engine,
        document: Document,
        id: DocumentId,
        changes: Seq<LengthChange>,
    )
        requires
            old.wf(),
            old.consistent(),
            !old.contains(id.key),
            old.next_short_id() < u32::MAX,
            self.added(old, document, id, changes),
        ensures
            self.consistent(),
    {
        let short_id = old.next_id;
        let bound = short_id + 1;
        old.lemma_next_short_id_is_fresh();
        let ids = self.id_to_short@;
        let n = old.id_to_short@.len() as int;
        assert(ids[n] == (id.key, short_id));
        lemma_assoc_set_unique(old.document_ids@, short_id, id.json@);
        assert(self.document_ids@ == old.document_ids@.push((short_id, id.json@)));
        assert forall|key: IdKey| #[trigger] self.contains(key) implies has_key(
            self.documents(),
            assoc_get(self.short_ids(), key)->Some_0,
        ) by {
            lemma_assoc_set_unique(old.id_to_short@, id.key, short_id);
            assert(assoc_set(old.id_to_short@, id.key, short_id) == ids);
            if key == id.key {
                assert(self.document_ids@[old.document_ids@.len() as int].0 == short_id);
            } else {
                assert(old.contains(key));
                let s = assoc_get(old.short_ids(), key)->Some_0;
                let j = choose|j: int| 0 <= j < old.document_ids@.len() && (#[trigger] old.document_ids@[j]).0 == s;
                assert(self.document_ids@[j] == old.document_ids@[j]);
            }
        }
        assert forall|a: int, b: int|
            0 <= a < ids.len() && 0 <= b < ids.len() && a != b implies #[trigger] ids[a].1
            != #[trigger] ids[b].1 by {
            if a < n && b < n {
                assert(ids[a] == old.id_to_short@[a] && ids[b] == old.id_to_short@[b]);
                assert(old.short_ids()[a].1 != old.short_ids()[b].1);
            } else if a < n {
                assert(ids[a] == old.id_to_short@[a]);
                assert(old.short_ids()[a].1 < short_id);
            } else {
                assert(ids[b] == old.id_to_short@[b]);
                assert(old.short_ids()[b].1 < short_id);
            }
        }
        assert forall|i: int| 0 <= i < ids.len() implies (#[trigger] ids[i]).1 < bound by {
            if i < n {
                assert(ids[i] == old.id_to_short@[i]);
                assert(old.short_ids()[i].1 < short_id);
            }
        }
        assert forall|i: int| 0 <= i < self.documents().len() implies (#[trigger] self.documents()[i]).0
            < bound by {
            if i < old.document_ids@.len() {
                assert(self.document_ids@[i] == old.document_ids@[i]);
                assert(old.documents()[i].0 < short_id);
            }
        }
        let texts = old.texts_of(document);
        lemma_lengths_add_fresh(old.field_length@, texts, short_id);
        assert forall|i: int| 0 <= i < self.lengths().len() implies (#[trigger] self.lengths()[i]).0
            < bound by {
            if i < old.field_length@.len() {
                assert(self.field_length@[i] == old.field_length@[i]);
                assert(old.lengths()[i].0 < short_id);
            }
        }
        if old.store_fields@.len() > 0 {
            let values = stored_add(
                match assoc_get(old.stored_fields@, short_id) {
                    Some(values) => values,
                    None => Seq::empty(),
                },
                document.stored@,
                document.stored@.len() as int,
            );
            assert(self.stored_fields@ == old.stored_fields@.push((short_id, values)));
        }
        assert forall|i: int| 0 <= i < self.stored().len() implies (#[trigger] self.stored()[i]).0
            < bound by {
            if i < old.stored_fields@.len() {
                assert(self.stored_fields@[i] == old.stored_fields@[i]);
                assert(old.stored()[i].0 < short_id);
            }
        }
        old.lemma_index_unique();
        let index = old.index_view();
        assert(index_below(index, bound as int)) by {
            assert forall|t: Seq<char>| #[trigger] index.contains_key(t) implies crate::removal::postings_below(
                index[t],
                bound as int,
            ) by {
                assert(crate::removal::postings_below(index[t], short_id as int));
            }
        }
        lemma_add_document_below(index, texts, short_id, bound as int);
        lemma_add_document_keeps(index, texts, short_id);
    }

    /// Removing a document keeps an engine consistent.
    #[verifier::spinoff_prover]
    pub proof fn lemma_remove_keeps_consistent(
        &self,
        old: Engine,
        document: Document,
        id: DocumentId,
        changes: Seq<LengthChange>,
        warnings: Seq<Warning>,
    )
        requires
            old.wf(),
            old.consistent(),
            old.contains(id.key),
            self.removed(old, document, id, changes, warnings),
        ensures
            self.consistent(),
    {
        self.lemma_tables_shrink_consistent(old, id.key);
        old.lemma_index_unique();
        let short_id = assoc_get(old.id_to_short@, id.key)->Some_0;
        lemma_remove_document_keeps(
            old.index_view(),
            old.texts_of(document),
            short_id,
            old.field_ids@,
            old.document_ids@,
            old.next_id as int,
        );
    }

    /// Discarding a document keeps an engine consistent.
    #[verifier::spinoff_prover]
    pub proof fn lemma_discard_keeps_consistent(
        &self,
        old: Engine,
        key: IdKey,
        changes: Seq<LengthChange>,
    )
        requires
            old.wf(),
            old.consistent(),
            old.contains(key),
            self.discarded(old, key, changes),
        ensures
            self.consistent(),
    {
        self.lemma_tables_shrink_consistent(old, key);
    }

    /// The tables without a document and its ID key are consistent.
    #[verifier::spinoff_prover]
    proof fn lemma_tables_shrink_consistent(&self, old: Engine, key: IdKey)
        requires
            old.wf(),
            old.consistent(),
            old.contains(key),
            ({
                let short_id = assoc_get(old.id_to_short@, key)->Some_0;
                &&& self.id_to_short@ == assoc_remove(old.id_to_short@, key)
                &&& self.document_ids@ == assoc_remove(old.document_ids@, short_id)
                &&& self.stored_fields@ == assoc_remove(old.stored_fields@, short_id)
                &&& self.field_length@ == assoc_remove(old.field_length@, short_id)
                &&& self.next_id == old.next_id
                &&& self.store_fields == old.store_fields
                &&& self.stored_field_names == old.stored_field_names
            }),
        ensures
            self.ids_consistent(),
            forall|i: int|
                0 <= i < self.short_ids().len() ==> (#[trigger] self.short_ids()[i]).1
                    < self.next_short_id(),
            forall|i: int|
                0 <= i < self.documents().len() ==> (#[trigger] self.documents()[i]).0
                    < self.next_short_id(),
            forall|i: int|
                0 <= i < self.lengths().len() ==> (#[trigger] self.lengths()[i]).0
                    < self.next_short_id(),
            forall|i: int|
                0 <= i < self.stored().len() ==> (#[trigger] self.stored()[i]).0
                    < self.next_short_id(),
            self.stored_names() == self.store_field_names(),
            self.short_ids().len() == old.short_ids().len() - 1,
            self.documents().len() == old.documents().len() - 1,
    {
        let short_id = assoc_get(old.id_to_short@, key)->Some_0;
        lemma_ids_shrink(old.id_to_short@, key, old.next_id);
        assert(has_key(old.documents(), short_id));
        assert forall|i: int| 0 <= i < old.document_ids@.len() implies (
        #[trigger] old.document_ids@[i]).0 < old.next_id by {
            assert(old.documents()[i].0 < old.next_id);
        }
        assert forall|i: int| 0 <= i < old.field_length@.len() implies (
        #[trigger] old.field_length@[i]).0 < old.next_id by {
            assert(old.lengths()[i].0 < old.next_id);
        }
        assert forall|i: int| 0 <= i < old.stored_fields@.len() implies (
        #[trigger] old.stored_fields@[i]).0 < old.next_id by {
            assert(old.stored()[i].0 < old.next_id);
        }
        lemma_removed_below(old.document_ids@, short_id, old.next_id);
        lemma_removed_below(old.field_length@, short_id, old.next_id);
        lemma_removed_below(old.stored_fields@, short_id, old.next_id);
        lemma_assoc_remove_unique(old.id_to_short@, key);
        lemma_assoc_remove_unique(old.document_ids@, short_id);
        assert forall|other: IdKey| #[trigger] self.contains(other) implies has_key(
            self.documents(),
            assoc_get(self.short_ids(), other)->Some_0,
        ) by {
            assert(other != key);
            assert(assoc_get(self.id_to_short@, other) == assoc_get(old.id_to_short@, other));
            assert(has_key(old.id_to_short@, other));
            assert(old.contains(other));
            let s = assoc_get(old.short_ids(), other)->Some_0;
            assert(has_key(old.documents(), s));
            assert(s != short_id);
            assert(assoc_get(self.document_ids@, s) == assoc_get(old.document_ids@, s));
        }
    }


    /// The same ID keys and documents are as consistent.
    proof fn lemma_ids_consistent_same(&self, other: Engine)
        requires
            other.ids_consistent(),
            self.short_ids() == other.short_ids(),
            self.documents() == other.documents(),
        ensures
            self.ids_consistent(),
    {
        assert forall|key: IdKey| #[trigger] self.contains(key) implies has_key(
            self.documents(),
            assoc_get(self.short_ids(), key)->Some_0,
        ) by {
            assert(other.contains(key));
        }
    }


    /// The prefix terms of a query term are exactly the indexed terms that
    /// start with it, and its fuzzy terms exactly the indexed terms within
    /// `max` edits of it, each with its edit distance.
    pub proof fn lemma_expansion_terms(&self, term: Seq<char>, max: int)
        requires
            self.wf(),
        ensures
            forall|t: Seq<char>|
                #[trigger] self.prefix_terms(term).contains(t) == (self.index_view().contains_key(t)
                    && is_prefix(term, t)),
            forall|t: Seq<char>, d: int|
                #[trigger] self.fuzzy_terms(term, max).contains((t, d)) == (
                self.index_view().contains_key(t) && d == levenshtein(t, term) && d <= max),
    {
        self.index.lemma_prefix_entries_are_the_prefixed_map(term);
        self.index.lemma_fuzzy_entries_are_the_close_keys(term, max);
        let p = self.index.prefix_entries(term);
        let f = self.index.fuzzy_entries(term, max);
        assert forall|t: Seq<char>| #[trigger] self.prefix_terms(term).contains(t) == (
        self.index_view().contains_key(t) && is_prefix(term, t)) by {
            if self.prefix_terms(term).contains(t) {
                let i = choose|i: int| 0 <= i < p.len() && self.prefix_terms(term)[i] == t;
                assert(p[i].0 == t);
            }
            if self.index@.contains_key(t) && is_prefix(term, t) {
                let i = choose|i: int| 0 <= i < p.len() && (#[trigger] p[i]).0 == t;
                assert(self.prefix_terms(term)[i] == t);
            }
        }
        assert forall|t: Seq<char>, d: int| #[trigger] self.fuzzy_terms(term, max).contains((t, d)) == (
        self.index_view().contains_key(t) && d == levenshtein(t, term) && d <= max) by {
            if f.contains((t, d)) {
                let i = choose|i: int| 0 <= i < f.len() && f[i] == (t, d);
                assert(f[i].0 == t);
            }
            if self.index@.contains_key(t) && d == levenshtein(t, term) && d <= max {
                let i = choose|i: int| 0 <= i < f.len() && (#[trigger] f[i]).0 == t;
                assert(f[i] == (t, d));
            }
        }
    }

    /// Everything but the index is unchanged.
    pub closed spec fn unchanged_but_index(&self, other: Engine) -> bool {
        &&& self.fields == other.fields
        &&& self.field_ids == other.field_ids
        &&& self.store_fields == other.store_fields
        &&& self.document_count == other.document_count
        &&& self.document_ids == other.document_ids
        &&& self.id_to_short == other.id_to_short
        &&& self.field_length == other.field_length
        &&& self.next_id == other.next_id
        &&& self.stored_fields == other.stored_fields
        &&& self.stored_field_names == other.stored_field_names
        &&& self.dirt_count == other.dirt_count
        &&& self.tokenizer == other.tokenizer
    }

    /// Records one more occurrence of `term` in field `field_id` of document
    /// `document_id`.
    #[verifier::spinoff_prover]
    fn add_term(&mut self, field_id: u32, document_id: u32, term: &str)
        requires
            old(self).wf(),
            old(self).index@.len() < usize::MAX,
        ensures
            final(self).wf(),
            final(self).index_view() == index_add(old(self).index_view(), term@, field_id, document_id),
            final(self).index@.len() <= old(self).index@.len() + 1,
            final(self).unchanged_but_index(*old(self)),
            final(self).index_terms() == keys_with(old(self).index_terms(), term@),
    {
        proof {
            reveal(Engine::index_terms);
        }
        let ghost before = self.index@;
        let ghost old_self = *self;
        proof {
            old_self.lemma_terms_are_the_index(term@);
        }
        let data = self.index.fetch_with(term, new_term_data);
        let ghost data0 = *data;
        let ghost data_final = *final(data);
        proof {
            if !before.contains_key(term@) {
                assert(data0@ =~= Seq::<(u32, DocFreqs)>::empty());
            }
            assert(postings_wf(data0));
        }
        let docs = data.get_or_insert_with(field_id, new_doc_freqs);
        let ghost docs0 = *docs;
        let ghost docs_final = *final(docs);
        proof {
            if data0.as_map().contains_key(field_id) {
                let i = index_of(data0@, field_id);
                assert(data0@[i].1.wf());
            }
            assert(docs0.wf());
        }
        let freq = docs.get_or_insert_with(document_id, zero_frequency);
        let ghost freq0 = *freq;
        *freq = freq.wrapping_add(1);
        proof {
            let f = |d: DocFreqs| d@;
            let pv = postings_view(data0);
            lemma_map_second(data0@, f);
            assert(data0.as_map().contains_key(field_id) == has_key(data0@, field_id));
            assert(docs0.as_map().contains_key(document_id) == has_key(docs0@, document_id));
            // The document's frequency.
            let docs_seq = match assoc_get(pv, field_id) {
                Some(d) => d,
                None => Seq::empty(),
            };
            assert(docs_seq == docs0@);
            let fr: u32 = match assoc_get(docs_seq, document_id) {
                Some(x) => x,
                None => 0,
            };
            assert(fr == freq0);
            assert(docs_final@ == assoc_set(docs0@, document_id, (if fr == u32::MAX { 0 } else { fr + 1 }) as u32));
            assert(data_final@ == assoc_set(data0@, field_id, docs_final));
            lemma_map_second_set(data0@, f, field_id, docs_final);
            assert(postings_view(data_final) == posting_add(pv, field_id, document_id));
            // Well-formedness of the new postings.
            lemma_assoc_set_unique(docs0@, document_id, freq0);
            lemma_assoc_set_unique(data0@, field_id, docs_final);
            assert forall|i: int| 0 <= i < data_final@.len() implies (#[trigger] data_final@[i]).1.wf() by {
                if data_final@[i].0 != field_id {
                    assert(data0@[i] == data_final@[i]) by {
                        if has_key(data0@, field_id) {
                        } else {
                        }
                    }
                }
            }
            assert(postings_wf(data_final));
            assert(self.index@ == before.insert(term@, data_final));
            let iv = old_self.index_view();
            if before.contains_key(term@) {
                assert(iv[term@] == pv);
            } else {
                assert(pv =~= Seq::<(u32, Seq<(u32, u32)>)>::empty());
            }
            assert(self.index_view() =~= index_add(iv, term@, field_id, document_id));
            assert forall|t: Seq<char>| #[trigger] self.index@.contains_key(t) implies postings_wf(self.index@[t]) by {
                if t != term@ {
                    assert(before.contains_key(t));
                }
            }
            old_self.index.lemma_finite();
            if !before.contains_key(term@) {
                assert(self.index@.dom() =~= before.dom().insert(term@));
                assert(self.index@.dom().len() == before.dom().len() + 1);
            } else {
                assert(self.index@.dom() =~= before.dom());
            }
        }
    }
}

} // verus!
