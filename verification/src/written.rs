//! A serialized index as a reader hands it back: the members that
//! serialization writes for an engine's tables, taken as plain values, and
//! the proof that loading reads each table back as it was.
use vstd::prelude::*;

use crate::engine::{
    DocumentId,
    EngineError,
    FieldEntry,
    IndexEntry,
    Postings,
    digits_value,
    is_digit,
    load_fields,
    load_freqs,
    load_field_ids,
    load_ids,
    load_index,
    load_lengths,
    load_stored,
    load_values,
    loaded_lengths,
    name_id,
    parsed_u32,
    unsigned_digits,
};
use crate::js::{IdKey, decimal};
use crate::vecmap::{assoc_get, assoc_set, has_key, unique_keys};

verus! {

/// The digits of `n` are decimal digits with value `n`.
pub proof fn lemma_decimal_digits(n: nat)
    ensures
        decimal(n).len() > 0,
        forall|i: int| 0 <= i < decimal(n).len() ==> is_digit(#[trigger] decimal(n)[i]),
        digits_value(decimal(n)) == n,
    decreases n,
{
    if n < 10 {
        let c = (48 + n) as char;
        assert(decimal(n) == seq![c]);
        assert(decimal(n).drop_last() =~= Seq::<char>::empty());
        assert(c as int == 48 + n);
        assert(digits_value(decimal(n)) == digits_value(decimal(n).drop_last()) * 10 + ((c as int
            - 48) as nat));
    } else {
        lemma_decimal_digits(n / 10);
        let d = decimal(n / 10);
        let c = (48 + n % 10) as char;
        assert(decimal(n) == d.push(c));
        assert(decimal(n).drop_last() =~= d);
        assert(c as int == 48 + n % 10);
        assert(decimal(n).last() == c);
        assert(forall|i: int| 0 <= i < d.len() ==> decimal(n)[i] == d[i]);
        assert((n / 10) * 10 + n % 10 == n) by (nonlinear_arith);
        assert(digits_value(decimal(n)) == digits_value(d) * 10 + ((c as int - 48) as nat));
    }
}

/// The decimal text of a `u32` parses back to it.
pub proof fn lemma_decimal_parses(n: u32)
    ensures
        parsed_u32(decimal(n as nat)) == Some(n),
{
    lemma_decimal_digits(n as nat);
    let d = decimal(n as nat);
    assert(is_digit(d[0]));
    assert(unsigned_digits(d) == d);
}

/// Dropping the last entry keeps the keys unique, and that entry's key is
/// not among the others.
proof fn lemma_unique_drop_last<K, V>(entries: Seq<(K, V)>)
    requires
        unique_keys(entries),
        entries.len() > 0,
    ensures
        unique_keys(entries.drop_last()),
        !has_key(entries.drop_last(), entries.last().0),
        assoc_set(entries.drop_last(), entries.last().0, entries.last().1) == entries,
{
    let before = entries.drop_last();
    let n = entries.len() - 1;
    assert forall|i: int, j: int|
        0 <= i < before.len() && 0 <= j < before.len() && i != j implies (#[trigger] before[i]).0
        != (#[trigger] before[j]).0 by {
        assert(before[i] == entries[i] && before[j] == entries[j]);
    }
    if has_key(before, entries.last().0) {
        let i = choose|i: int| 0 <= i < before.len() && (#[trigger] before[i]).0 == entries.last().0;
        assert(entries[i] == before[i]);
        assert(entries[n].0 == entries.last().0);
    }
    assert(before.push(entries.last()) =~= entries);
}

/// A `documentIds` member as written for a document, read back: the short
/// ID's decimal text, with the document's ID, whose key `short_ids` maps to
/// that short ID.
pub open spec fn written_id(
    item: (String, DocumentId),
    document: (u32, Seq<char>),
    short_ids: Seq<(IdKey, u32)>,
) -> bool {
    &&& item.0@ == decimal(document.0 as nat)
    &&& item.1.json@ == document.1
    &&& assoc_get(short_ids, item.1.key) == Some(document.0)
}

/// The `documentIds` members as written for `documents`, read back.
pub open spec fn written_ids(
    list: Seq<(String, DocumentId)>,
    documents: Seq<(u32, Seq<char>)>,
    short_ids: Seq<(IdKey, u32)>,
) -> bool {
    &&& list.len() == documents.len()
    &&& forall|i: int| 0 <= i < list.len() ==> written_id(#[trigger] list[i], documents[i], short_ids)
}

/// The ID keys of the written documents with their short IDs.
pub open spec fn written_keys(list: Seq<(String, DocumentId)>, documents: Seq<(u32, Seq<char>)>) -> Seq<
    (IdKey, u32),
> {
    Seq::new(list.len(), |i: int| (list[i].1.key, documents[i].0))
}

/// A `fieldLength` member as written for a document, read back.
pub open spec fn written_length(
    item: (String, Option<Vec<Option<u64>>>),
    lengths: (u32, Seq<Option<u32>>),
) -> bool {
    &&& item.0@ == decimal(lengths.0 as nat)
    &&& item.1 is Some
    &&& item.1->Some_0@ == lengths.1.map_values(
        |length: Option<u32>|
            match length {
                Some(n) => Some(n as u64),
                None => None,
            },
    )
}

/// The `fieldLength` members as written for `lengths`, read back.
pub open spec fn written_lengths(
    list: Seq<(String, Option<Vec<Option<u64>>>)>,
    lengths: Seq<(u32, Seq<Option<u32>>)>,
) -> bool {
    &&& list.len() == lengths.len()
    &&& forall|i: int| 0 <= i < list.len() ==> written_length(#[trigger] list[i], lengths[i])
}

/// A `fieldIds` member as written, read back.
pub open spec fn written_field_id(item: (String, Option<u64>), entry: (Seq<char>, u32)) -> bool {
    item.0@ == entry.0 && item.1 == Some(entry.1 as u64)
}

/// The `fieldIds` members as written for `ids`, read back.
pub open spec fn written_field_ids(list: Seq<(String, Option<u64>)>, ids: Seq<(Seq<char>, u32)>) -> bool {
    &&& list.len() == ids.len()
    &&& forall|i: int| 0 <= i < list.len() ==> written_field_id(#[trigger] list[i], ids[i])
}

/// The member for a document's frequency as written, read back.
pub open spec fn written_freq(item: (String, Option<u64>), doc: (u32, u32)) -> bool {
    item.0@ == decimal(doc.0 as nat) && item.1 == Some(doc.1 as u64)
}

/// The members for the documents of a term in a field, read back.
pub open spec fn written_freqs(list: Seq<(String, Option<u64>)>, docs: Seq<(u32, u32)>) -> bool {
    &&& list.len() == docs.len()
    &&& forall|k: int| 0 <= k < list.len() ==> written_freq(#[trigger] list[k], docs[k])
}

/// The member for a field of a term as written, read back.
pub open spec fn written_field(entry: FieldEntry, field: (u32, Seq<(u32, u32)>)) -> bool {
    &&& entry.field_id@ == decimal(field.0 as nat)
    &&& entry.ds is None
    &&& entry.freqs is Some
    &&& written_freqs(entry.freqs->Some_0@, field.1)
}

/// The members for the fields of a term, read back.
pub open spec fn written_fields(list: Seq<FieldEntry>, data: Postings) -> bool {
    &&& list.len() == data.len()
    &&& forall|j: int| 0 <= j < list.len() ==> written_field(#[trigger] list[j], data[j])
}

/// An `index` item as written for a term and its postings, read back.
pub open spec fn written_entry(item: Option<IndexEntry>, entry: (Seq<char>, Postings)) -> bool {
    &&& item is Some
    &&& item->Some_0.term is Some
    &&& item->Some_0.term->Some_0@ == entry.0
    &&& item->Some_0.fields is Some
    &&& written_fields(item->Some_0.fields->Some_0@, entry.1)
}

/// The `index` items as written for `entries`, read back.
pub open spec fn written_index(list: Seq<Option<IndexEntry>>, entries: Seq<(Seq<char>, Postings)>) -> bool {
    &&& list.len() == entries.len()
    &&& forall|i: int| 0 <= i < list.len() ==> written_entry(#[trigger] list[i], entries[i])
}

/// A stored value as written, read back: the field name that `names` gives
/// its name ID, and the value's JSON text.
pub open spec fn written_value(item: (String, String), value: (u16, Seq<char>), names: Seq<Seq<char>>) -> bool {
    item.0@ == names[value.0 as int] && item.1@ == value.1
}

/// A `storedFields` member as written for a document, read back.
pub open spec fn written_stored_entry(
    item: (String, Option<Vec<(String, String)>>),
    entry: (u32, Seq<(u16, Seq<char>)>),
    names: Seq<Seq<char>>,
) -> bool {
    &&& item.0@ == decimal(entry.0 as nat)
    &&& item.1 is Some
    &&& item.1->Some_0@.len() == entry.1.len()
    &&& forall|j: int|
        0 <= j < entry.1.len() ==> written_value(#[trigger] item.1->Some_0@[j], entry.1[j], names)
}

/// The `storedFields` members as written for `stored`, read back.
pub open spec fn written_stored(
    list: Seq<(String, Option<Vec<(String, String)>>)>,
    stored: Seq<(u32, Seq<(u16, Seq<char>)>)>,
    names: Seq<Seq<char>>,
) -> bool {
    &&& list.len() == stored.len()
    &&& forall|i: int| 0 <= i < list.len() ==> written_stored_entry(#[trigger] list[i], stored[i], names)
}

/// No name occurs twice.
pub open spec fn distinct_names(names: Seq<Seq<char>>) -> bool {
    forall|i: int, j: int| 0 <= i < names.len() && 0 <= j < names.len() && i != j ==> #[trigger] names[i] != #[trigger] names[j]
}

pub(crate) proof fn lemma_load_ids_written(
    list: Seq<(String, DocumentId)>,
    documents: Seq<(u32, Seq<char>)>,
    short_ids: Seq<(IdKey, u32)>,
)
    requires
        written_ids(list, documents, short_ids),
        unique_keys(documents),
    ensures
        unique_keys(written_keys(list, documents)),
        load_ids(list) == Ok::<(Seq<(u32, Seq<char>)>, Seq<(IdKey, u32)>), EngineError>(
            (documents, written_keys(list, documents)),
        ),
    decreases list.len(),
{
    let keys = written_keys(list, documents);
    assert forall|i: int, j: int|
        0 <= i < keys.len() && 0 <= j < keys.len() && i != j implies (#[trigger] keys[i]).0
        != (#[trigger] keys[j]).0 by {
        assert(written_id(list[i], documents[i], short_ids));
        assert(written_id(list[j], documents[j], short_ids));
    }
    if list.len() > 0 {
        let n = list.len() - 1;
        assert(written_ids(list.drop_last(), documents.drop_last(), short_ids)) by {
            assert forall|i: int| 0 <= i < list.drop_last().len() implies written_id(
                #[trigger] list.drop_last()[i],
                documents.drop_last()[i],
                short_ids,
            ) by {
                assert(written_id(list[i], documents[i], short_ids));
            }
        }
        lemma_unique_drop_last(documents);
        lemma_load_ids_written(list.drop_last(), documents.drop_last(), short_ids);
        assert(written_keys(list.drop_last(), documents.drop_last()) =~= keys.drop_last());
        lemma_unique_drop_last(keys);
        assert(written_id(list[n], documents[n], short_ids));
        lemma_decimal_parses(documents[n].0);
        assert(list.last() == list[n]);
        assert(keys.last() == (list[n].1.key, documents[n].0));
    } else {
        assert(documents =~= Seq::<(u32, Seq<char>)>::empty());
        assert(keys =~= Seq::<(IdKey, u32)>::empty());
    }
}

pub(crate) proof fn lemma_load_lengths_written(
    list: Seq<(String, Option<Vec<Option<u64>>>)>,
    lengths: Seq<(u32, Seq<Option<u32>>)>,
)
    requires
        written_lengths(list, lengths),
        unique_keys(lengths),
    ensures
        load_lengths(list) == Ok::<Seq<(u32, Seq<Option<u32>>)>, EngineError>(lengths),
    decreases list.len(),
{
    if list.len() > 0 {
        let n = list.len() - 1;
        assert(written_lengths(list.drop_last(), lengths.drop_last())) by {
            assert forall|i: int| 0 <= i < list.drop_last().len() implies written_length(
                #[trigger] list.drop_last()[i],
                lengths.drop_last()[i],
            ) by {
                assert(written_length(list[i], lengths[i]));
            }
        }
        lemma_unique_drop_last(lengths);
        lemma_load_lengths_written(list.drop_last(), lengths.drop_last());
        assert(written_length(list[n], lengths[n]));
        lemma_decimal_parses(lengths[n].0);
        assert(list.last() == list[n]);
        let items = list[n].1->Some_0@;
        assert(loaded_lengths(list[n].1) =~= lengths[n].1) by {
            assert forall|j: int| 0 <= j < lengths[n].1.len() implies #[trigger] loaded_lengths(
                list[n].1,
            )[j] == lengths[n].1[j] by {
                assert(items[j] == match lengths[n].1[j] {
                    Some(x) => Some(x as u64),
                    None => None::<u64>,
                });
            }
        }
        assert(lengths.last() == lengths[n]);
    } else {
        assert(lengths =~= Seq::<(u32, Seq<Option<u32>>)>::empty());
    }
}

pub(crate) proof fn lemma_load_field_ids_written(list: Seq<(String, Option<u64>)>, ids: Seq<(Seq<char>, u32)>)
    requires
        written_field_ids(list, ids),
        unique_keys(ids),
    ensures
        load_field_ids(list) == Ok::<Seq<(Seq<char>, u32)>, EngineError>(ids),
    decreases list.len(),
{
    if list.len() > 0 {
        let n = list.len() - 1;
        assert(written_field_ids(list.drop_last(), ids.drop_last())) by {
            assert forall|i: int| 0 <= i < list.drop_last().len() implies written_field_id(
                #[trigger] list.drop_last()[i],
                ids.drop_last()[i],
            ) by {
                assert(written_field_id(list[i], ids[i]));
            }
        }
        lemma_unique_drop_last(ids);
        lemma_load_field_ids_written(list.drop_last(), ids.drop_last());
        assert(written_field_id(list[n], ids[n]));
        assert(list.last() == list[n]);
        assert(ids.last() == ids[n]);
    } else {
        assert(ids =~= Seq::<(Seq<char>, u32)>::empty());
    }
}

proof fn lemma_load_freqs_written(list: Seq<(String, Option<u64>)>, docs: Seq<(u32, u32)>)
    requires
        written_freqs(list, docs),
        unique_keys(docs),
    ensures
        load_freqs(list) == Ok::<Seq<(u32, u32)>, EngineError>(docs),
    decreases list.len(),
{
    if list.len() > 0 {
        let n = list.len() - 1;
        assert(written_freqs(list.drop_last(), docs.drop_last())) by {
            assert forall|k: int| 0 <= k < list.drop_last().len() implies written_freq(
                #[trigger] list.drop_last()[k],
                docs.drop_last()[k],
            ) by {
                assert(written_freq(list[k], docs[k]));
            }
        }
        lemma_unique_drop_last(docs);
        lemma_load_freqs_written(list.drop_last(), docs.drop_last());
        assert(written_freq(list[n], docs[n]));
        lemma_decimal_parses(docs[n].0);
        assert(list.last() == list[n]);
        assert(docs.last() == docs[n]);
    } else {
        assert(docs =~= Seq::<(u32, u32)>::empty());
    }
}

proof fn lemma_load_fields_written(list: Seq<FieldEntry>, data: Postings)
    requires
        written_fields(list, data),
        unique_keys(data),
        forall|j: int| 0 <= j < data.len() ==> unique_keys(#[trigger] data[j].1),
    ensures
        load_fields(list, Some(2u64)) == Ok::<Postings, EngineError>(data),
    decreases list.len(),
{
    if list.len() > 0 {
        let n = list.len() - 1;
        assert(written_fields(list.drop_last(), data.drop_last())) by {
            assert forall|j: int| 0 <= j < list.drop_last().len() implies written_field(
                #[trigger] list.drop_last()[j],
                data.drop_last()[j],
            ) by {
                assert(written_field(list[j], data[j]));
            }
        }
        assert forall|j: int| 0 <= j < data.drop_last().len() implies unique_keys(
            #[trigger] data.drop_last()[j].1,
        ) by {
            assert(data.drop_last()[j] == data[j]);
        }
        lemma_unique_drop_last(data);
        lemma_load_fields_written(list.drop_last(), data.drop_last());
        assert(written_field(list[n], data[n]));
        assert(unique_keys(data[n].1));
        lemma_decimal_parses(data[n].0);
        lemma_load_freqs_written(list[n].freqs->Some_0@, data[n].1);
        assert(list.last() == list[n]);
        assert(data.last() == data[n]);
    } else {
        assert(data =~= Seq::<(u32, Seq<(u32, u32)>)>::empty());
    }
}

/// The map made by inserting the entries one after another.
pub open spec fn entries_map(entries: Seq<(Seq<char>, Postings)>) -> Map<Seq<char>, Postings>
    decreases entries.len(),
{
    if entries.len() == 0 {
        Map::empty()
    } else {
        entries_map(entries.drop_last()).insert(entries.last().0, entries.last().1)
    }
}

/// With unique keys, the map of the entries holds exactly each entry.
pub proof fn lemma_entries_map(entries: Seq<(Seq<char>, Postings)>)
    requires
        unique_keys(entries),
    ensures
        forall|k: Seq<char>|
            #[trigger] entries_map(entries).contains_key(k) <==> exists|i: int|
                0 <= i < entries.len() && (#[trigger] entries[i]).0 == k,
        forall|i: int|
            0 <= i < entries.len() ==> #[trigger] entries_map(entries)[entries[i].0] == entries[i].1,
    decreases entries.len(),
{
    if entries.len() > 0 {
        let n = entries.len() - 1;
        let before = entries.drop_last();
        lemma_unique_drop_last(entries);
        lemma_entries_map(before);
        assert(entries.last() == entries[n]);
        assert(entries_map(entries) == entries_map(before).insert(entries[n].0, entries[n].1));
        assert forall|k: Seq<char>|
            #[trigger] entries_map(entries).contains_key(k) <==> exists|i: int|
                0 <= i < entries.len() && (#[trigger] entries[i]).0 == k by {
            if entries_map(entries).contains_key(k) && k != entries[n].0 {
                assert(entries_map(before).contains_key(k));
                let i = choose|i: int| 0 <= i < before.len() && (#[trigger] before[i]).0 == k;
                assert(entries[i] == before[i]);
            }
            if exists|i: int| 0 <= i < entries.len() && (#[trigger] entries[i]).0 == k {
                let i = choose|i: int| 0 <= i < entries.len() && (#[trigger] entries[i]).0 == k;
                if i < n {
                    assert(before[i] == entries[i]);
                    assert(entries_map(before).contains_key(k));
                }
            }
        }
        assert forall|i: int| 0 <= i < entries.len() implies #[trigger] entries_map(
            entries,
        )[entries[i].0] == entries[i].1 by {
            if i < n {
                assert(before[i] == entries[i]);
                assert(entries[i].0 != entries[n].0);
                assert(entries_map(before)[before[i].0] == before[i].1);
            }
        }
    }
}

pub(crate) proof fn lemma_load_index_written(list: Seq<Option<IndexEntry>>, entries: Seq<(Seq<char>, Postings)>)
    requires
        written_index(list, entries),
        forall|i: int|
            0 <= i < entries.len() ==> {
                &&& unique_keys(#[trigger] entries[i].1)
                &&& forall|j: int|
                    0 <= j < entries[i].1.len() ==> unique_keys(#[trigger] entries[i].1[j].1)
            },
    ensures
        load_index(list, Some(2u64)) == Ok::<Map<Seq<char>, Postings>, EngineError>(
            entries_map(entries),
        ),
    decreases list.len(),
{
    if list.len() > 0 {
        let n = list.len() - 1;
        assert(written_index(list.drop_last(), entries.drop_last())) by {
            assert forall|i: int| 0 <= i < list.drop_last().len() implies written_entry(
                #[trigger] list.drop_last()[i],
                entries.drop_last()[i],
            ) by {
                assert(written_entry(list[i], entries[i]));
            }
        }
        assert forall|i: int| 0 <= i < entries.drop_last().len() implies {
            &&& unique_keys(#[trigger] entries.drop_last()[i].1)
            &&& forall|j: int|
                0 <= j < entries.drop_last()[i].1.len() ==> unique_keys(
                    #[trigger] entries.drop_last()[i].1[j].1,
                )
        } by {
            assert(entries.drop_last()[i] == entries[i]);
        }
        lemma_load_index_written(list.drop_last(), entries.drop_last());
        assert(written_entry(list[n], entries[n]));
        assert(unique_keys(entries[n].1));
        lemma_load_fields_written(list[n]->Some_0.fields->Some_0@, entries[n].1);
        assert(list.last() == list[n]);
        assert(entries.last() == entries[n]);
    }
}

/// A name that occurs once is found at its position.
proof fn lemma_name_id_found(names: Seq<Seq<char>>, id: u16)
    requires
        distinct_names(names),
        (id as int) < names.len(),
    ensures
        name_id(names, names[id as int]) == (id, names),
{
    let name = names[id as int];
    assert(0 <= id < names.len() && names[id as int] == name);
    let i = choose|i: int|
        0 <= i < names.len() && names[i] == name && forall|j: int| 0 <= j < i ==> names[j] != name;
    assert(forall|j: int| 0 <= j < id ==> names[j] != name);
    assert(i == id);
}

proof fn lemma_load_values_written(
    values: Seq<(String, String)>,
    entries: Seq<(u16, Seq<char>)>,
    names: Seq<Seq<char>>,
)
    requires
        values.len() == entries.len(),
        forall|j: int| 0 <= j < entries.len() ==> written_value(#[trigger] values[j], entries[j], names),
        forall|j: int| 0 <= j < entries.len() ==> ((#[trigger] entries[j]).0 as int) < names.len(),
        unique_keys(entries),
        distinct_names(names),
    ensures
        load_values(values, names) == (entries, names),
    decreases values.len(),
{
    if values.len() > 0 {
        let n = values.len() - 1;
        assert forall|j: int| 0 <= j < entries.drop_last().len() implies written_value(
            #[trigger] values.drop_last()[j],
            entries.drop_last()[j],
            names,
        ) by {
            assert(written_value(values[j], entries[j], names));
        }
        assert forall|j: int| 0 <= j < entries.drop_last().len() implies ((
        #[trigger] entries.drop_last()[j]).0 as int) < names.len() by {
            assert(entries.drop_last()[j] == entries[j]);
        }
        lemma_unique_drop_last(entries);
        lemma_load_values_written(values.drop_last(), entries.drop_last(), names);
        assert(written_value(values[n], entries[n], names));
        assert(entries[n].0 < names.len());
        lemma_name_id_found(names, entries[n].0);
        assert(values.last() == values[n]);
        assert(entries.last() == entries[n]);
    } else {
        assert(entries =~= Seq::<(u16, Seq<char>)>::empty());
    }
}

pub(crate) proof fn lemma_load_stored_written(
    list: Seq<(String, Option<Vec<(String, String)>>)>,
    stored: Seq<(u32, Seq<(u16, Seq<char>)>)>,
    names: Seq<Seq<char>>,
)
    requires
        written_stored(list, stored, names),
        unique_keys(stored),
        forall|i: int| 0 <= i < stored.len() ==> unique_keys(#[trigger] stored[i].1),
        forall|i: int, j: int|
            0 <= i < stored.len() && 0 <= j < stored[i].1.len() ==> ((#[trigger] stored[i].1[j]).0 as int)
                < names.len(),
        distinct_names(names),
    ensures
        load_stored(list, names) == Ok::<
            (Seq<(u32, Seq<(u16, Seq<char>)>)>, Seq<Seq<char>>),
            EngineError,
        >((stored, names)),
    decreases list.len(),
{
    if list.len() > 0 {
        let n = list.len() - 1;
        let before = stored.drop_last();
        assert(written_stored(list.drop_last(), before, names)) by {
            assert forall|i: int| 0 <= i < list.drop_last().len() implies written_stored_entry(
                #[trigger] list.drop_last()[i],
                before[i],
                names,
            ) by {
                assert(written_stored_entry(list[i], stored[i], names));
            }
        }
        assert forall|i: int| 0 <= i < before.len() implies unique_keys(#[trigger] before[i].1) by {
            assert(before[i] == stored[i]);
        }
        assert forall|i: int, j: int|
            0 <= i < before.len() && 0 <= j < before[i].1.len() implies ((
            #[trigger] before[i].1[j]).0 as int) < names.len() by {
            assert(before[i] == stored[i]);
        }
        lemma_unique_drop_last(stored);
        lemma_load_stored_written(list.drop_last(), before, names);
        assert(written_stored_entry(list[n], stored[n], names));
        lemma_decimal_parses(stored[n].0);
        let values = list[n].1->Some_0@;
        assert(unique_keys(stored[n].1));
        assert forall|j: int| 0 <= j < stored[n].1.len() implies ((#[trigger] stored[n].1[j]).0 as int)
            < names.len() by {
            assert(((stored[n].1[j]).0 as int) < names.len());
        }
        lemma_load_values_written(values, stored[n].1, names);
        assert(list.last() == list[n]);
        assert(stored.last() == stored[n]);
    } else {
        assert(stored =~= Seq::<(u32, Seq<(u16, Seq<char>)>)>::empty());
    }
}

} // verus!
