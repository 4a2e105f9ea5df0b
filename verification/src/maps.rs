//! The insertion-ordered tables of the engine, each an `IndexMap`.
//!
//! Every table is modelled by the sequence of its entries in insertion
//! order. The contract of each `IndexMap` method below restates what the
//! crate documents: `insert` keeps the position of an existing key and
//! appends a new one, `shift_remove` removes an entry and keeps the order of
//! the others, and iteration (`get_index`) follows insertion order. Keys are
//! compared by value: `u32`, `String` (by its characters) and `IdKey` (by its
//! derived `Eq` and `Hash`).
use indexmap::IndexMap;
use rustc_hash::FxBuildHasher;
use vstd::prelude::*;

use crate::js::IdKey;
use crate::vecmap::{assoc_remove, assoc_set, has_key, index_of, unique_keys};

verus! {

#[verifier::external_type_specification]
#[verifier::external_body]
#[verifier::reject_recursive_types(K)]
#[verifier::reject_recursive_types(V)]
#[verifier::reject_recursive_types(S)]
pub struct ExIndexMap<K, V, S>(IndexMap<K, V, S>);

#[verifier::external_type_specification]
#[verifier::external_body]
pub struct ExFxBuildHasher(FxBuildHasher);

/// The `(short ID, document ID as JSON text)` entries of a document table.
pub uninterp spec fn document_id_entries(map: IndexMap<u32, String, FxBuildHasher>) -> Seq<(u32, Seq<char>)>;

/// The `(document ID key, short ID)` entries of a short-ID table.
pub uninterp spec fn short_id_entries(map: IndexMap<IdKey, u32, FxBuildHasher>) -> Seq<(IdKey, u32)>;

/// The map type of a field-length table.
pub type LengthMap = IndexMap<u32, Vec<Option<u32>>, FxBuildHasher>;

/// The `(short ID, field lengths)` entries of a field-length table.
pub uninterp spec fn field_length_entries(map: LengthMap) -> Seq<(u32, Seq<Option<u32>>)>;

/// The map type of a stored-field table.
pub type StoredMap = IndexMap<u32, Vec<(u16, String)>, FxBuildHasher>;

/// The `(short ID, stored values)` entries of a stored-field table; a stored
/// value is a name ID and the JSON text of the value.
pub uninterp spec fn stored_field_entries(map: StoredMap) -> Seq<(u32, Seq<(u16, Seq<char>)>)>;

/// The `(field name, field ID)` entries of a field-ID table.
pub uninterp spec fn field_id_entries(map: IndexMap<String, u32>) -> Seq<(Seq<char>, u32)>;

/// The `(term, term ID)` entries of an interner's table.
pub uninterp spec fn term_id_entries(map: IndexMap<String, u16>) -> Seq<(Seq<char>, u16)>;

/// The view of a list of stored values.
pub open spec fn stored_view(values: Seq<(u16, String)>) -> Seq<(u16, Seq<char>)> {
    values.map_values(|value: (u16, String)| (value.0, value.1@))
}

// -- Document IDs -------------------------------------------------------------

/// Document IDs by short ID, as JSON text.
pub(crate) struct DocumentIds {
    pub(crate) map: IndexMap<u32, String, FxBuildHasher>,
}

impl DocumentIds {
    pub(crate) open spec fn view(&self) -> Seq<(u32, Seq<char>)> {
        document_id_entries(self.map)
    }
}

impl DocumentIds {
    /// `IndexMap::default`: an empty table.
    #[verifier::external_body]
    pub(crate) fn new() -> (table: Self)
        ensures
            document_id_entries(table.map) == Seq::<(u32, Seq<char>)>::empty(),
    {
        DocumentIds { map: IndexMap::default() }
    }

    /// `IndexMap::len`: the number of entries.
    #[verifier::external_body]
    pub(crate) fn len(&self) -> (len: usize)
        ensures
            len == document_id_entries(self.map).len(),
    {
        self.map.len()
    }

    /// `IndexMap::get_index`: the entry at a position in insertion order.
    #[verifier::external_body]
    pub(crate) fn get_index(&self, index: usize) -> (entry: Option<(&u32, &String)>)
        ensures
            match entry {
                Some((key, value)) => index < document_id_entries(self.map).len() && document_id_entries(self.map)[index as int] == (
                *key,
                value@,
                ),
                None => index >= document_id_entries(self.map).len(),
            },
    {
        self.map.get_index(index)
    }

    /// `IndexMap::contains_key`.
    #[verifier::external_body]
    pub(crate) fn contains_key(&self, key: u32) -> (found: bool)
        ensures
            found == has_key(document_id_entries(self.map), key),
    {
        self.map.contains_key(&key)
    }

    /// `IndexMap::get`: the value stored for `key`.
    #[verifier::external_body]
    pub(crate) fn get(&self, key: u32) -> (value: Option<&String>)
        requires
            unique_keys(document_id_entries(self.map)),
        ensures
            match value {
                Some(text) => has_key(document_id_entries(self.map), key) && document_id_entries(self.map)[index_of(document_id_entries(self.map), key)].1 == text@,
                None => !has_key(document_id_entries(self.map), key),
            },
    {
        self.map.get(&key)
    }

    /// `IndexMap::insert`: replaces the value of an existing key in place,
    /// or appends a new entry.
    #[verifier::external_body]
    pub(crate) fn insert(&mut self, key: u32, value: String)
        requires
            unique_keys(document_id_entries(old(self).map)),
        ensures
            document_id_entries(final(self).map) == assoc_set(document_id_entries(old(self).map), key, value@),
    {
        self.map.insert(key, value);
    }

    /// `IndexMap::shift_remove`: removes the entry for `key`, keeping the
    /// order of the others.
    #[verifier::external_body]
    pub(crate) fn shift_remove(&mut self, key: u32)
        requires
            unique_keys(document_id_entries(old(self).map)),
        ensures
            document_id_entries(final(self).map) == assoc_remove(document_id_entries(old(self).map), key),
    {
        self.map.shift_remove(&key);
    }

    /// `IndexMap::clear`.
    #[verifier::external_body]
    pub(crate) fn clear(&mut self)
        ensures
            document_id_entries(final(self).map) == Seq::<(u32, Seq<char>)>::empty(),
    {
        self.map.clear();
    }
}

// -- Short IDs ----------------------------------------------------------------

/// Short IDs by document ID key.
pub(crate) struct ShortIds {
    pub(crate) map: IndexMap<IdKey, u32, FxBuildHasher>,
}

impl ShortIds {
    pub(crate) open spec fn view(&self) -> Seq<(IdKey, u32)> {
        short_id_entries(self.map)
    }
}

impl ShortIds {
    /// `IndexMap::default`: an empty table.
    #[verifier::external_body]
    pub(crate) fn new() -> (table: Self)
        ensures
            short_id_entries(table.map) == Seq::<(IdKey, u32)>::empty(),
    {
        ShortIds { map: IndexMap::default() }
    }

    /// `IndexMap::get`: the short ID stored for `key`.
    #[verifier::external_body]
    pub(crate) fn get(&self, key: &IdKey) -> (value: Option<u32>)
        requires
            unique_keys(short_id_entries(self.map)),
        ensures
            match value {
                Some(id) => has_key(short_id_entries(self.map), *key) && short_id_entries(self.map)[index_of(short_id_entries(self.map), *key)].1 == id,
                None => !has_key(short_id_entries(self.map), *key),
            },
    {
        self.map.get(key).copied()
    }

    /// `IndexMap::insert`: replaces the value of an existing key in place,
    /// or appends a new entry.
    #[verifier::external_body]
    pub(crate) fn insert(&mut self, key: IdKey, value: u32)
        requires
            unique_keys(short_id_entries(old(self).map)),
        ensures
            short_id_entries(final(self).map) == assoc_set(short_id_entries(old(self).map), key, value),
    {
        self.map.insert(key, value);
    }

    /// `IndexMap::shift_remove`: removes the entry for `key`, keeping the
    /// order of the others.
    #[verifier::external_body]
    pub(crate) fn shift_remove(&mut self, key: &IdKey)
        requires
            unique_keys(short_id_entries(old(self).map)),
        ensures
            short_id_entries(final(self).map) == assoc_remove(short_id_entries(old(self).map), *key),
    {
        self.map.shift_remove(key);
    }

    /// `IndexMap::clear`.
    #[verifier::external_body]
    pub(crate) fn clear(&mut self)
        ensures
            short_id_entries(final(self).map) == Seq::<(IdKey, u32)>::empty(),
    {
        self.map.clear();
    }
}

// -- Field lengths ------------------------------------------------------------

/// The length of each indexed field, by short ID.
pub(crate) struct FieldLengths {
    pub(crate) map: IndexMap<u32, Vec<Option<u32>>, FxBuildHasher>,
}

impl FieldLengths {
    pub(crate) open spec fn view(&self) -> Seq<(u32, Seq<Option<u32>>)> {
        field_length_entries(self.map)
    }
}

impl FieldLengths {
    /// `IndexMap::default`: an empty table.
    #[verifier::external_body]
    pub(crate) fn new() -> (table: Self)
        ensures
            field_length_entries(table.map) == Seq::<(u32, Seq<Option<u32>>)>::empty(),
    {
        FieldLengths { map: IndexMap::default() }
    }

    /// `IndexMap::len`: the number of entries.
    #[verifier::external_body]
    pub(crate) fn len(&self) -> (len: usize)
        ensures
            len == field_length_entries(self.map).len(),
    {
        self.map.len()
    }

    /// `IndexMap::get_index`: the entry at a position in insertion order.
    #[verifier::external_body]
    pub(crate) fn get_index(&self, index: usize) -> (entry: Option<(&u32, &Vec<Option<u32>>)>)
        ensures
            match entry {
                Some((key, value)) => index < field_length_entries(self.map).len() && field_length_entries(self.map)[index as int] == (
                *key,
                value@,
                ),
                None => index >= field_length_entries(self.map).len(),
            },
    {
        self.map.get_index(index)
    }

    /// `IndexMap::get`: the lengths stored for `key`.
    #[verifier::external_body]
    pub(crate) fn get(&self, key: u32) -> (value: Option<&Vec<Option<u32>>>)
        requires
            unique_keys(field_length_entries(self.map)),
        ensures
            match value {
                Some(lengths) => has_key(field_length_entries(self.map), key) && field_length_entries(self.map)[index_of(field_length_entries(self.map), key)].1
                    == lengths@,
                None => !has_key(field_length_entries(self.map), key),
            },
    {
        self.map.get(&key)
    }

    /// `IndexMap::insert`: replaces the value of an existing key in place,
    /// or appends a new entry.
    #[verifier::external_body]
    pub(crate) fn insert(&mut self, key: u32, value: Vec<Option<u32>>)
        requires
            unique_keys(field_length_entries(old(self).map)),
        ensures
            field_length_entries(final(self).map) == assoc_set(field_length_entries(old(self).map), key, value@),
    {
        self.map.insert(key, value);
    }

    /// `IndexMap::shift_remove`: removes the entry for `key`, keeping the
    /// order of the others, and returns its value.
    #[verifier::external_body]
    pub(crate) fn shift_remove(&mut self, key: u32) -> (removed: Option<Vec<Option<u32>>>)
        requires
            unique_keys(field_length_entries(old(self).map)),
        ensures
            field_length_entries(final(self).map) == assoc_remove(field_length_entries(old(self).map), key),
            match removed {
                Some(lengths) => has_key(field_length_entries(old(self).map), key) && field_length_entries(old(self).map)[index_of(
                    field_length_entries(old(self).map),
                    key,
                )].1 == lengths@,
                None => !has_key(field_length_entries(old(self).map), key),
            },
    {
        self.map.shift_remove(&key)
    }

    /// `IndexMap::clear`.
    #[verifier::external_body]
    pub(crate) fn clear(&mut self)
        ensures
            field_length_entries(final(self).map) == Seq::<(u32, Seq<Option<u32>>)>::empty(),
    {
        self.map.clear();
    }
}

// -- Stored fields ------------------------------------------------------------

/// The stored field values of each document, by short ID.
pub(crate) struct StoredFields {
    pub(crate) map: IndexMap<u32, Vec<(u16, String)>, FxBuildHasher>,
}

impl StoredFields {
    pub(crate) open spec fn view(&self) -> Seq<(u32, Seq<(u16, Seq<char>)>)> {
        stored_field_entries(self.map)
    }
}

impl StoredFields {
    /// `IndexMap::default`: an empty table.
    #[verifier::external_body]
    pub(crate) fn new() -> (table: Self)
        ensures
            stored_field_entries(table.map) == Seq::<(u32, Seq<(u16, Seq<char>)>)>::empty(),
    {
        StoredFields { map: IndexMap::default() }
    }

    /// `IndexMap::len`: the number of entries.
    #[verifier::external_body]
    pub(crate) fn len(&self) -> (len: usize)
        ensures
            len == stored_field_entries(self.map).len(),
    {
        self.map.len()
    }

    /// `IndexMap::get_index`: the entry at a position in insertion order.
    #[verifier::external_body]
    pub(crate) fn get_index(&self, index: usize) -> (entry: Option<(&u32, &Vec<(u16, String)>)>)
        ensures
            match entry {
                Some((key, value)) => index < stored_field_entries(self.map).len() && stored_field_entries(self.map)[index as int] == (
                *key,
                stored_view(value@),
                ),
                None => index >= stored_field_entries(self.map).len(),
            },
    {
        self.map.get_index(index)
    }

    /// `IndexMap::get`: the values stored for `key`.
    #[verifier::external_body]
    pub(crate) fn get(&self, key: u32) -> (value: Option<&Vec<(u16, String)>>)
        requires
            unique_keys(stored_field_entries(self.map)),
        ensures
            match value {
                Some(values) => has_key(stored_field_entries(self.map), key) && stored_field_entries(self.map)[index_of(stored_field_entries(self.map), key)].1
                    == stored_view(values@),
                None => !has_key(stored_field_entries(self.map), key),
            },
    {
        self.map.get(&key)
    }

    /// `IndexMap::insert`: replaces the value of an existing key in place,
    /// or appends a new entry.
    #[verifier::external_body]
    pub(crate) fn insert(&mut self, key: u32, value: Vec<(u16, String)>)
        requires
            unique_keys(stored_field_entries(old(self).map)),
        ensures
            stored_field_entries(final(self).map) == assoc_set(stored_field_entries(old(self).map), key, stored_view(value@)),
    {
        self.map.insert(key, value);
    }

    /// `IndexMap::shift_remove`: removes the entry for `key`, keeping the
    /// order of the others.
    #[verifier::external_body]
    pub(crate) fn shift_remove(&mut self, key: u32)
        requires
            unique_keys(stored_field_entries(old(self).map)),
        ensures
            stored_field_entries(final(self).map) == assoc_remove(stored_field_entries(old(self).map), key),
    {
        self.map.shift_remove(&key);
    }

    /// `IndexMap::clear`.
    #[verifier::external_body]
    pub(crate) fn clear(&mut self)
        ensures
            stored_field_entries(final(self).map) == Seq::<(u32, Seq<(u16, Seq<char>)>)>::empty(),
    {
        self.map.clear();
    }
}

// -- Field IDs ----------------------------------------------------------------

/// Field IDs by field name.
pub(crate) struct FieldIds {
    pub(crate) map: IndexMap<String, u32>,
}

impl FieldIds {
    pub(crate) open spec fn view(&self) -> Seq<(Seq<char>, u32)> {
        field_id_entries(self.map)
    }
}

impl FieldIds {
    /// `IndexMap::new`: an empty table.
    #[verifier::external_body]
    pub(crate) fn new() -> (table: Self)
        ensures
            field_id_entries(table.map) == Seq::<(Seq<char>, u32)>::empty(),
    {
        FieldIds { map: IndexMap::new() }
    }

    /// `IndexMap::len`: the number of entries.
    #[verifier::external_body]
    pub(crate) fn len(&self) -> (len: usize)
        ensures
            len == field_id_entries(self.map).len(),
    {
        self.map.len()
    }

    /// `IndexMap::get_index`: the entry at a position in insertion order.
    #[verifier::external_body]
    pub(crate) fn get_index(&self, index: usize) -> (entry: Option<(&String, &u32)>)
        ensures
            match entry {
                Some((key, value)) => index < field_id_entries(self.map).len() && field_id_entries(self.map)[index as int] == (
                key@,
                *value,
                ),
                None => index >= field_id_entries(self.map).len(),
            },
    {
        self.map.get_index(index)
    }

    /// `IndexMap::get`: the field ID stored for the name `key`.
    #[verifier::external_body]
    pub(crate) fn get(&self, key: &str) -> (value: Option<u32>)
        requires
            unique_keys(field_id_entries(self.map)),
        ensures
            match value {
                Some(id) => has_key(field_id_entries(self.map), key@) && field_id_entries(self.map)[index_of(field_id_entries(self.map), key@)].1 == id,
                None => !has_key(field_id_entries(self.map), key@),
            },
    {
        self.map.get(key).copied()
    }

    /// `IndexMap::insert`: replaces the value of an existing key in place,
    /// or appends a new entry.
    #[verifier::external_body]
    pub(crate) fn insert(&mut self, key: String, value: u32)
        requires
            unique_keys(field_id_entries(old(self).map)),
        ensures
            field_id_entries(final(self).map) == assoc_set(field_id_entries(old(self).map), key@, value),
    {
        self.map.insert(key, value);
    }

    /// `IndexMap::clear`.
    #[verifier::external_body]
    pub(crate) fn clear(&mut self)
        ensures
            field_id_entries(final(self).map) == Seq::<(Seq<char>, u32)>::empty(),
    {
        self.map.clear();
    }
}

// -- Term IDs -----------------------------------------------------------------

/// Term IDs by term.
pub(crate) struct TermIds {
    pub(crate) map: IndexMap<String, u16>,
}

impl TermIds {
    pub(crate) open spec fn view(&self) -> Seq<(Seq<char>, u16)> {
        term_id_entries(self.map)
    }
}

impl TermIds {
    /// `IndexMap::new`: an empty table.
    #[verifier::external_body]
    pub(crate) fn new() -> (table: Self)
        ensures
            term_id_entries(table.map) == Seq::<(Seq<char>, u16)>::empty(),
    {
        TermIds { map: IndexMap::new() }
    }

    /// `IndexMap::len`: the number of entries.
    #[verifier::external_body]
    pub(crate) fn len(&self) -> (len: usize)
        ensures
            len == term_id_entries(self.map).len(),
    {
        self.map.len()
    }

    /// `IndexMap::get_index`: the entry at a position in insertion order.
    #[verifier::external_body]
    pub(crate) fn get_index(&self, index: usize) -> (entry: Option<(&String, &u16)>)
        ensures
            match entry {
                Some((key, value)) => index < term_id_entries(self.map).len() && term_id_entries(
                    self.map,
                )[index as int] == (key@, *value),
                None => index >= term_id_entries(self.map).len(),
            },
    {
        self.map.get_index(index)
    }

    /// `IndexMap::get`: the ID stored for the term `key`.
    #[verifier::external_body]
    pub(crate) fn get(&self, key: &str) -> (value: Option<u16>)
        requires
            unique_keys(term_id_entries(self.map)),
        ensures
            match value {
                Some(id) => has_key(term_id_entries(self.map), key@) && term_id_entries(
                    self.map,
                )[index_of(term_id_entries(self.map), key@)].1 == id,
                None => !has_key(term_id_entries(self.map), key@),
            },
    {
        self.map.get(key).copied()
    }

    /// `IndexMap::insert`: replaces the value of an existing key in place,
    /// or appends a new entry.
    #[verifier::external_body]
    pub(crate) fn insert(&mut self, key: String, value: u16)
        requires
            unique_keys(term_id_entries(old(self).map)),
        ensures
            term_id_entries(final(self).map) == assoc_set(term_id_entries(old(self).map), key@, value),
    {
        self.map.insert(key, value);
    }
}

} // verus!
