use ferrosearch::engine::{
    parse_short_id, supported_version, Document, DocumentId, Engine, EngineError, ExpansionKind,
    FieldEntry, Hit, IndexEntry, LengthChange, SerializedIndex,
};
use ferrosearch::js::IdKey;
use ferrosearch::search::{Interner, MatchSet};
use ferrosearch::tokens::Tokenizer;

fn engine() -> Engine {
    Engine::new(
        vec!["title".to_string(), "text".to_string()],
        vec!["title".to_string()],
        Tokenizer::new().unwrap(),
    )
}

fn number_id(n: u32) -> DocumentId {
    DocumentId {
        key: IdKey::Num((n as f64).to_bits()),
        json: n.to_string(),
    }
}

fn document(n: u32, title: &str, text: &str) -> Document {
    Document {
        id: Some(number_id(n)),
        texts: vec![Some(title.to_string()), Some(text.to_string())],
        stored: vec![Some(format!("\"{title}\""))],
    }
}

#[test]
fn add_makes_documents_searchable() {
    let mut engine = engine();
    let changes = engine.add(&document(1, "Moby Dick", "Call me Ishmael")).unwrap();
    assert_eq!(
        changes,
        vec![
            LengthChange { field_id: 0, count: 0, length: 2, added: true },
            LengthChange { field_id: 1, count: 0, length: 3, added: true },
        ]
    );
    assert!(engine.has(&number_id(1).key));
    assert!(!engine.has(&number_id(2).key));
    assert_eq!(engine.document_count(), 1);
    assert_eq!(engine.term_count(), 5);
}

#[test]
fn add_refuses_missing_and_duplicate_ids() {
    let mut engine = engine();
    engine.add(&document(1, "a", "b")).unwrap();
    let mut missing = document(2, "c", "d");
    missing.id = None;
    assert_eq!(engine.add(&missing).unwrap_err(), EngineError::MissingId);
    assert_eq!(engine.add(&document(1, "e", "f")).unwrap_err(), EngineError::DuplicateId);
    assert_eq!(engine.document_count(), 1);
    assert_eq!(engine.term_count(), 2);
}

#[test]
fn distinct_tokens_are_the_field_length() {
    let mut engine = engine();
    let changes = engine.add(&document(1, "Zen zen ZEN", "the art, the art!")).unwrap();
    // Tokens are counted before lowercasing: "Zen", "zen" and "ZEN" differ.
    assert_eq!(changes[0].length, 3);
    assert_eq!(changes[1].length, 3);
    assert_eq!(engine.term_count(), 3);
}

#[test]
fn remove_restores_the_serialized_index() {
    let mut engine = engine();
    engine.add(&document(1, "zen art", "motorcycle maintenance")).unwrap();
    let before = engine.to_json_string(&vec!["2".to_string(), "2".to_string()]);
    engine.add(&document(2, "zen archery", "the art of archery")).unwrap();
    let (changes, warnings) = engine.remove(&document(2, "zen archery", "the art of archery")).unwrap();
    assert!(warnings.is_empty());
    assert_eq!(changes.len(), 2);
    assert!(!changes[0].added);
    assert!(!engine.has(&number_id(2).key));
    let after = engine.to_json_string(&vec!["2".to_string(), "2".to_string()]);
    // The next short ID moved on, and the edge "art" that was split for
    // "archery" and merged again now comes last among the root's edges,
    // so it is walked first; everything else is back.
    let expected = before.replace(
        "[\"maintenance\",{\"1\":{\"0\":1}}],[\"motorcycle\",{\"1\":{\"0\":1}}],[\"art\",{\"0\":{\"0\":1}}]",
        "[\"art\",{\"0\":{\"0\":1}}],[\"maintenance\",{\"1\":{\"0\":1}}],[\"motorcycle\",{\"1\":{\"0\":1}}]",
    );
    assert_ne!(expected, before);
    assert_eq!(after.replace("\"nextId\":2", "\"nextId\":1"), expected);
}

#[test]
fn remove_of_a_changed_document_warns() {
    let mut engine = engine();
    engine.add(&document(1, "zen", "art")).unwrap();
    let (_, warnings) = engine.remove(&document(1, "zen", "craft")).unwrap();
    assert_eq!(warnings.len(), 1);
    assert_eq!(warnings[0].term, "craft");
    assert_eq!(warnings[0].field, "text");
    assert_eq!(warnings[0].document_id.as_deref(), Some("1"));
    // The term that was present is gone, the other one stays.
    assert_eq!(engine.term_count(), 1);
}

#[test]
fn remove_refuses_unknown_documents() {
    let mut engine = engine();
    assert_eq!(
        engine.remove(&document(7, "a", "b")).err().unwrap(),
        EngineError::NotInIndex
    );
    let mut missing = document(7, "a", "b");
    missing.id = None;
    assert_eq!(engine.remove(&missing).err().unwrap(), EngineError::MissingId);
}

#[test]
fn discard_then_vacuum_cleans_the_index() {
    let mut engine = engine();
    engine.add(&document(1, "zen art", "x")).unwrap();
    engine.add(&document(2, "zen", "y")).unwrap();
    let changes = engine.discard(&number_id(1).key).unwrap();
    assert_eq!(
        changes,
        vec![
            LengthChange { field_id: 0, count: 2, length: 2, added: false },
            LengthChange { field_id: 1, count: 2, length: 1, added: false },
        ]
    );
    assert!(!engine.has(&number_id(1).key));
    assert_eq!(engine.dirt_count(), 1);
    assert_eq!(engine.document_count(), 1);
    assert_eq!(engine.term_count(), 4);
    engine.vacuum();
    assert_eq!(engine.dirt_count(), 0);
    // "art" and "x" only belonged to the discarded document.
    assert_eq!(engine.term_count(), 2);
    assert_eq!(engine.discard(&number_id(1).key).unwrap_err(), EngineError::NotInIndex);
}

#[test]
fn remove_all_resets_documents_but_keeps_dirt() {
    let mut engine = engine();
    engine.add(&document(1, "a", "b")).unwrap();
    engine.add(&document(2, "c", "d")).unwrap();
    engine.discard(&number_id(2).key).unwrap();
    engine.remove_all();
    assert_eq!(engine.document_count(), 0);
    assert_eq!(engine.term_count(), 0);
    assert_eq!(engine.dirt_count(), 1);
    assert!(!engine.has(&number_id(1).key));
}

#[test]
fn stored_fields_are_returned_by_name() {
    let mut engine = engine();
    engine.add(&document(1, "Moby Dick", "x")).unwrap();
    assert_eq!(
        engine.get_stored_fields(&number_id(1).key),
        Some(vec![("title".to_string(), "\"Moby Dick\"".to_string())])
    );
    assert_eq!(engine.get_stored_fields(&number_id(2).key), None);
}

#[test]
fn serialization_writes_the_version_two_format() {
    let mut engine = engine();
    engine.add(&document(1, "zen", "art")).unwrap();
    let text = engine.to_json_string(&vec!["1".to_string(), "1".to_string()]);
    assert_eq!(
        text,
        "{\"documentCount\":1,\"nextId\":1,\"documentIds\":{\"0\":1},\"fieldIds\":{\"title\":0,\"text\":1},\"fieldLength\":{\"0\":[1,1]},\"averageFieldLength\":[1,1],\"storedFields\":{\"0\":{\"title\":\"zen\"}},\"dirtCount\":0,\"index\":[[\"art\",{\"1\":{\"0\":1}}],[\"zen\",{\"0\":{\"0\":1}}]],\"serializationVersion\":2}"
    );
}

fn freqs(pairs: &[(&str, u64)]) -> Vec<(String, Option<u64>)> {
    pairs.iter().map(|(doc, freq)| (doc.to_string(), Some(*freq))).collect()
}

fn parts() -> SerializedIndex {
    SerializedIndex {
        version: Some(2),
        document_count: Some(1),
        next_id: Some(1),
        dirt_count: Some(0),
        document_ids: Some(vec![("0".to_string(), number_id(1))]),
        field_length: Some(vec![("0".to_string(), Some(vec![Some(1), Some(1)]))]),
        stored_fields: Some(vec![(
            "0".to_string(),
            Some(vec![("title".to_string(), "\"zen\"".to_string())]),
        )]),
        field_ids: Some(vec![("title".to_string(), Some(0)), ("text".to_string(), Some(1))]),
        index: Some(vec![
            Some(IndexEntry {
                term: Some("art".to_string()),
                fields: Some(vec![FieldEntry {
                    field_id: "1".to_string(),
                    freqs: Some(freqs(&[("0", 1)])),
                    ds: None,
                }]),
            }),
            Some(IndexEntry {
                term: Some("zen".to_string()),
                fields: Some(vec![FieldEntry {
                    field_id: "0".to_string(),
                    freqs: Some(freqs(&[("0", 1)])),
                    ds: None,
                }]),
            }),
        ]),
    }
}

#[test]
fn load_reads_back_what_was_written() {
    let mut source = engine();
    source.add(&document(1, "zen", "art")).unwrap();
    let averages = vec!["1".to_string(), "1".to_string()];
    let loaded = Engine::load(
        &parts(),
        vec!["title".to_string(), "text".to_string()],
        vec!["title".to_string()],
        Tokenizer::new().unwrap(),
    )
    .unwrap();
    assert!(loaded.has(&number_id(1).key));
    assert_eq!(loaded.document_count(), 1);
    // Entries are inserted in the order they are listed and walked in
    // reverse, so the two terms come back in swapped order.
    let written = source.to_json_string(&averages);
    let swapped = written.replace(
        "[\"art\",{\"1\":{\"0\":1}}],[\"zen\",{\"0\":{\"0\":1}}]",
        "[\"zen\",{\"0\":{\"0\":1}}],[\"art\",{\"1\":{\"0\":1}}]",
    );
    assert_ne!(swapped, written);
    assert_eq!(loaded.to_json_string(&averages), swapped);
}

#[test]
fn load_refuses_malformed_indexes() {
    let fields = || vec!["title".to_string(), "text".to_string()];
    let stored = || vec!["title".to_string()];
    let load = |parts: SerializedIndex| {
        Engine::load(&parts, fields(), stored(), Tokenizer::new().unwrap())
            .err()
            .unwrap()
    };

    let mut bad_version = parts();
    bad_version.version = Some(3);
    assert_eq!(load(bad_version), EngineError::IncompatibleVersion);

    let mut bad_id = parts();
    bad_id.document_ids = Some(vec![("x".to_string(), number_id(1))]);
    assert_eq!(load(bad_id), EngineError::InvalidDocumentId);

    let mut bad_field = parts();
    bad_field.field_ids = Some(vec![("title".to_string(), None)]);
    assert_eq!(load(bad_field), EngineError::InvalidFieldId);

    let mut bad_entry = parts();
    bad_entry.index = Some(vec![None]);
    assert_eq!(load(bad_entry), EngineError::InvalidIndexEntry);

    let mut no_term = parts();
    no_term.index = Some(vec![Some(IndexEntry { term: None, fields: Some(Vec::new()) })]);
    assert_eq!(load(no_term), EngineError::InvalidIndexEntry);
}

#[test]
fn version_one_entries_nest_frequencies_in_ds() {
    let mut parts = parts();
    parts.version = Some(1);
    parts.index = Some(vec![Some(IndexEntry {
        term: Some("zen".to_string()),
        fields: Some(vec![FieldEntry {
            field_id: "0".to_string(),
            freqs: Some(freqs(&[("ds", 0)])),
            ds: Some(Some(freqs(&[("0", 3)]))),
        }]),
    })]);
    let loaded = Engine::load(
        &parts,
        vec!["title".to_string(), "text".to_string()],
        vec!["title".to_string()],
        Tokenizer::new().unwrap(),
    )
    .unwrap();
    let text = loaded.to_json_string(&Vec::new());
    assert!(text.contains("\"index\":[[\"zen\",{\"0\":{\"0\":3}}]]"));
}

#[test]
fn supported_versions_are_one_and_two() {
    assert!(supported_version(Some(1)));
    assert!(supported_version(Some(2)));
    assert!(!supported_version(Some(3)));
    assert!(!supported_version(None));
}

#[test]
fn short_ids_parse_like_unsigned_integers() {
    assert_eq!(parse_short_id("0"), Ok(0));
    assert_eq!(parse_short_id("+42"), Ok(42));
    assert_eq!(parse_short_id("007"), Ok(7));
    assert_eq!(parse_short_id("4294967295"), Ok(u32::MAX));
    assert_eq!(parse_short_id("4294967296"), Err(EngineError::InvalidDocumentId));
    assert_eq!(parse_short_id(""), Err(EngineError::InvalidDocumentId));
    assert_eq!(parse_short_id("+"), Err(EngineError::InvalidDocumentId));
    assert_eq!(parse_short_id("-1"), Err(EngineError::InvalidDocumentId));
    assert_eq!(parse_short_id("1a"), Err(EngineError::InvalidDocumentId));
}

#[test]
fn term_matches_count_matching_documents() {
    let mut engine = engine();
    engine.add(&document(1, "zen", "zen zen")).unwrap();
    engine.add(&document(2, "art", "zen")).unwrap();
    let fields = vec!["text".to_string(), "title".to_string()];
    let (matches, warnings) = engine.term_matches("zen", &fields);
    assert!(warnings.is_empty());
    let summary: Vec<(usize, u32, u32, u32, u32)> = matches
        .iter()
        .map(|m| (m.field_position, m.doc_id, m.term_freq, m.matching, m.field_length))
        .collect();
    assert_eq!(
        summary,
        vec![(0, 0, 2, 2, 1), (0, 1, 1, 2, 1), (1, 0, 1, 1, 1)]
    );
}

#[test]
fn searching_removes_references_to_discarded_documents() {
    let mut engine = engine();
    engine.add(&document(1, "zen", "a")).unwrap();
    engine.add(&document(2, "zen", "b")).unwrap();
    engine.discard(&number_id(1).key).unwrap();
    let fields = vec!["title".to_string()];
    let (matches, _) = engine.term_matches("zen", &fields);
    // The discarded document still counted when the live one was scored.
    assert_eq!(matches.len(), 1);
    assert_eq!(matches[0].doc_id, 1);
    assert_eq!(matches[0].matching, 1);
    let (matches, _) = engine.term_matches("zen", &fields);
    assert_eq!(matches[0].matching, 1);
}

#[test]
fn expansions_find_prefix_and_fuzzy_terms() {
    let mut engine = engine();
    engine.add(&document(1, "motorcycle moto", "mote")).unwrap();
    let found = engine.expansions("moto", true, Some(1));
    let summary: Vec<(String, usize, ExpansionKind)> = found
        .iter()
        .map(|e| (e.term.clone(), e.distance, e.kind))
        .collect();
    assert_eq!(
        summary,
        vec![
            ("motorcycle".to_string(), 6, ExpansionKind::Prefix),
            ("mote".to_string(), 1, ExpansionKind::Fuzzy),
        ]
    );
    assert!(engine.expansions("moto", false, None).is_empty());
}

#[test]
fn query_terms_are_lowercased_tokens() {
    let engine = engine();
    assert_eq!(
        engine.query_terms("Zen and the ART, of—Motorcycles!"),
        vec!["zen", "and", "the", "art", "of", "motorcycles"]
    );
}

#[test]
fn results_are_written_as_json() {
    let mut engine = engine();
    engine.add(&document(1, "zen", "art")).unwrap();
    let mut interner = Interner::new();
    let term = interner.intern("zen");
    let hits = vec![Hit {
        doc_id: 0,
        score: "1.5".to_string(),
        matches: MatchSet::new(term, term, 0),
    }];
    assert!(engine.hits_known(&hits, &interner));
    assert_eq!(
        engine.hits_to_json_string(&hits, &interner),
        "[{\"id\":1,\"score\":1.5,\"terms\":[\"zen\"],\"queryTerms\":[\"zen\"],\"match\":{\"zen\":[\"title\"]},\"title\":\"zen\"}]"
    );
    assert_eq!(engine.short_ids_in_order(), vec![0]);
    assert!(engine.has_short_id(0));
    assert!(!engine.has_short_id(1));
}

#[test]
fn serialization_lists_index_terms_in_traversal_order() {
    let mut engine = engine();
    engine.add(&document(1, "b a", "ab")).unwrap();
    let text = engine.to_json_string(&vec!["2".to_string(), "1".to_string()]);
    let index = &text[text.find("\"index\":").unwrap()..];
    let b = index.find("[\"b\"").unwrap();
    let ab = index.find("[\"ab\"").unwrap();
    let a = index.find("[\"a\"").unwrap();
    assert!(ab < a && a < b);
    engine.add(&document(2, "a", "x")).unwrap();
    let text = engine.to_json_string(&vec!["1.5".to_string(), "1".to_string()]);
    let index = &text[text.find("\"index\":").unwrap()..];
    let x = index.find("[\"x\"").unwrap();
    let b = index.find("[\"b\"").unwrap();
    let ab = index.find("[\"ab\"").unwrap();
    let a = index.find("[\"a\"").unwrap();
    assert!(x < ab && ab < a && a < b);
}

#[test]
fn vacuum_orders_the_index_as_removal_does() {
    let averages = vec!["1".to_string(), "1".to_string()];
    let mut vacuumed = engine();
    let mut removed = engine();
    for engine in [&mut vacuumed, &mut removed] {
        engine.add(&document(1, "ab", "b")).unwrap();
        engine.add(&document(2, "ac", "y")).unwrap();
    }
    vacuumed.discard(&number_id(2).key).unwrap();
    vacuumed.vacuum();
    removed.remove(&document(2, "ac", "y")).unwrap();
    let text = vacuumed.to_json_string(&averages);
    let index = &text[text.find("\"index\":").unwrap()..];
    let expected = removed.to_json_string(&averages);
    assert_eq!(index, &expected[expected.find("\"index\":").unwrap()..]);
    assert!(index.find("[\"ac\"").is_none());
    assert!(index.find("[\"y\"").is_none());
    assert!(index.find("[\"ab\"").is_some());
    assert!(index.find("[\"b\"").is_some());
}

#[test]
fn replace_discards_then_adds() {
    let mut engine = engine();
    engine.add(&document(1, "zen", "art")).unwrap();
    let (discarded, added) = engine.replace(&document(1, "Moby Dick", "whale")).unwrap();
    assert_eq!(discarded.len(), 2);
    assert!(discarded.iter().all(|change| !change.added));
    assert_eq!(added.len(), 2);
    assert!(added.iter().all(|change| change.added));
    assert_eq!(engine.document_count(), 1);
    assert_eq!(engine.dirt_count(), 1);
    assert!(engine.has(&number_id(1).key));
    assert_eq!(
        engine.get_stored_fields(&number_id(1).key),
        Some(vec![("title".to_string(), "\"Moby Dick\"".to_string())])
    );
    assert!(matches!(
        engine.replace(&document(2, "x", "y")),
        Err(EngineError::NotInIndex)
    ));
    let mut anonymous = document(1, "a", "b");
    anonymous.id = None;
    assert!(matches!(engine.replace(&anonymous), Err(EngineError::NotInIndex)));
    assert_eq!(engine.document_count(), 1);
}
