use ferrosearch::engine::{Document, DocumentId, Engine};
use ferrosearch::js::{json_string_to, push_decimal, push_separator, IdKey};
use ferrosearch::options::{parse_combine, Combine, Prefix};
use ferrosearch::search::{combine_plan, Interner, MatchSet};
use ferrosearch::text::{chars_of, string_of};
use ferrosearch::tokens::{process_term, Tokenizer};

#[test]
fn json_strings_escape_like_json_stringify() {
    let mut out = String::from("x=");
    json_string_to(&mut out, "a\"b\\c\nd\u{1}é");
    assert_eq!(out, "x=\"a\\\"b\\\\c\\nd\\u0001é\"");
    let mut plain = String::new();
    json_string_to(&mut plain, "zen");
    assert_eq!(plain, "\"zen\"");
    let mut controls = String::new();
    json_string_to(&mut controls, "\u{8}\u{c}\t\r\u{1f}");
    assert_eq!(controls, r#""\b\f\t\r\u001f""#);
}

#[test]
fn decimals_and_separators() {
    let mut out = String::new();
    push_decimal(&mut out, 0);
    push_separator(&mut out, 1);
    push_decimal(&mut out, 4_294_967_296);
    push_separator(&mut out, 0);
    assert_eq!(out, "0,4294967296");
}

#[test]
fn id_key_copies_are_equal() {
    let keys = vec![
        IdKey::Num(1.5f64.to_bits()),
        IdKey::Str("1".to_string()),
        IdKey::Bool(true),
        IdKey::Null,
        IdKey::Other("[object Object]".to_string()),
    ];
    for key in &keys {
        assert_eq!(&key.copy(), key);
    }
    assert_ne!(keys[0], IdKey::Num(1.0f64.to_bits()));
}

#[test]
fn tokens_split_on_space_and_punctuation() {
    let tokenizer = Tokenizer::new().unwrap();
    assert_eq!(tokenizer.tokenize("Zen and the Art"), vec!["Zen", "and", "the", "Art"]);
    let (terms, distinct) = tokenizer.terms("The art, the ART!");
    assert_eq!(terms, vec!["the", "art", "the", "art"]);
    // "The", "art", "the", "ART" and the empty token after "!".
    assert_eq!(distinct, 5);
}

#[test]
fn process_term_drops_empty_tokens_and_lowercases() {
    assert_eq!(process_term(""), None);
    assert_eq!(process_term("zen"), Some("zen".to_string()));
    assert_eq!(process_term("ÉTÉ"), Some("été".to_string()));
}

#[test]
fn interner_gives_ids_in_order() {
    let mut interner = Interner::new();
    assert_eq!(interner.intern("zen"), 0);
    assert_eq!(interner.intern("art"), 1);
    assert_eq!(interner.intern("zen"), 0);
    assert_eq!(interner.term_count(), 2);
    assert_eq!(interner.resolve(1), "art");
}

#[test]
fn match_sets_merge_terms_and_fields() {
    let mut set = MatchSet::new(0, 3, 1);
    set.add_term(0);
    set.add_term(2);
    set.add_match(3, 0);
    set.add_match(4, 1);
    assert_eq!(set.terms(), &vec![0, 2]);
    let matches: Vec<(u16, Vec<u32>)> = set.matches().clone();
    assert_eq!(matches, vec![(3, vec![1, 0]), (4, vec![1])]);
    let empty = MatchSet::empty();
    assert!(empty.terms().is_empty() && empty.matches().is_empty());
}

#[test]
fn prefix_applies_to_all_terms_or_the_last() {
    assert!(Prefix::Enabled(true).applies(0, 3));
    assert!(!Prefix::Enabled(false).applies(2, 3));
    assert!(!Prefix::LastTerm.applies(1, 3));
    assert!(Prefix::LastTerm.applies(2, 3));
}

#[test]
fn combine_names_ignore_case() {
    assert_eq!(parse_combine("OR"), Some(Combine::Or));
    assert_eq!(parse_combine("and"), Some(Combine::And));
    assert_eq!(parse_combine("And_Not"), Some(Combine::AndNot));
    assert_eq!(parse_combine("xor"), None);
    assert_eq!(parse_combine(""), None);
}

#[test]
fn chars_round_trip() {
    let chars = chars_of("zén");
    assert_eq!(chars, vec!['z', 'é', 'n']);
    assert_eq!(string_of(&chars), "zén");
}

fn engine_over(fields: &[&str]) -> Engine {
    Engine::new(
        fields.iter().map(|f| f.to_string()).collect(),
        Vec::new(),
        Tokenizer::new().unwrap(),
    )
}

fn doc(n: u32, texts: &[&str]) -> Document {
    Document {
        id: Some(DocumentId { key: IdKey::Num((n as f64).to_bits()), json: n.to_string() }),
        texts: texts.iter().map(|t| Some(t.to_string())).collect(),
        stored: Vec::new(),
    }
}

#[test]
fn adding_then_removing_leaves_the_index_as_it_was() {
    let mut engine = engine_over(&["a", "b"]);
    engine.add(&doc(1, &["x y", "y z"])).unwrap();
    let before = engine.to_json_string(&vec!["2".to_string(), "2".to_string()]);
    engine.add(&doc(2, &["w y y", "v"])).unwrap();
    let (changes, warnings) = engine.remove(&doc(2, &["w y y", "v"])).unwrap();
    assert!(warnings.is_empty());
    assert_eq!(changes.len(), 2);
    assert_eq!((changes[0].count, changes[0].length, changes[0].added), (2, 2, false));
    let after = engine.to_json_string(&vec!["2".to_string(), "2".to_string()]);
    assert_eq!(after.replace("\"nextId\":2", "\"nextId\":1"), before);
}

#[test]
fn added_documents_are_contained_and_removed_ones_are_not() {
    let mut engine = engine_over(&["a"]);
    let one = doc(1, &["x"]);
    let two = doc(2, &["y"]);
    engine.add(&one).unwrap();
    engine.add(&two).unwrap();
    assert!(engine.has(&one.id.as_ref().unwrap().key));
    assert!(engine.has(&two.id.as_ref().unwrap().key));
    engine.remove(&one).unwrap();
    assert!(!engine.has(&one.id.as_ref().unwrap().key));
    assert!(engine.has(&two.id.as_ref().unwrap().key));
    engine.discard(&two.id.as_ref().unwrap().key).unwrap();
    assert!(!engine.has(&two.id.as_ref().unwrap().key));
    assert_eq!(engine.document_count(), 0);
    assert_eq!(engine.dirt_count(), 1);
}

#[test]
fn searching_after_a_vacuum_leaves_the_index_alone() {
    let mut engine = engine_over(&["a"]);
    engine.add(&doc(1, &["zen art"])).unwrap();
    engine.add(&doc(2, &["zen"])).unwrap();
    engine.discard(&IdKey::Num(1.0f64.to_bits())).unwrap();
    engine.vacuum();
    let averages = vec!["1".to_string()];
    let before = engine.to_json_string(&averages);
    let fields = vec!["a".to_string()];
    for term in ["zen", "art", "none"] {
        let (_, warnings) = engine.term_matches(term, &fields);
        assert!(warnings.is_empty());
    }
    assert_eq!(engine.to_json_string(&averages), before);
    assert_eq!(engine.term_count(), 1);
}

#[test]
fn combining_takes_union_intersection_or_difference() {
    let first = vec![5, 1, 9];
    let second = vec![9, 7, 5];
    assert_eq!(
        combine_plan(&first, &second, Combine::Or),
        vec![
            (5, Some(0), Some(2)),
            (1, Some(1), None),
            (9, Some(2), Some(0)),
            (7, None, Some(1)),
        ]
    );
    assert_eq!(
        combine_plan(&first, &second, Combine::And),
        vec![(9, Some(2), Some(0)), (5, Some(0), Some(2))]
    );
    assert_eq!(combine_plan(&first, &second, Combine::AndNot), vec![(1, Some(1), None)]);
    assert!(combine_plan(&Vec::new(), &second, Combine::And).is_empty());
}

#[test]
fn merging_match_sets_adds_terms_and_replaces_fields() {
    let mut set = MatchSet::new(0, 3, 1);
    let mut other = MatchSet::new(1, 3, 2);
    other.add_term(0);
    other.add_match(4, 0);
    set.merge(&other);
    assert_eq!(set.terms(), &vec![0, 1]);
    let matches: Vec<(u16, Vec<u32>)> = set.matches().clone();
    assert_eq!(matches, vec![(3, vec![2]), (4, vec![0])]);
}

#[test]
fn vacuum_keeps_the_references_of_indexed_documents() {
    let mut engine = engine_over(&["a"]);
    engine.add(&doc(1, &["zen art"])).unwrap();
    engine.add(&doc(2, &["zen"])).unwrap();
    engine.discard(&IdKey::Num(1.0f64.to_bits())).unwrap();
    engine.vacuum();
    assert_eq!(
        engine.to_json_string(&vec!["1".to_string()]),
        "{\"documentCount\":1,\"nextId\":2,\"documentIds\":{\"1\":2},\"fieldIds\":{\"a\":0},\
         \"fieldLength\":{\"1\":[1]},\"averageFieldLength\":[1],\"storedFields\":{},\
         \"dirtCount\":0,\"index\":[[\"zen\",{\"0\":{\"1\":1}}]],\"serializationVersion\":2}"
    );
}

#[test]
fn a_second_vacuum_changes_nothing() {
    let mut engine = engine_over(&["a"]);
    engine.add(&doc(1, &["zen art"])).unwrap();
    engine.add(&doc(2, &["zen craft"])).unwrap();
    engine.discard(&IdKey::Num(2.0f64.to_bits())).unwrap();
    let terms = engine.term_count();
    engine.vacuum();
    assert!(engine.term_count() <= terms);
    let once = engine.to_json_string(&vec!["2".to_string()]);
    engine.vacuum();
    assert_eq!(engine.to_json_string(&vec!["2".to_string()]), once);
}
