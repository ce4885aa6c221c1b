use rusticsearch::analyzer::AnalyzerSpec;
use rusticsearch::doc::{AnalyzedDocument, DocRef, SegmentBuilder, SegmentError};
use rusticsearch::index::{FieldType, Index, FIELD_INDEXED, FIELD_STORED};
use rusticsearch::query_parser::{parse, QueryParseContext};
use rusticsearch::registry::{IndexRef, NameRegistry};
use rusticsearch::store::IndexStore;
use rusticsearch::term::Term;
use rusticsearch::term_dictionary::{TermDictionaryManager, TermSelector};
use rusticsearch::kvstore::KvStore;
use rusticsearch::value::Value;

fn obj(fields: Vec<(&str, Value)>) -> Value {
    Value::Object(fields.into_iter().map(|(k, v)| (k.to_string(), v)).collect())
}

fn text_index(field: &str) -> Index {
    let mut index = Index::new("main".to_string());
    index
        .add_field(
            field.to_string(),
            FieldType::Text,
            FIELD_INDEXED | FIELD_STORED,
            AnalyzerSpec::standard(),
        )
        .unwrap();
    index
}

fn put(index: &mut Index, key: &str, field: &str, text: &str) -> DocRef {
    let data = obj(vec![(field, Value::Str(text.to_string()))]);
    index.insert_or_update_document(key.to_string(), &data).unwrap()
}

fn run_term_query(index: &Index, field: &str, value: &str) -> Vec<(DocRef, u64)> {
    let json = obj(vec![("term", obj(vec![(field, Value::Str(value.to_string()))]))]);
    let query = parse(&QueryParseContext::new(), &json).unwrap();
    let compiled = index.compile(&query).unwrap();
    index.store.search(&compiled, 10)
}

#[test]
fn test_term_ref_found_again_after_issue() {
    // Issuing a reference for a term makes every later lookup return it.
    let mut kv = KvStore::new();
    let mut dict = TermDictionaryManager::new(&mut kv);
    let term = Term::Str("hello".to_string());
    let issued = dict.get_or_create(&mut kv, &term);
    let found = dict.get(&term).unwrap();
    assert_eq!(issued.ord(), found.ord());
    let again = dict.get_or_create(&mut kv, &term);
    assert_eq!(issued.ord(), again.ord());
}

#[test]
fn test_term_ref_survives_reopen() {
    // Reopening the dictionary from the store reports the issued reference.
    let mut kv = KvStore::new();
    let mut dict = TermDictionaryManager::new(&mut kv);
    let term = Term::Str("durable".to_string());
    let issued = dict.get_or_create(&mut kv, &term);
    let reopened = TermDictionaryManager::open(&kv);
    let found = reopened.get(&term).unwrap();
    assert_eq!(issued.ord(), found.ord());
}

#[test]
fn test_next_term_ref_exceeds_every_issued_ref() {
    let mut kv = KvStore::new();
    let mut dict = TermDictionaryManager::new(&mut kv);
    let a = dict.get_or_create(&mut kv, &Term::Str("a".to_string()));
    let b = dict.get_or_create(&mut kv, &Term::Str("b".to_string()));
    let c = dict.get_or_create(&mut kv, &Term::Str("c".to_string()));
    assert!(a.ord() < dict.next_ref_value());
    assert!(b.ord() < dict.next_ref_value());
    assert!(c.ord() < dict.next_ref_value());
}

#[test]
fn test_select_prefix_returns_matches_in_order() {
    let mut kv = KvStore::new();
    let mut dict = TermDictionaryManager::new(&mut kv);
    let apple = dict.get_or_create(&mut kv, &Term::Str("apple".to_string()));
    let apply = dict.get_or_create(&mut kv, &Term::Str("apply".to_string()));
    let apricot = dict.get_or_create(&mut kv, &Term::Str("apricot".to_string()));
    let _banana = dict.get_or_create(&mut kv, &Term::Str("banana".to_string()));

    let prefix = Term::Str("ap".to_string()).encode();
    let refs = dict.select(&TermSelector::Prefix(prefix));
    let ords: Vec<u32> = refs.iter().map(|r| r.ord()).collect();
    assert_eq!(ords, vec![apple.ord(), apply.ord(), apricot.ord()]);
}

#[test]
fn test_single_term_recall_prefers_shorter_field() {
    // Both documents hold the term; the shorter field scores higher.
    let mut index = text_index("title");
    let d1 = put(&mut index, "1", "title", "Hello World");
    let d2 = put(&mut index, "2", "title", "hello");

    let hits = run_term_query(&index, "title", "hello");
    assert_eq!(hits.len(), 2);
    assert_eq!(hits[0].0, d2);
    assert_eq!(hits[1].0, d1);
    assert!(hits[0].1 > hits[1].1);
}

#[test]
fn test_edgengram_prefix_match() {
    let mut index = Index::new("main".to_string());
    index
        .add_field(
            "title".to_string(),
            FieldType::Text,
            FIELD_INDEXED,
            AnalyzerSpec::edgengram(),
        )
        .unwrap();
    let da = {
        let data = obj(vec![("title", Value::Str("hello".to_string()))]);
        index.insert_or_update_document("a".to_string(), &data).unwrap()
    };

    let hel = {
        let json = obj(vec![("match", obj(vec![("title", Value::Str("hel".to_string()))]))]);
        let query = parse(&QueryParseContext::new(), &json).unwrap();
        let compiled = index.compile(&query).unwrap();
        index.store.search(&compiled, 10)
    };
    assert_eq!(hel.len(), 1);
    assert_eq!(hel[0].0, da);

    let ell = {
        let json = obj(vec![("match", obj(vec![("title", Value::Str("ell".to_string()))]))]);
        let query = parse(&QueryParseContext::new(), &json).unwrap();
        let compiled = index.compile(&query).unwrap();
        index.store.search(&compiled, 10)
    };
    assert_eq!(ell.len(), 0);
}

#[test]
fn test_bool_minimum_should_match() {
    let mut index = text_index("t");
    let d1 = put(&mut index, "1", "t", "a b c");
    let d2 = put(&mut index, "2", "t", "a b");
    let _d3 = put(&mut index, "3", "t", "a");

    let json = obj(vec![(
        "bool",
        obj(vec![
            (
                "should",
                Value::Array(vec![
                    obj(vec![("term", obj(vec![("t", Value::Str("a".to_string()))]))]),
                    obj(vec![("term", obj(vec![("t", Value::Str("b".to_string()))]))]),
                    obj(vec![("term", obj(vec![("t", Value::Str("c".to_string()))]))]),
                ]),
            ),
            ("minimum_should_match", Value::I64(2)),
        ]),
    )]);
    let query = parse(&QueryParseContext::new(), &json).unwrap();
    let compiled = index.compile(&query).unwrap();
    let hits = index.store.search(&compiled, 10);
    let mut got: Vec<DocRef> = hits.iter().map(|h| h.0).collect();
    got.sort_by_key(|d| d.segment);
    assert_eq!(got, vec![d1, d2]);
}

#[test]
fn test_overwrite_keeps_one_live_document() {
    let mut index = text_index("body");
    let _first = put(&mut index, "x", "body", "one");
    let second = put(&mut index, "x", "body", "two");

    let one_hits = run_term_query(&index, "body", "one");
    assert_eq!(one_hits.len(), 0);

    let two_hits = run_term_query(&index, "body", "two");
    assert_eq!(two_hits.len(), 1);
    assert_eq!(two_hits[0].0, second);
}

#[test]
fn test_deleted_document_never_comes_back() {
    let mut index = text_index("body");
    let _d = put(&mut index, "gone", "body", "vanish");
    assert!(index.store.contains_document_key(&b"gone".to_vec()));
    let removed = index.store.remove_document_by_key(&b"gone".to_vec());
    assert!(removed);
    assert!(!index.store.contains_document_key(&b"gone".to_vec()));

    let hits = run_term_query(&index, "body", "vanish");
    assert_eq!(hits.len(), 0);
}

#[test]
fn test_crash_recovery_reopens_committed_state() {
    // The dictionary entry and the committed segment survive a reopen; a
    // pending builder does not, and queries stay consistent.
    let mut index = text_index("body");
    let d1 = put(&mut index, "kept", "body", "steady");

    // A prepared but never flushed document is only in memory.
    let pending = index.prepare("lost".to_string(), &obj(vec![(
        "body",
        Value::Str("ghost".to_string()),
    )])).unwrap();
    let mut builder = SegmentBuilder::new();
    builder.add_document(pending).unwrap();

    let Index { name, mappings, store } = index;
    let store = store.reopen();
    let index = Index { name, mappings, store };

    let term = Term::Str("steady".to_string());
    assert!(index.store.term_dictionary.get(&term).is_some());

    let hits = run_term_query(&index, "body", "steady");
    assert_eq!(hits.len(), 1);
    assert_eq!(hits[0].0, d1);

    let ghost_hits = run_term_query(&index, "body", "ghost");
    assert_eq!(ghost_hits.len(), 0);
}

#[test]
fn test_segment_builder_full_at_capacity() {
    let mut builder = SegmentBuilder::new();
    for _ in 0..65535 {
        let doc = AnalyzedDocument {
            key: String::new(),
            fields: Vec::new(),
            stored: Vec::new(),
        };
        assert!(builder.add_document(doc).is_ok());
    }
    let doc = AnalyzedDocument { key: String::new(), fields: Vec::new(), stored: Vec::new() };
    assert_eq!(builder.add_document(doc), Err(SegmentError::SegmentFull));
    assert_eq!(builder.document_count(), 65535);
}

#[test]
fn test_empty_document_reserves_its_ordinal() {
    let mut index = text_index("body");
    // An empty source produces no postings but still takes an ordinal and a key.
    let d = index.insert_or_update_document("empty".to_string(), &obj(vec![])).unwrap();
    assert_eq!(d.ord, 0);
    assert!(index.store.contains_document_key(&b"empty".to_vec()));
    let hits = run_term_query(&index, "body", "anything");
    assert_eq!(hits.len(), 0);
}

#[test]
fn test_name_registry_canonical_and_aliases() {
    let mut names = NameRegistry::new();
    assert!(names.insert_canonical("idx".to_string(), IndexRef(1)).is_ok());
    assert!(names.insert_canonical("idx".to_string(), IndexRef(2)).is_err());
    assert!(names.insert_alias("nickname".to_string(), "idx".to_string()).is_ok());

    assert_eq!(names.find(&"idx".to_string()), vec![IndexRef(1)]);
    assert_eq!(names.find(&"nickname".to_string()), vec![IndexRef(1)]);
    assert_eq!(names.find_one(&"nickname".to_string()), Some(IndexRef(1)));
    assert_eq!(names.find(&"missing".to_string()), Vec::<IndexRef>::new());

    let replaced = names
        .insert_or_replace_alias("nickname".to_string(), "other".to_string())
        .unwrap();
    assert_eq!(replaced, Some("idx".to_string()));
    assert!(names.insert_or_replace_alias("idx".to_string(), "x".to_string()).is_err());

    assert!(names.delete_canonical(&"idx".to_string(), IndexRef(2)).is_err());
    assert!(names.delete_canonical(&"idx".to_string(), IndexRef(1)).is_ok());
    assert_eq!(names.find(&"idx".to_string()), Vec::<IndexRef>::new());
}

#[test]
fn test_stored_field_read_back() {
    let mut index = text_index("title");
    let _d = put(&mut index, "doc", "title", "Hello World");
    let bytes = index.store.get_stored_field(&b"doc".to_vec(), 0).unwrap();
    assert_eq!(bytes, b"Hello World".to_vec());
}

#[test]
fn test_store_survives_reopen_for_new_writes() {
    // The reopened store keeps issuing fresh segment ids past what was
    // persisted.
    let store = IndexStore::create();
    let first_next = store.next_segment_id_value();
    let store = store.reopen();
    assert!(store.next_segment_id_value() >= first_next);
}

#[test]
fn test_positions_codec_round_trip() {
    let positions: Vec<u32> = vec![1, 2, 101, 4_000_000_000];
    let bytes = rusticsearch::keys::enc_positions_exec(&positions);
    assert_eq!(bytes.len(), 16);
    let back = rusticsearch::keys::dec_positions_exec(&bytes).unwrap();
    assert_eq!(back, positions);
    assert!(rusticsearch::keys::dec_positions_exec(&vec![1, 2, 3]).is_none());
}

#[test]
fn test_bool_must_not_excludes_documents() {
    let mut index = text_index("t");
    let d1 = put(&mut index, "1", "t", "apple pie");
    let _d2 = put(&mut index, "2", "t", "apple tart");

    let json = obj(vec![(
        "bool",
        obj(vec![
            (
                "must",
                Value::Array(vec![obj(vec![(
                    "term",
                    obj(vec![("t", Value::Str("apple".to_string()))]),
                )])]),
            ),
            (
                "must_not",
                Value::Array(vec![obj(vec![(
                    "term",
                    obj(vec![("t", Value::Str("tart".to_string()))]),
                )])]),
            ),
        ]),
    )]);
    let query = parse(&QueryParseContext::new(), &json).unwrap();
    let compiled = index.compile(&query).unwrap();
    let hits = index.store.search(&compiled, 10);
    assert_eq!(hits.len(), 1);
    assert_eq!(hits[0].0, d1);
}

#[test]
fn test_key_bindings_survive_reopen_and_removals_do_not() {
    let mut index = text_index("body");
    let d = put(&mut index, "kept", "body", "here");
    let _ = put(&mut index, "gone", "body", "there");
    assert!(index.store.remove_document_by_key(&b"gone".to_vec()));

    let Index { name, mappings, store } = index;
    let store = store.reopen();
    let index = Index { name, mappings, store };

    assert!(index.store.contains_document_key(&b"kept".to_vec()));
    assert_eq!(index.store.get_document_ref(&b"kept".to_vec()), Some(d));
    assert!(!index.store.contains_document_key(&b"gone".to_vec()));
}

#[test]
fn test_open_keeps_references_unambiguous() {
    // Two persisted entries claiming one reference: the dictionary loads
    // only one of them, so every held reference stays unambiguous.
    let mut kv = KvStore::new();
    let mut dict = TermDictionaryManager::new(&mut kv);
    let issued = dict.get_or_create(&mut kv, &Term::Str("first".to_string()));
    let mut forged_key = vec![b't'];
    forged_key.extend_from_slice(&Term::Str("second".to_string()).encode());
    kv.put(forged_key, issued.ord().to_string().into_bytes());

    let reopened = TermDictionaryManager::open(&kv);
    let first = reopened.get(&Term::Str("first".to_string()));
    let second = reopened.get(&Term::Str("second".to_string()));
    let held: Vec<u32> = [first, second].iter().flatten().map(|r| r.ord()).collect();
    assert_eq!(held, vec![issued.ord()]);
}
