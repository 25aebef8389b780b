use puffin::index::{hash_filename, FileId, FileIds, Index, MAX_SIZE};
use puffin::query::QueryNode;
use puffin::sstable::SSTable;
use std::collections::BTreeSet;

fn names(index: &Index, q: &str) -> BTreeSet<String> {
    index
        .search(QueryNode::new(q).unwrap())
        .iter()
        .map(|d| d.filename.clone())
        .collect()
}

fn set(xs: &[&str]) -> BTreeSet<String> {
    xs.iter().map(|s| s.to_string()).collect()
}

fn sample() -> Index {
    let mut index = Index::new();
    assert!(index.add_document("a.txt", "merchant profile").unwrap().is_some());
    assert!(index.add_document("b.txt", "merchant business").unwrap().is_some());
    assert!(index.add_document("c.txt", "business only").unwrap().is_some());
    index
}

#[test]
fn boolean_queries_select_files() {
    let index = sample();
    assert_eq!(names(&index, "merchant"), set(&["a.txt", "b.txt"]));
    assert_eq!(names(&index, "merchant AND business"), set(&["b.txt"]));
    assert_eq!(names(&index, "profile OR business"), set(&["a.txt", "b.txt", "c.txt"]));
    assert_eq!(names(&index, "NOT merchant"), set(&["c.txt"]));
}

#[test]
fn results_survive_a_flush() {
    let mut index = sample();
    index.flush();
    assert_eq!(names(&index, "merchant AND business"), set(&["b.txt"]));
    assert_eq!(names(&index, "NOT NOT only"), set(&["c.txt"]));
}

#[test]
fn repeated_trigram_counts_once() {
    let mut index = Index::new();
    let content = "needle\n".repeat(10);
    assert!(index.add_document("n.txt", &content).unwrap().is_some());
    let found = index.search(QueryNode::new("needle").unwrap());
    assert_eq!(found.len(), 1);
    assert_eq!(found[0].filename, "n.txt");
    assert_eq!(found[0].content, content);
    assert_eq!(found[0].file_type, "unknown");
}

#[test]
fn oversized_file_is_skipped() {
    let mut index = Index::new();
    let big = "a".repeat(MAX_SIZE + 1);
    assert_eq!(index.add_document("big.txt", &big), Ok(None));
    assert!(index.search(QueryNode::new("aaa").unwrap()).is_empty());
    assert!(index.search(QueryNode::new("NOT aaa").unwrap()).is_empty());
    let fits = "\n".repeat(MAX_SIZE);
    assert!(index.add_document("fits.txt", &fits).unwrap().is_some());
}

#[test]
fn short_terms_and_filters_match_nothing() {
    let index = sample();
    assert!(names(&index, "me").is_empty());
    assert!(names(&index, "lang:go").is_empty());
    assert!(names(&index, "/merch.*/").is_empty());
}

#[test]
fn trigrams_do_not_cross_lines() {
    let mut index = Index::new();
    assert!(index.add_document("x.txt", "ab\ncd\r\n").unwrap().is_some());
    assert!(index.search(QueryNode::new("abc").unwrap()).is_empty());
}

#[test]
fn same_path_records_twice() {
    let mut index = Index::new();
    assert!(index.add_document("p.txt", "first text").unwrap().is_some());
    assert!(index.add_document("p.txt", "second text").unwrap().is_some());
    let found = index.search(QueryNode::new("text").unwrap());
    assert_eq!(found.len(), 2);
    assert_eq!(found[0].content, "first text");
    assert_eq!(found[1].content, "second text");
}

#[test]
fn file_ids_hash_paths() {
    assert_eq!(hash_filename("src/a.rs"), hash_filename("src/a.rs"));
    assert_ne!(hash_filename("src/a.rs"), hash_filename("src/b.rs"));
}

#[test]
fn posting_lists_round_trip() {
    let mut ids = FileIds(vec![]);
    ids.insert(FileId(1));
    ids.insert(FileId(0x0102_0304_0506_0708));
    let bytes = ids.to_bytes();
    assert_eq!(bytes.len(), 16);
    assert_eq!(&bytes[8..], &[8, 7, 6, 5, 4, 3, 2, 1]);
    assert_eq!(FileIds::from_value(&Some(bytes)).unwrap().0, vec![1, 0x0102_0304_0506_0708]);
    assert!(FileIds::from_value(&Some(vec![1, 2, 3])).is_none());
    assert_eq!(FileIds::from_value(&None).unwrap().0, Vec::<u64>::new());
}

#[test]
fn index_flush_writes_a_generation_once() {
    let mut index = sample();
    let data = index.flush();
    assert!(data.is_some());
    assert_eq!(index.content_ngrams.generation_files().len(), 1);
    assert_eq!(index.content_ngrams.generation_files()[0], data.unwrap());
    assert!(index.flush().is_none());
    assert_eq!(index.content_ngrams.generation_files().len(), 1);
}

#[test]
fn store_offsets_locate_records() {
    let mut sst = SSTable::new(10);
    sst.insert("ab", vec![1, 2, 3]).unwrap();
    sst.delete("c").unwrap();
    sst.insert("de", vec![]).unwrap();
    let data = sst.flush().unwrap();
    // records: "ab" 13 + 2 + 3, "c" 13 + 1, "de" 13 + 2
    assert_eq!(sst.generation_offsets(0), &vec![0u64, 18, 32]);
    assert_eq!(data.len(), 47);
    assert_eq!(&data[18..22], &[9, 0, 0, 0]);
}
