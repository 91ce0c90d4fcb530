use file_scanner_engine::blob::{decode_blob, encode_blob};
use file_scanner_engine::persist::header_for;
use file_scanner_engine::search_index::{IndexedItem, SearchIndex};

fn item(name: &str, path: &str, file_ref: u64, size: u64) -> IndexedItem {
    IndexedItem {
        name: name.to_string(),
        name_lower: name.to_lowercase(),
        path: path.to_string(),
        file_ref,
        parent_ref: 0,
        size,
        is_dir: false,
        mtime: 0,
    }
}

fn refs(items: &[IndexedItem]) -> Vec<u64> {
    let mut r: Vec<u64> = items.iter().map(|i| i.file_ref).collect();
    r.sort();
    r
}

#[test]
fn test_prefix_search() {
    let mut index = SearchIndex::new();
    let items = vec![
        IndexedItem {
            name: "test.txt".to_string(),
            name_lower: "test.txt".to_string(),
            path: "C:\\test.txt".to_string(),
            file_ref: 1,
            parent_ref: 0,
            size: 100,
            is_dir: false,
            mtime: 0,
        },
        IndexedItem {
            name: "testing.doc".to_string(),
            name_lower: "testing.doc".to_string(),
            path: "C:\\testing.doc".to_string(),
            file_ref: 2,
            parent_ref: 0,
            size: 200,
            is_dir: false,
            mtime: 0,
        },
    ];
    index.build(items);
    let results = index.search_prefix("test", 10);
    assert_eq!(results.len(), 2);
}

#[test]
fn test_contains_search() {
    let mut index = SearchIndex::new();
    let items = vec![IndexedItem {
        name: "my_test_file.txt".to_string(),
        name_lower: "my_test_file.txt".to_string(),
        path: "C:\\my_test_file.txt".to_string(),
        file_ref: 1,
        parent_ref: 0,
        size: 100,
        is_dir: false,
        mtime: 0,
    }];
    index.build(items);
    let results = index.search_contains("test", 10);
    assert_eq!(results.len(), 1);
}

#[test]
fn test_extension_search() {
    let mut index = SearchIndex::new();
    let items = vec![
        IndexedItem {
            name: "file1.txt".to_string(),
            name_lower: "file1.txt".to_string(),
            path: "C:\\file1.txt".to_string(),
            file_ref: 1,
            parent_ref: 0,
            size: 100,
            is_dir: false,
            mtime: 0,
        },
        IndexedItem {
            name: "file2.doc".to_string(),
            name_lower: "file2.doc".to_string(),
            path: "C:\\file2.doc".to_string(),
            file_ref: 2,
            parent_ref: 0,
            size: 200,
            is_dir: false,
            mtime: 0,
        },
    ];
    index.build(items);
    let results = index.search_by_extension("txt", 10);
    assert_eq!(results.len(), 1);
}

#[test]
fn contains_is_case_insensitive_scenario() {
    let mut index = SearchIndex::new();
    index.build(vec![
        item("Report.pdf", "C:\\Report.pdf", 42, 1),
        item("report_final.PDF", "C:\\report_final.PDF", 43, 2),
        item("notes.txt", "C:\\notes.txt", 44, 3),
    ]);
    let results = index.search_contains("report", 10);
    assert_eq!(refs(&results), vec![42, 43]);
    let upper = index.search_contains("REPORT", 10);
    assert_eq!(refs(&upper), vec![42, 43]);
}

#[test]
fn name_lower_is_recomputed_on_build() {
    let mut index = SearchIndex::new();
    let mut raw = item("MiXeD.TXT", "C:\\MiXeD.TXT", 7, 1);
    raw.name_lower = String::new();
    index.build(vec![raw]);
    let results = index.search_contains("mixed", 10);
    assert_eq!(results.len(), 1);
    assert_eq!(results[0].name_lower, "mixed.txt");
}

#[test]
fn prefix_search_finds_every_match_and_only_matches() {
    let mut index = SearchIndex::new();
    index.build(vec![
        item("Alpha.txt", "C:\\Alpha.txt", 1, 1),
        item("alphabet.doc", "C:\\alphabet.doc", 2, 1),
        item("beta_alpha.txt", "C:\\beta_alpha.txt", 3, 1),
    ]);
    let results = index.search_prefix("ALP", 100);
    assert_eq!(refs(&results), vec![1, 2]);
    let none = index.search_prefix("zzz", 100);
    assert!(none.is_empty());
}

#[test]
fn removed_reference_is_not_found() {
    let mut index = SearchIndex::new();
    index.build(vec![
        item("data1.csv", "C:\\data1.csv", 10, 1),
        item("data2.csv", "C:\\data2.csv", 11, 1),
    ]);
    assert!(index.remove_file(10));
    assert!(!index.remove_file(10));
    let results = index.search_contains("data", usize::MAX);
    assert_eq!(refs(&results), vec![11]);
    assert_eq!(index.item_count(), 1);
    assert!(index.search_prefix("data1", 10).is_empty());
    assert!(index.search_by_extension("csv", 10).iter().all(|i| i.file_ref != 10));
}

#[test]
fn re_adding_a_reference_replaces_the_old_item() {
    let mut index = SearchIndex::new();
    index.build(vec![item("old_name.txt", "C:\\old_name.txt", 5, 1)]);
    index.add_file(item("new_name.txt", "C:\\new_name.txt", 5, 2));
    assert_eq!(index.item_count(), 1);
    assert!(index.search_contains("old_name", 10).is_empty());
    assert_eq!(index.search_contains("new_name", 10).len(), 1);
}

#[test]
fn remove_by_path_normalises_slashes_and_case() {
    let mut index = SearchIndex::new();
    index.build(vec![item("new.txt", "C:\\X\\new.txt", 20, 1)]);
    assert!(index.remove_file_by_path("c:/x/NEW.txt"));
    assert!(index.search_contains("new", usize::MAX).is_empty());
    assert!(!index.remove_file_by_path("c:/x/NEW.txt"));
}

#[test]
fn long_keyword_finds_nothing() {
    let mut index = SearchIndex::new();
    index.build(vec![item("a.txt", "C:\\a.txt", 1, 1), item("bb.txt", "C:\\bb.txt", 2, 1)]);
    assert!(index.search_contains("bb.txt-and-more", usize::MAX).is_empty());
}

#[test]
fn results_are_truncated_to_max() {
    let mut index = SearchIndex::new();
    let mut items = Vec::new();
    for i in 0..25u64 {
        items.push(item(&format!("log{}.txt", i), &format!("C:\\log{}.txt", i), i + 1, i));
    }
    index.build(items);
    assert_eq!(index.search_contains("log", 10).len(), 10);
    assert_eq!(index.search_contains("log", 0).len(), 0);
    assert_eq!(index.search_prefix("log", 7).len(), 7);
    assert_eq!(index.search_by_extension("TXT", 3).len(), 3);
    assert_eq!(index.search_contains("log", 100).len(), 25);
}

#[test]
fn mtime_range_is_inclusive_and_skips_tombstones() {
    let mut index = SearchIndex::new();
    let mut a = item("a.txt", "C:\\a.txt", 1, 1);
    a.mtime = 100;
    let mut b = item("b.txt", "C:\\b.txt", 2, 1);
    b.mtime = 200;
    let mut c = item("c.txt", "C:\\c.txt", 3, 1);
    c.mtime = 300;
    index.build(vec![a, b, c]);
    assert_eq!(refs(&index.search_by_mtime_range(100, 200, 10)), vec![1, 2]);
    index.remove_file(2);
    assert_eq!(refs(&index.search_by_mtime_range(100, 300, 10)), vec![1, 3]);
}

#[test]
fn dirty_flag_follows_mutation_and_save() {
    let mut index = SearchIndex::new();
    assert!(!index.is_dirty());
    index.build(vec![item("a.txt", "C:\\a.txt", 1, 1)]);
    assert!(index.is_dirty());
    index.mark_saved();
    assert!(!index.is_dirty());
    assert!(!index.remove_file(99));
    assert!(!index.is_dirty());
    index.remove_file(1);
    assert!(index.is_dirty());
}

#[test]
fn save_then_load_keeps_live_items() {
    let mut index = SearchIndex::new();
    index.build(vec![
        item("Keep.txt", "C:\\Keep.txt", 1, 10),
        item("gone.txt", "C:\\gone.txt", 2, 20),
        item("also.TXT", "C:\\dir\\also.TXT", 3, 30),
    ]);
    index.remove_file(2);
    let header = header_for(b'C', 77);
    let bytes = encode_blob(&header, &index.persisted_items());
    let (h, items) = decode_blob(&bytes).expect("blob decodes");
    assert_eq!(h, header);
    let mut loaded = SearchIndex::new();
    loaded.load_items(items);
    assert!(!loaded.is_dirty());
    assert_eq!(loaded.item_count(), 2);
    let found = loaded.search_contains("", usize::MAX);
    let names: Vec<&str> = found.iter().map(|i| i.name.as_str()).collect();
    assert_eq!(names, vec!["Keep.txt", "also.TXT"]);
    assert_eq!(found[1].path, "C:\\dir\\also.TXT");
    assert_eq!(found[1].size, 30);
    assert_eq!(found[0].name_lower, "keep.txt");
}

#[test]
fn corrupt_blob_is_rejected() {
    let header = header_for(b'D', 5);
    let bytes = encode_blob(&header, &vec![item("x.txt", "D:\\x.txt", 1, 1)]);
    assert!(decode_blob(&bytes[..bytes.len() - 1]).is_none());
    let mut extra = bytes.clone();
    extra.push(0);
    assert!(decode_blob(&extra).is_none());
    assert!(decode_blob(&[1, 2, 3]).is_none());
    assert_eq!(bytes.len(), 21 + 8 + 5 + 8 + 8 + 33);
}

#[test]
fn unicode_names_are_case_folded() {
    let mut index = SearchIndex::new();
    index.build(vec![item("Änderung.TXT", "C:\\Änderung.TXT", 1, 1), item("other", "C:\\other", 2, 1)]);
    assert_eq!(refs(&index.search_contains("äNDER", 10)), vec![1]);
    assert_eq!(refs(&index.search_prefix("ÄN", 10)), vec![1]);
    assert_eq!(refs(&index.search_by_extension("txt", 10)), vec![1]);
}

#[test]
fn names_without_a_dot_have_the_empty_extension() {
    let mut index = SearchIndex::new();
    index.build(vec![item("README", "C:\\README", 1, 1), item("report.pdf", "C:\\report.pdf", 2, 1), item("end.", "C:\\end.", 3, 1)]);
    assert_eq!(refs(&index.search_by_extension("", 10)), vec![1, 3]);
    assert_eq!(refs(&index.search_by_extension("PDF", 10)), vec![2]);
}

#[test]
fn empty_path_removes_nothing() {
    let mut index = SearchIndex::new();
    index.build(vec![item("a.txt", "", 1, 1), item("b.txt", "C:\\b.txt", 2, 1)]);
    assert!(!index.remove_file_by_path(""));
    assert_eq!(index.item_count(), 2);
    index.remove_file(2);
    assert!(!index.remove_file_by_path(""));
    assert_eq!(index.item_count(), 1);
}
