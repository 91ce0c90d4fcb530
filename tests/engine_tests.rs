use file_scanner_engine::index_engine::{IndexedFile, SearchFilters, SearchIndex};

fn file(name: &str, ext: &str, size: u64, is_dir: bool) -> IndexedFile {
    IndexedFile {
        name: name.to_string(),
        path: format!("C:\\{}", name),
        size,
        mtime: 0,
        is_dir,
        extension: ext.to_string(),
    }
}

fn no_filters() -> SearchFilters {
    SearchFilters { ext: None, size_min: None, size_max: None, only_dir: None }
}

#[test]
fn every_keyword_must_match() {
    let mut idx = SearchIndex::new();
    idx.add_file(file("Annual Report 2023.pdf", "pdf", 10, false));
    idx.add_file(file("report.txt", "txt", 10, false));
    idx.add_file(file("annual.txt", "txt", 10, false));
    let kws = vec!["REPORT".to_string(), "annual".to_string()];
    let r = idx.search(&kws, &no_filters());
    assert_eq!(r.len(), 1);
    assert_eq!(r[0].name, "Annual Report 2023.pdf");
    assert!(idx.search(&[], &no_filters()).is_empty());
}

#[test]
fn simple_filters() {
    let mut idx = SearchIndex::new();
    idx.add_file(file("a.PDF", "PDF", 100, false));
    idx.add_file(file("b.doc", ".doc", 200, false));
    idx.add_file(file("c", "", 300, true));
    let ext = SearchFilters { ext: Some(vec!["pdf".to_string(), "doc".to_string()]), ..no_filters() };
    let names: Vec<String> = idx.search(&["".to_string()], &ext).into_iter().map(|f| f.name).collect();
    assert_eq!(names, vec!["a.PDF".to_string(), "b.doc".to_string()]);
    let sized = SearchFilters { size_min: Some(100), size_max: Some(200), ..no_filters() };
    assert_eq!(idx.search(&["".to_string()], &sized).len(), 2);
    let dirs = SearchFilters { only_dir: Some(true), ..no_filters() };
    assert_eq!(idx.search(&["".to_string()], &dirs)[0].name, "c");
    let any = SearchFilters { only_dir: Some(false), ..no_filters() };
    assert_eq!(idx.search(&["".to_string()], &any).len(), 3);
}

#[test]
fn results_stop_at_a_thousand_and_stats_count() {
    let mut idx = SearchIndex::new();
    for i in 0..1200u64 {
        idx.add_file(file(&format!("f{}.txt", i), "txt", i, i % 2 == 0));
    }
    assert_eq!(idx.search(&["f".to_string()], &no_filters()).len(), 1000);
    let stats = idx.get_stats();
    assert_eq!(stats.total_files, 1200);
    assert_eq!(stats.total_dirs, 600);
    assert_eq!(stats.total_size, 1199 * 1200 / 2);
    let mut big = SearchIndex::new();
    big.add_file(file("x", "", u64::MAX, false));
    big.add_file(file("y", "", 5, false));
    assert_eq!(big.get_stats().total_size, u64::MAX);
}
