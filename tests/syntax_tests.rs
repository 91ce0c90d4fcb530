use file_scanner_engine::commands::{batches, match_filters, SearchResult};
use file_scanner_engine::search_syntax::{SearchFilters, SearchSyntaxParser};

const NOW: u64 = 1_700_000_000;

fn row(name: &str, path: &str, size: u64, mtime: u64) -> SearchResult {
    SearchResult {
        filename: name.to_string(),
        fullpath: path.to_string(),
        size,
        mtime,
        is_dir: false,
    }
}

#[test]
fn parses_keyword_ext_and_size() {
    let (kw, f) = SearchSyntaxParser::parse("invoice ext:pdf,docx size:>1mb", NOW);
    assert_eq!(kw, "invoice");
    assert_eq!(f.ext, vec!["pdf".to_string(), "docx".to_string()]);
    assert_eq!(f.size_min, 1_048_576);
    assert_eq!(f.size_max, 0);
    assert_eq!(f.date_after, None);
    assert_eq!(f.path, "");
    assert_eq!(f.name_pattern, "");
}

#[test]
fn size_gb_matches_strictly_larger() {
    let (kw, f) = SearchSyntaxParser::parse("size:>1gb", NOW);
    assert_eq!(kw, "");
    assert_eq!(f.size_min, 1_073_741_824);
    assert!(!SearchSyntaxParser::match_item(&row("a", "C:\\a", 1_073_741_824, 0), &f));
    assert!(SearchSyntaxParser::match_item(&row("a", "C:\\a", 1_073_741_825, 0), &f));
    assert!(!SearchSyntaxParser::match_item(&row("a", "C:\\a", 10, 0), &f));
}

#[test]
fn sizes_with_fractions_and_upper_bounds() {
    let (_, f) = SearchSyntaxParser::parse("SIZE:>1.5MB size:<2.25kb", NOW);
    assert_eq!(f.size_min, 1_572_864);
    assert_eq!(f.size_max, 2304);
    let (_, g) = SearchSyntaxParser::parse("size:>1.1kb", NOW);
    assert_eq!(g.size_min, 1126);
    let (kw, h) = SearchSyntaxParser::parse("size:>10tb", NOW);
    assert_eq!(h.size_min, 0);
    assert_eq!(kw, "size >10tb");
    let (_, big) = SearchSyntaxParser::parse("size:>99999999999999999999gb", NOW);
    assert_eq!(big.size_min, u64::MAX);
}

#[test]
fn date_week_includes_three_days_ago_and_yesterday_excludes_it() {
    let three_days_ago = NOW - 3 * 86_400;
    let item = row("a.txt", "C:\\a.txt", 1, three_days_ago);
    let (_, week) = SearchSyntaxParser::parse("dm:week", NOW);
    assert_eq!(week.date_after, Some(NOW - 7 * 86_400));
    assert!(match_filters(&item, &week));
    let (_, yesterday) = SearchSyntaxParser::parse("dm:yesterday", NOW);
    assert_eq!(yesterday.date_after, Some(NOW - NOW % 86_400 - 86_400));
    assert!(!match_filters(&item, &yesterday));
}

#[test]
fn date_keywords_and_relative_forms() {
    let day_start = NOW - NOW % 86_400;
    assert_eq!(SearchSyntaxParser::parse("dm:TODAY", NOW).1.date_after, Some(day_start));
    assert_eq!(SearchSyntaxParser::parse("dm:month", NOW).1.date_after, Some(NOW - 30 * 86_400));
    assert_eq!(
        SearchSyntaxParser::parse("dm:year", NOW).1.date_after,
        Some(NOW - NOW % (365 * 86_400))
    );
    assert_eq!(SearchSyntaxParser::parse("dm:12h", NOW).1.date_after, Some(NOW - 12 * 3600));
    assert_eq!(SearchSyntaxParser::parse("dm:30m", NOW).1.date_after, Some(NOW - 1800));
    assert_eq!(SearchSyntaxParser::parse("dm:2d", NOW).1.date_after, Some(NOW - 2 * 86_400));
    assert_eq!(SearchSyntaxParser::parse("dm:soon", NOW).1.date_after, None);
    assert_eq!(SearchSyntaxParser::parse("dm:today", 100).1.date_after, Some(0));
    assert_eq!(SearchSyntaxParser::parse("dm:week", 100).1.date_after, Some(0));
}

#[test]
fn path_and_name_directives() {
    let (kw, f) = SearchSyntaxParser::parse("report path:\"C:\\Program Files\" name:final", NOW);
    assert_eq!(kw, "report");
    assert_eq!(f.path, "C:\\Program Files");
    assert_eq!(f.name_pattern, "final");
    let (kw2, g) = SearchSyntaxParser::parse("PATH:D:\\docs  notes", NOW);
    assert_eq!(kw2, "notes");
    assert_eq!(g.path, "D:\\docs");
    let yes = row("Final_Report.pdf", "c:\\program files\\x\\Final_Report.pdf", 1, 0);
    let no = row("draft.pdf", "C:\\Program Files\\draft.pdf", 1, 0);
    assert!(match_filters(&yes, &f));
    assert!(!match_filters(&no, &f));
}

#[test]
fn keyword_whitespace_is_squashed() {
    let (kw, f) = SearchSyntaxParser::parse("  big \t  data ext:CSV  ", NOW);
    assert_eq!(kw, "big data");
    assert_eq!(f.ext, vec!["csv".to_string()]);
    let (kw2, f2) = SearchSyntaxParser::parse("ext:,a,,b, x", NOW);
    assert_eq!(kw2, "x");
    assert_eq!(f2.ext, vec!["a".to_string(), "b".to_string()]);
}

#[test]
fn reparsing_a_plain_keyword_gives_no_filters() {
    let (kw, _) = SearchSyntaxParser::parse("budget ext:xlsx size:<5mb dm:week 2024", NOW);
    assert_eq!(kw, "budget 2024");
    let (kw2, f2) = SearchSyntaxParser::parse(&kw, NOW);
    assert_eq!(kw2, kw);
    assert!(f2.ext.is_empty());
    assert_eq!(f2.size_min, 0);
    assert_eq!(f2.size_max, 0);
    assert_eq!(f2.date_after, None);
    assert!(f2.path.is_empty() && f2.name_pattern.is_empty());
}

#[test]
fn reparse_of_a_spliced_keyword_finds_nothing() {
    let (kw, f) = SearchSyntaxParser::parse("extext:a:pdf", NOW);
    assert_eq!(f.ext, vec!["a".to_string()]);
    assert_eq!(kw, "ext pdf");
    let (kw2, again) = SearchSyntaxParser::parse(&kw, NOW);
    assert_eq!(kw2, kw);
    assert!(again.ext.is_empty());
    let (kw3, g) = SearchSyntaxParser::parse("epath:\"a b\"xt:pdf dm:", NOW);
    assert_eq!(g.path, "a b");
    assert_eq!(kw3, "ext pdf dm");
    let (kw4, h) = SearchSyntaxParser::parse(&kw3, NOW);
    assert_eq!(kw4, kw3);
    assert!(h.ext.is_empty() && h.path.is_empty());
}

#[test]
fn extension_filter_uses_last_dot() {
    let f = SearchFilters {
        ext: vec!["hidden".to_string(), "".to_string()],
        ..SearchFilters::default()
    };
    assert!(match_filters(&row(".hidden", "C:\\.hidden", 1, 0), &f));
    assert!(match_filters(&row("noext", "C:\\noext", 1, 0), &f));
    assert!(match_filters(&row("trailing.", "C:\\trailing.", 1, 0), &f));
    let g = SearchFilters { ext: vec!["gz".to_string()], ..SearchFilters::default() };
    assert!(match_filters(&row("a.tar.GZ", "C:\\a.tar.GZ", 1, 0), &g));
    assert!(!match_filters(&row("a.tar", "C:\\a.tar", 1, 0), &g));
}

#[test]
fn apply_filters_keeps_order() {
    let (_, f) = SearchSyntaxParser::parse("ext:txt size:<100kb", NOW);
    let rows = vec![
        row("a.txt", "C:\\a.txt", 10, 0),
        row("b.doc", "C:\\b.doc", 10, 0),
        row("c.txt", "C:\\c.txt", 200_000, 0),
        row("d.TXT", "C:\\d.TXT", 5, 0),
    ];
    let kept = SearchSyntaxParser::apply_filters(rows, &f);
    let names: Vec<&str> = kept.iter().map(|r| r.filename.as_str()).collect();
    assert_eq!(names, vec!["a.txt", "d.TXT"]);
}

#[test]
fn batches_split_rows_in_order() {
    let rows: Vec<SearchResult> =
        (0..250).map(|i| row(&format!("f{}", i), "C:\\f", i as u64, 0)).collect();
    let b = batches(rows, 100);
    assert_eq!(b.iter().map(|x| x.len()).collect::<Vec<_>>(), vec![100, 100, 50]);
    assert_eq!(b[2][49].filename, "f249");
    assert!(batches(Vec::new(), 100).is_empty());
}

#[test]
fn csv_quotes_and_numbers() {
    let rows = vec![row("say \"hi\".txt", "C:\\a,b\\say \"hi\".txt", 1024, 0), row("z", "C:\\z", 7, 1_700_000_000)];
    let text = file_scanner_engine::export::csv_text(&rows);
    assert_eq!(
        text,
        "\u{FEFF}Filename,Size,Modified Time,Full Path\n\"say \"\"hi\"\".txt\",1024,0,\"C:\\a,b\\say \"\"hi\"\".txt\"\n\"z\",7,1700000000,\"C:\\z\"\n"
    );
    assert_eq!(file_scanner_engine::export::csv_text(&Vec::new()).len(), 3 + 38);
}

#[test]
fn keyword_matching_for_walks() {
    assert!(file_scanner_engine::commands::keyword_matches("Report.PDF", "report"));
    assert!(file_scanner_engine::commands::keyword_matches("x", ""));
    assert!(!file_scanner_engine::commands::keyword_matches("notes.txt", "report"));
}
