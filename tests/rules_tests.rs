use file_scanner_engine::filter::{is_in_allowed_paths, should_skip_dir, should_skip_ext, should_skip_path};
use file_scanner_engine::rules::{
    build_skip_dirs_set, build_skip_exts_set, is_cad_path, is_recycle_bin_path, should_skip_ext_fast,
};
use file_scanner_engine::changes::join;
use file_scanner_engine::text::extension;

#[test]
fn test_skip_ext_fast() {
    let skip_exts = build_skip_exts_set();
    assert!(should_skip_ext_fast("test.dll", &skip_exts));
    assert!(should_skip_ext_fast("test.DLL", &skip_exts));
    assert!(should_skip_ext_fast("test.tmp", &skip_exts));
    assert!(!should_skip_ext_fast("test.pdf", &skip_exts));
    assert!(!should_skip_ext_fast("noext", &skip_exts));
}

#[test]
fn test_is_recycle_bin() {
    assert!(is_recycle_bin_path("C:\\$Recycle.Bin\\test.txt"));
    assert!(is_recycle_bin_path("D:\\$RECYCLE.BIN\\file"));
    assert!(!is_recycle_bin_path("C:\\Users\\test.txt"));
}

#[test]
fn test_is_cad_path() {
    assert!(is_cad_path("autocad_2021"));
    assert!(is_cad_path("cad2020"));
    assert!(is_cad_path("tangent"));
    assert!(!is_cad_path("documents"));
}

#[test]
fn skip_ext_fast_edges() {
    let skip_exts = build_skip_exts_set();
    assert!(should_skip_ext_fast("archive.tar.LOCK", &skip_exts));
    assert!(!should_skip_ext_fast("x.verylongextension", &skip_exts));
    assert!(!should_skip_ext_fast("trailing.", &skip_exts));
    assert!(should_skip_ext_fast(".db", &skip_exts));
    assert!(should_skip_ext_fast("a.lsp_bak", &skip_exts));
}

#[test]
fn scan_dir_rules() {
    let dirs = build_skip_dirs_set();
    assert!(dirs.contains("node_modules"));
    assert!(!dirs.contains("Node_Modules"));
    assert!(!dirs.contains("$recycle.bin"));
    assert!(file_scanner_engine::rules::should_skip_dir("windows", &dirs));
    assert!(file_scanner_engine::rules::should_skip_dir("my_tangent_files", &dirs));
    assert!(!file_scanner_engine::rules::should_skip_dir("projects", &dirs));
    assert!(is_cad_path("AutoCAD_2024"));
    assert!(!is_cad_path("cad2030"));
}

#[test]
fn filter_dir_rules() {
    assert!(should_skip_dir("$recycle.bin"));
    assert!(should_skip_dir("cad2015"));
    assert!(!should_skip_dir("cad2005"));
    assert!(should_skip_dir("autocad_2021"));
    assert!(!should_skip_dir("autocad_2099"));
    assert!(should_skip_dir("tangent"));
    assert!(!should_skip_dir("music"));
}

#[test]
fn filter_path_rules() {
    assert!(should_skip_path("c:\\users\\me\\appdata\\x.txt", None));
    assert!(!should_skip_path("c:\\users\\me\\docs\\x.txt", None));
    assert!(should_skip_path("d:\\py\\lib\\site-packages2\\x", None));
    assert!(should_skip_path("d:\\work\\tangent\\x", None));
    assert!(!should_skip_path("c:\\users\\me\\appdatax\\y", None));
    let allowed = vec!["c:\\users\\me\\appdata\\keep".to_string()];
    assert!(!should_skip_path("c:\\users\\me\\appdata\\keep\\a.txt", Some(&allowed)));
    assert!(should_skip_path("c:\\users\\me\\appdata\\other\\a.txt", Some(&allowed)));
}

#[test]
fn filter_ext_and_allowed_rules() {
    assert!(should_skip_ext(".dll"));
    assert!(!should_skip_ext("dll"));
    assert!(!should_skip_ext(".pdf"));
    let allowed = vec!["c:\\users".to_string(), "d:\\".to_string()];
    assert!(is_in_allowed_paths("c:\\users\\me", &allowed));
    assert!(is_in_allowed_paths("d:\\", &allowed));
    assert!(!is_in_allowed_paths("e:\\users", &allowed));
}

#[test]
fn extension_extraction() {
    assert_eq!(extension("noext"), "");
    assert_eq!(extension("trailing."), "");
    assert_eq!(extension(".hidden"), "hidden");
    assert_eq!(extension("a.b.TXT"), "TXT");
    assert_eq!(join("C:\\", "a.txt"), "C:\\a.txt");
    assert_eq!(join("C:\\X\\\\", "b"), "C:\\X\\b");
}
