use pdf_scanner::filter::is_target_file;
use pdf_scanner::filter::keep_entry;

#[test]
fn target_extension_matches_case_insensitively() {
    assert!(is_target_file("report.pdf"));
    assert!(is_target_file("REPORT.PDF"));
    assert!(is_target_file("archive.PdF"));
    assert!(is_target_file("a.b.pdf"));
}

#[test]
fn non_target_extensions_are_skipped() {
    assert!(!is_target_file("y.txt"));
    assert!(!is_target_file("pdf"));
    assert!(!is_target_file("x.pdfx"));
    assert!(!is_target_file("x.pd"));
    assert!(!is_target_file("a."));
    assert!(!is_target_file(""));
}

#[test]
fn hidden_file_without_extension_is_skipped() {
    assert!(!is_target_file(".pdf"));
    assert!(is_target_file(".hidden.pdf"));
}

#[test]
fn hidden_and_excluded_directories_are_pruned() {
    assert!(!keep_entry(".trash"));
    assert!(!keep_entry(".cache"));
    assert!(!keep_entry("Android"));
    assert!(!keep_entry("data"));
}

#[test]
fn ordinary_directories_are_kept() {
    assert!(keep_entry("Documents"));
    assert!(keep_entry("android"));
    assert!(keep_entry("Data"));
    assert!(keep_entry(""));
    assert!(keep_entry("trash."));
}
