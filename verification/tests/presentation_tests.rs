use hashmyfiles::compare::{DiffEntry, FileStatus, VerifyStats};
use hashmyfiles::hasher::HashAlgorithm;
use hashmyfiles::presentation::{
    algorithm_for_choice, expand_home, file_name_or_empty, filter_lines, parse_exclude_patterns,
    stats_summary, trunc,
};

fn line(path: &str, status: FileStatus) -> DiffEntry {
    DiffEntry { path: path.to_string(), status, old_hash: None, new_hash: None }
}

#[test]
fn trunc_long_digest() {
    assert_eq!(trunc("0123456789abcdef0123456789abcdef"), "01234567\u{2026}89abcdef");
    assert_eq!(trunc("0123456789abcdefg"), "01234567\u{2026}9abcdefg");
}

#[test]
fn trunc_short_digest_unchanged() {
    assert_eq!(trunc("0123456789abcdef"), "0123456789abcdef");
    assert_eq!(trunc(""), "");
}

#[test]
fn filter_by_search_and_status() {
    let lines = vec![
        line("/Home/Docs/a.txt", FileStatus::New),
        line("/home/b.txt", FileStatus::Missing),
        line("/srv/docs.bin", FileStatus::New),
    ];
    assert_eq!(filter_lines(&lines, "", None), vec![0, 1, 2]);
    assert_eq!(filter_lines(&lines, "DOCS", None), vec![0, 2]);
    assert_eq!(filter_lines(&lines, "docs", Some(FileStatus::New)), vec![0, 2]);
    assert_eq!(filter_lines(&lines, "", Some(FileStatus::Missing)), vec![1]);
    assert_eq!(filter_lines(&lines, "nothing", None), Vec::<usize>::new());
}

#[test]
fn summary_line() {
    let st = VerifyStats { total: 10, unchanged: 5, modified: 2, missing: 1, new_files: 2, errors: 3 };
    assert_eq!(
        stats_summary(&st),
        "Total: 10   \u{2705} 5   \u{26a0}\u{fe0f} 2   \u{274c} 1   \u{1f195} 2   Errors: 3"
    );
}

#[test]
fn algorithm_choice() {
    assert_eq!(algorithm_for_choice(0), HashAlgorithm::Sha256);
    assert_eq!(algorithm_for_choice(1), HashAlgorithm::Sha512);
    assert_eq!(algorithm_for_choice(2), HashAlgorithm::Blake3);
    assert_eq!(algorithm_for_choice(99), HashAlgorithm::Blake3);
}

#[test]
fn exclude_pattern_list() {
    assert_eq!(
        parse_exclude_patterns(" *.tmp, .git ,,node_modules, "),
        vec!["*.tmp".to_string(), ".git".to_string(), "node_modules".to_string()]
    );
    assert_eq!(parse_exclude_patterns(""), Vec::<String>::new());
    assert_eq!(parse_exclude_patterns("one"), vec!["one".to_string()]);
}

#[test]
fn home_expansion() {
    assert_eq!(expand_home("~/docs", "/home/u"), "/home/u/docs");
    assert_eq!(expand_home("  ~/docs  ", "/home/u"), "/home/u/docs");
    assert_eq!(expand_home("~", "/home/u"), "/home/u");
    assert_eq!(expand_home("/etc", "/home/u"), "/etc");
    assert_eq!(expand_home("~other", "/home/u"), "~other");
}

#[test]
fn file_names() {
    assert_eq!(file_name_or_empty("/home/u/file.txt"), "file.txt");
    assert_eq!(file_name_or_empty("/home/u/dir/"), "dir");
    assert_eq!(file_name_or_empty("/"), "");
    assert_eq!(file_name_or_empty("a/.."), "");
    assert_eq!(file_name_or_empty(""), "");
}
