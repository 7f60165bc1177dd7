use hashmyfiles::compare::{verify_files, DiskFile, FileStatus, HashOutcome};
use hashmyfiles::database::HashDatabase;
use hashmyfiles::hasher::HashAlgorithm;
use hashmyfiles::paths::components;
use hashmyfiles::scanner::{
    excluded_from_verification, finish_scan, glob_match, is_virtual_path, ScanOptions, WalkTally,
};

fn options(patterns: &[&str], skip_virtual_fs: bool) -> ScanOptions {
    ScanOptions {
        root: "/".to_string(),
        algorithm: HashAlgorithm::Sha256,
        recursive: true,
        exclude_patterns: patterns.iter().map(|p| p.to_string()).collect(),
        skip_virtual_fs,
    }
}

fn comps(p: &str) -> Vec<String> {
    components(p).into_iter().map(|c| c.into_iter().collect()).collect()
}

#[test]
fn glob_star_matches_everything() {
    assert!(glob_match("*", ""));
    assert!(glob_match("*", "anything"));
}

#[test]
fn glob_extension() {
    assert!(glob_match("*.log", "app.log"));
    assert!(glob_match("*.log", ".log"));
    assert!(!glob_match("*.log", "app.log.gz"));
    assert!(!glob_match("*.log", "applog"));
    assert!(glob_match("*.", "name."));
}

#[test]
fn glob_exact() {
    assert!(glob_match("node_modules", "node_modules"));
    assert!(!glob_match("node_modules", "node_modules2"));
    assert!(!glob_match("a*b", "axxb"));
}

#[test]
fn path_components_like_std() {
    assert_eq!(comps("/home//user/./file.txt"), vec!["/", "home", "user", "file.txt"]);
    assert_eq!(comps("./a/../b/"), vec![".", "a", "..", "b"]);
    assert_eq!(comps("a/."), vec!["a"]);
    assert_eq!(comps(""), Vec::<String>::new());
    assert_eq!(comps("//"), vec!["/"]);
}

#[test]
fn virtual_paths() {
    assert!(is_virtual_path("/proc"));
    assert!(is_virtual_path("/proc/1/status"));
    assert!(is_virtual_path("/var/run/x"));
    assert!(!is_virtual_path("/processes"));
    assert!(!is_virtual_path("/home/proc"));
    assert!(!is_virtual_path("proc"));
}

#[test]
fn scan_options_virtual_fs_switch() {
    assert!(options(&[], true).is_virtual_fs("/sys/kernel"));
    assert!(!options(&[], false).is_virtual_fs("/sys/kernel"));
}

#[test]
fn scan_exclusion_by_name_component_and_text() {
    let o = options(&["*.tmp", " .git ", "", "cache"], false);
    assert!(o.matches_exclusion("/w/file.tmp"));
    assert!(o.matches_exclusion("/w/.git/config"));
    assert!(o.matches_exclusion("/w/mycache.bin"));
    assert!(!o.matches_exclusion("/w/file.txt"));
    assert!(!options(&["", "  "], false).matches_exclusion("/anything"));
}

#[test]
fn verification_exclusion_has_no_text_match() {
    let pats = vec!["cache".to_string()];
    assert!(!excluded_from_verification("/w/mycache.bin", false, &pats));
    assert!(excluded_from_verification("/w/cache/x", false, &pats));
    assert!(excluded_from_verification("/dev/null", true, &vec![]));
    assert!(!excluded_from_verification("/dev/null", false, &vec![]));
}

#[test]
fn walk_tally_takes_files_and_counts_skips() {
    let o = options(&["*.tmp"], true);
    let mut t = WalkTally::new();
    t.record_entry(&o, "/home/a.txt", true);
    t.record_entry(&o, "/home", false);
    t.record_entry(&o, "/home/b.tmp", true);
    t.record_entry(&o, "/proc/cpuinfo", true);
    t.record_error();
    assert_eq!(t.files, vec!["/home/a.txt".to_string()]);
    assert_eq!(t.skipped, 3);
}

#[test]
fn finish_scan_builds_database() {
    let outcomes = vec![
        DiskFile { path: "/a".to_string(), outcome: HashOutcome::Hashed("h1".to_string()) },
        DiskFile { path: "/b".to_string(), outcome: HashOutcome::Failed("denied".to_string()) },
        DiskFile { path: "/c".to_string(), outcome: HashOutcome::Skipped },
        DiskFile { path: "/d".to_string(), outcome: HashOutcome::Hashed("h4".to_string()) },
    ];
    let r = finish_scan(HashAlgorithm::Sha512, &outcomes, 7);
    assert_eq!(r.database.algorithm, HashAlgorithm::Sha512);
    let got: Vec<(String, String)> =
        r.database.entries.iter().map(|e| (e.hash.clone(), e.path.clone())).collect();
    assert_eq!(got, vec![("h1".to_string(), "/a".to_string()), ("h4".to_string(), "/d".to_string())]);
    assert_eq!(r.errors, vec![("/b".to_string(), "denied".to_string())]);
    assert_eq!(r.skipped, 7);
    assert!(r.database.source_path.is_none());
}

#[test]
fn verifying_own_scan_is_all_unchanged() {
    let outcomes = vec![
        DiskFile { path: "/z".to_string(), outcome: HashOutcome::Hashed("1".to_string()) },
        DiskFile { path: "/y".to_string(), outcome: HashOutcome::Hashed("2".to_string()) },
    ];
    let scan = finish_scan(HashAlgorithm::Sha256, &outcomes, 0);
    let r = verify_files(&scan.database, &outcomes);
    assert_eq!(r.stats.total, 2);
    assert_eq!(r.stats.unchanged, 2);
    assert!(r.entries.iter().all(|e| e.status == FileStatus::Unchanged && e.old_hash == e.new_hash));
}

#[test]
fn scan_save_load_verify_is_all_unchanged() {
    let outcomes = vec![
        DiskFile { path: "/data/a b.txt".to_string(), outcome: HashOutcome::Hashed("11".repeat(32)) },
        DiskFile { path: "/data/c".to_string(), outcome: HashOutcome::Failed("busy".to_string()) },
        DiskFile { path: "/data/d".to_string(), outcome: HashOutcome::Hashed("22".repeat(32)) },
    ];
    let scan = finish_scan(HashAlgorithm::Blake3, &outcomes, 0);
    let text = scan.database.save_txt();
    let back = HashDatabase::load_txt(&text, "/tmp/x.txt").unwrap();
    assert_eq!(back.algorithm, HashAlgorithm::Blake3);
    let r = verify_files(&back, &outcomes);
    assert_eq!(r.stats.unchanged, 2);
    assert_eq!(r.stats.total, 2);
    assert_eq!(r.stats.errors, 1);
}
