use hashmyfiles::compare::{
    verify_algorithm, verify_files, DiffEntry, DiskFile, FileStatus, HashOutcome, VerifyResult,
    VerifyStats,
};
use hashmyfiles::database::{HashDatabase, HashEntry};
use hashmyfiles::hasher::HashAlgorithm;

fn db_of(entries: &[(&str, &str)]) -> HashDatabase {
    HashDatabase {
        algorithm: HashAlgorithm::Sha256,
        created_at: "2024-01-01T00:00:00+0000".to_string(),
        source_path: None,
        entries: entries
            .iter()
            .map(|(h, p)| HashEntry { hash: h.to_string(), path: p.to_string() })
            .collect(),
    }
}

fn hashed(path: &str, h: &str) -> DiskFile {
    DiskFile { path: path.to_string(), outcome: HashOutcome::Hashed(h.to_string()) }
}

fn failed(path: &str, why: &str) -> DiskFile {
    DiskFile { path: path.to_string(), outcome: HashOutcome::Failed(why.to_string()) }
}

fn summary(r: &VerifyResult) -> Vec<(String, FileStatus, Option<String>, Option<String>)> {
    r.entries
        .iter()
        .map(|e| (e.path.clone(), e.status, e.old_hash.clone(), e.new_hash.clone()))
        .collect()
}

fn s(x: &str) -> Option<String> {
    Some(x.to_string())
}

#[test]
fn status_texts() {
    assert_eq!(FileStatus::Unchanged.icon(), "\u{2705}");
    assert_eq!(FileStatus::Modified.icon(), "\u{26a0}\u{fe0f}");
    assert_eq!(FileStatus::Missing.icon(), "\u{274c}");
    assert_eq!(FileStatus::New.icon(), "\u{1f195}");
    assert_eq!(FileStatus::Unchanged.label(), "Unchanged");
    assert_eq!(FileStatus::Modified.label(), "Modified");
    assert_eq!(FileStatus::Missing.label(), "Missing");
    assert_eq!(FileStatus::New.label(), "New");
    assert_eq!(FileStatus::Unchanged.css_class(), "diff-unchanged");
    assert_eq!(FileStatus::Modified.css_class(), "diff-modified");
    assert_eq!(FileStatus::Missing.css_class(), "diff-missing");
    assert_eq!(FileStatus::New.css_class(), "diff-new");
}

#[test]
fn verify_classifies_each_kind() {
    let db = db_of(&[("h1", "/r/same"), ("h2", "/r/changed"), ("h3", "/r/gone")]);
    let disk = vec![hashed("/r/same", "h1"), hashed("/r/changed", "zz"), hashed("/r/fresh", "h4")];
    let r = verify_files(&db, &disk);
    assert_eq!(
        summary(&r),
        vec![
            ("/r/gone".to_string(), FileStatus::Missing, s("h3"), None),
            ("/r/changed".to_string(), FileStatus::Modified, s("h2"), s("zz")),
            ("/r/fresh".to_string(), FileStatus::New, None, s("h4")),
            ("/r/same".to_string(), FileStatus::Unchanged, s("h1"), s("h1")),
        ]
    );
    assert_eq!(r.stats.total, 4);
    assert_eq!(r.stats.unchanged, 1);
    assert_eq!(r.stats.modified, 1);
    assert_eq!(r.stats.missing, 1);
    assert_eq!(r.stats.new_files, 1);
    assert_eq!(r.stats.errors, 0);
    assert!(r.errors.is_empty());
}

#[test]
fn verify_sorts_by_status_then_path() {
    let db = db_of(&[("x", "/b"), ("x", "/a"), ("x", "/c/z"), ("y", "/c/y")]);
    let disk = vec![hashed("/c/z", "x"), hashed("/c/y", "y"), hashed("/n2", "q"), hashed("/n1", "q")];
    let r = verify_files(&db, &disk);
    let order: Vec<(String, FileStatus)> = r.entries.iter().map(|e| (e.path.clone(), e.status)).collect();
    assert_eq!(
        order,
        vec![
            ("/a".to_string(), FileStatus::Missing),
            ("/b".to_string(), FileStatus::Missing),
            ("/n1".to_string(), FileStatus::New),
            ("/n2".to_string(), FileStatus::New),
            ("/c/y".to_string(), FileStatus::Unchanged),
            ("/c/z".to_string(), FileStatus::Unchanged),
        ]
    );
}

#[test]
fn verify_orders_paths_by_components() {
    // Path order compares components, so "/a/b" comes before "/a-b"
    // although '-' sorts before '/' as a character.
    let db = db_of(&[]);
    let disk = vec![hashed("/a-b", "1"), hashed("/a/b", "2")];
    let r = verify_files(&db, &disk);
    let order: Vec<String> = r.entries.iter().map(|e| e.path.clone()).collect();
    assert_eq!(order, vec!["/a/b".to_string(), "/a-b".to_string()]);
}

#[test]
fn verify_uses_last_hash_of_repeated_path() {
    let db = db_of(&[("old", "/f"), ("newer", "/f")]);
    let r = verify_files(&db, &vec![hashed("/f", "newer")]);
    assert_eq!(summary(&r), vec![("/f".to_string(), FileStatus::Unchanged, s("newer"), s("newer"))]);
}

#[test]
fn verify_reports_repeated_missing_path_once() {
    let db = db_of(&[("h1", "/m"), ("h2", "/m")]);
    let r = verify_files(&db, &vec![]);
    assert_eq!(summary(&r), vec![("/m".to_string(), FileStatus::Missing, s("h2"), None)]);
    assert_eq!(r.stats.missing, 1);
}

#[test]
fn verify_matches_equal_paths_written_differently() {
    // "/d//f" and "/d/f/" name the same path.
    let db = db_of(&[("h", "/d//f")]);
    let r = verify_files(&db, &vec![hashed("/d/f/", "h")]);
    assert_eq!(summary(&r), vec![("/d/f/".to_string(), FileStatus::Unchanged, s("h"), s("h"))]);
}

#[test]
fn verify_lists_errors_and_skipped() {
    let db = db_of(&[("h", "/e")]);
    let disk = vec![
        failed("/e", "permission denied"),
        DiskFile { path: "/s".to_string(), outcome: HashOutcome::Skipped },
    ];
    let r = verify_files(&db, &disk);
    // A file that could not be hashed is still on disk: not Missing.
    assert!(r.entries.is_empty());
    assert_eq!(r.errors, vec![("/e".to_string(), "permission denied".to_string())]);
    assert_eq!(r.stats.errors, 1);
    assert_eq!(r.stats.total, 0);
}

#[test]
fn verify_empty_inputs() {
    let r = verify_files(&db_of(&[]), &vec![]);
    assert!(r.entries.is_empty());
    assert_eq!(r.stats.total, 0);
}

#[test]
fn verify_algorithm_override() {
    let db = db_of(&[]);
    assert_eq!(verify_algorithm(&db, None), HashAlgorithm::Sha256);
    assert_eq!(verify_algorithm(&db, Some(HashAlgorithm::Blake3)), HashAlgorithm::Blake3);
}

fn small_result() -> VerifyResult {
    VerifyResult {
        entries: vec![
            DiffEntry {
                path: "/gone".to_string(),
                status: FileStatus::Missing,
                old_hash: s("aa"),
                new_hash: None,
            },
            DiffEntry {
                path: "/x,y".to_string(),
                status: FileStatus::Modified,
                old_hash: s("bb"),
                new_hash: s("cc"),
            },
        ],
        stats: VerifyStats { total: 2, unchanged: 0, modified: 1, missing: 1, new_files: 0, errors: 0 },
        errors: vec![],
    }
}

#[test]
fn report_text() {
    let r = small_result();
    assert_eq!(
        r.report_for("2024-01-02T03:04:05"),
        "# hashmyfiles verification report\n\
         # 2024-01-02T03:04:05: 0 unchanged, 1 modified, 1 missing, 0 new\n\
         #\n\
         \u{274c} [Missing]  /gone\n  old: aa\n\
         \u{26a0}\u{fe0f} [Modified]  /x,y\n  old: bb\n  new: cc\n"
    );
}

#[test]
fn export_txt_has_header() {
    let t = small_result().export_txt();
    assert!(t.starts_with("# hashmyfiles verification report\n# "));
    assert!(t.ends_with("  new: cc\n"));
}

#[test]
fn result_csv_bytes() {
    let bytes = small_result().export_csv().unwrap();
    assert_eq!(
        String::from_utf8(bytes).unwrap(),
        "path,status,old_hash,new_hash\n/gone,Missing,aa,\n\"/x,y\",Modified,bb,cc\n"
    );
}

#[test]
fn as_map_keeps_last_hash_per_path() {
    let db = db_of(&[("h1", "/a"), ("h2", "/b"), ("h3", "/a/")]);
    let m = db.as_map();
    assert_eq!(m.get("/a"), Some("h3"));
    assert_eq!(m.get("//a"), Some("h3"));
    assert_eq!(m.get("/b"), Some("h2"));
    assert_eq!(m.get("/c"), None);
    assert_eq!(m.get(""), None);
}

#[test]
fn verify_many_files() {
    let n = 300;
    let entries: Vec<(String, String)> =
        (0..n).map(|i| (format!("h{}", i), format!("/d/f{:04}", i))).collect();
    let refs: Vec<(&str, &str)> = entries.iter().map(|(h, p)| (h.as_str(), p.as_str())).collect();
    let db = db_of(&refs);
    let mut disk: Vec<DiskFile> = Vec::new();
    for i in (0..n).rev() {
        if i % 3 == 0 {
            continue;
        }
        let h = if i % 5 == 0 { "changed".to_string() } else { format!("h{}", i) };
        disk.push(hashed(&format!("/d/f{:04}", i), &h));
    }
    disk.push(hashed("/d/extra", "x"));
    let r = verify_files(&db, &disk);
    let missing = (0..n).filter(|i| i % 3 == 0).count();
    let modified = (0..n).filter(|i| i % 3 != 0 && i % 5 == 0).count();
    assert_eq!(r.stats.missing, missing);
    assert_eq!(r.stats.modified, modified);
    assert_eq!(r.stats.new_files, 1);
    assert_eq!(r.stats.unchanged, n - missing - modified);
    assert_eq!(r.stats.total, n + 1);
    assert_eq!(r.entries[0].path, "/d/f0000");
    assert_eq!(r.entries[0].status, FileStatus::Missing);
}

#[test]
fn export_txt_stamp_shape() {
    let t = small_result().export_txt();
    let line = t.lines().nth(1).unwrap();
    let stamp = &line[2..line.find(": ").unwrap()];
    let b = stamp.as_bytes();
    assert_eq!(b.len(), 19);
    assert_eq!((b[4], b[7], b[10], b[13], b[16]), (b'-', b'-', b'T', b':', b':'));
}
