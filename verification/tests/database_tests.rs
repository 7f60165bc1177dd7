use hashmyfiles::database::{
    default_output_filename, last_creation_time, output_filename_for, DbError, HashDatabase,
    HashEntry,
};
use hashmyfiles::hasher::HashAlgorithm;

fn entry(hash: &str, path: &str) -> HashEntry {
    HashEntry { hash: hash.to_string(), path: path.to_string() }
}

fn sample_db() -> HashDatabase {
    HashDatabase {
        algorithm: HashAlgorithm::Sha256,
        created_at: "2024-05-01T10:20:30+0200".to_string(),
        source_path: None,
        entries: vec![
            entry(&"a".repeat(64), "/home/u/one.txt"),
            entry(&"b".repeat(64), "/home/u/dir with spaces/two.txt"),
        ],
    }
}

#[test]
fn new_database_is_empty() {
    let db = HashDatabase::new(HashAlgorithm::Blake3);
    assert_eq!(db.algorithm, HashAlgorithm::Blake3);
    assert!(db.entries.is_empty());
    assert!(db.source_path.is_none());
}

#[test]
fn save_txt_writes_header_and_lines() {
    let text = sample_db().save_txt();
    let expected = format!(
        "# hashmyfiles v1.0\n# algorithm=sha256\n# created=2024-05-01T10:20:30+0200\n# entries=2\n#\n{}  /home/u/one.txt\n{}  /home/u/dir with spaces/two.txt\n",
        "a".repeat(64),
        "b".repeat(64)
    );
    assert_eq!(text, expected);
}

#[test]
fn save_txt_of_empty_database() {
    let db = HashDatabase {
        algorithm: HashAlgorithm::Sha512,
        created_at: "T".to_string(),
        source_path: None,
        entries: vec![],
    };
    assert_eq!(
        db.save_txt(),
        "# hashmyfiles v1.0\n# algorithm=sha512\n# created=T\n# entries=0\n#\n"
    );
}

#[test]
fn save_then_load_round_trip() {
    let db = sample_db();
    let text = db.save_txt();
    let back = HashDatabase::load_txt(&text, "/tmp/db.txt").unwrap();
    assert_eq!(back.algorithm, db.algorithm);
    assert_eq!(back.entries.len(), 2);
    for (a, b) in back.entries.iter().zip(db.entries.iter()) {
        assert_eq!(a.hash, b.hash);
        assert_eq!(a.path, b.path);
    }
    assert_eq!(back.source_path.as_deref(), Some("/tmp/db.txt"));
}

#[test]
fn round_trip_keeps_blake3() {
    let mut db = sample_db();
    db.algorithm = HashAlgorithm::Blake3;
    let back = HashDatabase::load_txt(&db.save_txt(), "x").unwrap();
    assert_eq!(back.algorithm, HashAlgorithm::Blake3);
}

#[test]
fn load_rejects_text_without_magic_or_entries() {
    assert_eq!(HashDatabase::load_txt("", "x").unwrap_err(), DbError::NotADatabase);
    assert_eq!(
        HashDatabase::load_txt("just some words\n# comment\n", "x").unwrap_err(),
        DbError::NotADatabase
    );
}

#[test]
fn load_accepts_magic_without_entries() {
    let db = HashDatabase::load_txt("# hashmyfiles v1.0\n", "x").unwrap();
    assert!(db.entries.is_empty());
    assert_eq!(db.algorithm, HashAlgorithm::Sha256);
}

#[test]
fn load_without_header_detects_algorithm() {
    let text = format!("{}  /a\n{}  /b\n", "c".repeat(128), "d".repeat(64));
    let db = HashDatabase::load_txt(&text, "x").unwrap();
    assert_eq!(db.algorithm, HashAlgorithm::Sha512);
    assert_eq!(db.entries.len(), 2);
    assert_eq!(db.entries[0].path, "/a");
}

#[test]
fn load_skips_lines_without_double_space() {
    let text = "# hashmyfiles v1.0\nabc /no/second/space\n\n   \nabc  /yes\n";
    let db = HashDatabase::load_txt(text, "x").unwrap();
    assert_eq!(db.entries.len(), 1);
    assert_eq!(db.entries[0].hash, "abc");
    assert_eq!(db.entries[0].path, "/yes");
}

#[test]
fn load_trims_hash_and_path() {
    let text = "abc    /p q  \r\n";
    let db = HashDatabase::load_txt(text, "x").unwrap();
    assert_eq!(db.entries[0].hash, "abc");
    assert_eq!(db.entries[0].path, "/p q");
}

#[test]
fn load_splits_at_first_double_space() {
    // A line that starts with two spaces has an empty hash.
    let db = HashDatabase::load_txt("  abc  /p\n", "x").unwrap();
    assert_eq!(db.entries[0].hash, "");
    assert_eq!(db.entries[0].path, "abc  /p");
}

#[test]
fn load_reads_algorithm_header_ignoring_case() {
    let text = "# hashmyfiles v1.0\n# algorithm= BLAKE3 \nabc  /x\n";
    let db = HashDatabase::load_txt(text, "x").unwrap();
    assert_eq!(db.algorithm, HashAlgorithm::Blake3);
}

#[test]
fn load_unknown_algorithm_falls_back_to_length() {
    let text = format!("# algorithm=md5\n{}  /x\n", "e".repeat(128));
    let db = HashDatabase::load_txt(&text, "x").unwrap();
    assert_eq!(db.algorithm, HashAlgorithm::Sha512);
}

#[test]
fn load_unknown_algorithm_and_length_defaults_to_sha256() {
    let db = HashDatabase::load_txt("# algorithm=md5\nabc  /x\n", "x").unwrap();
    assert_eq!(db.algorithm, HashAlgorithm::Sha256);
}

#[test]
fn export_csv_bytes() {
    let db = HashDatabase {
        algorithm: HashAlgorithm::Sha256,
        created_at: "2024-01-02T03:04:05+0000".to_string(),
        source_path: None,
        entries: vec![entry("abc", "/x"), entry("def", "/a,b")],
    };
    let bytes = db.export_csv().unwrap();
    assert_eq!(
        String::from_utf8(bytes).unwrap(),
        "hash,path,algorithm,created\n\
         abc,/x,sha256,2024-01-02T03:04:05+0000\n\
         def,\"/a,b\",sha256,2024-01-02T03:04:05+0000\n"
    );
}

#[test]
fn output_filename_shape() {
    assert_eq!(output_filename_for("20240102_030405"), "hash_20240102_030405.txt");
    let name = default_output_filename(HashAlgorithm::Sha256);
    assert!(name.starts_with("hash_"));
    assert!(name.ends_with(".txt"));
    assert_eq!(name.len(), "hash_YYYYMMDD_HHMMSS.txt".len());
}

#[test]
fn load_converts_created_time_to_local_zone() {
    // No time zone is 13 h 59 min ahead, so the local rendering differs.
    let text = "# hashmyfiles v1.0\n# created=2024-05-01T10:20:30+1359\n";
    let db = HashDatabase::load_txt(text, "x").unwrap();
    assert_ne!(db.created_at, "2024-05-01T10:20:30+1359");
    assert_eq!(db.created_at.len(), "2024-05-01T10:20:30+0000".len());
    assert_eq!(&db.created_at[10..11], "T");
}

fn is_timestamp_shape(t: &str) -> bool {
    let b = t.as_bytes();
    let n = b.len();
    n == 24
        && b[..4].iter().all(|c| c.is_ascii_digit())
        && b[4] == b'-'
        && b[7] == b'-'
        && b[10] == b'T'
        && b[13] == b':'
        && b[16] == b':'
        && (b[19] == b'+' || b[19] == b'-')
        && [5, 6, 8, 9, 11, 12, 14, 15, 17, 18, 20, 21, 22, 23].iter().all(|&i| b[i].is_ascii_digit())
}

#[test]
fn new_database_creation_time_shape() {
    let db = HashDatabase::new(HashAlgorithm::Sha256);
    assert!(is_timestamp_shape(&db.created_at), "{}", db.created_at);
}

#[test]
fn load_without_created_line_uses_current_time() {
    let db = HashDatabase::load_txt("# hashmyfiles v1.0\n", "x").unwrap();
    assert!(is_timestamp_shape(&db.created_at), "{}", db.created_at);
    let db = HashDatabase::load_txt("# created=not a time\nabc  /x\n", "x").unwrap();
    assert!(is_timestamp_shape(&db.created_at), "{}", db.created_at);
}

#[test]
fn default_filename_stamp_shape() {
    let name = default_output_filename(HashAlgorithm::Blake3);
    let stamp = &name["hash_".len()..name.len() - ".txt".len()];
    let b = stamp.as_bytes();
    assert_eq!(b.len(), 15);
    assert_eq!(b[8], b'_');
    assert!(b.iter().enumerate().all(|(i, c)| i == 8 || c.is_ascii_digit()));
}

#[test]
fn creation_time_is_last_present() {
    let t = |x: &str| Some(x.to_string());
    assert_eq!(last_creation_time(vec![t("a"), None, t("b"), None]), t("b"));
    assert_eq!(last_creation_time(vec![t("a"), None]), t("a"));
    assert_eq!(last_creation_time(vec![None, None]), None);
    assert_eq!(last_creation_time(vec![]), None);
}
