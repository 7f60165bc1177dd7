//! Which files a scan takes, and what a finished scan produces.

use vstd::prelude::*;
use crate::compare::{
    all_diffs, classify, disk_keys, disk_view, entry_keys, errors_view, failures, first_with,
    hashed_diffs, last_with, missing_diffs, path_key, DiffView, DiskFile, DiskView, FileStatus,
    HashOutcome, OutcomeView,
};
use crate::database::{
    database_roundtrips, database_text, entries_view, law_save_then_load, parse_text_view, DatabaseView,
    EntryView, HashDatabase, HashEntry,
};
use crate::hasher::HashAlgorithm;
use crate::paths::{components, path_components};
use crate::text::{
    chars_of, contains_chars, contains_seq, ends_with, has_prefix, has_prefix_chars,
    has_suffix_chars, starts_with, trim, trim_bounds, substring,
};

verus! {

/// Pseudo file systems that a scan of `/` skips by default: reading them
/// can hang or never end.
pub open spec fn virtual_mount_points() -> Seq<Seq<char>> {
    seq!["/proc"@, "/sys"@, "/dev"@, "/run"@, "/tmp"@, "/var/run"@]
}

/// `path` is the mount point `m` or lies below it.
pub open spec fn under_mount(path: Seq<char>, m: Seq<char>) -> bool {
    path == m || starts_with(path, m.push('/'))
}

pub open spec fn in_virtual_fs(path: Seq<char>) -> bool {
    exists|i: int| 0 <= i < virtual_mount_points().len() && under_mount(path, #[trigger] virtual_mount_points()[i])
}

/// `*` matches everything; `*.ext` matches texts ending in `.ext`; any
/// other pattern matches only itself.
pub open spec fn glob_matches(pattern: Seq<char>, text: Seq<char>) -> bool {
    if pattern == "*"@ {
        true
    } else if starts_with(pattern, "*."@) {
        ends_with(text, seq!['.'] + pattern.subrange(2, pattern.len() as int))
    } else {
        pattern == text
    }
}

/// The trimmed pattern is not empty and matches a component of the path,
/// or (with `in_text`) occurs in the path's text.
pub open spec fn pattern_excludes(pattern: Seq<char>, path: Seq<char>, in_text: bool) -> bool {
    let t = trim(pattern);
    let c = path_components(path);
    t.len() > 0 && ((exists|i: int| 0 <= i < c.len() && glob_matches(t, #[trigger] c[i])) || (
    in_text && contains_seq(path, t)))
}

pub open spec fn excluded_by(patterns: Seq<Seq<char>>, path: Seq<char>, in_text: bool) -> bool {
    exists|j: int| 0 <= j < patterns.len() && pattern_excludes(#[trigger] patterns[j], path, in_text)
}

/// Simple glob: supports `*` alone and `*.ext`, else exact text.
pub fn glob_match(pattern: &str, text: &str) -> (b: bool)
    ensures
        b == glob_matches(pattern@, text@),
{
    let p = chars_of(pattern);
    let t = chars_of(text);
    glob_match_chars(&p, &t)
}

fn glob_match_chars(p: &Vec<char>, t: &Vec<char>) -> (b: bool)
    ensures
        b == glob_matches(p@, t@),
{
    proof {
        reveal_strlit("*");
        reveal_strlit("*.");
    }
    if p.len() == 1 && p[0] == '*' {
        assert(p@ =~= "*"@);
        return true;
    }
    assert(p@ != "*"@) by {
        if p@ == "*"@ {
            assert(p@[0] == '*');
        }
    }
    if has_prefix(p, "*.") {
        let mut suffix: Vec<char> = Vec::new();
        suffix.push('.');
        let mut i: usize = 2;
        while i < p.len()
            invariant
                2 <= i <= p@.len(),
                suffix@ == seq!['.'] + p@.subrange(2, i as int),
            decreases p@.len() - i,
        {
            suffix.push(p[i]);
            assert(p@.subrange(2, i + 1) =~= p@.subrange(2, i as int).push(p@[i as int]));
            assert(suffix@ =~= seq!['.'] + p@.subrange(2, i + 1));
            i = i + 1;
        }
        return has_suffix_chars(t, &suffix);
    }
    if p.len() != t.len() {
        return false;
    }
    let mut i: usize = 0;
    while i < p.len()
        invariant
            p@.len() == t@.len(),
            p@ != "*"@,
            !starts_with(p@, "*."@),
            0 <= i <= p@.len(),
            forall|j: int| 0 <= j < i ==> p@[j] == t@[j],
        decreases p@.len() - i,
    {
        if p[i] != t[i] {
            assert(p@[i as int] != t@[i as int]);
            return false;
        }
        i = i + 1;
    }
    assert(p@ =~= t@);
    true
}

fn under_mount_exec(v: &Vec<char>, m: &str) -> (b: bool)
    ensures
        b == under_mount(v@, m@),
{
    let mut mc = chars_of(m);
    let equal = mc.len() == v.len() && has_prefix_chars(v, &mc);
    if equal {
        assert(v@.subrange(0, mc@.len() as int) =~= v@);
        return true;
    }
    assert(v@ != m@) by {
        if v@ == m@ {
            assert(v@.subrange(0, mc@.len() as int) =~= v@);
        }
    }
    mc.push('/');
    has_prefix_chars(v, &mc)
}

/// `path` lies in one of the virtual file systems.
pub fn is_virtual_path(path: &str) -> (b: bool)
    ensures
        b == in_virtual_fs(path@),
{
    let v = chars_of(path);
    let r = under_mount_exec(&v, "/proc") || under_mount_exec(&v, "/sys") || under_mount_exec(
        &v,
        "/dev",
    ) || under_mount_exec(&v, "/run") || under_mount_exec(&v, "/tmp") || under_mount_exec(
        &v,
        "/var/run",
    );
    let ghost vm = virtual_mount_points();
    assert(r == (under_mount(path@, vm[0]) || under_mount(path@, vm[1]) || under_mount(path@, vm[2])
        || under_mount(path@, vm[3]) || under_mount(path@, vm[4]) || under_mount(path@, vm[5])));
    r
}

fn pattern_excludes_exec(pattern: &String, path: &Vec<char>, comps: &Vec<Vec<char>>, in_text: bool) -> (b: bool)
    requires
        comps.deep_view() == path_components(path@),
    ensures
        b == pattern_excludes(pattern@, path@, in_text),
{
    let pc = chars_of(pattern.as_str());
    let (a, z) = trim_bounds(&pc, 0, pc.len());
    assert(pc@.subrange(0, pc@.len() as int) =~= pc@);
    let ts = substring(&pc, a, z);
    let t = chars_of(ts.as_str());
    if t.len() == 0 {
        return false;
    }
    let ghost c = path_components(path@);
    let mut i: usize = 0;
    while i < comps.len()
        invariant
            comps.deep_view() == c,
            c == path_components(path@),
            t@ == trim(pattern@),
            t@.len() > 0,
            0 <= i <= comps@.len(),
            forall|j: int| 0 <= j < i ==> !glob_matches(t@, #[trigger] c[j]),
        decreases comps@.len() - i,
    {
        assert(comps@[i as int].deep_view() =~= comps@[i as int]@);
        assert(c[i as int] == comps@[i as int].deep_view());
        if glob_match_chars(&t, &comps[i]) {
            assert(glob_matches(t@, c[i as int]));
            assert(trim(pattern@).len() > 0);
            return true;
        }
        i = i + 1;
    }
    if in_text {
        contains_chars(path, &t)
    } else {
        false
    }
}

/// Some pattern excludes `path`.
pub fn excluded_by_patterns(patterns: &Vec<String>, path: &str, in_text: bool) -> (b: bool)
    ensures
        b == excluded_by(patterns.deep_view(), path@, in_text),
{
    let v = chars_of(path);
    let comps = components(path);
    let mut j: usize = 0;
    while j < patterns.len()
        invariant
            v@ == path@,
            comps.deep_view() == path_components(path@),
            0 <= j <= patterns@.len(),
            forall|k: int| 0 <= k < j ==> !pattern_excludes(#[trigger] patterns.deep_view()[k], path@, in_text),
        decreases patterns@.len() - j,
    {
        assert(patterns.deep_view()[j as int] == patterns@[j as int]@);
        if pattern_excludes_exec(&patterns[j], &v, &comps, in_text) {
            return true;
        }
        j = j + 1;
    }
    false
}

/// Settings of a scan.
pub struct ScanOptions {
    pub root: String,
    pub algorithm: HashAlgorithm,
    pub recursive: bool,
    pub exclude_patterns: Vec<String>,
    pub skip_virtual_fs: bool,
}

impl ScanOptions {
    /// Some exclusion pattern matches the file name, a component of the
    /// path, or a part of the path's text.
    pub fn matches_exclusion(&self, path: &str) -> (b: bool)
        ensures
            b == excluded_by(self.exclude_patterns.deep_view(), path@, true),
    {
        excluded_by_patterns(&self.exclude_patterns, path, true)
    }

    /// Virtual file systems are skipped and `path` lies in one.
    pub fn is_virtual_fs(&self, path: &str) -> (b: bool)
        ensures
            b == (self.skip_virtual_fs && in_virtual_fs(path@)),
    {
        if !self.skip_virtual_fs {
            return false;
        }
        is_virtual_path(path)
    }
}

/// Whether comparing with a database skips `path`: it lies in a virtual
/// file system (when those are skipped), or a pattern matches one of its
/// components.
pub fn excluded_from_verification(path: &str, skip_virtual_fs: bool, exclude_patterns: &Vec<String>) -> (b: bool)
    ensures
        b == ((skip_virtual_fs && in_virtual_fs(path@)) || excluded_by(exclude_patterns.deep_view(), path@, false)),
{
    if skip_virtual_fs && is_virtual_path(path) {
        return true;
    }
    excluded_by_patterns(exclude_patterns, path, false)
}

/// Progress of a running scan.
#[derive(Debug, Clone)]
pub struct ScanProgress {
    pub files_scanned: u64,
    pub bytes_processed: u64,
    pub current_file: String,
    pub errors: u64,
}

/// What a finished scan produced.
#[derive(Debug)]
pub struct ScanResult {
    pub database: HashDatabase,
    /// Files that could not be hashed, with the reason.
    pub errors: Vec<(String, String)>,
    /// Walk entries skipped: walk errors, virtual file systems, exclusions.
    pub skipped: u64,
}

/// What the walk over the file tree has gathered so far.
pub struct WalkTally {
    /// Files to hash, in walk order.
    pub files: Vec<String>,
    pub skipped: u64,
}

/// The effect of one walk entry: entries in a skipped virtual file system
/// or matching an exclusion are counted as skipped; other files are taken.
pub open spec fn walk_step(
    files: Seq<Seq<char>>,
    skipped: int,
    skip_virtual_fs: bool,
    patterns: Seq<Seq<char>>,
    path: Seq<char>,
    is_file: bool,
) -> (Seq<Seq<char>>, int) {
    if (skip_virtual_fs && in_virtual_fs(path)) || excluded_by(patterns, path, true) {
        (files, skipped + 1)
    } else if is_file {
        (files.push(path), skipped)
    } else {
        (files, skipped)
    }
}

impl WalkTally {
    pub fn new() -> (t: Self)
        ensures
            t.files@.len() == 0,
            t.skipped == 0,
    {
        WalkTally { files: Vec::new(), skipped: 0 }
    }

    /// Takes one entry of the walk into account.
    pub fn record_entry(&mut self, options: &ScanOptions, path: &str, is_file: bool)
        requires
            old(self).skipped < u64::MAX,
        ensures
            (final(self).files.deep_view(), final(self).skipped as int) == walk_step(
                old(self).files.deep_view(),
                old(self).skipped as int,
                options.skip_virtual_fs,
                options.exclude_patterns.deep_view(),
                path@,
                is_file,
            ),
    {
        if options.is_virtual_fs(path) || options.matches_exclusion(path) {
            self.skipped = self.skipped + 1;
        } else if is_file {
            let ghost before = self.files.deep_view();
            self.files.push(String::from_str(path));
            assert(self.files.deep_view() =~= before.push(path@));
        }
    }

    /// Counts an entry the walk could not read.
    pub fn record_error(&mut self)
        requires
            old(self).skipped < u64::MAX,
        ensures
            final(self).skipped == old(self).skipped + 1,
            final(self).files@ == old(self).files@,
    {
        self.skipped = self.skipped + 1;
    }
}

/// The entries a scan records: one per hashed file, in order.
pub open spec fn scan_entries(d: Seq<DiskView>) -> Seq<EntryView>
    decreases d.len(),
{
    if d.len() == 0 {
        seq![]
    } else {
        let prev = scan_entries(d.drop_last());
        match d.last().outcome {
            OutcomeView::Hashed(h) => prev.push((h, d.last().path)),
            _ => prev,
        }
    }
}

/// The result of a scan whose files were hashed as `outcomes` tells.
pub fn finish_scan(algorithm: HashAlgorithm, outcomes: &Vec<DiskFile>, skipped: u64) -> (res: ScanResult)
    ensures
        res.database.algorithm == algorithm,
        res.database.source_path is None,
        entries_view(res.database.entries@) == scan_entries(disk_view(outcomes@)),
        errors_view(res.errors@) == failures(disk_view(outcomes@)),
        res.skipped == skipped,
{
    let ghost d = disk_view(outcomes@);
    let mut db = HashDatabase::new(algorithm);
    let mut entries: Vec<HashEntry> = Vec::new();
    let mut errors: Vec<(String, String)> = Vec::new();
    let mut i: usize = 0;
    assert(d.subrange(0, 0) =~= Seq::<DiskView>::empty());
    assert(entries_view(entries@) =~= Seq::<EntryView>::empty());
    assert(errors_view(errors@) =~= Seq::<(Seq<char>, Seq<char>)>::empty());
    while i < outcomes.len()
        invariant
            d == disk_view(outcomes@),
            0 <= i <= outcomes@.len(),
            entries_view(entries@) == scan_entries(d.subrange(0, i as int)),
            errors_view(errors@) == failures(d.subrange(0, i as int)),
        decreases outcomes@.len() - i,
    {
        assert(d.subrange(0, i + 1).drop_last() =~= d.subrange(0, i as int));
        assert(d.subrange(0, i + 1).last() == d[i as int]);
        let f = &outcomes[i];
        match &f.outcome {
            HashOutcome::Hashed(h) => {
                let ghost before = entries_view(entries@);
                entries.push(HashEntry { hash: h.clone(), path: f.path.clone() });
                assert(entries_view(entries@) =~= before.push((h@, f.path@)));
            },
            HashOutcome::Failed(m) => {
                let ghost before = errors_view(errors@);
                errors.push((f.path.clone(), m.clone()));
                assert(errors_view(errors@) =~= before.push((f.path@, m@)));
            },
            HashOutcome::Skipped => {},
        }
        i = i + 1;
    }
    assert(d.subrange(0, d.len() as int) =~= d);
    db.entries = entries;
    ScanResult { database: db, errors, skipped }
}

/// No two files of the walk have the same path.
pub open spec fn distinct_paths(d: Seq<DiskView>) -> bool {
    forall|i: int, j: int| 0 <= i < j < d.len() ==> path_key(#[trigger] d[i].path) != path_key(#[trigger] d[j].path)
}

/// One Unchanged line per hashed file, in order.
pub open spec fn unchanged_lines(d: Seq<DiskView>) -> Seq<DiffView>
    decreases d.len(),
{
    if d.len() == 0 {
        seq![]
    } else {
        let prev = unchanged_lines(d.drop_last());
        match d.last().outcome {
            OutcomeView::Hashed(h) => prev.push(
                DiffView {
                    path: d.last().path,
                    status: FileStatus::Unchanged,
                    old_hash: Some(h),
                    new_hash: Some(h),
                },
            ),
            _ => prev,
        }
    }
}

pub proof fn lemma_last_with_shape(keys: Seq<Seq<Seq<char>>>, k: Seq<Seq<char>>)
    ensures
        match last_with(keys, k) {
            Some(j) => 0 <= j < keys.len() && keys[j] == k,
            None => forall|j: int| 0 <= j < keys.len() ==> keys[j] != k,
        },
    decreases keys.len(),
{
    if keys.len() > 0 && keys.last() != k {
        lemma_last_with_shape(keys.drop_last(), k);
        if last_with(keys, k) is None {
            assert forall|j: int| 0 <= j < keys.len() implies keys[j] != k by {
                if j < keys.len() - 1 {
                    assert(keys[j] == keys.drop_last()[j]);
                }
            }
        }
    }
}

pub proof fn lemma_first_with_found(keys: Seq<Seq<Seq<char>>>, k: Seq<Seq<char>>, i: int)
    requires
        0 <= i < keys.len(),
        keys[i] == k,
    ensures
        first_with(keys, k) is Some,
    decreases keys.len(),
{
    if i < keys.len() - 1 {
        lemma_first_with_found(keys.drop_last(), k, i);
    }
}

/// Entry `m` of `e` comes from a hashed file of `d`.
pub open spec fn has_origin(e: Seq<EntryView>, d: Seq<DiskView>, m: int) -> bool {
    exists|i: int| 0 <= i < d.len() && d[i].outcome == OutcomeView::Hashed(e[m].0) && #[trigger] d[i].path == e[m].1
}

/// The hashed file `i` of `d` has an entry in `e`.
pub open spec fn has_entry(e: Seq<EntryView>, d: Seq<DiskView>, i: int) -> bool {
    exists|m: int| 0 <= m < e.len() && #[trigger] e[m] == (d[i].outcome->Hashed_0, d[i].path)
}

proof fn lemma_scan_origins(d: Seq<DiskView>)
    ensures
        forall|m: int| 0 <= m < scan_entries(d).len() ==> #[trigger] has_origin(scan_entries(d), d, m),
    decreases d.len(),
{
    if d.len() > 0 {
        let d0 = d.drop_last();
        lemma_scan_origins(d0);
        let e0 = scan_entries(d0);
        let e = scan_entries(d);
        assert forall|m: int| 0 <= m < e.len() implies #[trigger] has_origin(e, d, m) by {
            if m < e0.len() {
                assert(e[m] == e0[m]);
                assert(has_origin(e0, d0, m));
                let i = choose|i: int| 0 <= i < d0.len() && d0[i].outcome == OutcomeView::Hashed(e0[m].0) && #[trigger] d0[i].path == e0[m].1;
                assert(d[i] == d0[i]);
            } else {
                let i = d.len() - 1;
                assert(d[i] == d.last());
            }
        }
    }
}

proof fn lemma_scan_complete(d: Seq<DiskView>)
    ensures
        forall|i: int| 0 <= i < d.len() && (#[trigger] d[i]).outcome is Hashed ==> has_entry(scan_entries(d), d, i),
    decreases d.len(),
{
    if d.len() > 0 {
        let d0 = d.drop_last();
        lemma_scan_complete(d0);
        let e0 = scan_entries(d0);
        let e = scan_entries(d);
        assert forall|i: int| 0 <= i < d.len() && (#[trigger] d[i]).outcome is Hashed implies has_entry(e, d, i) by {
            if i < d.len() - 1 {
                assert(d0[i] == d[i]);
                assert(has_entry(e0, d0, i));
                let m = choose|m: int| 0 <= m < e0.len() && #[trigger] e0[m] == (d0[i].outcome->Hashed_0, d0[i].path);
                assert(e[m] == e0[m]);
            } else {
                assert(e[e.len() - 1] == (d[i].outcome->Hashed_0, d[i].path));
            }
        }
    }
}

proof fn lemma_scan_distinct(d: Seq<DiskView>)
    requires
        distinct_paths(d),
    ensures
        forall|m: int, n: int| 0 <= m < n < scan_entries(d).len() ==> path_key(#[trigger] scan_entries(d)[m].1) != path_key(#[trigger] scan_entries(d)[n].1),
    decreases d.len(),
{
    if d.len() > 0 {
        let d0 = d.drop_last();
        assert(distinct_paths(d0)) by {
            assert forall|i: int, j: int| 0 <= i < j < d0.len() implies path_key(#[trigger] d0[i].path) != path_key(#[trigger] d0[j].path) by {
                assert(d0[i] == d[i] && d0[j] == d[j]);
            }
        }
        lemma_scan_distinct(d0);
        lemma_scan_origins(d0);
        let e0 = scan_entries(d0);
        let e = scan_entries(d);
        assert forall|m: int, n: int| 0 <= m < n < e.len() implies path_key(#[trigger] e[m].1) != path_key(#[trigger] e[n].1) by {
            if n < e0.len() {
                assert(e[m] == e0[m] && e[n] == e0[n]);
            } else {
                assert(e[m] == e0[m]);
                assert(has_origin(e0, d0, m));
                let i = choose|i: int| 0 <= i < d0.len() && d0[i].outcome == OutcomeView::Hashed(e0[m].0) && #[trigger] d0[i].path == e0[m].1;
                assert(d[i] == d0[i]);
                assert(e[n].1 == d.last().path);
                assert(d[d.len() - 1] == d.last());
                assert(path_key(d[i].path) != path_key(d[d.len() - 1].path));
            }
        }
    }
}

proof fn lemma_hashed_part(e: Seq<EntryView>, d: Seq<DiskView>, n: int)
    requires
        distinct_paths(d),
        e == scan_entries(d),
        0 <= n <= d.len(),
    ensures
        hashed_diffs(e, d.subrange(0, n)) == unchanged_lines(d.subrange(0, n)),
    decreases n,
{
    if n > 0 {
        lemma_hashed_part(e, d, n - 1);
        let p = d.subrange(0, n);
        assert(p.drop_last() =~= d.subrange(0, n - 1));
        assert(p.last() == d[n - 1]);
        match d[n - 1].outcome {
            OutcomeView::Hashed(h) => {
                lemma_scan_complete(d);
                lemma_scan_distinct(d);
                let path = d[n - 1].path;
                assert(d[n - 1].outcome is Hashed);
                assert(has_entry(e, d, n - 1));
                let m = choose|m: int| 0 <= m < e.len() && #[trigger] e[m] == (d[n - 1].outcome->Hashed_0, d[n - 1].path);
                let keys = entry_keys(e);
                assert(keys[m] == path_key(path));
                lemma_last_with_shape(keys, path_key(path));
                let j = last_with(keys, path_key(path))->0;
                if j != m {
                    if j < m {
                        assert(path_key(e[j].1) != path_key(e[m].1));
                    } else {
                        assert(path_key(e[m].1) != path_key(e[j].1));
                    }
                }
                assert(classify(e, path, h) == DiffView {
                    path,
                    status: FileStatus::Unchanged,
                    old_hash: Some(h),
                    new_hash: Some(h),
                });
            },
            _ => {},
        }
    }
}

proof fn lemma_missing_part(e: Seq<EntryView>, d: Seq<DiskView>, n: int)
    requires
        e == scan_entries(d),
        0 <= n <= e.len(),
        forall|m: int| 0 <= m < e.len() ==> #[trigger] has_origin(e, d, m),
    ensures
        missing_diffs(e, d, n) == Seq::<DiffView>::empty(),
    decreases n,
{
    if n > 0 {
        lemma_missing_part(e, d, n - 1);
        assert(has_origin(e, d, n - 1));
        let i = choose|i: int| 0 <= i < d.len() && d[i].outcome == OutcomeView::Hashed(e[n - 1].0) && #[trigger] d[i].path == e[n - 1].1;
        assert(disk_keys(d)[i] == path_key(e[n - 1].1));
        lemma_first_with_found(disk_keys(d), path_key(e[n - 1].1), i);
    }
}

/// Comparing the database that a scan produced with the same files, hashed
/// to the same digests, reports every hashed file Unchanged, with its hash
/// as old and new hash, and nothing Missing, Modified or New. Files that
/// could not be hashed appear in neither the database nor the lines.
pub proof fn law_verify_own_scan(d: Seq<DiskView>)
    requires
        distinct_paths(d),
    ensures
        all_diffs(scan_entries(d), d) == unchanged_lines(d),
{
    let e = scan_entries(d);
    lemma_hashed_part(e, d, d.len() as int);
    assert(d.subrange(0, d.len() as int) =~= d);
    lemma_scan_origins(d);
    lemma_missing_part(e, d, e.len() as int);
    assert(hashed_diffs(e, d) + Seq::<DiffView>::empty() =~= hashed_diffs(e, d));
}

/// Scanning, saving the database, reading it back and comparing it with
/// the same files, hashed to the same digests, reports every hashed file
/// Unchanged, provided the scanned paths and digests survive the line
/// format of the database.
pub proof fn law_scan_save_load_verify(d: Seq<DiskView>, algorithm: HashAlgorithm, created: Seq<char>)
    requires
        distinct_paths(d),
        database_roundtrips(DatabaseView { algorithm, created, source: None, entries: scan_entries(d) }),
    ensures
        all_diffs(
            parse_text_view(
                database_text(DatabaseView { algorithm, created, source: None, entries: scan_entries(d) }),
            ).entries,
            d,
        ) == unchanged_lines(d),
{
    law_save_then_load(DatabaseView { algorithm, created, source: None, entries: scan_entries(d) });
    law_verify_own_scan(d);
}

} // verus!
