//! Comparing a hash database with the files found on disk.

use vstd::prelude::*;
use std::collections::VecDeque;
use crate::database::{entries_view, EntryView, HashDatabase, HashEntry};
use crate::hasher::HashAlgorithm;
use crate::index::{lemma_first_with_char, lemma_last_with_char, KeyIndex};
use crate::paths::{
    components, components_compare, components_order, lemma_components_order_props,
    lemma_components_order_trans, path_components,
};
use crate::sort::{lemma_multiset_map, merge_sort, sorted_seq, TotalPreorder};
use crate::clock::{local_now_text, report_time_text, REPORT_TIME_FORMAT};
use crate::csv_out::{csv_records, encode_csv};
use crate::text::{decimal, push_decimal, starts_with};

verus! {

/// How a file compares with the database.
#[derive(Debug, Clone, Copy, PartialEq, Eq, Structural)]
pub enum FileStatus {
    Unchanged,
    Modified,
    Missing,
    New,
}

impl FileStatus {
    /// A symbol for the status.
    pub fn icon(&self) -> (s: &'static str)
        ensures
            s@ == status_icon(*self),
    {
        match self {
            FileStatus::Unchanged => "\u{2705}",
            FileStatus::Modified => "\u{26a0}\u{fe0f}",
            FileStatus::Missing => "\u{274c}",
            FileStatus::New => "\u{1f195}",
        }
    }

    /// The status's name.
    pub fn label(&self) -> (s: &'static str)
        ensures
            s@ == status_label(*self),
    {
        match self {
            FileStatus::Unchanged => "Unchanged",
            FileStatus::Modified => "Modified",
            FileStatus::Missing => "Missing",
            FileStatus::New => "New",
        }
    }

    /// The style class a viewer shows the status with.
    pub fn css_class(&self) -> (s: &'static str)
        ensures
            s@ == status_css_class(*self),
    {
        match self {
            FileStatus::Unchanged => "diff-unchanged",
            FileStatus::Modified => "diff-modified",
            FileStatus::Missing => "diff-missing",
            FileStatus::New => "diff-new",
        }
    }
}

pub open spec fn status_icon(s: FileStatus) -> Seq<char> {
    match s {
        FileStatus::Unchanged => "\u{2705}"@,
        FileStatus::Modified => "\u{26a0}\u{fe0f}"@,
        FileStatus::Missing => "\u{274c}"@,
        FileStatus::New => "\u{1f195}"@,
    }
}

pub open spec fn status_label(s: FileStatus) -> Seq<char> {
    match s {
        FileStatus::Unchanged => "Unchanged"@,
        FileStatus::Modified => "Modified"@,
        FileStatus::Missing => "Missing"@,
        FileStatus::New => "New"@,
    }
}

pub open spec fn status_css_class(s: FileStatus) -> Seq<char> {
    match s {
        FileStatus::Unchanged => "diff-unchanged"@,
        FileStatus::Modified => "diff-modified"@,
        FileStatus::Missing => "diff-missing"@,
        FileStatus::New => "diff-new"@,
    }
}

/// One line of a comparison.
#[derive(Debug, Clone)]
pub struct DiffEntry {
    pub path: String,
    pub status: FileStatus,
    pub old_hash: Option<String>,
    pub new_hash: Option<String>,
}

pub open spec fn opt_view(o: Option<String>) -> Option<Seq<char>> {
    match o {
        Some(s) => Some(s@),
        None => None,
    }
}

/// A comparison line as plain values.
pub struct DiffView {
    pub path: Seq<char>,
    pub status: FileStatus,
    pub old_hash: Option<Seq<char>>,
    pub new_hash: Option<Seq<char>>,
}

impl View for DiffEntry {
    type V = DiffView;

    open spec fn view(&self) -> DiffView {
        DiffView {
            path: self.path@,
            status: self.status,
            old_hash: opt_view(self.old_hash),
            new_hash: opt_view(self.new_hash),
        }
    }
}

pub open spec fn diffs_view(s: Seq<DiffEntry>) -> Seq<DiffView> {
    s.map_values(|d: DiffEntry| d@)
}

/// Counts of a comparison.
#[derive(Debug, Clone, Copy, Default)]
pub struct VerifyStats {
    pub total: usize,
    pub unchanged: usize,
    pub modified: usize,
    pub missing: usize,
    pub new_files: usize,
    pub errors: usize,
}

/// The outcome of comparing a database with the disk.
#[derive(Debug, Clone)]
pub struct VerifyResult {
    pub entries: Vec<DiffEntry>,
    pub stats: VerifyStats,
    /// Files that could not be hashed, with the reason.
    pub errors: Vec<(String, String)>,
}

/// Progress of a running comparison.
#[derive(Debug, Clone)]
pub struct VerifyProgress {
    pub files_checked: u64,
    pub current_file: String,
    pub errors: u64,
}

/// What became of hashing one file found on disk.
#[derive(Debug, Clone)]
pub enum HashOutcome {
    /// The file's hex digest.
    Hashed(String),
    /// Hashing failed, for this reason.
    Failed(String),
    /// Hashing was cancelled before this file.
    Skipped,
}

pub enum OutcomeView {
    Hashed(Seq<char>),
    Failed(Seq<char>),
    Skipped,
}

/// A file found on disk and what became of hashing it.
#[derive(Debug, Clone)]
pub struct DiskFile {
    pub path: String,
    pub outcome: HashOutcome,
}

pub struct DiskView {
    pub path: Seq<char>,
    pub outcome: OutcomeView,
}

impl View for DiskFile {
    type V = DiskView;

    open spec fn view(&self) -> DiskView {
        DiskView {
            path: self.path@,
            outcome: match self.outcome {
                HashOutcome::Hashed(h) => OutcomeView::Hashed(h@),
                HashOutcome::Failed(m) => OutcomeView::Failed(m@),
                HashOutcome::Skipped => OutcomeView::Skipped,
            },
        }
    }
}

pub open spec fn disk_view(s: Seq<DiskFile>) -> Seq<DiskView> {
    Seq::new(s.len(), |i: int| s[i]@)
}

/// Paths compare as equal when their components are (as `Path` does).
pub open spec fn path_key(p: Seq<char>) -> Seq<Seq<char>> {
    path_components(p)
}

pub open spec fn entry_keys(e: Seq<EntryView>) -> Seq<Seq<Seq<char>>> {
    Seq::new(e.len(), |i: int| path_key(e[i].1))
}

pub open spec fn disk_keys(d: Seq<DiskView>) -> Seq<Seq<Seq<char>>> {
    Seq::new(d.len(), |i: int| path_key(d[i].path))
}

/// Position of the last key equal to `k`.
pub open spec fn last_with(keys: Seq<Seq<Seq<char>>>, k: Seq<Seq<char>>) -> Option<int>
    decreases keys.len(),
{
    if keys.len() == 0 {
        None
    } else if keys.last() == k {
        Some(keys.len() - 1)
    } else {
        last_with(keys.drop_last(), k)
    }
}

/// Position of the first key equal to `k`.
pub open spec fn first_with(keys: Seq<Seq<Seq<char>>>, k: Seq<Seq<char>>) -> Option<int>
    decreases keys.len(),
{
    if keys.len() == 0 {
        None
    } else {
        match first_with(keys.drop_last(), k) {
            Some(i) => Some(i),
            None => if keys.last() == k {
                Some(keys.len() - 1)
            } else {
                None
            },
        }
    }
}

/// The comparison line for a file hashed to `h`: the database's hash for a
/// path is the hash of the last entry with that path.
pub open spec fn classify(e: Seq<EntryView>, path: Seq<char>, h: Seq<char>) -> DiffView {
    match last_with(entry_keys(e), path_key(path)) {
        Some(i) => DiffView {
            path,
            status: if e[i].0 == h {
                FileStatus::Unchanged
            } else {
                FileStatus::Modified
            },
            old_hash: Some(e[i].0),
            new_hash: Some(h),
        },
        None => DiffView { path, status: FileStatus::New, old_hash: None, new_hash: Some(h) },
    }
}

/// Lines for the hashed disk files, in disk order.
pub open spec fn hashed_diffs(e: Seq<EntryView>, d: Seq<DiskView>) -> Seq<DiffView>
    decreases d.len(),
{
    if d.len() == 0 {
        seq![]
    } else {
        let prev = hashed_diffs(e, d.drop_last());
        match d.last().outcome {
            OutcomeView::Hashed(h) => prev.push(classify(e, d.last().path, h)),
            _ => prev,
        }
    }
}

/// Lines for database paths not found on disk, among the first `n`
/// entries: one per path, at its first entry, with the hash of its last.
pub open spec fn missing_diffs(e: Seq<EntryView>, d: Seq<DiskView>, n: int) -> Seq<DiffView>
    decreases n,
{
    if n <= 0 {
        seq![]
    } else {
        let prev = missing_diffs(e, d, n - 1);
        let k = path_key(e[n - 1].1);
        if first_with(entry_keys(e), k) == Some(n - 1) && first_with(disk_keys(d), k) is None {
            prev.push(
                DiffView {
                    path: e[n - 1].1,
                    status: FileStatus::Missing,
                    old_hash: Some(e[last_with(entry_keys(e), k)->0].0),
                    new_hash: None,
                },
            )
        } else {
            prev
        }
    }
}

/// All comparison lines, before ordering.
pub open spec fn all_diffs(e: Seq<EntryView>, d: Seq<DiskView>) -> Seq<DiffView> {
    hashed_diffs(e, d) + missing_diffs(e, d, e.len() as int)
}

/// The files that could not be hashed, with the reasons, in disk order.
pub open spec fn failures(d: Seq<DiskView>) -> Seq<(Seq<char>, Seq<char>)>
    decreases d.len(),
{
    if d.len() == 0 {
        seq![]
    } else {
        let prev = failures(d.drop_last());
        match d.last().outcome {
            OutcomeView::Failed(m) => prev.push((d.last().path, m)),
            _ => prev,
        }
    }
}

/// Lines are listed Missing, Modified, New, Unchanged.
pub open spec fn status_rank(s: FileStatus) -> int {
    match s {
        FileStatus::Missing => 0,
        FileStatus::Modified => 1,
        FileStatus::New => 2,
        FileStatus::Unchanged => 3,
    }
}

/// Line `a` may come before line `b`: by status, then by path order.
pub open spec fn diff_before(a: DiffView, b: DiffView) -> bool {
    status_rank(a.status) < status_rank(b.status) || (status_rank(a.status) == status_rank(
        b.status,
    ) && components_order(path_key(a.path), path_key(b.path)) <= 0)
}

fn rank_of(s: FileStatus) -> (r: u8)
    ensures
        r as int == status_rank(s),
{
    match s {
        FileStatus::Missing => 0,
        FileStatus::Modified => 1,
        FileStatus::New => 2,
        FileStatus::Unchanged => 3,
    }
}

impl TotalPreorder for DiffEntry {
    open spec fn before(self, other: Self) -> bool {
        diff_before(self@, other@)
    }

    proof fn lemma_total(a: Self, b: Self) {
        lemma_components_order_props(path_key(a@.path), path_key(b@.path));
    }

    proof fn lemma_trans(a: Self, b: Self, c: Self) {
        if status_rank(a@.status) == status_rank(b@.status) && status_rank(b@.status) == status_rank(
            c@.status,
        ) {
            lemma_components_order_trans(path_key(a@.path), path_key(b@.path), path_key(c@.path));
        }
    }

    fn precedes(&self, other: &Self) -> (r: bool) {
        let ra = rank_of(self.status);
        let rb = rank_of(other.status);
        if ra != rb {
            ra < rb
        } else {
            let ka = components(self.path.as_str());
            let kb = components(other.path.as_str());
            components_compare(&ka, &kb) <= 0
        }
    }
}

/// Number of lines with status `st`.
pub open spec fn count_status(s: Seq<DiffView>, st: FileStatus) -> nat
    decreases s.len(),
{
    if s.len() == 0 {
        0
    } else {
        count_status(s.drop_last(), st) + if s.last().status == st {
            1nat
        } else {
            0nat
        }
    }
}

pub open spec fn errors_view(s: Seq<(String, String)>) -> Seq<(Seq<char>, Seq<char>)> {
    Seq::new(s.len(), |i: int| (s[i].0@, s[i].1@))
}

/// The counts describe these lines and this many errors.
pub open spec fn stats_describe(st: VerifyStats, lines: Seq<DiffView>, n_errors: nat) -> bool {
    &&& st.total == lines.len()
    &&& st.unchanged == count_status(lines, FileStatus::Unchanged)
    &&& st.modified == count_status(lines, FileStatus::Modified)
    &&& st.missing == count_status(lines, FileStatus::Missing)
    &&& st.new_files == count_status(lines, FileStatus::New)
    &&& st.errors == n_errors
}

/// Every line has one of the four statuses.
pub proof fn lemma_counts_sum(s: Seq<DiffView>)
    ensures
        count_status(s, FileStatus::Unchanged) + count_status(s, FileStatus::Modified) + count_status(
            s,
            FileStatus::Missing,
        ) + count_status(s, FileStatus::New) == s.len(),
    decreases s.len(),
{
    if s.len() > 0 {
        lemma_counts_sum(s.drop_last());
    }
}

pub proof fn lemma_last_with_found(keys: Seq<Seq<Seq<char>>>, k: Seq<Seq<char>>, i: int)
    requires
        0 <= i < keys.len(),
        keys[i] == k,
    ensures
        last_with(keys, k) matches Some(j) && i <= j < keys.len() && keys[j] == k,
    decreases keys.len(),
{
    if keys.last() != k {
        lemma_last_with_found(keys.drop_last(), k, i);
    }
}

pub(crate) fn keys_of_entries(entries: &Vec<HashEntry>) -> (keys: Vec<Vec<Vec<char>>>)
    ensures
        keys.deep_view() == entry_keys(entries_view(entries@)),
{
    let mut keys: Vec<Vec<Vec<char>>> = Vec::new();
    let mut i: usize = 0;
    while i < entries.len()
        invariant
            0 <= i <= entries@.len(),
            keys.deep_view() =~= entry_keys(entries_view(entries@)).subrange(0, i as int),
        decreases entries@.len() - i,
    {
        let k = components(entries[i].path.as_str());
        let ghost before = keys.deep_view();
        keys.push(k);
        assert(keys.deep_view() =~= before.push(k.deep_view()));
        assert(entry_keys(entries_view(entries@)).subrange(0, i + 1) =~= entry_keys(entries_view(entries@)).subrange(0, i as int).push(entry_keys(entries_view(entries@))[i as int]));
        i = i + 1;
    }
    keys
}

fn keys_of_disk(disk: &Vec<DiskFile>) -> (keys: Vec<Vec<Vec<char>>>)
    ensures
        keys.deep_view() == disk_keys(disk_view(disk@)),
{
    let mut keys: Vec<Vec<Vec<char>>> = Vec::new();
    let mut i: usize = 0;
    while i < disk.len()
        invariant
            0 <= i <= disk@.len(),
            keys.deep_view() =~= disk_keys(disk_view(disk@)).subrange(0, i as int),
        decreases disk@.len() - i,
    {
        let k = components(disk[i].path.as_str());
        let ghost before = keys.deep_view();
        keys.push(k);
        assert(keys.deep_view() =~= before.push(k.deep_view()));
        assert(disk_keys(disk_view(disk@)).subrange(0, i + 1) =~= disk_keys(disk_view(disk@)).subrange(0, i as int).push(disk_keys(disk_view(disk@))[i as int]));
        i = i + 1;
    }
    keys
}

/// Compares `database` with the files found on disk. Each hashed file
/// gives one line: Unchanged when its hash equals the database's, Modified
/// when it differs, New when its path is not in the database. Each path of
/// the database that is not on disk gives one Missing line. Lines are
/// listed Missing, Modified, New, Unchanged, each group in path order.
/// Files that could not be hashed are listed as errors.
pub fn verify_files(database: &HashDatabase, disk: &Vec<DiskFile>) -> (res: VerifyResult)
    ensures
        sorted_seq(res.entries@),
        diffs_view(res.entries@).to_multiset() == all_diffs(
            entries_view(database.entries@),
            disk_view(disk@),
        ).to_multiset(),
        errors_view(res.errors@) == failures(disk_view(disk@)),
        stats_describe(res.stats, diffs_view(res.entries@), res.errors@.len()),
        res.stats.total == res.stats.unchanged + res.stats.modified + res.stats.missing
            + res.stats.new_files,
        forall|k: int| 0 <= k < res.entries@.len() ==> status_fits(#[trigger] res.entries@[k]@),
{
    let ghost e = entries_view(database.entries@);
    let ghost d = disk_view(disk@);
    let ek = keys_of_entries(&database.entries);
    let dk = keys_of_disk(disk);
    let n_entries = database.entries.len();
    let entry_index = KeyIndex::new(keys_of_entries(&database.entries));
    let disk_index = KeyIndex::new(keys_of_disk(disk));
    assert(ek@.len() == ek.deep_view().len());
    assert(dk@.len() == dk.deep_view().len());
    let mut lines: VecDeque<DiffEntry> = VecDeque::new();
    let mut errors: Vec<(String, String)> = Vec::new();
    let mut i: usize = 0;
    assert(d.subrange(0, 0) =~= Seq::<DiskView>::empty());
    assert(diffs_view(lines@) =~= Seq::<DiffView>::empty());
    assert(errors_view(errors@) =~= Seq::<(Seq<char>, Seq<char>)>::empty());
    while i < disk.len()
        invariant
            e == entries_view(database.entries@),
            d == disk_view(disk@),
            ek.deep_view() == entry_keys(e),
            dk.deep_view() == disk_keys(d),
            dk@.len() == disk@.len(),
            ek@.len() == database.entries@.len(),
            n_entries == database.entries@.len(),
            entry_index.wf(),
            entry_index.keys() == entry_keys(e),
            0 <= i <= disk@.len(),
            diffs_view(lines@) == hashed_diffs(e, d.subrange(0, i as int)),
            errors_view(errors@) == failures(d.subrange(0, i as int)),
        decreases disk@.len() - i,
    {
        let ghost pre = d.subrange(0, i as int);
        assert(d.subrange(0, i + 1).drop_last() =~= pre);
        assert(d.subrange(0, i + 1).last() == d[i as int]);
        let f = &disk[i];
        assert(dk.deep_view()[i as int] == dk@[i as int].deep_view());
        assert(dk@[i as int].deep_view() == path_key(d[i as int].path));
        match &f.outcome {
            HashOutcome::Hashed(h) => {
                proof {
                    lemma_last_with_char(entry_keys(e), dk@[i as int].deep_view());
                }
                let ghost lw = last_with(entry_keys(e), path_key(d[i as int].path));
                let found = entry_index.last_pos(&dk[i]);
                assert(entry_keys(e).len() == database.entries@.len());
                assert(dk@[i as int].deep_view() == path_key(d[i as int].path));
                assert(lw matches Some(j0) ==> 0 <= j0 < database.entries@.len());
                proof {
                    match found {
                        Some(j) => {
                            assert(lw is Some);
                            assert(j == lw->0 as usize);
                            assert(j as int == lw->0);
                        },
                        None => {
                            assert(lw is None);
                        },
                    }
                }
                let line = match found {
                    Some(j) => {
                        assert(e[j as int].0 == database.entries@[j as int].hash@);
                        let old = &database.entries[j].hash;
                        let status = if *old == *h {
                            FileStatus::Unchanged
                        } else {
                            FileStatus::Modified
                        };
                        DiffEntry {
                            path: f.path.clone(),
                            status,
                            old_hash: Some(old.clone()),
                            new_hash: Some(h.clone()),
                        }
                    },
                    None => DiffEntry {
                        path: f.path.clone(),
                        status: FileStatus::New,
                        old_hash: None,
                        new_hash: Some(h.clone()),
                    },
                };
                assert(line@ == classify(e, d[i as int].path, h@));
                let ghost before = lines@;
                lines.push_back(line);
                assert(diffs_view(lines@) =~= diffs_view(before).push(line@));
            },
            HashOutcome::Failed(m) => {
                let ghost before = errors@;
                errors.push((f.path.clone(), m.clone()));
                assert(errors_view(errors@) =~= errors_view(before).push((d[i as int].path, m@)));
            },
            HashOutcome::Skipped => {},
        }
        i = i + 1;
    }
    assert(d.subrange(0, d.len() as int) =~= d);
    let mut n: usize = 0;
    while n < database.entries.len()
        invariant
            e == entries_view(database.entries@),
            d == disk_view(disk@),
            ek.deep_view() == entry_keys(e),
            dk.deep_view() == disk_keys(d),
            dk@.len() == disk@.len(),
            ek@.len() == database.entries@.len(),
            entry_index.wf(),
            entry_index.keys() == entry_keys(e),
            disk_index.wf(),
            disk_index.keys() == disk_keys(d),
            0 <= n <= database.entries@.len(),
            diffs_view(lines@) == hashed_diffs(e, d) + missing_diffs(e, d, n as int),
        decreases database.entries@.len() - n,
    {
        let k = &ek[n];
        assert(ek.deep_view()[n as int] == ek@[n as int].deep_view());
        assert(k.deep_view() == path_key(e[n as int].1));
        let ghost kk = path_key(e[n as int].1);
        proof {
            lemma_first_with_char(entry_keys(e), kk);
            lemma_first_with_char(disk_keys(d), kk);
        }
        let first = entry_index.first_pos(k);
        let on_disk = disk_index.first_pos(k);
        assert(first matches Some(f) ==> first_with(entry_keys(e), kk) == Some(f as int));
        assert(first is None ==> first_with(entry_keys(e), kk) is None);
        assert(on_disk is None <==> first_with(disk_keys(d), kk) is None);
        let is_first = match first {
            Some(f) => f == n,
            None => false,
        };
        assert(is_first <==> first_with(entry_keys(e), kk) == Some(n as int));
        if is_first && on_disk.is_none() {
            proof {
                lemma_last_with_found(entry_keys(e), kk, n as int);
                lemma_last_with_char(entry_keys(e), kk);
            }
            let found = entry_index.last_pos(k);
            assert(found matches Some(j) ==> last_with(entry_keys(e), kk) == Some(j as int));
            match found {
                Some(j) => {
                    let line = DiffEntry {
                        path: database.entries[n].path.clone(),
                        status: FileStatus::Missing,
                        old_hash: Some(database.entries[j].hash.clone()),
                        new_hash: None,
                    };
                    let ghost before = lines@;
                    lines.push_back(line);
                    assert(diffs_view(lines@) =~= diffs_view(before).push(line@));
                },
                None => {},
            }
        }
        n = n + 1;
    }
    let ghost unsorted = lines@;
    let mut sorted = merge_sort(lines);
    proof {
        lemma_multiset_map(sorted@, unsorted, |x: DiffEntry| x@);
    }
    let ghost sorted0 = sorted@;
    let mut entries: Vec<DiffEntry> = Vec::new();
    while sorted.len() > 0
        invariant
            entries@ + sorted@ == sorted0,
        decreases sorted@.len(),
    {
        let ghost before = entries@;
        let x = sorted.pop_front().unwrap();
        entries.push(x);
        assert(entries@ + sorted@ =~= sorted0);
    }
    assert(entries@ =~= sorted0);
    let stats = count_lines(&entries, errors.len());
    proof {
        lemma_counts_sum(diffs_view(entries@));
        law_statuses_fit_hashes(e, d);
        lemma_fit_by_multiset(diffs_view(entries@), all_diffs(e, d));
        assert forall|k: int| 0 <= k < entries@.len() implies status_fits(#[trigger] entries@[k]@) by {
            assert(diffs_view(entries@)[k] == entries@[k]@);
        }
    }
    VerifyResult { entries, stats, errors }
}

fn count_lines(entries: &Vec<DiffEntry>, n_errors: usize) -> (st: VerifyStats)
    ensures
        stats_describe(st, diffs_view(entries@), n_errors as nat),
{
    let ghost v = diffs_view(entries@);
    let mut st = VerifyStats { total: 0, unchanged: 0, modified: 0, missing: 0, new_files: 0, errors: n_errors };
    let mut i: usize = 0;
    assert(v.subrange(0, 0) =~= Seq::<DiffView>::empty());
    while i < entries.len()
        invariant
            v == diffs_view(entries@),
            0 <= i <= entries@.len(),
            stats_describe(st, v.subrange(0, i as int), n_errors as nat),
        decreases entries@.len() - i,
    {
        assert(v.subrange(0, i + 1).drop_last() =~= v.subrange(0, i as int));
        assert(v.subrange(0, i + 1).last() == entries@[i as int]@);
        proof {
            lemma_counts_sum(v.subrange(0, i as int));
        }
        st.total = st.total + 1;
        match entries[i].status {
            FileStatus::Unchanged => st.unchanged = st.unchanged + 1,
            FileStatus::Modified => st.modified = st.modified + 1,
            FileStatus::Missing => st.missing = st.missing + 1,
            FileStatus::New => st.new_files = st.new_files + 1,
        }
        i = i + 1;
    }
    assert(v.subrange(0, v.len() as int) =~= v);
    st
}

/// The algorithm a comparison hashes with: the override, else the
/// database's.
pub fn verify_algorithm(database: &HashDatabase, algorithm_override: Option<HashAlgorithm>) -> (a: HashAlgorithm)
    ensures
        a == (match algorithm_override {
            Some(x) => x,
            None => database.algorithm,
        }),
{
    match algorithm_override {
        Some(x) => x,
        None => database.algorithm,
    }
}

/// Header of a text report written at time `stamp`.
pub open spec fn report_header(stamp: Seq<char>, st: VerifyStats) -> Seq<char> {
    "# hashmyfiles verification report\n"@ + "# "@ + stamp + ": "@ + decimal(st.unchanged as nat)
        + " unchanged, "@ + decimal(st.modified as nat) + " modified, "@ + decimal(
        st.missing as nat,
    ) + " missing, "@ + decimal(st.new_files as nat) + " new\n"@ + "#\n"@
}

pub open spec fn opt_hash_line(label: Seq<char>, h: Option<Seq<char>>) -> Seq<char> {
    match h {
        Some(x) => label + x + "\n"@,
        None => seq![],
    }
}

/// The report lines of one comparison line: icon, status and path, then
/// the old and the new hash when there are.
pub open spec fn report_entry(d: DiffView) -> Seq<char> {
    status_icon(d.status) + " ["@ + status_label(d.status) + "]  "@ + d.path + "\n"@ + opt_hash_line(
        "  old: "@,
        d.old_hash,
    ) + opt_hash_line("  new: "@, d.new_hash)
}

pub open spec fn report_entries(s: Seq<DiffView>) -> Seq<char>
    decreases s.len(),
{
    if s.len() == 0 {
        seq![]
    } else {
        report_entries(s.drop_last()) + report_entry(s.last())
    }
}

/// The text report of `r` written at time `stamp`.
pub open spec fn report_text(stamp: Seq<char>, r: VerifyStats, lines: Seq<DiffView>) -> Seq<char> {
    report_header(stamp, r) + report_entries(lines)
}

/// The CSV rows of a comparison: a header, then path, status, old and new
/// hash (empty when absent) for each line.
pub open spec fn result_csv_rows(lines: Seq<DiffView>) -> Seq<Seq<Seq<char>>> {
    seq![seq!["path"@, "status"@, "old_hash"@, "new_hash"@]] + Seq::new(
        lines.len(),
        |i: int|
            seq![
                lines[i].path,
                status_label(lines[i].status),
                match lines[i].old_hash {
                    Some(h) => h,
                    None => seq![],
                },
                match lines[i].new_hash {
                    Some(h) => h,
                    None => seq![],
                },
            ],
    )
}

fn push_opt_hash(out: &mut String, label: &str, h: &Option<String>)
    ensures
        final(out)@ == old(out)@ + opt_hash_line(label@, opt_view(*h)),
{
    match h {
        Some(x) => {
            out.append(label);
            out.append(x.as_str());
            out.append("\n");
            assert(final(out)@ =~= old(out)@ + opt_hash_line(label@, opt_view(*h)));
        },
        None => {
            assert(old(out)@ + opt_hash_line(label@, opt_view(*h)) =~= old(out)@);
        },
    }
}

fn string_or_empty(h: &Option<String>) -> (s: String)
    ensures
        s@ == (match opt_view(*h) {
            Some(x) => x,
            None => seq![],
        }),
{
    match h {
        Some(x) => x.clone(),
        None => String::new(),
    }
}

fn push_report_entry(out: &mut String, e: &DiffEntry)
    ensures
        final(out)@ == old(out)@ + report_entry(e@),
{
    let ghost before = out@;
    out.append(e.status.icon());
    out.append(" [");
    out.append(e.status.label());
    out.append("]  ");
    out.append(e.path.as_str());
    out.append("\n");
    let ghost mid = out@;
    assert(mid =~= before + status_icon(e.status) + " ["@ + status_label(e.status) + "]  "@ + e.path@ + "\n"@);
    push_opt_hash(out, "  old: ", &e.old_hash);
    push_opt_hash(out, "  new: ", &e.new_hash);
    assert(out@ =~= before + report_entry(e@));
}

impl VerifyResult {
    /// The text report for the time `stamp`: a header with the counts,
    /// then each line with its hashes.
    pub fn report_for(&self, stamp: &str) -> (text: String)
        ensures
            text@ == report_text(stamp@, self.stats, diffs_view(self.entries@)),
    {
        let st = &self.stats;
        let mut out = String::from_str("# hashmyfiles verification report\n");
        out.append("# ");
        out.append(stamp);
        out.append(": ");
        push_decimal(&mut out, st.unchanged as u64);
        out.append(" unchanged, ");
        push_decimal(&mut out, st.modified as u64);
        out.append(" modified, ");
        push_decimal(&mut out, st.missing as u64);
        out.append(" missing, ");
        push_decimal(&mut out, st.new_files as u64);
        out.append(" new\n");
        out.append("#\n");
        let ghost hdr = out@;
        assert(hdr =~= report_header(stamp@, self.stats));
        let ghost v = diffs_view(self.entries@);
        let mut i: usize = 0;
        assert(v.subrange(0, 0) =~= Seq::<DiffView>::empty());
        while i < self.entries.len()
            invariant
                v == diffs_view(self.entries@),
                0 <= i <= self.entries@.len(),
                out@ == hdr + report_entries(v.subrange(0, i as int)),
            decreases self.entries@.len() - i,
        {
            let e = &self.entries[i];
            push_report_entry(&mut out, e);
            assert(v[i as int] == e@);
            assert(v.subrange(0, i + 1).drop_last() =~= v.subrange(0, i as int));
            assert(v.subrange(0, i + 1).last() == v[i as int]);
            i = i + 1;
        }
        assert(v.subrange(0, v.len() as int) =~= v);
        out
    }

    /// The text report, stamped with the current local time.
    pub fn export_txt(&self) -> (text: String)
        ensures
            exists|stamp: Seq<char>|
                report_time_text(stamp) && text@ == report_text(stamp, self.stats, diffs_view(self.entries@)),
    {
        let stamp = local_now_text(REPORT_TIME_FORMAT);
        self.report_for(stamp.as_str())
    }

    /// The comparison as CSV: a header row, then one row per line.
    pub fn export_csv(&self) -> (res: Option<Vec<u8>>)
        ensures
            res matches Some(b) && b@ == csv_records(result_csv_rows(diffs_view(self.entries@))),
    {
        let ghost v = diffs_view(self.entries@);
        let ghost rows_v = result_csv_rows(v);
        let mut rows: Vec<Vec<String>> = Vec::new();
        let mut header: Vec<String> = Vec::new();
        header.push(String::from_str("path"));
        header.push(String::from_str("status"));
        header.push(String::from_str("old_hash"));
        header.push(String::from_str("new_hash"));
        assert(header.deep_view() =~= rows_v[0]);
        rows.push(header);
        let mut i: usize = 0;
        while i < self.entries.len()
            invariant
                v == diffs_view(self.entries@),
                rows_v == result_csv_rows(v),
                0 <= i <= self.entries@.len(),
                rows.deep_view() =~= rows_v.subrange(0, i + 1),
            decreases self.entries@.len() - i,
        {
            let e = &self.entries[i];
            let mut row: Vec<String> = Vec::new();
            row.push(e.path.clone());
            row.push(String::from_str(e.status.label()));
            row.push(string_or_empty(&e.old_hash));
            row.push(string_or_empty(&e.new_hash));
            assert(v[i as int] == e@);
            assert(row.deep_view() =~= rows_v[i + 1]);
            let ghost before = rows.deep_view();
            rows.push(row);
            assert(rows.deep_view() =~= before.push(rows_v[i + 1]));
            i = i + 1;
        }
        assert(rows_v.subrange(0, rows_v.len() as int) =~= rows_v);
        encode_csv(&rows)
    }
}

/// A line's status agrees with its hashes: an Unchanged line has an old
/// hash equal to its new one, a Modified line two different hashes, a New
/// line only a new hash, a Missing line only an old one.
pub open spec fn status_fits(l: DiffView) -> bool {
    match l.status {
        FileStatus::Unchanged => l.old_hash is Some && l.old_hash == l.new_hash,
        FileStatus::Modified => l.old_hash is Some && l.new_hash is Some && l.old_hash != l.new_hash,
        FileStatus::New => l.old_hash is None && l.new_hash is Some,
        FileStatus::Missing => l.old_hash is Some && l.new_hash is None,
    }
}

proof fn lemma_hashed_fit(e: Seq<EntryView>, d: Seq<DiskView>)
    ensures
        forall|k: int| 0 <= k < hashed_diffs(e, d).len() ==> status_fits(#[trigger] hashed_diffs(e, d)[k]),
    decreases d.len(),
{
    if d.len() > 0 {
        let prev = hashed_diffs(e, d.drop_last());
        lemma_hashed_fit(e, d.drop_last());
        match d.last().outcome {
            OutcomeView::Hashed(h) => {
                let c = classify(e, d.last().path, h);
                assert(status_fits(c));
                assert forall|k: int| 0 <= k < hashed_diffs(e, d).len() implies status_fits(#[trigger] hashed_diffs(e, d)[k]) by {
                    if k < prev.len() {
                        assert(hashed_diffs(e, d)[k] == prev[k]);
                    }
                }
            },
            _ => {},
        }
    }
}

proof fn lemma_missing_fit(e: Seq<EntryView>, d: Seq<DiskView>, n: int)
    ensures
        forall|k: int| 0 <= k < missing_diffs(e, d, n).len() ==> status_fits(#[trigger] missing_diffs(e, d, n)[k]),
    decreases n,
{
    if n > 0 {
        let prev = missing_diffs(e, d, n - 1);
        lemma_missing_fit(e, d, n - 1);
        assert forall|k: int| 0 <= k < missing_diffs(e, d, n).len() implies status_fits(#[trigger] missing_diffs(e, d, n)[k]) by {
            if k < prev.len() {
                assert(missing_diffs(e, d, n)[k] == prev[k]);
            }
        }
    }
}

/// Every line of a comparison has a status that agrees with its hashes:
/// a file is reported Unchanged only when its new hash equals the hash the
/// database records, and Modified only when the two differ.
pub proof fn law_statuses_fit_hashes(e: Seq<EntryView>, d: Seq<DiskView>)
    ensures
        forall|k: int| 0 <= k < all_diffs(e, d).len() ==> status_fits(#[trigger] all_diffs(e, d)[k]),
{
    lemma_hashed_fit(e, d);
    lemma_missing_fit(e, d, e.len() as int);
    let h = hashed_diffs(e, d);
    let m = missing_diffs(e, d, e.len() as int);
    assert forall|k: int| 0 <= k < all_diffs(e, d).len() implies status_fits(#[trigger] all_diffs(e, d)[k]) by {
        if k < h.len() {
            assert(all_diffs(e, d)[k] == h[k]);
        } else {
            assert(all_diffs(e, d)[k] == m[k - h.len()]);
        }
    }
}

proof fn lemma_hashed_has(e: Seq<EntryView>, d: Seq<DiskView>, i: int, h: Seq<char>)
    requires
        0 <= i < d.len(),
        d[i].outcome == OutcomeView::Hashed(h),
    ensures
        hashed_diffs(e, d).contains(classify(e, d[i].path, h)),
    decreases d.len(),
{
    if i < d.len() - 1 {
        lemma_hashed_has(e, d.drop_last(), i, h);
        let prev = hashed_diffs(e, d.drop_last());
        let j = choose|j: int| 0 <= j < prev.len() && prev[j] == classify(e, d[i].path, h);
        match d.last().outcome {
            OutcomeView::Hashed(x) => {
                assert(hashed_diffs(e, d)[j] == prev[j]);
            },
            _ => {},
        }
    } else {
        let prev = hashed_diffs(e, d.drop_last());
        assert(hashed_diffs(e, d)[prev.len() as int] == classify(e, d[i].path, h));
    }
}

/// A file hashed to `h` whose path's last database entry records another
/// hash `h0` gives a Modified line with old hash `h0` and new hash `h`.
pub proof fn law_changed_file_is_modified(e: Seq<EntryView>, d: Seq<DiskView>, i: int, h: Seq<char>, j: int)
    requires
        0 <= i < d.len(),
        d[i].outcome == OutcomeView::Hashed(h),
        last_with(entry_keys(e), path_key(d[i].path)) == Some(j),
        e[j].0 != h,
    ensures
        all_diffs(e, d).contains(
            DiffView { path: d[i].path, status: FileStatus::Modified, old_hash: Some(e[j].0), new_hash: Some(h) },
        ),
{
    lemma_hashed_has(e, d, i, h);
    let line = classify(e, d[i].path, h);
    let hd = hashed_diffs(e, d);
    let k = choose|k: int| 0 <= k < hd.len() && hd[k] == line;
    assert(all_diffs(e, d)[k] == line);
}

proof fn lemma_fit_by_multiset(a: Seq<DiffView>, b: Seq<DiffView>)
    requires
        a.to_multiset() == b.to_multiset(),
        forall|k: int| 0 <= k < b.len() ==> status_fits(#[trigger] b[k]),
    ensures
        forall|k: int| 0 <= k < a.len() ==> status_fits(#[trigger] a[k]),
{
    broadcast use vstd::seq_lib::group_to_multiset_ensures;
    a.to_multiset_ensures();
    b.to_multiset_ensures();
    assert forall|k: int| 0 <= k < a.len() implies status_fits(#[trigger] a[k]) by {
        assert(a.contains(a[k]));
        assert(a.to_multiset().count(a[k]) > 0);
        assert(b.to_multiset().count(a[k]) > 0);
        assert(b.contains(a[k]));
        let j = choose|j: int| 0 <= j < b.len() && b[j] == a[k];
        assert(status_fits(b[j]));
    }
}

/// The second line of a report counts the lines by status, in the order
/// unchanged, modified, missing, new, each number before its word.
pub proof fn law_report_header_counts(stamp: Seq<char>, st: VerifyStats, lines: Seq<DiffView>, n_errors: nat)
    requires
        stats_describe(st, lines, n_errors),
    ensures
        starts_with(
            report_text(stamp, st, lines),
            "# hashmyfiles verification report\n"@ + "# "@ + stamp + ": "@ + decimal(
                count_status(lines, FileStatus::Unchanged),
            ) + " unchanged, "@ + decimal(count_status(lines, FileStatus::Modified)) + " modified, "@
                + decimal(count_status(lines, FileStatus::Missing)) + " missing, "@ + decimal(
                count_status(lines, FileStatus::New),
            ) + " new\n"@,
        ),
{
    let p = "# hashmyfiles verification report\n"@ + "# "@ + stamp + ": "@ + decimal(
        count_status(lines, FileStatus::Unchanged),
    ) + " unchanged, "@ + decimal(count_status(lines, FileStatus::Modified)) + " modified, "@
        + decimal(count_status(lines, FileStatus::Missing)) + " missing, "@ + decimal(
        count_status(lines, FileStatus::New),
    ) + " new\n"@;
    let t = report_text(stamp, st, lines);
    assert(t =~= p + ("#\n"@ + report_entries(lines)));
    assert(t.subrange(0, p.len() as int) =~= p);
}

/// The CSV of a comparison has a header row and then one row per line, in
/// order: its path, its status label (the label tells the status), and its
/// old and new hashes, empty where absent.
pub proof fn law_result_csv_columns(lines: Seq<DiffView>)
    ensures
        result_csv_rows(lines).len() == lines.len() + 1,
        forall|j: int|
            1 <= j <= lines.len() ==> {
                let row = #[trigger] result_csv_rows(lines)[j];
                &&& row.len() == 4
                &&& row[0] == lines[j - 1].path
                &&& row[1] == status_label(lines[j - 1].status)
                &&& (lines[j - 1].old_hash matches Some(h) ==> row[2] == h)
                &&& (lines[j - 1].new_hash matches Some(h) ==> row[3] == h)
            },
        forall|a: FileStatus, b: FileStatus| status_label(a) == status_label(b) ==> a == b,
{
    reveal_strlit("Unchanged");
    reveal_strlit("Modified");
    reveal_strlit("Missing");
    reveal_strlit("New");
    assert forall|a: FileStatus, b: FileStatus| status_label(a) == status_label(b) implies a == b by {
        if a != b {
            assert(status_label(a).len() != status_label(b).len() || status_label(a)[1] != status_label(b)[1]
                || status_label(a)[2] != status_label(b)[2]);
        }
    }
}

} // verus!
