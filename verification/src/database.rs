//! The hash database: its entries, its text format (writing and reading),
//! and its CSV export.

use vstd::prelude::*;
use crate::clock::{
    file_time_text, instants_close, is_digit, year_text, local_now_text, local_timestamp, timestamp_parses, timestamp_text,
    FILENAME_TIME_FORMAT, TIMESTAMP_FORMAT,
};
use crate::compare::{entry_keys, keys_of_entries, last_with, path_key};
use crate::csv_out::{csv_records, encode_csv};
use crate::index::{lemma_last_with_char, KeyIndex};
use crate::paths::components;
use crate::hasher::{algorithm_from_digest_len, algorithm_from_name, algorithm_name, law_name_roundtrip, HashAlgorithm};
use crate::text::{
    chars_of, decimal, first_double_space, has_prefix, push_char, push_decimal, starts_with,
    string_of, substring, text_lines, trim, trim_bounds, utf8_len, find_double_space, split_lines,
    is_trimmed, is_ws, split_on, strip_cr, lemma_decimal_digits, lemma_first_double_space,
    lemma_split_append_nosep, lemma_trim_nonempty, lemma_trim_of_trimmed,
};

verus! {

/// First line of every database file.
pub const DB_MAGIC: &'static str = "# hashmyfiles";

/// Format version written after the magic text.
pub const DB_VERSION: &'static str = "1.0";

/// One file of the database: its hex digest and its path.
#[derive(Debug, Clone)]
pub struct HashEntry {
    pub hash: String,
    pub path: String,
}

/// An entry as a pair of texts: (hash, path).
pub type EntryView = (Seq<char>, Seq<char>);

impl View for HashEntry {
    type V = EntryView;

    open spec fn view(&self) -> EntryView {
        (self.hash@, self.path@)
    }
}

pub open spec fn entries_view(v: Seq<HashEntry>) -> Seq<EntryView> {
    Seq::new(v.len(), |i: int| v[i]@)
}

/// The database in memory.
#[derive(Debug, Clone)]
pub struct HashDatabase {
    pub algorithm: HashAlgorithm,
    /// Creation time, as written in the header.
    pub created_at: String,
    /// The file the database was read from, if any.
    pub source_path: Option<String>,
    pub entries: Vec<HashEntry>,
}

/// Errors of reading and exporting a database.
#[derive(Debug, Clone, Copy, PartialEq, Eq, Structural)]
pub enum DbError {
    /// The text has neither the magic header nor any entry.
    NotADatabase,
    /// The CSV writer reported an error.
    CsvWrite,
}

/// The header lines of the text format.
pub open spec fn header_lines(a: HashAlgorithm, created: Seq<char>, n: nat) -> Seq<Seq<char>> {
    seq![
        DB_MAGIC@ + " v"@ + DB_VERSION@,
        "# algorithm="@ + algorithm_name(a),
        "# created="@ + created,
        "# entries="@ + decimal(n),
        "#"@,
    ]
}

/// The line of one entry: hash, two spaces, path.
pub open spec fn entry_line(e: EntryView) -> Seq<char> {
    e.0 + "  "@ + e.1
}

/// All lines of the text format.
pub open spec fn database_lines(a: HashAlgorithm, created: Seq<char>, entries: Seq<EntryView>) -> Seq<Seq<char>> {
    header_lines(a, created, entries.len()) + Seq::new(entries.len(), |i: int| entry_line(entries[i]))
}

/// Lines joined, each closed by a line feed.
pub open spec fn join_lines(lines: Seq<Seq<char>>) -> Seq<char>
    decreases lines.len(),
{
    if lines.len() == 0 {
        seq![]
    } else {
        join_lines(lines.drop_last()) + lines.last().push('\n')
    }
}

/// What reading a database text gathers.
pub struct ParseView {
    pub algorithm: Option<HashAlgorithm>,
    /// Texts of the `# created=` header lines, trimmed, in order.
    pub created: Seq<Seq<char>>,
    pub entries: Seq<EntryView>,
    pub found_magic: bool,
}

pub open spec fn parse_start() -> ParseView {
    ParseView { algorithm: None, created: seq![], entries: seq![], found_magic: false }
}

/// The effect of one line on what has been gathered.
pub open spec fn parse_step(st: ParseView, line: Seq<char>) -> ParseView {
    if starts_with(line, "#"@) {
        if starts_with(line, DB_MAGIC@) {
            ParseView { found_magic: true, ..st }
        } else if starts_with(line, "# algorithm="@) {
            ParseView {
                algorithm: algorithm_from_name(trim(line.subrange(12, line.len() as int))),
                ..st
            }
        } else if starts_with(line, "# created="@) {
            ParseView { created: st.created.push(trim(line.subrange(10, line.len() as int))), ..st }
        } else {
            st
        }
    } else if trim(line).len() == 0 {
        st
    } else {
        match first_double_space(line) {
            None => st,
            Some(k) => {
                let hash = trim(line.subrange(0, k));
                let path = trim(line.subrange(k + 2, line.len() as int));
                ParseView {
                    algorithm: if st.algorithm is None {
                        algorithm_from_digest_len(utf8_len(hash))
                    } else {
                        st.algorithm
                    },
                    entries: st.entries.push((hash, path)),
                    ..st
                }
            },
        }
    }
}

/// What reading these lines gathers.
pub open spec fn parse_lines_view(lines: Seq<Seq<char>>) -> ParseView
    decreases lines.len(),
{
    if lines.len() == 0 {
        parse_start()
    } else {
        parse_step(parse_lines_view(lines.drop_last()), lines.last())
    }
}

/// What reading this text gathers.
pub open spec fn parse_text_view(text: Seq<char>) -> ParseView {
    parse_lines_view(text_lines(text))
}

/// The result of reading a database text, before its creation time is
/// interpreted.
pub struct ParsedDatabase {
    pub algorithm: Option<HashAlgorithm>,
    pub created: Vec<String>,
    pub entries: Vec<HashEntry>,
    pub found_magic: bool,
}

impl View for ParsedDatabase {
    type V = ParseView;

    open spec fn view(&self) -> ParseView {
        ParseView {
            algorithm: self.algorithm,
            created: self.created.deep_view(),
            entries: entries_view(self.entries@),
            found_magic: self.found_magic,
        }
    }
}

fn string_from_trimmed(v: &Vec<char>, lo: usize, hi: usize) -> (res: String)
    requires
        lo <= hi <= v@.len(),
    ensures
        res@ == trim(v@.subrange(lo as int, hi as int)),
{
    let (a, b) = trim_bounds(v, lo, hi);
    substring(v, a, b)
}

impl ParsedDatabase {
    fn empty() -> (p: ParsedDatabase)
        ensures
            p@ == parse_start(),
    {
        let p = ParsedDatabase { algorithm: None, created: Vec::new(), entries: Vec::new(), found_magic: false };
        assert(p@.created =~= parse_start().created);
        assert(p@.entries =~= parse_start().entries);
        p
    }

    /// Takes one line into account.
    fn take_line(&mut self, line: &String)
        ensures
            final(self)@ == parse_step(old(self)@, line@),
    {
        let v = chars_of(line.as_str());
        proof {
            reveal_strlit("#");
            reveal_strlit("# hashmyfiles");
            reveal_strlit("# algorithm=");
            reveal_strlit("# created=");
        }
        if has_prefix(&v, "#") {
            if has_prefix(&v, DB_MAGIC) {
                self.found_magic = true;
            } else if has_prefix(&v, "# algorithm=") {
                let name = string_from_trimmed(&v, 12, v.len());
                self.algorithm = HashAlgorithm::from_str(name.as_str());
            } else if has_prefix(&v, "# created=") {
                let text = string_from_trimmed(&v, 10, v.len());
                let ghost before = self.created.deep_view();
                self.created.push(text);
                assert(self.created.deep_view() =~= before.push(trim(line@.subrange(10, line@.len() as int))));
            }
            return;
        }
        let (a, b) = trim_bounds(&v, 0, v.len());
        assert(v@.subrange(0, v@.len() as int) =~= v@);
        if a == b {
            return;
        }
        assert(!starts_with(line@, "#"@));
        assert(trim(line@).len() != 0);
        match find_double_space(&v) {
            None => {},
            Some(k) => {
                let hash = string_from_trimmed(&v, 0, k);
                let path = string_from_trimmed(&v, k + 2, v.len());
                if self.algorithm.is_none() {
                    self.algorithm = HashAlgorithm::detect_from_hash(hash.as_str());
                }
                let ghost before = entries_view(self.entries@);
                self.entries.push(HashEntry { hash, path });
                assert(entries_view(self.entries@) =~= before.push(
                    (trim(line@.subrange(0, k as int)), trim(line@.subrange(k + 2, line@.len() as int))),
                ));
                assert(first_double_space(line@) == Some(k as int));
                assert(self.created == old(self).created);
                assert(self.found_magic == old(self).found_magic);
            },
        }
    }
}

/// Reads the lines of a database text.
pub fn parse_lines(lines: &Vec<String>) -> (res: ParsedDatabase)
    ensures
        res@ == parse_lines_view(lines.deep_view()),
{
    let mut st = ParsedDatabase::empty();
    let mut i: usize = 0;
    assert(lines.deep_view().subrange(0, 0) =~= Seq::<Seq<char>>::empty());
    while i < lines.len()
        invariant
            0 <= i <= lines@.len(),
            st@ == parse_lines_view(lines.deep_view().subrange(0, i as int)),
        decreases lines@.len() - i,
    {
        st.take_line(&lines[i]);
        proof {
            let d = lines.deep_view();
            assert(d.subrange(0, i + 1).drop_last() =~= d.subrange(0, i as int));
            assert(d.subrange(0, i + 1).last() == lines@[i as int]@);
        }
        i = i + 1;
    }
    assert(lines.deep_view().subrange(0, lines@.len() as int) =~= lines.deep_view());
    st
}

/// The database as plain values.
pub struct DatabaseView {
    pub algorithm: HashAlgorithm,
    pub created: Seq<char>,
    pub source: Option<Seq<char>>,
    pub entries: Seq<EntryView>,
}

pub open spec fn opt_text(o: Option<String>) -> Option<Seq<char>> {
    match o {
        Some(s) => Some(s@),
        None => None,
    }
}

impl View for HashDatabase {
    type V = DatabaseView;

    open spec fn view(&self) -> DatabaseView {
        DatabaseView {
            algorithm: self.algorithm,
            created: self.created_at@,
            source: opt_text(self.source_path),
            entries: entries_view(self.entries@),
        }
    }
}

/// The text a database is saved as.
pub open spec fn database_text(db: DatabaseView) -> Seq<char> {
    join_lines(database_lines(db.algorithm, db.created, db.entries))
}

/// The algorithm a read database takes: the one gathered, else SHA-256.
pub open spec fn algorithm_or_default(a: Option<HashAlgorithm>) -> HashAlgorithm {
    match a {
        Some(x) => x,
        None => HashAlgorithm::Sha256,
    }
}

/// Reading fails exactly when the text has no magic header and no entry.
pub open spec fn is_database(p: ParseView) -> bool {
    p.found_magic || p.entries.len() > 0
}

fn push_line_end(out: &mut String, Ghost(done): Ghost<Seq<Seq<char>>>, Ghost(line): Ghost<Seq<char>>)
    requires
        old(out)@ == join_lines(done) + line,
    ensures
        final(out)@ == join_lines(done.push(line)),
{
    push_char(out, '\n');
    assert(done.push(line).drop_last() =~= done);
    assert(final(out)@ =~= join_lines(done.push(line)));
}

impl HashDatabase {
    /// An empty database for `algorithm`, created now.
    pub fn new(algorithm: HashAlgorithm) -> (db: Self)
        ensures
            db.algorithm == algorithm,
            timestamp_text(db.created_at@),
            db.source_path is None,
            db.entries@.len() == 0,
    {
        HashDatabase {
            algorithm,
            created_at: local_now_text(TIMESTAMP_FORMAT),
            source_path: None,
            entries: Vec::new(),
        }
    }

    /// The database in its text format: a header (magic and version,
    /// algorithm, creation time, number of entries, and a lone `#`), then
    /// one `hash  path` line per entry. The caller writes it to a file.
    pub fn save_txt(&self) -> (text: String)
        ensures
            text@ == database_text(self@),
    {
        let ghost lines = database_lines(self.algorithm, self.created_at@, entries_view(self.entries@));
        let ghost hdr = header_lines(self.algorithm, self.created_at@, self.entries@.len() as nat);
        let mut out = String::new();
        assert(join_lines(Seq::<Seq<char>>::empty()) == Seq::<char>::empty());
        out.append(DB_MAGIC);
        out.append(" v");
        out.append(DB_VERSION);
        push_line_end(&mut out, Ghost(Seq::empty()), Ghost(hdr[0]));
        assert(hdr.subrange(0, 1) =~= Seq::<Seq<char>>::empty().push(hdr[0]));
        out.append("# algorithm=");
        out.append(self.algorithm.as_str());
        assert(out@ =~= join_lines(hdr.subrange(0, 1)) + hdr[1]);
        push_line_end(&mut out, Ghost(hdr.subrange(0, 1)), Ghost(hdr[1]));
        assert(hdr.subrange(0, 1).push(hdr[1]) =~= hdr.subrange(0, 2));
        out.append("# created=");
        out.append(self.created_at.as_str());
        assert(out@ =~= join_lines(hdr.subrange(0, 2)) + hdr[2]);
        push_line_end(&mut out, Ghost(hdr.subrange(0, 2)), Ghost(hdr[2]));
        assert(hdr.subrange(0, 2).push(hdr[2]) =~= hdr.subrange(0, 3));
        out.append("# entries=");
        push_decimal(&mut out, self.entries.len() as u64);
        assert(out@ =~= join_lines(hdr.subrange(0, 3)) + hdr[3]);
        push_line_end(&mut out, Ghost(hdr.subrange(0, 3)), Ghost(hdr[3]));
        assert(hdr.subrange(0, 3).push(hdr[3]) =~= hdr.subrange(0, 4));
        out.append("#");
        push_line_end(&mut out, Ghost(hdr.subrange(0, 4)), Ghost(hdr[4]));
        assert(hdr.subrange(0, 4).push(hdr[4]) =~= hdr);
        assert(lines.subrange(0, 5) =~= hdr);
        let mut i: usize = 0;
        while i < self.entries.len()
            invariant
                0 <= i <= self.entries@.len(),
                lines == database_lines(self.algorithm, self.created_at@, entries_view(self.entries@)),
                lines.len() == 5 + self.entries@.len(),
                out@ == join_lines(lines.subrange(0, 5 + i)),
            decreases self.entries@.len() - i,
        {
            let e = &self.entries[i];
            out.append(e.hash.as_str());
            out.append("  ");
            out.append(e.path.as_str());
            assert(lines[5 + i] == entry_line(self.entries@[i as int]@));
            assert(out@ =~= join_lines(lines.subrange(0, 5 + i)) + lines[5 + i]);
            push_line_end(&mut out, Ghost(lines.subrange(0, 5 + i)), Ghost(lines[5 + i]));
            assert(lines.subrange(0, 5 + i).push(lines[5 + i]) =~= lines.subrange(0, 5 + i + 1));
            i = i + 1;
        }
        assert(lines.subrange(0, lines.len() as int) =~= lines);
        out
    }

    /// Reads a database from its text; `source_path` is where the text came
    /// from. Header lines give the algorithm and the creation time; data
    /// lines `hash  path` give the entries, in order. Without an algorithm
    /// header, the algorithm is guessed from the first digest's length. The
    /// creation time is the last `# created=` time that parses, shown in the
    /// local time zone (the same instant, to within the rounding of the
    /// local offset to whole minutes); without one, the current time.
    pub fn load_txt(text: &str, source_path: &str) -> (res: Result<Self, DbError>)
        ensures
            res is Err <==> !is_database(parse_text_view(text@)),
            res matches Err(e) ==> e == DbError::NotADatabase,
            res matches Ok(db) ==> {
                &&& db.algorithm == algorithm_or_default(parse_text_view(text@).algorithm)
                &&& entries_view(db.entries@) == parse_text_view(text@).entries
                &&& db.source_path == Some(db.source_path->0) && db.source_path->0@ == source_path@
                &&& timestamp_text(db.created_at@)
                &&& (last_parsing(parse_text_view(text@).created) matches Some(c) ==> (timestamp_text(c)
                    ==> instants_close(db.created_at@, c)))
            },
    {
        let lines = split_lines(text);
        let parsed = parse_lines(&lines);
        if !parsed.found_magic && parsed.entries.len() == 0 {
            return Err(DbError::NotADatabase);
        }
        let mut converted: Vec<Option<String>> = Vec::new();
        let mut i: usize = 0;
        while i < parsed.created.len()
            invariant
                0 <= i <= parsed.created@.len(),
                converted@.len() == i,
                forall|j: int| 0 <= j < i ==> (#[trigger] converted@[j] is Some) == timestamp_parses(parsed.created@[j]@),
                forall|j: int| 0 <= j < i ==> converted_time(#[trigger] converted@[j], parsed.created@[j]@),
            decreases parsed.created@.len() - i,
        {
            let v = local_timestamp(parsed.created[i].as_str());
            converted.push(v);
            i = i + 1;
        }
        proof {
            lemma_last_present_choice(converted@, parsed.created.deep_view());
        }
        let created_at = match last_creation_time(converted) {
            Some(t) => t,
            None => local_now_text(TIMESTAMP_FORMAT),
        };
        let algorithm = match parsed.algorithm {
            Some(a) => a,
            None => HashAlgorithm::Sha256,
        };
        Ok(HashDatabase {
            algorithm,
            created_at,
            source_path: Some(String::from_str(source_path)),
            entries: parsed.entries,
        })
    }
}

/// An entry whose line reads back as the same entry: hash and path
/// without surrounding whitespace or line feeds, a hash without two
/// consecutive spaces and not starting with `#`, and not both empty.
pub open spec fn entry_roundtrips(e: EntryView) -> bool {
    &&& is_trimmed(e.0)
    &&& is_trimmed(e.1)
    &&& first_double_space(e.0) is None
    &&& !(e.0.len() > 0 && e.0[0] == '#')
    &&& e.0.len() + e.1.len() > 0
    &&& !e.0.contains('\n')
    &&& !e.1.contains('\n')
}

/// A database whose text reads back as the same database.
pub open spec fn database_roundtrips(db: DatabaseView) -> bool {
    &&& forall|i: int| 0 <= i < db.entries.len() ==> entry_roundtrips(#[trigger] db.entries[i])
    &&& !db.created.contains('\n')
    &&& !(db.created.len() > 0 && db.created.last() == '\r')
}

/// What reading the header of a saved database gathers.
pub open spec fn after_header(a: HashAlgorithm, created: Seq<char>) -> ParseView {
    ParseView { algorithm: Some(a), created: seq![trim(created)], entries: seq![], found_magic: true }
}

proof fn lemma_split_join(lines: Seq<Seq<char>>)
    requires
        forall|i: int| 0 <= i < lines.len() ==> !(#[trigger] lines[i]).contains('\n'),
    ensures
        split_on(join_lines(lines), '\n') == lines.push(Seq::<char>::empty()),
    decreases lines.len(),
{
    if lines.len() == 0 {
        assert(lines.push(Seq::<char>::empty()) =~= seq![Seq::<char>::empty()]);
    } else {
        let prev = lines.drop_last();
        let l = lines.last();
        assert forall|i: int| 0 <= i < prev.len() implies !(#[trigger] prev[i]).contains('\n') by {
            assert(prev[i] == lines[i]);
        }
        lemma_split_join(prev);
        let x = join_lines(prev);
        assert(!l.contains('\n')) by {
            assert(l == lines[lines.len() - 1]);
        }
        lemma_split_append_nosep(x, l, '\n');
        let y = (x + l).push('\n');
        assert(join_lines(lines) =~= y);
        assert(y.drop_last() =~= x + l);
        assert(Seq::<char>::empty() + l =~= l);
        assert(prev.push(Seq::<char>::empty()).update(prev.len() as int, l) =~= lines);
    }
}

/// Lines joined with line feeds split back into the same lines.
pub proof fn lemma_text_lines_join(lines: Seq<Seq<char>>)
    requires
        forall|i: int| 0 <= i < lines.len() ==> !(#[trigger] lines[i]).contains('\n'),
        forall|i: int| 0 <= i < lines.len() ==> strip_cr(#[trigger] lines[i]) == lines[i],
    ensures
        text_lines(join_lines(lines)) == lines,
{
    lemma_split_join(lines);
    let p = lines.push(Seq::<char>::empty());
    assert(Seq::new((p.len() - 1) as nat, |i: int| strip_cr(p[i])) =~= lines);
}

proof fn lemma_name_roundtrip(a: HashAlgorithm)
    ensures
        algorithm_from_name(trim(algorithm_name(a))) == Some(a),
        is_trimmed(algorithm_name(a)),
        algorithm_name(a).len() == 6,
        !algorithm_name(a).contains('\n'),
        algorithm_name(a).last() != '\r',
{
    let n = algorithm_name(a);
    assert(is_trimmed(n));
    lemma_trim_of_trimmed(n);
    law_name_roundtrip(a);
    assert(!n.contains('\n')) by {
        if n.contains('\n') {
            let k = choose|k: int| 0 <= k < n.len() && n[k] == '\n';
        }
    }
}

proof fn lemma_parse_push(lines: Seq<Seq<char>>, l: Seq<char>)
    ensures
        parse_lines_view(lines.push(l)) == parse_step(parse_lines_view(lines), l),
{
    assert(lines.push(l).drop_last() =~= lines);
}

proof fn lemma_parse_header(a: HashAlgorithm, created: Seq<char>, n: nat)
    ensures
        parse_lines_view(header_lines(a, created, n)) == after_header(a, created),
{
    reveal_strlit("#");
    reveal_strlit("# hashmyfiles");
    reveal_strlit(" v");
    reveal_strlit("1.0");
    reveal_strlit("# algorithm=");
    reveal_strlit("# created=");
    reveal_strlit("# entries=");
    let h = header_lines(a, created, n);
    let magic: Seq<char> = DB_MAGIC@;
    lemma_name_roundtrip(a);
    lemma_decimal_digits(n);
    // line 0: the magic text
    let l0 = h[0];
    assert(l0.subrange(0, 1) =~= "#"@);
    assert(l0.subrange(0, 13) =~= magic);
    let st1 = ParseView { found_magic: true, ..parse_start() };
    assert(h.subrange(0, 1) =~= Seq::<Seq<char>>::empty().push(l0));
    lemma_parse_push(Seq::<Seq<char>>::empty(), l0);
    assert(parse_lines_view(h.subrange(0, 1)) == st1);
    // line 1: the algorithm
    let l1 = h[1];
    assert(l1.subrange(0, 1) =~= "#"@);
    assert(l1.subrange(0, 13)[2] != magic[2]);
    assert(l1.subrange(0, 12) =~= "# algorithm="@);
    assert(l1.subrange(12, l1.len() as int) =~= algorithm_name(a));
    let st2 = ParseView { algorithm: Some(a), ..st1 };
    assert(h.subrange(0, 2) =~= h.subrange(0, 1).push(l1));
    lemma_parse_push(h.subrange(0, 1), l1);
    assert(parse_lines_view(h.subrange(0, 2)) == st2);
    // line 2: the creation time
    let l2 = h[2];
    assert(l2.subrange(0, 1) =~= "#"@);
    if l2.len() >= 13 {
        assert(l2.subrange(0, 13)[2] != magic[2]);
    }
    if l2.len() >= 12 {
        assert(l2.subrange(0, 12)[2] != "# algorithm="@[2]);
    }
    assert(l2.subrange(0, 10) =~= "# created="@);
    assert(l2.subrange(10, l2.len() as int) =~= created);
    let st3 = ParseView { created: seq![trim(created)], ..st2 };
    assert(st2.created.push(trim(created)) =~= seq![trim(created)]);
    assert(h.subrange(0, 3) =~= h.subrange(0, 2).push(l2));
    lemma_parse_push(h.subrange(0, 2), l2);
    assert(parse_lines_view(h.subrange(0, 3)) == st3);
    // line 3: the number of entries
    let l3 = h[3];
    assert(l3.subrange(0, 1) =~= "#"@);
    if l3.len() >= 13 {
        assert(l3.subrange(0, 13)[2] != magic[2]);
    }
    if l3.len() >= 12 {
        assert(l3.subrange(0, 12)[2] != "# algorithm="@[2]);
    }
    assert(l3.subrange(0, 10)[2] != "# created="@[2]);
    assert(h.subrange(0, 4) =~= h.subrange(0, 3).push(l3));
    lemma_parse_push(h.subrange(0, 3), l3);
    assert(parse_lines_view(h.subrange(0, 4)) == st3);
    // line 4: a lone `#`
    let l4 = h[4];
    assert(l4 =~= "#"@);
    assert(l4.subrange(0, 1) =~= "#"@);
    assert(h =~= h.subrange(0, 4).push(l4));
    lemma_parse_push(h.subrange(0, 4), l4);
    assert(st3 == after_header(a, created));
}

proof fn lemma_parse_entry_line(st: ParseView, e: EntryView)
    requires
        entry_roundtrips(e),
        st.algorithm is Some,
    ensures
        parse_step(st, entry_line(e)) == (ParseView { entries: st.entries.push(e), ..st }),
{
    reveal_strlit("#");
    reveal_strlit("  ");
    let h = e.0;
    let p = e.1;
    let line = entry_line(e);
    let k = h.len() as int;
    assert(line =~= h + seq![' ', ' '] + p);
    assert(line[k] == ' ' && line[k + 1] == ' ');
    // not a header line
    if h.len() > 0 {
        assert(line[0] == h[0]);
    }
    assert(!starts_with(line, "#"@)) by {
        if starts_with(line, "#"@) {
            assert(line.subrange(0, 1)[0] == '#');
        }
    }
    // not blank
    if h.len() > 0 {
        assert(line[0] == h[0]);
        lemma_trim_nonempty(line, 0);
    } else {
        assert(line[2] == p[0]);
        lemma_trim_nonempty(line, 2);
    }
    // the separator is found right after the hash
    lemma_first_double_space(line);
    lemma_first_double_space(h);
    match first_double_space(line) {
        Some(j) => {
            if j < k {
                if j + 1 < k {
                    assert(line[j] == h[j] && line[j + 1] == h[j + 1]);
                } else {
                    assert(line[j] == h.last());
                }
            }
        },
        None => {},
    }
    assert(first_double_space(line) == Some(k));
    assert(line.subrange(0, k) =~= h);
    assert(line.subrange(k + 2, line.len() as int) =~= p);
    lemma_trim_of_trimmed(h);
    lemma_trim_of_trimmed(p);
}

proof fn lemma_parse_entries(a: HashAlgorithm, created: Seq<char>, entries: Seq<EntryView>, k: int)
    requires
        0 <= k <= entries.len(),
        forall|i: int| 0 <= i < entries.len() ==> entry_roundtrips(#[trigger] entries[i]),
    ensures
        parse_lines_view(
            header_lines(a, created, entries.len()) + Seq::new(k as nat, |i: int| entry_line(entries[i])),
        ) == (ParseView { entries: entries.subrange(0, k), ..after_header(a, created) }),
    decreases k,
{
    let h = header_lines(a, created, entries.len());
    if k == 0 {
        assert(h + Seq::new(0, |i: int| entry_line(entries[i])) =~= h);
        lemma_parse_header(a, created, entries.len());
        assert(entries.subrange(0, 0) =~= Seq::<EntryView>::empty());
    } else {
        lemma_parse_entries(a, created, entries, k - 1);
        let prev = h + Seq::new((k - 1) as nat, |i: int| entry_line(entries[i]));
        assert(h + Seq::new(k as nat, |i: int| entry_line(entries[i])) =~= prev.push(entry_line(entries[k - 1])));
        lemma_parse_push(prev, entry_line(entries[k - 1]));
        lemma_parse_entry_line(
            ParseView { entries: entries.subrange(0, k - 1), ..after_header(a, created) },
            entries[k - 1],
        );
        assert(entries.subrange(0, k - 1).push(entries[k - 1]) =~= entries.subrange(0, k));
    }
}

/// Reading back a saved database gives its algorithm and its entries, in
/// order, together with its creation text (trimmed), provided every entry
/// and the creation text survive the line format (`database_roundtrips`).
pub proof fn law_save_then_parse(db: DatabaseView)
    requires
        database_roundtrips(db),
    ensures
        parse_text_view(database_text(db)) == (ParseView {
            algorithm: Some(db.algorithm),
            created: seq![trim(db.created)],
            entries: db.entries,
            found_magic: true,
        }),
{
    reveal_strlit("#");
    reveal_strlit("# hashmyfiles");
    reveal_strlit(" v");
    reveal_strlit("1.0");
    reveal_strlit("# algorithm=");
    reveal_strlit("# created=");
    reveal_strlit("# entries=");
    reveal_strlit("  ");
    let lines = database_lines(db.algorithm, db.created, db.entries);
    let h = header_lines(db.algorithm, db.created, db.entries.len());
    lemma_name_roundtrip(db.algorithm);
    lemma_decimal_digits(db.entries.len());
    let name = algorithm_name(db.algorithm);
    let dec = decimal(db.entries.len());
    assert forall|i: int| 0 <= i < lines.len() implies !(#[trigger] lines[i]).contains('\n') && strip_cr(lines[i]) == lines[i] by {
        if i < 5 {
            assert(lines[i] == h[i]);
            if lines[i].contains('\n') {
                let j = choose|j: int| 0 <= j < lines[i].len() && lines[i][j] == '\n';
                if i == 1 {
                    assert(lines[i][j] == name[j - 12]);
                } else if i == 2 {
                    assert(lines[i][j] == db.created[j - 10]);
                } else if i == 3 {
                    assert(lines[i][j] == dec[j - 10]);
                }
            }
            if i == 1 {
                assert(lines[i].last() == name.last());
            } else if i == 2 {
                if db.created.len() > 0 {
                    assert(lines[i].last() == db.created.last());
                }
            } else if i == 3 {
                assert(lines[i].last() == dec[dec.len() - 1]);
            }
        } else {
            let e = db.entries[i - 5];
            assert(entry_roundtrips(e));
            assert(lines[i] == entry_line(e));
            let l = lines[i];
            assert(l =~= e.0 + seq![' ', ' '] + e.1);
            if l.contains('\n') {
                let j = choose|j: int| 0 <= j < l.len() && l[j] == '\n';
                if j < e.0.len() {
                    assert(l[j] == e.0[j]);
                } else if j >= e.0.len() + 2 {
                    assert(l[j] == e.1[j - e.0.len() - 2]);
                }
            }
            if e.1.len() > 0 {
                assert(l.last() == e.1.last());
            }
        }
    }
    lemma_text_lines_join(lines);
    lemma_parse_entries(db.algorithm, db.created, db.entries, db.entries.len() as int);
    assert(db.entries.subrange(0, db.entries.len() as int) =~= db.entries);
}

/// Loading the text that `save_txt` writes succeeds and gives back the
/// algorithm and the entries, for every database whose entries and
/// creation text survive the line format.
pub proof fn law_save_then_load(db: DatabaseView)
    requires
        database_roundtrips(db),
    ensures
        is_database(parse_text_view(database_text(db))),
        algorithm_or_default(parse_text_view(database_text(db)).algorithm) == db.algorithm,
        parse_text_view(database_text(db)).entries == db.entries,
{
    law_save_then_parse(db);
}

/// The rows of the CSV export: a header, then hash, path, algorithm and
/// creation time for each entry.
pub open spec fn database_csv_rows(db: DatabaseView) -> Seq<Seq<Seq<char>>> {
    seq![seq!["hash"@, "path"@, "algorithm"@, "created"@]] + Seq::new(
        db.entries.len(),
        |i: int| seq![db.entries[i].0, db.entries[i].1, algorithm_name(db.algorithm), db.created],
    )
}

/// `hash_`, the time, and `.txt`.
pub open spec fn output_filename(stamp: Seq<char>) -> Seq<char> {
    "hash_"@ + stamp + ".txt"@
}

/// The default file name for a database saved at the time `stamp`.
pub fn output_filename_for(stamp: &str) -> (name: String)
    ensures
        name@ == output_filename(stamp@),
{
    let mut name = String::from_str("hash_");
    name.append(stamp);
    name.append(".txt");
    name
}

/// The default file name for a new database: `hash_YYYYMMDD_HHMMSS.txt`,
/// with the current local time. The algorithm does not appear in it.
pub fn default_output_filename(_algorithm: HashAlgorithm) -> (name: String)
    ensures
        exists|stamp: Seq<char>| file_time_text(stamp) && name@ == output_filename(stamp),
{
    let stamp = local_now_text(FILENAME_TIME_FORMAT);
    output_filename_for(stamp.as_str())
}

impl HashDatabase {
    /// The database as CSV: a header row, then one row per entry with its
    /// hash, path, algorithm and creation time.
    pub fn export_csv(&self) -> (res: Result<Vec<u8>, DbError>)
        ensures
            res matches Ok(b) && b@ == csv_records(database_csv_rows(self@)),
    {
        let ghost rows_v = database_csv_rows(self@);
        let mut rows: Vec<Vec<String>> = Vec::new();
        let mut header: Vec<String> = Vec::new();
        header.push(String::from_str("hash"));
        header.push(String::from_str("path"));
        header.push(String::from_str("algorithm"));
        header.push(String::from_str("created"));
        assert(header.deep_view() =~= rows_v[0]);
        rows.push(header);
        let name = self.algorithm.as_str();
        let mut i: usize = 0;
        while i < self.entries.len()
            invariant
                rows_v == database_csv_rows(self@),
                0 <= i <= self.entries@.len(),
                name@ == algorithm_name(self.algorithm),
                rows.deep_view() =~= rows_v.subrange(0, i + 1),
            decreases self.entries@.len() - i,
        {
            let e = &self.entries[i];
            let mut row: Vec<String> = Vec::new();
            row.push(e.hash.clone());
            row.push(e.path.clone());
            row.push(String::from_str(name));
            row.push(self.created_at.clone());
            assert(row.deep_view() =~= rows_v[i + 1]);
            let ghost before = rows.deep_view();
            rows.push(row);
            assert(rows.deep_view() =~= before.push(rows_v[i + 1]));
            i = i + 1;
        }
        assert(rows_v.subrange(0, rows_v.len() as int) =~= rows_v);
        match encode_csv(&rows) {
            Some(b) => Ok(b),
            None => Err(DbError::CsvWrite),
        }
    }
}

/// The hash of each path of a database: that of the last entry with the
/// path (paths are the same when their components are).
pub open spec fn hash_map_of(e: Seq<EntryView>) -> Map<Seq<Seq<char>>, Seq<char>> {
    Map::new(
        |k: Seq<Seq<char>>| last_with(entry_keys(e), k) is Some,
        |k: Seq<Seq<char>>| e[last_with(entry_keys(e), k)->0].0,
    )
}

/// Hashes of a database looked up by path.
pub struct PathLookup<'a> {
    entries: &'a Vec<HashEntry>,
    index: KeyIndex,
}

impl<'a> PathLookup<'a> {
    pub closed spec fn wf(&self) -> bool {
        self.index.wf() && self.index.keys() == entry_keys(entries_view(self.entries@))
    }

    /// The path-to-hash map.
    pub closed spec fn map(&self) -> Map<Seq<Seq<char>>, Seq<char>> {
        hash_map_of(entries_view(self.entries@))
    }

    /// The hash recorded for `path`, if the database has it.
    pub fn get(&self, path: &str) -> (r: Option<&'a str>)
        requires
            self.wf(),
        ensures
            match r {
                Some(h) => self.map().contains_key(path_key(path@)) && h@ == self.map()[path_key(path@)],
                None => !self.map().contains_key(path_key(path@)),
            },
    {
        let ghost e = entries_view(self.entries@);
        let n = self.entries.len();
        assert(entry_keys(e).len() == n);
        let k = components(path);
        proof {
            lemma_last_with_char(entry_keys(e), path_key(path@));
        }
        match self.index.last_pos(&k) {
            Some(j) => {
                let ghost key = path_key(path@);
                assert(last_with(entry_keys(e), key) == Some(j as int));
                assert(e[j as int].0 == self.entries@[j as int].hash@);
                assert(self.map().dom().contains(key));
                assert(self.map()[key] == e[j as int].0);
                let h = self.entries[j].hash.as_str();
                assert(h@ == self.entries@[j as int].hash@);
                Some(h)
            },
            None => None,
        }
    }
}

impl HashDatabase {
    /// A lookup of hashes by path, for fast verification.
    pub fn as_map(&self) -> (m: PathLookup<'_>)
        ensures
            m.wf(),
            m.map() == hash_map_of(entries_view(self.entries@)),
    {
        PathLookup { entries: &self.entries, index: KeyIndex::new(keys_of_entries(&self.entries)) }
    }
}

/// The last value present in `v`, if any.
pub open spec fn last_present(v: Seq<Option<Seq<char>>>) -> Option<Seq<char>>
    decreases v.len(),
{
    if v.len() == 0 {
        None
    } else {
        match v.last() {
            Some(t) => Some(t),
            None => last_present(v.drop_last()),
        }
    }
}

pub open spec fn opt_texts(v: Seq<Option<String>>) -> Seq<Option<Seq<char>>> {
    Seq::new(v.len(), |i: int| opt_text(v[i]))
}

/// The creation time a read database takes from its `# created=` times,
/// each converted to the local time zone where it parses (`None` where it
/// does not): the last one present.
pub fn last_creation_time(converted: Vec<Option<String>>) -> (r: Option<String>)
    ensures
        opt_text(r) == last_present(opt_texts(converted@)),
{
    let ghost all = opt_texts(converted@);
    let mut v = converted;
    assert(opt_texts(v@) =~= all.subrange(0, v@.len() as int));
    while v.len() > 0
        invariant
            all == opt_texts(converted@),
            v@.len() <= all.len(),
            opt_texts(v@) == all.subrange(0, v@.len() as int),
            last_present(all) == last_present(all.subrange(0, v@.len() as int)),
        decreases v@.len(),
    {
        let ghost n = v@.len() as int;
        let ghost before = v@;
        let x = v.pop().unwrap();
        let ghost sub = all.subrange(0, n);
        proof {
            assert(sub.last() == opt_text(x)) by {
                assert(opt_texts(before)[n - 1] == opt_text(before[n - 1]));
            }
            assert(sub.drop_last() =~= all.subrange(0, n - 1));
            assert(opt_texts(v@) =~= all.subrange(0, n - 1)) by {
                assert forall|j: int| 0 <= j < n - 1 implies opt_texts(v@)[j] == all.subrange(0, n - 1)[j] by {
                    assert(opt_texts(before)[j] == opt_text(before[j]));
                }
            }
        }
        match x {
            Some(t) => {
                assert(last_present(sub) == Some(t@));
                return Some(t);
            },
            None => {},
        }
    }
    assert(all.subrange(0, 0) =~= Seq::<Option<Seq<char>>>::empty());
    None
}

/// A converted creation time: it has the shape of a timestamp, and when
/// the creation text has that shape too, both denote the same instant
/// within 30 seconds.
pub open spec fn converted_time(v: Option<String>, c: Seq<char>) -> bool {
    v matches Some(t) ==> timestamp_text(t@) && (timestamp_text(c) ==> instants_close(t@, c))
}

/// The last creation text that parses, if any.
pub open spec fn last_parsing(cs: Seq<Seq<char>>) -> Option<Seq<char>>
    decreases cs.len(),
{
    if cs.len() == 0 {
        None
    } else if timestamp_parses(cs.last()) {
        Some(cs.last())
    } else {
        last_parsing(cs.drop_last())
    }
}

proof fn lemma_last_present_choice(conv: Seq<Option<String>>, cs: Seq<Seq<char>>)
    requires
        conv.len() == cs.len(),
        forall|j: int| 0 <= j < conv.len() ==> (#[trigger] conv[j] is Some) == timestamp_parses(cs[j]),
        forall|j: int| 0 <= j < conv.len() ==> converted_time(#[trigger] conv[j], cs[j]),
    ensures
        match last_parsing(cs) {
            Some(c) => last_present(opt_texts(conv)) matches Some(t) && timestamp_text(t) && (
            timestamp_text(c) ==> instants_close(t, c)),
            None => last_present(opt_texts(conv)) is None,
        },
    decreases conv.len(),
{
    if conv.len() > 0 {
        let n = conv.len() - 1;
        let w = conv.drop_last();
        let ds = cs.drop_last();
        assert(opt_texts(w) =~= opt_texts(conv).drop_last());
        assert(opt_texts(conv).last() == opt_text(conv[n]));
        assert(forall|j: int| 0 <= j < w.len() ==> #[trigger] w[j] == conv[j]);
        assert(forall|j: int| 0 <= j < ds.len() ==> #[trigger] ds[j] == cs[j]);
        assert(conv[n] is Some == timestamp_parses(cs[n]));
        assert(converted_time(conv[n], cs[n]));
        lemma_last_present_choice(w, ds);
    }
}

/// Saving a database whose creation time is a timestamp that parses, and
/// reading the text back, finds that same creation time as the last one
/// that parses; so loading gives a creation time denoting the same instant
/// (within the rounding of the local offset to whole minutes).
pub proof fn law_save_then_load_created(db: DatabaseView)
    requires
        database_roundtrips(db),
        timestamp_text(db.created),
        timestamp_parses(db.created),
    ensures
        last_parsing(parse_text_view(database_text(db)).created) == Some(db.created),
{
    law_save_then_parse(db);
    let c = db.created;
    let n = c.len() as int;
    let y = c.subrange(0, n - 20);
    let r = c.subrange(0, n - 5);
    assert(r.subrange(0, r.len() - 15) =~= y);
    assert(year_text(y));
    assert(c[0] == y[0]);
    if y.len() == 4 {
        assert(is_digit(y[0]));
    } else {
        assert(y[0] == '+' || y[0] == '-');
    }
    let z = c.subrange(n - 5, n);
    assert(z.subrange(3, 5)[1] == c[n - 1]);
    assert(is_digit(c[n - 1]));
    assert(is_trimmed(c));
    lemma_trim_of_trimmed(c);
    let cs = parse_text_view(database_text(db)).created;
    assert(cs == seq![c]);
    assert(cs.drop_last() =~= Seq::<Seq<char>>::empty());
}

/// The database CSV has a header row and then one row per entry, in
/// order: the entry's hash and path, the name of the database's own
/// algorithm (which reads back as that algorithm), and the creation time.
pub proof fn law_database_csv_columns(db: DatabaseView)
    ensures
        database_csv_rows(db).len() == db.entries.len() + 1,
        forall|j: int|
            1 <= j <= db.entries.len() ==> {
                let row = #[trigger] database_csv_rows(db)[j];
                &&& row.len() == 4
                &&& row[0] == db.entries[j - 1].0
                &&& row[1] == db.entries[j - 1].1
                &&& algorithm_from_name(row[2]) == Some(db.algorithm)
                &&& row[3] == db.created
            },
{
    law_name_roundtrip(db.algorithm);
    assert forall|j: int| 1 <= j <= db.entries.len() implies {
        let row = #[trigger] database_csv_rows(db)[j];
        &&& row.len() == 4
        &&& row[0] == db.entries[j - 1].0
        &&& row[1] == db.entries[j - 1].1
        &&& algorithm_from_name(row[2]) == Some(db.algorithm)
        &&& row[3] == db.created
    } by {
        assert(database_csv_rows(db)[j] == seq![
            db.entries[j - 1].0,
            db.entries[j - 1].1,
            algorithm_name(db.algorithm),
            db.created,
        ]);
    }
}

} // verus!
