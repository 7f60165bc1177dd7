//! What the user interface shows and reads: filtering comparison lines,
//! shortening digests, the summary line, and reading the scan settings.

use vstd::prelude::*;
use crate::compare::{DiffEntry, FileStatus, VerifyStats, diffs_view, DiffView};
use crate::hasher::HashAlgorithm;
use crate::paths::{components, file_name_of, path_components};
use crate::text::{
    chars_of, contains_chars, contains_seq, decimal, has_prefix, is_ws, push_char, push_decimal,
    split_on, starts_with, string_of, substring, trim, trim_bounds, utf8_len, utf8_width,
    lemma_utf8_len_push, lemma_split_on_nonempty,
};

verus! {

/// The lower-case form of `s` (`str::to_lowercase`).
pub uninterp spec fn lowercase_of(s: Seq<char>) -> Seq<char>;

/// `str::to_lowercase`: Unicode lower-casing; the result is named, not
/// spelled out, except that the empty text stays empty (each character
/// maps to one or more characters).
#[verifier::external_body]
fn to_lowercase(s: &str) -> (r: String)
    ensures
        r@ == lowercase_of(s@),
        s@.len() == 0 ==> r@.len() == 0,
{
    s.to_lowercase()
}

/// A line is shown when the search text (compared in lower case) is empty
/// or occurs in its path, and its status is the chosen one, if any.
pub open spec fn line_shown(d: DiffView, search: Seq<char>, status: Option<FileStatus>) -> bool {
    let s = lowercase_of(search);
    (s.len() == 0 || contains_seq(lowercase_of(d.path), s)) && match status {
        Some(f) => d.status == f,
        None => true,
    }
}

/// Indices of the lines shown, in order.
pub open spec fn shown_indices(lines: Seq<DiffView>, search: Seq<char>, status: Option<FileStatus>) -> Seq<usize>
    decreases lines.len(),
{
    if lines.len() == 0 {
        seq![]
    } else {
        let prev = shown_indices(lines.drop_last(), search, status);
        if line_shown(lines.last(), search, status) {
            prev.push((lines.len() - 1) as usize)
        } else {
            prev
        }
    }
}

/// Indices of the lines a filter shows, in order. With no search text and
/// no status chosen, every line is shown.
pub fn filter_lines(entries: &Vec<DiffEntry>, search: &str, status: Option<FileStatus>) -> (shown: Vec<usize>)
    ensures
        shown@ == shown_indices(diffs_view(entries@), search@, status),
        search@.len() == 0 && status is None ==> shown@ == all_indices(entries@.len()),
{
    let ghost v = diffs_view(entries@);
    let s = to_lowercase(search);
    proof {
        if search@.len() == 0 {
            assert(search@ =~= Seq::<char>::empty());
            lemma_unfiltered_shows_all(v);
        }
    }
    let sc = chars_of(s.as_str());
    let mut shown: Vec<usize> = Vec::new();
    let mut i: usize = 0;
    assert(v.subrange(0, 0) =~= Seq::<DiffView>::empty());
    while i < entries.len()
        invariant
            v == diffs_view(entries@),
            sc@ == lowercase_of(search@),
            0 <= i <= entries@.len(),
            shown@ == shown_indices(v.subrange(0, i as int), search@, status),
        decreases entries@.len() - i,
    {
        let e = &entries[i];
        let search_ok = if sc.len() == 0 {
            true
        } else {
            let lp = to_lowercase(e.path.as_str());
            let lc = chars_of(lp.as_str());
            contains_chars(&lc, &sc)
        };
        let status_ok = match status {
            Some(f) => e.status == f,
            None => true,
        };
        assert(v[i as int] == e@);
        assert(v.subrange(0, i + 1).drop_last() =~= v.subrange(0, i as int));
        assert(v.subrange(0, i + 1).last() == v[i as int]);
        if search_ok && status_ok {
            shown.push(i);
        }
        i = i + 1;
    }
    assert(v.subrange(0, v.len() as int) =~= v);
    shown
}

/// Number of leading characters that make up `n` bytes, if a character
/// boundary falls there.
pub open spec fn prefix_chars_for_bytes(s: Seq<char>, n: nat) -> Option<int>
    decreases s.len(),
{
    if n == 0 {
        Some(0)
    } else if s.len() == 0 || utf8_width(s[0]) > n {
        None
    } else {
        match prefix_chars_for_bytes(s.drop_first(), (n - utf8_width(s[0])) as nat) {
            Some(k) => Some(k + 1),
            None => None,
        }
    }
}

/// Index from which the trailing characters make up `n` bytes, if a
/// character boundary falls there.
pub open spec fn suffix_start_for_bytes(s: Seq<char>, n: nat) -> Option<int>
    decreases s.len(),
{
    if n == 0 {
        Some(s.len() as int)
    } else if s.len() == 0 || utf8_width(s.last()) > n {
        None
    } else {
        suffix_start_for_bytes(s.drop_last(), (n - utf8_width(s.last())) as nat)
    }
}

/// A digest as a viewer shows it: when longer than 16 bytes, its first
/// and last 8 bytes joined by an ellipsis.
pub open spec fn shortened(h: Seq<char>) -> Seq<char> {
    if utf8_len(h) > 16 {
        h.subrange(0, prefix_chars_for_bytes(h, 8)->0) + seq!['\u{2026}'] + h.subrange(
            suffix_start_for_bytes(h, 8)->0,
            h.len() as int,
        )
    } else {
        h
    }
}

/// Cutting at 8 bytes from either end falls on character boundaries.
pub open spec fn can_shorten(h: Seq<char>) -> bool {
    utf8_len(h) > 16 ==> prefix_chars_for_bytes(h, 8) is Some && suffix_start_for_bytes(h, 8) is Some
}

proof fn lemma_prefix_chars(s: Seq<char>, n: nat)
    ensures
        prefix_chars_for_bytes(s, n) matches Some(k) ==> 0 <= k <= s.len(),
    decreases s.len(),
{
    if n > 0 && s.len() > 0 && utf8_width(s[0]) <= n {
        lemma_prefix_chars(s.drop_first(), (n - utf8_width(s[0])) as nat);
    }
}

proof fn lemma_suffix_start(s: Seq<char>, n: nat)
    ensures
        suffix_start_for_bytes(s, n) matches Some(k) ==> 0 <= k <= s.len(),
    decreases s.len(),
{
    if n > 0 && s.len() > 0 && utf8_width(s.last()) <= n {
        lemma_suffix_start(s.drop_last(), (n - utf8_width(s.last())) as nat);
    }
}

fn width_of(c: char) -> (w: usize)
    ensures
        w == utf8_width(c),
{
    let u = c as u32;
    if u <= 0x7F {
        1
    } else if u <= 0x7FF {
        2
    } else if u <= 0xFFFF {
        3
    } else {
        4
    }
}

fn prefix_chars_exec(v: &Vec<char>, n: usize) -> (r: Option<usize>)
    requires
        n <= 8,
    ensures
        match prefix_chars_for_bytes(v@, n as nat) {
            Some(k) => r == Some(k as usize),
            None => r is None,
        },
{
    let mut i: usize = 0;
    let mut left: usize = n;
    assert(v@.subrange(0, v@.len() as int) =~= v@);
    while left > 0
        invariant
            0 <= i <= v@.len(),
            left <= 8,
            prefix_chars_for_bytes(v@, n as nat) == match prefix_chars_for_bytes(v@.subrange(i as int, v@.len() as int), left as nat) {
                Some(k) => Some(k + i),
                None => None::<int>,
            },
        decreases left,
    {
        let ghost t = v@.subrange(i as int, v@.len() as int);
        if i >= v.len() {
            return None;
        }
        let w = width_of(v[i]);
        assert(t[0] == v@[i as int]);
        if w > left {
            return None;
        }
        assert(t.drop_first() =~= v@.subrange(i + 1, v@.len() as int));
        left = left - w;
        i = i + 1;
    }
    Some(i)
}

fn suffix_start_exec(v: &Vec<char>, n: usize) -> (r: Option<usize>)
    requires
        n <= 8,
    ensures
        match suffix_start_for_bytes(v@, n as nat) {
            Some(k) => r == Some(k as usize),
            None => r is None,
        },
{
    let mut j: usize = v.len();
    let mut left: usize = n;
    assert(v@.subrange(0, v@.len() as int) =~= v@);
    while left > 0
        invariant
            0 <= j <= v@.len(),
            left <= 8,
            suffix_start_for_bytes(v@, n as nat) == suffix_start_for_bytes(v@.subrange(0, j as int), left as nat),
        decreases left,
    {
        let ghost t = v@.subrange(0, j as int);
        if j == 0 {
            return None;
        }
        let w = width_of(v[j - 1]);
        assert(t.last() == v@[j - 1]);
        if w > left {
            return None;
        }
        assert(t.drop_last() =~= v@.subrange(0, j - 1));
        left = left - w;
        j = j - 1;
    }
    Some(j)
}

/// A digest shortened for display.
pub fn trunc(hash: &str) -> (r: String)
    requires
        can_shorten(hash@),
    ensures
        r@ == shortened(hash@),
{
    let v = chars_of(hash);
    let long = match crate::text::utf8_len_capped(hash, 16) {
        Some(_) => false,
        None => true,
    };
    if !long {
        return string_of(&v);
    }
    proof {
        lemma_prefix_chars(v@, 8);
        lemma_suffix_start(v@, 8);
    }
    let a = prefix_chars_exec(&v, 8).unwrap();
    let b = suffix_start_exec(&v, 8).unwrap();
    let mut r = substring(&v, 0, a);
    push_char(&mut r, '\u{2026}');
    let tail = substring(&v, b, v.len());
    r.append(tail.as_str());
    r
}

/// The summary line of a comparison.
pub open spec fn stats_line(st: VerifyStats) -> Seq<char> {
    "Total: "@ + decimal(st.total as nat) + "   \u{2705} "@ + decimal(st.unchanged as nat)
        + "   \u{26a0}\u{fe0f} "@ + decimal(st.modified as nat) + "   \u{274c} "@ + decimal(
        st.missing as nat,
    ) + "   \u{1f195} "@ + decimal(st.new_files as nat) + "   Errors: "@ + decimal(st.errors as nat)
}

/// The summary line a viewer shows above the comparison lines.
pub fn stats_summary(st: &VerifyStats) -> (s: String)
    ensures
        s@ == stats_line(*st),
{
    let mut s = String::from_str("Total: ");
    push_decimal(&mut s, st.total as u64);
    s.append("   \u{2705} ");
    push_decimal(&mut s, st.unchanged as u64);
    s.append("   \u{26a0}\u{fe0f} ");
    push_decimal(&mut s, st.modified as u64);
    s.append("   \u{274c} ");
    push_decimal(&mut s, st.missing as u64);
    s.append("   \u{1f195} ");
    push_decimal(&mut s, st.new_files as u64);
    s.append("   Errors: ");
    push_decimal(&mut s, st.errors as u64);
    assert(s@ =~= stats_line(*st));
    s
}

/// The algorithm chosen in the list SHA-256, SHA-512, BLAKE3 (anything
/// past the end is BLAKE3).
pub fn algorithm_for_choice(index: u32) -> (a: HashAlgorithm)
    ensures
        a == (if index == 0 {
            HashAlgorithm::Sha256
        } else if index == 1 {
            HashAlgorithm::Sha512
        } else {
            HashAlgorithm::Blake3
        }),
{
    if index == 0 {
        HashAlgorithm::Sha256
    } else if index == 1 {
        HashAlgorithm::Sha512
    } else {
        HashAlgorithm::Blake3
    }
}

/// The non-empty trimmed pieces of a comma-separated list.
pub open spec fn pattern_list(pieces: Seq<Seq<char>>) -> Seq<Seq<char>>
    decreases pieces.len(),
{
    if pieces.len() == 0 {
        seq![]
    } else {
        let prev = pattern_list(pieces.drop_last());
        if trim(pieces.last()).len() > 0 {
            prev.push(trim(pieces.last()))
        } else {
            prev
        }
    }
}

/// Reads a comma-separated list of exclusion patterns: each piece trimmed,
/// empty pieces dropped.
pub fn parse_exclude_patterns(text: &str) -> (pats: Vec<String>)
    ensures
        pats.deep_view() == pattern_list(split_on(text@, ',')),
{
    let v = chars_of(text);
    let mut pats: Vec<String> = Vec::new();
    let mut start: usize = 0;
    let mut i: usize = 0;
    assert(v@.subrange(0, 0) =~= Seq::<char>::empty());
    while i < v.len()
        invariant
            v@ == text@,
            0 <= start <= i <= v@.len(),
            split_on(v@.subrange(0, i as int), ',').len() > 0,
            pats.deep_view() == pattern_list(split_on(v@.subrange(0, i as int), ',').drop_last()),
            v@.subrange(start as int, i as int) == split_on(v@.subrange(0, i as int), ',').last(),
        decreases v@.len() - i,
    {
        let ghost pre = v@.subrange(0, i as int);
        let ghost pieces = split_on(pre, ',');
        assert(v@.subrange(0, i + 1).drop_last() =~= pre);
        assert(v@.subrange(0, i + 1).last() == v@[i as int]);
        if v[i] == ',' {
            let (a, b) = trim_bounds(&v, start, i);
            if a < b {
                let ghost before = pats.deep_view();
                pats.push(substring(&v, a, b));
                assert(pats.deep_view() =~= before.push(trim(pieces.last())));
            }
            proof {
                let np = pieces.push(Seq::<char>::empty());
                assert(split_on(v@.subrange(0, i + 1), ',') == np);
                assert(np.drop_last() =~= pieces);
                assert(pieces =~= pieces.drop_last().push(pieces.last()));
                assert(v@.subrange(i + 1, i + 1) =~= Seq::<char>::empty());
            }
            start = i + 1;
        } else {
            proof {
                let np = pieces.update(pieces.len() - 1, pieces.last().push(v@[i as int]));
                assert(split_on(v@.subrange(0, i + 1), ',') == np);
                assert(np.drop_last() =~= pieces.drop_last());
                assert(v@.subrange(start as int, i + 1) =~= pieces.last().push(v@[i as int]));
            }
        }
        i = i + 1;
    }
    assert(v@.subrange(0, v@.len() as int) =~= v@);
    let ghost pieces = split_on(v@, ',');
    assert(pieces =~= pieces.drop_last().push(pieces.last()));
    let (a, b) = trim_bounds(&v, start, v.len());
    if a < b {
        let ghost before = pats.deep_view();
        pats.push(substring(&v, a, b));
        assert(pats.deep_view() =~= before.push(trim(pieces.last())));
    }
    pats
}

/// The typed path with `~` standing for the home directory: the text is
/// trimmed; `~/rest` becomes `home/rest` and `~` becomes `home`.
pub open spec fn expanded_path(raw: Seq<char>, home: Seq<char>) -> Seq<char> {
    let t = trim(raw);
    if starts_with(t, "~/"@) {
        home + seq!['/'] + t.subrange(2, t.len() as int)
    } else if t == seq!['~'] {
        home
    } else {
        t
    }
}

/// Expands a leading `~` of a typed path to `home`.
pub fn expand_home(raw: &str, home: &str) -> (p: String)
    ensures
        p@ == expanded_path(raw@, home@),
{
    proof {
        reveal_strlit("~/");
    }
    let v = chars_of(raw);
    let (a, b) = trim_bounds(&v, 0, v.len());
    assert(v@.subrange(0, v@.len() as int) =~= v@);
    let t = chars_of(substring(&v, a, b).as_str());
    if has_prefix(&t, "~/") {
        let mut p = String::from_str(home);
        push_char(&mut p, '/');
        let rest = substring(&t, 2, t.len());
        p.append(rest.as_str());
        p
    } else if t.len() == 1 && t[0] == '~' {
        assert(t@ =~= seq!['~']);
        String::from_str(home)
    } else {
        assert(t@ != seq!['~']) by {
            if t@ == seq!['~'] {
                assert(t@[0] == '~');
            }
        }
        string_of(&t)
    }
}

/// The file name of `path`, or empty when it has none (progress display).
pub fn file_name_or_empty(path: &str) -> (name: String)
    ensures
        name@ == (match file_name_of(path@) {
            Some(n) => n,
            None => seq![],
        }),
{
    let comps = components(path);
    let n = comps.len();
    if n == 0 {
        return String::new();
    }
    let last = &comps[n - 1];
    let ghost c = path_components(path@);
    assert(c.last() == last@) by {
        assert(comps.deep_view()[n - 1] == comps@[n - 1].deep_view());
        assert(comps@[n - 1].deep_view() =~= comps@[n - 1]@);
    }
    let special = (last.len() == 1 && (last[0] == '/' || last[0] == '.')) || (last.len() == 2 && last[0] == '.' && last[1] == '.');
    if special {
        proof {
            if last.len() == 1 && last[0] == '/' {
                assert(last@ =~= seq!['/']);
            } else if last.len() == 1 {
                assert(last@ =~= seq!['.']);
            } else {
                assert(last@ =~= seq!['.', '.']);
            }
        }
        String::new()
    } else {
        assert(last@ != seq!['/'] && last@ != seq!['.'] && last@ != seq!['.', '.']) by {
            if last@ == seq!['/'] || last@ == seq!['.'] {
                assert(last@.len() == 1 && last@[0] == last@[0]);
            }
            if last@ == seq!['.', '.'] {
                assert(last@[0] == '.' && last@[1] == '.');
            }
        }
        string_of(last)
    }
}

/// The positions `0 .. n`, in order.
pub open spec fn all_indices(n: nat) -> Seq<usize> {
    Seq::new(n, |i: int| i as usize)
}

proof fn lemma_unfiltered_shows_all(lines: Seq<DiffView>)
    requires
        lowercase_of(Seq::empty()).len() == 0,
    ensures
        shown_indices(lines, Seq::empty(), None) == all_indices(lines.len()),
    decreases lines.len(),
{
    if lines.len() > 0 {
        lemma_unfiltered_shows_all(lines.drop_last());
        assert(all_indices(lines.len()) =~= all_indices((lines.len() - 1) as nat).push((lines.len() - 1) as usize));
    } else {
        assert(all_indices(0) =~= Seq::<usize>::empty());
    }
}

} // verus!
