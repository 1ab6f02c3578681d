//! The search itself: what the user asks for (folders, extensions, dates)
//! and which of the files found under the folders are reported, in which
//! order.
use vstd::prelude::*;
use crate::date::{Timestamp, is_earlier};
use crate::paths::{
    components, components_less, components_view, expand_home, expand_home_spec, lemma_path_order,
    extension, matches_extension, matches_extension_spec, path_components, path_lt,
};
use crate::text::{ascii_lowercase, chars_of, split, split_ranges, string_of, strings_view, trim, trim_bounds};

verus! {

/// What to search for.
#[derive(Debug, Clone, PartialEq, Eq)]
pub struct Config {
    /// The folders searched, each with everything below it.
    pub folders: Vec<String>,
    /// Extensions with their leading `.`; empty means every file.
    pub extensions: Vec<String>,
    /// Files last modified earlier than this are left out.
    pub date_from: Option<Timestamp>,
    /// Files last modified later than this are left out.
    pub date_to: Option<Timestamp>,
}

/// The present values of a sequence of optional values, in order.
pub open spec fn keep_some(s: Seq<Option<Seq<char>>>) -> Seq<Seq<char>>
    decreases s.len(),
{
    if s.len() == 0 {
        Seq::empty()
    } else {
        keep_some(s.drop_last()) + match s.last() {
            Some(x) => seq![x],
            None => Seq::empty(),
        }
    }
}

/// The elements of `s` whose flag is set, in order.
pub open spec fn keep_flagged(s: Seq<Seq<char>>, flags: Seq<bool>) -> Seq<Seq<char>>
    decreases s.len(),
{
    if s.len() == 0 {
        Seq::empty()
    } else {
        keep_flagged(s.drop_last(), flags) + if flags[s.len() - 1] {
            seq![s.last()]
        } else {
            Seq::empty()
        }
    }
}

proof fn lemma_keep_some_step(s: Seq<Option<Seq<char>>>, k: int)
    requires
        0 <= k < s.len(),
    ensures
        keep_some(s.take(k + 1)) == keep_some(s.take(k)) + match s[k] {
            Some(x) => seq![x],
            None => Seq::empty(),
        },
{
    assert(s.take(k + 1).drop_last() =~= s.take(k));
}

// ---------------------------------------------------------------------------
// Extensions.

/// One comma-separated item of an extension list: trimmed, lowercased, and
/// given a leading `.` when it has none; blank items give nothing.
pub open spec fn extension_entry(piece: Seq<char>) -> Option<Seq<char>> {
    let t = ascii_lowercase(trim(piece));
    if t.len() == 0 {
        None
    } else if t[0] == '.' {
        Some(t)
    } else {
        Some(seq!['.'] + t)
    }
}

/// The extensions that a comma-separated list names.
pub open spec fn parse_extensions_spec(raw: Seq<char>) -> Seq<Seq<char>> {
    keep_some(split(raw, ',').map_values(|p: Seq<char>| extension_entry(p)))
}

/// Reads a comma-separated list of extensions such as `PDF, txt,.Rs` as
/// `.pdf`, `.txt`, `.rs`.
pub fn parse_extensions(raw: &str) -> (r: Vec<String>)
    ensures
        strings_view(r@) == parse_extensions_spec(raw@),
{
    let s = chars_of(raw);
    let n = s.len();
    let pieces = split_ranges(&s, 0, n, ',');
    assert(s@.subrange(0, n as int) =~= raw@);
    let ghost entries = split(raw@, ',').map_values(|p: Seq<char>| extension_entry(p));
    let mut r: Vec<String> = Vec::new();
    let mut k: usize = 0;
    while k < pieces.len()
        invariant
            n == s.len(),
            s@ == raw@,
            pieces.len() == split(raw@, ',').len(),
            entries == split(raw@, ',').map_values(|p: Seq<char>| extension_entry(p)),
            forall|j: int|
                0 <= j < pieces.len() ==> 0 <= (#[trigger] pieces[j]).0 <= pieces[j].1 <= n
                    && s@.subrange(pieces[j].0 as int, pieces[j].1 as int) == split(raw@, ',')[j],
            k <= pieces.len(),
            strings_view(r@) == keep_some(entries.take(k as int)),
        decreases pieces.len() - k,
    {
        let (lo, hi) = pieces[k];
        let (a, b) = trim_bounds(&s, lo, hi);
        proof {
            lemma_keep_some_step(entries, k as int);
        }
        let ghost t = ascii_lowercase(trim(split(raw@, ',')[k as int]));
        let ghost before = r@;
        if a < b {
            let item = if s[a] == '.' {
                string_of(&s, a, b, None, true)
            } else {
                string_of(&s, a, b, Some('.'), true)
            };
            assert(trim(split(raw@, ',')[k as int]) == s@.subrange(a as int, b as int));
            assert(t[0] == crate::text::lower_char(s@[a as int]));
            r.push(item);
        }
        assert(strings_view(r@) =~= strings_view(before) + match entries[k as int] {
            Some(x) => seq![x],
            None => Seq::empty(),
        });
        k = k + 1;
    }
    assert(entries.take(k as int) =~= entries);
    r
}

/// Two texts equal up to ASCII letter case (`eq_ignore_ascii_case`).
pub open spec fn same_ignoring_case(a: Seq<char>, b: Seq<char>) -> bool {
    a.len() == b.len() && forall|i: int|
        0 <= i < a.len() ==> crate::text::lower_char(#[trigger] a[i]) == crate::text::lower_char(b[i])
}

/// An extension as a user types it without its dot: non-empty, with no
/// `.`, `,`, `/` or whitespace.
pub open spec fn is_bare_extension(e: Seq<char>) -> bool {
    e.len() > 0 && forall|i: int|
        0 <= i < e.len() ==> #[trigger] e[i] != '.' && e[i] != ',' && e[i] != '/' && !crate::text::is_ws(
            e[i],
        )
}

proof fn lemma_single_extension(t: Seq<char>, low: Seq<char>)
    requires
        t.len() > 0,
        forall|i: int| 0 <= i < t.len() ==> #[trigger] t[i] != ',',
        !crate::text::is_ws(t[0]),
        !crate::text::is_ws(t.last()),
        ascii_lowercase(t) == low,
    ensures
        parse_extensions_spec(t) == seq![extension_entry(t)->0],
        extension_entry(t) == (if low[0] == '.' {
            Some(low)
        } else {
            Some(seq!['.'] + low)
        }),
{
    crate::text::lemma_split_single(t, ',');
    crate::text::lemma_trim_line(t);
    assert(low.len() == t.len());
    assert(extension_entry(t) is Some);
    let m = split(t, ',').map_values(|p: Seq<char>| extension_entry(p));
    assert(m =~= seq![extension_entry(t)]);
    assert(m.drop_last() =~= Seq::<Option<Seq<char>>>::empty());
    assert(keep_some(m.drop_last()) =~= Seq::<Seq<char>>::empty());
    assert(m.last() == extension_entry(t));
    assert(keep_some(m) =~= seq![extension_entry(t)->0]);
}

/// An extension typed in any letter case, with or without its dot, selects
/// the files that have that extension.
pub proof fn lemma_extension_any_case(
    dir: Seq<char>,
    name: Seq<char>,
    e: Seq<char>,
    typed: Seq<char>,
)
    requires
        name.len() > 0,
        forall|i: int| 0 <= i < name.len() ==> name[i] != '/',
        is_bare_extension(e),
        is_bare_extension(typed),
        same_ignoring_case(e, typed),
    ensures
        matches_extension_spec(dir + seq!['/'] + name + seq!['.'] + e, parse_extensions_spec(typed)),
        matches_extension_spec(
            dir + seq!['/'] + name + seq!['.'] + e,
            parse_extensions_spec(seq!['.'] + typed),
        ),
{
    let path = dir + seq!['/'] + name + seq!['.'] + e;
    crate::paths::lemma_extension_of_file(dir, name, e);
    let low = ascii_lowercase(typed);
    assert(ascii_lowercase(e) =~= low);
    let want = seq!['.'] + low;
    // Typed without its dot.
    assert(typed[0] != '.');
    assert(low[0] == crate::text::lower_char(typed[0]));
    assert(low[0] != '.');
    lemma_single_extension(typed, low);
    assert(parse_extensions_spec(typed) == seq![want]);
    assert(seq![want].contains(want)) by {
        assert(seq![want][0] == want);
    }
    // Typed with its dot.
    let dotted = seq!['.'] + typed;
    assert forall|i: int| 0 <= i < dotted.len() implies #[trigger] dotted[i] != ',' by {
        if i > 0 {
            assert(dotted[i] == typed[i - 1]);
        }
    }
    assert(dotted.last() == typed.last());
    assert(ascii_lowercase(dotted) =~= want);
    lemma_single_extension(dotted, want);
    assert(parse_extensions_spec(dotted) == seq![want]);
}

proof fn lemma_extension_entry_map(p: Seq<char>, f: spec_fn(char) -> char)
    requires
        forall|c: char| crate::text::is_ws(#[trigger] f(c)) == crate::text::is_ws(c),
        forall|c: char| crate::text::lower_char(#[trigger] f(c)) == crate::text::lower_char(c),
    ensures
        extension_entry(p.map_values(f)) == extension_entry(p),
{
    crate::text::lemma_trim_map(p, f);
    assert(ascii_lowercase(trim(p).map_values(f)) =~= ascii_lowercase(trim(p)));
}

/// Changing the characters of an extension list by a map that keeps commas,
/// whitespace and the ASCII lowercase form of each character changes
/// nothing of what the list names.
proof fn lemma_parse_extensions_map(raw: Seq<char>, f: spec_fn(char) -> char)
    requires
        forall|c: char| (#[trigger] f(c) == ',') == (c == ','),
        forall|c: char| crate::text::is_ws(#[trigger] f(c)) == crate::text::is_ws(c),
        forall|c: char| crate::text::lower_char(#[trigger] f(c)) == crate::text::lower_char(c),
    ensures
        parse_extensions_spec(raw.map_values(f)) == parse_extensions_spec(raw),
{
    crate::text::lemma_split_map(raw, ',', f);
    let ps = split(raw, ',');
    let a = split(raw.map_values(f), ',').map_values(|p: Seq<char>| extension_entry(p));
    let b = ps.map_values(|p: Seq<char>| extension_entry(p));
    assert forall|i: int| 0 <= i < a.len() implies a[i] == b[i] by {
        lemma_extension_entry_map(ps[i], f);
    }
    assert(a =~= b);
}

/// The extensions that a list names do not depend on the ASCII letter case
/// in which it was typed.
pub proof fn lemma_parse_extensions_ignores_case(raw: Seq<char>)
    ensures
        parse_extensions_spec(crate::text::ascii_uppercase(raw)) == parse_extensions_spec(raw),
        parse_extensions_spec(ascii_lowercase(raw)) == parse_extensions_spec(raw),
{
    let up = |c: char| crate::text::upper_char(c);
    let low = |c: char| crate::text::lower_char(c);
    assert forall|c: char| (#[trigger] up(c) == ',') == (c == ',') && crate::text::is_ws(up(c))
        == crate::text::is_ws(c) && crate::text::lower_char(up(c)) == crate::text::lower_char(c) by {
        if 'a' <= c && c <= 'z' {
            assert((up(c) as u32) == (c as u32) - 32);
        }
    }
    assert forall|c: char| (#[trigger] low(c) == ',') == (c == ',') && crate::text::is_ws(low(c))
        == crate::text::is_ws(c) && crate::text::lower_char(low(c)) == crate::text::lower_char(c) by {
        if 'A' <= c && c <= 'Z' {
            assert((low(c) as u32) == (c as u32) + 32);
        }
    }
    lemma_parse_extensions_map(raw, up);
    lemma_parse_extensions_map(raw, low);
    assert(crate::text::ascii_uppercase(raw) =~= raw.map_values(up));
    assert(ascii_lowercase(raw) =~= raw.map_values(low));
}

// ---------------------------------------------------------------------------
// Folders.

/// Newlines count as commas in a folder list.
pub open spec fn newlines_as_commas(s: Seq<char>) -> Seq<char> {
    s.map_values(|c: char| if c == '\n' { ',' } else { c })
}

/// One item of a folder list: trimmed and `~`-expanded; blank items give
/// nothing.
pub open spec fn folder_entry(piece: Seq<char>, home: Option<Seq<char>>) -> Option<Seq<char>> {
    let t = trim(piece);
    if t.len() == 0 {
        None
    } else {
        Some(expand_home_spec(t, home))
    }
}

/// The folders that a list separated by commas or newlines names, before
/// any check that they exist.
pub open spec fn folder_candidates_spec(raw: Seq<char>, home: Option<Seq<char>>) -> Seq<Seq<char>> {
    keep_some(
        split(newlines_as_commas(raw), ',').map_values(|p: Seq<char>| folder_entry(p, home)),
    )
}

pub open spec fn opt_view(home: Option<&str>) -> Option<Seq<char>> {
    match home {
        Some(h) => Some(h@),
        None => None,
    }
}

/// The paths that a list separated by commas or newlines names, trimmed
/// and with `~` expanded to `home`.
pub fn folder_candidates(raw: &str, home: Option<&str>) -> (r: Vec<String>)
    ensures
        strings_view(r@) == folder_candidates_spec(raw@, opt_view(home)),
{
    let s0 = chars_of(raw);
    let mut s: Vec<char> = Vec::with_capacity(s0.len());
    let mut i: usize = 0;
    while i < s0.len()
        invariant
            i <= s0.len(),
            s0@ == raw@,
            s@ == newlines_as_commas(raw@).take(i as int),
        decreases s0.len() - i,
    {
        s.push(if s0[i] == '\n' { ',' } else { s0[i] });
        i = i + 1;
        assert(s@ =~= newlines_as_commas(raw@).take(i as int));
    }
    let ghost text = newlines_as_commas(raw@);
    assert(text.take(i as int) =~= text);
    let n = s.len();
    let pieces = split_ranges(&s, 0, n, ',');
    assert(s@.subrange(0, n as int) =~= text);
    let ghost entries = split(text, ',').map_values(|p: Seq<char>| folder_entry(p, opt_view(home)));
    let mut r: Vec<String> = Vec::new();
    let mut k: usize = 0;
    while k < pieces.len()
        invariant
            n == s.len(),
            s@ == text,
            pieces.len() == split(text, ',').len(),
            entries == split(text, ',').map_values(|p: Seq<char>| folder_entry(p, opt_view(home))),
            forall|j: int|
                0 <= j < pieces.len() ==> 0 <= (#[trigger] pieces[j]).0 <= pieces[j].1 <= n
                    && s@.subrange(pieces[j].0 as int, pieces[j].1 as int) == split(text, ',')[j],
            k <= pieces.len(),
            strings_view(r@) == keep_some(entries.take(k as int)),
        decreases pieces.len() - k,
    {
        let (lo, hi) = pieces[k];
        let (a, b) = trim_bounds(&s, lo, hi);
        proof {
            lemma_keep_some_step(entries, k as int);
        }
        let ghost before = r@;
        if a < b {
            let item = string_of(&s, a, b, None, false);
            r.push(expand_home(item.as_str(), home));
        }
        assert(strings_view(r@) =~= strings_view(before) + match entries[k as int] {
            Some(x) => seq![x],
            None => Seq::empty(),
        });
        k = k + 1;
    }
    assert(entries.take(k as int) =~= entries);
    r
}

proof fn lemma_keep_some_concat(x: Seq<Option<Seq<char>>>, y: Seq<Option<Seq<char>>>)
    ensures
        keep_some(x + y) == keep_some(x) + keep_some(y),
    decreases y.len(),
{
    if y.len() == 0 {
        assert(x + y =~= x);
        assert(keep_some(x) + keep_some(y) =~= keep_some(x));
    } else {
        lemma_keep_some_concat(x, y.drop_last());
        assert((x + y).drop_last() =~= x + y.drop_last());
        assert((x + y).last() == y.last());
        assert(keep_some(x + y) =~= keep_some(x) + keep_some(y));
    }
}

proof fn lemma_keep_flagged_same(s: Seq<Seq<char>>, f: Seq<bool>, g: Seq<bool>)
    requires
        forall|i: int| 0 <= i < s.len() ==> f[i] == g[i],
    ensures
        keep_flagged(s, f) == keep_flagged(s, g),
    decreases s.len(),
{
    if s.len() > 0 {
        lemma_keep_flagged_same(s.drop_last(), f, g);
    }
}

proof fn lemma_keep_flagged_concat(x: Seq<Seq<char>>, f1: Seq<bool>, y: Seq<Seq<char>>, f2: Seq<bool>)
    requires
        f1.len() == x.len(),
        f2.len() >= y.len(),
    ensures
        keep_flagged(x + y, f1 + f2) == keep_flagged(x, f1) + keep_flagged(y, f2),
    decreases y.len(),
{
    if y.len() == 0 {
        assert(x + y =~= x);
        lemma_keep_flagged_same(x, f1 + f2, f1);
        assert(keep_flagged(x, f1) + keep_flagged(y, f2) =~= keep_flagged(x, f1));
    } else {
        lemma_keep_flagged_concat(x, f1, y.drop_last(), f2);
        assert((x + y).drop_last() =~= x + y.drop_last());
        assert((x + y).last() == y.last());
        assert((f1 + f2)[(x + y).len() - 1] == f2[y.len() - 1]);
        assert(keep_flagged(x + y, f1 + f2) =~= keep_flagged(x, f1) + keep_flagged(y, f2));
    }
}

/// A folder list made of two lists joined by a comma or a newline names
/// the folders of the first followed by those of the second; given the same
/// answers on which of them exist, it keeps those kept from each.
pub proof fn lemma_folder_lists_join(
    a: Seq<char>,
    b: Seq<char>,
    sep: char,
    home: Option<Seq<char>>,
    flags_a: Seq<bool>,
    flags_b: Seq<bool>,
)
    requires
        sep == ',' || sep == '\n',
        flags_a.len() == folder_candidates_spec(a, home).len(),
        flags_b.len() == folder_candidates_spec(b, home).len(),
    ensures
        folder_candidates_spec(a + seq![sep] + b, home) == folder_candidates_spec(a, home)
            + folder_candidates_spec(b, home),
        keep_flagged(folder_candidates_spec(a + seq![sep] + b, home), flags_a + flags_b)
            == keep_flagged(folder_candidates_spec(a, home), flags_a) + keep_flagged(
            folder_candidates_spec(b, home),
            flags_b,
        ),
{
    let na = newlines_as_commas(a);
    let nb = newlines_as_commas(b);
    assert(newlines_as_commas(a + seq![sep] + b) =~= na + seq![','] + nb);
    crate::text::lemma_split_concat(na, ',', nb);
    let e = |p: Seq<char>| folder_entry(p, home);
    assert((split(na, ',') + split(nb, ',')).map_values(e) =~= split(na, ',').map_values(e)
        + split(nb, ',').map_values(e));
    lemma_keep_some_concat(split(na, ',').map_values(e), split(nb, ',').map_values(e));
    assert(folder_candidates_spec(a + seq![sep] + b, home) == folder_candidates_spec(a, home)
        + folder_candidates_spec(b, home));
    lemma_keep_flagged_concat(
        folder_candidates_spec(a, home),
        flags_a,
        folder_candidates_spec(b, home),
        flags_b,
    );
}

/// Joining two extension lists with a comma joins the extensions they name:
/// nothing is dropped, added or reordered.
pub proof fn lemma_parse_extensions_join(a: Seq<char>, b: Seq<char>)
    ensures
        parse_extensions_spec(a + seq![','] + b) == parse_extensions_spec(a) + parse_extensions_spec(b),
{
    crate::text::lemma_split_concat(a, ',', b);
    let e = |p: Seq<char>| extension_entry(p);
    assert((split(a, ',') + split(b, ',')).map_values(e) =~= split(a, ',').map_values(e)
        + split(b, ',').map_values(e));
    lemma_keep_some_concat(split(a, ',').map_values(e), split(b, ',').map_values(e));
}

/// A list without a comma names nothing when it is blank, and otherwise
/// the one extension that is its text trimmed and lowercased, with a `.`
/// put in front when it has none.
pub proof fn lemma_parse_extensions_single(raw: Seq<char>)
    requires
        forall|i: int| 0 <= i < raw.len() ==> raw[i] != ',',
    ensures
        trim(raw).len() == 0 ==> parse_extensions_spec(raw) == Seq::<Seq<char>>::empty(),
        trim(raw).len() > 0 ==> parse_extensions_spec(raw) == seq![
            if ascii_lowercase(trim(raw))[0] == '.' {
                ascii_lowercase(trim(raw))
            } else {
                seq!['.'] + ascii_lowercase(trim(raw))
            },
        ],
{
    crate::text::lemma_split_single(raw, ',');
    let m = split(raw, ',').map_values(|p: Seq<char>| extension_entry(p));
    assert(m =~= seq![extension_entry(raw)]);
    assert(m.drop_last() =~= Seq::<Option<Seq<char>>>::empty());
    assert(keep_some(m.drop_last()) =~= Seq::<Seq<char>>::empty());
    assert(m.last() == extension_entry(raw));
    if trim(raw).len() == 0 {
        assert(keep_some(m) =~= Seq::<Seq<char>>::empty());
    } else {
        assert(keep_some(m) =~= seq![extension_entry(raw)->0]);
    }
}

/// Whether `path` names an existing folder, by `std::path::Path::is_dir`
/// (which follows symbolic links and answers `false` on any error).
/// Nothing is stated of the answer: it depends on the file system at the
/// moment of the call.
#[verifier::external_body]
pub(crate) fn path_is_dir(path: &str) -> bool {
    std::path::Path::new(path).is_dir()
}

/// The candidates whose flag is set.
pub fn retain_directories(candidates: Vec<String>, is_dir: &Vec<bool>) -> (r: Vec<String>)
    requires
        is_dir.len() == candidates.len(),
    ensures
        strings_view(r@) == keep_flagged(strings_view(candidates@), is_dir@),
{
    let ghost cv = strings_view(candidates@);
    let mut r: Vec<String> = Vec::new();
    let mut k: usize = 0;
    while k < candidates.len()
        invariant
            is_dir.len() == candidates.len(),
            cv == strings_view(candidates@),
            k <= candidates.len(),
            strings_view(r@) == keep_flagged(cv.take(k as int), is_dir@),
        decreases candidates.len() - k,
    {
        let ghost before = r@;
        assert(cv.take(k + 1).drop_last() =~= cv.take(k as int));
        if is_dir[k] {
            r.push(candidates[k].clone());
        }
        assert(strings_view(r@) =~= strings_view(before) + if is_dir@[k as int] {
            seq![cv[k as int]]
        } else {
            Seq::<Seq<char>>::empty()
        });
        k = k + 1;
    }
    assert(cv.take(k as int) =~= cv);
    r
}

/// The existing folders that a list separated by commas or newlines names,
/// with `~` expanded to `home`.  Which candidates exist is decided by the
/// file system when the call is made.
pub fn parse_folders(raw: &str, home: Option<&str>) -> (r: Vec<String>)
    ensures
        exists|flags: Seq<bool>|
            flags.len() == folder_candidates_spec(raw@, opt_view(home)).len() && strings_view(r@)
                == keep_flagged(folder_candidates_spec(raw@, opt_view(home)), flags),
{
    let candidates = folder_candidates(raw, home);
    let mut flags: Vec<bool> = Vec::new();
    let mut k: usize = 0;
    while k < candidates.len()
        invariant
            k <= candidates.len(),
            flags.len() == k,
        decreases candidates.len() - k,
    {
        flags.push(path_is_dir(candidates[k].as_str()));
        k = k + 1;
    }
    let r = retain_directories(candidates, &flags);
    assert(flags@.len() == folder_candidates_spec(raw@, opt_view(home)).len());
    r
}

// ---------------------------------------------------------------------------
// Which files are reported.

/// What a directory entry is, symbolic links not followed.
#[derive(Debug, Clone, Copy, PartialEq, Eq, Structural)]
pub enum EntryKind {
    Directory,
    File,
    Other,
}

/// An entry found under the searched folders.
#[derive(Debug, Clone)]
pub struct FileEntry {
    pub path: String,
    pub kind: EntryKind,
    /// The time of last modification, when it could be read.
    pub modified: Option<Timestamp>,
}

/// Whether a found entry is reported: a regular file with a matching
/// extension whose time of last modification is known and within the
/// requested dates.
pub open spec fn is_selected(config: Config, e: FileEntry) -> bool {
    &&& e.kind == EntryKind::File
    &&& matches_extension_spec(e.path@, strings_view(config.extensions@))
    &&& e.modified is Some
    &&& !(config.date_from matches Some(from) && is_earlier(e.modified->0, from))
    &&& !(config.date_to matches Some(to) && is_earlier(to, e.modified->0))
}

/// The paths of the selected entries, in the order found.
pub open spec fn selected_paths(config: Config, entries: Seq<FileEntry>) -> Seq<Seq<char>>
    decreases entries.len(),
{
    if entries.len() == 0 {
        Seq::empty()
    } else {
        selected_paths(config, entries.drop_last()) + if is_selected(config, entries.last()) {
            seq![entries.last().path@]
        } else {
            Seq::empty()
        }
    }
}

/// Inserts `x` into `s` after the last element that does not come after it.
pub open spec fn insert_sorted(s: Seq<Seq<char>>, x: Seq<char>) -> Seq<Seq<char>>
    decreases s.len(),
{
    if s.len() == 0 || !path_lt(x, s.last()) {
        s.push(x)
    } else {
        insert_sorted(s.drop_last(), x).push(s.last())
    }
}

/// Paths sorted by the order of `PathBuf`, equal paths kept in their
/// original order (the stable sort of `Vec::sort`).
pub open spec fn sort_paths(s: Seq<Seq<char>>) -> Seq<Seq<char>>
    decreases s.len(),
{
    if s.len() == 0 {
        Seq::empty()
    } else {
        insert_sorted(sort_paths(s.drop_last()), s.last())
    }
}

/// No path of `s` comes before an earlier one.
pub open spec fn paths_sorted(s: Seq<Seq<char>>) -> bool {
    forall|i: int, j: int| 0 <= i < j < s.len() ==> !path_lt(#[trigger] s[j], #[trigger] s[i])
}

proof fn lemma_insert_sorted(s: Seq<Seq<char>>, x: Seq<char>)
    requires
        paths_sorted(s),
    ensures
        paths_sorted(insert_sorted(s, x)),
        insert_sorted(s, x).to_multiset() =~= s.to_multiset().insert(x),
    decreases s.len(),
{
    broadcast use vstd::seq_lib::group_to_multiset_ensures;

    let r = insert_sorted(s, x);
    if s.len() == 0 || !path_lt(x, s.last()) {
        assert forall|i: int, j: int| 0 <= i < j < r.len() implies !path_lt(
            #[trigger] r[j],
            #[trigger] r[i],
        ) by {
            if j == s.len() {
                lemma_path_order(x, s.last(), s[i]);
                lemma_path_order(s[i], s[i], s[i]);
            }
        }
    } else {
        let t = s.drop_last();
        assert(paths_sorted(t));
        lemma_insert_sorted(t, x);
        let inner = insert_sorted(t, x);
        assert(s =~= t.push(s.last()));
        assert forall|i: int, j: int| 0 <= i < j < r.len() implies !path_lt(
            #[trigger] r[j],
            #[trigger] r[i],
        ) by {
            if j == inner.len() {
                let y = inner[i];
                assert(inner.contains(y));
                assert(inner.to_multiset().count(y) > 0);
                if y == x {
                    lemma_path_order(x, s.last(), x);
                } else {
                    assert(t.to_multiset().count(y) > 0);
                    assert(t.contains(y));
                    let k = choose|k: int| 0 <= k < t.len() && t[k] == y;
                    assert(s[k] == y);
                    assert(!path_lt(s[s.len() - 1], s[k]));
                }
            }
        }
    }
}

/// Sorting paths yields them in order, each as often as it was given.
pub proof fn lemma_sort_paths(s: Seq<Seq<char>>)
    ensures
        paths_sorted(sort_paths(s)),
        sort_paths(s).to_multiset() =~= s.to_multiset(),
    decreases s.len(),
{
    broadcast use vstd::seq_lib::group_to_multiset_ensures;

    if s.len() > 0 {
        lemma_sort_paths(s.drop_last());
        lemma_insert_sorted(sort_paths(s.drop_last()), s.last());
        assert(s =~= s.drop_last().push(s.last()));
    }
}

/// Inserting at the position before which no element comes after `x`, and
/// from which every element does, is `insert_sorted`.
proof fn lemma_insert_sorted_at(s: Seq<Seq<char>>, x: Seq<char>, j: int)
    requires
        0 <= j <= s.len(),
        forall|k: int| 0 <= k < j ==> !path_lt(x, #[trigger] s[k]),
        forall|k: int| j <= k < s.len() ==> path_lt(x, #[trigger] s[k]),
    ensures
        insert_sorted(s, x) == s.take(j).push(x) + s.skip(j),
    decreases s.len(),
{
    if s.len() == j {
        if s.len() > 0 {
            assert(!path_lt(x, s[s.len() - 1]));
        }
        assert(s.take(j) =~= s);
        assert(s.take(j).push(x) + s.skip(j) =~= s.push(x));
    } else {
        let t = s.drop_last();
        assert(path_lt(x, s[s.len() - 1]));
        lemma_insert_sorted_at(t, x, j);
        assert(t.take(j) =~= s.take(j));
        assert((t.take(j).push(x) + t.skip(j)).push(s.last()) =~= s.take(j).push(x) + s.skip(j));
    }
}

/// Inserts `path` into the sorted `paths`, keeping `keys` (the components
/// of each path) alongside; the position is found by binary search.
fn insert_path(paths: &mut Vec<String>, keys: &mut Vec<Vec<(u8, Vec<char>)>>, path: String)
    requires
        old(keys).len() == old(paths).len(),
        forall|i: int|
            0 <= i < old(paths).len() ==> components_view(#[trigger] old(keys)[i]@) == components(
                old(paths)[i]@,
            ),
        paths_sorted(strings_view(old(paths)@)),
    ensures
        final(keys).len() == final(paths).len(),
        forall|i: int|
            0 <= i < final(paths).len() ==> components_view(#[trigger] final(keys)[i]@) == components(
                final(paths)[i]@,
            ),
        strings_view(final(paths)@) == insert_sorted(strings_view(old(paths)@), path@),
{
    let chars = chars_of(path.as_str());
    let key = path_components(&chars);
    let ghost pv = strings_view(paths@);
    let ghost x = path@;
    let mut lo: usize = 0;
    let mut hi: usize = paths.len();
    while lo < hi
        invariant
            lo <= hi <= paths.len(),
            keys.len() == paths.len(),
            pv == strings_view(paths@),
            paths_sorted(pv),
            keys@ == old(keys)@,
            paths@ == old(paths)@,
            x == path@,
            components_view(key@) == components(x),
            forall|i: int|
                0 <= i < paths.len() ==> components_view(#[trigger] keys[i]@) == components(
                    paths[i]@,
                ),
            forall|k: int| 0 <= k < lo ==> !path_lt(x, #[trigger] pv[k]),
            forall|k: int| hi <= k < pv.len() ==> path_lt(x, #[trigger] pv[k]),
        decreases hi - lo,
    {
        let mid = lo + (hi - lo) / 2;
        assert(components_view(keys[mid as int]@) == components(pv[mid as int]));
        if components_less(&key, &keys[mid]) {
            assert forall|k: int| mid <= k < pv.len() implies path_lt(x, #[trigger] pv[k]) by {
                if k > mid {
                    lemma_path_order(x, pv[k], pv[mid as int]);
                }
            }
            hi = mid;
        } else {
            assert forall|k: int| 0 <= k <= mid implies !path_lt(x, #[trigger] pv[k]) by {
                if k < mid {
                    lemma_path_order(x, pv[mid as int], pv[k]);
                }
            }
            lo = mid + 1;
        }
    }
    let j = lo;
    proof {
        lemma_insert_sorted_at(pv, x, j as int);
    }
    let ghost old_keys = keys@;
    paths.insert(j, path);
    keys.insert(j, key);
    assert(strings_view(paths@) =~= pv.take(j as int).push(x) + pv.skip(j as int));
    assert forall|i: int| 0 <= i < paths.len() implies components_view(
        #[trigger] keys[i]@,
    ) == components(paths[i]@) by {
        if i < j {
            assert(keys[i] == old_keys[i]);
        } else if i > j {
            assert(keys[i] == old_keys[i - 1]);
        }
    }
}

/// Merges two sequences of paths from their ends, an element of `a` going
/// before an equivalent element of `b`.
spec fn merge_paths(a: Seq<Seq<char>>, b: Seq<Seq<char>>) -> Seq<Seq<char>>
    decreases a.len() + b.len(),
{
    if a.len() == 0 {
        b
    } else if b.len() == 0 {
        a
    } else if path_lt(b.last(), a.last()) {
        merge_paths(a.drop_last(), b).push(a.last())
    } else {
        merge_paths(a, b.drop_last()).push(b.last())
    }
}

proof fn lemma_insert_into_merge(t: Seq<Seq<char>>, u: Seq<Seq<char>>, x: Seq<char>)
    ensures
        insert_sorted(merge_paths(t, u), x) == merge_paths(t, insert_sorted(u, x)),
    decreases t.len() + u.len(),
{
    let v = insert_sorted(u, x);
    let m = merge_paths(t, u);
    if t.len() == 0 {
    } else if u.len() == 0 {
        let t1 = t.drop_last();
        assert(v =~= seq![x]);
        assert(v.drop_last() =~= u);
        assert(m == t);
        if path_lt(x, t.last()) {
            lemma_insert_into_merge(t1, u, x);
            assert(merge_paths(t1, u) =~= t1);
            assert(m.drop_last() =~= t1);
            assert(merge_paths(t, v) == merge_paths(t1, v).push(t.last()));
        } else {
            assert(merge_paths(t, v) == merge_paths(t, u).push(x));
        }
    } else {
        let t1 = t.drop_last();
        let u1 = u.drop_last();
        lemma_path_order(u.last(), t.last(), x);
        lemma_path_order(t.last(), u.last(), x);
        lemma_path_order(x, t.last(), u.last());
        lemma_path_order(x, u.last(), t.last());
        if path_lt(x, u.last()) {
            assert(v == insert_sorted(u1, x).push(u.last()));
        } else {
            assert(v == u.push(x));
        }
        assert(v.len() > 0);
        if path_lt(u.last(), t.last()) {
            assert(m == merge_paths(t1, u).push(t.last()));
            assert(m.drop_last() =~= merge_paths(t1, u));
            if path_lt(x, t.last()) {
                lemma_insert_into_merge(t1, u, x);
                assert(path_lt(v.last(), t.last()));
                assert(merge_paths(t, v) == merge_paths(t1, v).push(t.last()));
                assert(insert_sorted(m, x) == insert_sorted(merge_paths(t1, u), x).push(t.last()));
            } else {
                assert(!path_lt(x, u.last()));
                assert(v.drop_last() =~= u);
                assert(merge_paths(t, v) == merge_paths(t, u).push(x));
            }
        } else {
            assert(m == merge_paths(t, u1).push(u.last()));
            assert(m.drop_last() =~= merge_paths(t, u1));
            if path_lt(x, u.last()) {
                lemma_insert_into_merge(t, u1, x);
                assert(v.drop_last() =~= insert_sorted(u1, x));
                assert(merge_paths(t, v) == merge_paths(t, insert_sorted(u1, x)).push(u.last()));
                assert(insert_sorted(m, x) == insert_sorted(merge_paths(t, u1), x).push(u.last()));
            } else {
                assert(!path_lt(x, t.last()));
                assert(v.drop_last() =~= u);
                assert(merge_paths(t, v) == merge_paths(t, u).push(x));
            }
        }
    }
}

proof fn lemma_sort_concat(a: Seq<Seq<char>>, b: Seq<Seq<char>>)
    ensures
        sort_paths(a + b) == merge_paths(sort_paths(a), sort_paths(b)),
    decreases b.len(),
{
    if b.len() == 0 {
        assert(a + b =~= a);
        if sort_paths(a).len() == 0 {
            assert(sort_paths(a) =~= sort_paths(b));
        }
    } else {
        let b1 = b.drop_last();
        lemma_sort_concat(a, b1);
        assert((a + b).drop_last() =~= a + b1);
        assert((a + b).last() == b.last());
        lemma_insert_into_merge(sort_paths(a), sort_paths(b1), b.last());
    }
}

proof fn lemma_sort_sorted(s: Seq<Seq<char>>)
    requires
        paths_sorted(s),
    ensures
        sort_paths(s) == s,
    decreases s.len(),
{
    if s.len() > 0 {
        let s1 = s.drop_last();
        assert(paths_sorted(s1));
        lemma_sort_sorted(s1);
        if s1.len() > 0 {
            assert(!path_lt(s[s.len() - 1], s[s.len() - 2]));
        }
        assert(s1.push(s.last()) =~= s);
    }
}

proof fn lemma_selected_concat(config: Config, e1: Seq<FileEntry>, e2: Seq<FileEntry>)
    ensures
        selected_paths(config, e1 + e2) == selected_paths(config, e1) + selected_paths(config, e2),
    decreases e2.len(),
{
    if e2.len() == 0 {
        assert(e1 + e2 =~= e1);
        assert(selected_paths(config, e1) + selected_paths(config, e2) =~= selected_paths(config, e1));
    } else {
        let e = e2.drop_last();
        lemma_selected_concat(config, e1, e);
        assert((e1 + e2).drop_last() =~= e1 + e);
        assert((e1 + e2).last() == e2.last());
        assert(selected_paths(config, e1 + e2) =~= selected_paths(config, e1) + selected_paths(config, e2));
    }
}

/// Searching the entries found under two folder lists, walked one after the
/// other, reports what the two searches report, joined and sorted again.
pub proof fn lemma_find_files_joined(config: Config, e1: Seq<FileEntry>, e2: Seq<FileEntry>)
    ensures
        sort_paths(selected_paths(config, e1 + e2)) == sort_paths(
            sort_paths(selected_paths(config, e1)) + sort_paths(selected_paths(config, e2)),
        ),
{
    let s1 = selected_paths(config, e1);
    let s2 = selected_paths(config, e2);
    lemma_selected_concat(config, e1, e2);
    lemma_sort_concat(s1, s2);
    lemma_sort_concat(sort_paths(s1), sort_paths(s2));
    lemma_sort_paths(s1);
    lemma_sort_paths(s2);
    lemma_sort_sorted(sort_paths(s1));
    lemma_sort_sorted(sort_paths(s2));
}

/// `weaker` filters the found files no more than `config`: it asks for any
/// extension or for all those that `config` asks for, and for no bound on
/// the date of modification or a bound no tighter than that of `config`.
pub open spec fn filters_weaker(config: Config, weaker: Config) -> bool {
    &&& (weaker.extensions@.len() == 0 || (config.extensions@.len() > 0 && forall|x: Seq<char>|
        strings_view(config.extensions@).contains(x) ==> strings_view(weaker.extensions@).contains(x)))
    &&& (weaker.date_from matches Some(a2) ==> config.date_from matches Some(a) && !is_earlier(a, a2))
    &&& (weaker.date_to matches Some(b2) ==> config.date_to matches Some(b) && !is_earlier(b2, b))
}

proof fn lemma_selected_weaker(config: Config, weaker: Config, entries: Seq<FileEntry>)
    requires
        filters_weaker(config, weaker),
    ensures
        selected_paths(config, entries).to_multiset().subset_of(
            selected_paths(weaker, entries).to_multiset(),
        ),
    decreases entries.len(),
{
    broadcast use vstd::seq_lib::group_to_multiset_ensures;

    if entries.len() > 0 {
        let e = entries.last();
        let rest = entries.drop_last();
        lemma_selected_weaker(config, weaker, rest);
        let m1 = selected_paths(config, rest).to_multiset();
        let m2 = selected_paths(weaker, rest).to_multiset();
        if is_selected(config, e) {
            assert(selected_paths(config, entries) =~= selected_paths(config, rest).push(e.path@));
        } else {
            assert(selected_paths(config, entries) =~= selected_paths(config, rest));
        }
        if is_selected(weaker, e) {
            assert(selected_paths(weaker, entries) =~= selected_paths(weaker, rest).push(e.path@));
        } else {
            assert(selected_paths(weaker, entries) =~= selected_paths(weaker, rest));
        }
        if is_selected(config, e) {
            let p = e.path@;
            if weaker.extensions@.len() > 0 {
                let x = seq!['.'] + ascii_lowercase(extension(p)->0);
                assert(strings_view(config.extensions@).contains(x));
            }
            assert(is_selected(weaker, e));
        }
        assert forall|v: Seq<char>|
            selected_paths(config, entries).to_multiset().count(v) <= #[trigger] selected_paths(
                weaker,
                entries,
            ).to_multiset().count(v) by {
            assert(m1.count(v) <= m2.count(v));
        }
    }
}

proof fn lemma_selected_empty_range(config: Config, entries: Seq<FileEntry>)
    requires
        config.date_from matches Some(a) && config.date_to matches Some(b) && is_earlier(b, a),
    ensures
        selected_paths(config, entries) == Seq::<Seq<char>>::empty(),
    decreases entries.len(),
{
    if entries.len() > 0 {
        lemma_selected_empty_range(config, entries.drop_last());
    }
}

/// Weaker filters report every file that stronger ones report (and maybe
/// more); a start date after the end date reports nothing.
pub proof fn lemma_find_files_filters(config: Config, weaker: Config, entries: Seq<FileEntry>)
    ensures
        filters_weaker(config, weaker) ==> sort_paths(selected_paths(config, entries)).to_multiset().subset_of(
            sort_paths(selected_paths(weaker, entries)).to_multiset(),
        ),
        (config.date_from matches Some(a) && config.date_to matches Some(b) && is_earlier(b, a))
            ==> sort_paths(selected_paths(config, entries)) == Seq::<Seq<char>>::empty(),
{
    lemma_sort_paths(selected_paths(config, entries));
    lemma_sort_paths(selected_paths(weaker, entries));
    if filters_weaker(config, weaker) {
        lemma_selected_weaker(config, weaker, entries);
    }
    if config.date_from matches Some(a) && config.date_to matches Some(b) && is_earlier(b, a) {
        lemma_selected_empty_range(config, entries);
    }
}

proof fn lemma_selected_contains(config: Config, entries: Seq<FileEntry>, p: Seq<char>)
    ensures
        selected_paths(config, entries).contains(p) <==> exists|i: int|
            0 <= i < entries.len() && #[trigger] entries[i].path@ == p && is_selected(config, entries[i]),
    decreases entries.len(),
{
    if entries.len() > 0 {
        let rest = entries.drop_last();
        let e = entries.last();
        lemma_selected_contains(config, rest, p);
        let s0 = selected_paths(config, rest);
        if is_selected(config, e) {
            assert(selected_paths(config, entries) == s0 + seq![e.path@]);
        } else {
            assert(selected_paths(config, entries) =~= s0);
        }
        if selected_paths(config, entries).contains(p) {
            let k = choose|k: int| 0 <= k < selected_paths(config, entries).len()
                && selected_paths(config, entries)[k] == p;
            if k < s0.len() {
                assert(s0[k] == p);
                let i = choose|i: int|
                    0 <= i < rest.len() && #[trigger] rest[i].path@ == p && is_selected(config, rest[i]);
                assert(entries[i] == rest[i]);
            } else {
                assert(entries[entries.len() - 1].path@ == p);
            }
        }
        if exists|i: int|
            0 <= i < entries.len() && #[trigger] entries[i].path@ == p && is_selected(config, entries[i]) {
            let i = choose|i: int|
                0 <= i < entries.len() && #[trigger] entries[i].path@ == p && is_selected(config, entries[i]);
            if i < rest.len() {
                assert(rest[i] == entries[i]);
                assert(s0.contains(p));
                let k = choose|k: int| 0 <= k < s0.len() && s0[k] == p;
                assert(selected_paths(config, entries)[k] == p);
            } else {
                assert(selected_paths(config, entries)[s0.len() as int] == p);
            }
        }
    }
}

/// The paths that a search reports are exactly those of the found regular
/// files whose extension is asked for (or any, when none is) and whose time
/// of last modification is known, not earlier than the start date when one
/// is given and not later than the end date when one is given.
pub proof fn lemma_find_files_reports(config: Config, entries: Seq<FileEntry>, p: Seq<char>)
    ensures
        sort_paths(selected_paths(config, entries)).contains(p) <==> exists|i: int|
            0 <= i < entries.len() && #[trigger] entries[i].path@ == p && entries[i].kind
                == EntryKind::File && matches_extension_spec(
                entries[i].path@,
                strings_view(config.extensions@),
            ) && entries[i].modified is Some && (config.date_from matches Some(from) ==> !is_earlier(
                entries[i].modified->0,
                from,
            )) && (config.date_to matches Some(to) ==> !is_earlier(to, entries[i].modified->0)),
{
    broadcast use vstd::seq_lib::group_to_multiset_ensures;

    lemma_sort_paths(selected_paths(config, entries));
    lemma_selected_contains(config, entries, p);
    let s = selected_paths(config, entries);
    assert(sort_paths(s).to_multiset().count(p) == s.to_multiset().count(p));
    assert(sort_paths(selected_paths(config, entries)).contains(p) == selected_paths(
        config,
        entries,
    ).contains(p));
}

/// The files to report among the entries found under the searched folders:
/// the selected ones, sorted by path as `PathBuf` sorts.
pub fn find_files(config: &Config, entries: &Vec<FileEntry>) -> (r: Vec<String>)
    ensures
        strings_view(r@) == sort_paths(selected_paths(*config, entries@)),
        forall|p: Seq<char>|
            #![trigger strings_view(r@).contains(p)]
            strings_view(r@).contains(p) <==> exists|i: int|
                0 <= i < entries.len() && #[trigger] entries[i].path@ == p && entries[i].kind
                    == EntryKind::File && matches_extension_spec(
                    entries[i].path@,
                    strings_view(config.extensions@),
                ) && entries[i].modified is Some && (config.date_from matches Some(from)
                    ==> !is_earlier(entries[i].modified->0, from)) && (config.date_to matches Some(
                    to,
                ) ==> !is_earlier(to, entries[i].modified->0)),
{
    let mut results: Vec<String> = Vec::new();
    let mut keys: Vec<Vec<(u8, Vec<char>)>> = Vec::new();
    let mut k: usize = 0;
    while k < entries.len()
        invariant
            k <= entries.len(),
            keys.len() == results.len(),
            forall|i: int|
                0 <= i < results.len() ==> components_view(#[trigger] keys[i]@) == components(
                    results[i]@,
                ),
            strings_view(results@) == sort_paths(selected_paths(*config, entries@.take(k as int))),
        decreases entries.len() - k,
    {
        let entry = &entries[k];
        let ghost es = entries@.take(k + 1);
        assert(es.drop_last() =~= entries@.take(k as int));
        assert(es.last() == entries@[k as int]);
        let selected = entry.kind == EntryKind::File && matches_extension(
            entry.path.as_str(),
            &config.extensions,
        ) && match entry.modified {
            None => false,
            Some(modified) => {
                let after_start = match config.date_from {
                    Some(from) => !modified.is_before(&from),
                    None => true,
                };
                let before_end = match config.date_to {
                    Some(to) => !to.is_before(&modified),
                    None => true,
                };
                after_start && before_end
            },
        };
        assert(selected == is_selected(*config, entries@[k as int]));
        if selected {
            let ghost sel = selected_paths(*config, entries@.take(k as int));
            assert(selected_paths(*config, es) == sel.push(entry.path@));
            assert(sel.push(entry.path@).drop_last() =~= sel);
            proof {
                lemma_sort_paths(selected_paths(*config, entries@.take(k as int)));
            }
            insert_path(&mut results, &mut keys, entry.path.clone());
        }
        k = k + 1;
    }
    assert(entries@.take(k as int) =~= entries@);
    assert forall|p: Seq<char>|
        #![trigger strings_view(results@).contains(p)]
        strings_view(results@).contains(p) <==> exists|i: int|
            0 <= i < entries.len() && #[trigger] entries[i].path@ == p && entries[i].kind
                == EntryKind::File && matches_extension_spec(
                entries[i].path@,
                strings_view(config.extensions@),
            ) && entries[i].modified is Some && (config.date_from matches Some(from)
                ==> !is_earlier(entries[i].modified->0, from)) && (config.date_to matches Some(
                to,
            ) ==> !is_earlier(to, entries[i].modified->0)) by {
        lemma_find_files_reports(*config, entries@, p);
    }
    results
}

} // verus!

verus! {

// ---------------------------------------------------------------------------
// Normalised extension lists.

/// What a normalised extension looks like: it starts with `.`, has no
/// surrounding whitespace, no ASCII capital and no comma.
pub open spec fn is_normal_extension(e: Seq<char>) -> bool {
    &&& e.len() > 0
    &&& e[0] == '.'
    &&& trim(e) == e
    &&& ascii_lowercase(e) == e
    &&& forall|i: int| 0 <= i < e.len() ==> e[i] != ','
}

proof fn lemma_extension_entry_normal(p: Seq<char>)
    requires
        forall|i: int| 0 <= i < p.len() ==> p[i] != ',',
        extension_entry(p) is Some,
    ensures
        is_normal_extension(extension_entry(p)->0),
        extension_entry(extension_entry(p)->0) == extension_entry(p),
{
    crate::text::lemma_trim_shape(p);
    let t0 = trim(p);
    let t = ascii_lowercase(t0);
    let e = extension_entry(p)->0;
    assert forall|i: int| 0 <= i < t.len() implies t[i] != ',' && !(t[i] >= 'A' && t[i] <= 'Z') by {
        assert(p.contains(t0[i]));
    }
    assert(!crate::text::is_ws(t[0]));
    assert(!crate::text::is_ws(t.last()));
    if t[0] == '.' {
        assert(e == t);
    } else {
        assert(e =~= seq!['.'] + t);
        assert(e.last() == t.last());
    }
    assert forall|i: int| 0 <= i < e.len() implies e[i] != ',' && !(e[i] >= 'A' && e[i] <= 'Z') by {
        if e != t {
            if i > 0 {
                assert(e[i] == t[i - 1]);
            }
        }
    }
    assert(ascii_lowercase(e) =~= e);
    crate::text::lemma_trim_line(e);
    assert(extension_entry(e) == Some(e));
}

proof fn lemma_keep_some_normal(s: Seq<Option<Seq<char>>>, pieces: Seq<Seq<char>>)
    requires
        s == pieces.map_values(|p: Seq<char>| extension_entry(p)),
        forall|k: int, j: int| 0 <= k < pieces.len() && 0 <= j < pieces[k].len() ==> pieces[k][j] != ',',
    ensures
        forall|i: int| 0 <= i < keep_some(s).len() ==> is_normal_extension(#[trigger] keep_some(s)[i]),
        forall|i: int| 0 <= i < keep_some(s).len() ==> extension_entry(#[trigger] keep_some(s)[i]) == Some(keep_some(s)[i]),
    decreases s.len(),
{
    if s.len() > 0 {
        let ps = pieces.drop_last();
        assert(s.drop_last() =~= ps.map_values(|p: Seq<char>| extension_entry(p)));
        lemma_keep_some_normal(s.drop_last(), ps);
        if s.last() is Some {
            assert(s.last() == extension_entry(pieces.last()));
            lemma_extension_entry_normal(pieces.last());
        }
    }
}

proof fn lemma_split_join(items: Seq<Seq<char>>)
    requires
        items.len() > 0,
        forall|k: int, j: int| 0 <= k < items.len() && 0 <= j < items[k].len() ==> items[k][j] != ',',
    ensures
        split(crate::ui::join(items, seq![',']), ',') == items,
    decreases items.len(),
{
    crate::text::lemma_split_single(items.last(), ',');
    if items.len() == 1 {
        assert(seq![items[0]] =~= items);
    } else {
        lemma_split_join(items.drop_last());
        crate::text::lemma_split_concat(crate::ui::join(items.drop_last(), seq![',']), ',', items.last());
        assert(items.drop_last() + seq![items.last()] =~= items);
    }
}

proof fn lemma_keep_some_fixed(items: Seq<Seq<char>>)
    requires
        forall|i: int| 0 <= i < items.len() ==> extension_entry(#[trigger] items[i]) == Some(items[i]),
    ensures
        keep_some(items.map_values(|p: Seq<char>| extension_entry(p))) == items,
    decreases items.len(),
{
    if items.len() > 0 {
        let m = items.map_values(|p: Seq<char>| extension_entry(p));
        assert(m.drop_last() =~= items.drop_last().map_values(|p: Seq<char>| extension_entry(p)));
        lemma_keep_some_fixed(items.drop_last());
        assert(m.last() == Some(items.last()));
        assert(items.drop_last().push(items.last()) =~= items);
    }
}

/// Normalising an extension list a second time, after joining it with
/// commas, changes nothing; every normalised extension starts with `.`,
/// is lowercase, and has no surrounding whitespace and no comma.
pub proof fn lemma_parse_extensions_idempotent(raw: Seq<char>)
    ensures
        parse_extensions_spec(crate::ui::join(parse_extensions_spec(raw), seq![',']))
            == parse_extensions_spec(raw),
        forall|i: int|
            0 <= i < parse_extensions_spec(raw).len() ==> is_normal_extension(
                #[trigger] parse_extensions_spec(raw)[i],
            ),
{
    let pieces = split(raw, ',');
    crate::text::lemma_split_pieces_free_of_sep(raw, ',');
    let s = pieces.map_values(|p: Seq<char>| extension_entry(p));
    lemma_keep_some_normal(s, pieces);
    let e = parse_extensions_spec(raw);
    if e.len() == 0 {
        assert(crate::ui::join(e, seq![',']) =~= Seq::<char>::empty());
        assert(split(Seq::<char>::empty(), ',') =~= seq![Seq::<char>::empty()]);
        assert(extension_entry(Seq::<char>::empty()) is None) by {
            assert(trim(Seq::<char>::empty()) =~= Seq::<char>::empty());
        }
        let m = split(Seq::<char>::empty(), ',').map_values(|p: Seq<char>| extension_entry(p));
        assert(m.len() == 1);
        assert(m[0] is None);
        assert(m.drop_last() =~= Seq::<Option<Seq<char>>>::empty());
        assert(keep_some(m.drop_last()) =~= Seq::<Seq<char>>::empty());
        assert(m.last() is None);
        assert(keep_some(m) =~= Seq::<Seq<char>>::empty());
        assert(parse_extensions_spec(crate::ui::join(e, seq![','])) == keep_some(m));
    } else {
        lemma_split_join(e);
        lemma_keep_some_fixed(e);
        assert(split(crate::ui::join(e, seq![',']), ',') == e);
        assert(parse_extensions_spec(crate::ui::join(e, seq![','])) == keep_some(
            e.map_values(|p: Seq<char>| extension_entry(p)),
        ));
    }
}

} // verus!
