//! Character-level text model: whitespace, trimming, ASCII lowercasing,
//! splitting on a separator, and the conversions between `&str`, `String`
//! and `Vec<char>` that the parsers work on.
use vstd::prelude::*;

verus! {

/// The characters with the Unicode `White_Space` property, which is what
/// `char::is_whitespace` (and therefore `str::trim`) recognises.
pub open spec fn is_ws(c: char) -> bool {
    ||| ('\u{9}' <= c && c <= '\u{d}')
    ||| c == ' '
    ||| c == '\u{85}'
    ||| c == '\u{a0}'
    ||| c == '\u{1680}'
    ||| ('\u{2000}' <= c && c <= '\u{200a}')
    ||| c == '\u{2028}'
    ||| c == '\u{2029}'
    ||| c == '\u{202f}'
    ||| c == '\u{205f}'
    ||| c == '\u{3000}'
}

/// `s` without its leading whitespace.
pub open spec fn trim_start(s: Seq<char>) -> Seq<char>
    decreases s.len(),
{
    if s.len() > 0 && is_ws(s[0]) {
        trim_start(s.drop_first())
    } else {
        s
    }
}

/// `s` without its trailing whitespace.
pub open spec fn trim_end(s: Seq<char>) -> Seq<char>
    decreases s.len(),
{
    if s.len() > 0 && is_ws(s.last()) {
        trim_end(s.drop_last())
    } else {
        s
    }
}

/// `s` without leading and trailing whitespace, as `str::trim` gives it.
pub open spec fn trim(s: Seq<char>) -> Seq<char> {
    trim_end(trim_start(s))
}

/// ASCII uppercase letters become lowercase; every other character stays.
pub open spec fn lower_char(c: char) -> char {
    if 'A' <= c && c <= 'Z' {
        ((c as u32) + 32) as char
    } else {
        c
    }
}

/// `str::to_ascii_lowercase` on a character sequence.
pub open spec fn ascii_lowercase(s: Seq<char>) -> Seq<char> {
    s.map_values(|c: char| lower_char(c))
}

/// The pieces of `s` between occurrences of `sep`, as `str::split` with a
/// character pattern yields them: there is always one more piece than there
/// are separators, and pieces may be empty.
pub open spec fn split(s: Seq<char>, sep: char) -> Seq<Seq<char>>
    decreases s.len(),
{
    if s.len() == 0 {
        seq![Seq::<char>::empty()]
    } else {
        let p = split(s.drop_last(), sep);
        if s.last() == sep {
            p.push(Seq::<char>::empty())
        } else {
            p.update(p.len() - 1, p.last().push(s.last()))
        }
    }
}

/// The views of a sequence of strings.
pub open spec fn strings_view(v: Seq<String>) -> Seq<Seq<char>> {
    v.map_values(|s: String| s@)
}

pub proof fn lemma_split_len(s: Seq<char>, sep: char)
    ensures
        split(s, sep).len() >= 1,
    decreases s.len(),
{
    if s.len() > 0 {
        lemma_split_len(s.drop_last(), sep);
    }
}

/// No piece of a split contains the separator.
pub proof fn lemma_split_pieces_free_of_sep(s: Seq<char>, sep: char)
    ensures
        forall|k: int, j: int|
            0 <= k < split(s, sep).len() && 0 <= j < split(s, sep)[k].len() ==> split(s, sep)[k][j]
                != sep,
    decreases s.len(),
{
    if s.len() > 0 {
        lemma_split_len(s.drop_last(), sep);
        lemma_split_pieces_free_of_sep(s.drop_last(), sep);
        let p = split(s.drop_last(), sep);
        if s.last() != sep {
            assert forall|k: int, j: int|
                0 <= k < split(s, sep).len() && 0 <= j < split(s, sep)[k].len() implies split(
                s,
                sep,
            )[k][j] != sep by {
                if k == p.len() - 1 && j == p.last().len() {
                } else if k == p.len() - 1 {
                    assert(split(s, sep)[k][j] == p[k][j]);
                }
            }
        }
    }
}

proof fn lemma_trim_start_skip(s: Seq<char>, i: int)
    requires
        0 <= i <= s.len(),
        forall|k: int| 0 <= k < i ==> is_ws(#[trigger] s[k]),
    ensures
        trim_start(s) == trim_start(s.skip(i)),
    decreases i,
{
    if i > 0 {
        assert(is_ws(s[0]));
        let t = s.drop_first();
        assert forall|k: int| 0 <= k < i - 1 implies is_ws(#[trigger] t[k]) by {
            assert(t[k] == s[k + 1]);
        }
        lemma_trim_start_skip(t, i - 1);
        assert(t.skip(i - 1) =~= s.skip(i));
    } else {
        assert(s.skip(0) =~= s);
    }
}

proof fn lemma_trim_end_take(s: Seq<char>, j: int)
    requires
        0 <= j <= s.len(),
        forall|k: int| j <= k < s.len() ==> is_ws(#[trigger] s[k]),
    ensures
        trim_end(s) == trim_end(s.take(j)),
    decreases s.len() - j,
{
    if j < s.len() {
        assert(is_ws(s.last()));
        let t = s.drop_last();
        lemma_trim_end_take(t, j);
        assert(t.take(j) =~= s.take(j));
    } else {
        assert(s.take(j) =~= s);
    }
}

/// Bounds `(a, b)` such that `s[a..b]` is `trim(s[lo..hi])`.
pub fn trim_bounds(s: &Vec<char>, lo: usize, hi: usize) -> (r: (usize, usize))
    requires
        lo <= hi <= s.len(),
    ensures
        lo <= r.0 <= r.1 <= hi,
        s@.subrange(r.0 as int, r.1 as int) == trim(s@.subrange(lo as int, hi as int)),
{
    let ghost t = s@.subrange(lo as int, hi as int);
    let mut a = lo;
    while a < hi && is_whitespace(s[a])
        invariant
            lo <= a <= hi <= s.len(),
            t == s@.subrange(lo as int, hi as int),
            forall|k: int| 0 <= k < a - lo ==> is_ws(#[trigger] t[k]),
        decreases hi - a,
    {
        a = a + 1;
    }
    proof {
        lemma_trim_start_skip(t, a - lo);
        let u = t.skip(a - lo);
        if a < hi {
            assert(u[0] == s@[a as int]);
        } else {
            assert(u.len() == 0);
        }
        assert(trim_start(t) == u);
        assert(u =~= s@.subrange(a as int, hi as int));
    }
    let mut b = hi;
    while b > a && is_whitespace(s[b - 1])
        invariant
            lo <= a <= b <= hi <= s.len(),
            forall|k: int| b <= k < hi ==> is_ws(#[trigger] s@[k]),
        decreases b - a,
    {
        b = b - 1;
    }
    proof {
        let u = s@.subrange(a as int, hi as int);
        assert forall|k: int| b - a <= k < u.len() implies is_ws(#[trigger] u[k]) by {
            assert(u[k] == s@[a + k]);
        }
        lemma_trim_end_take(u, b - a);
        let w = u.take(b - a);
        if b > a {
            assert(w.last() == s@[b - 1]);
        }
        assert(trim_end(w) == w);
        assert(w =~= s@.subrange(a as int, b as int));
    }
    (a, b)
}

/// `char::is_whitespace`.
pub fn is_whitespace(c: char) -> (r: bool)
    ensures
        r == is_ws(c),
{
    ('\u{9}' <= c && c <= '\u{d}') || c == ' ' || c == '\u{85}' || c == '\u{a0}' || c
        == '\u{1680}' || ('\u{2000}' <= c && c <= '\u{200a}') || c == '\u{2028}' || c == '\u{2029}'
        || c == '\u{202f}' || c == '\u{205f}' || c == '\u{3000}'
}

/// `char::to_ascii_lowercase`.
pub fn to_lower(c: char) -> (r: char)
    ensures
        r == lower_char(c),
{
    if 'A' <= c && c <= 'Z' {
        let b: u8 = (c as u32 + 32) as u8;
        b as char
    } else {
        c
    }
}

/// Appends one character to a `String` by `String::push`; claimed, as std
/// documents it, that the characters afterwards are those before followed
/// by `c`.
#[verifier::external_body]
pub(crate) fn push_char(s: &mut String, c: char)
    ensures
        final(s)@ == old(s)@.push(c),
{
    s.push(c);
}

/// The characters of a string.
pub fn chars_of(s: &str) -> (r: Vec<char>)
    ensures
        r@ == s@,
{
    broadcast use vstd::string::group_string_axioms;

    let mut r: Vec<char> = Vec::new();
    for c in it: s.chars()
        invariant
            r@ == it.seq().take(it.index() as int),
            it.seq() == s@,
    {
        r.push(c);
    }
    r
}

/// Appends `s[lo..hi]`, lowercased when `lower`, to `r`.
pub fn append_chars(r: &mut String, s: &Vec<char>, lo: usize, hi: usize, lower: bool)
    requires
        lo <= hi <= s.len(),
    ensures
        final(r)@ == old(r)@ + (if lower {
            ascii_lowercase(s@.subrange(lo as int, hi as int))
        } else {
            s@.subrange(lo as int, hi as int)
        }),
{
    let ghost head = r@;
    let mut i = lo;
    while i < hi
        invariant
            lo <= i <= hi <= s.len(),
            r@ == head + (if lower {
                ascii_lowercase(s@.subrange(lo as int, i as int))
            } else {
                s@.subrange(lo as int, i as int)
            }),
        decreases hi - i,
    {
        let c = if lower {
            to_lower(s[i])
        } else {
            s[i]
        };
        push_char(r, c);
        i = i + 1;
        assert(s@.subrange(lo as int, i as int) =~= s@.subrange(lo as int, i - 1).push(s@[i - 1]));
        assert(ascii_lowercase(s@.subrange(lo as int, i as int)) =~= ascii_lowercase(
            s@.subrange(lo as int, i - 1),
        ).push(lower_char(s@[i - 1])));
    }
}

/// A `String` made of `s[lo..hi]`, optionally lowercased and optionally
/// prefixed by one character.
pub fn string_of(s: &Vec<char>, lo: usize, hi: usize, prefix: Option<char>, lower: bool) -> (r:
    String)
    requires
        lo <= hi <= s.len(),
    ensures
        r@ == (match prefix {
            Some(c) => seq![c],
            None => Seq::<char>::empty(),
        }) + (if lower {
            ascii_lowercase(s@.subrange(lo as int, hi as int))
        } else {
            s@.subrange(lo as int, hi as int)
        }),
{
    let mut r = String::new();
    match prefix {
        Some(c) => push_char(&mut r, c),
        None => {},
    }
    append_chars(&mut r, s, lo, hi, lower);
    r
}

/// The characters `s[lo..hi]`.
pub fn chars_range(s: &Vec<char>, lo: usize, hi: usize) -> (r: Vec<char>)
    requires
        lo <= hi <= s.len(),
    ensures
        r@ == s@.subrange(lo as int, hi as int),
{
    let mut r: Vec<char> = Vec::new();
    let mut i = lo;
    while i < hi
        invariant
            lo <= i <= hi <= s.len(),
            r@ == s@.subrange(lo as int, i as int),
        decreases hi - i,
    {
        r.push(s[i]);
        i = i + 1;
        assert(r@ =~= s@.subrange(lo as int, i as int));
    }
    r
}

/// The piece boundaries of `split(s[lo..hi], sep)`: piece `k` is
/// `s[r[k].0..r[k].1]`.
pub fn split_ranges(s: &Vec<char>, lo: usize, hi: usize, sep: char) -> (r: Vec<(usize, usize)>)
    requires
        lo <= hi <= s.len(),
    ensures
        r.len() == split(s@.subrange(lo as int, hi as int), sep).len(),
        forall|k: int|
            0 <= k < r.len() ==> lo <= (#[trigger] r[k]).0 <= r[k].1 <= hi && s@.subrange(
                r[k].0 as int,
                r[k].1 as int,
            ) == split(s@.subrange(lo as int, hi as int), sep)[k],
{
    let mut r: Vec<(usize, usize)> = Vec::new();
    let mut start = lo;
    let mut i = lo;
    while i < hi
        invariant
            lo <= start <= i <= hi <= s.len(),
            r.len() + 1 == split(s@.subrange(lo as int, i as int), sep).len(),
            s@.subrange(start as int, i as int) == split(s@.subrange(lo as int, i as int), sep).last(),
            forall|k: int|
                0 <= k < r.len() ==> lo <= (#[trigger] r[k]).0 <= r[k].1 <= hi && s@.subrange(
                    r[k].0 as int,
                    r[k].1 as int,
                ) == split(s@.subrange(lo as int, i as int), sep)[k],
        decreases hi - i,
    {
        let ghost old_pieces = split(s@.subrange(lo as int, i as int), sep);
        let ghost t = s@.subrange(lo as int, i + 1);
        assert(t.drop_last() =~= s@.subrange(lo as int, i as int));
        assert(t.last() == s@[i as int]);
        if s[i] == sep {
            r.push((start, i));
            start = i + 1;
            i = i + 1;
            assert(s@.subrange(start as int, i as int) =~= Seq::<char>::empty());
        } else {
            i = i + 1;
            assert(s@.subrange(start as int, i as int) =~= s@.subrange(start as int, i - 1).push(
                s@[i - 1],
            ));
        }
    }
    r.push((start, i));
    proof {
        lemma_split_len(s@.subrange(lo as int, hi as int), sep);
    }
    r
}

} // verus!

verus! {

/// Whether two strings hold the same characters.
pub fn same_text(a: &str, b: &str) -> (r: bool)
    ensures
        r == (a@ == b@),
{
    let x = chars_of(a);
    let y = chars_of(b);
    if x.len() != y.len() {
        return false;
    }
    let mut i: usize = 0;
    while i < x.len()
        invariant
            x.len() == y.len(),
            x@ == a@,
            y@ == b@,
            i <= x.len(),
            forall|k: int| 0 <= k < i ==> x@[k] == y@[k],
        decreases x.len() - i,
    {
        if x[i] != y[i] {
            return false;
        }
        i = i + 1;
    }
    assert(x@ =~= y@);
    true
}

/// Whether `s` begins with `prefix`.
pub fn has_prefix(s: &str, prefix: &str) -> (r: bool)
    ensures
        r == (prefix@.len() <= s@.len() && s@.take(prefix@.len() as int) == prefix@),
{
    let x = chars_of(s);
    let p = chars_of(prefix);
    if p.len() > x.len() {
        return false;
    }
    let mut i: usize = 0;
    while i < p.len()
        invariant
            p.len() <= x.len(),
            x@ == s@,
            p@ == prefix@,
            i <= p.len(),
            forall|k: int| 0 <= k < i ==> x@[k] == p@[k],
        decreases p.len() - i,
    {
        if x[i] != p[i] {
            assert(s@.take(p.len() as int)[i as int] != p@[i as int]);
            return false;
        }
        i = i + 1;
    }
    assert(s@.take(p.len() as int) =~= p@);
    true
}

} // verus!

verus! {

/// The character of a decimal digit.
pub open spec fn digit_char(d: int) -> char {
    (48 + d) as char
}

/// The decimal representation of `n`, without leading zeros.
pub open spec fn decimal(n: nat) -> Seq<char>
    decreases n,
{
    if n < 10 {
        seq![digit_char(n as int)]
    } else {
        decimal(n / 10).push(digit_char((n % 10) as int))
    }
}

/// Appends the decimal representation of `n` to `s`.
pub fn push_decimal(s: &mut String, n: usize)
    ensures
        final(s)@ == old(s)@ + decimal(n as nat),
    decreases n,
{
    if n >= 10 {
        push_decimal(s, n / 10);
    }
    let d: u8 = (n % 10) as u8;
    push_char(s, (48 + d) as char);
    assert(decimal(n as nat) == if n < 10 {
        seq![digit_char(n as int)]
    } else {
        decimal((n / 10) as nat).push(digit_char((n % 10) as int))
    });
}

} // verus!

verus! {

/// Whether `s` is empty or all whitespace.
pub fn is_blank(s: &str) -> (r: bool)
    ensures
        r == (trim(s@).len() == 0),
{
    let v = chars_of(s);
    let (a, b) = trim_bounds(&v, 0, v.len());
    assert(v@.subrange(0, v@.len() as int) =~= s@);
    a == b
}

/// The text of `s` without surrounding whitespace.
pub fn trimmed(s: &str) -> (r: String)
    ensures
        r@ == trim(s@),
{
    let v = chars_of(s);
    let (a, b) = trim_bounds(&v, 0, v.len());
    assert(v@.subrange(0, v@.len() as int) =~= s@);
    string_of(&v, a, b, None, false)
}

/// A text with no whitespace at either end loses only a final newline to
/// trimming.
pub proof fn lemma_trim_line(s: Seq<char>)
    requires
        s.len() > 0,
        !is_ws(s[0]),
        !is_ws(s.last()),
    ensures
        trim(s.push('\n')) == s,
        trim(s) == s,
{
    let t = s.push('\n');
    assert(t[0] == s[0]);
    assert(trim_start(t) == t);
    assert(t.drop_last() =~= s);
    assert(trim_end(s) == s);
    assert(trim_start(s) == s);
}

/// Splitting a concatenation joined by the separator splits each part.
pub proof fn lemma_split_concat(a: Seq<char>, sep: char, b: Seq<char>)
    ensures
        split(a + seq![sep] + b, sep) == split(a, sep) + split(b, sep),
    decreases b.len(),
{
    let ab = a + seq![sep] + b;
    if b.len() == 0 {
        assert(ab =~= a.push(sep));
        assert(ab.drop_last() =~= a);
        assert(split(b, sep) =~= seq![Seq::<char>::empty()]);
        assert(split(ab, sep) =~= split(a, sep) + split(b, sep));
    } else {
        lemma_split_concat(a, sep, b.drop_last());
        lemma_split_len(b.drop_last(), sep);
        lemma_split_len(a, sep);
        assert(ab.drop_last() =~= a + seq![sep] + b.drop_last());
        assert(ab.last() == b.last());
        assert(split(ab, sep) =~= split(a, sep) + split(b, sep));
    }
}

/// A text without the separator is a single piece.
pub proof fn lemma_split_single(s: Seq<char>, sep: char)
    requires
        forall|i: int| 0 <= i < s.len() ==> s[i] != sep,
    ensures
        split(s, sep) == seq![s],
    decreases s.len(),
{
    if s.len() > 0 {
        lemma_split_single(s.drop_last(), sep);
        assert(s.drop_last().push(s.last()) =~= s);
    } else {
        assert(s =~= Seq::<char>::empty());
        assert(split(s, sep) =~= seq![s]);
    }
}

} // verus!

verus! {

/// Trimming keeps a run of the original characters whose ends are not
/// whitespace.
pub proof fn lemma_trim_shape(s: Seq<char>)
    ensures
        trim(s).len() > 0 ==> !is_ws(trim(s)[0]) && !is_ws(trim(s).last()),
        forall|i: int| 0 <= i < trim(s).len() ==> s.contains(#[trigger] trim(s)[i]),
{
    lemma_trim_start_shape(s);
    lemma_trim_end_shape(trim_start(s));
    let a = trim_start(s);
    assert forall|i: int| 0 <= i < trim(s).len() implies s.contains(#[trigger] trim(s)[i]) by {
        assert(a.contains(trim(s)[i]));
        let k = choose|k: int| 0 <= k < a.len() && a[k] == trim(s)[i];
        assert(s.contains(a[k]));
    }
}

proof fn lemma_trim_start_shape(s: Seq<char>)
    ensures
        trim_start(s).len() > 0 ==> !is_ws(trim_start(s)[0]),
        forall|i: int| 0 <= i < trim_start(s).len() ==> s.contains(#[trigger] trim_start(s)[i]),
    decreases s.len(),
{
    if s.len() > 0 && is_ws(s[0]) {
        lemma_trim_start_shape(s.drop_first());
        assert forall|i: int| 0 <= i < trim_start(s).len() implies s.contains(
            #[trigger] trim_start(s)[i],
        ) by {
            let k = choose|k: int|
                0 <= k < s.drop_first().len() && s.drop_first()[k] == trim_start(s)[i];
            assert(s[k + 1] == trim_start(s)[i]);
        }
    } else {
        assert forall|i: int| 0 <= i < trim_start(s).len() implies s.contains(
            #[trigger] trim_start(s)[i],
        ) by {
            assert(s[i] == trim_start(s)[i]);
        }
    }
}

proof fn lemma_trim_end_shape(s: Seq<char>)
    ensures
        trim_end(s).len() > 0 ==> !is_ws(trim_end(s).last()) && trim_end(s)[0] == s[0],
        forall|i: int| 0 <= i < trim_end(s).len() ==> s.contains(#[trigger] trim_end(s)[i]),
    decreases s.len(),
{
    if s.len() > 0 && is_ws(s.last()) {
        lemma_trim_end_shape(s.drop_last());
        assert forall|i: int| 0 <= i < trim_end(s).len() implies s.contains(
            #[trigger] trim_end(s)[i],
        ) by {
            let k = choose|k: int|
                0 <= k < s.drop_last().len() && s.drop_last()[k] == trim_end(s)[i];
            assert(s[k] == trim_end(s)[i]);
        }
    } else {
        assert forall|i: int| 0 <= i < trim_end(s).len() implies s.contains(
            #[trigger] trim_end(s)[i],
        ) by {
            assert(s[i] == trim_end(s)[i]);
        }
    }
}

} // verus!

verus! {

// ---------------------------------------------------------------------------
// Changing characters one by one.

/// ASCII lowercase letters become uppercase; every other character stays.
pub open spec fn upper_char(c: char) -> char {
    if 'a' <= c && c <= 'z' {
        ((c as u32) - 32) as char
    } else {
        c
    }
}

/// `str::to_ascii_uppercase` on a character sequence.
pub open spec fn ascii_uppercase(s: Seq<char>) -> Seq<char> {
    s.map_values(|c: char| upper_char(c))
}

/// Changing each character by a map that sends `sep`, and only `sep`, to
/// `sep` changes each piece of the split in the same way.
pub proof fn lemma_split_map(s: Seq<char>, sep: char, f: spec_fn(char) -> char)
    requires
        forall|c: char| (#[trigger] f(c) == sep) == (c == sep),
    ensures
        split(s.map_values(f), sep) =~~= split(s, sep).map_values(|p: Seq<char>| p.map_values(f)),
    decreases s.len(),
{
    let t = s.map_values(f);
    if s.len() == 0 {
        assert(t =~= Seq::<char>::empty());
        assert(Seq::<char>::empty().map_values(f) =~= Seq::<char>::empty());
    } else {
        let c = s.last();
        lemma_split_map(s.drop_last(), sep, f);
        lemma_split_len(s.drop_last(), sep);
        assert(t.drop_last() =~= s.drop_last().map_values(f));
        assert(t.last() == f(c));
        let p = split(s.drop_last(), sep);
        let g = |q: Seq<char>| q.map_values(f);
        if c == sep {
            assert(Seq::<char>::empty().map_values(f) =~= Seq::<char>::empty());
            assert(split(t, sep) =~~= p.push(Seq::<char>::empty()).map_values(g));
        } else {
            assert(p.last().push(c).map_values(f) =~= p.last().map_values(f).push(f(c)));
            assert(split(t, sep) =~~= p.update(p.len() - 1, p.last().push(c)).map_values(g));
        }
    }
}

proof fn lemma_trim_start_map(s: Seq<char>, f: spec_fn(char) -> char)
    requires
        forall|c: char| is_ws(#[trigger] f(c)) == is_ws(c),
    ensures
        trim_start(s.map_values(f)) == trim_start(s).map_values(f),
    decreases s.len(),
{
    let t = s.map_values(f);
    if s.len() > 0 && is_ws(s[0]) {
        assert(is_ws(f(s[0])));
        assert(t.drop_first() =~= s.drop_first().map_values(f));
        lemma_trim_start_map(s.drop_first(), f);
    } else if s.len() > 0 {
        assert(!is_ws(t[0]));
    }
}

proof fn lemma_trim_end_map(s: Seq<char>, f: spec_fn(char) -> char)
    requires
        forall|c: char| is_ws(#[trigger] f(c)) == is_ws(c),
    ensures
        trim_end(s.map_values(f)) == trim_end(s).map_values(f),
    decreases s.len(),
{
    let t = s.map_values(f);
    if s.len() > 0 && is_ws(s.last()) {
        assert(is_ws(f(s.last())));
        assert(t.drop_last() =~= s.drop_last().map_values(f));
        lemma_trim_end_map(s.drop_last(), f);
    } else if s.len() > 0 {
        assert(!is_ws(t.last()));
    }
}

/// Changing characters by a map that keeps whitespace whitespace, and
/// everything else not, commutes with trimming.
pub proof fn lemma_trim_map(s: Seq<char>, f: spec_fn(char) -> char)
    requires
        forall|c: char| is_ws(#[trigger] f(c)) == is_ws(c),
    ensures
        trim(s.map_values(f)) == trim(s).map_values(f),
{
    lemma_trim_start_map(s, f);
    lemma_trim_end_map(trim_start(s), f);
}

} // verus!
