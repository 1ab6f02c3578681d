//! Unix paths held as text: joining, `~` expansion, the component view that
//! orders paths, file names and extensions.
use vstd::prelude::*;
use crate::text::{
    append_chars, ascii_lowercase, chars_of, chars_range, split, split_ranges, string_of,
    strings_view,
};

verus! {

// ---------------------------------------------------------------------------
// Joining and `~` expansion.

/// `PathBuf::join` on Unix: an absolute `rest` replaces `base`; otherwise
/// `rest` is appended, with a `/` between them unless `base` is empty or
/// already ends with one.
pub open spec fn path_join(base: Seq<char>, rest: Seq<char>) -> Seq<char> {
    if rest.len() > 0 && rest[0] == '/' {
        rest
    } else if base.len() > 0 && base.last() != '/' {
        base + seq!['/'] + rest
    } else {
        base + rest
    }
}

/// A leading `~` (alone, or followed by `/`) stands for the home folder
/// when one is known.
pub open spec fn expand_home_spec(path: Seq<char>, home: Option<Seq<char>>) -> Seq<char> {
    if path == seq!['~'] {
        match home {
            Some(h) => h,
            None => path,
        }
    } else if path.len() >= 2 && path[0] == '~' && path[1] == '/' {
        match home {
            Some(h) => path_join(h, path.skip(2)),
            None => path,
        }
    } else {
        path
    }
}

/// `base` joined with `rest[lo..hi]`.
pub fn join_path(base: &Vec<char>, rest: &Vec<char>, lo: usize, hi: usize) -> (r: String)
    requires
        lo <= hi <= rest.len(),
    ensures
        r@ == path_join(base@, rest@.subrange(lo as int, hi as int)),
{
    if lo < hi && rest[lo] == '/' {
        return string_of(rest, lo, hi, None, false);
    }
    let n = base.len();
    let mut r = string_of(base, 0, n, None, false);
    assert(base@.subrange(0, n as int) =~= base@);
    if n > 0 && base[n - 1] != '/' {
        let sep: Vec<char> = vec!['/'];
        append_chars(&mut r, &sep, 0, 1, false);
        assert(sep@.subrange(0, 1) =~= seq!['/']);
    }
    append_chars(&mut r, rest, lo, hi, false);
    r
}

/// Expands a leading `~` of `path` with the home folder `home`.
pub fn expand_home(path: &str, home: Option<&str>) -> (r: String)
    ensures
        r@ == expand_home_spec(
            path@,
            match home {
                Some(h) => Some(h@),
                None => None,
            },
        ),
{
    let p = chars_of(path);
    let n = p.len();
    assert(p@.subrange(0, n as int) =~= path@);
    if n == 1 && p[0] == '~' {
        assert(path@ =~= seq!['~']);
        return match home {
            Some(h) => String::from_str(h),
            None => String::from_str(path),
        };
    }
    if n >= 2 && p[0] == '~' && p[1] == '/' {
        assert(path@ != seq!['~']);
        return match home {
            Some(h) => {
                let hv = chars_of(h);
                assert(p@.subrange(2, n as int) =~= path@.skip(2));
                join_path(&hv, &p, 2, n)
            },
            None => String::from_str(path),
        };
    }
    String::from_str(path)
}

// ---------------------------------------------------------------------------
// Components and the order of paths.

/// A component is a kind (0: the root `/`, 1: a leading `.`, 2: `..`,
/// 3: a name) and, for a name, its text.
pub open spec fn piece_components(piece: Seq<char>, first: bool) -> Seq<(int, Seq<char>)> {
    if piece.len() == 0 {
        Seq::empty()
    } else if piece == seq!['.'] {
        if first {
            seq![(1int, Seq::<char>::empty())]
        } else {
            Seq::empty()
        }
    } else if piece == seq!['.', '.'] {
        seq![(2int, Seq::<char>::empty())]
    } else {
        seq![(3int, piece)]
    }
}

pub open spec fn pieces_components(pieces: Seq<Seq<char>>) -> Seq<(int, Seq<char>)>
    decreases pieces.len(),
{
    if pieces.len() == 0 {
        Seq::empty()
    } else {
        pieces_components(pieces.drop_last()) + piece_components(pieces.last(), pieces.len() == 1)
    }
}

/// `Path::components` on Unix: the root when the path starts with `/`,
/// then the `/`-separated pieces without empty pieces and without `.`
/// pieces other than a leading one.
pub open spec fn components(p: Seq<char>) -> Seq<(int, Seq<char>)> {
    (if p.len() > 0 && p[0] == '/' {
        seq![(0int, Seq::<char>::empty())]
    } else {
        Seq::empty()
    }) + pieces_components(split(p, '/'))
}

/// The lexicographic order of texts (that of their UTF-8 bytes).
pub open spec fn text_lt(a: Seq<char>, b: Seq<char>) -> bool
    decreases a.len(),
{
    if a.len() == 0 {
        b.len() > 0
    } else if b.len() == 0 {
        false
    } else if a[0] != b[0] {
        a[0] < b[0]
    } else {
        text_lt(a.drop_first(), b.drop_first())
    }
}

/// The order of components: root, `.`, `..`, then names by their text.
pub open spec fn component_lt(x: (int, Seq<char>), y: (int, Seq<char>)) -> bool {
    x.0 < y.0 || (x.0 == y.0 && x.0 == 3 && text_lt(x.1, y.1))
}

/// The lexicographic order of component sequences.
pub open spec fn components_lt(a: Seq<(int, Seq<char>)>, b: Seq<(int, Seq<char>)>) -> bool
    decreases a.len(),
{
    if a.len() == 0 {
        b.len() > 0
    } else if b.len() == 0 {
        false
    } else if component_lt(a[0], b[0]) {
        true
    } else if component_lt(b[0], a[0]) {
        false
    } else {
        components_lt(a.drop_first(), b.drop_first())
    }
}

/// The order of `PathBuf`: by components.
pub open spec fn path_lt(a: Seq<char>, b: Seq<char>) -> bool {
    components_lt(components(a), components(b))
}

/// The component view of an executable component list.
pub open spec fn components_view(v: Seq<(u8, Vec<char>)>) -> Seq<(int, Seq<char>)> {
    v.map_values(|c: (u8, Vec<char>)| (c.0 as int, c.1@))
}

/// The components of the path `s`.
pub fn path_components(s: &Vec<char>) -> (r: Vec<(u8, Vec<char>)>)
    ensures
        components_view(r@) == components(s@),
{
    let n = s.len();
    let pieces = split_ranges(s, 0, n, '/');
    let ghost ps = split(s@, '/');
    assert(s@.subrange(0, n as int) =~= s@);
    let mut r: Vec<(u8, Vec<char>)> = Vec::new();
    let ghost head = if s@.len() > 0 && s@[0] == '/' {
        seq![(0int, Seq::<char>::empty())]
    } else {
        Seq::<(int, Seq<char>)>::empty()
    };
    if n > 0 && s[0] == '/' {
        r.push((0u8, Vec::new()));
    }
    assert(components_view(r@) =~= head);
    let mut k: usize = 0;
    while k < pieces.len()
        invariant
            pieces.len() == ps.len(),
            ps == split(s@, '/'),
            forall|j: int|
                0 <= j < pieces.len() ==> 0 <= (#[trigger] pieces[j]).0 <= pieces[j].1 <= n
                    && s@.subrange(pieces[j].0 as int, pieces[j].1 as int) == ps[j],
            n == s.len(),
            k <= pieces.len(),
            components_view(r@) == head + pieces_components(ps.take(k as int)),
        decreases pieces.len() - k,
    {
        let (lo, hi) = pieces[k];
        let ghost piece = ps[k as int];
        assert(ps.take(k + 1).drop_last() =~= ps.take(k as int));
        assert(ps.take(k + 1).last() == piece);
        let ghost before = r@;
        if lo == hi {
            assert(piece.len() == 0);
        } else if hi - lo == 1 && s[lo] == '.' {
            assert(piece =~= seq!['.']);
            if k == 0 {
                r.push((1u8, Vec::new()));
            }
        } else if hi - lo == 2 && s[lo] == '.' && s[lo + 1] == '.' {
            assert(piece =~= seq!['.', '.']);
            r.push((2u8, Vec::new()));
        } else {
            assert(piece != seq!['.']) by {
                if hi - lo == 1 {
                    assert(piece[0] == s@[lo as int]);
                } else {
                    assert(piece.len() != 1);
                }
            }
            assert(piece != seq!['.', '.']) by {
                if hi - lo == 2 {
                    assert(piece[0] == s@[lo as int]);
                    assert(piece[1] == s@[lo + 1]);
                } else {
                    assert(piece.len() != 2);
                }
            }
            r.push((3u8, chars_range(s, lo, hi)));
        }
        assert(components_view(r@) =~= components_view(before) + piece_components(
            piece,
            k + 1 == 1,
        ));
        k = k + 1;
    }
    assert(ps.take(k as int) =~= ps);
    r
}

proof fn lemma_text_lt_step(a: Seq<char>, b: Seq<char>, i: int)
    requires
        0 <= i < a.len(),
        i < b.len(),
        a[i] == b[i],
    ensures
        text_lt(a.skip(i), b.skip(i)) == text_lt(a.skip(i + 1), b.skip(i + 1)),
{
    assert(a.skip(i).drop_first() =~= a.skip(i + 1));
    assert(b.skip(i).drop_first() =~= b.skip(i + 1));
}

/// `text_lt(a, b)`.
pub fn text_less(a: &Vec<char>, b: &Vec<char>) -> (r: bool)
    ensures
        r == text_lt(a@, b@),
{
    let mut i: usize = 0;
    assert(a@.skip(0) =~= a@);
    assert(b@.skip(0) =~= b@);
    while i < a.len() && i < b.len() && a[i] == b[i]
        invariant
            i <= a.len(),
            i <= b.len(),
            text_lt(a@, b@) == text_lt(a@.skip(i as int), b@.skip(i as int)),
        decreases a.len() - i,
    {
        proof {
            lemma_text_lt_step(a@, b@, i as int);
        }
        i = i + 1;
    }
    if i == a.len() {
        i < b.len()
    } else if i == b.len() {
        false
    } else {
        a[i] < b[i]
    }
}

/// `component_lt(x, y)`.
fn component_less(x: &(u8, Vec<char>), y: &(u8, Vec<char>)) -> (r: bool)
    ensures
        r == component_lt((x.0 as int, x.1@), (y.0 as int, y.1@)),
{
    x.0 < y.0 || (x.0 == y.0 && x.0 == 3 && text_less(&x.1, &y.1))
}

proof fn lemma_components_lt_step(a: Seq<(int, Seq<char>)>, b: Seq<(int, Seq<char>)>, i: int)
    requires
        0 <= i < a.len(),
        i < b.len(),
        !component_lt(a[i], b[i]),
        !component_lt(b[i], a[i]),
    ensures
        components_lt(a.skip(i), b.skip(i)) == components_lt(a.skip(i + 1), b.skip(i + 1)),
{
    assert(a.skip(i).drop_first() =~= a.skip(i + 1));
    assert(b.skip(i).drop_first() =~= b.skip(i + 1));
}

/// `components_lt` on executable component lists.
pub fn components_less(a: &Vec<(u8, Vec<char>)>, b: &Vec<(u8, Vec<char>)>) -> (r: bool)
    ensures
        r == components_lt(components_view(a@), components_view(b@)),
{
    let ghost av = components_view(a@);
    let ghost bv = components_view(b@);
    assert(av.skip(0) =~= av);
    assert(bv.skip(0) =~= bv);
    let mut i: usize = 0;
    while i < a.len() && i < b.len()
        invariant
            i <= a.len(),
            i <= b.len(),
            av == components_view(a@),
            bv == components_view(b@),
            components_lt(av, bv) == components_lt(av.skip(i as int), bv.skip(i as int)),
        decreases a.len() - i,
    {
        assert(av[i as int] == (a[i as int].0 as int, a[i as int].1@));
        assert(bv[i as int] == (b[i as int].0 as int, b[i as int].1@));
        if component_less(&a[i], &b[i]) {
            return true;
        }
        if component_less(&b[i], &a[i]) {
            return false;
        }
        proof {
            lemma_components_lt_step(av, bv, i as int);
        }
        i = i + 1;
    }
    i < b.len()
}

// ---------------------------------------------------------------------------
// The order of paths is a strict weak order.

proof fn lemma_text_lt_total_order(a: Seq<char>, b: Seq<char>, c: Seq<char>)
    ensures
        !text_lt(a, a),
        text_lt(a, b) ==> !text_lt(b, a),
        text_lt(a, b) && text_lt(b, c) ==> text_lt(a, c),
        a != b ==> text_lt(a, b) || text_lt(b, a),
    decreases a.len(),
{
    if a.len() > 0 {
        lemma_text_lt_total_order(
            a.drop_first(),
            if b.len() > 0 {
                b.drop_first()
            } else {
                b
            },
            if c.len() > 0 {
                c.drop_first()
            } else {
                c
            },
        );
    }
    if a.len() > 0 && b.len() > 0 && a[0] == b[0] && a != b {
        assert(a.drop_first() != b.drop_first()) by {
            if a.drop_first() == b.drop_first() {
                assert(a =~= seq![a[0]] + a.drop_first());
                assert(b =~= seq![b[0]] + b.drop_first());
            }
        }
    }
    if a.len() == 0 && b.len() == 0 {
        assert(a =~= b);
    }
}

proof fn lemma_component_lt_weak_order(x: (int, Seq<char>), y: (int, Seq<char>), z: (int, Seq<char>))
    ensures
        !component_lt(x, x),
        component_lt(x, y) ==> !component_lt(y, x),
        component_lt(x, z) ==> component_lt(x, y) || component_lt(y, z),
        component_lt(x, y) && component_lt(y, z) ==> component_lt(x, z),
{
    lemma_text_lt_total_order(x.1, y.1, z.1);
    lemma_text_lt_total_order(x.1, z.1, y.1);
    lemma_text_lt_total_order(y.1, x.1, z.1);
    lemma_text_lt_total_order(y.1, z.1, x.1);
    lemma_text_lt_total_order(z.1, x.1, y.1);
    lemma_text_lt_total_order(z.1, y.1, x.1);
}

proof fn lemma_components_lt_weak_order(
    a: Seq<(int, Seq<char>)>,
    b: Seq<(int, Seq<char>)>,
    c: Seq<(int, Seq<char>)>,
)
    ensures
        !components_lt(a, a),
        components_lt(a, b) ==> !components_lt(b, a),
        components_lt(a, c) ==> components_lt(a, b) || components_lt(b, c),
    decreases a.len(),
{
    if a.len() > 0 {
        lemma_component_lt_weak_order(a[0], a[0], a[0]);
        if b.len() > 0 {
            lemma_component_lt_weak_order(a[0], b[0], a[0]);
            lemma_component_lt_weak_order(b[0], a[0], b[0]);
            if c.len() > 0 {
                lemma_component_lt_weak_order(a[0], b[0], c[0]);
                lemma_component_lt_weak_order(b[0], a[0], c[0]);
                lemma_component_lt_weak_order(a[0], c[0], b[0]);
                lemma_component_lt_weak_order(c[0], a[0], b[0]);
                lemma_component_lt_weak_order(b[0], c[0], a[0]);
                lemma_component_lt_weak_order(c[0], b[0], a[0]);
            }
        }
        lemma_components_lt_weak_order(
            a.drop_first(),
            if b.len() > 0 {
                b.drop_first()
            } else {
                b
            },
            if c.len() > 0 {
                c.drop_first()
            } else {
                c
            },
        );
    }
}

/// The order of paths is irreflexive, asymmetric and negatively transitive
/// (a strict weak order), so that sorting by it is well defined.
pub proof fn lemma_path_order(a: Seq<char>, b: Seq<char>, c: Seq<char>)
    ensures
        !path_lt(a, a),
        path_lt(a, b) ==> !path_lt(b, a),
        path_lt(a, c) ==> path_lt(a, b) || path_lt(b, c),
{
    lemma_components_lt_weak_order(components(a), components(b), components(c));
}

// ---------------------------------------------------------------------------
// File names and extensions.

/// `Path::file_name`: the last component when it is a name.
pub open spec fn file_name(p: Seq<char>) -> Option<Seq<char>> {
    let c = components(p);
    if c.len() > 0 && c.last().0 == 3 {
        Some(c.last().1)
    } else {
        None
    }
}

/// The position of the last `c` in `s`, or -1.
pub open spec fn last_index_of(s: Seq<char>, c: char) -> int
    decreases s.len(),
{
    if s.len() == 0 {
        -1
    } else if s.last() == c {
        s.len() - 1
    } else {
        last_index_of(s.drop_last(), c)
    }
}

/// The extension of a file name: what follows its last `.`, unless that
/// `.` is the first character or there is none.
pub open spec fn name_extension(name: Seq<char>) -> Option<Seq<char>> {
    let i = last_index_of(name, '.');
    if i <= 0 {
        None
    } else {
        Some(name.skip(i + 1))
    }
}

/// `Path::extension`.
pub open spec fn extension(p: Seq<char>) -> Option<Seq<char>> {
    match file_name(p) {
        Some(f) => name_extension(f),
        None => None,
    }
}

/// A path matches a list of extensions (each written with its leading `.`)
/// when the list is empty, or when its extension, lowercased and behind a
/// `.`, is in the list.
pub open spec fn matches_extension_spec(p: Seq<char>, extensions: Seq<Seq<char>>) -> bool {
    extensions.len() == 0 || (extension(p) matches Some(e) && extensions.contains(
        seq!['.'] + ascii_lowercase(e),
    ))
}

proof fn lemma_last_index_of(s: Seq<char>, c: char, i: int)
    requires
        -1 <= i < s.len(),
        i >= 0 ==> s[i] == c,
        forall|k: int| i < k < s.len() ==> #[trigger] s[k] != c,
    ensures
        last_index_of(s, c) == i,
    decreases s.len(),
{
    if s.len() > 0 && s.len() - 1 != i {
        assert(s.last() != c);
        lemma_last_index_of(s.drop_last(), c, i);
    }
}

/// The extension of `dir/name.ext`, for a non-empty `name` without `/` and
/// a non-empty `ext` without `/` or `.`, is `ext`.
pub proof fn lemma_extension_of_file(dir: Seq<char>, name: Seq<char>, ext: Seq<char>)
    requires
        name.len() > 0,
        ext.len() > 0,
        forall|i: int| 0 <= i < name.len() ==> name[i] != '/',
        forall|i: int| 0 <= i < ext.len() ==> ext[i] != '/' && ext[i] != '.',
    ensures
        extension(dir + seq!['/'] + name + seq!['.'] + ext) == Some(ext),
{
    let rest = name + seq!['.'] + ext;
    let p = dir + seq!['/'] + name + seq!['.'] + ext;
    assert(p =~= dir + seq!['/'] + rest);
    assert forall|i: int| 0 <= i < rest.len() implies rest[i] != '/' by {
        if i < name.len() {
            assert(rest[i] == name[i]);
        } else if i > name.len() {
            assert(rest[i] == ext[i - name.len() - 1]);
        }
    }
    crate::text::lemma_split_concat(dir, '/', rest);
    crate::text::lemma_split_single(rest, '/');
    let ps = split(p, '/');
    assert(ps == split(dir, '/') + seq![rest]);
    assert(ps.drop_last() =~= split(dir, '/'));
    assert(ps.last() == rest);
    assert(rest.len() >= 3);
    assert(rest != seq!['.']);
    assert(rest != seq!['.', '.']);
    assert(piece_components(rest, ps.len() == 1) == seq![(3int, rest)]);
    assert(components(p).last() == (3int, rest));
    assert(file_name(p) == Some(rest));
    assert forall|k: int| name.len() < k < rest.len() implies #[trigger] rest[k] != '.' by {
        assert(rest[k] == ext[k - name.len() - 1]);
    }
    lemma_last_index_of(rest, '.', name.len() as int);
    assert(rest.skip(name.len() + 1int) =~= ext);
}

/// Whether the file at `path` has one of `extensions`.
pub fn matches_extension(path: &str, extensions: &Vec<String>) -> (r: bool)
    ensures
        r == matches_extension_spec(path@, strings_view(extensions@)),
{
    if extensions.len() == 0 {
        return true;
    }
    let p = chars_of(path);
    let comps = path_components(&p);
    let ghost cv = components_view(comps@);
    let m = comps.len();
    if m == 0 || comps[m - 1].0 != 3 {
        assert(m > 0 ==> cv.last() == (comps[m - 1].0 as int, comps[m - 1].1@));
        return false;
    }
    assert(cv.last() == (comps[m - 1].0 as int, comps[m - 1].1@));
    let name = &comps[m - 1].1;
    let ghost f = name@;
    assert(file_name(path@) == Some(f));
    let mut i = name.len();
    while i > 0 && name[i - 1] != '.'
        invariant
            i <= name.len(),
            forall|k: int| i <= k < name.len() ==> #[trigger] name@[k] != '.',
        decreases i,
    {
        i = i - 1;
    }
    proof {
        lemma_last_index_of(f, '.', i - 1);
    }
    if i <= 1 {
        return false;
    }
    let suffix = string_of(name, i, name.len(), Some('.'), true);
    assert(f.skip(i as int) =~= f.subrange(i as int, f.len() as int));
    let ghost want = seq!['.'] + ascii_lowercase(f.skip(i as int));
    assert(suffix@ =~= want);
    assert(extension(path@) == Some(f.skip(i as int)));
    let ghost ev = strings_view(extensions@);
    let mut k: usize = 0;
    while k < extensions.len()
        invariant
            k <= extensions.len(),
            ev == strings_view(extensions@),
            suffix@ == want,
            want == seq!['.'] + ascii_lowercase(f.skip(i as int)),
            extension(path@) == Some(f.skip(i as int)),
            forall|j: int| 0 <= j < k ==> ev[j] != want,
        decreases extensions.len() - k,
    {
        if extensions[k] == suffix {
            assert(ev[k as int] == want);
            assert(ev.contains(want));
            return true;
        }
        k = k + 1;
    }
    assert(!ev.contains(want));
    false
}

} // verus!
