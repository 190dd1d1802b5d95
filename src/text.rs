//! Character-level helpers on names: trimming, splitting and file stems.
use vstd::prelude::*;

verus! {

/// The characters of `s`, in order.
pub fn chars_of(s: &str) -> (r: Vec<char>)
    ensures
        r@ == s@,
{
    broadcast use vstd::string::group_string_axioms;

    let mut r: Vec<char> = Vec::new();
    for c in it: s.chars()
        invariant
            it.seq() == s@,
            r@ == it.seq().take(it.index() as int),
    {
        r.push(c);
        assert(r@ =~= it.seq().take(it.index() as int + 1));
    }
    assert(s@.take(s@.len() as int) =~= s@);
    r
}

/// The characters stripped from both ends of a file stem before matching.
pub open spec fn is_boundary_char(c: char) -> bool {
    c == '_' || c == '.' || c == '-' || c == ' '
}

/// The characters that carry the Unicode `White_Space` property.
pub open spec fn is_white_space(c: char) -> bool {
    ('\u{9}' <= c && c <= '\u{d}') || c == ' ' || c == '\u{85}' || c == '\u{a0}'
        || c == '\u{1680}' || ('\u{2000}' <= c && c <= '\u{200a}') || c == '\u{2028}'
        || c == '\u{2029}' || c == '\u{202f}' || c == '\u{205f}' || c == '\u{3000}'
}

/// A set of characters that can be trimmed from the ends of a name.
#[derive(Clone, Copy, PartialEq, Eq, Structural, Debug)]
pub enum TrimSet {
    /// `_`, `.`, `-` and space.
    Boundary,
    /// Unicode white space, as `str::trim` removes it.
    WhiteSpace,
}

impl TrimSet {
    pub open spec fn has(self, c: char) -> bool {
        match self {
            TrimSet::Boundary => is_boundary_char(c),
            TrimSet::WhiteSpace => is_white_space(c),
        }
    }

    /// Whether `c` belongs to this set.
    pub fn contains(self, c: char) -> (r: bool)
        ensures
            r == self.has(c),
    {
        match self {
            TrimSet::Boundary => c == '_' || c == '.' || c == '-' || c == ' ',
            TrimSet::WhiteSpace => {
                ('\u{9}' <= c && c <= '\u{d}') || c == ' ' || c == '\u{85}' || c == '\u{a0}'
                    || c == '\u{1680}' || ('\u{2000}' <= c && c <= '\u{200a}') || c
                    == '\u{2028}' || c == '\u{2029}' || c == '\u{202f}' || c == '\u{205f}' || c
                    == '\u{3000}'
            },
        }
    }
}

/// `s` without the leading characters of `set`.
pub open spec fn trim_start(s: Seq<char>, set: TrimSet) -> Seq<char>
    decreases s.len(),
{
    if s.len() > 0 && set.has(s[0]) {
        trim_start(s.drop_first(), set)
    } else {
        s
    }
}

/// `s` without the trailing characters of `set`.
pub open spec fn trim_end(s: Seq<char>, set: TrimSet) -> Seq<char>
    decreases s.len(),
{
    if s.len() > 0 && set.has(s.last()) {
        trim_end(s.drop_last(), set)
    } else {
        s
    }
}

/// `s` without the characters of `set` at either end.
pub open spec fn trimmed(s: Seq<char>, set: TrimSet) -> Seq<char> {
    trim_end(trim_start(s, set), set)
}

/// The characters of `v` without those of `set` at either end.
pub fn trim_chars(v: &Vec<char>, set: TrimSet) -> (r: Vec<char>)
    ensures
        r@ == trimmed(v@, set),
{
    let n = v.len();
    let mut i: usize = 0;
    assert(v@.subrange(0, n as int) =~= v@);
    while i < n && set.contains(v[i])
        invariant
            n == v@.len(),
            i <= n,
            trim_start(v@, set) == trim_start(v@.subrange(i as int, n as int), set),
        decreases n - i,
    {
        assert(v@.subrange(i as int, n as int).drop_first() =~= v@.subrange(
            i as int + 1,
            n as int,
        ));
        i = i + 1;
    }
    let mut j: usize = n;
    assert(trim_start(v@.subrange(i as int, n as int), set) == v@.subrange(i as int, n as int));
    while j > i && set.contains(v[j - 1])
        invariant
            n == v@.len(),
            i <= j <= n,
            trim_start(v@, set) == v@.subrange(i as int, n as int),
            trimmed(v@, set) == trim_end(v@.subrange(i as int, j as int), set),
        decreases j,
    {
        assert(v@.subrange(i as int, j as int).drop_last() =~= v@.subrange(
            i as int,
            j as int - 1,
        ));
        j = j - 1;
    }
    let mut r: Vec<char> = Vec::new();
    let mut k: usize = i;
    while k < j
        invariant
            n == v@.len(),
            i <= k <= j <= n,
            r@ == v@.subrange(i as int, k as int),
        decreases j - k,
    {
        r.push(v[k]);
        assert(r@ =~= v@.subrange(i as int, k as int + 1));
        k = k + 1;
    }
    r
}

/// `s` with every `.` replaced by a space.
pub open spec fn dots_to_spaces(s: Seq<char>) -> Seq<char> {
    s.map_values(|c: char| if c == '.' { ' ' } else { c })
}

/// The characters of `v` with every `.` replaced by a space.
pub fn replace_dots(v: &Vec<char>) -> (r: Vec<char>)
    ensures
        r@ == dots_to_spaces(v@),
{
    let mut r: Vec<char> = Vec::new();
    let mut k: usize = 0;
    while k < v.len()
        invariant
            k <= v@.len(),
            r@ == dots_to_spaces(v@.subrange(0, k as int)),
        decreases v@.len() - k,
    {
        let c = if v[k] == '.' {
            ' '
        } else {
            v[k]
        };
        r.push(c);
        assert(dots_to_spaces(v@.subrange(0, k as int + 1)) =~= dots_to_spaces(
            v@.subrange(0, k as int),
        ).push(c));
        k = k + 1;
    }
    assert(v@.subrange(0, v@.len() as int) =~= v@);
    r
}

/// The index of the last `.` in `s`, or -1 where there is none.
pub open spec fn last_dot(s: Seq<char>) -> int
    decreases s.len(),
{
    if s.len() == 0 {
        -1
    } else if s.last() == '.' {
        s.len() - 1
    } else {
        last_dot(s.drop_last())
    }
}

/// Whether a file name splits into a stem and an extension at its last dot:
/// it does unless the name is `..`, has no dot, or has its only dot first.
pub open spec fn has_extension(s: Seq<char>) -> bool {
    s != seq!['.', '.'] && last_dot(s) > 0
}

/// The stem of a file name, as `Path::file_stem` gives it.
pub open spec fn stem_of(s: Seq<char>) -> Seq<char> {
    if has_extension(s) {
        s.take(last_dot(s))
    } else {
        s
    }
}

/// The extension of a file name, as `Path::extension` gives it.
pub open spec fn extension_of(s: Seq<char>) -> Option<Seq<char>> {
    if has_extension(s) {
        Some(s.skip(last_dot(s) + 1))
    } else {
        None
    }
}

proof fn lemma_last_dot_bounds(s: Seq<char>)
    ensures
        -1 <= last_dot(s) < s.len(),
        last_dot(s) >= 0 ==> s[last_dot(s)] == '.',
    decreases s.len(),
{
    if s.len() > 0 && s.last() != '.' {
        lemma_last_dot_bounds(s.drop_last());
    }
}

/// Splits a file name into its stem and, where it has one, its extension.
pub fn split_file_name(name: &Vec<char>) -> (r: (Vec<char>, Option<Vec<char>>))
    ensures
        r.0@ == stem_of(name@),
        r.1 is Some <==> extension_of(name@) is Some,
        r.1 matches Some(e) ==> extension_of(name@) == Some(e@),
{
    let n = name.len();
    let mut d: usize = n;
    assert(name@.take(n as int) =~= name@);
    while d > 0 && name[d - 1] != '.'
        invariant
            d <= n == name@.len(),
            last_dot(name@) == last_dot(name@.take(d as int)),
        decreases d,
    {
        assert(name@.take(d as int).drop_last() =~= name@.take(d as int - 1));
        d = d - 1;
    }
    proof {
        lemma_last_dot_bounds(name@);
        if d > 0 {
            assert(name@.take(d as int).last() == '.');
        }
    }
    let is_dots = n == 2 && name[0] == '.' && name[1] == '.';
    assert(is_dots <==> name@ =~= seq!['.', '.']);
    if d <= 1 || is_dots {
        (name.clone(), None)
    } else {
        let mut stem: Vec<char> = Vec::new();
        let mut ext: Vec<char> = Vec::new();
        let mut k: usize = 0;
        while k < n
            invariant
                n == name@.len(),
                1 < d <= n,
                k <= n,
                stem@ == name@.take(if k < d - 1 { k as int } else { d - 1 }),
                ext@ == (if k < d { Seq::<char>::empty() } else { name@.subrange(d as int, k as int) }),
            decreases n - k,
        {
            if k + 1 < d {
                stem.push(name[k]);
                assert(stem@ =~= name@.take(k + 1));
            } else if k >= d {
                ext.push(name[k]);
                assert(ext@ =~= name@.subrange(d as int, k + 1));
            } else {
                assert(ext@ =~= name@.subrange(d as int, k + 1));
            }
            k = k + 1;
        }
        assert(ext@ =~= name@.skip(d as int));
        (stem, Some(ext))
    }
}

/// A file name from a stem and an optional extension.
pub open spec fn join_name(stem: Seq<char>, ext: Option<Seq<char>>) -> Seq<char> {
    match ext {
        Some(e) => stem + seq!['.'] + e,
        None => stem,
    }
}

/// A file name is its stem joined to its extension.
pub proof fn lemma_split_joins(s: Seq<char>)
    ensures
        join_name(stem_of(s), extension_of(s)) == s,
{
    if has_extension(s) {
        lemma_last_dot_bounds(s);
        let d = last_dot(s);
        assert(s.take(d) + seq!['.'] + s.skip(d + 1) =~= s);
    }
}

} // verus!
