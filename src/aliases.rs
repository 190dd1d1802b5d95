//! The alias table: which alias sends a file to which subdirectory.
use vstd::prelude::*;

use crate::bindings::{lower_of, string_of, to_lower};
use crate::text::{chars_of, trim_chars, trimmed, TrimSet};
use crate::SortError;

verus! {

/// The segments of `s` between commas, as `str::split(',')` gives them.
pub open spec fn split_commas(s: Seq<char>) -> Seq<Seq<char>>
    decreases s.len(),
{
    if s.len() == 0 {
        seq![Seq::<char>::empty()]
    } else {
        let rest = split_commas(s.drop_last());
        if s.last() == ',' {
            rest.push(Seq::<char>::empty())
        } else {
            rest.update(rest.len() - 1, rest.last().push(s.last()))
        }
    }
}

proof fn lemma_split_commas_len(s: Seq<char>)
    ensures
        split_commas(s).len() >= 1,
    decreases s.len(),
{
    if s.len() > 0 {
        lemma_split_commas_len(s.drop_last());
    }
}

/// The aliases that a subdirectory named `name` gives: its lower-cased name,
/// or, where that holds a comma, each comma-separated segment trimmed of
/// white space.
pub open spec fn aliases_of_name(name: Seq<char>) -> Seq<Seq<char>> {
    lowered_aliases(lower_of(name))
}

/// The aliases that an already lower-cased name `l` gives: each
/// comma-separated segment trimmed of white space where `l` holds a comma,
/// else `l` itself.
pub open spec fn lowered_aliases(l: Seq<char>) -> Seq<Seq<char>> {
    if l.contains(',') {
        split_commas(l).map_values(|seg: Seq<char>| trimmed(seg, TrimSet::WhiteSpace))
    } else {
        seq![l]
    }
}

pub open spec fn views(v: Seq<String>) -> Seq<Seq<char>> {
    v.map_values(|s: String| s@)
}

/// The aliases of the subdirectory named `name`, in order.
pub fn dir_aliases(name: &String) -> (r: Vec<String>)
    ensures
        views(r@) == aliases_of_name(name@),
{
    let lower = to_lower(name.as_str());
    aliases_of_lowered(lower.as_str())
}

/// The aliases that the lower-cased subdirectory name `lowered` gives, in order.
pub fn aliases_of_lowered(lowered: &str) -> (r: Vec<String>)
    ensures
        views(r@) == lowered_aliases(lowered@),
{
    let l = chars_of(lowered);
    let ghost lv = l@;
    let mut out: Vec<String> = Vec::new();
    let mut cur: Vec<char> = Vec::new();
    let mut found = false;
    let mut k: usize = 0;
    while k < l.len()
        invariant
            lv == l@,
            k <= lv.len(),
            split_commas(lv.take(k as int)).len() >= 1,
            views(out@) == split_commas(lv.take(k as int)).drop_last().map_values(
                |seg: Seq<char>| trimmed(seg, TrimSet::WhiteSpace),
            ),
            cur@ == split_commas(lv.take(k as int)).last(),
            found <==> lv.take(k as int).contains(','),
        decreases lv.len() - k,
    {
        let ghost prev = lv.take(k as int);
        let ghost next = lv.take(k as int + 1);
        assert(next.drop_last() =~= prev);
        assert(next.last() == l[k as int]);
        proof {
            lemma_split_commas_len(prev);
        }
        if l[k] == ',' {
            let t = trim_chars(&cur, TrimSet::WhiteSpace);
            let ghost old_out = out@;
            out.push(string_of(&t));
            cur = Vec::new();
            found = true;
            assert(split_commas(next) == split_commas(prev).push(Seq::<char>::empty()));
            assert(split_commas(next).drop_last() =~= split_commas(prev));
            assert(views(out@) =~= views(old_out).push(t@));
            assert(split_commas(prev) =~= split_commas(prev).drop_last().push(
                split_commas(prev).last(),
            ));
            assert(views(out@) =~= split_commas(next).drop_last().map_values(
                |seg: Seq<char>| trimmed(seg, TrimSet::WhiteSpace),
            ));
            assert(next.contains(',')) by {
                assert(next[k as int] == ',');
            }
        } else {
            cur.push(l[k]);
            assert(views(out@) =~= split_commas(next).drop_last().map_values(
                |seg: Seq<char>| trimmed(seg, TrimSet::WhiteSpace),
            ));
            assert(found <==> next.contains(',')) by {
                if next.contains(',') {
                    let w = choose|w: int| 0 <= w < next.len() && next[w] == ',';
                    assert(prev[w] == ',');
                }
                if prev.contains(',') {
                    let w = choose|w: int| 0 <= w < prev.len() && prev[w] == ',';
                    assert(next[w] == ',');
                }
            }
        }
        k = k + 1;
    }
    assert(lv.take(lv.len() as int) =~= lv);
    if found {
        let t = trim_chars(&cur, TrimSet::WhiteSpace);
        let ghost old_out = out@;
        out.push(string_of(&t));
        assert(views(out@) =~= views(old_out).push(t@));
        assert(split_commas(lv) =~= split_commas(lv).drop_last().push(split_commas(lv).last()));
        assert(views(out@) =~= split_commas(lv).map_values(
            |seg: Seq<char>| trimmed(seg, TrimSet::WhiteSpace),
        ));
        out
    } else {
        let mut single: Vec<String> = Vec::new();
        single.push(string_of(&l));
        assert(views(single@) =~= seq![lowered@]);
        single
    }
}

/// One alias and the name of the subdirectory it leads to.
pub struct AliasEntry {
    pub alias: String,
    pub dir: String,
}

/// The (alias, subdirectory name) pairs that the subdirectory `name` gives.
pub open spec fn name_pairs(name: Seq<char>) -> Seq<(Seq<char>, Seq<char>)> {
    aliases_of_name(name).map_values(|a: Seq<char>| (a, name))
}

/// The (alias, subdirectory name) pairs of all `names`, in order.
pub open spec fn table_pairs(names: Seq<Seq<char>>) -> Seq<(Seq<char>, Seq<char>)>
    decreases names.len(),
{
    if names.len() == 0 {
        Seq::empty()
    } else {
        table_pairs(names.drop_last()) + name_pairs(names.last())
    }
}

/// No alias occurs twice among `pairs`.
pub open spec fn keys_unique(pairs: Seq<(Seq<char>, Seq<char>)>) -> bool {
    forall|i: int, j: int| 0 <= i < j < pairs.len() ==> pairs[i].0 != pairs[j].0
}

pub open spec fn entry_views(v: Seq<AliasEntry>) -> Seq<(Seq<char>, Seq<char>)> {
    v.map_values(|e: AliasEntry| (e.alias@, e.dir@))
}

/// The mapping from alias to subdirectory name, every alias unique.
pub struct AliasTable {
    entries: Vec<AliasEntry>,
}

impl View for AliasTable {
    type V = Seq<(Seq<char>, Seq<char>)>;

    closed spec fn view(&self) -> Seq<(Seq<char>, Seq<char>)> {
        entry_views(self.entries@)
    }
}

/// The aliases of `pairs`, in order.
pub open spec fn keys_of(pairs: Seq<(Seq<char>, Seq<char>)>) -> Seq<Seq<char>> {
    pairs.map_values(|p: (Seq<char>, Seq<char>)| p.0)
}

impl AliasTable {
    /// Every alias of the table is unique.
    pub closed spec fn wf(&self) -> bool {
        keys_unique(self@)
    }

    /// The number of aliases.
    pub fn len(&self) -> (r: usize)
        ensures
            r == self@.len(),
    {
        self.entries.len()
    }

    /// Whether the table has no alias.
    pub fn is_empty(&self) -> (r: bool)
        ensures
            r == (self@.len() == 0),
    {
        self.entries.len() == 0
    }

    /// The alias at position `i`.
    pub fn alias_at(&self, i: usize) -> (r: &String)
        requires
            i < self@.len(),
        ensures
            r@ == self@[i as int].0,
    {
        &self.entries[i].alias
    }

    /// The subdirectory name at position `i`.
    pub fn dir_at(&self, i: usize) -> (r: &String)
        requires
            i < self@.len(),
        ensures
            r@ == self@[i as int].1,
    {
        &self.entries[i].dir
    }

    /// The subdirectory that `alias` leads to, if the table holds it.
    pub fn lookup(&self, alias: &String) -> (r: Option<&String>)
        requires
            self.wf(),
        ensures
            r is None <==> !keys_of(self@).contains(alias@),
            r matches Some(d) ==> exists|i: int|
                0 <= i < self@.len() && self@[i].0 == alias@ && self@[i].1 == d@,
    {
        let mut i: usize = 0;
        while i < self.entries.len()
            invariant
                i <= self@.len() == self.entries@.len(),
                forall|j: int| 0 <= j < i ==> self@[j].0 != alias@,
            decreases self.entries@.len() - i,
        {
            if self.entries[i].alias == *alias {
                proof {
                    assert(self@[i as int] == (self.entries@[i as int].alias@, self.entries@[i as int].dir@));
                    assert(keys_of(self@)[i as int] == alias@);
                }
                return Some(&self.entries[i].dir);
            }
            i = i + 1;
        }
        proof {
            if keys_of(self@).contains(alias@) {
                let j = choose|j: int| 0 <= j < keys_of(self@).len() && keys_of(self@)[j] == alias@;
                assert(self@[j].0 == alias@);
            }
        }
        None
    }
}

proof fn lemma_table_pairs_prefix(names: Seq<Seq<char>>, i: int)
    requires
        0 <= i <= names.len(),
    ensures
        table_pairs(names.take(i)).len() <= table_pairs(names).len(),
        table_pairs(names.take(i)) =~= table_pairs(names).take(
            table_pairs(names.take(i)).len() as int,
        ),
    decreases names.len() - i,
{
    if i == names.len() {
        assert(names.take(i) =~= names);
    } else {
        lemma_table_pairs_prefix(names, i + 1);
        assert(names.take(i + 1).drop_last() =~= names.take(i));
    }
}

/// Builds the alias table from the names of the target's subdirectories.
///
/// Fails with `DuplicateAlias` exactly when two of the aliases these names
/// give are equal; otherwise the table holds every alias with its
/// subdirectory, in order.
pub fn generate_aliases(names: &Vec<String>) -> (r: Result<AliasTable, SortError>)
    ensures
        match r {
            Ok(t) => t.wf() && t@ == table_pairs(views(names@)) && keys_unique(
                table_pairs(views(names@)),
            ),
            Err(e) => e == SortError::DuplicateAlias && !keys_unique(table_pairs(views(names@))),
        },
{
    let ghost nv = views(names@);
    let mut entries: Vec<AliasEntry> = Vec::new();
    let mut i: usize = 0;
    while i < names.len()
        invariant
            nv == views(names@),
            i <= names@.len(),
            entry_views(entries@) == table_pairs(nv.take(i as int)),
        decreases names@.len() - i,
    {
        let als = dir_aliases(&names[i]);
        let ghost base = entries@;
        assert(nv[i as int] == names@[i as int]@);
        let mut j: usize = 0;
        while j < als.len()
            invariant
                nv == views(names@),
                i < names@.len(),
                nv[i as int] == names@[i as int]@,
                j <= als@.len(),
                views(als@) == aliases_of_name(nv[i as int]),
                entry_views(base) == table_pairs(nv.take(i as int)),
                entry_views(entries@) == entry_views(base) + name_pairs(nv[i as int]).take(j as int),
            decreases als@.len() - j,
        {
            let ghost before = entries@;
            entries.push(AliasEntry { alias: als[j].clone(), dir: names[i].clone() });
            assert(entry_views(entries@) =~= entry_views(before).push(
                (als@[j as int]@, names@[i as int]@),
            ));
            assert(views(als@)[j as int] == als@[j as int]@);
            assert(entry_views(entries@) =~= entry_views(base) + name_pairs(nv[i as int]).take(
                j as int + 1,
            ));
            j = j + 1;
        }
        assert(nv.take(i as int + 1).drop_last() =~= nv.take(i as int));
        assert(name_pairs(nv[i as int]).take(j as int) =~= name_pairs(nv[i as int]));
        i = i + 1;
    }
    assert(nv.take(nv.len() as int) =~= nv);
    let ghost all = entry_views(entries@);
    let mut a: usize = 0;
    while a < entries.len()
        invariant
            all == entry_views(entries@),
            all == table_pairs(nv),
            nv == views(names@),
            a <= entries@.len(),
            forall|x: int, y: int| 0 <= x < a && x < y < all.len() ==> all[x].0 != all[y].0,
        decreases entries@.len() - a,
    {
        let mut b: usize = a + 1;
        while b < entries.len()
            invariant
                all == entry_views(entries@),
                all == table_pairs(nv),
                nv == views(names@),
                a < entries@.len(),
                a + 1 <= b <= entries@.len(),
                forall|x: int, y: int| 0 <= x < a && x < y < all.len() ==> all[x].0 != all[y].0,
                forall|y: int| a < y < b ==> all[a as int].0 != all[y].0,
            decreases entries@.len() - b,
        {
            if entries[a].alias == entries[b].alias {
                assert(all[a as int] == (entries@[a as int].alias@, entries@[a as int].dir@));
                assert(all[b as int] == (entries@[b as int].alias@, entries@[b as int].dir@));
                assert(all[a as int].0 == all[b as int].0);
                assert(!keys_unique(table_pairs(views(names@))));
                return Err(SortError::DuplicateAlias);
            }
            b = b + 1;
        }
        a = a + 1;
    }
    Ok(AliasTable { entries })
}

/// The aliases of `table`, longest first.
///
/// The result holds each alias of the table exactly once, ordered by
/// non-increasing length in characters; aliases of equal length keep the
/// table's order.
pub fn sort_keys(table: &AliasTable) -> (r: Vec<String>)
    requires
        table.wf(),
    ensures
        r@.len() == table@.len(),
        views(r@).no_duplicates(),
        forall|x: Seq<char>| views(r@).contains(x) <==> keys_of(table@).contains(x),
        forall|i: int, j: int| 0 <= i < j < r@.len() ==> r@[i]@.len() >= r@[j]@.len(),
{
    let ghost keys = keys_of(table@);
    let mut r: Vec<String> = Vec::new();
    let mut lens: Vec<usize> = Vec::new();
    let mut i: usize = 0;
    while i < table.entries.len()
        invariant
            keys == keys_of(table@),
            keys_unique(table@),
            i <= table@.len(),
            table@.len() == table.entries@.len(),
            r@.len() == lens@.len() == i,
            forall|t: int| 0 <= t < i ==> lens@[t] == r@[t]@.len(),
            forall|a: int, b: int| 0 <= a < b < i ==> lens@[a] >= lens@[b],
            views(r@).no_duplicates(),
            forall|x: Seq<char>| views(r@).contains(x) <==> keys.take(i as int).contains(x),
        decreases table.entries@.len() - i,
    {
        let k = table.entries[i].alias.clone();
        let kl = chars_of(k.as_str()).len();
        assert(table@[i as int] == (table.entries@[i as int].alias@, table.entries@[i as int].dir@));
        assert(k@ == keys[i as int]);
        let mut p: usize = 0;
        while p < lens.len() && lens[p] >= kl
            invariant
                p <= lens@.len(),
                forall|t: int| 0 <= t < p ==> lens@[t] >= kl,
            decreases lens@.len() - p,
        {
            p = p + 1;
        }
        let ghost old_r = views(r@);
        let ghost old_lens = lens@;
        proof {
            if old_r.contains(k@) {
                assert(keys.take(i as int).contains(k@));
                let w = choose|w: int| 0 <= w < i && keys.take(i as int)[w] == k@;
                assert(keys[w] == keys[i as int]);
                assert(table@[w].0 == table@[i as int].0);
            }
        }
        let ghost ni: int = i + 1;
        r.insert(p, k);
        lens.insert(p, kl);
        assert(views(r@) =~= old_r.insert(p as int, keys[i as int]));
        assert forall|a: int, b: int| 0 <= a < b < i + 1 implies lens@[a] >= lens@[b] by {
            if a < p && b == p {
            } else if a == p && b > p {
                assert(old_lens[b - 1] < kl || p == old_lens.len());
                if p < old_lens.len() {
                    assert(old_lens[p as int] < kl);
                    assert(old_lens[p as int] >= old_lens[b - 1]);
                }
            }
        }
        assert forall|x: Seq<char>| views(r@).contains(x) <==> keys.take(ni).contains(x) by {
            if views(r@).contains(x) {
                let w = choose|w: int| 0 <= w < views(r@).len() && views(r@)[w] == x;
                if w < p {
                    assert(old_r[w] == x);
                } else if w > p {
                    assert(old_r[w - 1] == x);
                }
                if x != keys[i as int] {
                    assert(old_r.contains(x));
                    let v = choose|v: int| 0 <= v < i && keys.take(i as int)[v] == x;
                    assert(keys.take(ni)[v] == x);
                } else {
                    assert(keys.take(ni)[i as int] == x);
                }
            }
            if keys.take(ni).contains(x) {
                let v = choose|v: int| 0 <= v < i + 1 && keys.take(ni)[v] == x;
                if v < i {
                    assert(keys.take(i as int)[v] == x);
                    assert(old_r.contains(x));
                    let w = choose|w: int| 0 <= w < old_r.len() && old_r[w] == x;
                    if w < p {
                        assert(views(r@)[w] == x);
                    } else {
                        assert(views(r@)[w + 1] == x);
                    }
                } else {
                    assert(views(r@)[p as int] == x);
                }
            }
        }
        assert(views(r@).no_duplicates()) by {
            assert forall|a: int, b: int| 0 <= a < views(r@).len() && 0 <= b < views(r@).len()
                && a != b implies views(r@)[a] != views(r@)[b] by {
                if a == p || b == p {
                    let o = if a == p { b } else { a };
                    let w = if o < p { o } else { o - 1 };
                    assert(views(r@)[o] == old_r[w]);
                    assert(old_r.contains(old_r[w]));
                } else {
                    let wa = if a < p { a } else { a - 1 };
                    let wb = if b < p { b } else { b - 1 };
                    assert(views(r@)[a] == old_r[wa]);
                    assert(views(r@)[b] == old_r[wb]);
                }
            }
        }
        i = i + 1;
    }
    assert(keys.take(keys.len() as int) =~= keys);
    assert forall|a: int, b: int| 0 <= a < b < r@.len() implies r@[a]@.len() >= r@[b]@.len() by {
        assert(lens@[a] >= lens@[b]);
    }
    r
}

/// Where the pair for the `k`-th alias of the `i`-th subdirectory stands.
proof fn lemma_pair_position(names: Seq<Seq<char>>, i: int, k: int)
    requires
        0 <= i < names.len(),
        0 <= k < aliases_of_name(names[i]).len(),
    ensures
        table_pairs(names.take(i)).len() + k < table_pairs(names.take(i + 1)).len()
            <= table_pairs(names).len(),
        table_pairs(names)[table_pairs(names.take(i)).len() + k] == (
            aliases_of_name(names[i])[k],
            names[i],
        ),
{
    lemma_table_pairs_prefix(names, i + 1);
    let t = names.take(i + 1);
    assert(t.drop_last() =~= names.take(i));
    assert(t.last() == names[i]);
    let p = table_pairs(names.take(i)).len() + k;
    assert(table_pairs(t)[p] == name_pairs(names[i])[k]);
    assert(table_pairs(names)[p] == table_pairs(t)[p]);
}

/// Every alias that a subdirectory's name gives leads to that subdirectory:
/// the pairs of the table hold (alias, name) for each alias of each name.
pub proof fn lemma_every_alias_leads_to_its_dir(names: Seq<Seq<char>>, i: int, k: int)
    requires
        0 <= i < names.len(),
        0 <= k < aliases_of_name(names[i]).len(),
    ensures
        table_pairs(names).contains((aliases_of_name(names[i])[k], names[i])),
{
    lemma_pair_position(names, i, k);
}

/// Two subdirectories that give the same alias make the table fail: its
/// pairs then hold that alias twice.
pub proof fn lemma_shared_alias_is_duplicate(
    names: Seq<Seq<char>>,
    i: int,
    ki: int,
    j: int,
    kj: int,
)
    requires
        0 <= i < j < names.len(),
        0 <= ki < aliases_of_name(names[i]).len(),
        0 <= kj < aliases_of_name(names[j]).len(),
        aliases_of_name(names[i])[ki] == aliases_of_name(names[j])[kj],
    ensures
        !keys_unique(table_pairs(names)),
{
    lemma_pair_position(names, i, ki);
    lemma_pair_position(names, j, kj);
    let nj = names.take(j);
    lemma_table_pairs_prefix(nj, i + 1);
    assert(nj.take(i + 1) =~= names.take(i + 1));
    let p = table_pairs(names.take(i)).len() + ki;
    let q = table_pairs(names.take(j)).len() + kj;
    assert(p < q);
    assert(table_pairs(names)[p].0 == table_pairs(names)[q].0);
}

} // verus!
