//! Matching file names against the aliases, as whole words.
use vstd::prelude::*;

use crate::aliases::{keys_of, sort_keys, views, AliasTable};
use crate::bindings::{
    compiles_of, escape_literal, escape_spec, lower_words_of, regex_match_of,
    string_of, to_lower_words, CompiledPattern,
};
use crate::text::{chars_of, dots_to_spaces, replace_dots, split_file_name, stem_of, trim_chars, trimmed, TrimSet};
use crate::SortError;

verus! {

/// A stem trimmed of `_ . - ` at both ends, its dots turned into spaces.
pub open spec fn prepared(stem: Seq<char>) -> Seq<char> {
    dots_to_spaces(trimmed(stem, TrimSet::Boundary))
}

/// The text that aliases are tested against for the file `file_name`.
pub open spec fn normalized_of(file_name: Seq<char>) -> Seq<char> {
    lower_words_of(prepared(stem_of(file_name)))
}

/// `s` trimmed of `_`, `.`, `-` and space at both ends.
pub fn trim_str(s: &str) -> (r: String)
    ensures
        r@ == trimmed(s@, TrimSet::Boundary),
{
    let v = chars_of(s);
    let t = trim_chars(&v, TrimSet::Boundary);
    string_of(&t)
}

/// A stem made ready for case conversion: trimmed, dots turned into spaces.
pub fn prepare_stem(stem: &str) -> (r: String)
    ensures
        r@ == prepared(stem@),
{
    let v = chars_of(stem);
    let t = trim_chars(&v, TrimSet::Boundary);
    let d = replace_dots(&t);
    string_of(&d)
}

/// The normalized name of the file `file_name`: its stem, trimmed, with
/// dots as spaces, then split into lower-case words.
pub fn normalize_name(file_name: &str) -> (r: String)
    ensures
        r@ == normalized_of(file_name@),
{
    let v = chars_of(file_name);
    let (stem, _) = split_file_name(&v);
    let t = trim_chars(&stem, TrimSet::Boundary);
    let d = replace_dots(&t);
    let p = string_of(&d);
    to_lower_words(p.as_str())
}

/// The pattern that finds `alias` as a whole word: `\b`, the escaped alias, `\b`.
pub open spec fn word_pattern(alias: Seq<char>) -> Seq<char> {
    seq!['\\', 'b'] + escape_spec(alias) + seq!['\\', 'b']
}

/// Whether `alias` occurs as a whole word in `hay`.
pub open spec fn alias_hit(alias: Seq<char>, hay: Seq<char>) -> bool {
    regex_match_of(word_pattern(alias), hay)
}

/// The aliases, in order, that occur as whole words in `hay`.
pub open spec fn hits_of(aliases: Seq<Seq<char>>, hay: Seq<char>) -> Seq<Seq<char>>
    decreases aliases.len(),
{
    if aliases.len() == 0 {
        Seq::empty()
    } else {
        let prev = hits_of(aliases.drop_last(), hay);
        if alias_hit(aliases.last(), hay) {
            prev.push(aliases.last())
        } else {
            prev
        }
    }
}

/// What becomes of a file, in terms of the matching aliases.
pub enum Outcome {
    Ignored,
    Candidate(Seq<char>),
    Ambiguous,
}

/// No alias: ignored; one: a candidate for it; more: ambiguous.
pub open spec fn outcome_of(hits: Seq<Seq<char>>) -> Outcome {
    if hits.len() == 0 {
        Outcome::Ignored
    } else if hits.len() == 1 {
        Outcome::Candidate(hits[0])
    } else {
        Outcome::Ambiguous
    }
}

/// What becomes of the file `file_name`; one whose normalized name is empty
/// is ignored.
pub open spec fn file_outcome(aliases: Seq<Seq<char>>, file_name: Seq<char>) -> Outcome {
    let n = normalized_of(file_name);
    if n.len() == 0 {
        Outcome::Ignored
    } else {
        outcome_of(hits_of(aliases, n))
    }
}

/// What becomes of one file.
#[derive(PartialEq, Eq, Debug)]
pub enum FileMatch {
    /// No alias matched, or the normalized name was empty.
    Ignored,
    /// Exactly this alias matched.
    Candidate(String),
    /// More than one alias matched.
    Ambiguous,
}

impl View for FileMatch {
    type V = Outcome;

    open spec fn view(&self) -> Outcome {
        match self {
            FileMatch::Ignored => Outcome::Ignored,
            FileMatch::Candidate(a) => Outcome::Candidate(a@),
            FileMatch::Ambiguous => Outcome::Ambiguous,
        }
    }
}

/// Classifies a file by the aliases that matched it.
pub fn classify_hits(hits: &Vec<String>) -> (r: FileMatch)
    ensures
        r@ == outcome_of(views(hits@)),
{
    if hits.len() == 0 {
        FileMatch::Ignored
    } else if hits.len() == 1 {
        FileMatch::Candidate(hits[0].clone())
    } else {
        FileMatch::Ambiguous
    }
}

/// The aliases of a table, longest first, each with its compiled pattern.
pub struct AliasMatcher {
    aliases: Vec<String>,
    patterns: Vec<CompiledPattern>,
}

impl AliasMatcher {
    /// The aliases, in the order they are tested.
    pub closed spec fn aliases(&self) -> Seq<Seq<char>> {
        views(self.aliases@)
    }

    /// Each pattern finds its alias as a whole word.
    pub closed spec fn wf(&self) -> bool {
        &&& self.aliases@.len() == self.patterns@.len()
        &&& forall|i: int|
            0 <= i < self.patterns@.len() ==> #[trigger] self.patterns@[i].source()
                == word_pattern(self.aliases@[i]@)
    }

    /// A matcher for every alias of `table`, longest first.
    ///
    /// Fails with `InvalidPattern` exactly when the regex crate refuses to
    /// compile the pattern of one of the aliases.
    pub fn new(table: &AliasTable) -> (r: Result<AliasMatcher, SortError>)
        requires
            table.wf(),
        ensures
            r is Ok <==> forall|a: Seq<char>|
                #[trigger] keys_of(table@).contains(a) ==> compiles_of(word_pattern(a)),
            match r {
                Ok(m) => {
                    &&& m.wf()
                    &&& m.aliases().len() == table@.len()
                    &&& m.aliases().no_duplicates()
                    &&& forall|x: Seq<char>| m.aliases().contains(x) <==> keys_of(table@).contains(x)
                    &&& forall|i: int, j: int|
                        0 <= i < j < m.aliases().len() ==> m.aliases()[i].len() >= m.aliases()[j].len()
                },
                Err(e) => e == SortError::InvalidPattern,
            },
    {
        let aliases = sort_keys(table);
        let mut patterns: Vec<CompiledPattern> = Vec::new();
        let mut i: usize = 0;
        while i < aliases.len()
            invariant
                i <= aliases@.len(),
                aliases@.len() == table@.len(),
                forall|x: Seq<char>| views(aliases@).contains(x) <==> keys_of(table@).contains(x),
                forall|t: int| 0 <= t < i ==> compiles_of(word_pattern(#[trigger] aliases@[t]@)),
                patterns@.len() == i,
                forall|t: int| 0 <= t < i ==> #[trigger] patterns@[t].source() == word_pattern(aliases@[t]@),
            decreases aliases@.len() - i,
        {
            let esc = escape_literal(aliases[i].as_str());
            let mut text = String::from_str("\\b");
            text.append(esc.as_str());
            text.append("\\b");
            proof {
                reveal_strlit("\\b");
            }
            assert(text@ =~= word_pattern(aliases@[i as int]@));
            match CompiledPattern::compile(&text) {
                Some(c) => patterns.push(c),
                None => {
                    proof {
                        let a = aliases@[i as int]@;
                        assert(views(aliases@)[i as int] == a);
                        assert(views(aliases@).contains(a));
                        assert(keys_of(table@).contains(a));
                    }
                    return Err(SortError::InvalidPattern);
                },
            }
            i = i + 1;
        }
        assert forall|a: Seq<char>| #[trigger] keys_of(table@).contains(a) implies compiles_of(
            word_pattern(a),
        ) by {
            assert(views(aliases@).contains(a));
            let w = choose|w: int| 0 <= w < views(aliases@).len() && views(aliases@)[w] == a;
            assert(aliases@[w]@ == a);
        }
        let m = AliasMatcher { aliases, patterns };
        assert forall|i: int, j: int| 0 <= i < j < m.aliases().len() implies m.aliases()[i].len() >= m.aliases()[j].len() by {
            assert(m.aliases()[i] == m.aliases@[i]@);
            assert(m.aliases()[j] == m.aliases@[j]@);
        }
        Ok(m)
    }

    /// The number of aliases.
    pub fn len(&self) -> (r: usize)
        ensures
            r == self.aliases().len(),
    {
        self.aliases.len()
    }

    /// The alias tested at position `i`.
    pub fn alias_at(&self, i: usize) -> (r: &String)
        requires
            i < self.aliases().len(),
        ensures
            r@ == self.aliases()[i as int],
    {
        &self.aliases[i]
    }

    /// The aliases, in order, that occur as whole words in `normalized`.
    pub fn matched_aliases(&self, normalized: &str) -> (r: Vec<String>)
        requires
            self.wf(),
        ensures
            views(r@) == hits_of(self.aliases(), normalized@),
    {
        let mut hits: Vec<String> = Vec::new();
        let mut i: usize = 0;
        while i < self.patterns.len()
            invariant
                self.wf(),
                i <= self.patterns@.len(),
                views(hits@) == hits_of(self.aliases().take(i as int), normalized@),
            decreases self.patterns@.len() - i,
        {
            let ghost prev = hits@;
            assert(self.aliases().take(i as int + 1).drop_last() =~= self.aliases().take(i as int));
            assert(self.aliases().take(i as int + 1).last() == self.aliases@[i as int]@);
            assert(self.patterns@[i as int].source() == word_pattern(self.aliases@[i as int]@));
            if self.patterns[i].is_match(normalized) {
                hits.push(self.aliases[i].clone());
                assert(views(hits@) =~= views(prev).push(self.aliases@[i as int]@));
            }
            i = i + 1;
        }
        assert(self.aliases().take(i as int) =~= self.aliases());
        hits
    }

    /// What becomes of the file `file_name`.
    pub fn match_file(&self, file_name: &str) -> (r: FileMatch)
        requires
            self.wf(),
        ensures
            r@ == file_outcome(self.aliases(), file_name@),
    {
        let n = normalize_name(file_name);
        if n.as_str().is_empty() {
            return FileMatch::Ignored;
        }
        let hits = self.matched_aliases(n.as_str());
        classify_hits(&hits)
    }
}

/// A file that matched exactly one alias.
pub struct Candidate {
    /// The position of its source directory in the list given.
    pub source: usize,
    /// Its file name.
    pub file: String,
    /// The alias it matched.
    pub alias: String,
}

/// A file that matched more than one alias.
pub struct AmbiguousFile {
    /// The position of its source directory in the list given.
    pub source: usize,
    /// Its file name.
    pub file: String,
}

/// The candidates and the ambiguous files of a search.
pub struct SearchResult {
    pub candidates: Vec<Candidate>,
    pub ambiguous: Vec<AmbiguousFile>,
}

pub open spec fn candidate_views(v: Seq<Candidate>) -> Seq<(int, Seq<char>, Seq<char>)> {
    v.map_values(|c: Candidate| (c.source as int, c.file@, c.alias@))
}

pub open spec fn ambiguous_views(v: Seq<AmbiguousFile>) -> Seq<(int, Seq<char>)> {
    v.map_values(|a: AmbiguousFile| (a.source as int, a.file@))
}

pub open spec fn source_views(s: Seq<Vec<String>>) -> Seq<Seq<Seq<char>>> {
    s.map_values(|v: Vec<String>| views(v@))
}

/// The candidates among `files` of source directory `d`, in order.
pub open spec fn dir_candidates(aliases: Seq<Seq<char>>, d: int, files: Seq<Seq<char>>) -> Seq<
    (int, Seq<char>, Seq<char>),
>
    decreases files.len(),
{
    if files.len() == 0 {
        Seq::empty()
    } else {
        let prev = dir_candidates(aliases, d, files.drop_last());
        match file_outcome(aliases, files.last()) {
            Outcome::Candidate(a) => prev.push((d, files.last(), a)),
            _ => prev,
        }
    }
}

/// The ambiguous files among `files` of source directory `d`, in order.
pub open spec fn dir_ambiguous(aliases: Seq<Seq<char>>, d: int, files: Seq<Seq<char>>) -> Seq<
    (int, Seq<char>),
>
    decreases files.len(),
{
    if files.len() == 0 {
        Seq::empty()
    } else {
        let prev = dir_ambiguous(aliases, d, files.drop_last());
        match file_outcome(aliases, files.last()) {
            Outcome::Ambiguous => prev.push((d, files.last())),
            _ => prev,
        }
    }
}

/// The candidates of all source directories, in order.
pub open spec fn all_candidates(aliases: Seq<Seq<char>>, sources: Seq<Seq<Seq<char>>>) -> Seq<
    (int, Seq<char>, Seq<char>),
>
    decreases sources.len(),
{
    if sources.len() == 0 {
        Seq::empty()
    } else {
        all_candidates(aliases, sources.drop_last()) + dir_candidates(
            aliases,
            sources.len() - 1,
            sources.last(),
        )
    }
}

/// The ambiguous files of all source directories, in order.
pub open spec fn all_ambiguous(aliases: Seq<Seq<char>>, sources: Seq<Seq<Seq<char>>>) -> Seq<
    (int, Seq<char>),
>
    decreases sources.len(),
{
    if sources.len() == 0 {
        Seq::empty()
    } else {
        all_ambiguous(aliases, sources.drop_last()) + dir_ambiguous(
            aliases,
            sources.len() - 1,
            sources.last(),
        )
    }
}

impl AliasMatcher {
    /// Sorts the files of the source directories: `sources[d]` lists the
    /// names of the files directly inside source directory `d`.
    ///
    /// Fails with `NoSources` exactly when no source directory is given.
    /// Otherwise every file that matches exactly one alias is a candidate
    /// for it, every file that matches more is ambiguous, and the rest are
    /// left out; both lists keep the order of the input.
    pub fn search_candidates(&self, sources: &Vec<Vec<String>>) -> (r: Result<SearchResult, SortError>)
        requires
            self.wf(),
        ensures
            sources@.len() == 0 <==> r is Err,
            r matches Err(e) ==> e == SortError::NoSources,
            r matches Ok(s) ==> candidate_views(s.candidates@) == all_candidates(
                self.aliases(),
                source_views(sources@),
            ) && ambiguous_views(s.ambiguous@) == all_ambiguous(self.aliases(), source_views(sources@)),
    {
        if sources.len() == 0 {
            return Err(SortError::NoSources);
        }
        let ghost al = self.aliases();
        let ghost sv = source_views(sources@);
        let mut candidates: Vec<Candidate> = Vec::new();
        let mut ambiguous: Vec<AmbiguousFile> = Vec::new();
        let mut d: usize = 0;
        while d < sources.len()
            invariant
                self.wf(),
                al == self.aliases(),
                sv == source_views(sources@),
                d <= sources@.len(),
                candidate_views(candidates@) == all_candidates(al, sv.take(d as int)),
                ambiguous_views(ambiguous@) == all_ambiguous(al, sv.take(d as int)),
            decreases sources@.len() - d,
        {
            let files = &sources[d];
            let ghost c0 = candidate_views(candidates@);
            let ghost a0 = ambiguous_views(ambiguous@);
            assert(sv[d as int] == views(files@));
            let mut j: usize = 0;
            while j < files.len()
                invariant
                    self.wf(),
                    al == self.aliases(),
                    sv[d as int] == views(files@),
                    j <= files@.len(),
                    candidate_views(candidates@) == c0 + dir_candidates(al, d as int, sv[d as int].take(j as int)),
                    ambiguous_views(ambiguous@) == a0 + dir_ambiguous(al, d as int, sv[d as int].take(j as int)),
                decreases files@.len() - j,
            {
                let ghost fs = sv[d as int];
                assert(fs.take(j as int + 1).drop_last() =~= fs.take(j as int));
                assert(fs.take(j as int + 1).last() == files@[j as int]@);
                let ghost cp = candidates@;
                let ghost ap = ambiguous@;
                let m = self.match_file(files[j].as_str());
                match m {
                    FileMatch::Candidate(a) => {
                        candidates.push(Candidate { source: d, file: files[j].clone(), alias: a });
                        assert(candidate_views(candidates@) =~= candidate_views(cp).push(
                            (d as int, files@[j as int]@, m->Candidate_0@),
                        ));
                    },
                    FileMatch::Ambiguous => {
                        ambiguous.push(AmbiguousFile { source: d, file: files[j].clone() });
                        assert(ambiguous_views(ambiguous@) =~= ambiguous_views(ap).push(
                            (d as int, files@[j as int]@),
                        ));
                    },
                    FileMatch::Ignored => {},
                }
                j = j + 1;
            }
            assert(sv.take(d as int + 1).drop_last() =~= sv.take(d as int));
            assert(sv[d as int].take(j as int) =~= sv[d as int]);
            d = d + 1;
        }
        assert(sv.take(sv.len() as int) =~= sv);
        Ok(SearchResult { candidates, ambiguous })
    }
}

proof fn lemma_hits_contains(aliases: Seq<Seq<char>>, hay: Seq<char>, x: Seq<char>)
    ensures
        hits_of(aliases, hay).contains(x) <==> aliases.contains(x) && alias_hit(x, hay),
        hits_of(aliases, hay).len() <= aliases.len(),
    decreases aliases.len(),
{
    if aliases.len() > 0 {
        let init = aliases.drop_last();
        lemma_hits_contains(init, hay, x);
        assert(aliases =~= init.push(aliases.last()));
        if aliases.contains(x) && x != aliases.last() {
            let w = choose|w: int| 0 <= w < aliases.len() && aliases[w] == x;
            assert(init[w] == x);
        }
        if init.contains(x) {
            let w = choose|w: int| 0 <= w < init.len() && init[w] == x;
            assert(aliases[w] == x);
        }
        let prev = hits_of(init, hay);
        let h = hits_of(aliases, hay);
        if alias_hit(aliases.last(), hay) {
            assert(h == prev.push(aliases.last()));
            assert(h[prev.len() as int] == aliases.last());
            if h.contains(x) {
                let w = choose|w: int| 0 <= w < h.len() && h[w] == x;
                if w < prev.len() {
                    assert(prev[w] == x);
                }
            }
            if prev.contains(x) {
                let w = choose|w: int| 0 <= w < prev.len() && prev[w] == x;
                assert(h[w] == x);
            }
        } else {
            assert(h == prev);
        }
    }
}

/// A file whose normalized name holds two different aliases as whole words
/// is ambiguous, however much longer one alias is than the other.
pub proof fn lemma_two_hits_are_ambiguous(
    aliases: Seq<Seq<char>>,
    file_name: Seq<char>,
    x: Seq<char>,
    y: Seq<char>,
)
    requires
        aliases.contains(x),
        aliases.contains(y),
        x != y,
        normalized_of(file_name).len() > 0,
        alias_hit(x, normalized_of(file_name)),
        alias_hit(y, normalized_of(file_name)),
    ensures
        file_outcome(aliases, file_name) == Outcome::Ambiguous,
{
    let n = normalized_of(file_name);
    let h = hits_of(aliases, n);
    lemma_hits_contains(aliases, n, x);
    lemma_hits_contains(aliases, n, y);
    if h.len() < 2 {
        let wx = choose|w: int| 0 <= w < h.len() && h[w] == x;
        let wy = choose|w: int| 0 <= w < h.len() && h[w] == y;
        assert(wx == wy);
    }
}

/// A file whose normalized name holds exactly one of the aliases as a whole
/// word is a candidate for that alias.
pub proof fn lemma_single_hit_is_candidate(
    aliases: Seq<Seq<char>>,
    file_name: Seq<char>,
    x: Seq<char>,
)
    requires
        aliases.no_duplicates(),
        aliases.contains(x),
        normalized_of(file_name).len() > 0,
        alias_hit(x, normalized_of(file_name)),
        forall|y: Seq<char>|
            aliases.contains(y) && y != x ==> !alias_hit(y, normalized_of(file_name)),
    ensures
        file_outcome(aliases, file_name) == Outcome::Candidate(x),
{
    let n = normalized_of(file_name);
    let h = hits_of(aliases, n);
    lemma_hits_contains(aliases, n, x);
    assert forall|w: int| 0 <= w < h.len() implies h[w] == x by {
        lemma_hits_contains(aliases, n, h[w]);
    }
    lemma_hits_no_duplicates(aliases, n);
    if h.len() > 1 {
        assert(h[0] == h[1]);
    }
}

proof fn lemma_hits_no_duplicates(aliases: Seq<Seq<char>>, hay: Seq<char>)
    requires
        aliases.no_duplicates(),
    ensures
        hits_of(aliases, hay).no_duplicates(),
    decreases aliases.len(),
{
    if aliases.len() > 0 {
        let init = aliases.drop_last();
        assert(init.no_duplicates());
        lemma_hits_no_duplicates(init, hay);
        if alias_hit(aliases.last(), hay) {
            lemma_hits_contains(init, hay, aliases.last());
            if init.contains(aliases.last()) {
                let w = choose|w: int| 0 <= w < init.len() && init[w] == aliases.last();
                assert(aliases[w] == aliases[aliases.len() - 1]);
            }
        }
    }
}

proof fn lemma_dir_lists_agree(aliases: Seq<Seq<char>>, d: int, files: Seq<Seq<char>>)
    ensures
        forall|k: int| 0 <= k < dir_candidates(aliases, d, files).len() ==> file_outcome(
            aliases,
            #[trigger] dir_candidates(aliases, d, files)[k].1,
        ) == Outcome::Candidate(dir_candidates(aliases, d, files)[k].2),
        forall|k: int| 0 <= k < dir_ambiguous(aliases, d, files).len() ==> file_outcome(
            aliases,
            #[trigger] dir_ambiguous(aliases, d, files)[k].1,
        ) == Outcome::Ambiguous,
    decreases files.len(),
{
    if files.len() > 0 {
        lemma_dir_lists_agree(aliases, d, files.drop_last());
    }
}

/// Only files that match exactly one alias are listed as candidates, each
/// with that alias, and only files that match more are listed as ambiguous;
/// a file that matches none, or whose normalized name is empty, is in
/// neither list.
pub proof fn lemma_lists_agree_with_outcomes(aliases: Seq<Seq<char>>, sources: Seq<Seq<Seq<char>>>)
    ensures
        forall|k: int| 0 <= k < all_candidates(aliases, sources).len() ==> file_outcome(
            aliases,
            #[trigger] all_candidates(aliases, sources)[k].1,
        ) == Outcome::Candidate(all_candidates(aliases, sources)[k].2),
        forall|k: int| 0 <= k < all_ambiguous(aliases, sources).len() ==> file_outcome(
            aliases,
            #[trigger] all_ambiguous(aliases, sources)[k].1,
        ) == Outcome::Ambiguous,
    decreases sources.len(),
{
    if sources.len() > 0 {
        let init = sources.drop_last();
        let d = sources.len() - 1;
        lemma_lists_agree_with_outcomes(aliases, init);
        lemma_dir_lists_agree(aliases, d, sources.last());
        let pc = all_candidates(aliases, init);
        let pa = all_ambiguous(aliases, init);
        assert forall|k: int| 0 <= k < all_candidates(aliases, sources).len() implies file_outcome(
            aliases,
            #[trigger] all_candidates(aliases, sources)[k].1,
        ) == Outcome::Candidate(all_candidates(aliases, sources)[k].2) by {
            if k >= pc.len() {
                assert(all_candidates(aliases, sources)[k] == dir_candidates(aliases, d, sources.last())[k - pc.len()]);
            } else {
                assert(all_candidates(aliases, sources)[k] == pc[k]);
            }
        }
        assert forall|k: int| 0 <= k < all_ambiguous(aliases, sources).len() implies file_outcome(
            aliases,
            #[trigger] all_ambiguous(aliases, sources)[k].1,
        ) == Outcome::Ambiguous by {
            if k >= pa.len() {
                assert(all_ambiguous(aliases, sources)[k] == dir_ambiguous(aliases, d, sources.last())[k - pa.len()]);
            } else {
                assert(all_ambiguous(aliases, sources)[k] == pa[k]);
            }
        }
    }
}

} // verus!
