use dirsort::aliases::{aliases_of_lowered, dir_aliases, generate_aliases, sort_keys, AliasTable};
use dirsort::matcher::{classify_hits, normalize_name, prepare_stem, trim_str, AliasMatcher, FileMatch};
use dirsort::naming::{next_destination_name, DestinationName};
use dirsort::text::{split_file_name, trim_chars, TrimSet};
use dirsort::SortError;

fn names(v: &[&str]) -> Vec<String> {
    v.iter().map(|s| s.to_string()).collect()
}

fn table(v: &[&str]) -> AliasTable {
    generate_aliases(&names(v)).ok().expect("aliases are unique")
}

fn matcher(v: &[&str]) -> AliasMatcher {
    AliasMatcher::new(&table(v)).ok().expect("patterns compile")
}

fn pairs(t: &AliasTable) -> Vec<(String, String)> {
    (0..t.len()).map(|i| (t.alias_at(i).clone(), t.dir_at(i).clone())).collect()
}

#[test]
fn comma_separated_subdirectory_gives_two_aliases() {
    let t = table(&["Movies, Films"]);
    assert_eq!(
        pairs(&t),
        vec![
            ("movies".to_string(), "Movies, Films".to_string()),
            ("films".to_string(), "Movies, Films".to_string()),
        ]
    );
}

#[test]
fn every_subdirectory_gives_its_aliases() {
    let t = table(&["A", "B,C"]);
    assert_eq!(
        pairs(&t),
        vec![
            ("a".to_string(), "A".to_string()),
            ("b".to_string(), "B,C".to_string()),
            ("c".to_string(), "B,C".to_string()),
        ]
    );
    assert_eq!(t.lookup(&"c".to_string()), Some(&"B,C".to_string()));
    assert_eq!(t.lookup(&"d".to_string()), None);
}

#[test]
fn duplicate_alias_across_subdirectories_is_an_error() {
    let r = generate_aliases(&names(&["Movies", "movies, TV"]));
    assert!(matches!(r, Err(SortError::DuplicateAlias)));
}

#[test]
fn duplicate_alias_within_one_subdirectory_is_an_error() {
    let r = generate_aliases(&names(&["tv, TV"]));
    assert!(matches!(r, Err(SortError::DuplicateAlias)));
}

#[test]
fn no_subdirectories_give_an_empty_table() {
    let t = table(&[]);
    assert!(t.is_empty());
}

#[test]
fn aliases_are_lowercased_and_segments_trimmed() {
    assert_eq!(dir_aliases(&"Science Fiction".to_string()), names(&["science fiction"]));
    assert_eq!(dir_aliases(&" TV ,\tShows ".to_string()), names(&["tv", "shows"]));
    assert_eq!(dir_aliases(&"a,".to_string()), names(&["a", ""]));
    assert_eq!(dir_aliases(&" Docs ".to_string()), names(&[" docs "]));
}

#[test]
fn lowered_names_split_on_commas() {
    assert_eq!(aliases_of_lowered("movies, films"), names(&["movies", "films"]));
    assert_eq!(aliases_of_lowered("Keep Case"), names(&["Keep Case"]));
    assert_eq!(aliases_of_lowered(" a ,b,\u{a0}c\u{a0}"), names(&["a", "b", "c"]));
    assert_eq!(aliases_of_lowered(","), names(&["", ""]));
    assert_eq!(aliases_of_lowered(""), names(&[""]));
}

#[test]
fn keys_are_sorted_longest_first() {
    let t = table(&["tv", "Star Wars", "wars", "abc"]);
    assert_eq!(sort_keys(&t), names(&["star wars", "wars", "abc", "tv"]));
}

#[test]
fn matcher_tests_longest_alias_first() {
    let m = matcher(&["wars", "Star Wars"]);
    assert_eq!(m.len(), 2);
    assert_eq!(m.alias_at(0), "star wars");
    assert_eq!(m.alias_at(1), "wars");
}

#[test]
fn two_whole_word_matches_are_ambiguous() {
    let m = matcher(&["Star Wars", "wars"]);
    assert_eq!(normalize_name("Star.Wars.Episode.4.mkv"), "star wars episode 4");
    assert_eq!(m.match_file("Star.Wars.Episode.4.mkv"), FileMatch::Ambiguous);
}

#[test]
fn one_whole_word_match_is_a_candidate() {
    let m = matcher(&["Star Wars", "wars"]);
    assert_eq!(m.match_file("The_Wars_of_Roses.avi"), FileMatch::Candidate("wars".to_string()));
}

#[test]
fn aliases_match_whole_words_only() {
    let m = matcher(&["war"]);
    assert_eq!(m.match_file("Star.Wars.mkv"), FileMatch::Ignored);
    assert_eq!(m.match_file("war-games.mkv"), FileMatch::Candidate("war".to_string()));
}

#[test]
fn alias_text_is_matched_literally() {
    let m = matcher(&["a+b"]);
    assert_eq!(m.matched_aliases("a+b notes"), names(&["a+b"]));
    assert_eq!(m.matched_aliases("aab notes"), names(&[]));
}

#[test]
fn classification_by_number_of_hits() {
    assert_eq!(classify_hits(&names(&[])), FileMatch::Ignored);
    assert_eq!(classify_hits(&names(&["tv"])), FileMatch::Candidate("tv".to_string()));
    assert_eq!(classify_hits(&names(&["star wars", "wars"])), FileMatch::Ambiguous);
}

#[test]
fn normalization_of_a_dotted_name() {
    assert_eq!(normalize_name("My.Movie_Name-2020.mkv"), "my movie name 2020");
}

#[test]
fn stem_preparation_trims_and_replaces_dots() {
    assert_eq!(prepare_stem("My.Movie_Name-2020"), "My Movie_Name-2020");
    assert_eq!(prepare_stem("__.a.b-- "), "a b");
    assert_eq!(trim_str("-_. x.y ._-"), "x.y");
    assert_eq!(trim_str("._-"), "");
}

#[test]
fn white_space_trimming() {
    let v: Vec<char> = "\u{3000} a b\t\n".chars().collect();
    assert_eq!(trim_chars(&v, TrimSet::WhiteSpace), vec!['a', ' ', 'b']);
}

#[test]
fn empty_normalized_name_is_ignored() {
    let m = matcher(&["movies"]);
    assert_eq!(m.match_file("___.txt"), FileMatch::Ignored);
}

#[test]
fn file_names_split_like_paths() {
    let c = |s: &str| s.chars().collect::<Vec<char>>();
    assert_eq!(split_file_name(&c("report.pdf")), (c("report"), Some(c("pdf"))));
    assert_eq!(split_file_name(&c("a.tar.gz")), (c("a.tar"), Some(c("gz"))));
    assert_eq!(split_file_name(&c(".bashrc")), (c(".bashrc"), None));
    assert_eq!(split_file_name(&c("notes")), (c("notes"), None));
    assert_eq!(split_file_name(&c("..")), (c(".."), None));
    assert_eq!(split_file_name(&c("end.")), (c("end"), Some(c(""))));
}

#[test]
fn unmatched_file_is_neither_candidate_nor_ambiguous() {
    let m = matcher(&["Movies", "TV"]);
    assert_eq!(normalize_name("random_notes.txt"), "random notes");
    let r = m.search_candidates(&vec![names(&["random_notes.txt"])]).ok().expect("sources given");
    assert!(r.candidates.is_empty());
    assert!(r.ambiguous.is_empty());
}

#[test]
fn search_sorts_files_of_every_source() {
    let m = matcher(&["Movies", "TV", "tv shows"]);
    let sources = vec![
        names(&["Best.Movies.2020.mkv", "notes.txt"]),
        names(&[]),
        names(&["TV.Shows.list", "old_tv.avi"]),
    ];
    let r = m.search_candidates(&sources).ok().expect("sources given");
    let c: Vec<(usize, String, String)> =
        r.candidates.iter().map(|c| (c.source, c.file.clone(), c.alias.clone())).collect();
    assert_eq!(
        c,
        vec![
            (0, "Best.Movies.2020.mkv".to_string(), "movies".to_string()),
            (2, "old_tv.avi".to_string(), "tv".to_string()),
        ]
    );
    let a: Vec<(usize, String)> = r.ambiguous.iter().map(|a| (a.source, a.file.clone())).collect();
    assert_eq!(a, vec![(2, "TV.Shows.list".to_string())]);
}

#[test]
fn search_without_sources_fails() {
    let m = matcher(&["Movies"]);
    assert!(matches!(m.search_candidates(&vec![]), Err(SortError::NoSources)));
}

#[test]
fn destination_names_count_up() {
    let first = DestinationName::from_file_name("report.pdf");
    assert_eq!(first.file_name(), "report.pdf");
    let second = first.next();
    assert_eq!(second.file_name(), "report (1).pdf");
    assert_eq!(second.next().file_name(), "report (2).pdf");
    assert_eq!(next_destination_name("report.pdf"), "report (1).pdf");
    assert_eq!(next_destination_name("report (1).pdf"), "report (2).pdf");
}

#[test]
fn destination_counter_edge_cases() {
    assert_eq!(next_destination_name("report (9).pdf"), "report (10).pdf");
    assert_eq!(next_destination_name("x (007).txt"), "x (8).txt");
    assert_eq!(next_destination_name("notes"), "notes (1)");
    assert_eq!(next_destination_name("a(1).txt"), "a(1) (1).txt");
    assert_eq!(next_destination_name("a ().txt"), "a () (1).txt");
    assert_eq!(next_destination_name("a.b (3).c"), "a.b (4).c");
    assert_eq!(next_destination_name(".bashrc"), ".bashrc (1)");
    assert_eq!(
        next_destination_name("big (18446744073709551614).bin"),
        "big (18446744073709551615).bin"
    );
    assert_eq!(
        next_destination_name("big (18446744073709551615).bin"),
        "big (18446744073709551616).bin"
    );
    assert_eq!(
        next_destination_name("big (99999999999999999999999).bin"),
        "big (100000000000000000000000).bin"
    );
    assert_eq!(next_destination_name("x (0).txt"), "x (1).txt");
    assert_eq!(next_destination_name("x (000).txt"), "x (1).txt");
    assert_eq!(next_destination_name("x (099).txt"), "x (100).txt");
    assert_eq!(next_destination_name("x (129).txt"), "x (130).txt");
}
