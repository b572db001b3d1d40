use roaring::RoaringBitmap;
use std::ops::ControlFlow;
use zearch::{Exact, Index, RankingRuleImpl, Search, Typo, Word, WordCandidate};

fn bitmap(ids: &[u32]) -> RoaringBitmap {
    ids.iter().copied().collect()
}

fn ids(bitmap: &RoaringBitmap) -> Vec<u32> {
    bitmap.iter().collect()
}

fn slots(word: &WordCandidate) -> Vec<Vec<u32>> {
    word.typos.iter().map(ids).collect()
}

fn word(original: &str, index: usize, typos: Vec<RoaringBitmap>) -> WordCandidate {
    WordCandidate {
        original: String::from(original),
        normalized: zearch::normalize(original),
        index,
        typos,
    }
}

#[test]
fn a_new_candidate_matches_nothing() {
    let candidate = WordCandidate::new(String::from("Beau"), String::from("beau"), 3);
    assert_eq!(candidate.original, "Beau");
    assert_eq!(candidate.normalized, "beau");
    assert_eq!(candidate.index, 3);
    assert_eq!(slots(&candidate), vec![Vec::<u32>::new(); 4]);
}

#[test]
fn matches_fall_into_the_slot_of_their_distance() {
    let mut candidate = WordCandidate::new(String::from("Beau"), String::from("beau"), 0);
    candidate.insert_with_maybe_typo("beau", &bitmap(&[1]));
    assert_eq!(slots(&candidate), vec![vec![1], vec![], vec![], vec![]]);
    // what a longer term has beyond the word's length is not counted
    candidate.insert_with_maybe_typo("beaucoup", &bitmap(&[2]));
    assert_eq!(slots(&candidate), vec![vec![1, 2], vec![], vec![], vec![]]);
    // a missing letter
    candidate.insert_with_maybe_typo("bea", &bitmap(&[3]));
    // two neighbours swapped count as one typo
    candidate.insert_with_maybe_typo("baeu", &bitmap(&[4]));
    assert_eq!(slots(&candidate), vec![vec![1, 2], vec![3, 4], vec![], vec![]]);
    candidate.insert_with_maybe_typo("ba", &bitmap(&[5]));
    candidate.insert_with_maybe_typo("b", &bitmap(&[6]));
    // four typos count as three
    candidate.insert_with_maybe_typo("x", &bitmap(&[7]));
    candidate.insert_with_maybe_typo("", &bitmap(&[8]));
    assert_eq!(slots(&candidate), vec![vec![1, 2], vec![3, 4], vec![5], vec![6, 7, 8]]);
    assert_eq!(candidate.original, "Beau");
    assert_eq!(candidate.normalized, "beau");
}

#[test]
fn the_restricted_distance_lets_no_letter_be_edited_twice() {
    // from "ca" to "abc": three edits, where the unrestricted distance is two
    let mut candidate = WordCandidate::new(String::from("ca"), String::from("ca"), 0);
    candidate.insert_with_maybe_typo("ab", &bitmap(&[1]));
    assert_eq!(slots(&candidate), vec![vec![], vec![], vec![1], vec![]]);
    let mut candidate = WordCandidate::new(String::from("abc"), String::from("abc"), 0);
    candidate.insert_with_maybe_typo("ca", &bitmap(&[1]));
    assert_eq!(slots(&candidate), vec![vec![], vec![], vec![], vec![1]]);
}

#[test]
fn only_as_many_characters_as_the_word_has_are_compared() {
    let mut candidate = WordCandidate::new(String::from("été"), String::from("ete"), 0);
    candidate.insert_with_maybe_typo("étés", &bitmap(&[1]));
    // "ete" against "été": two letters differ
    assert_eq!(slots(&candidate), vec![vec![], vec![], vec![1], vec![]]);
}

#[test]
fn matches_are_put_where_the_distance_says() {
    let mut candidate = WordCandidate::new(String::from("a"), String::from("a"), 0);
    candidate.insert_at_distance(0, &bitmap(&[1]));
    candidate.insert_at_distance(1, &bitmap(&[2]));
    candidate.insert_at_distance(2, &bitmap(&[3]));
    candidate.insert_at_distance(3, &bitmap(&[4]));
    candidate.insert_at_distance(4, &bitmap(&[5]));
    candidate.insert_at_distance(usize::MAX, &bitmap(&[6]));
    candidate.insert_at_distance(1, &bitmap(&[7, 2]));
    assert_eq!(slots(&candidate), vec![vec![1], vec![2, 7], vec![3], vec![4, 5, 6]]);
}

#[test]
fn cleanup_takes_documents_out_of_every_slot() {
    let mut words = vec![
        word("a", 0, vec![bitmap(&[1, 2, 3]), bitmap(&[4]), bitmap(&[]), bitmap(&[5, 6])]),
        word("b", 1, vec![bitmap(&[2, 9])]),
    ];
    Index::cleanup(&bitmap(&[2, 4, 5, 7]), &mut words);
    assert_eq!(slots(&words[0]), vec![vec![1, 3], vec![], vec![], vec![6]]);
    assert_eq!(slots(&words[1]), vec![vec![9]]);
    assert_eq!(words[0].original, "a");
    assert_eq!(words[1].index, 1);
}

#[test]
fn word_rule_sorts_by_frequency_and_keeps_ties_in_order() {
    let mut words = vec![
        word("d", 0, vec![bitmap(&[1, 2, 3])]),
        word("a", 1, vec![bitmap(&[1]), bitmap(&[2])]),
        word("c", 2, vec![bitmap(&[7, 8])]),
        word("b", 3, vec![bitmap(&[])]),
        word("e", 4, vec![bitmap(&[5, 6, 7])]),
    ];
    let rule = Word::new(&mut words);
    let order: Vec<&str> = words.iter().map(|word| word.original.as_str()).collect();
    assert_eq!(order, vec!["b", "a", "c", "d", "e"]);
    assert_eq!(rule.name(), "word");
}

#[test]
fn typo_rule_admits_one_typo_more_at_each_step() {
    let index = Index::new_in_memory(&[]).unwrap();
    let mut words = vec![
        word("a", 0, vec![bitmap(&[1]), bitmap(&[2]), bitmap(&[3]), bitmap(&[4])]),
        word("b", 1, vec![bitmap(&[1, 2, 3, 4]), bitmap(&[]), bitmap(&[]), bitmap(&[])]),
    ];
    let mut rule = Typo::new(&words);
    assert_eq!(rule.name(), "typo");
    assert_eq!(ids(&rule.current_results(&words)), Vec::<u32>::new());
    assert_eq!(rule.next(None, &mut words, &index), ControlFlow::Continue(()));
    assert_eq!(ids(&rule.current_results(&words)), Vec::<u32>::new());
    assert_eq!(rule.next(None, &mut words, &index), ControlFlow::Continue(()));
    assert_eq!(ids(&rule.current_results(&words)), vec![1]);
    assert_eq!(rule.next(None, &mut words, &index), ControlFlow::Continue(()));
    assert_eq!(ids(&rule.current_results(&words)), vec![1, 2]);
    assert_eq!(rule.next(None, &mut words, &index), ControlFlow::Continue(()));
    assert_eq!(ids(&rule.current_results(&words)), vec![1, 2, 3]);
    // every slot has been admitted: the rule starts over
    assert_eq!(rule.next(None, &mut words, &index), ControlFlow::Break(RoaringBitmap::new()));
    assert_eq!(ids(&rule.current_results(&words)), Vec::<u32>::new());
    assert_eq!(rule.next(None, &mut words, &index), ControlFlow::Continue(()));
    assert_eq!(ids(&rule.current_results(&words)), vec![1]);
    assert_eq!(words.len(), 2);
}

#[test]
fn typo_rule_without_candidates_has_nothing() {
    let index = Index::new_in_memory(&[]).unwrap();
    let mut words: Vec<WordCandidate> = Vec::new();
    let mut rule = Typo::new(&words);
    assert_eq!(rule.next(None, &mut words, &index), ControlFlow::Continue(()));
    assert_eq!(rule.next(None, &mut words, &index), ControlFlow::Break(RoaringBitmap::new()));
    assert_eq!(rule.next(None, &mut words, &index), ControlFlow::Break(RoaringBitmap::new()));
    assert_eq!(ids(&rule.current_results(&words)), Vec::<u32>::new());
}

#[test]
fn exact_rule_ranks_by_the_words_as_written() {
    let documents = ["tamo le beau", "tamo la beau", "timo", "x tamo", "tomo li"];
    let index = Index::new_in_memory(&documents).unwrap();
    let all = bitmap(&[0, 1, 2, 3, 4]);
    let mut words = vec![
        word("tamo", 0, vec![all.clone(), bitmap(&[]), bitmap(&[]), bitmap(&[])]),
        word("le", 1, vec![bitmap(&[]), all.clone(), bitmap(&[]), bitmap(&[])]),
    ];
    let prev = RankingRuleImpl::Word(Word::new(&mut words));
    let mut rule = Exact::new();
    assert_eq!(rule.name(), "exact");
    assert_eq!(ids(&rule.current_results(&words)), Vec::<u32>::new());
    // distances: 0 + 0, 0 + 1, 1, 4 + 4, 1 + 1
    assert_eq!(rule.next(Some(&prev), &mut words, &index), ControlFlow::Break(bitmap(&[0])));
    // what is left in store: the buckets for three, two and one
    assert_eq!(ids(&rule.current_results(&words)), vec![3]);
    rule.cleanup(&bitmap(&[2, 9]));
    assert_eq!(rule.next(Some(&prev), &mut words, &index), ControlFlow::Break(bitmap(&[1])));
    assert_eq!(rule.next(Some(&prev), &mut words, &index), ControlFlow::Break(bitmap(&[4])));
    assert_eq!(rule.next(Some(&prev), &mut words, &index), ControlFlow::Break(bitmap(&[3])));
    assert_eq!(ids(&rule.current_results(&words)), Vec::<u32>::new());
    // the store is empty: the bucket of the rule before is sorted again
    Index::cleanup(&all, &mut words);
    assert_eq!(rule.next(Some(&prev), &mut words, &index), ControlFlow::Break(bitmap(&[])));
    assert_eq!(words.len(), 2);
}

#[test]
fn exact_rule_sums_the_distances_of_all_words() {
    let documents = ["abcd efgh", "abcx efgx", "abxx efgx", "abxx efxx"];
    let index = Index::new_in_memory(&documents).unwrap();
    let words = vec![
        word("abcd", 0, vec![bitmap(&[0, 1, 2, 3])]),
        word("efgh", 1, vec![bitmap(&[0, 1, 2, 3])]),
    ];
    assert_eq!(Exact::slot_of(&words, documents[0]), 0);
    assert_eq!(Exact::slot_of(&words, documents[1]), 2);
    assert_eq!(Exact::slot_of(&words, documents[2]), 3);
    assert_eq!(Exact::slot_of(&words, documents[3]), 3);
    assert_eq!(Exact::slot_of(&words, ""), 0);
    assert_eq!(Exact::slot_of(&words, "abcd"), 0);
    assert_eq!(Exact::slot_of(&words, "  x   efgh "), 3);
    assert_eq!(Exact::slot_of(&Vec::new(), "abcd efgh"), 0);
}

#[test]
fn rules_answer_by_their_names() {
    let mut words = Vec::new();
    assert_eq!(RankingRuleImpl::Word(Word::new(&mut words)).name(), "word");
    assert_eq!(RankingRuleImpl::Typo(Typo::new(&words)).name(), "typo");
    assert_eq!(RankingRuleImpl::Exact(Exact::new()).name(), "exact");
}

#[test]
fn candidates_follow_the_words_of_the_query() {
    let documents = ["Tamo le plus beau", "tamo est très beau aussi", "tamoul", "temo"];
    let index = Index::new_in_memory(&documents).unwrap();
    let words = index.get_candidates(&Search::new("  TAMO ...  Très "));
    assert_eq!(words.len(), 2);
    assert_eq!(words[0].original, "TAMO");
    assert_eq!(words[0].normalized, "tamo");
    assert_eq!(words[0].index, 0);
    // one typo is admitted for four letters; no prefix for a word that is not the last
    assert_eq!(slots(&words[0]), vec![vec![0, 1], vec![3], vec![], vec![]]);
    assert_eq!(words[1].original, "Très");
    assert_eq!(words[1].normalized, "tres");
    assert_eq!(words[1].index, 1);
    assert_eq!(slots(&words[1]), vec![vec![1], vec![], vec![], vec![]]);
    let words = index.get_candidates(&Search::new("tam"));
    // the last word matches by prefix: "tamo" and "tamoul" start with it, and
    // "temo" starts with "tem", one typo away
    assert_eq!(slots(&words[0]), vec![vec![0, 1, 2], vec![3], vec![], vec![]]);
    assert!(index.get_candidates(&Search::new("")).is_empty());
    assert!(index.get_candidates(&Search::new("?? !")).is_empty());
}

#[test]
fn distances_add_up_to_the_last_slot_at_most() {
    assert_eq!(Exact::add_distance(0, 0), 0);
    assert_eq!(Exact::add_distance(0, 2), 2);
    assert_eq!(Exact::add_distance(1, 1), 2);
    assert_eq!(Exact::add_distance(1, 2), 3);
    assert_eq!(Exact::add_distance(2, 2), 3);
    assert_eq!(Exact::add_distance(3, 0), 3);
    assert_eq!(Exact::add_distance(0, 7), 3);
    assert_eq!(Exact::add_distance(usize::MAX, usize::MAX), 3);
    assert_eq!(Exact::add_distance(9, 0), 3);
}

#[test]
fn matched_terms_bring_their_documents() {
    let documents = ["tamo", "temo et tamo", "tamoul", "kefir"];
    let index = Index::new_in_memory(&documents).unwrap();
    // the dictionary: et 0, kefir 1, tamo 2, tamoul 3, temo 4
    let mut candidate = WordCandidate::new(String::from("Tamo"), String::from("tamo"), 0);
    let matches = vec![(b"tamo".to_vec(), 2u64), (b"temo".to_vec(), 4), (b"kefir".to_vec(), 1)];
    index.collect_matches(&mut candidate, &matches, false);
    assert_eq!(slots(&candidate), vec![vec![0, 1], vec![1], vec![], vec![3]]);
    // a word that is not the last is compared with the whole term
    index.collect_matches(&mut candidate, &vec![(b"tamoul".to_vec(), 3)], false);
    assert_eq!(slots(&candidate), vec![vec![0, 1], vec![1], vec![2], vec![3]]);
    index.collect_matches(&mut candidate, &Vec::new(), false);
    assert_eq!(slots(&candidate), vec![vec![0, 1], vec![1], vec![2], vec![3]]);
    // for the last word a longer term is cut to the length of the word
    let mut candidate = WordCandidate::new(String::from("Tamo"), String::from("tamo"), 0);
    index.collect_matches(&mut candidate, &vec![(b"tamoul".to_vec(), 3)], true);
    assert_eq!(slots(&candidate), vec![vec![2], vec![], vec![], vec![]]);
}

#[test]
fn terms_are_looked_up_within_the_radius_of_the_word() {
    let documents = ["tamo", "temo et tamo", "tamoul", "kefir", "ta"];
    let index = Index::new_in_memory(&documents).unwrap();
    // the dictionary: et 0, kefir 1, ta 2, tamo 3, tamoul 4, temo 5
    let terms = |word: &str, last: bool| -> Vec<(String, u64)> {
        index
            .matching_terms(word, last)
            .into_iter()
            .map(|(term, number)| (String::from_utf8(term).unwrap(), number))
            .collect()
    };
    let of = |list: &[(&str, u64)]| -> Vec<(String, u64)> {
        list.iter().map(|(term, number)| (String::from(*term), *number)).collect()
    };
    // four letters: one typo
    assert_eq!(terms("tamo", false), of(&[("tamo", 3), ("temo", 5)]));
    assert_eq!(terms("tamo", true), of(&[("tamo", 3), ("tamoul", 4), ("temo", 5)]));
    // two letters: no typo
    assert_eq!(terms("ta", false), of(&[("ta", 2)]));
    assert_eq!(terms("ta", true), of(&[("ta", 2), ("tamo", 3), ("tamoul", 4)]));
    // six letters: two typos
    assert_eq!(terms("tamoul", false), of(&[("tamo", 3), ("tamoul", 4)]));
    assert_eq!(terms("zzz", false), of(&[]));
    let mut candidate = WordCandidate::new(String::from("ta"), String::from("ta"), 0);
    index.collect_matches(&mut candidate, &index.matching_terms("ta", true), true);
    assert_eq!(slots(&candidate), vec![vec![0, 1, 2, 4], vec![], vec![], vec![]]);
}

#[test]
fn a_word_that_is_not_the_last_is_compared_with_the_whole_term() {
    let documents = ["abcd x", "abc x", "abcde x", "ab x"];
    let index = Index::new_in_memory(&documents).unwrap();
    // "abc" admits one typo: "abcd" and "ab" are one edit away
    let words = index.get_candidates(&Search::new("abc x"));
    assert_eq!(slots(&words[0]), vec![vec![1], vec![0, 3], vec![], vec![]]);
    assert_eq!(slots(&words[1]), vec![vec![0, 1, 2, 3], vec![], vec![], vec![]]);
    // as the last word, it matches every term that starts within one typo of
    // it, and what a term has beyond three letters is not counted
    let words = index.get_candidates(&Search::new("x abc"));
    assert_eq!(slots(&words[1]), vec![vec![0, 1, 2], vec![3], vec![], vec![]]);
}

#[test]
fn whole_terms_fall_into_the_slot_of_their_distance() {
    let mut candidate = WordCandidate::new(String::from("Beau"), String::from("beau"), 0);
    candidate.insert_with_typo("beau", &bitmap(&[1]));
    candidate.insert_with_typo("beaux", &bitmap(&[2]));
    candidate.insert_with_typo("beauté", &bitmap(&[3]));
    candidate.insert_with_typo("beaucoup", &bitmap(&[4]));
    candidate.insert_with_typo("bea", &bitmap(&[5]));
    assert_eq!(slots(&candidate), vec![vec![1], vec![2, 5], vec![3], vec![4]]);
}
