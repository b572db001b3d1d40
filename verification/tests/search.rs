use roaring::{MultiOps, RoaringBitmap};
use std::ops::ControlFlow;
use zearch::{Index, RankingRule, Search, Word, WordCandidate};

fn create_small_index() -> Index {
    let names = [
        "Tamo le plus beau",
        "kefir le bon petit chien",
        "kefir le beau chien",
        "tamo est très beau aussi",
        "le plus beau c'est kefir",
        "mais il est un peu con",
        "le petit kefir",
        "kefirounet se prends pour un poney",
        "kefirounet a un gros nez",
        "kefir est un demi poney",
        "le double kef",
        "les keftas c'est bon aussi",
    ];
    Index::new_in_memory(names.as_slice()).unwrap()
}

fn documents(index: &Index, ids: Vec<u32>) -> Vec<String> {
    ids.into_iter().map(|id| index.get_document(id).unwrap().to_string()).collect()
}

fn run(index: &Index, query: &str, rules: Vec<RankingRule>) -> Vec<String> {
    let mut search = Search::new(query);
    assert!(search.with_ranking_rules(rules));
    documents(index, index.search(&search))
}

#[test]
fn test_search_with_only_word() {
    let index = create_small_index();

    assert_eq!(
        run(&index, "tamo", vec![RankingRule::Word]),
        vec!["Tamo le plus beau", "tamo est très beau aussi"]
    );

    // "tamo est" was matched first and then tamo alone
    assert_eq!(
        run(&index, "tamo est", vec![RankingRule::Word]),
        vec!["tamo est très beau aussi", "Tamo le plus beau"]
    );

    // "kefir" was removed right after we found no matches for both matches
    // and thus no prefix search was ran and we missed kefirounet
    assert_eq!(
        run(&index, "beau kefir", vec![RankingRule::Word]),
        vec![
            "kefir le beau chien",
            "le plus beau c'est kefir",
            "Tamo le plus beau",
            "tamo est très beau aussi",
        ]
    );
}

fn candidate(original: &str, index: usize, typos: Vec<RoaringBitmap>) -> WordCandidate {
    WordCandidate {
        original: String::from(original),
        normalized: String::from(original),
        index,
        typos,
    }
}

#[test]
fn test_words_rr() {
    let index = Index::new_in_memory(&[]).unwrap();

    // let's say we're working with "le beau chien"
    let mut words = vec![
        // "le" should be present in a tons of documents and will be first to be evicted
        candidate("le", 0, vec![RoaringBitmap::from_sorted_iter(0..1000).unwrap()]),
        // "beau" is present in a bunch of documents but only 4 overlaps with "le"
        candidate(
            "beau",
            1,
            // where I shove my stuff must not matter
            vec![
                RoaringBitmap::from_sorted_iter(0..2).unwrap(),
                RoaringBitmap::from_sorted_iter(100..102).unwrap(),
                RoaringBitmap::from_sorted_iter(1000..1030).unwrap(),
            ],
        ),
        candidate(
            "chien",
            2,
            vec![RoaringBitmap::from_sorted_iter((1..3).chain(98..101).chain(1028..1030)).unwrap()],
        ),
    ];
    let mut rr = Word::new(&mut words);
    // after calling new, the words should be sorted from the less frequent to the most frequent one:
    let ordering: Vec<(String, u64)> = words
        .iter()
        .map(|word| (word.original.clone(), word.typos.as_slice().union().len()))
        .collect();
    assert_eq!(
        ordering,
        vec![
            (String::from("chien"), 7),
            (String::from("beau"), 34),
            (String::from("le"), 1000),
        ]
    );

    let control = rr.next(None, &mut words, &index);
    // the ranking rule should be able to continue
    assert_eq!(control, ControlFlow::Continue(()));
    // and the first bucket should only contains the union of everything
    let bucket = rr.current_results(&words);
    assert_eq!(bucket.iter().collect::<Vec<u32>>(), vec![1, 100]);

    // we should filter our candidates before doing a second call here, but just to be
    // sure it did a whole uninon between the next two words we're going to keep it
    // full. However, that should never happens in prod.
    let control = rr.next(None, &mut words, &index);
    assert_eq!(control, ControlFlow::Continue(()));
    // after running the ranking rule a second time we should have dropped the
    // less significant word: "le"
    let second_bucket = rr.current_results(&words);
    assert!(words.iter().all(|word| word.typos[0].len() != 1000));
    // The second bucket should then contains the union between "beau" and "chien"
    assert_eq!(second_bucket.iter().collect::<Vec<u32>>(), vec![1, 100, 1028, 1029]);

    // this time we're going to do our job and filter the universe before calling next
    Index::cleanup(&bucket, &mut words);
    Index::cleanup(&second_bucket, &mut words);
    let control = rr.next(None, &mut words, &index);
    assert_eq!(control, ControlFlow::Continue(()));
    // Then "beau" must be dropped
    // The third and last bucket should then contains only "chien" WITHOUT the previous returned results
    let third_bucket = rr.current_results(&words);
    assert_eq!(third_bucket.iter().collect::<Vec<u32>>(), vec![2, 98, 99]);

    // Even without proper cleanup, the words ranking rule shouldn't take a look at what is inside the candidates
    // and just drop the last one + return Break([])
    let control = rr.next(None, &mut words, &index);
    assert_eq!(control, ControlFlow::Break(RoaringBitmap::new()));
    // Doing an extraneous call to current_results shouldn't crash either
    let empty = rr.current_results(&words);
    assert_eq!(empty.iter().collect::<Vec<u32>>(), Vec::<u32>::new());
}

#[test]
fn empty_query_finds_nothing() {
    let index = create_small_index();
    assert_eq!(index.search(&Search::new("")), Vec::<u32>::new());
    assert_eq!(index.search(&Search::new("   \t\n ")), Vec::<u32>::new());
    assert_eq!(index.search(&Search::new("!!! ... ???")), Vec::<u32>::new());
    assert_eq!(run(&index, "", vec![RankingRule::Word]), Vec::<String>::new());
    assert_eq!(run(&index, "", vec![RankingRule::Typo]), Vec::<String>::new());
    assert_eq!(run(&index, "", vec![RankingRule::Word, RankingRule::Exact]), Vec::<String>::new());
}

#[test]
fn prefix_search_with_default_rules() {
    let index = create_small_index();
    // Every term that starts with "kef" matches without a typo, so the
    // documents are told apart by the distance between "kef" and their
    // first word: 2 for "kefir", "le" and "les", more than 3 for
    // "kefirounet".
    assert_eq!(index.search(&Search::new("kef")), vec![1, 2, 4, 6, 9, 10, 11, 7, 8]);
    let buckets: Vec<Vec<u32>> = index
        .ranked_buckets(&Search::new("kef"))
        .iter()
        .map(|bucket| bucket.iter().collect())
        .collect();
    assert_eq!(
        buckets,
        vec![vec![], vec![1, 2, 4, 6, 9, 10, 11], vec![7, 8], vec![], vec![], vec![], vec![]]
    );
}

#[test]
fn prefix_search_without_exact() {
    let index = create_small_index();
    let found = run(&index, "kef", vec![RankingRule::Word, RankingRule::Typo]);
    assert_eq!(
        found,
        vec![
            "kefir le bon petit chien",
            "kefir le beau chien",
            "le plus beau c'est kefir",
            "le petit kefir",
            "kefirounet se prends pour un poney",
            "kefirounet a un gros nez",
            "kefir est un demi poney",
            "le double kef",
            "les keftas c'est bon aussi",
        ]
    );
}

#[test]
fn only_the_last_word_matches_by_prefix() {
    let index = create_small_index();
    // "kef" is not the last word here: it must match a whole term, and
    // only one document holds it. "le" is the more frequent word and is
    // given up first, which leaves nothing new.
    assert_eq!(run(&index, "kef le", vec![RankingRule::Word]), vec!["le double kef"]);
    // Here "kef" is the last word: every term that starts with it counts.
    // "le" must match a whole term, so "les" does not count.
    assert_eq!(
        run(&index, "le kef", vec![RankingRule::Word]),
        vec![
            "kefir le bon petit chien",
            "kefir le beau chien",
            "le plus beau c'est kefir",
            "le petit kefir",
            "le double kef",
            "Tamo le plus beau",
        ]
    );
}

#[test]
fn limit_is_honored() {
    let index = create_small_index();
    for limit in 0..12 {
        let mut search = Search::new("le");
        search.with_limit(limit);
        let found = index.search(&search);
        assert!(found.len() <= limit);
        assert_eq!(found.len(), limit.min(7));
    }
    let mut search = Search::new("kef");
    search.with_limit(3);
    assert_eq!(index.search(&search), vec![1, 2, 4]);
    let mut search = Search::new("kef");
    search.with_limit(8);
    assert_eq!(index.search(&search), vec![1, 2, 4, 6, 9, 10, 11, 7]);
}

#[test]
fn default_search_settings() {
    let search = Search::new("tamo");
    assert_eq!(search.input(), "tamo");
    assert_eq!(search.limit(), 10);
    assert_eq!(
        search.ranking_rules(),
        &vec![RankingRule::Word, RankingRule::Typo, RankingRule::Exact]
    );
}

#[test]
fn with_limit_can_be_chained() {
    let mut search = Search::new("tamo");
    assert_eq!(search.with_limit(3).with_limit(7).limit(), 7);
    assert_eq!(search.limit(), 7);
    assert_eq!(search.input(), "tamo");
}

#[test]
fn rules_that_cannot_run_are_turned_down() {
    let mut search = Search::new("tamo");
    assert!(!search.with_ranking_rules(vec![]));
    assert!(!search.with_ranking_rules(vec![RankingRule::Exact]));
    assert!(!search.with_ranking_rules(vec![RankingRule::Exact, RankingRule::Word]));
    assert_eq!(
        search.ranking_rules(),
        &vec![RankingRule::Word, RankingRule::Typo, RankingRule::Exact]
    );
    assert!(search.with_ranking_rules(vec![RankingRule::Typo, RankingRule::Exact]));
    assert_eq!(search.ranking_rules(), &vec![RankingRule::Typo, RankingRule::Exact]);
    assert_eq!(search.limit(), 10);
}

#[test]
fn buckets_are_disjoint_and_within_the_candidates() {
    let index = create_small_index();
    for query in ["kef", "le beau chien", "tamo est", "kefir poney", "un peu con", "petit"] {
        for rules in [
            vec![RankingRule::Word],
            vec![RankingRule::Typo],
            vec![RankingRule::Word, RankingRule::Typo],
            vec![RankingRule::Typo, RankingRule::Word],
            vec![RankingRule::Word, RankingRule::Typo, RankingRule::Exact],
            vec![RankingRule::Word, RankingRule::Exact],
            vec![RankingRule::Typo, RankingRule::Exact, RankingRule::Exact],
            vec![RankingRule::Typo, RankingRule::Typo],
        ] {
            let mut search = Search::new(query);
            assert!(search.with_ranking_rules(rules));
            search.with_limit(100);
            let universe: RoaringBitmap = index
                .get_candidates(&search)
                .iter()
                .map(|word| word.typos.as_slice().union())
                .union();
            let buckets = index.ranked_buckets(&search);
            let mut seen = RoaringBitmap::new();
            for bucket in buckets.iter() {
                assert!(bucket.is_disjoint(&seen));
                assert!(bucket.is_subset(&universe));
                seen |= bucket;
            }
            let found = index.search(&search);
            assert_eq!(found.len() as u64, seen.len());
        }
    }
}

#[test]
fn typos_are_ranked_after_exact_matches() {
    let documents = ["kefir", "kefyr", "kafyr", "tamo"];
    let index = Index::new_in_memory(documents.as_slice()).unwrap();
    assert_eq!(
        run(&index, "kefir", vec![RankingRule::Word, RankingRule::Typo]),
        vec!["kefir", "kefyr"]
    );
    // ten letters: three typos are admitted
    let documents = ["kefirounet", "kefirounat", "kefiraunat", "kafiraunat", "kafiraunad"];
    let index = Index::new_in_memory(documents.as_slice()).unwrap();
    let mut search = Search::new("kefirounet");
    assert!(search.with_ranking_rules(vec![RankingRule::Typo]));
    let buckets: Vec<Vec<u32>> =
        index.ranked_buckets(&search).iter().map(|bucket| bucket.iter().collect()).collect();
    assert_eq!(buckets, vec![vec![], vec![0], vec![1], vec![2]]);
    let mut search = Search::new("kefirounet");
    // The `Typo` rule never admits the last slot, so a document that
    // needs three typos is found by the `Word` rule only.
    assert!(search.with_ranking_rules(vec![RankingRule::Word, RankingRule::Typo]));
    assert_eq!(index.search(&search), vec![0, 1, 2]);
    let mut search = Search::new("kefirounet");
    assert!(search.with_ranking_rules(vec![RankingRule::Word]));
    assert_eq!(index.search(&search), vec![0, 1, 2, 3]);
}

#[test]
fn deep_stacks_of_rules_come_to_an_end() {
    let index = create_small_index();
    let stacks = [
        vec![RankingRule::Typo; 5],
        vec![RankingRule::Word; 4],
        vec![RankingRule::Typo, RankingRule::Word, RankingRule::Typo, RankingRule::Word],
        vec![RankingRule::Word, RankingRule::Exact, RankingRule::Typo, RankingRule::Exact],
    ];
    for rules in stacks {
        let mut search = Search::new("le petit kefir poney");
        assert!(search.with_ranking_rules(rules));
        search.with_limit(usize::MAX);
        let found = index.search(&search);
        let mut sorted = found.clone();
        sorted.sort();
        sorted.dedup();
        assert_eq!(sorted.len(), found.len());
        assert!(found.len() <= 12);
    }
}

#[test]
fn fewer_typos_come_first() {
    // the documents match both words; the worst word of each needs 0, 1, 1 and 2 typos
    let documents =
        ["kefirs poneys", "kefirs ponays", "kafirs poneys", "kafars poneys", "tamo"];
    let index = Index::new_in_memory(documents.as_slice()).unwrap();
    let mut search = Search::new("kefirs poneys");
    assert!(search.with_ranking_rules(vec![RankingRule::Word, RankingRule::Typo]));
    let buckets: Vec<Vec<u32>> =
        index.ranked_buckets(&search).iter().map(|bucket| bucket.iter().collect()).collect();
    assert_eq!(buckets[..4], [vec![], vec![0], vec![1, 2], vec![3]]);
    assert_eq!(index.search(&search), vec![0, 1, 2, 3]);
}
