//! The index: the documents, the posting bitmaps and the term dictionary.

use crate::bitmap::{bitmap_from_bytes, bitmap_set, bitmap_sets, bitmap_wf, bitmaps_wf};
use crate::candidate::{
    candidates_sound, candidates_universe, candidates_view, empty_candidate, CandidateView, WordCandidate, MAX_TYPOS,
};
use crate::dictionary::{
    all_in_dictionary, automaton_builder, image_header_fits, automaton_radius, dictionary_entries, dictionary_sound,
    entries_view, fst_entries, fst_load, fst_search, fst_search_prefix,
    lemma_entries_map_lookup, terms_with_prefix_within, terms_within,
};
use levenshtein_automata::LevenshteinAutomatonBuilder;
use crate::search::Search;
use crate::text::{normalize, normalize_spec, split_whitespace, strings_view, tokens};
use roaring::RoaringBitmap;
use crate::wire::{image_reliable, parse_bitmaps, parse_documents, parse_index, parse_parts};
use vstd::prelude::*;
use vstd::slice::slice_to_vec;
use vstd::string::{StrSliceExecFns, StringSliceAdditionalSpecFns};
use vstd::utf8::{decode_utf8, encode_utf8_decode_utf8, valid_utf8};

verus! {

/// A searchable collection of documents.
pub struct Index {
    documents: Vec<String>,
    bitmaps: Vec<RoaringBitmap>,
    fst: fst::Map<Vec<u8>>,
    // The builders of automata, one for each number of typos that a word
    // can be admitted; they are costly to make and are made once, when the
    // index is loaded, for all the searches in it.
    automata: Vec<LevenshteinAutomatonBuilder>,
}

/// The mathematical content of an [`Index`].
pub struct IndexView {
    /// The documents; a document's identifier is its place in this list.
    pub documents: Seq<Seq<char>>,
    /// The posting sets, by their number.
    pub postings: Seq<Set<u32>>,
    /// The term dictionary: from a term to the number of its posting set.
    pub dictionary: Map<Seq<u8>, u64>,
}

impl IndexView {
    /// An index is well formed when every posting names a document that
    /// exists, and every term of the dictionary is valid UTF-8 and leads to
    /// a posting set that exists.
    pub open spec fn wf(self) -> bool {
        &&& forall|i: int, id: u32|
            0 <= i < self.postings.len() && #[trigger] self.postings[i].contains(id) ==> id
                < self.documents.len()
        &&& forall|term: Seq<u8>| #[trigger]
            self.dictionary.dom().contains(term) ==> valid_utf8(term) && self.dictionary[term]
                < self.postings.len()
    }
}

/// The plain values of a list of pairs of strings.
pub open spec fn pairs_view(pairs: Seq<(String, String)>) -> Seq<(Seq<char>, Seq<char>)> {
    Seq::new(pairs.len(), |i: int| (pairs[i].0@, pairs[i].1@))
}

/// The words of a query that count: each word as typed, with its normal
/// form, for the words whose normal form is not empty.
pub open spec fn query_words(words: Seq<Seq<char>>) -> Seq<(Seq<char>, Seq<char>)>
    decreases words.len(),
{
    if words.len() == 0 {
        Seq::empty()
    } else {
        let normalized = normalize_spec(words.last());
        if normalized.len() > 0 {
            query_words(words.drop_last()).push((words.last(), normalized))
        } else {
            query_words(words.drop_last())
        }
    }
}

/// The number of typos admitted for a word: one for every three
/// characters of its normal form, and three at most.
pub open spec fn radius_of(normalized: Seq<char>) -> u8 {
    if normalized.len() / 3 < 3 {
        (normalized.len() / 3) as u8
    } else {
        3
    }
}

/// A candidate after the documents of each matched term have joined it.
/// `last` tells whether the candidate is the last word of the query,
/// whose terms are matched by their beginning.
pub open spec fn add_matches(
    candidate: CandidateView,
    matches: Seq<(Seq<u8>, u64)>,
    postings: Seq<Set<u32>>,
    last: bool,
) -> CandidateView
    decreases matches.len(),
{
    if matches.len() == 0 {
        candidate
    } else {
        add_matches(candidate, matches.drop_last(), postings, last).with_match(
            decode_utf8(matches.last().0),
            postings[matches.last().1 as int],
            last,
        )
    }
}

/// The terms of the dictionary that are looked at for a word: those within
/// the word's radius, and for the last word of a query those that have a
/// prefix within it.
pub open spec fn matched_terms(index: IndexView, normalized: Seq<char>, last: bool) -> Seq<
    (Seq<u8>, u64),
> {
    if last {
        terms_with_prefix_within(index.dictionary, normalized, radius_of(normalized))
    } else {
        terms_within(index.dictionary, normalized, radius_of(normalized))
    }
}

/// The candidates of a list of query words, in the order of the words.
pub open spec fn candidates_of(index: IndexView, words: Seq<(Seq<char>, Seq<char>)>) -> Seq<
    CandidateView,
> {
    Seq::new(
        words.len(),
        |i: int|
            add_matches(
                empty_candidate(words[i].0, words[i].1, i as nat),
                matched_terms(index, words[i].1, i == words.len() - 1),
                index.postings,
                i == words.len() - 1,
            ),
    )
}

/// The candidates of a query.
pub open spec fn query_candidates(index: IndexView, input: Seq<char>) -> Seq<CandidateView> {
    candidates_of(index, query_words(tokens(input)))
}

/// Whether the terms that are looked at for each word of a query are
/// entries of the index's dictionary, so that every document in a slot of
/// a candidate holds a term that was matched for the word.
pub open spec fn matches_in_dictionary(index: IndexView, words: Seq<(Seq<char>, Seq<char>)>) -> bool {
    forall|i: int|
        0 <= i < words.len() ==> all_in_dictionary(
            #[trigger] word_matches(index, words, i),
            index.dictionary,
        )
}

/// The terms of the dictionary that are looked at for the word at place
/// `at` of a query.
pub open spec fn word_matches(index: IndexView, words: Seq<(Seq<char>, Seq<char>)>, at: int) -> Seq<
    (Seq<u8>, u64),
> {
    matched_terms(index, words[at].1, at == words.len() - 1)
}

/// Whether no candidate names a document beyond the first `documents`.
pub open spec fn candidates_bounded(words: Seq<CandidateView>, documents: nat) -> bool {
    forall|id: u32| #[trigger] candidates_universe(words).contains(id) ==> id < documents
}

/// Matches that are entries of a well-formed index bring only documents
/// that exist.
pub proof fn lemma_add_matches_bounded(
    index: IndexView,
    candidate: CandidateView,
    matches: Seq<(Seq<u8>, u64)>,
    last: bool,
)
    requires
        index.wf(),
        candidate.typos.len() == MAX_TYPOS + 1,
        all_in_dictionary(matches, index.dictionary),
        forall|id: u32| candidate.universe().contains(id) ==> id < index.documents.len(),
    ensures
        add_matches(candidate, matches, index.postings, last).typos.len() == candidate.typos.len(),
        forall|id: u32|
            add_matches(candidate, matches, index.postings, last).universe().contains(id) ==> id
                < index.documents.len(),
    decreases matches.len(),
{
    if matches.len() > 0 {
        let head = matches.drop_last();
        assert(all_in_dictionary(head, index.dictionary)) by {
            assert forall|i: int| 0 <= i < head.len() implies index.dictionary.contains_pair(
                (#[trigger] head[i]).0,
                head[i].1,
            ) by {
                assert(head[i] == matches[i]);
            }
        }
        lemma_add_matches_bounded(index, candidate, head, last);
        let before = add_matches(candidate, head, index.postings, last);
        let after = add_matches(candidate, matches, index.postings, last);
        let last = matches[matches.len() - 1];
        assert(index.dictionary.contains_pair(last.0, last.1));
        assert(index.dictionary.dom().contains(last.0));
        let posting = index.postings[last.1 as int];
        assert forall|id: u32| after.universe().contains(id) implies id
            < index.documents.len() by {
            let k = choose|k: int| 0 <= k < after.typos.len() && #[trigger] after.typos[k].contains(id);
            if k < before.typos.len() && before.typos[k].contains(id) {
                assert(before.universe().contains(id));
            } else {
                assert(posting.contains(id));
            }
        }
    }
}

impl View for Index {
    type V = IndexView;

    closed spec fn view(&self) -> IndexView {
        IndexView {
            documents: strings_view(self.documents@),
            postings: bitmap_sets(self.bitmaps@),
            dictionary: dictionary_entries(self.fst),
        }
    }
}

impl Index {
    /// Every index is well formed: see [`IndexView::wf`]. Its bitmaps are
    /// well formed, its dictionary reads without failure, and it holds
    /// the builder of automata for each number of typos from zero to
    /// three.
    #[verifier::type_invariant]
    pub closed spec fn well_formed(self) -> bool {
        &&& self@.wf()
        &&& bitmaps_wf(self.bitmaps@)
        &&& dictionary_sound(self.fst)
        &&& self.automata@.len() == MAX_TYPOS + 1
        &&& forall|radius: int|
            0 <= radius < self.automata@.len() ==> automaton_radius(
                #[trigger] self.automata@[radius],
            ) == radius
    }

    /// Brings to light that the index is well formed.
    fn check_well_formed(&self)
        ensures
            self.well_formed(),
            self@.wf(),
    {
        proof {
            use_type_invariant(self);
        }
    }

    /// Reads `count` documents from the front of `bytes` and moves `bytes`
    /// behind them.
    fn read_documents(bytes: &mut &[u8], count: u32) -> (r: Option<Vec<String>>)
        ensures
            match r {
                Some(documents) => documents@.len() == count && parse_documents(
                    old(bytes)@,
                    count as nat,
                ) == Some((strings_view(documents@), final(bytes)@)),
                None => parse_documents(old(bytes)@, count as nat) is None,
            },
    {
        let ghost start = bytes@;
        let mut documents: Vec<String> = Vec::new();
        let mut read: u32 = 0;
        while read < count
            invariant
                start == old(bytes)@,
                read <= count,
                documents@.len() == read,
                parse_documents(start, count as nat) == (match parse_documents(
                    bytes@,
                    (count - read) as nat,
                ) {
                    Some((more, left)) => Some((strings_view(documents@) + more, left)),
                    None => None,
                }),
            decreases count - read,
        {
            let ghost before = strings_view(documents@);
            match Index::read_slice_from_bytes(bytes) {
                Some(raw) => match core::str::from_utf8(raw) {
                    Ok(document) => {
                        proof {
                            encode_utf8_decode_utf8(document@);
                        }
                        documents.push(document.to_owned());
                        proof {
                            assert(strings_view(documents@) == before.push(decode_utf8(raw@)));
                            match parse_documents(bytes@, (count - read - 1) as nat) {
                                Some((more, end)) => {
                                    assert(before + (seq![decode_utf8(raw@)] + more)
                                        == before.push(decode_utf8(raw@)) + more);
                                },
                                None => {},
                            }
                        }
                    },
                    Err(_) => {
                        return None;
                    },
                },
                None => {
                    return None;
                },
            }
            read = read + 1;
        }
        assert(strings_view(documents@) + Seq::<Seq<char>>::empty() == strings_view(documents@));
        Some(documents)
    }

    /// Reads `count` bitmaps from the front of `bytes` and moves `bytes`
    /// behind them.
    fn read_bitmaps(bytes: &mut &[u8], count: u32) -> (r: Option<Vec<RoaringBitmap>>)
        ensures
            match r {
                Some(bitmaps) => bitmaps_wf(bitmaps@) && parse_bitmaps(old(bytes)@, count as nat)
                    == Some((bitmap_sets(bitmaps@), final(bytes)@)),
                None => parse_bitmaps(old(bytes)@, count as nat) is None,
            },
    {
        let ghost start = bytes@;
        let mut bitmaps: Vec<RoaringBitmap> = Vec::new();
        let mut read: u32 = 0;
        while read < count
            invariant
                bitmaps_wf(bitmaps@),
                start == old(bytes)@,
                read <= count,
                parse_bitmaps(start, count as nat) == (match parse_bitmaps(
                    bytes@,
                    (count - read) as nat,
                ) {
                    Some((more, left)) => Some((bitmap_sets(bitmaps@) + more, left)),
                    None => None,
                }),
            decreases count - read,
        {
            let ghost before = bitmap_sets(bitmaps@);
            match bitmap_from_bytes(*bytes) {
                Some((bitmap, left)) => {
                    bitmaps.push(bitmap);
                    proof {
                        assert(bitmap_sets(bitmaps@) == before.push(bitmap_set(bitmap)));
                        match parse_bitmaps(left@, (count - read - 1) as nat) {
                            Some((more, end)) => {
                                assert(before + (seq![bitmap_set(bitmap)] + more) == before.push(
                                    bitmap_set(bitmap),
                                ) + more);
                            },
                            None => {},
                        }
                    }
                    *bytes = left;
                },
                None => {
                    return None;
                },
            }
            read = read + 1;
        }
        assert(bitmap_sets(bitmaps@) + Seq::<Set<u32>>::empty() == bitmap_sets(bitmaps@));
        Some(bitmaps)
    }

    /// Tells whether every posting names a document that exists.
    pub fn postings_in_range(bitmaps: &Vec<RoaringBitmap>, documents: usize) -> (r: bool)
        requires
            bitmaps_wf(bitmaps@),
        ensures
            r == (forall|i: int, id: u32|
                0 <= i < bitmaps@.len() && #[trigger] bitmap_sets(bitmaps@)[i].contains(id) ==> id
                    < documents),
    {
        for n in 0..bitmaps.len()
            invariant
                bitmaps_wf(bitmaps@),
                forall|i: int, id: u32|
                    0 <= i < n && #[trigger] bitmap_sets(bitmaps@)[i].contains(id) ==> id
                        < documents,
        {
            match bitmaps[n].max() {
                Some(greatest) => {
                    if greatest as usize >= documents {
                        assert(bitmap_sets(bitmaps@)[n as int].contains(greatest));
                        return false;
                    }
                },
                None => {},
            }
        }
        true
    }

    /// Tells whether every term of a list of dictionary entries is valid
    /// UTF-8 and has a number below `postings`.
    pub fn entries_in_range(entries: &Vec<(Vec<u8>, u64)>, postings: usize) -> (r: bool)
        ensures
            r == (forall|i: int|
                0 <= i < entries@.len() ==> valid_utf8((#[trigger] entries@[i]).0@) && entries@[i].1
                    < postings),
    {
        for n in 0..entries.len()
            invariant
                forall|i: int|
                    0 <= i < n ==> valid_utf8((#[trigger] entries@[i]).0@) && entries@[i].1
                        < postings,
        {
            if entries[n].1 >= postings as u64 {
                return false;
            }
            match core::str::from_utf8(entries[n].0.as_slice()) {
                Ok(_) => {},
                Err(_) => {
                    return false;
                },
            }
        }
        true
    }

    /// Tells whether every term of the dictionary is valid UTF-8 and leads
    /// to a posting set that exists.
    fn dictionary_in_range(dictionary: &fst::Map<Vec<u8>>, postings: usize) -> (r: bool)
        requires
            dictionary_sound(*dictionary),
        ensures
            r == (forall|term: Seq<u8>| #[trigger]
                dictionary_entries(*dictionary).dom().contains(term) ==> valid_utf8(term)
                    && dictionary_entries(*dictionary)[term] < postings),
    {
        let entries = fst_entries(dictionary);
        let r = Index::entries_in_range(&entries, postings);
        proof {
            let listed = entries_view(entries@);
            if r {
                assert forall|term: Seq<u8>| #[trigger]
                    dictionary_entries(*dictionary).dom().contains(term) implies valid_utf8(term)
                    && dictionary_entries(*dictionary)[term] < postings by {
                    let i = choose|i: int|
                        0 <= i < listed.len() && (#[trigger] listed[i]).0 == term;
                    lemma_entries_map_lookup(listed, i);
                    assert(listed[i] == (entries@[i].0@, entries@[i].1));
                }
            } else {
                let i = choose|i: int|
                    0 <= i < entries@.len() && !(valid_utf8((#[trigger] entries@[i]).0@)
                        && entries@[i].1 < postings);
                lemma_entries_map_lookup(listed, i);
                assert(listed[i] == (entries@[i].0@, entries@[i].1));
                assert(dictionary_entries(*dictionary).dom().contains(listed[i].0));
            }
        }
        r
    }

    /// Loads an index from its wire format. Nothing is returned when the
    /// input ends too early, a document is not valid UTF-8, a bitmap cannot
    /// be read, the dictionary image is not accepted or holds numbers that
    /// this machine cannot hold, a posting names a document that does not
    /// exist, or a term of the dictionary is not valid UTF-8 or leads to no
    /// posting set.
    ///
    /// Header, size and checksum of the dictionary image are checked here.
    /// That an image which passes is a valid transducer cannot be checked;
    /// the caller sees to it, as [`image_reliable`] says. What
    /// [`Index::construct`] writes is reliable, and [`Index::new_in_memory`]
    /// loads only that.
    pub fn from_bytes(bytes: &[u8]) -> (r: Option<Index>)
        requires
            image_reliable(bytes@),
        ensures
            match r {
                Some(index) => parse_index(bytes@) == Some(index@) && index@.wf(),
                None => parse_index(bytes@) is None,
            },
    {
        let ghost blob = bytes@;
        let mut bytes = bytes;
        let document_count = match Index::read_size_from_bytes(&mut bytes) {
            Some(count) => count,
            None => {
                return None;
            },
        };
        let documents = match Index::read_documents(&mut bytes, document_count) {
            Some(documents) => documents,
            None => {
                return None;
            },
        };
        let bitmap_count = match Index::read_size_from_bytes(&mut bytes) {
            Some(count) => count,
            None => {
                return None;
            },
        };
        let bitmaps = match Index::read_bitmaps(&mut bytes, bitmap_count) {
            Some(bitmaps) => bitmaps,
            None => {
                return None;
            },
        };
        let image = match Index::read_slice_from_bytes(&mut bytes) {
            Some(image) => image,
            None => {
                return None;
            },
        };
        assert(parse_parts(blob) == Some(
            (strings_view(documents@), bitmap_sets(bitmaps@), image@, bytes@),
        ));
        if !image_header_fits(image) {
            return None;
        }
        let fst = match fst_load(slice_to_vec(image)) {
            Some(fst) => fst,
            None => {
                return None;
            },
        };
        assert(dictionary_sound(fst));
        let ghost view = IndexView {
            documents: strings_view(documents@),
            postings: bitmap_sets(bitmaps@),
            dictionary: dictionary_entries(fst),
        };
        if !Index::postings_in_range(&bitmaps, documents.len()) {
            proof {
                if view.wf() {
                    assert forall|i: int, id: u32|
                        0 <= i < bitmaps@.len() && #[trigger] bitmap_sets(bitmaps@)[i].contains(
                            id,
                        ) implies id < documents@.len() by {
                        assert(view.postings[i].contains(id));
                    }
                }
            }
            return None;
        }
        if !Index::dictionary_in_range(&fst, bitmaps.len()) {
            proof {
                if view.wf() {
                    assert forall|term: Seq<u8>| #[trigger]
                        dictionary_entries(fst).dom().contains(term) implies valid_utf8(term)
                        && dictionary_entries(fst)[term] < bitmaps@.len() by {
                        assert(view.dictionary.dom().contains(term));
                    }
                }
            }
            return None;
        }
        let mut automata: Vec<LevenshteinAutomatonBuilder> = Vec::new();
        let mut radius: u8 = 0;
        while radius <= 3
            invariant
                radius <= 4,
                automata@.len() == radius,
                forall|made: int|
                    0 <= made < automata@.len() ==> automaton_radius(#[trigger] automata@[made])
                        == made,
            decreases 4 - radius,
        {
            automata.push(automaton_builder(radius));
            radius = radius + 1;
        }
        Some(Index { documents, bitmaps, fst, automata })
    }

    /// Turns an index into one that owns all of its data. An index of this
    /// library always does, so this gives the index back as it is.
    pub fn move_in_memory(self) -> (r: Index)
        ensures
            r@ == self@,
    {
        self
    }

    /// The entries of the dictionary that are looked at for a word in
    /// normal form: those whose term lies within the word's radius, which
    /// is one typo for every three characters and three at most. For the
    /// last word of a query, the terms that have a beginning within the
    /// radius count too.
    pub fn matching_terms(&self, normalized: &str, last: bool) -> (r: Vec<(Vec<u8>, u64)>)
        ensures
            entries_view(r@) == matched_terms(self@, normalized@, last),
            all_in_dictionary(entries_view(r@), self@.dictionary),
    {
        self.check_well_formed();
        let length = normalized.unicode_len();
        let radius: usize = if length / 3 < 3 {
            length / 3
        } else {
            3
        };
        assert(automaton_radius(self.automata@[radius as int]) == radius_of(normalized@));
        if last {
            fst_search_prefix(&self.fst, &self.automata[radius], normalized)
        } else {
            fst_search(&self.fst, &self.automata[radius], normalized)
        }
    }

    /// Adds to `candidate` the documents of each matched term: for every
    /// entry of `matches`, in their order, the posting set that the entry
    /// names joins the slot that the distance between the word and the
    /// entry's term calls for. The word is compared with the whole term;
    /// for the last word of a query, whose terms are matched by their
    /// beginning, the term is first cut to the length of the word. The
    /// entries must be entries of the index's dictionary, as
    /// [`Index::matching_terms`] gives them.
    pub fn collect_matches(
        &self,
        candidate: &mut WordCandidate,
        matches: &Vec<(Vec<u8>, u64)>,
        last: bool,
    )
        requires
            old(candidate).wf(),
            old(candidate).sound(),
            all_in_dictionary(entries_view(matches@), self@.dictionary),
        ensures
            final(candidate).wf(),
            final(candidate).sound(),
            final(candidate)@ == add_matches(
                old(candidate)@,
                entries_view(matches@),
                self@.postings,
                last,
            ),
    {
        self.check_well_formed();
        for n in 0..matches.len()
            invariant
                self.well_formed(),
                candidate.wf(),
                candidate.sound(),
                all_in_dictionary(entries_view(matches@), self@.dictionary),
                candidate@ == add_matches(
                    old(candidate)@,
                    entries_view(matches@).take(n as int),
                    self@.postings,
                    last,
                ),
        {
            let ghost found = entries_view(matches@);
            proof {
                assert(found.take(n + 1).drop_last() == found.take(n as int));
                assert(found.take(n + 1).last() == found[n as int]);
                assert(self@.dictionary.contains_pair(found[n as int].0, found[n as int].1));
                assert(self@.dictionary.dom().contains(found[n as int].0));
            }
            let id = matches[n].1;
            assert(found[n as int] == (matches@[n as int].0@, id));
            match core::str::from_utf8(matches[n].0.as_slice()) {
                Ok(term) => {
                    proof {
                        encode_utf8_decode_utf8(term@);
                    }
                    let count = self.bitmaps.len();
                    assert(id < count);
                    assert(bitmap_wf(self.bitmaps@[id as int]));
                    if last {
                        candidate.insert_with_maybe_typo(term, &self.bitmaps[id as usize]);
                    } else {
                        candidate.insert_with_typo(term, &self.bitmaps[id as usize]);
                    }
                },
                Err(_) => {},
            }
        }
        proof {
            assert(entries_view(matches@).take(matches@.len() as int) == entries_view(matches@));
        }
    }

    /// The candidates of a query: one for each word whose normal form is
    /// not empty, in the order of the words. Each holds the documents of
    /// the dictionary terms that lie within the word's radius, sorted into
    /// slots by the distance between the word and the term. For the last
    /// word, terms that merely start like the word count too, and what
    /// such a term has beyond the word's length is not counted as typos.
    pub fn get_candidates(&self, search: &Search) -> (r: Vec<WordCandidate>)
        ensures
            candidates_view(r@) == query_candidates(self@, search@.input),
            forall|i: int| 0 <= i < r@.len() ==> (#[trigger] r@[i]).wf(),
            candidates_sound(r@),
            candidates_bounded(candidates_view(r@), self@.documents.len()),
            matches_in_dictionary(self@, query_words(tokens(search@.input))),
    {
        self.check_well_formed();
        let typed = split_whitespace(search.input());
        let mut words: Vec<(String, String)> = Vec::new();
        for i in 0..typed.len()
            invariant
                strings_view(typed@) == tokens(search@.input),
                pairs_view(words@) == query_words(tokens(search@.input).take(i as int)),
        {
            proof {
                let all = tokens(search@.input);
                assert(all.take(i + 1).drop_last() == all.take(i as int));
                assert(all.take(i + 1).last() == typed@[i as int]@);
            }
            let normalized = normalize(typed[i].as_str());
            if !normalized.as_str().is_empty() {
                let ghost before = pairs_view(words@);
                words.push((typed[i].clone(), normalized));
                assert(pairs_view(words@) == before.push((typed@[i as int]@, normalized@)));
            }
        }
        proof {
            let all = tokens(search@.input);
            assert(all.take(all.len() as int) == all);
        }
        let ghost wanted = query_words(tokens(search@.input));
        let mut ret: Vec<WordCandidate> = Vec::new();
        let count = words.len();
        for i in 0..count
            invariant
                self@.wf(),
                count == words@.len(),
                pairs_view(words@) == wanted,
                ret@.len() == i,
                candidates_sound(ret@),
                forall|k: int| 0 <= k < i ==> (#[trigger] ret@[k]).wf(),
                forall|k: int|
                    0 <= k < i ==> (#[trigger] ret@[k])@ == candidates_of(self@, wanted)[k],
                forall|k: int, id: u32|
                    0 <= k < i && #[trigger] ret@[k]@.universe().contains(id) ==> id
                        < self@.documents.len(),
                forall|k: int|
                    0 <= k < i ==> all_in_dictionary(
                        #[trigger] word_matches(self@, wanted, k),
                        self@.dictionary,
                    ),
        {
            assert(pairs_view(words@)[i as int] == (words@[i as int].0@, words@[i as int].1@));
            let mut candidate = WordCandidate::new(words[i].0.clone(), words[i].1.clone(), i);
            assert forall|id: u32| candidate@.universe().contains(id) implies id
                < self@.documents.len() by {
                let k = choose|k: int|
                    0 <= k < candidate@.typos.len() && #[trigger] candidate@.typos[k].contains(id);
            }
            let ghost empty = candidate@;
            let last = i == count - 1;
            let matches = self.matching_terms(words[i].1.as_str(), last);
            self.collect_matches(&mut candidate, &matches, last);
            proof {
                lemma_add_matches_bounded(self@, empty, entries_view(matches@), last);
            }
            let ghost made = ret@;
            ret.push(candidate);
            assert(candidates_sound(ret@)) by {
                assert forall|k: int| 0 <= k < ret@.len() implies (#[trigger] ret@[k]).sound() by {
                    if k < made.len() {
                        assert(ret@[k] == made[k]);
                    }
                }
            }
        }
        proof {
            assert(candidates_view(ret@) == candidates_of(self@, wanted));
            assert forall|id: u32| #[trigger]
                candidates_universe(candidates_view(ret@)).contains(id) implies id
                < self@.documents.len() by {
                let k = choose|k: int|
                    0 <= k < candidates_view(ret@).len() && (#[trigger] candidates_view(
                        ret@,
                    )[k]).universe().contains(id);
                assert(ret@[k]@.universe().contains(id));
            }
        }
        ret
    }

    /// The document with the given identifier, if there is one.
    pub fn get_document(&self, id: u32) -> (r: Option<&str>)
        ensures
            match r {
                Some(document) => id < self@.documents.len() && document@ == self@.documents[id as int],
                None => id >= self@.documents.len(),
            },
    {
        if (id as usize) < self.documents.len() {
            Some(self.documents[id as usize].as_str())
        } else {
            None
        }
    }
}

} // verus!
