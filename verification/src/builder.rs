//! Building an index from documents and writing it in the wire format.

use crate::bitmap::{bitmap_sets, bitmap_to_bytes, bitmap_wf, bitmaps_wf, roaring_decode};
use crate::dictionary::{
    entries_map, entries_view, fst_build, fst_image, lemma_entries_map_lookup,
    lemma_lex_lt_asymmetric, lemma_lex_lt_transitive, lex_lt, strictly_increasing, term_rank,
};
use crate::driver::{search_buckets, search_results};
use crate::index::{Index, IndexView};
use crate::search::SearchView;
use crate::sorting::{occurrences_view, ordered_by_term, sort_by_term, Occurrence};
use crate::text::{normalize, normalize_spec, split_whitespace, strings_view, tokens};
use crate::wire::{
    be32, lemma_be32_round_trip, lemma_parse_bitmaps_step, lemma_parse_documents_step,
    cut_is_no_index, image_reliable, lemma_cut_slice, lemma_parse_bitmaps_fails_on,
    lemma_parse_bitmaps_stuck, lemma_parse_documents_fails_on, lemma_parse_documents_stuck,
    lemma_slice_round_trip, no_cut_is_an_index, nothing_follows, parse_bitmaps, parse_documents, parse_index,
    parse_parts,
};
use roaring::RoaringBitmap;
use vstd::prelude::*;
use vstd::string::{StrSliceExecFns, StringSliceAdditionalSpecFns};
use vstd::utf8::{encode_utf8, encode_utf8_decode_utf8, encode_utf8_valid_utf8, valid_utf8};

verus! {

/// The character sequences of a list of string slices.
pub open spec fn strs_view(documents: Seq<&str>) -> Seq<Seq<char>> {
    Seq::new(documents.len(), |i: int| documents[i]@)
}

/// The bytes of the normal form of a word. A word is filed under them as
/// its term, unless they are empty: a word of which normalization leaves
/// nothing is not filed.
pub open spec fn term_of(word: Seq<char>) -> Seq<u8> {
    encode_utf8(normalize_spec(word))
}

/// The bytes of the normal forms of a list of words, word by word.
pub open spec fn terms_of(words: Seq<Seq<char>>) -> Seq<Seq<u8>> {
    Seq::new(words.len(), |i: int| term_of(words[i]))
}

/// Whether a document holds a word that is filed under `term`: the term
/// is not empty and is what normalization leaves of a word of the
/// document.
pub open spec fn holds_term(document: Seq<char>, term: Seq<u8>) -> bool {
    term.len() > 0 && terms_of(tokens(document)).contains(term)
}

/// Whether the document with the given identifier exists and holds a word
/// that is filed under `term`.
pub open spec fn occurs(documents: Seq<Seq<char>>, term: Seq<u8>, id: u32) -> bool {
    id < documents.len() && holds_term(documents[id as int], term)
}

/// Whether a list of occurrences names the term with the document.
pub open spec fn lists(occurrences: Seq<(Seq<u8>, u32)>, term: Seq<u8>, id: u32) -> bool {
    occurrences.contains((term, id))
}

/// Whether `index` is the index of the documents: it holds the documents,
/// its dictionary holds the terms of their words and no others, the
/// posting set of a term holds the documents that the term occurs in and
/// no others, the terms are numbered in their lexicographic order, and
/// every posting set belongs to a term.
pub open spec fn is_index_of(index: IndexView, documents: Seq<Seq<char>>) -> bool {
    &&& index.wf()
    &&& index.documents == documents
    &&& forall|term: Seq<u8>| #[trigger]
        index.dictionary.dom().contains(term) <==> occurs_somewhere(documents, term)
    &&& forall|term: Seq<u8>, id: u32|
        index.dictionary.dom().contains(term) ==> (#[trigger] index.postings[index.dictionary[term] as int].contains(
            id,
        ) <==> occurs(documents, term, id))
    &&& forall|first: Seq<u8>, second: Seq<u8>|
        index.dictionary.dom().contains(first) && index.dictionary.dom().contains(second)
            && #[trigger] lex_lt(first, second) ==> index.dictionary[first]
            < index.dictionary[second]
    &&& forall|i: int| 0 <= i < index.postings.len() ==> #[trigger] has_number(index.dictionary, i)
}

/// Whether a term of the dictionary has the given number.
pub open spec fn has_number(dictionary: Map<Seq<u8>, u64>, number: int) -> bool {
    exists|term: Seq<u8>| #[trigger] dictionary.dom().contains(term) && dictionary[term] == number
}

/// Whether some document holds a word that is filed under `term`.
pub open spec fn occurs_somewhere(documents: Seq<Seq<char>>, term: Seq<u8>) -> bool {
    exists|id: u32| #[trigger] occurs(documents, term, id)
}

/// Whether `term` is the key of an entry.
pub open spec fn has_key(entries: Seq<(Seq<u8>, u64)>, term: Seq<u8>) -> bool {
    exists|i: int| 0 <= i < entries.len() && (#[trigger] entries[i]).0 == term
}

/// Whether the entries come in the order of their keys and are numbered
/// from zero.
pub open spec fn sorted_and_numbered(entries: Seq<(Seq<u8>, u64)>) -> bool {
    &&& strictly_increasing(entries)
    &&& forall|i: int| 0 <= i < entries.len() ==> (#[trigger] entries[i]).1 == i
}

/// Whether `entries` is the dictionary of the documents: the terms that
/// occur in them, in their lexicographic order, numbered from zero.
pub open spec fn is_dictionary_of(entries: Seq<(Seq<u8>, u64)>, documents: Seq<Seq<char>>) -> bool {
    &&& sorted_and_numbered(entries)
    &&& forall|term: Seq<u8>| #[trigger] has_key(entries, term) <==> occurs_somewhere(documents, term)
}

/// The dictionary of the documents.
pub open spec fn dictionary_of(documents: Seq<Seq<char>>) -> Seq<(Seq<u8>, u64)> {
    choose|entries: Seq<(Seq<u8>, u64)>| is_dictionary_of(entries, documents)
}

/// The index of the documents: the documents, their dictionary, and for
/// each term of the dictionary the set of the documents that it occurs in.
pub open spec fn index_of(documents: Seq<Seq<char>>) -> IndexView {
    let entries = dictionary_of(documents);
    IndexView {
        documents,
        postings: Seq::new(
            entries.len(),
            |i: int| Set::new(|id: u32| occurs(documents, entries[i].0, id)),
        ),
        dictionary: entries_map(entries),
    }
}

/// Whether the index of the documents can be written in the wire format
/// on this machine: the number of documents, the length of each document
/// in bytes, the number of terms and the length of the dictionary image
/// all fit in 32 bits.
pub open spec fn fits_wire_format(documents: Seq<Seq<char>>) -> bool {
    &&& documents.len() <= u32::MAX
    &&& forall|i: int|
        0 <= i < documents.len() ==> encode_utf8(#[trigger] documents[i]).len() <= u32::MAX
    &&& dictionary_of(documents).len() <= u32::MAX
    &&& fst_image(dictionary_of(documents), usize::BITS).len() <= u32::MAX
}

/// Two lists of entries that are sorted and numbered and have the same
/// keys are the same list.
pub proof fn lemma_sorted_keys_unique(a: Seq<(Seq<u8>, u64)>, b: Seq<(Seq<u8>, u64)>)
    requires
        sorted_and_numbered(a),
        sorted_and_numbered(b),
        forall|term: Seq<u8>| #[trigger] has_key(a, term) <==> has_key(b, term),
    ensures
        a == b,
    decreases a.len(),
{
    if a.len() == 0 {
        if b.len() > 0 {
            assert(has_key(b, b[0].0));
            assert(has_key(a, b[0].0));
        }
        assert(a =~= b);
    } else {
        let top = a.last().0;
        assert(has_key(a, top));
        assert(has_key(b, top));
        let j = choose|j: int| 0 <= j < b.len() && (#[trigger] b[j]).0 == top;
        let other = b.last().0;
        assert(has_key(b, other));
        assert(has_key(a, other));
        let i = choose|i: int| 0 <= i < a.len() && (#[trigger] a[i]).0 == other;
        if top != other {
            assert(lex_lt(b[j].0, b[b.len() - 1].0));
            assert(lex_lt(a[i].0, a[a.len() - 1].0));
            lemma_lex_lt_asymmetric(top, other);
        }
        let shorter = a.drop_last();
        let fewer = b.drop_last();
        assert forall|term: Seq<u8>| #[trigger] has_key(shorter, term) <==> has_key(fewer, term) by {
            if has_key(shorter, term) {
                let k = choose|k: int| 0 <= k < shorter.len() && (#[trigger] shorter[k]).0 == term;
                assert(a[k].0 == term);
                assert(lex_lt(a[k].0, a[a.len() - 1].0));
                lemma_lex_lt_asymmetric(term, top);
                assert(has_key(a, term));
                assert(has_key(b, term));
                let m = choose|m: int| 0 <= m < b.len() && (#[trigger] b[m]).0 == term;
                assert(fewer[m].0 == term);
            }
            if has_key(fewer, term) {
                let k = choose|k: int| 0 <= k < fewer.len() && (#[trigger] fewer[k]).0 == term;
                assert(b[k].0 == term);
                assert(lex_lt(b[k].0, b[b.len() - 1].0));
                lemma_lex_lt_asymmetric(term, other);
                assert(has_key(b, term));
                assert(has_key(a, term));
                let m = choose|m: int| 0 <= m < a.len() && (#[trigger] a[m]).0 == term;
                assert(shorter[m].0 == term);
            }
        }
        assert(sorted_and_numbered(shorter)) by {
            assert forall|x: int, y: int| 0 <= x < y < shorter.len() implies lex_lt(
                (#[trigger] shorter[x]).0,
                (#[trigger] shorter[y]).0,
            ) by {
                assert(lex_lt(a[x].0, a[y].0));
            }
            assert forall|x: int| 0 <= x < shorter.len() implies (#[trigger] shorter[x]).1 == x by {
                assert(a[x].1 == x);
            }
        }
        assert(sorted_and_numbered(fewer)) by {
            assert forall|x: int, y: int| 0 <= x < y < fewer.len() implies lex_lt(
                (#[trigger] fewer[x]).0,
                (#[trigger] fewer[y]).0,
            ) by {
                assert(lex_lt(b[x].0, b[y].0));
            }
            assert forall|x: int| 0 <= x < fewer.len() implies (#[trigger] fewer[x]).1 == x by {
                assert(b[x].1 == x);
            }
        }
        lemma_sorted_keys_unique(shorter, fewer);
        assert(a.last().1 == a.len() - 1);
        assert(b.last().1 == b.len() - 1);
        assert(a =~= shorter.push(a.last()));
        assert(b =~= fewer.push(b.last()));
    }
}

/// Where the occurrences of the documents are filed, a term is the key of
/// an entry exactly when it occurs in a document.
pub proof fn lemma_filed_keys(
    documents: Seq<Seq<char>>,
    entries: Seq<(Seq<u8>, u64)>,
    sets: Seq<Set<u32>>,
    occurrences: Seq<(Seq<u8>, u32)>,
)
    requires
        filed(entries, sets, occurrences),
        forall|term: Seq<u8>, id: u32| #[trigger]
            lists(occurrences, term, id) <==> occurs(documents, term, id),
    ensures
        forall|term: Seq<u8>| #[trigger] has_key(entries, term) <==> occurs_somewhere(documents, term),
{
    assert forall|term: Seq<u8>| #[trigger]
        has_key(entries, term) <==> occurs_somewhere(documents, term) by {
        if has_key(entries, term) {
            let i = choose|i: int| 0 <= i < entries.len() && (#[trigger] entries[i]).0 == term;
            assert(listed_somewhere(occurrences, entries[i].0));
            let id = choose|id: u32| #[trigger] lists(occurrences, term, id);
            assert(occurs(documents, term, id));
        }
        if occurs_somewhere(documents, term) {
            let id = choose|id: u32| #[trigger] occurs(documents, term, id);
            assert(lists(occurrences, term, id));
        }
    }
}

/// The filed occurrences of the documents make the index of the
/// documents, and that index is what its name says.
pub proof fn lemma_filed_is_index_of(
    documents: Seq<Seq<char>>,
    entries: Seq<(Seq<u8>, u64)>,
    sets: Seq<Set<u32>>,
    occurrences: Seq<(Seq<u8>, u32)>,
)
    requires
        filed(entries, sets, occurrences),
        forall|term: Seq<u8>, id: u32| #[trigger]
            lists(occurrences, term, id) <==> occurs(documents, term, id),
    ensures
        dictionary_of(documents) == entries,
        index_of(documents) == (IndexView {
            documents,
            postings: sets,
            dictionary: entries_map(entries),
        }),
        is_index_of(index_of(documents), documents),
{
    lemma_filed_is_index(documents, entries, sets, occurrences);
    lemma_filed_keys(documents, entries, sets, occurrences);
    assert(is_dictionary_of(entries, documents));
    let chosen = dictionary_of(documents);
    assert(is_dictionary_of(chosen, documents));
    assert forall|term: Seq<u8>| #[trigger] has_key(chosen, term) <==> has_key(entries, term) by {
        assert(has_key(chosen, term) <==> occurs_somewhere(documents, term));
        assert(has_key(entries, term) <==> occurs_somewhere(documents, term));
    }
    lemma_sorted_keys_unique(chosen, entries);
    assert(index_of(documents).postings =~= sets) by {
        assert forall|i: int| 0 <= i < sets.len() implies #[trigger] index_of(
            documents,
        ).postings[i] == sets[i] by {
            assert forall|id: u32| sets[i].contains(id) <==> occurs(
                documents,
                entries[i].0,
                id,
            ) by {
                assert(sets[i].contains(id) <==> lists(occurrences, entries[i].0, id));
            }
            assert(index_of(documents).postings[i] =~= sets[i]);
        }
    }
}

/// The index that the filed occurrences of the documents make has what
/// makes it the index of the documents.
pub proof fn lemma_filed_is_index(
    documents: Seq<Seq<char>>,
    entries: Seq<(Seq<u8>, u64)>,
    sets: Seq<Set<u32>>,
    occurrences: Seq<(Seq<u8>, u32)>,
)
    requires
        filed(entries, sets, occurrences),
        forall|term: Seq<u8>, id: u32| #[trigger]
            lists(occurrences, term, id) <==> occurs(documents, term, id),
    ensures
        is_index_of(
            IndexView { documents, postings: sets, dictionary: entries_map(entries) },
            documents,
        ),
{
    let dictionary = entries_map(entries);
    let index = IndexView { documents, postings: sets, dictionary };
    assert forall|i: int| 0 <= i < entries.len() implies dictionary.dom().contains(
        (#[trigger] entries[i]).0,
    ) && dictionary[entries[i].0] == i by {
        lemma_entries_map_lookup(entries, i);
    }
    lemma_filed_keys(documents, entries, sets, occurrences);
    assert forall|term: Seq<u8>| #[trigger]
        dictionary.dom().contains(term) <==> occurs_somewhere(documents, term) by {
        assert(dictionary.dom().contains(term) == has_key(entries, term));
        assert(has_key(entries, term) <==> occurs_somewhere(documents, term));
    }
    assert forall|term: Seq<u8>, id: u32| dictionary.dom().contains(term) implies (
    #[trigger] sets[dictionary[term] as int].contains(id) <==> occurs(documents, term, id)) by {
        let i = choose|i: int| 0 <= i < entries.len() && (#[trigger] entries[i]).0 == term;
        assert(dictionary[entries[i].0] == i);
        assert(sets[i].contains(id) <==> lists(occurrences, entries[i].0, id));
    }
    assert forall|first: Seq<u8>, second: Seq<u8>|
        dictionary.dom().contains(first) && dictionary.dom().contains(second) && #[trigger] lex_lt(
            first,
            second,
        ) implies dictionary[first] < dictionary[second] by {
        let i = choose|i: int| 0 <= i < entries.len() && (#[trigger] entries[i]).0 == first;
        let j = choose|j: int| 0 <= j < entries.len() && (#[trigger] entries[j]).0 == second;
        assert(dictionary[entries[i].0] == i);
        assert(dictionary[entries[j].0] == j);
        if j < i {
            assert(lex_lt(entries[j].0, entries[i].0));
            lemma_lex_lt_asymmetric(second, first);
        } else if i == j {
            lemma_lex_lt_asymmetric(first, second);
        }
    }
    assert forall|i: int| 0 <= i < sets.len() implies #[trigger] has_number(dictionary, i) by {
        assert(dictionary.dom().contains(entries[i].0) && dictionary[entries[i].0] == i);
    }
    assert(index.wf()) by {
        assert forall|i: int, id: u32|
            0 <= i < index.postings.len() && #[trigger] index.postings[i].contains(id) implies id
            < index.documents.len() by {
            assert(lists(occurrences, entries[i].0, id));
            assert(occurs(documents, entries[i].0, id));
        }
        assert forall|term: Seq<u8>| #[trigger] index.dictionary.dom().contains(term) implies valid_utf8(
            term,
        ) && index.dictionary[term] < index.postings.len() by {
            let i = choose|i: int| 0 <= i < entries.len() && (#[trigger] entries[i]).0 == term;
            assert(dictionary[entries[i].0] == i);
            assert(occurs_somewhere(documents, term));
            let id = choose|id: u32| #[trigger] occurs(documents, term, id);
            let words = tokens(documents[id as int]);
            let j = choose|j: int| 0 <= j < terms_of(words).len() && terms_of(words)[j] == term;
            encode_utf8_valid_utf8(normalize_spec(words[j]));
        }
    }
}

/// Whether `bytes`, with anything behind them, read back as the documents
/// and leave what is behind them.
pub open spec fn documents_read_back(bytes: Seq<u8>, documents: Seq<Seq<char>>, rest: Seq<u8>) -> bool {
    parse_documents(bytes + rest, documents.len()) == Some((documents, rest))
}

/// Whether `bytes`, with anything behind them, read back as the posting
/// sets and leave what is behind them.
pub open spec fn bitmaps_read_back(bytes: Seq<u8>, sets: Seq<Set<u32>>, rest: Seq<u8>) -> bool {
    parse_bitmaps(bytes + rest, sets.len()) == Some((sets, rest))
}

/// Whether `bytes`, cut behind their first `cut` bytes, do not read back as
/// `count` documents.
pub open spec fn documents_cut_short(bytes: Seq<u8>, count: nat, cut: int) -> bool {
    parse_documents(bytes.take(cut), count) is None
}

/// Whether `bytes`, cut behind their first `cut` bytes, do not read back as
/// `count` posting sets.
pub open spec fn bitmaps_cut_short(bytes: Seq<u8>, count: nat, cut: int) -> bool {
    parse_bitmaps(bytes.take(cut), count) is None
}

/// The bytes of an index in the wire format, part by part.
pub open spec fn blob_layout(
    document_count: u32,
    documents: Seq<u8>,
    bitmap_count: u32,
    bitmaps: Seq<u8>,
    image: Seq<u8>,
) -> Seq<u8> {
    be32(document_count) + (documents + (be32(bitmap_count) + (bitmaps + (be32(
        image.len() as u32,
    ) + image))))
}

/// The parts of an index that are laid out in the wire format read back,
/// and nothing follows them.
pub proof fn lemma_whole_blob(
    document_count: u32,
    d: Seq<u8>,
    documents: Seq<Seq<char>>,
    bitmap_count: u32,
    b: Seq<u8>,
    sets: Seq<Set<u32>>,
    image: Seq<u8>,
)
    requires
        documents.len() == document_count,
        sets.len() == bitmap_count,
        image.len() <= u32::MAX,
        forall|rest: Seq<u8>| #[trigger] documents_read_back(d, documents, rest),
        forall|rest: Seq<u8>| #[trigger] bitmaps_read_back(b, sets, rest),
    ensures
        parse_parts(blob_layout(document_count, d, bitmap_count, b, image)) == Some(
            (documents, sets, image, Seq::<u8>::empty()),
        ),
{
    let framed = be32(image.len() as u32) + image;
    let after_bitmap_count = b + framed;
    let after_documents = be32(bitmap_count) + after_bitmap_count;
    let after_count = d + after_documents;
    lemma_be32_round_trip(document_count, after_count);
    assert(documents_read_back(d, documents, after_documents));
    lemma_be32_round_trip(bitmap_count, after_bitmap_count);
    assert(bitmaps_read_back(b, sets, framed));
    lemma_slice_round_trip(image, Seq::<u8>::empty());
    assert(framed + Seq::<u8>::empty() =~= framed);
}

/// The parts of an index that are laid out in the wire format and then cut
/// short are no index, wherever they are cut.
pub proof fn lemma_cut_blob(
    document_count: u32,
    d: Seq<u8>,
    documents: Seq<Seq<char>>,
    bitmap_count: u32,
    b: Seq<u8>,
    sets: Seq<Set<u32>>,
    image: Seq<u8>,
    cut: int,
)
    requires
        documents.len() == document_count,
        sets.len() == bitmap_count,
        image.len() <= u32::MAX,
        forall|rest: Seq<u8>| #[trigger] documents_read_back(d, documents, rest),
        forall|rest: Seq<u8>| #[trigger] bitmaps_read_back(b, sets, rest),
        forall|at: int|
            0 <= at < d.len() ==> #[trigger] documents_cut_short(d, document_count as nat, at),
        forall|at: int| 0 <= at < b.len() ==> #[trigger] bitmaps_cut_short(b, bitmap_count as nat, at),
        0 <= cut < blob_layout(document_count, d, bitmap_count, b, image).len(),
    ensures
        cut_is_no_index(blob_layout(document_count, d, bitmap_count, b, image), cut),
{
    let first = be32(document_count);
    let second = be32(bitmap_count);
    let framed = be32(image.len() as u32) + image;
    let part = blob_layout(document_count, d, bitmap_count, b, image).take(cut);
    if cut < 4 {
    } else if cut < 4 + d.len() {
        assert(part =~= first + d.take(cut - 4));
        lemma_be32_round_trip(document_count, d.take(cut - 4));
        assert(documents_cut_short(d, document_count as nat, cut - 4));
    } else if cut < 4 + d.len() + 4 {
        let left = second.take(cut - 4 - d.len());
        assert(part =~= first + (d + left));
        lemma_be32_round_trip(document_count, d + left);
        assert(documents_read_back(d, documents, left));
    } else if cut < 4 + d.len() + 4 + b.len() {
        let left = b.take(cut - 8 - d.len());
        assert(part =~= first + (d + (second + left)));
        lemma_be32_round_trip(document_count, d + (second + left));
        assert(documents_read_back(d, documents, second + left));
        lemma_be32_round_trip(bitmap_count, left);
        assert(bitmaps_cut_short(b, bitmap_count as nat, cut - 8 - d.len()));
    } else {
        let left = framed.take(cut - 8 - d.len() - b.len());
        assert(part =~= first + (d + (second + (b + left))));
        lemma_be32_round_trip(document_count, d + (second + (b + left)));
        assert(documents_read_back(d, documents, second + (b + left)));
        lemma_be32_round_trip(bitmap_count, b + left);
        assert(bitmaps_read_back(b, sets, left));
        lemma_cut_slice(image, cut - 8 - d.len() - b.len());
    }
}

/// Whether a list of occurrences names the term with some document.
pub open spec fn listed_somewhere(occurrences: Seq<(Seq<u8>, u32)>, term: Seq<u8>) -> bool {
    exists|id: u32| #[trigger] lists(occurrences, term, id)
}

/// Whether the occurrences are filed under the entries: there is one
/// posting set for each entry, the entries come in the order of their
/// terms and are numbered from zero, the posting set of an entry holds
/// the documents that occur with its term, every term that occurs has an
/// entry, and every entry's term occurs.
pub open spec fn filed(
    entries: Seq<(Seq<u8>, u64)>,
    sets: Seq<Set<u32>>,
    occurrences: Seq<(Seq<u8>, u32)>,
) -> bool {
    &&& entries.len() == sets.len()
    &&& strictly_increasing(entries)
    &&& forall|i: int| 0 <= i < entries.len() ==> (#[trigger] entries[i]).1 == i
    &&& forall|i: int, id: u32|
        0 <= i < entries.len() ==> (#[trigger] sets[i].contains(id) <==> lists(
            occurrences,
            entries[i].0,
            id,
        ))
    &&& forall|term: Seq<u8>, id: u32| #[trigger]
        lists(occurrences, term, id) ==> exists|i: int|
            0 <= i < entries.len() && (#[trigger] entries[i]).0 == term
    &&& forall|i: int|
        0 <= i < entries.len() ==> listed_somewhere(occurrences, (#[trigger] entries[i]).0)
}

impl Index {
    /// Lists every term of every document with the document's identifier.
    fn collect_occurrences(documents: &[&str]) -> (r: Option<Vec<Occurrence>>)
        ensures
            r is Some <==> documents@.len() <= u32::MAX,
            r matches Some(found) ==> forall|term: Seq<u8>, id: u32| #[trigger]
                lists(occurrences_view(found@), term, id) <==> occurs(
                    strs_view(documents@),
                    term,
                    id,
                ),
    {
        if documents.len() > u32::MAX as usize {
            return None;
        }
        let ghost all = strs_view(documents@);
        let mut found: Vec<Occurrence> = Vec::new();
        assert forall|term: Seq<u8>, id: u32| !#[trigger] lists(
            occurrences_view(found@),
            term,
            id,
        ) by {
            lemma_empty_contains(occurrences_view(found@), (term, id));
        }
        let count = documents.len();
        for n in 0..count
            invariant
                count == documents@.len(),
                all == strs_view(documents@),
                documents@.len() <= u32::MAX,
                forall|term: Seq<u8>, id: u32| #[trigger]
                    lists(occurrences_view(found@), term, id) <==> id < n && occurs(all, term, id),
        {
            let words = split_whitespace(documents[n]);
            let ghost terms = terms_of(tokens(all[n as int]));
            let ghost before = occurrences_view(found@);
            assert(strings_view(words@).len() == words@.len());
            assert forall|term: Seq<u8>| !terms.take(0).contains(term) by {
                lemma_empty_contains(terms.take(0), term);
            }
            let length = words.len();
            for w in 0..length
                invariant
                    length == words@.len(),
                    n < documents@.len(),
                    documents@.len() <= u32::MAX,
                    strings_view(words@) == tokens(all[n as int]),
                    terms == terms_of(tokens(all[n as int])),
                    forall|term: Seq<u8>, id: u32| #[trigger]
                        lists(occurrences_view(found@), term, id) <==> lists(before, term, id) || (
                        id == n && term.len() > 0 && terms.take(w as int).contains(term)),
            {
                let normalized = normalize(words[w].as_str());
                let term = normalized.as_str().as_bytes_vec();
                let ghost earlier = occurrences_view(found@);
                let ghost added = (term@, n as u32);
                proof {
                    assert(strings_view(words@)[w as int] == words@[w as int]@);
                    assert(term@ == terms[w as int]);
                    assert(terms.take(w + 1) == terms.take(w as int).push(terms[w as int]));
                }
                if term.len() > 0 {
                    found.push(Occurrence { term, id: n as u32 });
                    assert(occurrences_view(found@) == earlier.push(added));
                }
                proof {
                    assert forall|t: Seq<u8>, id: u32| #[trigger]
                        lists(occurrences_view(found@), t, id) <==> lists(before, t, id) || (id == n
                            && t.len() > 0 && terms.take(w + 1).contains(t)) by {
                        lemma_push_contains(earlier, added, (t, id));
                        lemma_push_contains(terms.take(w as int), terms[w as int], t);
                        assert(lists(earlier, t, id) <==> lists(before, t, id) || (id == n
                            && t.len() > 0 && terms.take(w as int).contains(t)));
                    }
                }
            }
            proof {
                assert(terms.take(terms.len() as int) == terms);
                assert forall|term: Seq<u8>, id: u32| #[trigger]
                    lists(occurrences_view(found@), term, id) <==> id < n + 1 && occurs(
                        all,
                        term,
                        id,
                    ) by {
                    assert(lists(before, term, id) <==> id < n && occurs(all, term, id));
                    assert(holds_term(all[n as int], term) == (term.len() > 0 && terms.contains(
                        term,
                    )));
                }
            }
        }
        Some(found)
    }

    /// Builds the index of the documents and gives it in the wire format.
    /// A document's identifier is its place in the list. A word of which
    /// normalization leaves nothing is not indexed. Nothing is returned
    /// when a count or a length does not fit in the 32 bits that the
    /// format gives it.
    pub fn construct(documents: &[&str]) -> (r: Option<Vec<u8>>)
        ensures
            r is Some <==> fits_wire_format(strs_view(documents@)),
            r matches Some(blob) ==> parse_index(blob@) == Some(index_of(strs_view(documents@)))
                && is_index_of(index_of(strs_view(documents@)), strs_view(documents@))
                && image_reliable(blob@) && nothing_follows(blob@) && no_cut_is_an_index(blob@),
    {
        let ghost all = strs_view(documents@);
        let mut occurrences = Index::collect_occurrences(documents)?;
        let ghost collected = occurrences_view(occurrences@);
        sort_by_term(&mut occurrences);
        let ghost sorted = occurrences_view(occurrences@);
        proof {
            collected.to_multiset_ensures();
            sorted.to_multiset_ensures();
            assert forall|term: Seq<u8>, id: u32| #[trigger]
                lists(sorted, term, id) <==> occurs(all, term, id) by {
                assert(lists(collected, term, id) <==> occurs(all, term, id));
                assert(sorted.contains((term, id)) <==> sorted.to_multiset().count((term, id)) > 0);
                assert(collected.contains((term, id)) <==> collected.to_multiset().count(
                    (term, id),
                ) > 0);
            }
        }
        let (entries, bitmaps) = Index::group_occurrences(&occurrences);
        proof {
            lemma_filed_is_index_of(all, entries_view(entries@), bitmap_sets(bitmaps@), sorted);
            assert forall|i: int| 0 <= i < all.len() implies (#[trigger] documents@[i]).spec_bytes()
                == encode_utf8(all[i]) by {}
        }
        let image = fst_build(&entries)?;
        let blob = Index::write_parts(documents, &bitmaps, image.as_slice())?;
        proof {
            let index = IndexView {
                documents: all,
                postings: bitmap_sets(bitmaps@),
                dictionary: entries_map(entries_view(entries@)),
            };
            assert(parse_index(blob@) == Some(index));
        }
        Some(blob)
    }

    /// Writes the three parts of an index in the wire format: the
    /// documents, the posting bitmaps and the dictionary image. Nothing is
    /// returned when the number of documents, the length of a document,
    /// the number of bitmaps or the length of the image does not fit in
    /// 32 bits.
    pub fn write_parts(documents: &[&str], bitmaps: &Vec<RoaringBitmap>, image: &[u8]) -> (r:
        Option<Vec<u8>>)
        requires
            bitmaps_wf(bitmaps@),
        ensures
            r is Some <==> {
                &&& documents@.len() <= u32::MAX
                &&& forall|i: int|
                    0 <= i < documents@.len() ==> (#[trigger] documents@[i]).spec_bytes().len()
                        <= u32::MAX
                &&& bitmaps@.len() <= u32::MAX
                &&& image@.len() <= u32::MAX
            },
            r matches Some(blob) ==> parse_parts(blob@) == Some(
                (strs_view(documents@), bitmap_sets(bitmaps@), image@, Seq::<u8>::empty()),
            ),
            r matches Some(blob) ==> no_cut_is_an_index(blob@),
    {
        let count = documents.len();
        if count > u32::MAX as usize || bitmaps.len() > u32::MAX as usize {
            return None;
        }
        let ghost all = strs_view(documents@);
        let mut encoded_documents = Index::encode_documents(documents)?;
        let mut encoded_bitmaps = Index::encode_bitmaps(&bitmaps)?;
        let ghost d = encoded_documents@;
        let ghost b = encoded_bitmaps@;
        let mut blob: Vec<u8> = Vec::new();
        Index::write_size(&mut blob, count as u32);
        blob.append(&mut encoded_documents);
        Index::write_size(&mut blob, bitmaps.len() as u32);
        blob.append(&mut encoded_bitmaps);
        if !Index::write_slice(&mut blob, image) {
            return None;
        }
        proof {
            let sets = bitmap_sets(bitmaps@);
            let layout = blob_layout(count as u32, d, bitmaps@.len() as u32, b, image@);
            assert(blob@ =~= layout);
            lemma_whole_blob(count as u32, d, all, bitmaps@.len() as u32, b, sets, image@);
            assert forall|cut: int| 0 <= cut < blob@.len() implies #[trigger] cut_is_no_index(
                blob@,
                cut,
            ) by {
                lemma_cut_blob(count as u32, d, all, bitmaps@.len() as u32, b, sets, image@, cut);
            }
        }
        Some(blob)
    }

    /// Builds the index of the documents in memory: it is written in the
    /// wire format and loaded from there.
    pub fn new_in_memory(documents: &[&str]) -> (r: Option<Index>)
        ensures
            r is Some <==> fits_wire_format(strs_view(documents@)),
            r matches Some(index) ==> index@ == index_of(strs_view(documents@)) && is_index_of(
                index@,
                strs_view(documents@),
            ),
    {
        match Index::construct(documents) {
            Some(blob) => match Index::from_bytes(blob.as_slice()) {
                Some(index) => Some(index.move_in_memory()),
                None => None,
            },
            None => None,
        }
    }

    /// The documents in the wire format: each with its length in front.
    /// Nothing is returned when a document is longer than a 32-bit length
    /// can say.
    fn encode_documents(documents: &[&str]) -> (r: Option<Vec<u8>>)
        ensures
            r is Some <==> forall|i: int|
                0 <= i < documents@.len() ==> (#[trigger] documents@[i]).spec_bytes().len()
                    <= u32::MAX,
            r matches Some(bytes) ==> forall|rest: Seq<u8>| #[trigger]
                documents_read_back(bytes@, strs_view(documents@), rest),
            r matches Some(bytes) ==> forall|cut: int|
                0 <= cut < bytes@.len() ==> #[trigger] documents_cut_short(
                    bytes@,
                    documents@.len(),
                    cut,
                ),
    {
        let ghost all = strs_view(documents@);
        let mut out: Vec<u8> = Vec::new();
        let count = documents.len();
        assert forall|rest: Seq<u8>| #[trigger] documents_read_back(out@, all.take(0), rest) by {
            assert(out@ + rest =~= rest);
            assert(all.take(0) =~= Seq::<Seq<char>>::empty());
        }
        let mut n: usize = 0;
        while n < count
            invariant
                n <= count,
                count == documents@.len(),
                all == strs_view(documents@),
                forall|i: int|
                    0 <= i < n ==> (#[trigger] documents@[i]).spec_bytes().len() <= u32::MAX,
                forall|rest: Seq<u8>| #[trigger]
                    documents_read_back(out@, all.take(n as int), rest),
                forall|cut: int|
                    0 <= cut < out@.len() ==> #[trigger] documents_cut_short(out@, n as nat, cut),
            decreases count - n,
        {
            let ghost before = out@;
            let raw = documents[n].as_bytes();
            if !Index::write_slice(&mut out, raw) {
                return None;
            }
            proof {
                encode_utf8_valid_utf8(all[n as int]);
                encode_utf8_decode_utf8(all[n as int]);
                assert forall|rest: Seq<u8>| #[trigger]
                    documents_read_back(out@, all.take(n + 1), rest) by {
                    let tail = be32(raw@.len() as u32) + raw@ + rest;
                    assert(out@ + rest =~= before + tail);
                    assert(documents_read_back(before, all.take(n as int), tail));
                    lemma_slice_round_trip(raw@, rest);
                    lemma_parse_documents_step(
                        before + tail,
                        n as nat,
                        all.take(n as int),
                        tail,
                        raw@,
                        rest,
                    );
                    assert(all.take(n + 1) =~= all.take(n as int).push(all[n as int]));
                }
                let framed = be32(raw@.len() as u32) + raw@;
                assert(out@ =~= before + framed);
                assert forall|cut: int| 0 <= cut < out@.len() implies #[trigger] documents_cut_short(
                    out@,
                    (n + 1) as nat,
                    cut,
                ) by {
                    if cut < before.len() {
                        assert(out@.take(cut) =~= before.take(cut));
                        assert(documents_cut_short(before, n as nat, cut));
                        lemma_parse_documents_fails_on(before.take(cut), n as nat);
                    } else {
                        let part = framed.take(cut - before.len());
                        assert(out@.take(cut) =~= before + part);
                        assert(documents_read_back(before, all.take(n as int), part));
                        lemma_cut_slice(raw@, cut - before.len());
                        lemma_parse_documents_stuck(
                            before + part,
                            n as nat,
                            all.take(n as int),
                            part,
                        );
                    }
                }
            }
            n = n + 1;
        }
        proof {
            assert(all.take(count as int) =~= all);
        }
        Some(out)
    }

    /// The bitmaps in the wire format, one after the other.
    fn encode_bitmaps(bitmaps: &Vec<RoaringBitmap>) -> (r: Option<Vec<u8>>)
        requires
            bitmaps_wf(bitmaps@),
        ensures
            r is Some,
            r matches Some(bytes) ==> forall|rest: Seq<u8>| #[trigger]
                bitmaps_read_back(bytes@, bitmap_sets(bitmaps@), rest),
            r matches Some(bytes) ==> forall|cut: int|
                0 <= cut < bytes@.len() ==> #[trigger] bitmaps_cut_short(
                    bytes@,
                    bitmaps@.len(),
                    cut,
                ),
    {
        let ghost all = bitmap_sets(bitmaps@);
        let mut out: Vec<u8> = Vec::new();
        let count = bitmaps.len();
        assert forall|rest: Seq<u8>| #[trigger] bitmaps_read_back(out@, all.take(0), rest) by {
            assert(out@ + rest =~= rest);
            assert(all.take(0) =~= Seq::<Set<u32>>::empty());
        }
        let mut n: usize = 0;
        while n < count
            invariant
                bitmaps_wf(bitmaps@),
                n <= count,
                count == bitmaps@.len(),
                all == bitmap_sets(bitmaps@),
                forall|rest: Seq<u8>| #[trigger] bitmaps_read_back(out@, all.take(n as int), rest),
                forall|cut: int|
                    0 <= cut < out@.len() ==> #[trigger] bitmaps_cut_short(out@, n as nat, cut),
            decreases count - n,
        {
            let ghost before = out@;
            let mut encoded = match bitmap_to_bytes(&bitmaps[n]) {
                Some(encoded) => encoded,
                None => {
                    return None;
                },
            };
            let ghost piece = encoded@;
            out.append(&mut encoded);
            proof {
                assert forall|rest: Seq<u8>| #[trigger]
                    bitmaps_read_back(out@, all.take(n + 1), rest) by {
                    let tail = piece + rest;
                    assert(out@ + rest =~= before + tail);
                    assert(bitmaps_read_back(before, all.take(n as int), tail));
                    assert(roaring_decode(piece + rest) == Some((all[n as int], piece.len() as int)));
                    lemma_parse_bitmaps_step(
                        before + tail,
                        n as nat,
                        all.take(n as int),
                        tail,
                        all[n as int],
                        piece.len() as int,
                    );
                    assert(tail.skip(piece.len() as int) =~= rest);
                    assert(all.take(n + 1) =~= all.take(n as int).push(all[n as int]));
                }
                assert(out@ =~= before + piece);
                assert forall|cut: int| 0 <= cut < out@.len() implies #[trigger] bitmaps_cut_short(
                    out@,
                    (n + 1) as nat,
                    cut,
                ) by {
                    if cut < before.len() {
                        assert(out@.take(cut) =~= before.take(cut));
                        assert(bitmaps_cut_short(before, n as nat, cut));
                        lemma_parse_bitmaps_fails_on(before.take(cut), n as nat);
                    } else {
                        let part = piece.take(cut - before.len());
                        assert(out@.take(cut) =~= before + part);
                        assert(bitmaps_read_back(before, all.take(n as int), part));
                        assert(roaring_decode(part) is None);
                        lemma_parse_bitmaps_stuck(
                            before + part,
                            n as nat,
                            all.take(n as int),
                            part,
                        );
                    }
                }
            }
            n = n + 1;
        }
        proof {
            assert(all.take(count as int) =~= all);
        }
        Some(out)
    }

    /// Files the occurrences, which come in the order of their terms, under
    /// their terms: one dictionary entry and one posting bitmap for each
    /// term, the entries numbered in the order of the terms.
    fn group_occurrences(sorted: &Vec<Occurrence>) -> (r: (Vec<(Vec<u8>, u64)>, Vec<RoaringBitmap>))
        requires
            ordered_by_term(occurrences_view(sorted@)),
        ensures
            bitmaps_wf(r.1@),
            filed(entries_view(r.0@), bitmap_sets(r.1@), occurrences_view(sorted@)),
    {
        let ghost all = occurrences_view(sorted@);
        let mut entries: Vec<(Vec<u8>, u64)> = Vec::new();
        let mut bitmaps: Vec<RoaringBitmap> = Vec::new();
        proof {
            assert forall|term: Seq<u8>, id: u32| !#[trigger] lists(all.take(0), term, id) by {
                lemma_empty_contains(all.take(0), (term, id));
            }
        }
        let count = sorted.len();
        for n in 0..count
            invariant
                bitmaps_wf(bitmaps@),
                count == sorted@.len(),
                all == occurrences_view(sorted@),
                ordered_by_term(all),
                filed(entries_view(entries@), bitmap_sets(bitmaps@), all.take(n as int)),
                n > 0 ==> entries@.len() > 0 && entries@[entries@.len() - 1].0@ == all[n - 1].0,
        {
            let ghost seen = all.take(n as int);
            let ghost more = all.take(n + 1);
            let ghost listed = entries_view(entries@);
            let ghost sets = bitmap_sets(bitmaps@);
            let ghost term = all[n as int].0;
            let id = sorted[n].id;
            proof {
                assert(more == seen.push((term, id)));
                assert forall|t: Seq<u8>, d: u32| #[trigger]
                    lists(more, t, d) <==> lists(seen, t, d) || (t == term && d == id) by {
                    lemma_push_contains(seen, (term, id), (t, d));
                }
            }
            let last = entries.len();
            if last > 0 && term_rank(sorted[n].term.as_slice(), entries[last - 1].0.as_slice()) == 1 {
                let _ = bitmaps[last - 1].insert(id);
                proof {
                    let grown = bitmap_sets(bitmaps@);
                    assert(listed[last - 1].0 == term);
                    assert forall|i: int, d: u32| 0 <= i < listed.len() implies (
                    #[trigger] grown[i].contains(d) <==> lists(more, listed[i].0, d)) by {
                        assert(sets[i].contains(d) <==> lists(seen, listed[i].0, d));
                        if i < last - 1 {
                            assert(lex_lt(listed[i].0, listed[last - 1].0));
                            lemma_lex_lt_asymmetric(listed[i].0, term);
                        }
                    }
                    assert forall|i: int| 0 <= i < listed.len() implies listed_somewhere(
                        more,
                        (#[trigger] listed[i]).0,
                    ) by {
                        assert(listed_somewhere(seen, listed[i].0));
                        let d = choose|d: u32| #[trigger] lists(seen, listed[i].0, d);
                        assert(lists(more, listed[i].0, d));
                    }
                    assert forall|t: Seq<u8>, d: u32| #[trigger] lists(more, t, d) implies exists|
                        i: int,
                    |
                        0 <= i < listed.len() && (#[trigger] listed[i]).0 == t by {
                        if !lists(seen, t, d) {
                            assert(listed[last - 1].0 == t);
                        }
                    }
                }
            } else {
                let mut bitmap = RoaringBitmap::new();
                let _ = bitmap.insert(id);
                let key = sorted[n].term.clone();
                assert(key@ == term);
                entries.push((key, last as u64));
                let ghost made = bitmaps@;
                bitmaps.push(bitmap);
                assert(bitmaps_wf(bitmaps@)) by {
                    assert forall|k: int| 0 <= k < bitmaps@.len() implies bitmap_wf(
                        #[trigger] bitmaps@[k],
                    ) by {
                        if k < made.len() {
                            assert(bitmaps@[k] == made[k]);
                        }
                    }
                }
                proof {
                    let grown = bitmap_sets(bitmaps@);
                    let longer = entries_view(entries@);
                    assert(longer == listed.push((term, last as u64)));
                    assert(grown == sets.push(Set::<u32>::empty().insert(id)));
                    // The new term comes behind every term filed so far.
                    assert forall|i: int| 0 <= i < last implies lex_lt(
                        (#[trigger] listed[i]).0,
                        term,
                    ) by {
                        assert(listed[last - 1].0 == all[n - 1].0);
                        assert(all[n - 1].0 == all[n as int].0 || lex_lt(
                            all[n - 1].0,
                            all[n as int].0,
                        ));
                        if i < last - 1 {
                            assert(lex_lt(listed[i].0, listed[last - 1].0));
                            lemma_lex_lt_transitive(listed[i].0, listed[last - 1].0, term);
                        }
                    }
                    assert forall|i: int, j: int| 0 <= i < j < longer.len() implies lex_lt(
                        (#[trigger] longer[i]).0,
                        (#[trigger] longer[j]).0,
                    ) by {
                        if j < last {
                            assert(lex_lt(listed[i].0, listed[j].0));
                        } else {
                            assert(lex_lt(listed[i].0, term));
                        }
                    }
                    assert forall|d: u32| !lists(seen, term, d) by {
                        if lists(seen, term, d) {
                            let i = choose|i: int|
                                0 <= i < listed.len() && (#[trigger] listed[i]).0 == term;
                            assert(lex_lt(listed[i].0, term));
                            lemma_lex_lt_asymmetric(listed[i].0, term);
                        }
                    }
                    assert forall|i: int, d: u32| 0 <= i < longer.len() implies (
                    #[trigger] grown[i].contains(d) <==> lists(more, longer[i].0, d)) by {
                        if i < last {
                            assert(sets[i].contains(d) <==> lists(seen, listed[i].0, d));
                            assert(lex_lt(listed[i].0, term));
                            lemma_lex_lt_asymmetric(listed[i].0, term);
                        }
                    }
                    assert forall|i: int| 0 <= i < longer.len() implies listed_somewhere(
                        more,
                        (#[trigger] longer[i]).0,
                    ) by {
                        if i < last {
                            assert(listed_somewhere(seen, listed[i].0));
                            let d = choose|d: u32| #[trigger] lists(seen, listed[i].0, d);
                            assert(lists(more, longer[i].0, d));
                        } else {
                            assert(lists(more, longer[i].0, id));
                        }
                    }
                    assert forall|t: Seq<u8>, d: u32| #[trigger] lists(more, t, d) implies exists|
                        i: int,
                    |
                        0 <= i < longer.len() && (#[trigger] longer[i]).0 == t by {
                        if lists(seen, t, d) {
                            let i = choose|i: int|
                                0 <= i < listed.len() && (#[trigger] listed[i]).0 == t;
                            assert(longer[i].0 == t);
                        } else {
                            assert(longer[last as int].0 == t);
                        }
                    }
                    assert forall|i: int| 0 <= i < longer.len() implies (#[trigger] longer[i]).1
                        == i by {
                        if i < last {
                            assert(listed[i].1 == i);
                        }
                    }
                }
            }
        }
        proof {
            assert(all.take(all.len() as int) == all);
        }
        (entries, bitmaps)
    }
}

/// An empty list holds nothing.
pub proof fn lemma_empty_contains<A>(list: Seq<A>, item: A)
    requires
        list.len() == 0,
    ensures
        !list.contains(item),
{
}

/// A list with one more item holds what it held before and that item.
pub proof fn lemma_push_contains<A>(list: Seq<A>, item: A, other: A)
    ensures
        list.push(item).contains(other) <==> list.contains(other) || other == item,
{
    let more = list.push(item);
    if list.contains(other) {
        let i = choose|i: int| 0 <= i < list.len() && list[i] == other;
        assert(more[i] == other);
    }
    if other == item {
        assert(more[list.len() as int] == other);
    }
    if more.contains(other) {
        let i = choose|i: int| 0 <= i < more.len() && more[i] == other;
        if i < list.len() {
            assert(list[i] == other);
        }
    }
}

/// Loading what was built finds what building in memory finds. `written`
/// is what [`Index::construct`] gives for the documents and `built` is the
/// content of what [`Index::new_in_memory`] gives for them, each as its
/// contract says. Then one succeeds exactly when the other does, and the
/// index that [`Index::from_bytes`] reads from what was written has the
/// documents of the index that was built and finds what it finds.
pub proof fn lemma_round_trip(
    documents: Seq<Seq<char>>,
    written: Option<Seq<u8>>,
    built: Option<IndexView>,
    search: SearchView,
)
    requires
        written is Some <==> fits_wire_format(documents),
        written matches Some(blob) ==> parse_index(blob) == Some(index_of(documents)),
        built is Some <==> fits_wire_format(documents),
        built matches Some(index) ==> index == index_of(documents),
    ensures
        written is Some <==> built is Some,
        written matches Some(blob) ==> {
            &&& parse_index(blob) matches Some(loaded)
            &&& built matches Some(index)
            &&& loaded == index
            &&& loaded.documents == documents
            &&& search_buckets(loaded, search) == search_buckets(index, search)
            &&& search_results(loaded, search) == search_results(index, search)
        },
{
}

} // verus!
