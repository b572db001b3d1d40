//! The term dictionary: an ordered map from a term, as bytes, to the number
//! of its posting bitmap, held as a finite-state transducer.
//!
//! The transducer is `fst::Map`. Verified code sees it through
//! [`dictionary_entries`], the map it stands for, and through the
//! contracts below, which are taken on trust from the `fst` and
//! `levenshtein_automata` crates.
//!
//! The `fst` crate reads a transducer from any bytes whose header, size
//! and checksum are in order, but it promises to read it without failure
//! only if the bytes are a valid transducer, such as its builder writes.
//! [`fst_valid`] names that condition, and [`dictionary_sound`] says that a
//! transducer was made from such bytes; whatever reads a transducer asks
//! for it.

use fst::IntoStreamer;
use levenshtein_automata::LevenshteinAutomatonBuilder;
use vstd::prelude::*;

verus! {

/// Trusted: the type `fst::Map`. Nothing inside a transducer is seen; all
/// that is known of one is said by the items below.
#[verifier::external_type_specification]
#[verifier::external_body]
#[verifier::reject_recursive_types(D)]
pub struct ExFstMap<D>(fst::Map<D>);

/// Trusted: the type `levenshtein_automata::LevenshteinAutomatonBuilder`.
/// Nothing inside a builder is seen; [`automaton_radius`] names the
/// distance that it was made for.
#[verifier::external_type_specification]
#[verifier::external_body]
pub struct ExAutomatonBuilder(LevenshteinAutomatonBuilder);

/// The greatest number of edits that a builder of automata was made for.
pub uninterp spec fn automaton_radius(builder: LevenshteinAutomatonBuilder) -> u8;

/// Whether the bytes are a valid transducer in the sense of the `fst`
/// crate: an image that reads without failure, as the crate's builder
/// writes it.
pub uninterp spec fn fst_valid(image: Seq<u8>) -> bool;

/// Whether a transducer was made from a valid image, so that it reads
/// without failure.
pub uninterp spec fn dictionary_sound(m: fst::Map<Vec<u8>>) -> bool;

/// The key-value pairs that a transducer holds.
pub uninterp spec fn dictionary_entries(m: fst::Map<Vec<u8>>) -> Map<Seq<u8>, u64>;

/// The map that a byte image of a transducer stands for, or `None` when the
/// image is not accepted.
pub uninterp spec fn fst_decode(image: Seq<u8>) -> Option<Map<Seq<u8>, u64>>;

/// The byte image of the transducer that the builder makes of the given
/// entries on a machine whose addresses have `width` bits. The builder
/// finds the parts that the terms share through a table whose places it
/// works out in a number of that width, so that the image can differ
/// between machines of different widths; on machines of one width the
/// same entries give the same image.
pub uninterp spec fn fst_image(entries: Seq<(Seq<u8>, u64)>, width: u32) -> Seq<u8>;

/// The entries of the dictionary whose key lies within `radius` edits
/// (insertion, deletion, substitution, swap of two neighbours) of `word`,
/// in the order of their keys.
pub uninterp spec fn terms_within(dictionary: Map<Seq<u8>, u64>, word: Seq<char>, radius: u8) -> Seq<
    (Seq<u8>, u64),
>;

/// The entries of the dictionary whose key has a prefix that lies within
/// `radius` edits of `word`, in the order of their keys.
pub uninterp spec fn terms_with_prefix_within(
    dictionary: Map<Seq<u8>, u64>,
    word: Seq<char>,
    radius: u8,
) -> Seq<(Seq<u8>, u64)>;

/// The number that the eight bytes from `at` on stand for, the least
/// significant byte first.
pub open spec fn le64(bytes: Seq<u8>, at: int) -> int {
    bytes[at] + bytes[at + 1] * 0x100 + bytes[at + 2] * 0x1_0000 + bytes[at + 3] * 0x100_0000
        + bytes[at + 4] * 0x1_0000_0000 + bytes[at + 5] * 0x100_0000_0000 + bytes[at + 6]
        * 0x1_0000_0000_0000 + bytes[at + 7] * 0x100_0000_0000_0000
}

/// Whether the two numbers at the end of an image, the number of keys and
/// the address of the root, can be held by this machine. They stand in
/// front of the checksum, which images of the first two versions of the
/// format do not have. An image of fewer than 36 bytes has no such
/// numbers and is not read that far.
pub open spec fn header_fits(image: Seq<u8>) -> bool {
    image.len() >= 36 ==> {
        let end = if le64(image, 0) <= 2 {
            image.len() as int
        } else {
            image.len() - 4
        };
        le64(image, end - 8) <= usize::MAX && le64(image, end - 16) <= usize::MAX
    }
}

/// Reads the number that the eight bytes from `at` on stand for, the least
/// significant byte first.
pub fn read_le64(bytes: &[u8], at: usize) -> (r: u64)
    requires
        at + 8 <= bytes@.len(),
    ensures
        r == le64(bytes@, at as int),
{
    (bytes[at] as u64) + (bytes[at + 1] as u64) * 0x100 + (bytes[at + 2] as u64) * 0x1_0000 + (
    bytes[at + 3] as u64) * 0x100_0000 + (bytes[at + 4] as u64) * 0x1_0000_0000 + (bytes[at
        + 5] as u64) * 0x100_0000_0000 + (bytes[at + 6] as u64) * 0x1_0000_0000_0000 + (bytes[at
        + 7] as u64) * 0x100_0000_0000_0000
}

/// Tells whether the two numbers at the end of an image can be held by
/// this machine.
pub fn image_header_fits(image: &[u8]) -> (r: bool)
    ensures
        r == header_fits(image@),
{
    let length = image.len();
    if length < 36 {
        return true;
    }
    let end = if read_le64(image, 0) <= 2 {
        length
    } else {
        length - 4
    };
    read_le64(image, end - 8) <= usize::MAX as u64 && read_le64(image, end - 16)
        <= usize::MAX as u64
}

/// Whether `a` comes strictly before `b` in the lexicographic order of bytes.
pub open spec fn lex_lt(a: Seq<u8>, b: Seq<u8>) -> bool {
    exists|n: int|
        0 <= n <= a.len() && n <= b.len() && #[trigger] a.take(n) == b.take(n) && (if n == a.len() {
            n < b.len()
        } else {
            n < b.len() && a[n] < b[n]
        })
}

/// The plain values of a list of entries.
pub open spec fn entries_view(entries: Seq<(Vec<u8>, u64)>) -> Seq<(Seq<u8>, u64)> {
    Seq::new(entries.len(), |i: int| (entries[i].0@, entries[i].1))
}

/// Whether the keys of `entries` increase strictly from one entry to the next.
pub open spec fn strictly_increasing(entries: Seq<(Seq<u8>, u64)>) -> bool {
    forall|i: int, j: int|
        0 <= i < j < entries.len() ==> lex_lt((#[trigger] entries[i]).0, (#[trigger] entries[j]).0)
}

/// The map that holds exactly the given entries.
pub open spec fn entries_map(entries: Seq<(Seq<u8>, u64)>) -> Map<Seq<u8>, u64> {
    Map::new(
        |k: Seq<u8>| exists|i: int| 0 <= i < entries.len() && (#[trigger] entries[i]).0 == k,
        |k: Seq<u8>|
            entries[choose|i: int| 0 <= i < entries.len() && (#[trigger] entries[i]).0 == k].1,
    )
}

/// Whether every entry of `found` is an entry of the dictionary.
pub open spec fn all_in_dictionary(found: Seq<(Seq<u8>, u64)>, dictionary: Map<Seq<u8>, u64>) -> bool {
    forall|i: int|
        0 <= i < found.len() ==> dictionary.contains_pair(
            (#[trigger] found[i]).0,
            found[i].1,
        )
}

/// Compares two byte strings in the lexicographic order: 0 when `a` comes
/// before `b`, 1 when they are equal, 2 when `a` comes after `b`.
pub fn term_rank(a: &[u8], b: &[u8]) -> (r: u8)
    ensures
        r <= 2,
        (r == 0) == lex_lt(a@, b@),
        (r == 1) == (a@ == b@),
        (r == 2) == lex_lt(b@, a@),
{
    let mut at: usize = 0;
    while at < a.len() && at < b.len()
        invariant
            at <= a@.len(),
            at <= b@.len(),
            a@.take(at as int) == b@.take(at as int),
        decreases a@.len() - at,
    {
        if a[at] < b[at] {
            proof {
                lemma_lex_lt_asymmetric(a@, b@);
            }
            return 0;
        }
        if a[at] > b[at] {
            proof {
                lemma_lex_lt_asymmetric(b@, a@);
            }
            return 2;
        }
        assert(a@.take(at + 1) =~= a@.take(at as int).push(a@[at as int]));
        assert(b@.take(at + 1) =~= b@.take(at as int).push(b@[at as int]));
        at = at + 1;
    }
    if at < b.len() {
        proof {
            lemma_lex_lt_asymmetric(a@, b@);
        }
        0
    } else if at < a.len() {
        proof {
            lemma_lex_lt_asymmetric(b@, a@);
        }
        2
    } else {
        proof {
            assert(a@.take(at as int) =~= a@);
            assert(b@.take(at as int) =~= b@);
            lemma_lex_lt_irreflexive(a@);
        }
        1
    }
}

/// Of two byte strings, at most one comes before the other.
pub proof fn lemma_lex_lt_asymmetric(a: Seq<u8>, b: Seq<u8>)
    requires
        lex_lt(a, b),
    ensures
        !lex_lt(b, a),
        a != b,
{
    lemma_lex_lt_irreflexive(a);
    if lex_lt(b, a) {
        lemma_lex_lt_transitive(a, b, a);
    }
}

/// The lexicographic order is transitive.
pub proof fn lemma_lex_lt_transitive(a: Seq<u8>, b: Seq<u8>, c: Seq<u8>)
    requires
        lex_lt(a, b),
        lex_lt(b, c),
    ensures
        lex_lt(a, c),
{
    let p = choose|n: int|
        0 <= n <= a.len() && n <= b.len() && #[trigger] a.take(n) == b.take(n) && (if n == a.len() {
            n < b.len()
        } else {
            n < b.len() && a[n] < b[n]
        });
    let q = choose|n: int|
        0 <= n <= b.len() && n <= c.len() && #[trigger] b.take(n) == c.take(n) && (if n == b.len() {
            n < c.len()
        } else {
            n < c.len() && b[n] < c[n]
        });
    let r = if p < q {
        p
    } else {
        q
    };
    assert(a.take(r) =~= c.take(r)) by {
        assert forall|i: int| 0 <= i < r implies a[i] == c[i] by {
            assert(a.take(p)[i] == b.take(p)[i]);
            assert(b.take(q)[i] == c.take(q)[i]);
        }
    }
    if p < q {
        assert(b.take(q)[p] == c.take(q)[p]);
    } else if q < p {
        assert(a.take(p)[q] == b.take(p)[q]);
    }
}

/// No byte string comes before itself.
pub proof fn lemma_lex_lt_irreflexive(a: Seq<u8>)
    ensures
        !lex_lt(a, a),
{
}

/// In a list with strictly increasing keys, the map of the list leads from
/// each key to the value that stands beside it.
pub proof fn lemma_entries_map_lookup(entries: Seq<(Seq<u8>, u64)>, at: int)
    requires
        strictly_increasing(entries),
        0 <= at < entries.len(),
    ensures
        entries_map(entries).dom().contains(entries[at].0),
        entries_map(entries)[entries[at].0] == entries[at].1,
{
    let key = entries[at].0;
    let found = choose|i: int| 0 <= i < entries.len() && (#[trigger] entries[i]).0 == key;
    lemma_lex_lt_irreflexive(key);
    if found < at {
        assert(lex_lt(entries[found].0, entries[at].0));
    } else if at < found {
        assert(lex_lt(entries[at].0, entries[found].0));
    }
}

/// Trusted: `fst::Map::new` followed by `fst::raw::Fst::verify`. An image is
/// accepted when its header, its size and its checksum are in order, and
/// the transducer then stands for the map that [`fst_decode`] names. The
/// transducer reads without failure if the image is valid; of an image
/// that is accepted and not valid nothing more is claimed. `Map::new`
/// fails on a machine that cannot hold the two numbers at the end of the
/// image, which is why they must fit.
#[verifier::external_body]
pub(crate) fn fst_load(image: Vec<u8>) -> (r: Option<fst::Map<Vec<u8>>>)
    requires
        header_fits(image@),
    ensures
        match r {
            Some(m) => fst_decode(image@) == Some(dictionary_entries(m)) && (fst_valid(image@)
                ==> dictionary_sound(m)),
            None => fst_decode(image@) is None,
        },
{
    match fst::Map::new(image) {
        Ok(m) => match m.as_fst().verify() {
            Ok(()) => Some(m),
            Err(_) => None,
        },
        Err(_) => None,
    }
}

/// Trusted: `fst::Map::from_iter` on the entries, and the byte image of the
/// transducer it builds. The builder fails exactly when the keys do not
/// increase strictly. The image that it writes is known by its name
/// only, and depends on the entries and on the width of this machine's
/// addresses. It is valid, its two numbers at the end are ones that this
/// machine holds, [`fst_load`] accepts it, and it stands for the map of
/// these entries.
#[verifier::external_body]
pub(crate) fn fst_build(entries: &Vec<(Vec<u8>, u64)>) -> (r: Option<Vec<u8>>)
    ensures
        r is Some <==> strictly_increasing(entries_view(entries@)),
        r matches Some(image) ==> image@ == fst_image(entries_view(entries@), usize::BITS)
            && fst_valid(image@) && header_fits(image@) && fst_decode(image@) == Some(
            entries_map(entries_view(entries@)),
        ),
{
    match fst::Map::from_iter(entries.iter().map(|e| (&e.0, e.1))) {
        Ok(m) => Some(m.into_fst().into_inner()),
        Err(_) => None,
    }
}

/// Trusted: `fst::Map::stream` on a transducer of a valid image yields
/// every entry once, in the lexicographic order of the keys.
#[verifier::external_body]
pub(crate) fn fst_entries(m: &fst::Map<Vec<u8>>) -> (r: Vec<(Vec<u8>, u64)>)
    requires
        dictionary_sound(*m),
    ensures
        strictly_increasing(entries_view(r@)),
        entries_map(entries_view(r@)) == dictionary_entries(*m),
{
    m.stream().into_byte_vec()
}

/// Trusted: `LevenshteinAutomatonBuilder::new` for the given number of
/// edits, with a swap of two neighbours counted as one edit. Making a
/// builder is costly, which is why it is made once and kept.
#[verifier::external_body]
pub(crate) fn automaton_builder(radius: u8) -> (r: LevenshteinAutomatonBuilder)
    requires
        radius <= 3,
    ensures
        automaton_radius(r) == radius,
{
    LevenshteinAutomatonBuilder::new(radius, true)
}

/// Trusted: `fst::Map::search`, on a transducer of a valid image, with the
/// automaton that `LevenshteinAutomatonBuilder::build_dfa` makes for
/// `word`. What comes out is known by its name only, and every item of it
/// is an entry of the transducer.
#[verifier::external_body]
pub(crate) fn fst_search(
    m: &fst::Map<Vec<u8>>,
    builder: &LevenshteinAutomatonBuilder,
    word: &str,
) -> (r: Vec<(Vec<u8>, u64)>)
    requires
        dictionary_sound(*m),
    ensures
        entries_view(r@) == terms_within(dictionary_entries(*m), word@, automaton_radius(*builder)),
        all_in_dictionary(entries_view(r@), dictionary_entries(*m)),
{
    m.search(builder.build_dfa(word)).into_stream().into_byte_vec()
}

/// Trusted: `fst::Map::search`, on a transducer of a valid image, with the
/// automaton that `LevenshteinAutomatonBuilder::build_prefix_dfa` makes
/// for `word`. What comes out is known by its name only, and every item
/// of it is an entry of the transducer.
#[verifier::external_body]
pub(crate) fn fst_search_prefix(
    m: &fst::Map<Vec<u8>>,
    builder: &LevenshteinAutomatonBuilder,
    word: &str,
) -> (r: Vec<(Vec<u8>, u64)>)
    requires
        dictionary_sound(*m),
    ensures
        entries_view(r@) == terms_with_prefix_within(
            dictionary_entries(*m),
            word@,
            automaton_radius(*builder),
        ),
        all_in_dictionary(entries_view(r@), dictionary_entries(*m)),
{
    m.search(builder.build_prefix_dfa(word)).into_stream().into_byte_vec()
}

} // verus!
