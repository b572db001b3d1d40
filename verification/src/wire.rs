//! The wire format of an index: big-endian 32-bit counts and lengths in
//! front of the documents, the posting bitmaps and the term dictionary.
//!
//! ```text
//! u32  number of documents
//!      for each document: u32 length in bytes, then the bytes (UTF-8)
//! u32  number of bitmaps
//!      for each bitmap: its serialized form, which frames itself
//! u32  length of the dictionary image in bytes
//!      the dictionary image
//! ```

use crate::bitmap::roaring_decode;
use crate::dictionary::{fst_decode, fst_valid, header_fits};
use crate::index::{Index, IndexView};
use vstd::prelude::*;
use vstd::slice::slice_subrange;
use vstd::utf8::{decode_utf8, valid_utf8};

verus! {

/// The four bytes of a 32-bit number, the most significant first.
pub open spec fn be32(n: u32) -> Seq<u8> {
    seq![
        (n / 0x100_0000) as u8,
        ((n / 0x1_0000) % 0x100) as u8,
        ((n / 0x100) % 0x100) as u8,
        (n % 0x100) as u8,
    ]
}

/// The number that the first four bytes stand for, the most significant
/// byte first.
pub open spec fn from_be32(bytes: Seq<u8>) -> u32
    recommends
        bytes.len() >= 4,
{
    (bytes[0] * 0x100_0000 + bytes[1] * 0x1_0000 + bytes[2] * 0x100 + bytes[3]) as u32
}

/// Reads a 32-bit number from the front: the number and what follows it,
/// or `None` when fewer than four bytes are there.
pub open spec fn parse_size(bytes: Seq<u8>) -> Option<(u32, Seq<u8>)> {
    if bytes.len() < 4 {
        None
    } else {
        Some((from_be32(bytes), bytes.skip(4)))
    }
}

/// Reads a length and that many bytes from the front: the bytes and what
/// follows them, or `None` when the input ends too early.
pub open spec fn parse_slice(bytes: Seq<u8>) -> Option<(Seq<u8>, Seq<u8>)> {
    match parse_size(bytes) {
        Some((size, rest)) => if rest.len() < size {
            None
        } else {
            Some((rest.take(size as int), rest.skip(size as int)))
        },
        None => None,
    }
}

/// Reads `count` documents from the front: the documents and what follows
/// them, or `None` when the input ends too early or a document is not
/// valid UTF-8.
pub open spec fn parse_documents(bytes: Seq<u8>, count: nat) -> Option<(Seq<Seq<char>>, Seq<u8>)>
    decreases count,
{
    if count == 0 {
        Some((Seq::empty(), bytes))
    } else {
        match parse_slice(bytes) {
            Some((document, rest)) => if valid_utf8(document) {
                match parse_documents(rest, (count - 1) as nat) {
                    Some((documents, left)) => Some((seq![decode_utf8(document)] + documents, left)),
                    None => None,
                }
            } else {
                None
            },
            None => None,
        }
    }
}

/// Reads `count` bitmaps from the front: their sets and what follows them,
/// or `None` when a bitmap cannot be read.
pub open spec fn parse_bitmaps(bytes: Seq<u8>, count: nat) -> Option<(Seq<Set<u32>>, Seq<u8>)>
    decreases count,
{
    if count == 0 {
        Some((Seq::empty(), bytes))
    } else {
        match roaring_decode(bytes) {
            Some((set, used)) => if 0 <= used <= bytes.len() {
                match parse_bitmaps(bytes.skip(used), (count - 1) as nat) {
                    Some((sets, left)) => Some((seq![set] + sets, left)),
                    None => None,
                }
            } else {
                None
            },
            None => None,
        }
    }
}

/// Reads the three parts of an index: the documents, the posting sets and
/// the dictionary image, and gives them with the bytes that follow the
/// image. `None` when the input ends too early or a document or a bitmap
/// cannot be read.
pub open spec fn parse_parts(bytes: Seq<u8>) -> Option<
    (Seq<Seq<char>>, Seq<Set<u32>>, Seq<u8>, Seq<u8>),
> {
    match parse_size(bytes) {
        Some((document_count, after_count)) => match parse_documents(
            after_count,
            document_count as nat,
        ) {
            Some((documents, after_documents)) => match parse_size(after_documents) {
                Some((bitmap_count, after_bitmap_count)) => match parse_bitmaps(
                    after_bitmap_count,
                    bitmap_count as nat,
                ) {
                    Some((postings, after_bitmaps)) => match parse_slice(after_bitmaps) {
                        Some((image, rest)) => Some((documents, postings, image, rest)),
                        None => None,
                    },
                    None => None,
                },
                None => None,
            },
            None => None,
        },
        None => None,
    }
}

/// Reads an index: `None` when one of its parts cannot be read, this
/// machine cannot hold the numbers at the end of the dictionary image,
/// the image is not accepted, or what was read is not a well-formed
/// index. Bytes behind the dictionary image are not looked at.
pub open spec fn parse_index(bytes: Seq<u8>) -> Option<IndexView> {
    match parse_parts(bytes) {
        Some((documents, postings, image, _)) => if header_fits(image) {
            match fst_decode(image) {
                Some(dictionary) => {
                    let index = IndexView { documents, postings, dictionary };
                    if index.wf() {
                        Some(index)
                    } else {
                        None
                    }
                },
                None => None,
            }
        } else {
            None
        },
        None => None,
    }
}

/// Whether the input is the three parts of an index and nothing more: no
/// byte follows the dictionary image.
pub open spec fn nothing_follows(bytes: Seq<u8>) -> bool {
    parse_parts(bytes) matches Some((_, _, _, rest)) && rest.len() == 0
}

/// Whether the dictionary image of the input can be relied on: if the
/// input has one and it is accepted, it is a valid transducer. Header,
/// size and checksum of an image are checked when it is loaded; that the
/// image is valid beyond that cannot be checked and is the caller's to
/// see to. It holds of what [`Index::construct`] writes.
pub open spec fn image_reliable(bytes: Seq<u8>) -> bool {
    match parse_parts(bytes) {
        Some((_, _, image, _)) => header_fits(image) && fst_decode(image) is Some ==> fst_valid(
            image,
        ),
        None => true,
    }
}

/// Reading back a number that was written gives the number.
pub proof fn lemma_be32_round_trip(n: u32, rest: Seq<u8>)
    ensures
        parse_size(be32(n) + rest) == Some((n, rest)),
{
    let bytes = be32(n) + rest;
    assert(bytes.skip(4) =~= rest);
    assert(bytes[0] == be32(n)[0] && bytes[1] == be32(n)[1] && bytes[2] == be32(n)[2] && bytes[3]
        == be32(n)[3]);
}

/// Reading back a length and bytes that were written gives the bytes.
pub proof fn lemma_slice_round_trip(slice: Seq<u8>, rest: Seq<u8>)
    requires
        slice.len() <= u32::MAX,
    ensures
        parse_slice(be32(slice.len() as u32) + slice + rest) == Some((slice, rest)),
{
    let bytes = be32(slice.len() as u32) + slice + rest;
    assert(bytes =~= be32(slice.len() as u32) + (slice + rest));
    lemma_be32_round_trip(slice.len() as u32, slice + rest);
    assert((slice + rest).take(slice.len() as int) =~= slice);
    assert((slice + rest).skip(slice.len() as int) =~= rest);
}

/// Reading one more document behind `count` documents.
pub proof fn lemma_parse_documents_step(
    bytes: Seq<u8>,
    count: nat,
    documents: Seq<Seq<char>>,
    rest: Seq<u8>,
    document: Seq<u8>,
    after: Seq<u8>,
)
    requires
        parse_documents(bytes, count) == Some((documents, rest)),
        parse_slice(rest) == Some((document, after)),
        valid_utf8(document),
    ensures
        parse_documents(bytes, count + 1) == Some((documents.push(decode_utf8(document)), after)),
    decreases count,
{
    if count == 0 {
        assert(parse_documents(after, 0) == Some((Seq::<Seq<char>>::empty(), after)));
        assert(seq![decode_utf8(document)] + Seq::<Seq<char>>::empty() =~= documents.push(
            decode_utf8(document),
        ));
    } else {
        let (first, left) = parse_slice(bytes).unwrap();
        let (others, end) = parse_documents(left, (count - 1) as nat).unwrap();
        lemma_parse_documents_step(left, (count - 1) as nat, others, rest, document, after);
        assert(seq![decode_utf8(first)] + others.push(decode_utf8(document)) =~= (seq![
            decode_utf8(first),
        ] + others).push(decode_utf8(document)));
    }
}

/// Reading one more bitmap behind `count` bitmaps.
pub proof fn lemma_parse_bitmaps_step(
    bytes: Seq<u8>,
    count: nat,
    sets: Seq<Set<u32>>,
    rest: Seq<u8>,
    set: Set<u32>,
    used: int,
)
    requires
        parse_bitmaps(bytes, count) == Some((sets, rest)),
        roaring_decode(rest) == Some((set, used)),
        0 <= used <= rest.len(),
    ensures
        parse_bitmaps(bytes, count + 1) == Some((sets.push(set), rest.skip(used))),
    decreases count,
{
    if count == 0 {
        assert(parse_bitmaps(rest.skip(used), 0) == Some(
            (Seq::<Set<u32>>::empty(), rest.skip(used)),
        ));
        assert(seq![set] + Seq::<Set<u32>>::empty() =~= sets.push(set));
    } else {
        let (first, taken) = roaring_decode(bytes).unwrap();
        let (others, end) = parse_bitmaps(bytes.skip(taken), (count - 1) as nat).unwrap();
        lemma_parse_bitmaps_step(bytes.skip(taken), (count - 1) as nat, others, rest, set, used);
        assert(seq![first] + others.push(set) =~= (seq![first] + others).push(set));
    }
}

/// A length and bytes that are cut short do not read back.
pub proof fn lemma_cut_slice(slice: Seq<u8>, cut: int)
    requires
        slice.len() <= u32::MAX,
        0 <= cut < 4 + slice.len(),
    ensures
        parse_slice((be32(slice.len() as u32) + slice).take(cut)) is None,
{
    let whole = be32(slice.len() as u32) + slice;
    let part = whole.take(cut);
    if cut >= 4 {
        assert(part =~= be32(slice.len() as u32) + slice.take(cut - 4));
        lemma_be32_round_trip(slice.len() as u32, slice.take(cut - 4));
    }
}

/// Where `count` documents cannot be read, one more cannot be read either.
pub proof fn lemma_parse_documents_fails_on(bytes: Seq<u8>, count: nat)
    requires
        parse_documents(bytes, count) is None,
    ensures
        parse_documents(bytes, count + 1) is None,
    decreases count,
{
    if count > 0 {
        match parse_slice(bytes) {
            Some((document, rest)) => {
                if valid_utf8(document) {
                    lemma_parse_documents_fails_on(rest, (count - 1) as nat);
                }
            },
            None => {},
        }
    }
}

/// Where nothing can be read behind `count` documents, one more document
/// cannot be read.
pub proof fn lemma_parse_documents_stuck(
    bytes: Seq<u8>,
    count: nat,
    documents: Seq<Seq<char>>,
    rest: Seq<u8>,
)
    requires
        parse_documents(bytes, count) == Some((documents, rest)),
        parse_slice(rest) is None,
    ensures
        parse_documents(bytes, count + 1) is None,
    decreases count,
{
    if count > 0 {
        let (first, left) = parse_slice(bytes).unwrap();
        let (others, end) = parse_documents(left, (count - 1) as nat).unwrap();
        lemma_parse_documents_stuck(left, (count - 1) as nat, others, rest);
    }
}

/// Where `count` bitmaps cannot be read, one more cannot be read either.
pub proof fn lemma_parse_bitmaps_fails_on(bytes: Seq<u8>, count: nat)
    requires
        parse_bitmaps(bytes, count) is None,
    ensures
        parse_bitmaps(bytes, count + 1) is None,
    decreases count,
{
    if count > 0 {
        match roaring_decode(bytes) {
            Some((set, used)) => {
                if 0 <= used <= bytes.len() {
                    lemma_parse_bitmaps_fails_on(bytes.skip(used), (count - 1) as nat);
                }
            },
            None => {},
        }
    }
}

/// Where no bitmap can be read behind `count` bitmaps, one more bitmap
/// cannot be read.
pub proof fn lemma_parse_bitmaps_stuck(
    bytes: Seq<u8>,
    count: nat,
    sets: Seq<Set<u32>>,
    rest: Seq<u8>,
)
    requires
        parse_bitmaps(bytes, count) == Some((sets, rest)),
        roaring_decode(rest) is None,
    ensures
        parse_bitmaps(bytes, count + 1) is None,
    decreases count,
{
    if count > 0 {
        let (first, taken) = roaring_decode(bytes).unwrap();
        let (others, end) = parse_bitmaps(bytes.skip(taken), (count - 1) as nat).unwrap();
        lemma_parse_bitmaps_stuck(bytes.skip(taken), (count - 1) as nat, others, rest);
    }
}

/// Whether the input, cut behind its first `cut` bytes, is no index.
pub open spec fn cut_is_no_index(bytes: Seq<u8>, cut: int) -> bool {
    parse_parts(bytes.take(cut)) is None && parse_index(bytes.take(cut)) is None
}

/// Whether the input is no index any more once it is cut short, wherever
/// it is cut.
pub open spec fn no_cut_is_an_index(bytes: Seq<u8>) -> bool {
    forall|cut: int| 0 <= cut < bytes.len() ==> #[trigger] cut_is_no_index(bytes, cut)
}

impl Index {
    /// Appends a 32-bit number, the most significant byte first.
    pub fn write_size(writer: &mut Vec<u8>, size: u32)
        ensures
            final(writer)@ == old(writer)@ + be32(size),
    {
        writer.push((size / 0x100_0000) as u8);
        writer.push(((size / 0x1_0000) % 0x100) as u8);
        writer.push(((size / 0x100) % 0x100) as u8);
        writer.push((size % 0x100) as u8);
        assert(writer@ =~= old(writer)@ + be32(size));
    }

    /// Appends the length of `slice` and then its bytes, and tells whether
    /// it did: a slice whose length does not fit in 32 bits is not written.
    pub fn write_slice(writer: &mut Vec<u8>, slice: &[u8]) -> (written: bool)
        ensures
            written == (slice@.len() <= u32::MAX),
            written ==> final(writer)@ == old(writer)@ + be32(slice@.len() as u32) + slice@,
            !written ==> final(writer)@ == old(writer)@,
    {
        if slice.len() > u32::MAX as usize {
            return false;
        }
        Index::write_size(writer, slice.len() as u32);
        let ghost header = writer@;
        for i in 0..slice.len()
            invariant
                writer@ == header + slice@.take(i as int),
        {
            writer.push(slice[i]);
            assert(slice@.take(i + 1) =~= slice@.take(i as int).push(slice@[i as int]));
        }
        assert(slice@.take(slice@.len() as int) =~= slice@);
        true
    }

    /// Reads a 32-bit number from the front of `bytes` and moves `bytes`
    /// behind it. When fewer than four bytes are there, nothing is read and
    /// `bytes` stays where it is.
    pub fn read_size_from_bytes(bytes: &mut &[u8]) -> (r: Option<u32>)
        ensures
            match r {
                Some(size) => parse_size(old(bytes)@) == Some((size, final(bytes)@)),
                None => parse_size(old(bytes)@) is None && *final(bytes) == *old(bytes),
            },
    {
        let all = *bytes;
        if all.len() < 4 {
            None
        } else {
            let size = (all[0] as u32) * 0x100_0000 + (all[1] as u32) * 0x1_0000 + (all[2] as u32)
                * 0x100 + (all[3] as u32);
            let rest = slice_subrange(all, 4, all.len());
            assert(rest@ =~= all@.skip(4));
            *bytes = rest;
            Some(size)
        }
    }

    /// Reads a length and that many bytes from the front of `bytes`, gives
    /// these bytes and moves `bytes` behind them. Nothing is returned when
    /// the input ends too early.
    pub fn read_slice_from_bytes<'b>(bytes: &mut &'b [u8]) -> (r: Option<&'b [u8]>)
        ensures
            match r {
                Some(slice) => parse_slice(old(bytes)@) == Some((slice@, final(bytes)@)),
                None => parse_slice(old(bytes)@) is None,
            },
    {
        match Index::read_size_from_bytes(bytes) {
            Some(size) => {
                let rest = *bytes;
                if rest.len() < size as usize {
                    None
                } else {
                    let slice = slice_subrange(rest, 0, size as usize);
                    let left = slice_subrange(rest, size as usize, rest.len());
                    assert(slice@ =~= rest@.take(size as int));
                    assert(left@ =~= rest@.skip(size as int));
                    *bytes = left;
                    Some(slice)
                }
            },
            None => None,
        }
    }
}

} // verus!
