use roaring::RoaringBitmap;
use zearch::dictionary::{image_header_fits, read_le64};
use zearch::{Index, Search};

fn be(n: u32) -> [u8; 4] {
    n.to_be_bytes()
}

#[test]
fn sizes_are_written_big_endian() {
    let mut out = vec![7u8];
    Index::write_size(&mut out, 0x0102_0304);
    assert_eq!(out, vec![7, 1, 2, 3, 4]);
    let mut out = Vec::new();
    Index::write_size(&mut out, 0);
    Index::write_size(&mut out, u32::MAX);
    Index::write_size(&mut out, 258);
    assert_eq!(out, vec![0, 0, 0, 0, 255, 255, 255, 255, 0, 0, 1, 2]);
}

#[test]
fn slices_are_written_with_their_length() {
    let mut out = Vec::new();
    assert!(Index::write_slice(&mut out, b"abc"));
    assert!(Index::write_slice(&mut out, b""));
    assert_eq!(out, vec![0, 0, 0, 3, b'a', b'b', b'c', 0, 0, 0, 0]);
}

#[test]
fn sizes_are_read_big_endian() {
    let mut bytes: &[u8] = &[1, 2, 3, 4, 5, 6];
    assert_eq!(Index::read_size_from_bytes(&mut bytes), Some(0x0102_0304));
    assert_eq!(bytes, &[5, 6]);
    // too short: nothing is read
    assert_eq!(Index::read_size_from_bytes(&mut bytes), None);
    assert_eq!(bytes, &[5, 6]);
    let mut bytes: &[u8] = &[255, 255, 255, 255];
    assert_eq!(Index::read_size_from_bytes(&mut bytes), Some(u32::MAX));
    assert!(bytes.is_empty());
    assert_eq!(Index::read_size_from_bytes(&mut bytes), None);
}

#[test]
fn slices_are_read_with_their_length() {
    let mut bytes: &[u8] = &[0, 0, 0, 2, 9, 8, 0, 0, 0, 0, 7];
    assert_eq!(Index::read_slice_from_bytes(&mut bytes), Some(&[9u8, 8][..]));
    assert_eq!(bytes, &[0, 0, 0, 0, 7]);
    assert_eq!(Index::read_slice_from_bytes(&mut bytes), Some(&[][..]));
    assert_eq!(bytes, &[7]);
    assert_eq!(Index::read_slice_from_bytes(&mut bytes), None);
    let mut bytes: &[u8] = &[0, 0, 0, 4, 9, 8, 7];
    assert_eq!(Index::read_slice_from_bytes(&mut bytes), None);
    let mut bytes: &[u8] = &[0, 0, 4];
    assert_eq!(Index::read_slice_from_bytes(&mut bytes), None);
}

#[test]
fn written_sizes_are_read_back() {
    for n in [0u32, 1, 255, 256, 65535, 65536, 0x00ff_ffff, 0x0100_0000, u32::MAX] {
        let mut out = Vec::new();
        Index::write_size(&mut out, n);
        assert_eq!(out, be(n));
        let mut bytes = out.as_slice();
        assert_eq!(Index::read_size_from_bytes(&mut bytes), Some(n));
        assert!(bytes.is_empty());
    }
}

#[test]
fn written_slices_are_read_back() {
    let mut out = Vec::new();
    assert!(Index::write_slice(&mut out, b"kefir"));
    assert!(Index::write_slice(&mut out, b"tamo"));
    let mut bytes = out.as_slice();
    assert_eq!(Index::read_slice_from_bytes(&mut bytes), Some(&b"kefir"[..]));
    assert_eq!(Index::read_slice_from_bytes(&mut bytes), Some(&b"tamo"[..]));
    assert!(bytes.is_empty());
}

#[test]
fn construct_writes_the_wire_format() {
    let blob = Index::construct(&["b a", "B"]).unwrap();
    let mut expected = Vec::new();
    expected.extend(be(2));
    expected.extend(be(3));
    expected.extend(b"b a");
    expected.extend(be(1));
    expected.extend(b"B");
    expected.extend(be(2));
    // the terms in their order: "a" in the first document, "b" in both
    RoaringBitmap::from_sorted_iter([0]).unwrap().serialize_into(&mut expected).unwrap();
    RoaringBitmap::from_sorted_iter([0, 1]).unwrap().serialize_into(&mut expected).unwrap();
    let fst = fst::Map::from_iter([("a", 0u64), ("b", 1u64)]).unwrap();
    let image = fst.as_fst().as_bytes();
    expected.extend(be(image.len() as u32));
    expected.extend(image);
    assert_eq!(blob, expected);
}

#[test]
fn construct_of_nothing_is_a_well_formed_index() {
    let blob = Index::construct(&[]).unwrap();
    assert_eq!(&blob[..8], &[0, 0, 0, 0, 0, 0, 0, 0]);
    let index = Index::from_bytes(&blob).unwrap();
    assert_eq!(index.get_document(0), None);
    assert_eq!(index.search(&Search::new("tamo")), Vec::<u32>::new());
}

#[test]
fn loading_gives_back_the_documents() {
    let documents = ["Tamo le plus beau", "", "c'est très bon", "   "];
    let blob = Index::construct(&documents).unwrap();
    let index = Index::from_bytes(&blob).unwrap();
    for (id, document) in documents.iter().enumerate() {
        assert_eq!(index.get_document(id as u32), Some(*document));
    }
    assert_eq!(index.get_document(4), None);
    assert_eq!(index.get_document(u32::MAX), None);
}

#[test]
fn loaded_and_built_indexes_find_the_same() {
    let documents = [
        "Tamo le plus beau",
        "kefir le bon petit chien",
        "kefir le beau chien",
        "tamo est très beau aussi",
        "le double kef",
    ];
    let blob = Index::construct(&documents).unwrap();
    let loaded = Index::from_bytes(&blob).unwrap();
    let built = Index::new_in_memory(&documents).unwrap();
    let owned = Index::from_bytes(&blob).unwrap().move_in_memory();
    for query in ["tamo", "kef", "le beau", "chien kefir", "", "bon petit chien", "tres"] {
        let search = Search::new(query);
        let found = loaded.search(&search);
        assert_eq!(found, built.search(&search));
        assert_eq!(found, owned.search(&search));
    }
    assert_eq!(loaded.search(&Search::new("tres")), vec![3]);
}

#[test]
fn truncated_input_is_not_loaded() {
    let blob = Index::construct(&["Tamo le plus beau", "kefir"]).unwrap();
    assert!(Index::from_bytes(&blob).is_some());
    for length in 0..blob.len() {
        assert!(Index::from_bytes(&blob[..length]).is_none(), "length {}", length);
    }
}

#[test]
fn trailing_bytes_are_not_looked_at() {
    let mut blob = Index::construct(&["Tamo le plus beau", "kefir"]).unwrap();
    blob.extend([1, 2, 3]);
    let index = Index::from_bytes(&blob).unwrap();
    assert_eq!(index.search(&Search::new("kefir")), vec![1]);
}

#[test]
fn documents_must_be_utf8() {
    let mut blob = Vec::new();
    blob.extend(be(1));
    blob.extend(be(2));
    blob.extend([0xff, 0xfe]);
    blob.extend(be(0));
    let image = fst::Map::from_iter(Vec::<(&str, u64)>::new()).unwrap();
    blob.extend(be(image.as_fst().as_bytes().len() as u32));
    blob.extend(image.as_fst().as_bytes());
    assert!(Index::from_bytes(&blob).is_none());
    // the same with a document that is valid
    blob[8] = b'o';
    blob[9] = b'k';
    let index = Index::from_bytes(&blob).unwrap();
    assert_eq!(index.get_document(0), Some("ok"));
}

fn blob_of(documents: &[&str], bitmaps: &[RoaringBitmap], terms: &[(&[u8], u64)]) -> Vec<u8> {
    let mut blob = Vec::new();
    blob.extend(be(documents.len() as u32));
    for document in documents {
        blob.extend(be(document.len() as u32));
        blob.extend(document.as_bytes());
    }
    blob.extend(be(bitmaps.len() as u32));
    for bitmap in bitmaps {
        bitmap.serialize_into(&mut blob).unwrap();
    }
    let image = fst::Map::from_iter(terms.iter().copied()).unwrap();
    blob.extend(be(image.as_fst().as_bytes().len() as u32));
    blob.extend(image.as_fst().as_bytes());
    blob
}

#[test]
fn a_hand_made_index_is_loaded() {
    let postings = [RoaringBitmap::from_sorted_iter([0, 1]).unwrap()];
    let blob = blob_of(&["tamo", "Tamo"], &postings, &[(b"tamo", 0)]);
    let index = Index::from_bytes(&blob).unwrap();
    assert_eq!(index.search(&Search::new("tamo")), vec![0, 1]);
}

#[test]
fn postings_must_name_documents_that_exist() {
    let postings = [RoaringBitmap::from_sorted_iter([0, 2]).unwrap()];
    let blob = blob_of(&["tamo", "Tamo"], &postings, &[(b"tamo", 0)]);
    assert!(Index::from_bytes(&blob).is_none());
}

#[test]
fn terms_must_lead_to_posting_sets_that_exist() {
    let postings = [RoaringBitmap::from_sorted_iter([0, 1]).unwrap()];
    let blob = blob_of(&["tamo", "Tamo"], &postings, &[(b"tamo", 1)]);
    assert!(Index::from_bytes(&blob).is_none());
    let blob = blob_of(&["tamo", "Tamo"], &postings, &[(b"kefir", 0), (b"tamo", u64::MAX)]);
    assert!(Index::from_bytes(&blob).is_none());
}

#[test]
fn terms_must_be_utf8() {
    let postings = [RoaringBitmap::from_sorted_iter([0, 1]).unwrap()];
    let blob = blob_of(&["tamo", "Tamo"], &postings, &[(&[b't', 0xff], 0)]);
    assert!(Index::from_bytes(&blob).is_none());
}

#[test]
fn a_broken_dictionary_image_is_not_loaded() {
    let mut blob = Index::construct(&["Tamo le plus beau", "kefir"]).unwrap();
    let last = blob.len() - 1;
    blob[last] ^= 0x55;
    assert!(Index::from_bytes(&blob).is_none());
    let mut blob = Index::construct(&["Tamo le plus beau", "kefir"]).unwrap();
    let middle = blob.len() - 30;
    blob[middle] ^= 0x55;
    assert!(Index::from_bytes(&blob).is_none());
}

#[test]
fn a_broken_bitmap_is_not_loaded() {
    let mut blob = Vec::new();
    blob.extend(be(0));
    blob.extend(be(1));
    blob.extend([1, 2, 3, 4, 5, 6, 7, 8]);
    let image = fst::Map::from_iter(Vec::<(&str, u64)>::new()).unwrap();
    blob.extend(be(image.as_fst().as_bytes().len() as u32));
    blob.extend(image.as_fst().as_bytes());
    assert!(Index::from_bytes(&blob).is_none());
}

#[test]
fn a_bitmap_whose_containers_are_out_of_order_is_not_loaded() {
    // two containers, keys 1 and 0, one value each
    let mut bitmap = Vec::new();
    bitmap.extend(12346u32.to_le_bytes());
    bitmap.extend(2u32.to_le_bytes());
    bitmap.extend(1u16.to_le_bytes());
    bitmap.extend(0u16.to_le_bytes());
    bitmap.extend(0u16.to_le_bytes());
    bitmap.extend(0u16.to_le_bytes());
    bitmap.extend(24u32.to_le_bytes());
    bitmap.extend(26u32.to_le_bytes());
    bitmap.extend(0u16.to_le_bytes());
    bitmap.extend(0u16.to_le_bytes());
    assert!(RoaringBitmap::deserialize_from(&bitmap[..]).is_ok());
    let documents: Vec<String> = (0..3).map(|n| format!("d{}", n)).collect();
    let mut blob = Vec::new();
    blob.extend(be(3));
    for document in documents.iter() {
        blob.extend(be(document.len() as u32));
        blob.extend(document.as_bytes());
    }
    blob.extend(be(1));
    blob.extend(bitmap);
    let image = fst::Map::from_iter([("d0", 0u64)]).unwrap();
    blob.extend(be(image.as_fst().as_bytes().len() as u32));
    blob.extend(image.as_fst().as_bytes());
    assert!(Index::from_bytes(&blob).is_none());
}

#[test]
fn every_word_of_every_document_is_found() {
    let documents = ["Tamo le plus beau", "kefir le bon petit chien", "c'est très bon"];
    let index = Index::new_in_memory(&documents).unwrap();
    assert_eq!(index.search(&Search::new("tamo")), vec![0]);
    assert_eq!(index.search(&Search::new("le")), vec![0, 1]);
    assert_eq!(index.search(&Search::new("bon")), vec![1, 2]);
    assert_eq!(index.search(&Search::new("cest")), vec![2]);
    assert_eq!(index.search(&Search::new("C'EST")), vec![2]);
    assert_eq!(index.search(&Search::new("tres")), vec![2]);
    assert_eq!(index.search(&Search::new("zzz")), Vec::<u32>::new());
}

#[test]
fn postings_are_checked_against_the_number_of_documents() {
    let bitmaps = vec![
        RoaringBitmap::from_sorted_iter([0, 4]).unwrap(),
        RoaringBitmap::new(),
        RoaringBitmap::from_sorted_iter([2]).unwrap(),
    ];
    assert!(Index::postings_in_range(&bitmaps, 5));
    assert!(Index::postings_in_range(&bitmaps, 100));
    assert!(!Index::postings_in_range(&bitmaps, 4));
    assert!(!Index::postings_in_range(&bitmaps, 0));
    assert!(Index::postings_in_range(&Vec::new(), 0));
    assert!(Index::postings_in_range(&vec![RoaringBitmap::new()], 0));
}

#[test]
fn entries_are_checked_against_the_number_of_postings() {
    let entries = vec![(b"kefir".to_vec(), 1u64), ("très".as_bytes().to_vec(), 0)];
    assert!(Index::entries_in_range(&entries, 2));
    assert!(!Index::entries_in_range(&entries, 1));
    assert!(!Index::entries_in_range(&entries, 0));
    assert!(Index::entries_in_range(&Vec::new(), 0));
    assert!(!Index::entries_in_range(&vec![(vec![0xc3u8], 0u64)], 5));
    assert!(!Index::entries_in_range(&vec![(b"a".to_vec(), u64::MAX)], usize::MAX));
}

#[test]
fn a_word_of_which_normalization_leaves_nothing_is_not_indexed() {
    let blob = Index::construct(&["a !!!"]).unwrap();
    assert_eq!(&blob[..13], &[0, 0, 0, 1, 0, 0, 0, 5, 0x61, 0x20, 0x21, 0x21, 0x21]);
    // one term, "a"
    assert_eq!(&blob[13..17], &[0, 0, 0, 1]);
    let mut expected = blob[..17].to_vec();
    RoaringBitmap::from_sorted_iter([0]).unwrap().serialize_into(&mut expected).unwrap();
    let image = fst::Map::from_iter([("a", 0u64)]).unwrap();
    expected.extend(be(image.as_fst().as_bytes().len() as u32));
    expected.extend(image.as_fst().as_bytes());
    assert_eq!(blob, expected);
    // no term at all
    let blob = Index::construct(&["... ?!", "", " - "]).unwrap();
    let bitmaps = 4 + (4 + 6) + 4 + (4 + 3);
    assert_eq!(&blob[bitmaps..bitmaps + 4], &[0, 0, 0, 0]);
    let index = Index::from_bytes(&blob).unwrap();
    assert_eq!(index.get_document(0), Some("... ?!"));
    assert_eq!(index.search(&Search::new("...")), Vec::<u32>::new());
}

#[test]
fn the_parts_of_an_index_are_written_one_after_the_other() {
    let bitmaps = vec![RoaringBitmap::from_sorted_iter([0, 1]).unwrap(), RoaringBitmap::new()];
    let blob = Index::write_parts(&["ab", ""], &bitmaps, &[9, 8, 7]).unwrap();
    let mut expected = Vec::new();
    expected.extend(be(2));
    expected.extend(be(2));
    expected.extend(b"ab");
    expected.extend(be(0));
    expected.extend(be(2));
    bitmaps[0].serialize_into(&mut expected).unwrap();
    bitmaps[1].serialize_into(&mut expected).unwrap();
    expected.extend(be(3));
    expected.extend([9, 8, 7]);
    assert_eq!(blob, expected);
    assert_eq!(
        Index::write_parts(&[], &Vec::new(), &[]).unwrap(),
        vec![0, 0, 0, 0, 0, 0, 0, 0, 0, 0, 0, 0]
    );
}

#[test]
fn numbers_are_read_least_significant_byte_first() {
    let bytes = [9, 1, 2, 3, 4, 5, 6, 7, 8, 9];
    assert_eq!(read_le64(&bytes, 1), 0x0807_0605_0403_0201);
    assert_eq!(read_le64(&bytes, 0), 0x0706_0504_0302_0109);
    assert_eq!(read_le64(&[255; 8], 0), u64::MAX);
    assert_eq!(read_le64(&[0, 0, 0, 0, 0, 0, 0, 0x80], 0), 1 << 63);
    assert_eq!(read_le64(&[1, 0, 0, 0, 0, 0, 0, 0], 0), 1);
}

#[test]
fn the_numbers_at_the_end_of_an_image_must_fit() {
    // too short to have any
    assert!(image_header_fits(&[]));
    assert!(image_header_fits(&[255; 35]));
    let image = fst::Map::from_iter([("a", 0u64), ("b", 1u64)]).unwrap();
    assert!(image_header_fits(image.as_fst().as_bytes()));
    // a third-version image: the numbers stand in front of the checksum
    let mut image = vec![0u8; 36];
    image[0] = 3;
    assert!(image_header_fits(&image));
    image[16..32].copy_from_slice(&[255; 16]);
    assert_eq!(image_header_fits(&image), usize::BITS >= 64);
    image[16..32].copy_from_slice(&[255, 255, 255, 255, 0, 0, 0, 0, 255, 255, 255, 255, 0, 0, 0, 0]);
    assert!(image_header_fits(&image));
    // only the last four bytes, the checksum, are large
    let mut image = vec![0u8; 36];
    image[0] = 3;
    image[32..].copy_from_slice(&[255; 4]);
    assert!(image_header_fits(&image));
    // an image of the second version has no checksum
    let mut image = vec![0u8; 36];
    image[0] = 2;
    image[32..].copy_from_slice(&[255; 4]);
    assert!(image_header_fits(&image));
    image[28..].copy_from_slice(&[255; 8]);
    assert_eq!(image_header_fits(&image), usize::BITS >= 64);
}

#[test]
fn nothing_follows_the_dictionary_image() {
    let blob = Index::construct(&["b a", "B"]).unwrap();
    let image = fst::Map::from_iter([("a", 0u64), ("b", 1u64)]).unwrap();
    let image = image.as_fst().as_bytes();
    assert_eq!(&blob[blob.len() - image.len()..], image);
    assert_eq!(&blob[blob.len() - image.len() - 4..blob.len() - image.len()], &be(image.len() as u32));
}
