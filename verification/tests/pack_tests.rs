//! Archive loading, qualification and cache deduplication.

use std::io::Write;

use guesswho::{CharacterCache, GameError, LoadError, NUM_CHARS};

/// Build an archive of stored (uncompressed) entries.
fn make_zip(entries: &[(String, Vec<u8>)]) -> Vec<u8> {
    let mut w = zip::ZipWriter::new(std::io::Cursor::new(Vec::new()));
    let options = zip::write::SimpleFileOptions::default()
        .compression_method(zip::CompressionMethod::Stored);
    for (name, data) in entries {
        w.start_file(name.as_str(), options).unwrap();
        w.write_all(data).unwrap();
    }
    w.finish().unwrap().into_inner()
}

fn png_entries(count: usize, prefix: &str, fill: impl Fn(usize) -> Vec<u8>) -> Vec<(String, Vec<u8>)> {
    (0..count)
        .map(|i| (format!("{prefix}{i:02}.png"), fill(i)))
        .collect()
}

#[test]
fn full_archive_loads() {
    let mut cache = CharacterCache::new();
    let pack = make_zip(&png_entries(NUM_CHARS, "c", |i| vec![i as u8; 10]));
    let set = cache.load(pack).unwrap();
    assert_eq!(set.0.len(), NUM_CHARS);
}

#[test]
fn one_image_short_fails() {
    let mut cache = CharacterCache::new();
    let mut entries = png_entries(NUM_CHARS - 1, "c", |i| vec![i as u8; 10]);
    entries.push(("notes.txt".to_string(), b"not an image".to_vec()));
    let pack = make_zip(&entries);
    let err = cache.load(pack).unwrap_err();
    assert_eq!(err, LoadError::InsufficientImages);
    assert_eq!(err.general(), GameError::InvalidInput);
}

#[test]
fn empty_input_fails() {
    let mut cache = CharacterCache::new();
    let err = cache.load(Vec::new()).unwrap_err();
    assert_eq!(err, LoadError::Corrupt);
    assert_eq!(err.general(), GameError::InvalidInput);
}

#[test]
fn tiff_does_not_qualify() {
    let mut cache = CharacterCache::new();
    let mut entries = png_entries(NUM_CHARS - 1, "c", |i| vec![i as u8; 10]);
    entries.push(("last.tiff".to_string(), vec![99u8; 10]));
    let pack = make_zip(&entries);
    assert_eq!(cache.load(pack).unwrap_err(), LoadError::InsufficientImages);
}

#[test]
fn non_image_names_do_not_qualify() {
    let mut cache = CharacterCache::new();
    let entries: Vec<(String, Vec<u8>)> = (0..NUM_CHARS)
        .map(|i| (format!("c{i:02}.txt"), vec![i as u8; 10]))
        .collect();
    let pack = make_zip(&entries);
    assert_eq!(cache.load(pack).unwrap_err(), LoadError::InsufficientImages);
}

#[test]
fn oversized_archive_selects_a_full_board() {
    let mut cache = CharacterCache::new();
    // Thirty qualifying images of equal size: whichever twenty-four the
    // random walk picks, the board is full and the cache holds exactly
    // twenty-four of them.
    let pack = make_zip(&png_entries(30, "c", |i| vec![i as u8; 10]));
    let set = cache.load(pack).unwrap();
    assert_eq!(set.0.len(), NUM_CHARS);
    assert_eq!(cache.size(), (NUM_CHARS as u128) * 19);
}

#[test]
fn cache_size_counts_payload_and_tag() {
    let mut cache = CharacterCache::new();
    assert_eq!(cache.size(), 0);
    let pack = make_zip(&png_entries(NUM_CHARS, "c", |i| vec![i as u8; 10]));
    cache.load(pack).unwrap();
    // Each asset: 10 payload bytes plus the "image/png" tag (9 bytes).
    assert_eq!(cache.size(), (NUM_CHARS as u128) * 19);
}

#[test]
fn identical_content_is_counted_once() {
    let mut cache = CharacterCache::new();
    let first = make_zip(&png_entries(NUM_CHARS, "c", |i| vec![i as u8; 10]));
    let _set1 = cache.load(first).unwrap();
    let size1 = cache.size();
    assert_eq!(size1, (NUM_CHARS as u128) * 19);

    // A different archive: 23 fresh images plus one byte-identical to c05.
    let mut entries = png_entries(NUM_CHARS - 1, "d", |i| vec![100 + i as u8; 10]);
    entries.push(("duplicate.png".to_string(), vec![5u8; 10]));
    let second = make_zip(&entries);
    let _set2 = cache.load(second).unwrap();
    let size2 = cache.size();
    assert_eq!(size2, size1 + ((NUM_CHARS - 1) as u128) * 19);
}

#[test]
fn failed_load_leaves_cache_unchanged() {
    let mut cache = CharacterCache::new();
    let pack = make_zip(&png_entries(NUM_CHARS, "c", |i| vec![i as u8; 10]));
    cache.load(pack).unwrap();
    let before = cache.size();
    let short = make_zip(&png_entries(3, "e", |i| vec![200 + i as u8; 10]));
    assert!(cache.load(short).is_err());
    assert_eq!(cache.size(), before);
}
