use dedupe_estimator::{Chunk, ChunkStore};

#[test]
fn a_new_registry_is_empty() {
    let store = ChunkStore::new(false);
    assert_eq!(store.total_bytes(), 0);
    assert!(store.order().is_empty());
    assert!(store.chunks().is_empty());
    assert_eq!(store.stats(), (0, 0, 0));
    assert_eq!(store.try_stats(), Some((0, 0, 0)));
    assert!(store.segments().is_empty());
}

#[test]
fn add_hashes_with_xxh3() {
    let mut store = ChunkStore::new(false);
    store.add(b"");
    store.add(b"hello world");
    assert_eq!(store.order()[0], 0x2d06_8005_38d3_94c2);
    assert_eq!(store.order()[1], xxhash_rust::xxh3::xxh3_64(b"hello world"));
    assert_ne!(store.order()[0], store.order()[1]);
    assert_eq!(store.total_bytes(), 11);
}

#[test]
fn add_measures_the_lz4_block() {
    let mut store = ChunkStore::new(false);
    let zeros = vec![0u8; 10_000];
    store.add(&zeros);
    let entry = &store.chunks()[0].1;
    assert_eq!(entry.size(), 10_000);
    assert_eq!(
        entry.compressed_size(),
        lz4_flex::block::compress(&zeros).len()
    );
    assert!(entry.compressed_size() < 100);
    assert!(entry.compressed_size() > 0);
}

#[test]
fn add_keeps_the_bytes_only_when_asked() {
    let mut keeping = ChunkStore::new(true);
    keeping.add(b"abc");
    assert_eq!(keeping.chunks()[0].1.data(), &Some(b"abc".to_vec()));

    let mut dropping = ChunkStore::new(false);
    dropping.add(b"abc");
    assert_eq!(dropping.chunks()[0].1.data(), &None);
}

#[test]
fn a_repeated_chunk_counts_its_bytes_and_keeps_one_entry() {
    let mut store = ChunkStore::new(false);
    store.add(b"aaaa");
    store.add(b"bb");
    store.add(b"aaaa");
    assert_eq!(store.total_bytes(), 10);
    assert_eq!(store.order().len(), 3);
    assert_eq!(store.order()[0], store.order()[2]);
    let (total, unique, compressed) = store.stats();
    assert_eq!(total, 10);
    assert_eq!(unique, 6);
    let listing = store.chunks();
    assert_eq!(listing.len(), 3);
    assert_eq!(listing[0].1.size(), 4);
    assert_eq!(listing[1].1.size(), 2);
    assert_eq!(listing[2].1.size(), 4);
    assert_eq!(
        compressed,
        listing[0].1.compressed_size() + listing[1].1.compressed_size()
    );
}

#[test]
fn record_lets_the_first_entry_of_a_hash_stand() {
    let mut store = ChunkStore::new(false);
    store.record(7, 100, 40, None);
    store.record(9, 10, 12, Some(vec![1, 2, 3]));
    store.record(7, 5, 1, None);
    assert_eq!(store.total_bytes(), 115);
    assert_eq!(store.order(), &vec![7, 9, 7]);
    assert_eq!(store.stats(), (115, 110, 52));
    let listing = store.chunks();
    assert_eq!(listing[2].0, 7);
    assert_eq!(listing[2].1.size(), 100);
    assert_eq!(listing[2].1.compressed_size(), 40);
    assert_eq!(listing[1].1.data(), &Some(vec![1, 2, 3]));
    assert_eq!(listing[0].1.first_seen_in(), 0);
    assert!(listing[0].1.seen_in().is_empty());
    assert_eq!(store.segments(), vec![0, 0, 0]);
}

#[test]
fn try_stats_reports_a_sum_that_does_not_fit() {
    let mut store = ChunkStore::new(false);
    store.record(1, 0, usize::MAX, None);
    store.record(2, 0, 1, None);
    assert_eq!(store.try_stats(), None);
    let mut fitting = ChunkStore::new(false);
    fitting.record(1, 0, usize::MAX, None);
    fitting.record(1, 0, 1, None);
    assert_eq!(fitting.try_stats(), Some((0, 0, usize::MAX)));
}

#[test]
fn a_fresh_chunk_has_seen_no_source() {
    let chunk = Chunk::new(3, 2, Some(vec![9, 9, 9]));
    assert_eq!(chunk.size(), 3);
    assert_eq!(chunk.compressed_size(), 2);
    assert_eq!(chunk.first_seen_in(), 0);
    assert!(chunk.seen_in().is_empty());
    let copy = chunk.duplicate();
    assert_eq!(copy.size(), 3);
    assert_eq!(copy.data(), &Some(vec![9, 9, 9]));
}

#[test]
fn the_default_registry_is_empty_and_keeps_no_bytes() {
    let mut store = ChunkStore::default();
    assert_eq!(store.total_bytes(), 0);
    assert!(store.order().is_empty());
    store.add(b"xyz");
    assert_eq!(store.chunks()[0].1.data(), &None);
    let copy = store.chunks()[0].1.clone();
    assert_eq!(copy.size(), 3);
}

#[test]
fn the_lz4_block_of_noise_stays_within_its_bound() {
    let mut x: u64 = 1;
    let mut noise = Vec::new();
    for _ in 0..100_000 {
        x = x
            .wrapping_mul(6364136223846793005)
            .wrapping_add(1442695040888963407);
        noise.push((x >> 33) as u8);
    }
    let mut store = ChunkStore::new(false);
    store.add(&noise);
    let entry = &store.chunks()[0].1;
    assert_eq!(entry.size(), 100_000);
    assert!(entry.compressed_size() <= 20 + 100_000 * 110 / 100);
    assert!(entry.compressed_size() >= 100_000);
    assert_eq!(store.stats(), (100_000, 100_000, entry.compressed_size()));
}
