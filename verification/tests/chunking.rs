use dedupe_estimator::chunker::{MASK, MAX_LEN, MIN_LEN};
use dedupe_estimator::{ChunkStore, Chunker, Limits};

fn noise(seed: u64, len: usize) -> Vec<u8> {
    let mut x = seed;
    let mut out = Vec::with_capacity(len);
    for _ in 0..len {
        x = x
            .wrapping_mul(6364136223846793005)
            .wrapping_add(1442695040888963407);
        out.push((x >> 33) as u8);
    }
    out
}

fn sizes_in_order(store: &ChunkStore) -> Vec<usize> {
    store.chunks().iter().map(|(_, c)| c.size()).collect()
}

#[test]
fn default_limits_are_the_documented_ones() {
    assert_eq!(MASK, 0xffff_0000_0000_0000);
    assert_eq!(MIN_LEN, 8192);
    assert_eq!(MAX_LEN, 131072);
}

#[test]
fn boundaries_of_a_megabyte_of_noise() {
    let data = noise(7, 1_000_000);
    let store = ChunkStore::from_bytes(&data, false);
    assert_eq!(
        sizes_in_order(&store),
        vec![
            40398, 131072, 72112, 42329, 57265, 70874, 99793, 131072, 18203, 9441, 9251, 9000,
            37852, 112486, 13131, 131072, 14649
        ]
    );
    assert_eq!(store.total_bytes(), 1_000_000);
}

#[test]
fn one_read_and_many_reads_cut_the_same_chunks() {
    let data = noise(11, 600_000);
    let whole = ChunkStore::from_bytes(&data, false);

    let mut by_byte = Chunker::new(false);
    for b in data.iter() {
        by_byte.feed(&[*b]);
    }
    let by_byte = by_byte.finish();
    assert_eq!(by_byte.order(), whole.order());
    assert_eq!(sizes_in_order(&by_byte), sizes_in_order(&whole));

    let reads: Vec<Vec<u8>> = vec![
        data[..1].to_vec(),
        data[1..70_001].to_vec(),
        Vec::new(),
        data[70_001..333_333].to_vec(),
        data[333_333..].to_vec(),
    ];
    let split = ChunkStore::from_stream(&reads, false);
    assert_eq!(split.order(), whole.order());
    assert_eq!(sizes_in_order(&split), sizes_in_order(&whole));
    assert_eq!(split.total_bytes(), whole.total_bytes());
}

#[test]
fn prepended_bytes_leave_the_later_chunks_alone() {
    let data = noise(7, 1_000_000);
    let mut shifted = noise(99, 1000);
    shifted.extend_from_slice(&data);

    let plain = ChunkStore::from_bytes(&data, true);
    let moved = ChunkStore::from_bytes(&shifted, true);
    let plain_chunks = plain.chunks();
    let moved_chunks = moved.chunks();
    assert_eq!(plain_chunks.len(), 17);
    assert_eq!(moved_chunks.len(), 17);
    assert_eq!(moved_chunks[0].1.size(), 41398);
    for k in 1..17 {
        assert_eq!(plain_chunks[k].0, moved_chunks[k].0);
        assert_eq!(plain_chunks[k].1.data(), moved_chunks[k].1.data());
    }
    assert_ne!(plain_chunks[0].0, moved_chunks[0].0);
}

#[test]
fn chunks_keep_to_the_minimum_and_the_maximum() {
    let data = noise(23, 2_000_000);
    let store = ChunkStore::from_bytes(&data, false);
    let sizes = sizes_in_order(&store);
    assert!(sizes.len() > 2);
    for size in &sizes[..sizes.len() - 1] {
        assert!(*size >= MIN_LEN);
        assert!(*size <= MAX_LEN);
    }
    assert!(sizes[sizes.len() - 1] < MAX_LEN);
    assert_eq!(sizes.iter().sum::<usize>(), 2_000_000);
}

#[test]
fn a_stream_without_candidates_is_cut_at_the_maximum() {
    let zeros = vec![0u8; 300_000];
    let store = ChunkStore::from_bytes(&zeros, false);
    assert_eq!(sizes_in_order(&store), vec![131072, 131072, 37856]);
    assert_eq!(store.order()[0], store.order()[1]);
}

#[test]
fn a_stream_that_ends_on_a_cut_has_an_empty_last_chunk() {
    let zeros = vec![0u8; 262_144];
    let store = ChunkStore::from_bytes(&zeros, false);
    assert_eq!(sizes_in_order(&store), vec![131072, 131072, 0]);
}

#[test]
fn custom_limits_are_obeyed() {
    let limits = Limits {
        mask: 0xf000_0000_0000_0000,
        min_len: 4,
        max_len: 64,
    };
    let data = noise(3, 2000);
    let mut chunker = Chunker::with_limits(limits, false);
    chunker.feed(&data[..777]);
    chunker.feed(&data[777..]);
    assert_eq!(chunker.fed(), 2000);
    let store = chunker.finish();
    let sizes = sizes_in_order(&store);
    assert_eq!(sizes.len(), 98);
    assert_eq!(
        sizes[..12].to_vec(),
        vec![18, 4, 64, 16, 42, 6, 6, 10, 12, 21, 61, 36]
    );
    for size in &sizes[..97] {
        assert!(*size >= 4 && *size <= 64);
    }
}

#[test]
fn an_empty_source_is_one_empty_chunk() {
    let store = ChunkStore::from_bytes(&[], false);
    assert_eq!(store.total_bytes(), 0);
    assert_eq!(store.order().len(), 1);
    let chunks = store.chunks();
    assert_eq!(chunks.len(), 1);
    assert_eq!(chunks[0].1.size(), 0);
    assert_eq!(store.stats(), (0, 0, chunks[0].1.compressed_size()));

    let no_reads: Vec<Vec<u8>> = Vec::new();
    let streamed = ChunkStore::from_stream(&no_reads, false);
    assert_eq!(streamed.total_bytes(), 0);
    assert_eq!(streamed.order(), store.order());
}

#[test]
fn strings_are_chunked_as_their_bytes() {
    let text: String = "abcd".repeat(5000);
    let data = vec![text.clone(), String::new(), "héllo".to_string()];
    let stores = ChunkStore::from_strings(&data, true);
    assert_eq!(stores.len(), 3);
    assert_eq!(stores[0].total_bytes(), 20000);
    assert_eq!(stores[1].total_bytes(), 0);
    assert_eq!(stores[2].total_bytes(), 6);
    let direct = ChunkStore::from_bytes(text.as_bytes(), true);
    assert_eq!(stores[0].order(), direct.order());
    let kept = stores[2].chunks();
    assert_eq!(kept[0].1.data(), &Some("héllo".as_bytes().to_vec()));
}
