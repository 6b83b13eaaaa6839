use dedupe_estimator::ChunkStore;

fn noise(seed: u64, len: usize) -> Vec<u8> {
    let mut x = seed;
    let mut out = Vec::with_capacity(len);
    for _ in 0..len {
        x = x
            .wrapping_mul(6364136223846793005)
            .wrapping_add(1442695040888963407);
        out.push((x >> 33) as u8);
    }
    out
}

fn three_sources() -> Vec<ChunkStore> {
    let mut a = ChunkStore::new(false);
    a.record(1, 10, 5, None);
    a.record(2, 20, 6, None);
    a.record(1, 10, 5, None);
    let mut b = ChunkStore::new(false);
    b.record(3, 30, 7, None);
    b.record(2, 20, 6, None);
    let mut c = ChunkStore::new(false);
    c.record(1, 10, 5, None);
    c.record(4, 40, 8, None);
    c.record(3, 30, 7, None);
    vec![a, b, c]
}

#[test]
fn merge_adds_totals_and_joins_orders() {
    let stores = three_sources();
    let merged = ChunkStore::merge(&stores, false);
    assert_eq!(merged.total_bytes(), 40 + 50 + 80);
    assert_eq!(merged.order(), &vec![1, 2, 1, 3, 2, 1, 4, 3]);
    let (total, unique, compressed) = merged.stats();
    assert_eq!(total, 170);
    assert_eq!(unique, 10 + 20 + 30 + 40);
    assert_eq!(compressed, 5 + 6 + 7 + 8);
    assert!(unique <= total);
}

#[test]
fn merge_notes_first_and_all_holders() {
    let stores = three_sources();
    let merged = ChunkStore::merge(&stores, false);
    let listing = merged.chunks();
    let entry = |hash: u64| {
        listing
            .iter()
            .find(|(h, _)| *h == hash)
            .map(|(_, c)| (c.first_seen_in(), c.seen_in().clone()))
            .unwrap()
    };
    assert_eq!(entry(1), (0, vec![0, 2]));
    assert_eq!(entry(2), (0, vec![0, 1]));
    assert_eq!(entry(3), (1, vec![1, 2]));
    assert_eq!(entry(4), (2, vec![2]));
    assert_eq!(merged.segments(), vec![0, 0, 0, 1, 0, 0, 2, 1]);
}

#[test]
fn merge_leaves_the_sources_alone() {
    let stores = three_sources();
    let _ = ChunkStore::merge(&stores, false);
    for store in &stores {
        for (_, chunk) in store.chunks() {
            assert_eq!(chunk.first_seen_in(), 0);
            assert!(chunk.seen_in().is_empty());
        }
    }
    assert_eq!(stores[1].segments(), vec![0, 0]);
}

#[test]
fn merging_twice_gives_the_same_entries() {
    let stores = three_sources();
    let once = ChunkStore::merge(&stores, false);
    let again = ChunkStore::merge(&stores, false);
    assert_eq!(once.order(), again.order());
    assert_eq!(once.segments(), again.segments());
    let a = once.chunks();
    let b = again.chunks();
    for k in 0..a.len() {
        assert_eq!(a[k].0, b[k].0);
        assert_eq!(a[k].1.first_seen_in(), b[k].1.first_seen_in());
        assert_eq!(a[k].1.seen_in(), b[k].1.seen_in());
    }
}

#[test]
fn the_order_of_the_list_decides_the_first_source() {
    let mut stores = three_sources();
    stores.reverse();
    let merged = ChunkStore::merge(&stores, false);
    assert_eq!(merged.order(), &vec![1, 4, 3, 3, 2, 1, 2, 1]);
    assert_eq!(merged.segments(), vec![0, 0, 0, 0, 1, 0, 1, 0]);
}

#[test]
fn merging_one_registry_keeps_its_statistics() {
    let data = noise(5, 500_000);
    let source = ChunkStore::from_bytes(&data, false);
    let stats = source.stats();
    let merged = ChunkStore::merge(std::slice::from_ref(&source), false);
    assert_eq!(merged.stats(), stats);
    assert_eq!(merged.total_bytes(), 500_000);
    assert_eq!(merged.order(), source.order());
    for (_, chunk) in merged.chunks() {
        assert_eq!(chunk.first_seen_in(), 0);
        assert_eq!(chunk.seen_in(), &vec![0]);
    }
}

#[test]
fn merging_nothing_gives_an_empty_registry() {
    let none: Vec<ChunkStore> = Vec::new();
    let merged = ChunkStore::merge(&none, true);
    assert_eq!(merged.stats(), (0, 0, 0));
    assert!(merged.order().is_empty());
}

#[test]
fn merged_data_comes_from_the_first_holder() {
    let a = ChunkStore::from_bytes(b"shared bytes", true);
    let b = ChunkStore::from_bytes(b"shared bytes", false);
    let merged = ChunkStore::merge(&[a, b], true);
    let listing = merged.chunks();
    assert_eq!(listing.len(), 2);
    assert_eq!(listing[0].0, listing[1].0);
    assert_eq!(listing[0].1.data(), &Some(b"shared bytes".to_vec()));
    assert_eq!(listing[0].1.seen_in(), &vec![0, 1]);
    assert_eq!(merged.stats().0, 24);
    assert_eq!(merged.stats().1, 12);
}

#[test]
fn a_source_and_its_extension_share_the_common_prefix() {
    let a: Vec<u8> = [1u8, 2, 3, 4].repeat(50_000);
    let mut b = a.clone();
    b.extend_from_slice(&noise(42, 50_000));
    let stores = vec![
        ChunkStore::from_bytes(&a, false),
        ChunkStore::from_bytes(&b, false),
    ];
    let sizes = |s: &ChunkStore| -> Vec<usize> { s.chunks().iter().map(|(_, c)| c.size()).collect() };
    assert_eq!(sizes(&stores[0]), vec![131072, 68928]);
    assert_eq!(sizes(&stores[1]), vec![131072, 118928]);
    assert_eq!(stores[0].order()[0], stores[1].order()[0]);

    let merged = ChunkStore::merge(&stores, false);
    let (total, unique, _) = merged.stats();
    assert_eq!(total, 450_000);
    assert_eq!(unique, 131072 + 68928 + 118928);
    assert_eq!(merged.segments(), vec![0, 0, 0, 1]);
}
