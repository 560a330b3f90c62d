//! The pager, including the hostile file cases: a corrupted database must
//! produce errors, never panics and never silently wrong data.

use quanty::btree::max_key_len;
use quanty::error::Error;
use quanty::page::{PageType, PAGE_HEADER_LEN};
use quanty::pager::{Pager, PagerOptions, WriteBatch};
use quanty::storage::{MemStorage, Storage};

fn opts(page_size: u32) -> PagerOptions {
    PagerOptions {
        page_size,
        cache_pages: 16,
    }
}

fn fill_body(batch: &mut WriteBatch<'_, MemStorage>, id: u64, seed: u8) {
    let mut buf = batch.read_page(id).unwrap();
    for (i, b) in buf.iter_mut().enumerate().skip(PAGE_HEADER_LEN) {
        *b = seed.wrapping_add(i as u8);
    }
    batch.write_page(id, buf).unwrap();
}

fn check_body(buf: &[u8], seed: u8) {
    for (i, b) in buf.iter().enumerate().skip(PAGE_HEADER_LEN) {
        assert_eq!(*b, seed.wrapping_add(i as u8), "byte {i} differs");
    }
}

fn reopen(bytes: Vec<u8>) -> Result<Pager<MemStorage>, Error> {
    Pager::open(MemStorage::from_bytes(bytes), PagerOptions::default())
}

#[test]
fn write_commit_reopen_read_roundtrip() {
    let mut ids = Vec::new();
    let mut pager = Pager::create(MemStorage::new(), opts(512)).unwrap();
    let mut batch = pager.begin();
    for seed in 0..10u8 {
        let id = batch.allocate(PageType::Leaf).unwrap();
        fill_body(&mut batch, id, seed);
        ids.push(id);
    }
    batch.set_data_root(ids[0]);
    assert_eq!(batch.commit().unwrap(), 1);

    // readable straight from the same pager
    for (seed, &id) in ids.iter().enumerate() {
        check_body(&pager.read_page(id).unwrap(), seed as u8);
    }

    // and after a clean reopen
    let pager = reopen(pager.into_storage().into_bytes()).unwrap();
    let meta = pager.committed_meta();
    assert_eq!(meta.txid, 1);
    assert_eq!(meta.page_size, 512);
    assert_eq!(meta.data_root, ids[0]);
    assert_eq!(meta.page_count, 2 + ids.len() as u64);
    for (seed, &id) in ids.iter().enumerate() {
        check_body(&pager.read_page(id).unwrap(), seed as u8);
    }
}

#[test]
fn multiple_commits_alternate_meta_slots_and_accumulate() {
    let mut pager = Pager::create(MemStorage::new(), opts(512)).unwrap();
    for txid in 1..=20u64 {
        let mut batch = pager.begin();
        let id = batch.allocate(PageType::Leaf).unwrap();
        fill_body(&mut batch, id, txid as u8);
        assert_eq!(batch.commit().unwrap(), txid);
    }
    let meta = pager.committed_meta();
    assert_eq!(meta.txid, 20);
    assert_eq!(meta.page_count, 22);
    for id in 2..22u64 {
        check_body(&pager.read_page(id).unwrap(), (id - 1) as u8);
    }
}

#[test]
fn committed_pages_are_not_writable() {
    let mut pager = Pager::create(MemStorage::new(), opts(512)).unwrap();
    let mut batch = pager.begin();
    let first = batch.allocate(PageType::Leaf).unwrap();
    batch.commit().unwrap();
    let mut batch = pager.begin();
    match batch.write_page(first, vec![0u8; 512]) {
        Err(Error::PageNotWritable(id)) => assert_eq!(id, first),
        other => panic!("expected PageNotWritable, got {other:?}"),
    }
}

#[test]
fn dropped_batch_leaves_no_trace() {
    let mut pager = Pager::create(MemStorage::new(), opts(512)).unwrap();
    let mut batch = pager.begin();
    let id = batch.allocate(PageType::Leaf).unwrap();
    fill_body(&mut batch, id, 0xAB);
    drop(batch); // no commit

    let meta = pager.committed_meta();
    assert_eq!(meta.txid, 0);
    assert_eq!(meta.page_count, 2);
    assert!(matches!(
        pager.read_page(id),
        Err(Error::PageOutOfBounds(_))
    ));
    let pager = reopen(pager.into_storage().into_bytes()).unwrap();
    assert_eq!(pager.committed_meta().page_count, 2);
}

fn one_leaf() -> (Vec<u8>, u64) {
    let mut pager = Pager::create(MemStorage::new(), opts(512)).unwrap();
    let mut batch = pager.begin();
    let id = batch.allocate(PageType::Leaf).unwrap();
    fill_body(&mut batch, id, 7);
    batch.commit().unwrap();
    (pager.into_storage().into_bytes(), id)
}

#[test]
fn bit_flip_in_data_page_is_detected() {
    let (mut bytes, id) = one_leaf();
    // flip one bit in the payload of the committed page
    bytes[(id * 512 + 100) as usize] ^= 0x01;

    let pager = reopen(bytes).unwrap();
    match pager.read_page(id) {
        Err(Error::Corrupted { page, .. }) => assert_eq!(page, Some(id)),
        other => panic!("expected Corrupted, got {other:?}"),
    }
}

#[test]
fn one_broken_meta_slot_recovers_from_the_other() {
    // txid 1 lives in slot 1
    let (mut bytes, _) = one_leaf();
    bytes[512 + 40] ^= 0x01; // damage slot 1

    // recovery falls back to slot 0 (txid 0), the database still opens
    let pager = reopen(bytes).unwrap();
    assert_eq!(pager.committed_meta().txid, 0);
}

#[test]
fn both_meta_slots_broken_is_an_error_not_a_panic() {
    let pager = Pager::create(MemStorage::new(), opts(512)).unwrap();
    let mut bytes = pager.into_storage().into_bytes();
    bytes[40] ^= 0x01;
    bytes[512 + 40] ^= 0x01;

    match reopen(bytes) {
        Err(Error::Corrupted { .. }) => {}
        Err(other) => panic!("expected Corrupted, got {other:?}"),
        Ok(_) => panic!("expected Corrupted, but the database opened"),
    }
}

#[test]
fn garbage_file_is_rejected_as_invalid_format() {
    match reopen(vec![0x5A; 4096]) {
        Err(Error::InvalidFormat(_)) => {}
        Err(other) => panic!("expected InvalidFormat, got {other:?}"),
        Ok(_) => panic!("expected InvalidFormat, but the database opened"),
    }
}

#[test]
fn create_rejects_bad_page_sizes_and_non_empty_storage() {
    assert!(Pager::create(MemStorage::new(), opts(1000)).is_err());
    assert!(Pager::create(MemStorage::new(), opts(256)).is_err());

    let mut storage = MemStorage::new();
    storage.write_at(0, b"junk").unwrap();
    assert!(Pager::create(storage, opts(512)).is_err());
}

#[test]
fn bulk_load_one_million_pages_in_memory() {
    // Keeps an eye on pathological memory or time blowups in the write
    // path. 1M pages at 512 bytes is ~512 MiB through the batch, committed
    // in chunks the way a real bulk load would.
    let mut pager = Pager::create(MemStorage::new(), opts(512)).unwrap();
    let chunk = 50_000;
    for _ in 0..20 {
        let mut batch = pager.begin();
        for _ in 0..chunk {
            let id = batch.allocate(PageType::Leaf).unwrap();
            let mut body = batch.read_page(id).unwrap();
            body[PAGE_HEADER_LEN] = (id % 251) as u8;
            batch.write_page(id, body).unwrap();
        }
        batch.commit().unwrap();
    }
    let meta = pager.committed_meta();
    assert_eq!(meta.page_count, 2 + 20 * chunk);
    // spot check a few pages across the range
    for id in [2u64, 123_456, 999_999] {
        let page = pager.read_page(id).unwrap();
        assert_eq!(page[PAGE_HEADER_LEN], (id % 251) as u8);
    }
}

#[test]
fn meta_pages_cannot_be_read_as_data() {
    let pager = Pager::create(MemStorage::new(), opts(512)).unwrap();
    for id in [0u64, 1, 2, 99] {
        assert!(matches!(
            pager.read_page(id),
            Err(Error::PageOutOfBounds(_))
        ));
    }
}

#[test]
fn a_key_takes_at_most_an_eighth_of_a_page() {
    assert_eq!(max_key_len(512), 64);
    assert_eq!(max_key_len(4096), 512);
}

#[test]
fn pages_taken_from_the_free_list_count_as_allocated() {
    let mut pager = Pager::create(MemStorage::new(), opts(512)).unwrap();
    let mut batch = pager.begin();
    let mut ids = Vec::new();
    for _ in 0..6 {
        ids.push(batch.allocate(PageType::Leaf).unwrap());
    }
    assert_eq!(batch.allocated(), 6);
    batch.commit().unwrap();

    let mut batch = pager.begin();
    batch.set_freelist(ids.clone());
    batch.commit().unwrap();

    let mut batch = pager.begin();
    let reused = batch.allocate(PageType::Leaf).unwrap();
    assert!(ids.contains(&reused), "page {reused} was free");
    assert_eq!(batch.allocated(), 1);
}

#[test]
fn a_torn_commit_opens_as_the_one_before_or_the_one_after() {
    let mut pager = Pager::create(MemStorage::new(), opts(512)).unwrap();
    let mut batch = pager.begin();
    let id = batch.allocate(PageType::Leaf).unwrap();
    fill_body(&mut batch, id, 1);
    batch.set_data_root(id);
    batch.commit().unwrap();
    let before = pager.into_storage().into_bytes();

    let mut pager = reopen(before.clone()).unwrap();
    let mut batch = pager.begin();
    let next = batch.allocate(PageType::Leaf).unwrap();
    fill_body(&mut batch, next, 2);
    batch.set_data_root(next);
    batch.commit().unwrap();
    let after = pager.into_storage().into_bytes();

    // the second commit writes its pages first and slot 0 last
    for cut in [0usize, 1, 17, 100, 511, 512] {
        let mut torn = after.clone();
        torn[cut..512].copy_from_slice(&before[cut..512]);
        let pager = reopen(torn).unwrap();
        let meta = pager.committed_meta();
        let (txid, root, seed) = if meta.txid == 2 { (2, next, 2) } else { (1, id, 1) };
        assert_eq!((meta.txid, meta.data_root), (txid, root));
        check_body(&pager.read_page(root).unwrap(), seed);
        check_body(&pager.read_page(id).unwrap(), 1);
    }
}
