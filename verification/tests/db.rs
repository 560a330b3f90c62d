//! The Db API: transactions, snapshots, overflow values, scan bounds, the
//! commit log, branches and garbage collection.

use quanty::db::Db;
use quanty::encoding::{encode_key, Value};
use quanty::error::{Error, Result};
use quanty::pager::{PagerOptions, ReadPages};
use quanty::scan::Scan;
use quanty::storage::MemStorage;

fn small_db() -> Db<MemStorage> {
    // 512 byte pages keep trees deep and splits frequent
    Db::create(
        MemStorage::new(),
        PagerOptions {
            page_size: 512,
            cache_pages: 32,
        },
    )
    .unwrap()
}

fn reopened(db: Db<MemStorage>) -> Db<MemStorage> {
    let bytes = db.into_storage().into_bytes();
    Db::open(MemStorage::from_bytes(bytes), PagerOptions::default()).unwrap()
}

fn all<P: ReadPages>(scan: Result<Scan<'_, P>>) -> Vec<(Vec<u8>, Vec<u8>)> {
    let mut scan = scan.unwrap();
    let mut out = Vec::new();
    while let Some(item) = scan.next() {
        out.push(item.unwrap());
    }
    out
}

#[test]
fn empty_database_reads_empty() {
    let db = small_db();
    let snap = db.snapshot();
    assert_eq!(snap.get(b"nope").unwrap(), None);
    assert_eq!(all(snap.scan(None, None)).len(), 0);
    assert_eq!(db.head_commit(), 0);
}

#[test]
fn put_get_delete_within_and_across_transactions() {
    let mut db = small_db();
    let mut tx = db.begin();
    tx.put(b"k1", b"v1").unwrap();
    tx.put(b"k2", b"v2").unwrap();

    // own writes visible before commit
    assert_eq!(tx.get(b"k1").unwrap().as_deref(), Some(&b"v1"[..]));
    tx.commit().unwrap();
    assert_eq!(
        db.snapshot().get(b"k1").unwrap().as_deref(),
        Some(&b"v1"[..])
    );

    let mut tx = db.begin();
    assert!(tx.delete(b"k1").unwrap());
    assert!(!tx.delete(b"k1").unwrap());
    assert!(!tx.delete(b"never-existed").unwrap());
    tx.commit().unwrap();
    assert_eq!(db.snapshot().get(b"k1").unwrap(), None);
    assert_eq!(
        db.snapshot().get(b"k2").unwrap().as_deref(),
        Some(&b"v2"[..])
    );
}

#[test]
fn overwriting_a_key_replaces_the_value() {
    let mut db = small_db();
    let mut tx = db.begin();
    tx.put(b"k", b"first").unwrap();
    tx.put(b"k", b"second").unwrap();
    tx.commit().unwrap();
    assert_eq!(
        db.snapshot().get(b"k").unwrap().as_deref(),
        Some(&b"second"[..])
    );
}

#[test]
fn large_values_roundtrip_through_overflow_chains() {
    // spans many overflow pages, content position-dependent
    let big: Vec<u8> = (0..200_000u32).map(|i| (i % 251) as u8).collect();
    let mut db = small_db();
    let mut tx = db.begin();
    tx.put(b"big", &big).unwrap();
    tx.put(b"small", b"tiny").unwrap();
    // readable through the transaction too
    let got = tx.get(b"big").unwrap().unwrap();
    assert_eq!(got, big);
    tx.commit().unwrap();

    // and after a reopen
    let db = reopened(db);
    assert_eq!(db.snapshot().get(b"big").unwrap().unwrap(), big);
    assert_eq!(
        db.snapshot().get(b"small").unwrap().as_deref(),
        Some(&b"tiny"[..])
    );
}

#[test]
fn scan_bounds_are_start_inclusive_end_exclusive() {
    let mut db = small_db();
    let mut tx = db.begin();
    for k in ["a", "b", "c", "d", "e"] {
        tx.put(k.as_bytes(), k.as_bytes()).unwrap();
    }
    tx.commit().unwrap();

    let snap = db.snapshot();
    let keys = |start: Option<&[u8]>, end: Option<&[u8]>| -> Vec<String> {
        all(snap.scan(start, end))
            .into_iter()
            .map(|r| String::from_utf8(r.0).unwrap())
            .collect()
    };
    assert_eq!(keys(None, None), ["a", "b", "c", "d", "e"]);
    assert_eq!(keys(Some(b"b"), Some(b"d")), ["b", "c"]);
    assert_eq!(keys(Some(b"bb"), None), ["c", "d", "e"]);
    assert_eq!(keys(None, Some(b"a")), Vec::<String>::new());
    assert_eq!(keys(Some(b"x"), None), Vec::<String>::new());
}

#[test]
fn snapshots_of_old_commits_read_the_past() {
    let mut db = small_db();

    let mut tx = db.begin();
    tx.put(b"who", b"v1").unwrap();
    let c1 = tx.commit().unwrap();

    let mut tx = db.begin();
    tx.put(b"who", b"v2").unwrap();
    tx.put(b"extra", b"x").unwrap();
    let c2 = tx.commit().unwrap();

    let mut tx = db.begin();
    tx.delete(b"who").unwrap();
    let c3 = tx.commit().unwrap();

    assert_eq!(
        db.snapshot_at(c1).unwrap().get(b"who").unwrap().as_deref(),
        Some(&b"v1"[..])
    );
    assert_eq!(db.snapshot_at(c1).unwrap().get(b"extra").unwrap(), None);
    assert_eq!(
        db.snapshot_at(c2).unwrap().get(b"who").unwrap().as_deref(),
        Some(&b"v2"[..])
    );
    assert_eq!(db.snapshot_at(c3).unwrap().get(b"who").unwrap(), None);
    assert_eq!(all(db.snapshot_at(0).unwrap().scan(None, None)).len(), 0);
    assert!(db.snapshot_at(99).is_err());
}

#[test]
fn the_log_walks_the_whole_history() {
    let mut db = small_db();
    for i in 0..5u8 {
        let mut tx = db.begin();
        tx.put(&[i], &[i]).unwrap();
        tx.commit().unwrap();
    }
    let log = db.log().unwrap();
    let ids: Vec<u64> = log.iter().map(|r| r.commit_id).collect();
    assert_eq!(ids, [5, 4, 3, 2, 1]);
    let parents: Vec<u64> = log.iter().map(|r| r.parent_id).collect();
    assert_eq!(parents, [4, 3, 2, 1, 0]);
}

#[test]
fn snapshots_survive_a_reopen() {
    let mut db = Db::in_memory().unwrap();
    let mut tx = db.begin();
    tx.put(b"k", b"old").unwrap();
    let c1 = tx.commit().unwrap();
    let mut tx = db.begin();
    tx.put(b"k", b"new").unwrap();
    let c2 = tx.commit().unwrap();

    let db = reopened(db);
    assert_eq!(
        db.snapshot_at(c1).unwrap().get(b"k").unwrap().as_deref(),
        Some(&b"old"[..])
    );
    assert_eq!(
        db.snapshot_at(c2).unwrap().get(b"k").unwrap().as_deref(),
        Some(&b"new"[..])
    );
}

#[test]
fn dropped_transaction_changes_nothing() {
    let mut db = small_db();
    let mut tx = db.begin();
    tx.put(b"ghost", b"boo").unwrap();
    drop(tx);
    assert_eq!(db.snapshot().get(b"ghost").unwrap(), None);
    assert_eq!(db.head_commit(), 0);
}

#[test]
fn oversized_and_empty_keys_are_rejected() {
    let mut db = small_db();
    let mut tx = db.begin();
    // max key for 512 byte pages is 64 bytes
    assert!(tx.put(&[7u8; 64], b"ok").is_ok());
    match tx.put(&[7u8; 65], b"nope") {
        Err(Error::InvalidArgument(_)) => {}
        other => panic!("expected InvalidArgument, got {other:?}"),
    }
    match tx.put(b"", b"nope") {
        Err(Error::InvalidArgument(_)) => {}
        other => panic!("expected InvalidArgument, got {other:?}"),
    }
    // reads and deletes of impossible keys just miss
    assert_eq!(tx.get(&[7u8; 65]).unwrap(), None);
    assert!(!tx.delete(&[7u8; 65]).unwrap());
}

#[test]
fn encoded_tuples_work_as_keys_and_sort_correctly() {
    let mut db = small_db();
    let mut tx = db.begin();
    for i in [-3i64, 0, 7, 100, -50] {
        let key = encode_key(&[Value::Text("user".into()), Value::Int(i)]);
        tx.put(&key, &i.to_le_bytes()).unwrap();
    }
    tx.commit().unwrap();

    let snap = db.snapshot();
    let ints: Vec<i64> = all(snap.scan(None, None))
        .into_iter()
        .map(|r| i64::from_le_bytes(r.1.try_into().unwrap()))
        .collect();
    assert_eq!(ints, [-50, -3, 0, 7, 100]);
}

// ---------------------------------------------------------------------
// branches and garbage collection
// ---------------------------------------------------------------------

fn branch_db() -> Db<MemStorage> {
    Db::create(
        MemStorage::new(),
        PagerOptions {
            page_size: 512,
            ..PagerOptions::default()
        },
    )
    .unwrap()
}

fn put(db: &mut Db<MemStorage>, key: &[u8], value: &[u8]) -> u64 {
    let mut tx = db.begin();
    tx.put(key, value).unwrap();
    tx.commit().unwrap()
}

fn get(db: &Db<MemStorage>, key: &[u8]) -> Option<Vec<u8>> {
    db.snapshot().get(key).unwrap()
}

#[test]
fn branches_write_divergent_data_and_read_it_back_independently() {
    let mut db = branch_db();
    put(&mut db, b"shared", b"base");
    let fork_point = db.head_commit();

    db.create_branch("experiment", None).unwrap();
    assert_eq!(db.current_branch(), "main");

    // diverge: one commit on each side
    put(&mut db, b"main-only", b"m");
    db.switch_branch("experiment").unwrap();
    put(&mut db, b"exp-only", b"e");

    // the experiment sees the fork point and its own write, not main's
    assert_eq!(get(&db, b"shared").as_deref(), Some(&b"base"[..]));
    assert_eq!(get(&db, b"exp-only").as_deref(), Some(&b"e"[..]));
    assert_eq!(get(&db, b"main-only"), None);

    db.switch_branch("main").unwrap();
    assert_eq!(get(&db, b"main-only").as_deref(), Some(&b"m"[..]));
    assert_eq!(get(&db, b"exp-only"), None);

    // both heads moved past the fork point, in different directions
    let branches = db.branches().unwrap();
    assert_eq!(branches.len(), 2);
    for (_, r) in &branches {
        assert!(r.head_id > fork_point);
    }

    // per-branch history: each log walks through the fork point
    let ids: Vec<u64> = db.log().unwrap().iter().map(|c| c.commit_id).collect();
    assert!(ids.contains(&fork_point));
}

#[test]
fn a_branch_can_start_at_an_older_commit() {
    let mut db = branch_db();
    let c1 = put(&mut db, b"k", b"v1");
    put(&mut db, b"k", b"v2");

    db.create_branch("from-past", Some(c1)).unwrap();
    db.switch_branch("from-past").unwrap();
    assert_eq!(get(&db, b"k").as_deref(), Some(&b"v1"[..]));

    // writing here forks history instead of touching main
    put(&mut db, b"k", b"v3");
    db.switch_branch("main").unwrap();
    assert_eq!(get(&db, b"k").as_deref(), Some(&b"v2"[..]));
}

#[test]
fn branch_name_and_existence_errors() {
    let mut db = branch_db();
    put(&mut db, b"k", b"v");

    assert!(db.create_branch("has space", None).is_err());
    assert!(db.create_branch("-lead", None).is_err());
    assert!(
        db.create_branch("main", None).is_err(),
        "main exists implicitly"
    );
    assert!(db.switch_branch("nope").is_err());
    assert!(db.drop_branch("nope").is_err());
    assert!(db.create_branch("b", Some(999)).is_err(), "no such commit");

    db.create_branch("b", None).unwrap();
    assert!(db.create_branch("b", None).is_err(), "duplicate");
    assert!(
        db.drop_branch("main").is_err(),
        "cannot drop the current branch"
    );
    db.drop_branch("b").unwrap();
    assert!(db.switch_branch("b").is_err(), "gone after drop");
}

#[test]
fn fast_forward_merge_moves_the_pointer_and_divergence_is_rejected() {
    let mut db = branch_db();
    put(&mut db, b"k", b"base");

    db.create_branch("feature", None).unwrap();
    db.switch_branch("feature").unwrap();
    put(&mut db, b"feature", b"work");
    let feature_head = db.head_commit();

    // main has not moved since the fork, so this is a fast-forward
    db.switch_branch("main").unwrap();
    let merged = db.merge_ff("feature").unwrap();
    assert_eq!(merged, feature_head);
    assert_eq!(db.head_commit(), feature_head);
    assert_eq!(get(&db, b"feature").as_deref(), Some(&b"work"[..]));

    // merging again is a no-op, not an error
    assert_eq!(db.merge_ff("feature").unwrap(), feature_head);

    // now diverge and watch the merge refuse politely
    db.create_branch("other", None).unwrap();
    put(&mut db, b"main2", b"x");
    db.switch_branch("other").unwrap();
    put(&mut db, b"other2", b"y");
    db.switch_branch("main").unwrap();
    let err = db.merge_ff("other").unwrap_err().message();
    assert!(err.contains("diverged"), "got: {err}");

    assert!(db.merge_ff("main").is_err(), "self merge");
    assert!(db.merge_ff("ghost").is_err(), "unknown branch");
}

#[test]
fn gc_prunes_old_commits_but_never_touches_retained_ones() {
    let mut db = branch_db();
    let mut commits = Vec::new();
    for i in 0..10u32 {
        commits.push(put(
            &mut db,
            format!("k{i}").as_bytes(),
            format!("v{i}").as_bytes(),
        ));
    }

    let report = db.gc(3).unwrap();
    assert_eq!(report.pruned_commits, 7);
    assert!(report.freed_pages > 0);

    // the three newest commits answer exactly as before
    for (i, &id) in commits.iter().enumerate().skip(7) {
        let snap = db.snapshot_at(id).unwrap();
        for j in 0..=i {
            let key = format!("k{j}");
            assert_eq!(
                snap.get(key.as_bytes()).unwrap().as_deref(),
                Some(format!("v{j}").as_bytes()),
            );
        }
    }

    // everything older is gone, with a helpful error
    for &id in &commits[..7] {
        match db.snapshot_at(id) {
            Ok(_) => panic!("commit {id} should have been pruned"),
            Err(e) => assert!(e.message().contains("garbage collected"), "got: {e:?}"),
        }
    }

    // gc is idempotent when nothing new fell out of retention
    let again = db.gc(3).unwrap();
    assert_eq!(again.pruned_commits, 0);

    assert!(db.gc(0).is_err(), "retain zero makes no sense");
}

#[test]
fn gc_counts_a_commit_of_two_branches_once() {
    let mut db = branch_db();
    for i in 0..10u32 {
        put(&mut db, format!("k{i}").as_bytes(), b"v");
    }
    db.create_branch("twin", None).unwrap();
    let report = db.gc(3).unwrap();
    assert_eq!(report.pruned_commits, 7);
    assert_eq!(db.gc(3).unwrap().pruned_commits, 0);
}

#[test]
fn gc_counts_nothing_that_another_branch_keeps() {
    let mut db = branch_db();
    let first = put(&mut db, b"a", b"1");
    db.create_branch("old", Some(first)).unwrap();
    put(&mut db, b"b", b"2");
    put(&mut db, b"c", b"3");
    // of the three commits the first is the head of the other branch
    assert_eq!(db.gc(1).unwrap().pruned_commits, 1);
    db.switch_branch("old").unwrap();
    assert_eq!(
        db.snapshot().get(b"a").unwrap().as_deref(),
        Some(&b"1"[..])
    );
}

#[test]
fn gc_that_prunes_nothing_leaves_the_floor_alone() {
    let mut db = branch_db();
    put(&mut db, b"k", b"v1");
    put(&mut db, b"k", b"v2");
    assert_eq!(db.gc(5).unwrap().pruned_commits, 0);
    let snap = db.snapshot_at_time(0).unwrap();
    assert_eq!(snap.commit_id(), 0);
    assert_eq!(snap.get(b"k").unwrap(), None);
    // once a commit is gone the time before it is not known any more
    assert_eq!(db.gc(1).unwrap().pruned_commits, 1);
    assert!(db.snapshot_at_time(0).is_err());
}

#[test]
fn gc_frees_what_later_commits_take_again() {
    let mut db = branch_db();
    for i in 0..30u32 {
        put(&mut db, b"k", format!("v{i}").as_bytes());
    }
    let report = db.gc(1).unwrap();
    assert!(report.freed_pages > 0);
    let full = db.stats().unwrap().page_count;
    for i in 0..5u32 {
        put(&mut db, b"k", format!("w{i}").as_bytes());
    }
    assert_eq!(db.stats().unwrap().page_count, full);
}

#[test]
fn the_file_stops_growing_under_churn_with_gc() {
    let mut db = branch_db();

    // warm up: same keys rewritten over and over, gc keeps heads only
    let mut after_warmup = 0;
    for round in 0..60u32 {
        let mut tx = db.begin();
        for k in 0..20u32 {
            tx.put(
                format!("key{k}").as_bytes(),
                format!("r{round}v{k}").as_bytes(),
            )
            .unwrap();
        }
        tx.commit().unwrap();
        db.gc(1).unwrap();
        if round == 19 {
            after_warmup = db.stats().unwrap().page_count;
        }
    }
    let end = db.stats().unwrap();

    // without reuse this workload allocates fresh pages every round; with
    // the free list the file plateaus after warmup
    assert_eq!(
        end.page_count, after_warmup,
        "file kept growing: {after_warmup} -> {} pages",
        end.page_count
    );
    assert!(end.free_pages > 0, "gc left nothing to reuse");

    // and the data is still exactly the last round
    for k in 0..20u32 {
        assert_eq!(
            get(&db, format!("key{k}").as_bytes()).as_deref(),
            Some(format!("r59v{k}").as_bytes()),
        );
    }
}

#[test]
fn gc_keeps_every_branch_head_alive() {
    let mut db = branch_db();
    put(&mut db, b"base", b"b");
    db.create_branch("a", None).unwrap();
    db.create_branch("b", None).unwrap();

    for name in ["a", "b", "main"] {
        db.switch_branch(name).unwrap();
        for i in 0..5u32 {
            put(&mut db, format!("{name}{i}").as_bytes(), b"x");
        }
    }

    db.gc(1).unwrap();

    for name in ["a", "b", "main"] {
        db.switch_branch(name).unwrap();
        assert_eq!(
            get(&db, b"base").as_deref(),
            Some(&b"b"[..]),
            "branch {name}"
        );
        assert_eq!(
            get(&db, format!("{name}4").as_bytes()).as_deref(),
            Some(&b"x"[..])
        );
    }
}

#[test]
fn snapshot_at_time_resolves_along_the_current_branch() {
    let mut db = branch_db();
    put(&mut db, b"k", b"v1");
    put(&mut db, b"k", b"v2");

    let log = db.log().unwrap();
    let newest_ts = log[0].unix_ts_ms;
    let oldest_ts = log.last().unwrap().unix_ts_ms;

    // before all history: the empty database
    let snap = db.snapshot_at_time(0).unwrap();
    assert_eq!(snap.commit_id(), 0);
    assert_eq!(snap.get(b"k").unwrap(), None);

    // at or after the newest commit: the head
    let snap = db.snapshot_at_time(newest_ts).unwrap();
    assert_eq!(snap.get(b"k").unwrap().as_deref(), Some(&b"v2"[..]));

    // exactly at the first commit's time: at least the first commit,
    // possibly the second when both landed in the same millisecond
    let snap = db.snapshot_at_time(oldest_ts).unwrap();
    assert!(snap.get(b"k").unwrap().is_some());
}

#[test]
fn switching_persists_across_reopen() {
    let mut db = Db::in_memory().unwrap();
    put(&mut db, b"k", b"main");
    db.create_branch("side", None).unwrap();
    db.switch_branch("side").unwrap();
    put(&mut db, b"k", b"side");

    let mut db = reopened(db);
    assert_eq!(db.current_branch(), "side");
    assert_eq!(
        db.snapshot().get(b"k").unwrap().as_deref(),
        Some(&b"side"[..])
    );
    db.switch_branch("main").unwrap();
    assert_eq!(
        db.snapshot().get(b"k").unwrap().as_deref(),
        Some(&b"main"[..])
    );
}

#[test]
fn a_commit_at_a_given_time_is_found_at_that_time() {
    let mut db = branch_db();
    let mut tx = db.begin();
    tx.put(b"k", b"v1").unwrap();
    assert_eq!(tx.pending_commit_id(), 1);
    tx.commit_at(1_000).unwrap();
    let mut tx = db.begin();
    tx.put(b"k", b"v2").unwrap();
    tx.commit_at(2_000).unwrap();

    let at = |ms: u64| db.snapshot_at_time(ms).unwrap().get(b"k").unwrap();
    assert_eq!(at(999), None);
    assert_eq!(at(1_000).as_deref(), Some(&b"v1"[..]));
    assert_eq!(at(1_999).as_deref(), Some(&b"v1"[..]));
    assert_eq!(at(2_000).as_deref(), Some(&b"v2"[..]));
}

#[test]
fn the_clock_stamps_a_commit() {
    let mut db = branch_db();
    put(&mut db, b"k", b"v");
    // any time after 2020 will do
    assert!(db.log().unwrap()[0].unix_ts_ms > 1_577_836_800_000);
}

#[test]
fn the_catalog_is_a_tree_of_its_own() {
    let mut db = branch_db();
    let mut tx = db.begin();
    tx.put(b"k", b"data").unwrap();
    tx.catalog_put(b"k", b"catalog").unwrap();
    assert_eq!(tx.catalog_get(b"k").unwrap().as_deref(), Some(&b"catalog"[..]));
    tx.commit().unwrap();
    let snap = db.snapshot();
    assert_eq!(snap.get(b"k").unwrap().as_deref(), Some(&b"data"[..]));
    assert_eq!(
        snap.catalog_get(b"k").unwrap().as_deref(),
        Some(&b"catalog"[..])
    );
    assert_eq!(all(snap.catalog_scan(None, None)).len(), 1);

    let mut tx = db.begin();
    assert!(tx.catalog_delete(b"k").unwrap());
    assert!(!tx.catalog_delete(b"k").unwrap());
    assert_eq!(all(tx.catalog_scan(None, None)).len(), 0);
}
