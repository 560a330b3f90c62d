//! The workloads of the timing harness and the load generator's requests.

use quanty::bench::{
    gap_nanos, insert, lookup_key, median, mix, name_of, parse, parse_duration, reads, request,
    score_of, workloads, Asked, Engine, Mode, Options, Read, LOOKUPS, ROWS, SCANS,
};

fn args(list: &[&str]) -> Vec<String> {
    list.iter().map(|s| s.to_string()).collect()
}

fn load(list: &[&str]) -> Options {
    match parse(&args(list)) {
        Ok(Asked::Load(o)) => o,
        Ok(Asked::Help) => panic!("help"),
        Err(e) => panic!("{e}"),
    }
}

fn wrong(list: &[&str]) -> String {
    match parse(&args(list)) {
        Err(e) => e,
        Ok(_) => panic!("accepted {list:?}"),
    }
}

#[test]
fn rows_are_the_same_on_both_sides() {
    assert_eq!(name_of(7), "name-000007");
    assert_eq!(name_of(1_234_567), "name-1234567");
    assert_eq!(score_of(13), 13 * 7919 % 100_000);
    assert_eq!(lookup_key(3), (3 * 6151 % 5000) as u32);
}

#[test]
fn an_insert_script_holds_every_row_once() {
    let quanty = insert(Engine::Quanty, Mode::Bulk);
    let lines: Vec<&str> = quanty.lines().collect();
    assert_eq!(
        lines[0],
        "table bench { id: int @key, name: text @index, score: int }"
    );
    assert_eq!(lines[1], "begin");
    assert!(lines[2].starts_with(
        "put bench { id: 0, name: \"name-000000\", score: 0 }, { id: 1, name: \"name-000001\", score: 7919 }"
    ));
    assert_eq!(lines[lines.len() - 1], "commit");
    assert_eq!(lines.len(), 3 + ROWS / 100);
    assert_eq!(quanty.matches("{ id: ").count(), ROWS + 1);

    let sqlite = insert(Engine::Sqlite, Mode::Durable);
    assert!(sqlite.starts_with("create table bench (id integer primary key"));
    assert!(sqlite.contains("values (0, 'name-000000', 0), (1, 'name-000001', 7919), "));
    assert!(!sqlite.contains("begin;"));
}

#[test]
fn read_scripts_hold_nothing_but_reads() {
    let lookups = reads(Engine::Quanty, Read::Lookup);
    assert_eq!(lookups.lines().count(), LOOKUPS);
    assert_eq!(
        lookups.lines().nth(1),
        Some("get bench { name, score } where id = 1151")
    );
    let scans = reads(Engine::Sqlite, Read::Scan);
    assert_eq!(scans.lines().count(), SCANS);
    let indexed = reads(Engine::Sqlite, Read::Indexed);
    assert_eq!(
        indexed.lines().next(),
        Some("select id, score from bench where name = 'name-000000';")
    );
}

#[test]
fn the_median_is_the_middle_one() {
    assert_eq!(median(&vec![9, 1, 5]), 5);
    assert_eq!(median(&vec![3]), 3);
    assert_eq!(median(&vec![4, 4, 1, 9]), 4);
}

#[test]
fn load_options_are_read() {
    let o = load(&[]);
    assert_eq!((o.idle, o.active, o.qps, o.seconds), (10_000, 32, 1000, 1800));
    let o = load(&["--qps", "50", "--duration", "2h", "--mixed", "--addr", "x:1"]);
    assert_eq!((o.qps, o.seconds, o.write_every), (50, 7200, 10));
    assert_eq!(o.addr, "x:1");
    assert_eq!(load(&["--writes"]).statement, "put t { id: {n}, n: {n} }");
    assert!(matches!(parse(&args(&["--help", "--qps"])), Ok(Asked::Help)));
    assert_eq!(wrong(&["--qps"]), "--qps wants a value");
    assert_eq!(wrong(&["--qps", "x"]), "bad --qps");
    assert_eq!(wrong(&["--nope"]), "unknown flag --nope");
    assert_eq!(parse_duration("30m"), Ok(1800));
    assert_eq!(
        parse_duration("30"),
        Err("duration wants a unit, got 30".to_string())
    );
    assert_eq!(parse_duration("xs"), Err("bad duration xs".to_string()));
}

#[test]
fn requests_are_paced_and_unique() {
    assert_eq!(gap_nanos(32, 1000), 32_000_000);
    assert_eq!(gap_nanos(0, 0), 1_000_000_000);
    assert_eq!(request("get t", 0, 1, 7), "get t");
    assert_eq!(request("put {n} {n}", 0, 1, 7), "put 7 7");
    assert_eq!(request("x", 10, 20, 7), "put t { id: 7, n: 7 }");
    assert_eq!(request("x", 10, 21, 7), "get t where id = 1");
    assert_eq!(mix(0), "single-statement");
    assert_eq!(mix(10), "1-write-in-10");
}

#[test]
fn every_workload_says_what_it_does() {
    let all = workloads();
    let lines: Vec<String> = all
        .iter()
        .map(|w| format!("{} {}: {}", w.work.label(), w.name, w.what))
        .collect();
    assert_eq!(
        lines,
        [
            "read startup: open a database and do nothing",
            "durable insert: 5000 rows in batches of 100, one commit each",
            "bulk insert: 5000 rows in batches of 100, one transaction",
            "read lookup: 5000 lookups by key",
            "read scan: 20 full scans of 5000 rows",
            "read indexed: 5000 lookups through a secondary index",
        ]
    );
    assert_eq!(all[0].work.script(Engine::Quanty), "");
    assert_eq!(
        all[2].work.script(Engine::Sqlite),
        insert(Engine::Sqlite, Mode::Bulk)
    );
    assert_eq!(
        all[4].work.script(Engine::Quanty),
        reads(Engine::Quanty, Read::Scan)
    );
}
