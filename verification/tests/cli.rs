//! The command line, the conversation with a server, and setting one up.

use quanty::ast::BinaryOp;
use quanty::cli::{
    about, label_is_one_word, run, shell_end, split_flags, statement_on, token_lines, Command,
    Failure, Flags, Ours,
};
use quanty::client::{admitted, greeted, heard, Answering, Inbox, Message, Reply, Said};
use quanty::encoding::Value;
use quanty::importing::{after_plan, imported, left_incomplete, plan_lines, trim_end, Next, Plan};
use quanty::serving::{
    address, all_done, guard_of, opening, started, worker_count, Guard, Traffic,
};
use quanty::setup::{
    ask, asks, confirm, plan_setup, setup, uninstall, unit_says, unit_text, Found, Made, Service,
    Step,
};
use quanty::tokens::Tokens;
use quanty::value_ops::Floats;
use quanty::words::{parse_u64, split_words};

fn args(list: &[&str]) -> Vec<String> {
    list.iter().map(|s| s.to_string()).collect()
}

fn asked(list: &[&str]) -> (Command, Flags) {
    match run(&args(list)) {
        Ok(pair) => pair,
        Err(e) => panic!("refused: {e:?}"),
    }
}

fn usage(list: &[&str]) -> String {
    match run(&args(list)) {
        Err(Failure::Usage(message)) => message,
        Err(e) => panic!("refused otherwise: {e:?}"),
        Ok(_) => panic!("accepted {list:?}"),
    }
}

fn math(_: BinaryOp, a: u64, _: u64) -> u64 {
    a
}

fn text(a: u64) -> String {
    format!("{:?}", f64::from_bits(a))
}

fn floats() -> Floats<fn(BinaryOp, u64, u64) -> u64, fn(u64) -> String> {
    Floats { math, text }
}

#[test]
fn flags_are_pulled_out_wherever_they_stand() {
    let (positional, flags) = match split_flags(&args(&[
        "import",
        "--dry-run",
        "a.sqlite",
        "--strict",
        "b.qdb",
        "--sql",
        "--at",
        "+12",
        "--workers",
        "3",
        "--listen",
        "--sql",
    ])) {
        Ok(pair) => pair,
        Err(e) => panic!("{e:?}"),
    };
    assert_eq!(positional, ["import", "a.sqlite", "b.qdb"]);
    assert!(flags.dry_run && flags.strict && flags.sql && !flags.elchi);
    assert_eq!(flags.at, Some(12));
    assert_eq!(flags.workers, Some(3));
    // whatever follows a flag that wants a value is its value
    assert_eq!(flags.listen.as_deref(), Some("--sql"));
}

#[test]
fn a_bad_command_line_says_what_is_wrong_with_it() {
    assert_eq!(usage(&[]), "no command given");
    assert_eq!(usage(&["--help"]), "");
    assert_eq!(usage(&["help"]), "");
    assert_eq!(usage(&["nope"]), "unknown command nope");
    assert_eq!(usage(&["create"]), "create takes a database");
    assert_eq!(usage(&["create", "a", "b"]), "create takes a database");
    assert_eq!(usage(&["x", "--nope"]), "unknown option --nope");
    assert_eq!(
        usage(&["serve", "d", "--workers", "x"]),
        "--workers wants a number, got x"
    );
    assert_eq!(
        usage(&["serve", "d", "--workers", "0"]),
        "--workers must be at least 1"
    );
    assert_eq!(
        usage(&["branch", "d", "n", "--at", "-1"]),
        "--at wants a commit id, got -1"
    );
    assert_eq!(
        usage(&["gc", "d", "x"]),
        "gc wants a number of commits, got x"
    );
    assert_eq!(
        usage(&["gc", "d", "0"]),
        "gc must keep at least one commit per branch"
    );
    assert!(usage(&["run", "d", "s", "--branch", "b"]).starts_with("--branch does not exist"));
}

#[test]
fn commands_are_understood() {
    assert!(matches!(asked(&["create", "a"]).0, Command::Create { database } if database == "a"));
    assert!(matches!(asked(&["about"]).0, Command::About));
    assert!(matches!(asked(&["--elchi"]).0, Command::Heart));
    assert!(matches!(
        asked(&["connect", "h:1"]).0,
        Command::Connect { one: None, .. }
    ));
    assert!(matches!(
        asked(&["connect", "h:1", "log"]).0,
        Command::Connect { one: Some(s), .. } if s == "log"
    ));
    match asked(&["gc", "a", "7"]).0 {
        Command::Run { database, ours } => {
            assert_eq!(database, "a");
            assert!(ours.writes());
            assert!(matches!(ours, Ours::Gc { keep: 7 }));
        }
        _ => panic!("not a gc"),
    }
    match asked(&["branch", "a", "side", "--at", "4"]).0 {
        Command::Run { ours, .. } => {
            assert!(matches!(&ours, Ours::Branch { name, at: Some(4) } if name == "side"));
            assert!(ours.statement().is_some());
        }
        _ => panic!("not a branch"),
    }
    match asked(&["log", "a"]).0 {
        Command::Run { ours, .. } => assert!(!ours.writes()),
        _ => panic!("not a log"),
    }
    assert!(Ours::Stats.statement().is_none());
}

#[test]
fn failures_end_with_their_codes() {
    assert_eq!(Failure::Usage(String::new()).exit_code(), 2);
    assert_eq!(Failure::Failed(String::new()).exit_code(), 1);
    assert_eq!(Failure::PipeClosed.exit_code(), 0);
    assert_eq!(Failure::Refused.exit_code(), 1);
}

#[test]
fn a_shell_skips_blanks_and_comments() {
    assert_eq!(statement_on("  get t \t"), Some("get t".to_string()));
    assert_eq!(statement_on("   "), None);
    assert_eq!(statement_on("  # no"), None);
    assert_eq!(statement_on("\u{3000}log\u{2003}"), Some("log".to_string()));
    assert!(shell_end(0).is_ok());
    match shell_end(3) {
        Err(Failure::Failed(m)) => assert_eq!(m, "3 statement(s) failed"),
        other => panic!("{other:?}"),
    }
}

#[test]
fn numbers_are_read_as_rust_reads_them() {
    for text in [
        "0",
        "00012",
        "+7",
        "18446744073709551615",
        "18446744073709551616",
        "",
        "+",
        "-1",
        "1x",
        " 1",
        "++1",
        "99999999999999999999999",
    ] {
        let chars: Vec<char> = text.chars().collect();
        assert_eq!(parse_u64(&chars), text.parse::<u64>().ok(), "{text:?}");
    }
}

#[test]
fn words_are_split_as_std_splits_them() {
    for text in [
        "",
        "  ",
        "a",
        " a  b\tc\n",
        "x\u{a0}y\u{2028}z",
        "one\u{85}two",
    ] {
        let chars: Vec<char> = text.chars().collect();
        let want: Vec<String> = text.split_whitespace().map(|w| w.to_string()).collect();
        assert_eq!(split_words(&chars), want, "{text:?}");
    }
    assert!(label_is_one_word("elchi"));
    assert!(!label_is_one_word("two words"));
    assert!(!label_is_one_word(" "));
}

#[test]
fn about_says_its_counts() {
    let lines = about("1.2.3");
    assert_eq!(lines.len(), 17);
    assert_eq!(lines[0], "quanty 1.2.3");
    assert_eq!(lines[3], "  dependencies   0, and that is the whole list");
    assert_eq!(lines[6], "  crates         14, all of them in this repository");
    assert_eq!(lines[7], "  tests          500+ functions, run on every push");
    assert_eq!(token_lines("t", "l")[0], "token t");
}

// ---------------------------------------------------------------------
// the wire
// ---------------------------------------------------------------------

#[test]
fn rows_arrive_in_batches_and_print_as_they_do_locally() {
    let mut answer = Answering::new();
    let f = floats();
    assert!(matches!(answer.take(Message::RowsBegin, &f), Ok(None)));
    let first = Message::RowBatch {
        rows: vec![vec![Value::Int(1), Value::Text("a".to_string())]],
    };
    assert!(matches!(answer.take(first, &f), Ok(None)));
    let second = Message::RowBatch {
        rows: vec![
            vec![Value::Null, Value::Bool(true)],
            vec![Value::Float(1.5f64.to_bits()), Value::Bytes(vec![255])],
        ],
    };
    assert!(matches!(answer.take(second, &f), Ok(None)));
    match answer.take(Message::RowsEnd, &f) {
        Ok(Some(Reply::Text(t))) => assert_eq!(t, "1|a\nnull|true\n1.5|x\"ff\""),
        other => panic!("{other:?}"),
    }
}

#[test]
fn rows_that_were_never_begun_are_refused() {
    let f = floats();
    let batch = Message::RowBatch { rows: vec![] };
    assert!(matches!(
        Answering::new().take(batch, &f),
        Err(Failure::Failed(_))
    ));
    assert!(matches!(
        Answering::new().take(Message::RowsEnd, &f),
        Err(Failure::Failed(_))
    ));
}

#[test]
fn whole_answers_come_in_one_message() {
    let f = floats();
    let take = |m: Message| match Answering::new().take(m, &f) {
        Ok(Some(reply)) => reply,
        other => panic!("{other:?}"),
    };
    assert!(matches!(take(Message::Ready), Reply::Done));
    assert!(matches!(take(Message::Done), Reply::Done));
    let count = Message::Count {
        verb: "put".to_string(),
        n: 3,
    };
    assert!(matches!(take(count), Reply::Text(t) if t == "put 3"));
    let lines = Message::Lines(vec!["a".to_string(), "b".to_string()]);
    assert!(matches!(take(lines), Reply::Text(t) if t == "a\nb"));
    let error = Message::Error {
        message: "no".to_string(),
    };
    assert!(matches!(take(error), Reply::Error(m) if m == "no"));
}

#[test]
fn replies_are_heard_and_tokens_admitted() {
    assert!(matches!(heard(Reply::Done), Said::Print(t) if t == "ok"));
    assert!(matches!(heard(Reply::Text(String::new())), Said::Quiet));
    assert!(matches!(heard(Reply::Text("x".into())), Said::Print(t) if t == "x"));
    assert!(matches!(heard(Reply::Error("e".into())), Said::Complain(m) if m == "e"));
    assert!(greeted(Reply::Done).is_ok());
    assert!(matches!(greeted(Reply::Text("x".into())), Err(Failure::Failed(_))));
    match admitted(Reply::Error("no".into())) {
        Err(Failure::Failed(m)) => assert_eq!(m, "token refused: no"),
        other => panic!("{other:?}"),
    }
}

#[test]
fn bytes_are_taken_in_the_order_they_came() {
    let mut inbox = Inbox::new();
    inbox.push(b"ab");
    assert_eq!(inbox.take(3), None);
    inbox.push(b"cde");
    assert_eq!(inbox.take(3).as_deref(), Some(&b"abc"[..]));
    assert_eq!(inbox.take(2).as_deref(), Some(&b"de"[..]));
    assert_eq!(inbox.take(0).as_deref(), Some(&b""[..]));
}

// ---------------------------------------------------------------------
// setting up
// ---------------------------------------------------------------------

#[test]
fn questions_take_their_defaults() {
    assert_eq!(ask(&None, "d"), "d");
    assert_eq!(ask(&Some(" \n".to_string()), "d"), "d");
    assert_eq!(ask(&Some(" x y\n".to_string()), "d"), "x y");
    assert!(asks(&None, true) && !asks(&None, false));
    assert!(asks(&Some("\n".to_string()), true));
    assert!(asks(&Some("YES\n".to_string()), false));
    assert!(!asks(&Some("yep\n".to_string()), true));
    assert!(confirm("y\n") && confirm("Yes") && !confirm("") && !confirm("no"));
}

#[test]
fn a_unit_says_what_was_written_into_it() {
    let text = unit_text(
        "someone",
        "/usr/bin/quanty",
        "/data/a.qdb",
        "127.0.0.1:7878",
        "/data/a.tokens",
        "/data",
    );
    assert!(text.contains("User=someone\n"));
    assert!(text.contains("ReadWritePaths=/data\n"));
    assert!(text.contains(
        "ExecStart=/usr/bin/quanty serve /data/a.qdb --listen 127.0.0.1:7878 --tokens /data/a.tokens\n"
    ));
    let service = unit_says(&text).expect("a service");
    assert_eq!(service.binary, "/usr/bin/quanty");
    assert_eq!(service.database, "/data/a.qdb");
    assert_eq!(service.tokens.as_deref(), Some("/data/a.tokens"));
}

#[test]
fn a_unit_that_serves_nothing_says_nothing() {
    assert!(unit_says("").is_none());
    assert!(unit_says("[Service]\nType=simple\n").is_none());
    assert!(unit_says("ExecStart=/bin/true\n").is_none());
    assert!(unit_says("ExecStart=/bin/quanty shell a\n").is_none());
    let bare = unit_says("  ExecStart=/bin/quanty serve a --tokens\n").expect("a service");
    assert_eq!(bare.tokens, None);
}

#[test]
fn setup_reports_and_warns_off_loopback() {
    let made = |loopback: bool, service: bool| Made {
        database: "a.qdb".to_string(),
        tokens: "a.tokens".to_string(),
        listen: "0.0.0.0:1".to_string(),
        token: "tok".to_string(),
        wrote: vec!["a.qdb".to_string(), "a.tokens (chmod 600)".to_string()],
        service,
        loopback,
    };
    let lines = setup(&made(false, false));
    assert_eq!(lines[2], "  tok");
    assert_eq!(lines[9], "  a.qdb");
    assert!(lines.iter().any(|l| l.contains("not encrypted")));
    assert!(lines.contains(
        &"  quanty serve a.qdb --listen 0.0.0.0:1 --tokens a.tokens".to_string()
    ));
    let lines = setup(&made(true, true));
    assert!(!lines.iter().any(|l| l.contains("not encrypted")));
    assert!(lines.contains(&"  systemctl enable --now quanty".to_string()));
}

#[test]
fn only_the_unit_that_runs_this_binary_goes() {
    let found = |runs: &str| Found {
        unit: "/etc/u".to_string(),
        unit_exists: true,
        service: Some(Service {
            binary: runs.to_string(),
            database: "d".to_string(),
            tokens: None,
        }),
        binary: "/bin/quanty".to_string(),
        previous: None,
    };
    assert!(uninstall(&found("/bin/quanty")).1);
    let (lines, goes) = uninstall(&found("/opt/quanty"));
    assert!(!goes);
    assert!(lines.contains(&"    left alone: it runs a different binary than this one".to_string()));
}

// ---------------------------------------------------------------------
// serving
// ---------------------------------------------------------------------

#[test]
fn a_server_listens_on_loopback_unless_told_otherwise() {
    let (_, flags) = asked(&["serve", "a.qdb"]);
    assert_eq!(address(&flags), "127.0.0.1:7878");
    assert_eq!(worker_count(&flags, Some(6)), 6);
    assert_eq!(worker_count(&flags, None), 1);
    let (_, flags) = asked(&["serve", "a.qdb", "--listen", "0.0.0.0:9", "--workers", "3"]);
    assert_eq!(address(&flags), "0.0.0.0:9");
    assert_eq!(worker_count(&flags, Some(6)), 3);
}

#[test]
fn a_server_says_what_it_requires() {
    assert_eq!(
        opening(&None),
        ["no authentication required; keep this on loopback"]
    );
    let guard = Guard {
        count: 2,
        path: "/etc/tokens".to_string(),
        permissive: false,
    };
    assert_eq!(
        opening(&Some(guard)),
        ["requiring a token, 2 in force from /etc/tokens"]
    );
    let guard = Guard {
        count: 1,
        path: "t".to_string(),
        permissive: true,
    };
    assert_eq!(
        opening(&Some(guard)),
        [
            "requiring a token, 1 in force from t",
            "note: the token file is readable by others; chmod 600 it"
        ]
    );
    assert_eq!(
        started("127.0.0.1:7878", 4, "a.qdb"),
        ["listening on 127.0.0.1:7878, 4 workers", "serving a.qdb"]
    );
}

#[test]
fn a_server_counts_its_connections() {
    let mut traffic = Traffic::new(3);
    assert_eq!(traffic.line(), "held=0 accepted=0 spread=[0, 0, 0]");
    traffic.turn(1, 5, 5);
    traffic.turn(0, 2, 2);
    traffic.turn(1, 0, 4);
    assert_eq!(traffic.line(), "held=6 accepted=7 spread=[2, 4, 0]");
    assert_eq!(Traffic::new(0).line(), "held=0 accepted=0 spread=[]");
    assert!(all_done(&[]));
    assert!(all_done(&[true, true]));
    assert!(!all_done(&[true, false]));
}

// ---------------------------------------------------------------------
// importing
// ---------------------------------------------------------------------

fn import_plan(problems: usize) -> Plan {
    Plan {
        report: "users: 3 rows\nposts: 4 rows\n\n".to_string(),
        tables: 2,
        rows: 7,
        problems,
        runnable: problems == 0,
    }
}

#[test]
fn a_plan_prints_itself_and_how_much_there_is() {
    assert_eq!(
        plan_lines(&import_plan(0)),
        ["users: 3 rows\nposts: 4 rows", "\n2 tables, 7 rows"]
    );
    assert_eq!(trim_end("  a b \t\r\n"), "  a b");
    assert_eq!(trim_end(" \n"), "");
}

#[test]
fn an_import_writes_only_what_it_may() {
    assert_eq!(after_plan(&import_plan(0), false, false, "t.qdb"), Next::Write);
    // problems come before everything else
    assert_eq!(
        after_plan(&import_plan(2), true, true, "t.qdb"),
        Next::Refuse("2 problem(s), nothing was written".to_string())
    );
    // a dry run does not mind the target
    assert_eq!(
        after_plan(&import_plan(0), true, true, "t.qdb"),
        Next::Stop("\ndry run, nothing was written".to_string())
    );
    assert_eq!(
        after_plan(&import_plan(0), false, true, "t.qdb"),
        Next::Refuse("t.qdb already exists; delete it or pick another name".to_string())
    );
    assert_eq!(
        imported(7, 2, "t.qdb"),
        "\nimported 7 rows into 2 tables in t.qdb"
    );
    assert_eq!(
        left_incomplete("no room", "t.qdb"),
        "no room\n\nt.qdb is incomplete and should be deleted"
    );
}

#[test]
fn setup_is_planned_before_anything_is_written() {
    assert_eq!(
        plan_setup(false, true, false).unwrap(),
        vec![Step::CreateDatabase, Step::AddToken, Step::WriteUnit]
    );
    assert_eq!(
        plan_setup(true, false, true).unwrap(),
        vec![Step::UseDatabase, Step::AddToken]
    );
    match plan_setup(true, true, true) {
        Err(Failure::Failed(m)) => assert!(m.contains("already exists"), "got: {m}"),
        other => panic!("an existing unit stops setup: {other:?}"),
    }
}

#[test]
fn a_token_file_that_cannot_be_used_is_named() {
    assert!(matches!(guard_of(None, None), Ok(None)));
    let good = Tokens::load("t", None, Ok(String::new()));
    match guard_of(Some("t"), Some(good)) {
        Ok(Some(tokens)) => assert!(tokens.is_empty()),
        _ => panic!("an empty token file is a token file"),
    }
    let bad = Tokens::load("t", None, Ok("nope x".to_string()));
    match guard_of(Some("t"), Some(bad)) {
        Err(Failure::Failed(m)) => {
            assert_eq!(m, "token file t: line 1: expected sixty four hex characters");
        }
        _ => panic!("a malformed token file is refused"),
    }
}

#[test]
fn the_count_of_connections_starts_over() {
    let mut traffic = Traffic::new(2);
    traffic.turn(0, 1, usize::MAX);
    traffic.turn(1, 1, 3);
    assert!(traffic.line().starts_with("held=2 accepted=2 "), "{}", traffic.line());
}
