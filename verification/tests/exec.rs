//! Tables, expressions, statements and sessions.

use quanty::ast::{
    AsOf, Assign, BinaryOp, ColumnDef, ColumnRef, Direction, Expr, Get, Join, JoinKind, Statement,
    TableDef, TypeName, UnaryOp,
};
use quanty::catalog::Table;
use quanty::db::Db;
use quanty::encoding::Value;
use quanty::exec_error::ExecError;
use quanty::plan::ExplainNode;
use quanty::rows::index_entry_key;
use quanty::session::Session;
use quanty::statement::Output;
use quanty::source::load_table_from;
use quanty::storage::MemStorage;
use quanty::text::encode_posting;
use quanty::text_index::{corpus_key, verify_text_index};
use quanty::value_ops::{eval, sort_values, widen, Floats, NoScope};
use quanty::verify::verify_indexes;

type Math = fn(BinaryOp, u64, u64) -> u64;
type Text = fn(u64) -> String;
type Memory = Session<MemStorage, Math, Text>;

fn math(op: BinaryOp, a: u64, b: u64) -> u64 {
    let (x, y) = (f64::from_bits(a), f64::from_bits(b));
    let r = match op {
        BinaryOp::Add => x + y,
        BinaryOp::Sub => x - y,
        BinaryOp::Mul => x * y,
        BinaryOp::Div => x / y,
        _ => x % y,
    };
    r.to_bits()
}

fn text(a: u64) -> String {
    format!("{:?}", f64::from_bits(a))
}

fn floats() -> Floats<Math, Text> {
    Floats { math, text }
}

fn float(f: f64) -> Value {
    Value::Float(f.to_bits())
}

fn s(t: &str) -> Value {
    Value::Text(t.to_string())
}

fn lit(v: Value) -> Expr {
    Expr::Literal(v)
}

fn num(i: i64) -> Expr {
    lit(Value::Int(i))
}

fn null() -> Expr {
    lit(Value::Null)
}

fn txt(t: &str) -> Expr {
    lit(s(t))
}

fn col(name: &str) -> Expr {
    Expr::Column(ColumnRef {
        table: None,
        column: name.to_string(),
    })
}

fn of(table: &str, name: &str) -> Expr {
    Expr::Column(ColumnRef {
        table: Some(table.to_string()),
        column: name.to_string(),
    })
}

fn bin(a: Expr, op: BinaryOp, b: Expr) -> Expr {
    Expr::Binary(Box::new(a), op, Box::new(b))
}

fn eq(a: Expr, b: Expr) -> Expr {
    bin(a, BinaryOp::Eq, b)
}

fn v(e: Expr) -> Result<Value, ExecError> {
    eval(&e, &NoScope, &floats())
}

// ---------------------------------------------------------------------
// table definitions
// ---------------------------------------------------------------------

fn column(name: &str, ty: TypeName) -> ColumnDef {
    ColumnDef {
        name: name.to_string(),
        ty,
        nullable: false,
        key: false,
        index: false,
        default: None,
    }
}

fn key(name: &str, ty: TypeName) -> ColumnDef {
    ColumnDef {
        key: true,
        ..column(name, ty)
    }
}

fn nullable(name: &str, ty: TypeName) -> ColumnDef {
    ColumnDef {
        nullable: true,
        ..column(name, ty)
    }
}

fn indexed(c: ColumnDef) -> ColumnDef {
    ColumnDef { index: true, ..c }
}

fn default(c: ColumnDef, v: Value) -> ColumnDef {
    ColumnDef {
        default: Some(v),
        ..c
    }
}

fn table(name: &str, columns: Vec<ColumnDef>) -> TableDef {
    TableDef {
        name: name.to_string(),
        columns,
    }
}

#[test]
fn table_roundtrips_through_the_codec() {
    let def = table(
        "users",
        vec![
            key("id", TypeName::Int),
            indexed(column("name", TypeName::Text)),
            default(column("score", TypeName::Float), float(1.5)),
            nullable("blob", TypeName::Bytes),
        ],
    );
    let mut table = Table::from_ast(&def, 7).unwrap();
    table.columns[1].index_id = Some(8);
    let bytes = table.serialize();
    assert_eq!(Table::deserialize(&bytes).unwrap(), table);
}

#[test]
fn validation_rejects_broken_definitions() {
    let broken = [
        // no key
        vec![column("a", TypeName::Int)],
        // nullable key
        vec![ColumnDef {
            nullable: true,
            ..key("a", TypeName::Int)
        }],
        // duplicate column
        vec![key("a", TypeName::Int), column("a", TypeName::Text)],
        // default type mismatch
        vec![
            key("a", TypeName::Int),
            default(column("b", TypeName::Int), s("x")),
        ],
    ];
    for (i, columns) in broken.into_iter().enumerate() {
        assert!(
            Table::from_ast(&table("t", columns), 1).is_err(),
            "accepted {i}"
        );
    }
}

#[test]
fn a_truncated_table_is_refused() {
    let def = table("t", vec![key("id", TypeName::Int)]);
    let bytes = Table::from_ast(&def, 1).unwrap().serialize();
    for cut in 0..bytes.len() {
        assert!(Table::deserialize(&bytes[..cut]).is_err(), "accepted {cut}");
    }
}

// ---------------------------------------------------------------------
// expressions
// ---------------------------------------------------------------------

#[test]
fn null_rules_are_what_the_docs_say() {
    assert_eq!(v(eq(null(), null())).unwrap(), Value::Bool(true));
    assert_eq!(v(eq(null(), num(1))).unwrap(), Value::Bool(false));
    assert_eq!(
        v(bin(null(), BinaryOp::NotEq, num(1))).unwrap(),
        Value::Bool(true)
    );
    assert_eq!(
        v(bin(null(), BinaryOp::Lt, num(1))).unwrap(),
        Value::Bool(false)
    );
    assert_eq!(
        v(bin(null(), BinaryOp::Gt, num(1))).unwrap(),
        Value::Bool(false)
    );
    assert_eq!(
        v(eq(bin(null(), BinaryOp::Add, num(1)), null())).unwrap(),
        Value::Bool(true)
    );
}

#[test]
fn int_arithmetic_is_checked() {
    assert!(v(bin(num(9223372036854775807), BinaryOp::Add, num(1)))
        .unwrap_err()
        .message()
        .contains("overflow"));
    assert!(v(bin(num(1), BinaryOp::Div, num(0)))
        .unwrap_err()
        .message()
        .contains("division by zero"));
    assert!(v(bin(num(1), BinaryOp::Mod, num(0)))
        .unwrap_err()
        .message()
        .contains("division by zero"));
    assert_eq!(
        v(bin(num(7), BinaryOp::Div, num(2))).unwrap(),
        Value::Int(3),
        "int division truncates"
    );
}

#[test]
fn int_division_truncates_toward_zero() {
    assert_eq!(
        v(bin(num(-7), BinaryOp::Div, num(2))).unwrap(),
        Value::Int(-3)
    );
    assert_eq!(
        v(bin(num(-7), BinaryOp::Mod, num(2))).unwrap(),
        Value::Int(-1)
    );
    assert!(v(bin(num(i64::MIN), BinaryOp::Div, num(-1)))
        .unwrap_err()
        .message()
        .contains("overflow"));
    assert!(v(Expr::Unary(UnaryOp::Neg, Box::new(num(i64::MIN))))
        .unwrap_err()
        .message()
        .contains("overflow"));
}

#[test]
fn mixed_numerics_and_type_errors() {
    assert_eq!(
        v(bin(num(1), BinaryOp::Lt, lit(float(1.5)))).unwrap(),
        Value::Bool(true)
    );
    assert_eq!(v(eq(num(2), lit(float(2.0)))).unwrap(), Value::Bool(true));
    assert_eq!(
        v(bin(num(1), BinaryOp::Add, lit(float(0.5)))).unwrap(),
        float(1.5)
    );
    assert!(v(eq(num(1), txt("1")))
        .unwrap_err()
        .message()
        .contains("cannot compare"));
    assert!(v(bin(lit(Value::Bool(true)), BinaryOp::Add, num(1)))
        .unwrap_err()
        .message()
        .contains("cannot apply"));
}

#[test]
fn text_concat_works() {
    assert_eq!(
        v(eq(bin(txt("a"), BinaryOp::Add, txt("b")), txt("ab"))).unwrap(),
        Value::Bool(true)
    );
}

#[test]
fn widening_an_int_rounds_as_the_machine_does() {
    for i in [
        0i64,
        1,
        -1,
        7,
        1 << 52,
        (1 << 53) + 1,
        (1 << 54) + 3,
        (1 << 60) + 257,
        i64::MAX,
        i64::MIN,
        i64::MAX - 512,
        -9_007_199_254_740_993,
    ] {
        assert_eq!(f64::from_bits(widen(i)), i as f64, "{i}");
    }
}

#[test]
fn negating_a_float_flips_its_sign() {
    assert_eq!(
        v(Expr::Unary(UnaryOp::Neg, Box::new(lit(float(2.5))))).unwrap(),
        float(-2.5)
    );
}

#[test]
fn sorting_puts_null_first_and_types_in_rank_order() {
    let mut all = vec![s("b"), Value::Int(3), Value::Null, s("a"), Value::Int(-1)];
    for i in 0..all.len() {
        for j in 0..all.len() - 1 - i {
            if matches!(
                sort_values(&all[j], &all[j + 1]),
                quanty::order::Order::Greater
            ) {
                all.swap(j, j + 1);
            }
        }
    }
    assert_eq!(all[0], Value::Null);
}

// ---------------------------------------------------------------------
// statements
// ---------------------------------------------------------------------

fn session() -> Memory {
    Session::new(Db::in_memory().unwrap(), floats())
}

fn run(session: &mut Memory, stmt: Statement) -> Output {
    session
        .run_parsed(stmt)
        .unwrap_or_else(|e| panic!("statement failed: {}", e.message()))
}

fn refused(session: &mut Memory, stmt: Statement) -> String {
    session.run_parsed(stmt).unwrap_err().message()
}

fn rows(output: Output) -> Vec<Vec<Value>> {
    match output {
        Output::Rows(rows) => rows,
        other => panic!("expected rows, got {other:?}"),
    }
}

fn lines(output: Output) -> Vec<String> {
    match output {
        Output::Lines(lines) => lines,
        other => panic!("expected lines, got {other:?}"),
    }
}

fn show(output: &Output) -> String {
    output.render(&floats())
}

fn put(table: &str, row: Vec<(&str, Expr)>) -> Statement {
    Statement::Put {
        table: table.to_string(),
        rows: vec![row
            .into_iter()
            .map(|(name, e)| (name.to_string(), e))
            .collect()],
    }
}

fn get(table: &str) -> Get {
    Get {
        table: table.to_string(),
        joins: vec![],
        filter: None,
        order: None,
        limit: None,
        projection: None,
        as_of: None,
    }
}

fn get_where(table: &str, filter: Expr) -> Statement {
    Statement::Get(Get {
        filter: Some(filter),
        ..get(table)
    })
}

fn explain(stmt: Statement) -> Statement {
    Statement::Explain(Box::new(stmt))
}

fn users(session: &mut Memory) {
    run(
        session,
        Statement::TableDef(table(
            "users",
            vec![
                key("id", TypeName::Int),
                indexed(column("name", TypeName::Text)),
                default(column("score", TypeName::Int), Value::Int(0)),
            ],
        )),
    );
    for (id, name, score) in [(1, "elchi", 120), (2, "mira", 80), (3, "elchi", 300)] {
        let out = run(
            session,
            put(
                "users",
                vec![("id", num(id)), ("name", txt(name)), ("score", num(score))],
            ),
        );
        assert_eq!(show(&out), "put 1");
    }
}

#[test]
fn the_readme_queries_answer() {
    let mut session = session();
    users(&mut session);
    // get users where score > 100 order by score desc limit 10
    let out = run(
        &mut session,
        Statement::Get(Get {
            filter: Some(bin(col("score"), BinaryOp::Gt, num(100))),
            order: Some((ColumnRef::plain("score"), Direction::Desc)),
            limit: Some(10),
            ..get("users")
        }),
    );
    assert_eq!(show(&out), "3|elchi|300\n1|elchi|120");
    // set users where id = 1 { score += 5 }
    let out = run(
        &mut session,
        Statement::Update {
            table: "users".to_string(),
            filter: Some(eq(col("id"), num(1))),
            assigns: vec![Assign {
                column: "score".to_string(),
                expr: bin(col("score"), BinaryOp::Add, num(5)),
            }],
        },
    );
    assert_eq!(show(&out), "set 1");
    // get users as of the commit before that, where name = "elchi"
    let head = session.db().head_commit();
    let past = rows(run(
        &mut session,
        Statement::Get(Get {
            filter: Some(eq(col("name"), txt("elchi"))),
            as_of: Some(AsOf::Commit(head - 1)),
            ..get("users")
        }),
    ));
    assert_eq!(past[0][2], Value::Int(120));
    let now = rows(run(&mut session, get_where("users", eq(col("id"), num(1)))));
    assert_eq!(now, vec![vec![Value::Int(1), s("elchi"), Value::Int(125)]]);
}

#[test]
fn a_projection_picks_columns_in_its_own_order() {
    let mut session = session();
    users(&mut session);
    let out = run(
        &mut session,
        Statement::Get(Get {
            projection: Some(vec![ColumnRef::plain("name"), ColumnRef::plain("id")]),
            limit: Some(1),
            ..get("users")
        }),
    );
    assert_eq!(show(&out), "elchi|1");
}

#[test]
fn explain_names_the_way_it_takes() {
    let mut session = session();
    users(&mut session);
    let by_key = lines(run(
        &mut session,
        explain(get_where("users", eq(col("id"), num(1)))),
    ));
    assert!(by_key.join("\n").contains("users"), "{by_key:?}");
    let by_index = lines(run(
        &mut session,
        explain(get_where("users", eq(col("name"), txt("mira")))),
    ));
    assert!(by_index.join("\n").contains("IndexScan"), "{by_index:?}");
    let scan = lines(run(
        &mut session,
        explain(get_where("users", eq(col("score"), num(1)))),
    ));
    assert!(scan.join("\n").contains("SeqScan"), "{scan:?}");
    assert!(refused(&mut session, explain(Statement::ShowTables))
        .contains("explain wants get, put, set or del"));
}

#[test]
fn an_explain_tree_indents_its_children() {
    let leaf = ExplainNode::leaf("SeqScan t".to_string());
    let node = ExplainNode::over("Filter x = 1".to_string(), leaf);
    let shown = node.render();
    assert_eq!(shown.len(), 2);
    assert_eq!(shown[0], "Filter x = 1");
    assert!(shown[1].ends_with("SeqScan t") && shown[1] != "SeqScan t");
}

#[test]
fn statements_that_make_no_sense_are_refused_and_change_nothing() {
    let mut session = session();
    users(&mut session);
    let head = session.db().head_commit();
    assert!(!refused(&mut session, Statement::Get(get("nosuchtable"))).is_empty());
    // a key is never null
    assert!(!refused(
        &mut session,
        put("users", vec![("id", null()), ("name", txt("x"))])
    )
    .is_empty());
    // a value of the wrong type
    assert!(!refused(
        &mut session,
        put("users", vec![("id", txt("one")), ("name", txt("x"))])
    )
    .is_empty());
    // an unknown column
    assert!(!refused(
        &mut session,
        put("users", vec![("id", num(9)), ("nope", num(1))])
    )
    .is_empty());
    // a table that exists
    assert!(!refused(
        &mut session,
        Statement::TableDef(table("users", vec![key("id", TypeName::Int)]))
    )
    .is_empty());
    assert_eq!(session.db().head_commit(), head);
}

#[test]
fn an_index_made_later_covers_the_rows_that_are_there() {
    let mut session = session();
    users(&mut session);
    run(
        &mut session,
        Statement::IndexDef {
            table: "users".to_string(),
            column: "score".to_string(),
        },
    );
    verify_indexes(&session).unwrap_or_else(|e| panic!("{}", e.message()));
    let found = rows(run(
        &mut session,
        get_where("users", eq(col("score"), num(80))),
    ));
    assert_eq!(found, vec![vec![Value::Int(2), s("mira"), Value::Int(80)]]);
}

#[test]
fn a_dropped_table_is_gone() {
    let mut session = session();
    users(&mut session);
    assert_eq!(lines(run(&mut session, Statement::ShowTables)).len(), 1);
    run(
        &mut session,
        Statement::DropTable {
            name: "users".to_string(),
        },
    );
    assert!(lines(run(&mut session, Statement::ShowTables)).is_empty());
    assert!(!refused(&mut session, Statement::Get(get("users"))).is_empty());
}

#[test]
fn a_transaction_sees_its_own_writes_and_a_rollback_forgets_them() {
    let mut session = session();
    users(&mut session);
    let head = session.db().head_commit();
    run(&mut session, Statement::Begin);
    run(
        &mut session,
        put("users", vec![("id", num(7)), ("name", txt("new"))]),
    );
    assert_eq!(rows(run(&mut session, Statement::Get(get("users")))).len(), 4);
    assert_eq!(session.db().head_commit(), head, "nothing is committed yet");
    run(&mut session, Statement::Rollback);
    assert_eq!(rows(run(&mut session, Statement::Get(get("users")))).len(), 3);

    run(&mut session, Statement::Begin);
    run(
        &mut session,
        put("users", vec![("id", num(7)), ("name", txt("new"))]),
    );
    run(
        &mut session,
        Statement::Del {
            table: "users".to_string(),
            filter: Some(eq(col("id"), num(1))),
        },
    );
    run(&mut session, Statement::Commit);
    assert_eq!(
        session.db().head_commit(),
        head + 1,
        "a transaction is one commit"
    );
    assert_eq!(rows(run(&mut session, Statement::Get(get("users")))).len(), 3);
    assert!(!refused(&mut session, Statement::Commit).is_empty());
    assert!(!refused(&mut session, Statement::Rollback).is_empty());
}

#[test]
fn branches_are_statements_too() {
    let mut session = session();
    users(&mut session);
    run(
        &mut session,
        Statement::Branch {
            name: "side".to_string(),
            at: None,
        },
    );
    run(
        &mut session,
        Statement::Switch {
            name: "side".to_string(),
        },
    );
    run(
        &mut session,
        Statement::Del {
            table: "users".to_string(),
            filter: None,
        },
    );
    assert!(rows(run(&mut session, Statement::Get(get("users")))).is_empty());
    run(
        &mut session,
        Statement::Switch {
            name: "main".to_string(),
        },
    );
    assert_eq!(rows(run(&mut session, Statement::Get(get("users")))).len(), 3);
    assert_eq!(lines(run(&mut session, Statement::ShowBranches)).len(), 2);
    run(
        &mut session,
        Statement::Merge {
            name: "side".to_string(),
        },
    );
    assert!(rows(run(&mut session, Statement::Get(get("users")))).is_empty());
    run(
        &mut session,
        Statement::DropBranch {
            name: "side".to_string(),
        },
    );
    assert_eq!(lines(run(&mut session, Statement::ShowBranches)).len(), 1);
    assert!(!lines(run(&mut session, Statement::Log)).is_empty());
    run(&mut session, Statement::Gc { keep: 1 });
    assert_eq!(lines(run(&mut session, Statement::Log)).len(), 1);
}

// ---------------------------------------------------------------------
// index consistency
// ---------------------------------------------------------------------

struct Rng(u64);

impl Rng {
    fn next(&mut self) -> u64 {
        self.0 ^= self.0 << 13;
        self.0 ^= self.0 >> 7;
        self.0 ^= self.0 << 17;
        self.0
    }

    fn below(&mut self, n: u64) -> u64 {
        self.next() % n
    }

    /// Small int or null, the domain that makes collisions and misses
    /// both likely.
    fn small(&mut self, nulls: bool) -> Value {
        if nulls && self.below(4) == 0 {
            Value::Null
        } else {
            Value::Int(self.below(6) as i64)
        }
    }

    fn tag(&mut self) -> Value {
        match self.below(4) {
            0 => Value::Null,
            1 => s("x"),
            2 => s("y"),
            _ => s("z"),
        }
    }
}

fn run_sequence(seed: u64) {
    let mut rng = Rng(seed);
    let mut session = session();
    run(
        &mut session,
        Statement::TableDef(table(
            "w",
            vec![
                key("id", TypeName::Int),
                indexed(column("tag", TypeName::Text)),
                indexed(nullable("v", TypeName::Int)),
                default(column("plain", TypeName::Int), Value::Int(0)),
            ],
        )),
    );

    let tags = ["a", "b", "c", "d"];
    let mut next_id = 0i64;
    let ops = 150 + rng.below(150);
    for _ in 0..ops {
        match rng.below(100) {
            // insert, sometimes with a null v
            0..=49 => {
                next_id += 1;
                let tag = tags[rng.below(4) as usize];
                let val = match rng.below(4) {
                    0 => Value::Null,
                    _ => Value::Int(rng.below(5) as i64),
                };
                let plain = rng.below(100) as i64;
                run(
                    &mut session,
                    put(
                        "w",
                        vec![
                            ("id", num(next_id)),
                            ("tag", txt(tag)),
                            ("v", lit(val)),
                            ("plain", num(plain)),
                        ],
                    ),
                );
            }
            // update an indexed column through a random access path
            50..=74 => {
                let tag = tags[rng.below(4) as usize];
                let new_tag = tags[rng.below(4) as usize];
                let new_v = match rng.below(4) {
                    0 => Value::Null,
                    _ => Value::Int(rng.below(5) as i64),
                };
                let filter = match rng.below(3) {
                    0 => eq(col("id"), num(1 + rng.below(next_id.max(1) as u64) as i64)),
                    1 => eq(col("tag"), txt(tag)),
                    _ => eq(col("v"), lit(new_v.clone())),
                };
                run(
                    &mut session,
                    Statement::Update {
                        table: "w".to_string(),
                        filter: Some(filter),
                        assigns: vec![
                            Assign {
                                column: "tag".to_string(),
                                expr: txt(new_tag),
                            },
                            Assign {
                                column: "v".to_string(),
                                expr: lit(new_v),
                            },
                        ],
                    },
                );
            }
            // delete through a random access path
            _ => {
                let filter = match rng.below(3) {
                    0 => eq(col("id"), num(1 + rng.below(next_id.max(1) as u64) as i64)),
                    1 => eq(col("tag"), txt(tags[rng.below(4) as usize])),
                    _ => eq(col("v"), num(rng.below(5) as i64)),
                };
                run(
                    &mut session,
                    Statement::Del {
                        table: "w".to_string(),
                        filter: Some(filter),
                    },
                );
            }
        }
    }

    // 1. every index entry accounted for
    verify_indexes(&session).unwrap_or_else(|e| panic!("seed {seed}: {}", e.message()));

    // 2. index scans agree with filtered full scans, and really are
    //    index scans according to the planner
    let all = rows(run(&mut session, Statement::Get(get("w"))));
    for tag in tags {
        let plan = run(
            &mut session,
            explain(get_where("w", eq(col("tag"), txt(tag)))),
        );
        let plan = show(&plan);
        assert!(
            plan.contains("IndexScan"),
            "seed {seed}: planner skipped the index:\n{plan}"
        );

        let indexed = rows(run(&mut session, get_where("w", eq(col("tag"), txt(tag)))));
        let filtered: Vec<_> = all.iter().filter(|row| row[1] == s(tag)).cloned().collect();
        assert_eq!(
            indexed, filtered,
            "seed {seed}: index scan drifted for tag {tag}"
        );
    }
    for want in [
        Value::Null,
        Value::Int(0),
        Value::Int(1),
        Value::Int(2),
        Value::Int(3),
        Value::Int(4),
    ] {
        let indexed = rows(run(
            &mut session,
            get_where("w", eq(col("v"), lit(want.clone()))),
        ));
        let filtered: Vec<_> = all.iter().filter(|row| row[2] == want).cloned().collect();
        assert_eq!(
            indexed, filtered,
            "seed {seed}: index scan drifted for v = {want:?}"
        );
    }
}

#[test]
fn indexes_stay_consistent_under_random_workloads() {
    for seq in 0..60u64 {
        run_sequence(0xBEE5_0000_0000_0000 | seq);
    }
}

#[test]
fn verifier_actually_detects_damage() {
    // a checker that cannot fail checks nothing: damage an index entry on
    // purpose and demand a complaint
    let mut session = session();
    run(
        &mut session,
        Statement::TableDef(table(
            "d",
            vec![
                key("id", TypeName::Int),
                indexed(column("tag", TypeName::Text)),
            ],
        )),
    );
    run(
        &mut session,
        put("d", vec![("id", num(1)), ("tag", txt("x"))]),
    );
    verify_indexes(&session).unwrap_or_else(|e| panic!("clean state: {}", e.message()));

    // reach under the hood: delete the row but not its index entry
    let mut tx = session.db.begin();
    let mut keys: Vec<Vec<u8>> = Vec::new();
    let mut scan = tx.scan(None, None).unwrap();
    while let Some(item) = scan.next() {
        keys.push(item.unwrap().0);
    }
    drop(scan);
    // row keys and index keys both live in the data tree; the row is the
    // one whose stored value is non-empty
    let row_key = keys
        .iter()
        .find(|k| !tx.get(k).unwrap().unwrap().is_empty())
        .expect("row key")
        .clone();
    tx.delete(&row_key).unwrap();
    tx.commit().unwrap();

    let err = match verify_indexes(&session) {
        Ok(()) => panic!("stray entry must be found"),
        Err(e) => e.message(),
    };
    assert!(err.contains("stray"), "got: {err}");
}

#[test]
fn every_statement_leaves_a_database_that_passes() {
    let mut session = session();
    verify_indexes(&session).unwrap_or_else(|e| panic!("empty: {}", e.message()));
    let steps = vec![
        Statement::TableDef(table(
            "a",
            vec![
                key("id", TypeName::Int),
                indexed(column("tag", TypeName::Text)),
                column("n", TypeName::Int),
            ],
        )),
        put("a", vec![("id", num(1)), ("tag", txt("x")), ("n", num(5))]),
        put("a", vec![("id", num(2)), ("tag", txt("y")), ("n", num(5))]),
        Statement::TableDef(table(
            "b",
            vec![
                key("id", TypeName::Int),
                indexed(column("n", TypeName::Int)),
            ],
        )),
        put("b", vec![("id", num(1)), ("n", num(7))]),
        Statement::IndexDef {
            table: "a".to_string(),
            column: "n".to_string(),
        },
        Statement::Begin,
        Statement::Update {
            table: "a".to_string(),
            filter: Some(eq(col("n"), num(5))),
            assigns: vec![Assign {
                column: "n".to_string(),
                expr: num(6),
            }],
        },
        Statement::Commit,
        Statement::Del {
            table: "a".to_string(),
            filter: Some(eq(col("tag"), txt("x"))),
        },
        Statement::DropTable {
            name: "a".to_string(),
        },
    ];
    for (i, step) in steps.into_iter().enumerate() {
        run(&mut session, step);
        verify_indexes(&session).unwrap_or_else(|e| panic!("step {i}: {}", e.message()));
    }
    assert_eq!(
        rows(run(&mut session, get_where("b", eq(col("n"), num(7))))),
        vec![vec![Value::Int(1), Value::Int(7)]]
    );
}

#[test]
fn a_report_names_every_entry_in_order() {
    let mut session = session();
    run(
        &mut session,
        Statement::TableDef(table(
            "d",
            vec![
                key("id", TypeName::Int),
                indexed(column("tag", TypeName::Text)),
            ],
        )),
    );
    for (id, tag) in [(1, "y"), (2, "x"), (3, "z")] {
        run(
            &mut session,
            put("d", vec![("id", num(id)), ("tag", txt(tag))]),
        );
    }
    let d = load_table_from(&session.db.snapshot(), "d")
        .unwrap_or_else(|e| panic!("{}", e.message()));
    let index = d.columns[1].index_id.expect("an index");
    let entry = |tag: &str, id: i64| index_entry_key(index, &s(tag), &[Value::Int(id)]);

    let mut tx = session.db.begin();
    tx.delete(&entry("y", 1)).unwrap();
    tx.delete(&entry("x", 2)).unwrap();
    tx.put(&entry("z", 3), b"?").unwrap();
    tx.put(&entry("q", 9), b"").unwrap();
    tx.commit().unwrap();

    let report = match verify_indexes(&session) {
        Ok(()) => panic!("the damage must be found"),
        Err(e) => e.message(),
    };
    assert_eq!(
        report,
        format!(
            "index verification found 4 problems:\n\
             index d.tag: entry with a non-empty value\n\
             index d.tag: missing entry for {:02x?}\n\
             index d.tag: missing entry for {:02x?}\n\
             index d.tag: stray entry {:02x?} with no matching row",
            entry("x", 2),
            entry("y", 1),
            entry("q", 9)
        )
    );
}

// ---------------------------------------------------------------------
// text indexes
// ---------------------------------------------------------------------

const TEXT_ID: u64 = 77;

/// A table with two documents and one null, and its text index.
fn documents() -> (Memory, Table) {
    let mut session = session();
    run(
        &mut session,
        Statement::TableDef(table(
            "docs",
            vec![
                key("id", TypeName::Int),
                ColumnDef {
                    nullable: true,
                    ..column("body", TypeName::Text)
                },
            ],
        )),
    );
    run(
        &mut session,
        put("docs", vec![("id", num(1)), ("body", txt("One two one"))]),
    );
    run(
        &mut session,
        put("docs", vec![("id", num(2)), ("body", null())]),
    );
    run(
        &mut session,
        put("docs", vec![("id", num(3)), ("body", txt("two, three"))]),
    );
    let table = load_table_from(&session.db.snapshot(), "docs")
        .unwrap_or_else(|e| panic!("{}", e.message()));
    (session, table)
}

fn term(t: &str, id: i64) -> Vec<u8> {
    index_entry_key(TEXT_ID, &s(t), &[Value::Int(id)])
}

fn size(id: i64) -> Vec<u8> {
    index_entry_key(TEXT_ID, &Value::Int(0), &[Value::Int(id)])
}

fn counters(docs: u64, total: u64) -> Vec<u8> {
    let mut out = docs.to_le_bytes().to_vec();
    out.extend_from_slice(&total.to_le_bytes());
    out
}

/// What the index of [`documents`] holds.
fn postings_of_documents() -> Vec<(Vec<u8>, Vec<u8>)> {
    vec![
        (size(1), 3u32.to_le_bytes().to_vec()),
        (size(3), 2u32.to_le_bytes().to_vec()),
        (corpus_key(TEXT_ID), counters(2, 5)),
        (term("one", 1), encode_posting(3, &[0, 2])),
        (term("three", 3), encode_posting(2, &[1])),
        (term("two", 1), encode_posting(3, &[1])),
        (term("two", 3), encode_posting(2, &[0])),
    ]
}

fn write_all(session: &mut Memory, entries: &[(Vec<u8>, Vec<u8>)]) {
    let mut tx = session.db.begin();
    for (k, v) in entries {
        tx.put(k, v).unwrap();
    }
    tx.commit().unwrap();
}

fn complaint(session: &Memory, table: &Table) -> String {
    match verify_text_index(session, table, 1, TEXT_ID) {
        Ok(()) => panic!("the damage must be found"),
        Err(e) => e.message(),
    }
}

#[test]
fn a_text_index_that_lines_up_passes() {
    let (mut session, table) = documents();
    write_all(&mut session, &postings_of_documents());
    verify_text_index(&session, &table, 1, TEXT_ID).unwrap_or_else(|e| panic!("{}", e.message()));
}

#[test]
fn a_missing_posting_is_found() {
    let (mut session, table) = documents();
    for skip in 0..7 {
        let mut entries = postings_of_documents();
        entries.remove(skip);
        let (mut fresh, _) = documents();
        write_all(&mut fresh, &entries);
        let report = complaint(&fresh, &table);
        assert!(report.contains("missing"), "got: {report}");
    }
    // nothing at all is missing everything
    write_all(&mut session, &[]);
    assert!(complaint(&session, &table).contains("7 problems"));
}

#[test]
fn a_posting_whose_positions_drifted_is_found() {
    let (mut session, table) = documents();
    let mut entries = postings_of_documents();
    entries[3].1 = encode_posting(3, &[0, 1]);
    write_all(&mut session, &entries);
    assert_eq!(
        complaint(&session, &table),
        format!(
            "index verification found 1 problems:\n\
             text index docs.body: entry {:02x?} holds {:02x?}, expected {:02x?}",
            term("one", 1),
            encode_posting(3, &[0, 1]),
            encode_posting(3, &[0, 2])
        )
    );
}

#[test]
fn wrong_counters_are_found() {
    let (mut session, table) = documents();
    let mut entries = postings_of_documents();
    entries[2].1 = counters(3, 5);
    write_all(&mut session, &entries);
    assert!(complaint(&session, &table).contains(" holds "));
}

#[test]
fn a_stray_posting_is_found() {
    let (mut session, table) = documents();
    let mut entries = postings_of_documents();
    entries.push((term("four", 1), encode_posting(3, &[0])));
    write_all(&mut session, &entries);
    let report = complaint(&session, &table);
    assert!(report.contains("stray"), "got: {report}");
}

#[test]
fn an_index_without_documents_holds_no_counters() {
    let (mut session, table) = documents();
    run(
        &mut session,
        Statement::Del {
            table: "docs".to_string(),
            filter: Some(bin(col("id"), BinaryOp::NotEq, num(2))),
        },
    );
    verify_text_index(&session, &table, 1, TEXT_ID).unwrap_or_else(|e| panic!("{}", e.message()));
    write_all(&mut session, &[(corpus_key(TEXT_ID), counters(0, 0))]);
    assert!(complaint(&session, &table).contains("stray"));
}

// ---------------------------------------------------------------------
// joins against a brute force reference
// ---------------------------------------------------------------------

/// The engine's `=`: null is a plain value.
fn ref_eq(a: &Value, b: &Value) -> bool {
    match (a, b) {
        (Value::Null, Value::Null) => true,
        (Value::Null, _) | (_, Value::Null) => false,
        (Value::Int(x), Value::Int(y)) => x == y,
        (Value::Text(x), Value::Text(y)) => x == y,
        _ => unreachable!("the generator only compares like with like"),
    }
}

/// The reference: the obvious loop. `right_width` is passed rather than
/// read off `right`, so left padding is correct even when `right` is empty
/// (an empty table still has a known column count).
fn reference_join(
    left: &[Vec<Value>],
    right: &[Vec<Value>],
    right_width: usize,
    kind: JoinKind,
    on: impl Fn(&[Value], &[Value]) -> bool,
) -> Vec<Vec<Value>> {
    let mut out = Vec::new();
    for l in left {
        let mut matched = false;
        for r in right {
            if on(l, r) {
                let mut row = l.clone();
                row.extend(r.iter().cloned());
                out.push(row);
                matched = true;
            }
        }
        if matches!(kind, JoinKind::Left) && !matched {
            let mut row = l.clone();
            row.resize(row.len() + right_width, Value::Null);
            out.push(row);
        }
    }
    out
}

/// Render and sort, for multiset comparison with readable failures.
fn canon(mut rows: Vec<Vec<Value>>) -> Vec<String> {
    let mut lines: Vec<String> = rows
        .drain(..)
        .map(|r| show(&Output::Rows(vec![r])))
        .collect();
    lines.sort();
    lines
}

fn join(kind: JoinKind, table: &str, on: Expr) -> Join {
    Join {
        kind,
        table: table.to_string(),
        on,
    }
}

fn on_right(right: &str, residual: bool) -> Expr {
    let base = eq(of("l", "a"), of(right, "j"));
    if residual {
        bin(base, BinaryOp::And, eq(of("l", "t"), of(right, "tag")))
    } else {
        base
    }
}

#[test]
fn joins_match_the_brute_force_reference() {
    let seed = 0x5EED_0000_0000_0001u64;
    let mut rng = Rng(seed);

    for iter in 0..150u64 {
        let mut session = session();

        // left table: plain, sequential key; three right shapes carrying
        // identical logical rows: r_key joins on its primary key, r_idx on
        // an indexed column, r_seq on a bare column
        for def in [
            table(
                "l",
                vec![
                    key("id", TypeName::Int),
                    nullable("a", TypeName::Int),
                    nullable("t", TypeName::Text),
                ],
            ),
            table(
                "r_key",
                vec![key("j", TypeName::Int), nullable("tag", TypeName::Text)],
            ),
            table(
                "r_idx",
                vec![
                    key("id", TypeName::Int),
                    indexed(nullable("j", TypeName::Int)),
                    nullable("tag", TypeName::Text),
                ],
            ),
            table(
                "r_seq",
                vec![
                    key("id", TypeName::Int),
                    nullable("j", TypeName::Int),
                    nullable("tag", TypeName::Text),
                ],
            ),
        ] {
            run(&mut session, Statement::TableDef(def));
        }

        let n_left = 1 + rng.below(8);
        let mut left_rows = Vec::new();
        for id in 0..n_left as i64 {
            let a = rng.small(true);
            let t = rng.tag();
            run(
                &mut session,
                put(
                    "l",
                    vec![
                        ("id", num(id)),
                        ("a", lit(a.clone())),
                        ("t", lit(t.clone())),
                    ],
                ),
            );
            left_rows.push(vec![Value::Int(id), a, t]);
        }

        // r_key's key cannot be null and must be unique, so its rows are a
        // dedup of the non-null j values; the other shapes carry all rows
        let n_right = rng.below(8);
        let mut right_rows = Vec::new();
        for id in 0..n_right as i64 {
            let j = rng.small(true);
            let tag = rng.tag();
            for name in ["r_idx", "r_seq"] {
                run(
                    &mut session,
                    put(
                        name,
                        vec![
                            ("id", num(id)),
                            ("j", lit(j.clone())),
                            ("tag", lit(tag.clone())),
                        ],
                    ),
                );
            }
            right_rows.push(vec![Value::Int(id), j.clone(), tag.clone()]);
        }
        let mut key_rows: Vec<Vec<Value>> = Vec::new();
        for row in &right_rows {
            if let Value::Int(j) = &row[1] {
                if key_rows.iter().all(|r: &Vec<Value>| r[0] != row[1]) {
                    run(
                        &mut session,
                        put("r_key", vec![("j", num(*j)), ("tag", lit(row[2].clone()))]),
                    );
                    key_rows.push(vec![row[1].clone(), row[2].clone()]);
                }
            }
        }

        let kind = if rng.below(2) == 0 {
            JoinKind::Inner
        } else {
            JoinKind::Left
        };
        // sometimes a residual conjunct that the probe cannot consume
        let residual = rng.below(2) == 0;

        for (right_name, right_data, right_width, want_strategy) in [
            ("r_key", &key_rows, 2usize, "KeyProbe r_key"),
            ("r_idx", &right_rows, 3usize, "IndexProbe r_idx"),
            ("r_seq", &right_rows, 3usize, "SeqScan r_seq"),
        ] {
            let q = || {
                Statement::Get(Get {
                    joins: vec![join(kind, right_name, on_right(right_name, residual))],
                    ..get("l")
                })
            };

            // the plan must actually use the strategy under test
            let plan = run(&mut session, explain(q()));
            let plan = show(&plan);
            assert!(
                plan.contains(want_strategy),
                "iter {iter} seed {seed}: wrong strategy\nplan:\n{plan}"
            );

            // in every right shape the join column is second to last and
            // tag is last: r_key is (j, tag), r_idx and r_seq are (id, j, tag)
            let j_at = right_width - 2;
            let tag_at = right_width - 1;
            let got = canon(rows(run(&mut session, q())));
            let expected = canon(reference_join(
                &left_rows,
                right_data,
                right_width,
                kind,
                |l, r| {
                    let base = ref_eq(&l[1], &r[j_at]);
                    if residual {
                        base && ref_eq(&l[2], &r[tag_at])
                    } else {
                        base
                    }
                },
            ));
            assert_eq!(
                got, expected,
                "iter {iter} seed {seed}: results differ from the reference on {right_name}"
            );
        }

        // a chained three-table join every few iterations, nested loop on
        // the second hop, against a triple loop reference
        if iter % 4 == 0 {
            let q = Statement::Get(Get {
                joins: vec![
                    join(kind, "r_idx", eq(of("l", "a"), of("r_idx", "j"))),
                    join(kind, "r_seq", eq(of("r_idx", "tag"), of("r_seq", "tag"))),
                ],
                ..get("l")
            });
            // r_idx and r_seq are both width 3
            let first = reference_join(&left_rows, &right_rows, 3, kind, |l, r| {
                ref_eq(&l[1], &r[1])
            });
            let expected = canon(reference_join(&first, &right_rows, 3, kind, |l, r| {
                ref_eq(&l[5], &r[2])
            }));
            let got = canon(rows(run(&mut session, q)));
            assert_eq!(
                got, expected,
                "iter {iter} seed {seed}: three-table join differs"
            );
        }
    }
}

#[test]
fn errors_of_expressions_say_why() {
    let said = |e: Expr| match eval(&e, &NoScope, &floats()) {
        Ok(v) => panic!("got {v:?}"),
        Err(e) => e.message(),
    };
    let bin = |l: Expr, op: BinaryOp, r: Expr| Expr::Binary(Box::new(l), op, Box::new(r));
    assert_eq!(said(bin(num(1), BinaryOp::Div, num(0))), "division by zero");
    assert_eq!(said(bin(num(1), BinaryOp::Mod, num(0))), "division by zero");
    assert_eq!(said(bin(num(i64::MAX), BinaryOp::Add, num(1))), "integer overflow");
    assert_eq!(said(bin(num(i64::MIN), BinaryOp::Div, num(-1))), "integer overflow");
    assert_eq!(
        said(bin(num(1), BinaryOp::Sub, lit(s("x")))),
        "cannot apply - to a int and a text"
    );
    assert_eq!(
        said(bin(num(1), BinaryOp::Lt, lit(s("x")))),
        "cannot compare a int to a text"
    );
    assert_eq!(
        said(bin(num(1), BinaryOp::And, lit(Value::Bool(true)))),
        "the condition is a int, not a bool"
    );
}
