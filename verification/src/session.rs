//! Sessions: statements against a database, in autocommit or inside an
//! explicit transaction.
//!
//! One statement is one transaction: it commits fully or leaves no trace.
//! Read-only statements never commit, so they never burn commit ids.

use vstd::prelude::*;

use crate::ast::{AsOf, BinaryOp, Get, Statement};
use crate::commit::{at_time, Rec};
use crate::cost::{cost_of, has_room, lemma_reach_more, plus, reach, Cost};
use crate::db::{
    forwarded, gc_done, infos, lists_branches, name_too_long, pruned_of, reaches, retained, retains_id, roomy_gc,
    roomy_refs, starts_at, swept_free, tx_done, unheld, Db, Snapshot, WriteTx,
};
use crate::effects::State;
use crate::exec_error::{ExecError, Fail};
use crate::joining::{got, run_get};
use crate::pager::ReadPages;
use crate::query::{reads, Rows};
use crate::refs::{name_ok, BranchRef};
use crate::sorting::Row;
use crate::source::Source;
use crate::statement::{did, state_after, Answer, Output, Ran};
use crate::storage::Storage;
use crate::store::{
    branch_of, branch_ok, catalog_of, data_of, lemma_same_store, past_kept, records, same_past,
    same_record, same_store, Bytes,
};
use crate::strings::{decimal, join2, join3, owned, same_text, texts, u64_text};
use crate::tree::max_key;
use crate::txn::{ends, failure, within, Run};
use crate::value_ops::{Floats, Math, Shown};

verus! {

/// A database with a place to keep the statements of an open transaction.
pub struct Session<S: Storage, M, T> {
    pub db: Db<S>,
    /// Buffered mutations of an explicit transaction, in order. `None` in
    /// autocommit mode.
    pub txn: Option<Vec<Statement>>,
    /// Float arithmetic and float printing.
    pub floats: Floats<M, T>,
}

/// What a transaction begun now would start from.
pub open spec fn start<S: Storage>(db: Db<S>) -> State {
    State { data: db.data(), schema: db.catalog(), touched: false }
}

/// The longest key the database accepts.
pub open spec fn key_limit<S: Storage>(db: Db<S>) -> int {
    max_key(db.store().size())
}

/// The first `n` statements of a list, one after the other.
pub open spec fn replayed(
    st: State,
    list: Seq<Statement>,
    n: int,
    lim: int,
    g: Math,
    f: Shown,
) -> core::result::Result<State, Fail>
    decreases n,
{
    if n <= 0 {
        Ok(st)
    } else {
        match replayed(st, list, n - 1, lim, g, f) {
            Err(e) => Err(e),
            Ok(s) => state_after(did(s, list[n - 1], lim, g, f)),
        }
    }
}

/// A statement on top of a list of others.
pub open spec fn on_top(
    st: State,
    list: Seq<Statement>,
    s: Statement,
    lim: int,
    g: Math,
    f: Shown,
) -> Ran {
    match replayed(st, list, list.len() as int, lim, g, f) {
        Err(e) => Err(e),
        Ok(mid) => did(mid, s, lim, g, f),
    }
}

/// What the first `n` statements of a list write at most.
pub open spec fn replay_cost(
    st: State,
    list: Seq<Statement>,
    n: int,
    lim: int,
    g: Math,
    f: Shown,
) -> Cost
    decreases n,
{
    if n <= 0 {
        (0, 0)
    } else {
        plus(
            replay_cost(st, list, n - 1, lim, g, f),
            match replayed(st, list, n - 1, lim, g, f) {
                Err(_) => (0, 0),
                Ok(s) => cost_of(s, list[n - 1], lim, g),
            },
        )
    }
}

/// What a statement on top of a list of others writes at most, with them.
pub open spec fn on_top_cost(
    st: State,
    list: Seq<Statement>,
    s: Statement,
    lim: int,
    g: Math,
    f: Shown,
) -> Cost {
    plus(
        replay_cost(st, list, list.len() as int, lim, g, f),
        match replayed(st, list, list.len() as int, lim, g, f) {
            Err(_) => (0, 0),
            Ok(mid) => cost_of(mid, s, lim, g),
        },
    )
}

proof fn lemma_replay_cost(
    st: State,
    list: Seq<Statement>,
    m: int,
    n: int,
    lim: int,
    g: Math,
    f: Shown,
)
    requires
        0 <= m <= n,
    ensures
        replay_cost(st, list, m, lim, g, f).0 <= replay_cost(st, list, n, lim, g, f).0,
        replay_cost(st, list, m, lim, g, f).1 <= replay_cost(st, list, n, lim, g, f).1,
    decreases n - m,
{
    if m < n {
        lemma_replay_cost(st, list, m, n - 1, lim, g, f);
    }
}

/// A transaction that ran out of pages, or has no room to commit, wrote more
/// than the file has room for.
proof fn lemma_crowded_out<'db, S: Storage>(db: Db<S>, run: Run<'db, S>, c: Cost)
    requires
        run.ready(),
        run.tx.base() == db.store(),
        run.tx.batch.meta() == db.store().meta(),
        run.tx.batch.size() == db.store().size(),
        run.cost().0 <= c.0,
        run.cost().1 <= c.1,
        run.spent() || !run.tx.roomy(),
    ensures
        !has_room(db.store(), c),
{
    run.lemma_run();
    let n = db.store().meta().page_count as int;
    lemma_reach_more(n, run.cost(), c);
    let x = 4 * run.tx.batch.next() + 100;
    let y = 4 * reach(n, c) + 100;
    let s = db.store().size() as int;
    assert(x * s <= y * s) by (nonlinear_arith)
        requires
            x <= y,
            s >= 0,
    ;
}

/// One more commit on the current branch, holding `st`; all else as it was.
pub open spec fn advanced<S: Storage>(a: Db<S>, b: Db<S>, st: State) -> bool {
    &&& b.sound()
    &&& b.on() == a.on()
    &&& b.data() == st.data
    &&& b.catalog() == st.schema
    &&& b.head().head_id == a.store().meta().txid + 1
    &&& b.head().floor_id == a.head().floor_id
    &&& records(b.store(), b.head()).len() > 0
    &&& records(b.store(), b.head()).skip(1) == records(a.store(), a.head())
    &&& records(b.store(), b.head())[0].1.parent_id == a.head().head_id
    &&& forall|n: Seq<char>| n != a.on() ==> #[trigger] b.branch(n) == a.branch(n)
    &&& past_kept(a.store(), b.store())
}

/// Nothing happened.
pub open spec fn untouched<S: Storage>(a: Db<S>, b: Db<S>) -> bool {
    a.store() == b.store() && a.on() == b.on()
}

/// Nothing was committed: the same meta, the same branches, and readers
/// see what they saw.
pub open spec fn unmoved<S: Storage>(a: Db<S>, b: Db<S>) -> bool {
    &&& b.sound()
    &&& b.store().meta() == a.store().meta()
    &&& b.on() == a.on()
    &&& b.head() == a.head()
    &&& start(b) == start(a)
    &&& forall|n: Seq<char>| #[trigger] b.branch(n) == a.branch(n)
    &&& past_kept(a.store(), b.store())
}

proof fn lemma_unmoved<S: Storage>(a: Db<S>, b: Db<S>)
    requires
        a.sound(),
        b.on() == a.on(),
        b.store() == a.store() || same_store(a.store(), b.store()),
    ensures
        unmoved(a, b),
{
    if b.store() == a.store() {
        lemma_same_store(a.store(), a.store());
    }
    let r = a.head();
    assert(branch_of(a.store(), a.on()) == Some(r));
    assert(branch_of(b.store(), a.on()) == Some(r));
    assert(branch_ok(a.store(), r));
    assert(same_past(a.store(), b.store(), r));
    if r.head_id != 0 {
        assert(same_record(a.store(), b.store(), records(a.store(), r)[0]));
    }
}

/// A change committed, if it was one.
pub open spec fn settled<S: Storage>(a: Db<S>, b: Db<S>, st: State) -> bool {
    if st.touched {
        advanced(a, b, st)
    } else {
        untouched(a, b)
    }
}

proof fn lemma_replayed_fails(
    st: State,
    list: Seq<Statement>,
    lim: int,
    g: Math,
    f: Shown,
    m: int,
    n: int,
)
    requires
        0 <= m <= n,
    ensures
        replayed(st, list, m, lim, g, f) matches Err(e) ==> replayed(st, list, n, lim, g, f)
            == Err::<State, Fail>(e),
    decreases n - m,
{
    if m < n {
        lemma_replayed_fails(st, list, lim, g, f, m, n - 1);
    }
}

/// Run a list of statements in a transaction.
fn replay<'db, S: Storage, M: Fn(BinaryOp, u64, u64) -> u64, T: Fn(u64) -> String>(
    run: &mut Run<'db, S>,
    list: &Vec<Statement>,
    floats: &Floats<M, T>,
) -> (r: core::result::Result<(), ExecError>)
    requires
        old(run).ready(),
        floats.ok(),
    ensures
        final(run).after(old(run)),
        *final(final(run).tx.batch.pager) == *final(old(run).tx.batch.pager),
        list@.len() == 0 ==> r is Ok && *final(run) == *old(run),
        old(run).whole() ==> within(
            *old(run),
            *final(run),
            replay_cost(
                old(run).state(),
                list@,
                list@.len() as int,
                old(run).lim(),
                floats.math(),
                floats.shown(),
            ),
        ),
        ends(
            *old(run),
            *final(run),
            failure(r),
            replayed(
                old(run).state(),
                list@,
                list@.len() as int,
                old(run).lim(),
                floats.math(),
                floats.shown(),
            ),
        ),
{
    let ghost begin = *run;
    let ghost good = run.whole();
    let ghost g = floats.math();
    let ghost f = floats.shown();
    let len: usize = list.len();
    for i in 0..len
        invariant
            len == list@.len(),
            g == floats.math(),
            f == floats.shown(),
            floats.ok(),
            begin == *old(run),
            good == begin.whole(),
            run.after(&begin),
            i == 0 ==> *run == begin,
            *final(run.tx.batch.pager) == *final(begin.tx.batch.pager),
            good ==> run.whole() && replayed(begin.state(), list@, i as int, begin.lim(), g, f)
                == Ok::<State, Fail>(run.state()),
            good ==> within(
                begin,
                *run,
                replay_cost(begin.state(), list@, i as int, begin.lim(), g, f),
            ),
    {
        proof {
            lemma_replay_cost(begin.state(), list@, i as int + 1, len as int, begin.lim(), g, f);
            lemma_replayed_fails(
                begin.state(),
                list@,
                begin.lim(),
                g,
                f,
                i as int + 1,
                len as int,
            );
        }
        match run.statement(&list[i], floats) {
            Ok(_) => {},
            Err(e) => return Err(e),
        }
    }
    Ok(())
}

/// Run a list of statements and one more on top, and discard everything.
fn dry_run<S: Storage, M: Fn(BinaryOp, u64, u64) -> u64, T: Fn(u64) -> String>(
    db: &mut Db<S>,
    list: &Vec<Statement>,
    stmt: &Statement,
    floats: &Floats<M, T>,
) -> (r: core::result::Result<Output, ExecError>)
    requires
        old(db).wf(),
        floats.ok(),
    ensures
        final(db).wf(),
        untouched(*old(db), *final(db)),
        old(db).sound() && old(db).reliable() ==> {
            let want = on_top(
                start(*old(db)),
                list@,
                *stmt,
                key_limit(*old(db)),
                floats.math(),
                floats.shown(),
            );
            match r {
                Ok(out) => want matches Ok((_, a)) && a == out@,
                Err(e) => (e.fail() is Storage && !(is_read(*stmt) && list@.len() == 0) && !has_room(
                    old(db).store(),
                    on_top_cost(
                        start(*old(db)),
                        list@,
                        *stmt,
                        key_limit(*old(db)),
                        floats.math(),
                        floats.shown(),
                    ),
                )) || want == Err::<(State, Answer), Fail>(e.fail()),
            }
        },
{
    let tx = db.begin();
    let mut run = Run::new(tx);
    let ghost begin = run;
    proof {
        begin.lemma_run();
    }
    let ghost before = *old(db);
    let r = match replay(&mut run, list, floats) {
        Ok(_) => run.statement(stmt, floats),
        Err(e) => Err(e),
    };
    proof {
        run.lemma_run();
        if before.sound() && before.reliable() && run.spent() {
            lemma_crowded_out(
                before,
                run,
                on_top_cost(
                    begin.state(),
                    list@,
                    *stmt,
                    begin.lim(),
                    floats.math(),
                    floats.shown(),
                ),
            );
        }
    }
    r
}

/// A committed transaction advances its branch.
proof fn lemma_advanced<'db, S: Storage>(a: Db<S>, tx: WriteTx<'db, S>, b: Db<S>, now: u64)
    requires
        a.sound(),
        tx.base() == a.store(),
        tx.branch() == a.on(),
        a.branch(tx.branch()) == Some(tx.parent()),
        tx.batch.meta() == a.store().meta(),
        tx.batch.meta().txid < u64::MAX,
        b.on() == a.on(),
        tx_done(tx, b.store(), now),
    ensures
        advanced(a, b, State { data: tx.data(), schema: tx.catalog(), touched: true }),
{
    crate::db::law_commit_is_read_back(tx, b.store(), now);
}

/// Run a list of statements in one transaction and commit it. A list that
/// changes nothing commits nothing and burns no commit id.
fn commit_buffered<S: Storage, M: Fn(BinaryOp, u64, u64) -> u64, T: Fn(u64) -> String>(
    db: &mut Db<S>,
    list: &Vec<Statement>,
    floats: &Floats<M, T>,
) -> (r: core::result::Result<(), ExecError>)
    requires
        old(db).wf(),
        floats.ok(),
    ensures
        final(db).wf(),
        final(db).on() == old(db).on(),
        old(db).sound() && old(db).reliable() && r is Err ==> unmoved(*old(db), *final(db)),
        old(db).sound() && old(db).reliable() ==> {
            let want = replayed(
                start(*old(db)),
                list@,
                list@.len() as int,
                key_limit(*old(db)),
                floats.math(),
                floats.shown(),
            );
            match r {
                Ok(_) => want matches Ok(st) && settled(*old(db), *final(db), st),
                Err(e) => (e.fail() is Storage && list@.len() > 0 && !has_room(
                    old(db).store(),
                    replay_cost(
                        start(*old(db)),
                        list@,
                        list@.len() as int,
                        key_limit(*old(db)),
                        floats.math(),
                        floats.shown(),
                    ),
                )) || (want == Err::<State, Fail>(e.fail()) && untouched(*old(db), *final(db))),
            }
        },
{
    let ghost before = *db;
    let tx = db.begin();
    let mut run = Run::new(tx);
    let ghost begin = run;
    proof {
        begin.lemma_run();
    }
    let ghost c = replay_cost(
        begin.state(),
        list@,
        list@.len() as int,
        begin.lim(),
        floats.math(),
        floats.shown(),
    );
    let r = replay(&mut run, list, floats);
    proof {
        run.lemma_run();
        if before.sound() && before.reliable() && run.spent() {
            lemma_crowded_out(before, run, c);
        }
    }
    match r {
        Ok(_) => {},
        Err(e) => {
            proof {
                if before.sound() && before.reliable() {
                    lemma_unmoved(before, *db);
                }
            }
            return Err(e);
        },
    }
    if run.mutated {
        let ghost done = run;
        match run.tx.commit() {
            Ok(_) => {
                proof {
                    if before.sound() && before.reliable() {
                        lemma_advanced(before, done.tx, *db, db.store().meta().unix_ts_ms);
                        assert(done.state() == (State {
                            data: done.tx.data(),
                            schema: done.tx.catalog(),
                            touched: true,
                        }));
                    }
                }
                Ok(())
            },
            Err(e) => {
                proof {
                    if before.sound() && before.reliable() {
                        lemma_unmoved(before, *db);
                        lemma_crowded_out(before, done, c);
                    }
                }
                Err(ExecError::Storage(e))
            },
        }
    } else {
        Ok(())
    }
}

/// Run one statement in a transaction of its own, and commit it if it
/// changed anything.
#[verifier::spinoff_prover]
#[verifier::rlimit(60)]
fn run_one<S: Storage, M: Fn(BinaryOp, u64, u64) -> u64, T: Fn(u64) -> String>(
    db: &mut Db<S>,
    stmt: &Statement,
    floats: &Floats<M, T>,
) -> (r: core::result::Result<Output, ExecError>)
    requires
        old(db).wf(),
        floats.ok(),
    ensures
        final(db).wf(),
        final(db).on() == old(db).on(),
        old(db).sound() && old(db).reliable() && r is Err ==> unmoved(*old(db), *final(db)),
        old(db).sound() && old(db).reliable() ==> {
            let want = did(
                start(*old(db)),
                *stmt,
                key_limit(*old(db)),
                floats.math(),
                floats.shown(),
            );
            match r {
                Ok(out) => want matches Ok((st, a)) && a == out@ && settled(
                    *old(db),
                    *final(db),
                    st,
                ),
                Err(e) => (e.fail() is Storage && !is_read(*stmt) && !has_room(
                    old(db).store(),
                    cost_of(start(*old(db)), *stmt, key_limit(*old(db)), floats.math()),
                )) || (want == Err::<(State, Answer), Fail>(e.fail()) && untouched(
                    *old(db),
                    *final(db),
                )),
            }
        },
{
    let ghost before = *db;
    let tx = db.begin();
    let mut run = Run::new(tx);
    let ghost begin = run;
    proof {
        begin.lemma_run();
    }
    let ghost c = cost_of(begin.state(), *stmt, begin.lim(), floats.math());
    let r = run.statement(stmt, floats);
    proof {
        run.lemma_run();
        if before.sound() && before.reliable() && run.spent() {
            lemma_crowded_out(before, run, c);
        }
    }
    let out = match r {
        Ok(out) => out,
        Err(e) => {
            proof {
                if before.sound() && before.reliable() {
                    lemma_unmoved(before, *db);
                }
            }
            return Err(e);
        },
    };
    if run.mutated {
        let ghost done = run;
        match run.tx.commit() {
            Ok(_) => {
                proof {
                    if before.sound() && before.reliable() {
                        lemma_advanced(before, done.tx, *db, db.store().meta().unix_ts_ms);
                        assert(done.state() == (State {
                            data: done.tx.data(),
                            schema: done.tx.catalog(),
                            touched: true,
                        }));
                    }
                }
                Ok(out)
            },
            Err(e) => {
                proof {
                    if before.sound() && before.reliable() {
                        lemma_unmoved(before, *db);
                        lemma_crowded_out(before, done, c);
                    }
                    if before.sound() && before.reliable() && is_read(*stmt) {
                        law_reads_change_nothing(
                            begin.state(),
                            *stmt,
                            begin.lim(),
                            floats.math(),
                            floats.shown(),
                        );
                    }
                }
                Err(ExecError::Storage(e))
            },
        }
    } else {
        Ok(out)
    }
}

// ---------------------------------------------------------------------
// history
// ---------------------------------------------------------------------

/// What the database held at a point in its history.
#[verifier::opaque]
pub open spec fn seen_at<S: Storage>(db: Db<S>, at: AsOf, data: Bytes, schema: Bytes) -> bool {
    match at {
        AsOf::Commit(id) => if id == 0 {
            data == Map::<Seq<u8>, Seq<u8>>::empty() && schema == Map::<Seq<u8>, Seq<u8>>::empty()
        } else {
            exists|c: Rec| #[trigger]
                retained(db.store(), c) && c.1.commit_id == id && data == data_of(db.store(), c.1)
                    && schema == catalog_of(db.store(), c.1)
        },
        AsOf::Time(t) => match at_time(records(db.store(), db.head()), t) {
            Some(info) => data == data_of(db.store(), info) && schema == catalog_of(
                db.store(),
                info,
            ),
            None => data == Map::<Seq<u8>, Seq<u8>>::empty() && schema == Map::<
                Seq<u8>,
                Seq<u8>,
            >::empty(),
        },
    }
}

/// Whether nothing is known of a point in history any more.
#[verifier::opaque]
pub open spec fn unseen<S: Storage>(db: Db<S>, at: AsOf) -> bool {
    match at {
        AsOf::Commit(id) => id != 0 && !retains_id(db.store(), id),
        AsOf::Time(t) => db.head().head_id != 0 && db.head().floor_id != 0 && at_time(
            records(db.store(), db.head()),
            t,
        ) is None,
    }
}

/// What a read of the past answers.
pub open spec fn recalled<S: Storage>(
    db: Db<S>,
    get: Get,
    r: core::result::Result<Output, ExecError>,
    g: Math,
) -> bool {
    match r {
        Ok(out) => !unseen(db, get.as_of->0) && exists|data: Bytes, schema: Bytes| #[trigger]
            seen_at(db, get.as_of->0, data, schema) && (got(data, schema, get, g) matches Ok(rows)
                && out@ == Answer::Rows(rows)),
        Err(e) => if unseen(db, get.as_of->0) {
            e.fail() is Storage
        } else {
            exists|data: Bytes, schema: Bytes| #[trigger]
                seen_at(db, get.as_of->0, data, schema) && got(data, schema, get, g) == Err::<
                    Seq<Row>,
                    Fail,
                >(e.fail())
        },
    }
}

/// The snapshot of a point in history.
fn open_past<'db, S: Storage>(db: &'db Db<S>, at: AsOf) -> (r: core::result::Result<
    Snapshot<'db, S>,
    ExecError,
>)
    requires
        db.wf(),
    ensures
        r matches Ok(s) ==> s.wf(),
        db.sound() && db.reliable() ==> match r {
            Ok(s) => s.sound() && s.reliable() && seen_at(*db, at, s.data(), s.catalog()) && !unseen(
                *db,
                at,
            ),
            Err(e) => e.fail() is Storage && unseen(*db, at),
        },
{
    proof {
        reveal(seen_at);
        reveal(unseen);
    }
    let found = match at {
        AsOf::Commit(id) => db.snapshot_at(id),
        AsOf::Time(t) => db.snapshot_at_time(t),
    };
    match found {
        Ok(s) => Ok(s),
        Err(e) => Err(ExecError::Storage(e)),
    }
}

/// A historical read: resolve the snapshot and run against it. Ignores the
/// writes of an open transaction, because `as of` asks for committed history
/// by definition.
fn read_as_of<S: Storage, M: Fn(BinaryOp, u64, u64) -> u64, T: Fn(u64) -> String>(
    db: &Db<S>,
    get: &Get,
    at: AsOf,
    floats: &Floats<M, T>,
) -> (r: core::result::Result<Output, ExecError>)
    requires
        db.wf(),
        floats.ok(),
        get.as_of == Some(at),
    ensures
        db.sound() && db.reliable() ==> recalled(*db, *get, r, floats.math()),
{
    let snap = match open_past(db, at) {
        Ok(s) => s,
        Err(e) => return Err(e),
    };
    let ghost good = db.sound() && db.reliable();
    let found = run_get(&snap, get, floats);
    proof {
        if good {
            assert(seen_at(*db, get.as_of->0, snap.data(), snap.catalog()));
            assert(reads(snap, found, got(snap.data(), snap.catalog(), *get, floats.math())));
        }
    }
    match found {
        Ok(rows) => Ok(Output::Rows(rows)),
        Err(e) => Err(e),
    }
}

/// How a branch is listed.
pub open spec fn branch_shown(name: Seq<char>, r: BranchRef, on: Seq<char>) -> Seq<char> {
    (if name == on {
        "* "@
    } else {
        "  "@
    }) + name + (" @"@ + decimal(r.head_id as nat))
}

/// How a commit is listed.
pub open spec fn commit_shown(c: crate::commit::CommitInfo) -> Seq<char> {
    "commit "@ + decimal(c.commit_id as nat) + (" parent "@ + decimal(c.parent_id as nat))
}

/// How a collection is reported.
pub open spec fn gc_shown(pruned: u64, freed: u64) -> Seq<char> {
    "gc pruned "@ + decimal(pruned as nat) + " commits, freed "@ + decimal(freed as nat)
        + " pages"@
}

/// Statements about branches and history.
pub open spec fn is_history(s: Statement) -> bool {
    s is Branch || s is Switch || s is Merge || s is DropBranch || s is ShowBranches || s is Log
        || s is Gc
}

/// What a statement about branches and history does, and answers.
pub open spec fn chronicled<S: Storage>(
    a: Db<S>,
    b: Db<S>,
    s: Statement,
    out: Answer,
) -> bool {
    match s {
        Statement::Branch { name, at } => {
            &&& out == Answer::Done
            &&& b.sound()
            &&& b.on() == a.on()
            &&& name_ok(name@)
            &&& a.branch(name@) is None
            &&& b.branch(name@) matches Some(t) && starts_at(a, at, t)
            &&& forall|n: Seq<char>| n != name@ ==> #[trigger] b.branch(n) == a.branch(n)
            &&& past_kept(a.store(), b.store())
        },
        Statement::Switch { name } => {
            &&& out == Answer::Lines(seq!["switched to "@ + name@])
            &&& b.sound()
            &&& b.on() == name@
            &&& a.branch(name@) is Some
            &&& forall|n: Seq<char>| #[trigger] b.branch(n) == a.branch(n)
            &&& past_kept(a.store(), b.store())
        },
        Statement::Merge { name } => {
            &&& b.sound()
            &&& b.on() == a.on()
            &&& name@ != a.on()
            &&& a.branch(name@) matches Some(theirs) ==> if theirs.head_id == a.head().head_id {
                untouched(a, b)
            } else {
                b.head() == forwarded(a.head(), theirs)
            }
            &&& a.branch(name@) matches Some(theirs) && b.head().head_id == theirs.head_id && out
                == Answer::Lines(
                seq![
                    "merged "@ + name@ + (", head is now commit "@ + decimal(
                        theirs.head_id as nat,
                    )),
                ],
            ) && (theirs.head_id != a.head().head_id ==> reaches(
                a.store(),
                theirs,
                a.head().head_id,
            ))
            &&& forall|n: Seq<char>| n != a.on() ==> #[trigger] b.branch(n) == a.branch(n)
            &&& past_kept(a.store(), b.store())
        },
        Statement::DropBranch { name } => {
            &&& out == Answer::Done
            &&& b.sound()
            &&& b.on() == a.on()
            &&& name@ != a.on()
            &&& a.branch(name@) is Some
            &&& b.branch(name@) is None
            &&& forall|n: Seq<char>| n != name@ ==> #[trigger] b.branch(n) == a.branch(n)
            &&& past_kept(a.store(), b.store())
        },
        Statement::ShowBranches => {
            &&& untouched(a, b)
            &&& exists|v: Seq<(String, BranchRef)>| #[trigger]
                lists_branches(a.store(), v) && out == Answer::Lines(
                    Seq::new(v.len(), |i: int| branch_shown(v[i].0@, v[i].1, a.on())),
                )
        },
        Statement::Log => {
            let h = infos(records(a.store(), a.head()));
            &&& untouched(a, b)
            &&& out == Answer::Lines(Seq::new(h.len(), |i: int| commit_shown(h[i])))
        },
        Statement::Gc { keep } => {
            &&& keep > 0
            &&& b.sound()
            &&& b.on() == a.on()
            &&& exists|v: Seq<(String, BranchRef)>, n: int, pruned: u64, freed: u64, pages: u64|
                {
                    &&& #[trigger] swept(a, b, keep, v, n, pruned, freed, pages)
                    &&& out == Answer::Lines(seq![gc_shown(pruned, freed)])
                }
        },
        _ => false,
    }
}

/// A collection that kept `keep` commits per branch, as far as a count can
/// go, and what it found.
pub open spec fn swept<S: Storage>(
    a: Db<S>,
    b: Db<S>,
    keep: u64,
    v: Seq<(String, BranchRef)>,
    n: int,
    pruned: u64,
    freed: u64,
    pages: u64,
) -> bool {
    &&& n == (if keep <= usize::MAX {
        keep as int
    } else {
        usize::MAX as int
    })
    &&& gc_done(a.store(), b.store(), n)
    &&& lists_branches(a.store(), v)
    &&& pages == a.store().meta().page_count
    &&& pruned == pruned_of(a.store(), v, n).len()
    &&& freed == unheld(a.store(), v, n, pages as int)
    &&& swept_free(a.store(), b.store(), v, n)
}

fn one_line(s: String) -> (r: Output)
    ensures
        r@ == Answer::Lines(seq![s@]),
{
    let mut lines: Vec<String> = Vec::new();
    lines.push(s);
    proof {
        assert(texts(lines@) =~= seq![s@]);
    }
    Output::Lines(lines)
}

fn show_branches<S: Storage>(db: &Db<S>) -> (r: core::result::Result<Output, ExecError>)
    requires
        db.wf(),
    ensures
        r matches Err(e) ==> e.fail() is Storage,
        db.sound() && db.reliable() ==> r is Ok && exists|v: Seq<(String, BranchRef)>| #[trigger]
            lists_branches(db.store(), v) && (r->Ok_0)@ == Answer::Lines(
                Seq::new(v.len(), |i: int| branch_shown(v[i].0@, v[i].1, db.on())),
            ),
{
    let current = db.current_branch();
    let list = match db.branches() {
        Ok(v) => v,
        Err(e) => return Err(ExecError::Storage(e)),
    };
    let mut lines: Vec<String> = Vec::new();
    let len: usize = list.len();
    for i in 0..len
        invariant
            len == list@.len(),
            current@ == db.on(),
            lines@.len() == i,
            forall|k: int|
                0 <= k < i ==> (#[trigger] lines@[k])@ == branch_shown(
                    list@[k].0@,
                    list@[k].1,
                    db.on(),
                ),
    {
        let name = list[i].0.as_str();
        let marker = if same_text(name, current.as_str()) {
            "* "
        } else {
            "  "
        };
        lines.push(
            join3(marker, name, join2(" @", u64_text(list[i].1.head_id).as_str()).as_str()),
        );
    }
    proof {
        assert(texts(lines@) =~= Seq::new(
            list@.len(),
            |i: int| branch_shown(list@[i].0@, list@[i].1, db.on()),
        ));
    }
    Ok(Output::Lines(lines))
}

fn show_log<S: Storage>(db: &Db<S>) -> (r: core::result::Result<Output, ExecError>)
    requires
        db.wf(),
    ensures
        r matches Err(e) ==> e.fail() is Storage,
        db.sound() && db.reliable() ==> r is Ok && ({
            let h = infos(records(db.store(), db.head()));
            (r->Ok_0)@ == Answer::Lines(Seq::new(h.len(), |i: int| commit_shown(h[i])))
        }),
{
    let list = match db.log() {
        Ok(v) => v,
        Err(e) => return Err(ExecError::Storage(e)),
    };
    let mut lines: Vec<String> = Vec::new();
    let len: usize = list.len();
    for i in 0..len
        invariant
            len == list@.len(),
            lines@.len() == i,
            forall|k: int| 0 <= k < i ==> (#[trigger] lines@[k])@ == commit_shown(list@[k]),
    {
        lines.push(
            join3(
                "commit ",
                u64_text(list[i].commit_id).as_str(),
                join2(" parent ", u64_text(list[i].parent_id).as_str()).as_str(),
            ),
        );
    }
    proof {
        assert(texts(lines@) =~= Seq::new(list@.len(), |i: int| commit_shown(list@[i])));
    }
    Ok(Output::Lines(lines))
}

/// Whether a collection may lack room for the refs it writes.
pub open spec fn crowded_gc<S: Storage>(db: Db<S>) -> bool {
    exists|v: Seq<(String, BranchRef)>| #[trigger]
        lists_branches(db.store(), v) && !roomy_gc(
            db.store(),
            v.len() as int,
            db.on().len() as int,
        )
}

/// Whether a statement about branches and history is to be refused.
pub open spec fn refused<S: Storage>(a: Db<S>, s: Statement) -> bool {
    match s {
        Statement::Branch { name, at } => {
            ||| !name_ok(name@)
            ||| a.branch(name@) is Some
            ||| at matches Some(id) && id != 0 && !retains_id(a.store(), id)
            ||| name_too_long(name@, a.store().size())
        },
        Statement::Switch { name } => !name_ok(name@) || a.branch(name@) is None,
        Statement::Merge { name } => {
            ||| name@ == a.on()
            ||| a.branch(name@) is None
            ||| a.branch(name@) matches Some(theirs) && theirs.head_id != a.head().head_id && !reaches(
                a.store(),
                theirs,
                a.head().head_id,
            )
        },
        Statement::DropBranch { name } => name@ == a.on() || a.branch(name@) is None,
        Statement::Gc { keep } => keep == 0,
        _ => false,
    }
}

/// Whether a statement about branches and history may lack room for the
/// refs it writes.
pub open spec fn crowded<S: Storage>(a: Db<S>, s: Statement) -> bool {
    match s {
        Statement::Branch { name: _, at: _ }
        | Statement::Switch { name: _ }
        | Statement::Merge { name: _ }
        | Statement::DropBranch { name: _ } => !roomy_refs(a.store()),
        Statement::Gc { keep: _ } => crowded_gc(a),
        _ => false,
    }
}

fn collect_garbage<S: Storage>(db: &mut Db<S>, keep: u64) -> (r: core::result::Result<
    Output,
    ExecError,
>)
    requires
        old(db).wf(),
    ensures
        final(db).wf(),
        final(db).on() == old(db).on(),
        r matches Err(e) ==> e.fail() is Storage,
        keep == 0 ==> r is Err && untouched(*old(db), *final(db)),
        old(db).sound() && old(db).reliable() && r is Err ==> (final(db).store() == old(db).store()
            || same_store(old(db).store(), final(db).store())) && (keep == 0 || crowded_gc(*old(db))),
        old(db).sound() && old(db).reliable() ==> (r matches Ok(out) ==> keep > 0 && final(
            db).sound() && exists|
            v: Seq<(String, BranchRef)>,
            n: int,
            pruned: u64,
            freed: u64,
            pages: u64,
        |
            {
                &&& #[trigger] swept(*old(db), *final(db), keep, v, n, pruned, freed, pages)
                &&& out@ == Answer::Lines(seq![gc_shown(pruned, freed)])
            }),
{
    let retain: usize = if keep <= usize::MAX as u64 {
        keep as usize
    } else {
        usize::MAX
    };
    let ghost before = *db;
    match db.gc(retain) {
        Ok(report) => {
            proof {
                if before.sound() && before.reliable() {
                    let v = choose|v: Seq<(String, BranchRef)>| #[trigger]
                        lists_branches(before.store(), v) && report.pruned_commits == pruned_of(
                            before.store(),
                            v,
                            retain as int,
                        ).len() && report.freed_pages == unheld(
                            before.store(),
                            v,
                            retain as int,
                            report.page_count as int,
                        ) && swept_free(before.store(), db.store(), v, retain as int);
                    assert(swept(
                        before,
                        *db,
                        keep,
                        v,
                        retain as int,
                        report.pruned_commits,
                        report.freed_pages,
                        report.page_count,
                    ));
                }
            }
            let head = join3(
                "gc pruned ",
                u64_text(report.pruned_commits).as_str(),
                " commits, freed ",
            );
            Ok(
                one_line(
                    join3(head.as_str(), u64_text(report.freed_pages).as_str(), " pages"),
                ),
            )
        },
        Err(e) => Err(ExecError::Storage(e)),
    }
}

/// Run a statement about branches and history. These manage their own
/// commits instead of running inside a write transaction.
fn run_history<S: Storage>(db: &mut Db<S>, stmt: &Statement) -> (r: core::result::Result<
    Output,
    ExecError,
>)
    requires
        old(db).wf(),
        is_history(*stmt),
    ensures
        final(db).wf(),
        r matches Err(e) ==> e.fail() is Storage,
        old(db).sound() && old(db).reliable() ==> match r {
            Ok(out) => chronicled(*old(db), *final(db), *stmt, out@),
            Err(_) => unmoved(*old(db), *final(db)) && (refused(*old(db), *stmt) || crowded(
                *old(db),
                *stmt,
            )),
        },
{
    let ghost before = *db;
    let r = match stmt {
        Statement::Branch { name, at } => match db.create_branch(name.as_str(), *at) {
            Ok(_) => Ok(Output::Done),
            Err(e) => Err(ExecError::Storage(e)),
        },
        Statement::Switch { name } => match db.switch_branch(name.as_str()) {
            Ok(_) => Ok(one_line(join2("switched to ", name.as_str()))),
            Err(e) => Err(ExecError::Storage(e)),
        },
        Statement::Merge { name } => match db.merge_ff(name.as_str()) {
            Ok(head) => Ok(
                one_line(
                    join3(
                        "merged ",
                        name.as_str(),
                        join2(", head is now commit ", u64_text(head).as_str()).as_str(),
                    ),
                ),
            ),
            Err(e) => Err(ExecError::Storage(e)),
        },
        Statement::DropBranch { name } => match db.drop_branch(name.as_str()) {
            Ok(_) => Ok(Output::Done),
            Err(e) => Err(ExecError::Storage(e)),
        },
        Statement::ShowBranches => show_branches(db),
        Statement::Log => show_log(db),
        Statement::Gc { keep } => collect_garbage(db, *keep),
        _ => Err(ExecError::Storage(crate::error::Error::InvalidArgument("not about history"))),
    };
    proof {
        if before.sound() && before.reliable() && r is Err {
            lemma_unmoved(before, *db);
        }
    }
    r
}

// ---------------------------------------------------------------------
// sessions
// ---------------------------------------------------------------------

/// Statements that only read.
pub open spec fn is_read(s: Statement) -> bool {
    s is Get || s is ShowTables || s is Explain
}

/// The buffered statements of an open transaction.
pub open spec fn buffered(t: Option<Vec<Statement>>) -> Option<Seq<Statement>> {
    match t {
        Some(v) => Some(v@),
        None => None,
    }
}

/// A read of the past.
pub open spec fn is_past(s: Statement) -> bool {
    s matches Statement::Get(get) && get.as_of is Some
}

impl<S: Storage, M: Fn(BinaryOp, u64, u64) -> u64, T: Fn(u64) -> String> Session<S, M, T> {
    /// The statements of the open transaction, if one is open.
    pub open spec fn open(&self) -> Option<Seq<Statement>> {
        buffered(self.txn)
    }

    pub open spec fn wf(&self) -> bool {
        self.db.wf() && self.floats.ok()
    }

    /// A whole database on storage that does not fail.
    pub open spec fn sound(&self) -> bool {
        self.db.sound() && self.db.reliable()
    }

    /// What a statement does to a whole database.
    pub open spec fn acts(
        &self,
        b: &Self,
        s: Statement,
        r: core::result::Result<Output, ExecError>,
    ) -> bool {
        let g = self.floats.math();
        let f = self.floats.shown();
        let lim = key_limit(self.db);
        match s {
            Statement::Begin => {
                &&& untouched(self.db, b.db)
                &&& if self.open() is Some {
                    failure(r) == Some(Fail::Exec) && b.open() == self.open()
                } else {
                    (r matches Ok(out) && out@ == Answer::Done) && b.open() == Some(
                        Seq::<Statement>::empty(),
                    )
                }
            },
            Statement::Rollback => {
                &&& untouched(self.db, b.db)
                &&& b.open() is None
                &&& if self.open() is Some {
                    r matches Ok(out) && out@ == Answer::Done
                } else {
                    failure(r) == Some(Fail::Exec)
                }
            },
            Statement::Commit => {
                &&& b.open() is None
                &&& match self.open() {
                    None => failure(r) == Some(Fail::Exec) && untouched(self.db, b.db),
                    Some(list) => {
                        let want = replayed(start(self.db), list, list.len() as int, lim, g, f);
                        match r {
                            Ok(out) => out@ == Answer::Done && (want matches Ok(st) && settled(
                                self.db,
                                b.db,
                                st,
                            )),
                            Err(e) => unmoved(self.db, b.db) && ((e.fail() is Storage && list.len()
                                > 0 && !has_room(
                                self.db.store(),
                                replay_cost(start(self.db), list, list.len() as int, lim, g, f),
                            )) || (want == Err::<State, Fail>(e.fail()) && untouched(
                                self.db,
                                b.db,
                            ))),
                        }
                    },
                }
            },
            _ => match self.open() {
                Some(list) => {
                    &&& untouched(self.db, b.db)
                    &&& if is_history(s) {
                        failure(r) == Some(Fail::Exec) && b.open() == self.open()
                    } else if is_past(s) {
                        recalled(self.db, s->Get_0, r, g) && b.open() == self.open()
                    } else {
                        let want = on_top(start(self.db), list, s, lim, g, f);
                        match r {
                            Ok(out) => (want matches Ok((_, a)) && a == out@) && b.open() == (if is_read(
                                s,
                            ) {
                                self.open()
                            } else {
                                Some(list.push(s))
                            }),
                            Err(e) => b.open() == self.open() && ((e.fail() is Storage && !(is_read(
                                s,
                            ) && list.len() == 0) && !has_room(
                                self.db.store(),
                                on_top_cost(start(self.db), list, s, lim, g, f),
                            )) || want == Err::<(State, Answer), Fail>(
                                e.fail(),
                            )),
                        }
                    }
                },
                None => {
                    &&& b.open() is None
                    &&& if is_history(s) {
                        match r {
                            Ok(out) => chronicled(self.db, b.db, s, out@),
                            Err(e) => e.fail() is Storage && unmoved(self.db, b.db) && (refused(
                                self.db,
                                s,
                            ) || crowded(self.db, s)),
                        }
                    } else if is_past(s) {
                        recalled(self.db, s->Get_0, r, g) && untouched(self.db, b.db)
                    } else {
                        let want = did(start(self.db), s, lim, g, f);
                        match r {
                            Ok(out) => want matches Ok((st, a)) && a == out@ && settled(
                                self.db,
                                b.db,
                                st,
                            ),
                            Err(e) => unmoved(self.db, b.db) && ((e.fail() is Storage && !is_read(
                                s,
                            ) && !has_room(
                                self.db.store(),
                                cost_of(start(self.db), s, lim, g),
                            )) || (want == Err::<(State, Answer), Fail>(e.fail()) && untouched(
                                self.db,
                                b.db,
                            ))),
                        }
                    }
                },
            },
        }
    }

    pub fn new(db: Db<S>, floats: Floats<M, T>) -> (r: Self)
        ensures
            r.db == db,
            r.floats == floats,
            r.open() is None,
    {
        Session { db, txn: None, floats }
    }

    pub fn db(&self) -> (r: &Db<S>)
        ensures
            *r == self.db,
    {
        &self.db
    }

    fn run_control(&mut self, stmt: &Statement) -> (r: core::result::Result<Output, ExecError>)
        requires
            old(self).wf(),
            stmt is Begin || stmt is Commit || stmt is Rollback,
        ensures
            final(self).wf(),
            final(self).floats == old(self).floats,
            old(self).sound() ==> old(self).acts(final(self), *stmt, r),
    {
        match stmt {
            Statement::Begin => {
                if self.txn.is_some() {
                    return Err(
                        ExecError::Exec(
                            owned("a transaction is already open; commit or rollback first"),
                        ),
                    );
                }
                let none: Vec<Statement> = Vec::new();
                self.txn = Some(none);
                Ok(Output::Done)
            },
            Statement::Commit => match self.txn.take() {
                None => Err(ExecError::Exec(owned("no transaction is open"))),
                Some(list) => match commit_buffered(&mut self.db, &list, &self.floats) {
                    Ok(_) => Ok(Output::Done),
                    Err(e) => Err(e),
                },
            },
            _ => match self.txn.take() {
                None => Err(ExecError::Exec(owned("no transaction is open"))),
                Some(_) => Ok(Output::Done),
            },
        }
    }

    /// Statement handling while an explicit transaction is open.
    ///
    /// The model is replay: the transaction is exactly the ordered list of
    /// its mutating statements, and its effect is that list applied to a
    /// single write transaction, atomically, at `commit`. To read or
    /// validate mid-transaction, that list is replayed into a throwaway
    /// write transaction and then discarded, so a read sees precisely what
    /// `commit` would produce so far, and nothing sticks until `commit`.
    fn run_in_txn(&mut self, stmt: Statement, list: Vec<Statement>) -> (r: core::result::Result<
        Output,
        ExecError,
    >)
        requires
            old(self).wf(),
            !(stmt is Begin || stmt is Commit || stmt is Rollback),
        ensures
            final(self).wf(),
            final(self).floats == old(self).floats,
            untouched(old(self).db, final(self).db),
            ({
                let g = old(self).floats.math();
                let f = old(self).floats.shown();
                let lim = key_limit(old(self).db);
                old(self).sound() ==> if is_history(stmt) {
                    failure(r) == Some(Fail::Exec) && final(self).open() == Some(list@)
                } else if is_past(stmt) {
                    recalled(old(self).db, stmt->Get_0, r, g) && final(self).open() == Some(list@)
                } else {
                    let want = on_top(start(old(self).db), list@, stmt, lim, g, f);
                    match r {
                        Ok(out) => (want matches Ok((_, a)) && a == out@) && final(self).open()
                            == Some(
                            if is_read(stmt) {
                                list@
                            } else {
                                list@.push(stmt)
                            },
                        ),
                        Err(e) => final(self).open() == Some(list@) && ((e.fail() is Storage
                            && !(is_read(stmt) && list@.len() == 0) && !has_room(
                            old(self).db.store(),
                            on_top_cost(start(old(self).db), list@, stmt, lim, g, f),
                        )) || want == Err::<
                            (State, Answer),
                            Fail,
                        >(e.fail())),
                    }
                }
            }),
    {
        let mut list = list;
        let history: bool = match &stmt {
            // database-level statements own their commits and cannot be
            // part of a data transaction; make the user close it first
            Statement::Branch { name: _, at: _ }
            | Statement::Switch { name: _ }
            | Statement::Merge { name: _ }
            | Statement::DropBranch { name: _ }
            | Statement::ShowBranches
            | Statement::Log
            | Statement::Gc { keep: _ } => true,
            _ => false,
        };
        if history {
            self.txn = Some(list);
            return Err(
                ExecError::Exec(
                    owned(
                        "branch and history statements cannot run inside a transaction; commit or rollback first",
                    ),
                ),
            );
        }
        // history reads are independent of the pending writes
        if let Statement::Get(get) = &stmt {
            if let Some(at) = get.as_of {
                let r = read_as_of(&self.db, get, at, &self.floats);
                self.txn = Some(list);
                return r;
            }
        }
        let reading: bool = match &stmt {
            Statement::Get(_) | Statement::ShowTables | Statement::Explain(_) => true,
            _ => false,
        };
        // replay plus this statement must succeed before a mutation joins
        // the buffer; on error nothing is buffered and the transaction
        // stays open, matching statement-level rollback
        let r = dry_run(&mut self.db, &list, &stmt, &self.floats);
        if r.is_ok() && !reading {
            list.push(stmt);
        }
        self.txn = Some(list);
        r
    }

    /// Execute one statement. One statement is one transaction: it commits
    /// fully or leaves no trace. While an explicit transaction is open every
    /// statement is buffered or served from a replay, never committed on its
    /// own.
    pub fn run_parsed(&mut self, stmt: Statement) -> (r: core::result::Result<Output, ExecError>)
        requires
            old(self).wf(),
        ensures
            final(self).wf(),
            final(self).floats == old(self).floats,
            old(self).sound() ==> old(self).acts(final(self), stmt, r),
    {
        match &stmt {
            Statement::Begin | Statement::Commit | Statement::Rollback => {
                return self.run_control(&stmt);
            },
            _ => {},
        }
        if let Some(list) = self.txn.take() {
            return self.run_in_txn(stmt, list);
        }
        match &stmt {
            Statement::Branch { name: _, at: _ }
            | Statement::Switch { name: _ }
            | Statement::Merge { name: _ }
            | Statement::DropBranch { name: _ }
            | Statement::ShowBranches
            | Statement::Log
            | Statement::Gc { keep: _ } => {
                return run_history(&mut self.db, &stmt);
            },
            Statement::Get(get) => {
                if let Some(at) = get.as_of {
                    return read_as_of(&self.db, get, at, &self.floats);
                }
            },
            _ => {},
        }
        run_one(&mut self.db, &stmt, &self.floats)
    }
}

/// A transaction commits what it showed: replaying the statements it
/// accepted ends in the state the last of them answered from.
pub proof fn law_transaction_commits_what_it_showed(
    st: State,
    list: Seq<Statement>,
    s: Statement,
    lim: int,
    g: Math,
    f: Shown,
)
    requires
        on_top(st, list, s, lim, g, f) is Ok,
    ensures
        replayed(st, list.push(s), list.push(s).len() as int, lim, g, f) == Ok::<State, Fail>(
            on_top(st, list, s, lim, g, f)->Ok_0.0,
        ),
{
    lemma_replay_prefix(st, list, s, list.len() as int, lim, g, f);
}

proof fn lemma_replay_prefix(
    st: State,
    list: Seq<Statement>,
    s: Statement,
    n: int,
    lim: int,
    g: Math,
    f: Shown,
)
    requires
        n <= list.len(),
    ensures
        replayed(st, list.push(s), n, lim, g, f) == replayed(st, list, n, lim, g, f),
    decreases n,
{
    if n > 0 {
        lemma_replay_prefix(st, list, s, n - 1, lim, g, f);
    }
}

/// A statement that only reads changes nothing.
pub proof fn law_reads_change_nothing(st: State, s: Statement, lim: int, g: Math, f: Shown)
    requires
        is_read(s),
        did(st, s, lim, g, f) is Ok,
    ensures
        did(st, s, lim, g, f)->Ok_0.0 == st,
{
    reveal(did);
}

} // verus!
