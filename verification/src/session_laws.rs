//! What transactions and branches mean to someone who uses a session.

use vstd::prelude::*;

use crate::ast::{BinaryOp, Statement};
use crate::db::{gc_done, head_catalog, head_data, lists_branches, Db};
use crate::effects::State;
use crate::exec_error::ExecError;
use crate::refs::BranchRef;
use crate::session::{branch_shown, chronicled, is_history, is_past, key_limit, replayed, start, Session};
use crate::statement::{did, Answer, Output};
use crate::storage::Storage;
use crate::strings::decimal;
use crate::store::{catalog_of, data_of, readable, records};

verus! {

/// What someone who reads the current branch sees.
pub open spec fn same_view<S: Storage>(a: Db<S>, b: Db<S>) -> bool {
    &&& b.data() == a.data()
    &&& b.catalog() == a.catalog()
    &&& b.on() == a.on()
    &&& forall|n: Seq<char>| #[trigger] b.branch(n) == a.branch(n)
}

/// A rollback closes the transaction and leaves everything as it was before
/// the transaction began. Without one it is refused.
pub proof fn law_rollback_leaves_everything<
    S: Storage,
    M: Fn(BinaryOp, u64, u64) -> u64,
    T: Fn(u64) -> String,
>(
    a: Session<S, M, T>,
    b: Session<S, M, T>,
    r: core::result::Result<Output, ExecError>,
)
    requires
        a.sound(),
        a.acts(&b, Statement::Rollback, r),
    ensures
        same_view(a.db, b.db),
        b.open() is None,
        r is Ok <==> a.open() is Some,
{
}

/// Beginning a transaction changes nothing that is stored. Inside one it is
/// refused, and the transaction stays open.
pub proof fn law_begin_opens_one_transaction<
    S: Storage,
    M: Fn(BinaryOp, u64, u64) -> u64,
    T: Fn(u64) -> String,
>(
    a: Session<S, M, T>,
    b: Session<S, M, T>,
    r: core::result::Result<Output, ExecError>,
)
    requires
        a.sound(),
        a.acts(&b, Statement::Begin, r),
    ensures
        same_view(a.db, b.db),
        r is Ok <==> a.open() is None,
        a.open() is None ==> (b.open() matches Some(list) && list.len() == 0),
        a.open() is Some ==> b.open() == a.open(),
{
}

/// Nothing that happens inside a transaction is seen outside it until it is
/// committed; a statement that only reads is not kept, one that was accepted
/// is kept last, and one that failed is not kept.
pub proof fn law_open_transactions_are_not_seen<
    S: Storage,
    M: Fn(BinaryOp, u64, u64) -> u64,
    T: Fn(u64) -> String,
>(
    a: Session<S, M, T>,
    b: Session<S, M, T>,
    s: Statement,
    r: core::result::Result<Output, ExecError>,
)
    requires
        a.sound(),
        a.open() is Some,
        !(s is Begin || s is Commit || s is Rollback),
        a.acts(&b, s, r),
    ensures
        same_view(a.db, b.db),
        r is Err ==> b.open() == a.open(),
        is_history(s) ==> r is Err,
        s is Get || s is ShowTables || s is Explain ==> b.open() == a.open(),
        r is Ok && !(s is Get || s is ShowTables || s is Explain) ==> b.open() == Some(
            a.open()->0.push(s),
        ),
{
}

/// A commit closes the transaction. Where it fails, nothing is stored; where
/// it succeeds, the statements of the transaction took effect one after the
/// other, from the first to the last, on what was stored before. The other
/// branches stay.
pub proof fn law_commits_are_all_or_nothing<
    S: Storage,
    M: Fn(BinaryOp, u64, u64) -> u64,
    T: Fn(u64) -> String,
>(
    a: Session<S, M, T>,
    b: Session<S, M, T>,
    r: core::result::Result<Output, ExecError>,
)
    requires
        a.sound(),
        a.acts(&b, Statement::Commit, r),
    ensures
        b.open() is None,
        b.db.on() == a.db.on(),
        a.open() is None ==> r is Err,
        r is Err ==> same_view(a.db, b.db),
        forall|n: Seq<char>| n != a.db.on() ==> #[trigger] b.db.branch(n) == a.db.branch(n),
        r is Ok ==> exists|sts: Seq<State>| #[trigger]
            ends_in(
                a.open()->0,
                sts,
                start(a.db),
                key_limit(a.db),
                a.floats.math(),
                a.floats.shown(),
            ) && (sts.last().touched ==> b.db.data() == sts.last().data && b.db.catalog()
                == sts.last().schema) && (!sts.last().touched ==> same_view(a.db, b.db)),
{
    if r is Ok {
        let list = a.open()->0;
        lemma_steps(
            list,
            list.len() as int,
            start(a.db),
            key_limit(a.db),
            a.floats.math(),
            a.floats.shown(),
        );
        let sts = steps(
            list,
            list.len() as int,
            start(a.db),
            key_limit(a.db),
            a.floats.math(),
            a.floats.shown(),
        );
        assert(ends_in(
            list,
            sts,
            start(a.db),
            key_limit(a.db),
            a.floats.math(),
            a.floats.shown(),
        ));
    }
}

/// Whether a list of states is what some statements lead through, each from
/// the state the one before it left.
pub open spec fn ends_in(
    list: Seq<Statement>,
    sts: Seq<State>,
    from: State,
    lim: int,
    g: crate::value_ops::Math,
    f: crate::value_ops::Shown,
) -> bool {
    &&& sts.len() == list.len() + 1
    &&& sts[0] == from
    &&& forall|i: int|
        0 <= i < list.len() ==> (did(sts[i], #[trigger] list[i], lim, g, f) matches Ok((next, _))
            && next == sts[i + 1])
}

spec fn steps(
    list: Seq<Statement>,
    n: int,
    from: State,
    lim: int,
    g: crate::value_ops::Math,
    f: crate::value_ops::Shown,
) -> Seq<State>
    decreases n,
{
    if n <= 0 {
        seq![from]
    } else {
        steps(list, n - 1, from, lim, g, f).push(replayed(from, list, n, lim, g, f)->Ok_0)
    }
}

proof fn lemma_steps(
    list: Seq<Statement>,
    n: int,
    from: State,
    lim: int,
    g: crate::value_ops::Math,
    f: crate::value_ops::Shown,
)
    requires
        0 <= n <= list.len(),
        replayed(from, list, n, lim, g, f) is Ok,
    ensures
        ({
            let sts = steps(list, n, from, lim, g, f);
            &&& sts.len() == n + 1
            &&& sts[0] == from
            &&& sts[n] == replayed(from, list, n, lim, g, f)->Ok_0
            &&& forall|i: int|
                0 <= i < n ==> (did(sts[i], #[trigger] list[i], lim, g, f) matches Ok((next, _))
                    && next == sts[i + 1])
        }),
    decreases n,
{
    if n > 0 {
        lemma_steps(list, n - 1, from, lim, g, f);
        let less = steps(list, n - 1, from, lim, g, f);
        let sts = steps(list, n, from, lim, g, f);
        assert forall|i: int| 0 <= i < n implies (did(sts[i], #[trigger] list[i], lim, g, f)
            matches Ok((next, _)) && next == sts[i + 1]) by {
            if i < n - 1 {
                assert(sts[i] == less[i] && sts[i + 1] == less[i + 1]);
            } else {
                assert(sts[i] == less[n - 1]);
            }
        }
    }
}

/// A statement on its own that fails stores nothing. One that changed
/// something adds one commit in front of the history of the current branch,
/// whose parent is the old head and which holds what the statement left; the
/// other branches and all earlier commits stay.
pub proof fn law_changes_add_one_commit<
    S: Storage,
    M: Fn(BinaryOp, u64, u64) -> u64,
    T: Fn(u64) -> String,
>(
    a: Session<S, M, T>,
    b: Session<S, M, T>,
    s: Statement,
    r: core::result::Result<Output, ExecError>,
)
    requires
        a.sound(),
        a.open() is None,
        !(s is Begin || s is Commit || s is Rollback) && !is_history(s) && !is_past(s),
        a.acts(&b, s, r),
    ensures
        b.open() is None,
        b.db.on() == a.db.on(),
        r is Err ==> same_view(a.db, b.db),
        forall|n: Seq<char>| n != a.db.on() ==> #[trigger] b.db.branch(n) == a.db.branch(n),
        r matches Ok(out) ==> {
            let was = records(a.db.store(), a.db.head());
            let now = records(b.db.store(), b.db.head());
            did(start(a.db), s, key_limit(a.db), a.floats.math(), a.floats.shown()) matches Ok(
                (st, answer),
            ) && answer == out@ && if st.touched {
                &&& b.db.data() == st.data
                &&& b.db.catalog() == st.schema
                &&& now.len() == was.len() + 1
                &&& now[0].1.parent_id == a.db.head().head_id
                &&& now[0].1.commit_id == b.db.head().head_id
                &&& forall|i: int| 0 <= i < was.len() ==> now[i + 1] == #[trigger] was[i]
                &&& forall|i: int|
                    0 <= i < was.len() ==> data_of(b.db.store(), (#[trigger] was[i]).1) == data_of(
                        a.db.store(),
                        was[i].1,
                    ) && catalog_of(b.db.store(), was[i].1) == catalog_of(a.db.store(), was[i].1)
            } else {
                same_view(a.db, b.db)
            }
        },
{
    if r is Ok {
        let was = records(a.db.store(), a.db.head());
        let now = records(b.db.store(), b.db.head());
        let st = (did(
            start(a.db),
            s,
            key_limit(a.db),
            a.floats.math(),
            a.floats.shown(),
        )->Ok_0).0;
        if st.touched {
            assert forall|i: int| 0 <= i < was.len() implies now[i + 1] == #[trigger] was[i] by {
                assert(now.skip(1)[i] == now[i + 1]);
            }
            assert(readable(a.db.store(), a.db.head()));
            assert(crate::store::same_past(a.db.store(), b.db.store(), a.db.head()));
            assert forall|i: int| 0 <= i < was.len() implies data_of(
                b.db.store(),
                (#[trigger] was[i]).1,
            ) == data_of(a.db.store(), was[i].1) && catalog_of(b.db.store(), was[i].1)
                == catalog_of(a.db.store(), was[i].1) by {
                assert(crate::store::same_record(a.db.store(), b.db.store(), was[i]));
            }
        }
    }
}

proof fn lemma_head_kept<S: Storage>(a: Db<S>, b: Db<S>, r: BranchRef)
    requires
        readable(a.store(), r),
        crate::store::past_kept(a.store(), b.store()),
    ensures
        records(b.store(), r) == records(a.store(), r),
        head_data(b.store(), r) == head_data(a.store(), r),
        head_catalog(b.store(), r) == head_catalog(a.store(), r),
{
    assert(crate::store::same_past(a.store(), b.store(), r));
    let h = records(a.store(), r);
    assert(crate::commit::chain_of(crate::pager::ReadPages::pages(&a.store()), r, h));
    if r.head_id != 0 {
        assert(crate::store::same_record(a.store(), b.store(), h[0]));
    }
}

/// A new branch that says no commit starts where the current branch stands:
/// it shows what the current one shows, and has its history. The current
/// branch stays current, and every other branch stays.
pub proof fn law_a_new_branch_shows_the_current_one<S: Storage>(
    a: Db<S>,
    b: Db<S>,
    name: String,
    out: Answer,
)
    requires
        a.sound(),
        chronicled(a, b, Statement::Branch { name, at: None }, out),
    ensures
        a.branch(name@) is None,
        b.on() == a.on(),
        b.branch(name@) matches Some(t) && head_data(b.store(), t) == a.data() && head_catalog(
            b.store(),
            t,
        ) == a.catalog() && records(b.store(), t) == records(a.store(), a.head()),
        b.data() == a.data(),
        b.catalog() == a.catalog(),
        forall|n: Seq<char>| n != name@ ==> #[trigger] b.branch(n) == a.branch(n),
{
    lemma_head_kept(a, b, a.head());
    assert(b.branch(a.on()) == a.branch(a.on()));
}

/// Switching shows the other branch as it stands, and moves none.
pub proof fn law_switching_shows_the_branch<S: Storage>(
    a: Db<S>,
    b: Db<S>,
    name: String,
    out: Answer,
)
    requires
        a.sound(),
        chronicled(a, b, Statement::Switch { name }, out),
    ensures
        b.on() == name@,
        a.branch(name@) matches Some(t) && b.head() == t && b.data() == head_data(a.store(), t)
            && b.catalog() == head_catalog(a.store(), t),
        forall|n: Seq<char>| #[trigger] b.branch(n) == a.branch(n),
{
    let t = a.branch(name@)->0;
    assert(b.branch(name@) == a.branch(name@));
    lemma_head_kept(a, b, t);
}

/// A dropped branch is gone, was not the current one, and took no other with
/// it.
pub proof fn law_a_dropped_branch_is_gone<S: Storage>(
    a: Db<S>,
    b: Db<S>,
    name: String,
    out: Answer,
)
    requires
        a.sound(),
        chronicled(a, b, Statement::DropBranch { name }, out),
    ensures
        name@ != a.on(),
        a.branch(name@) is Some,
        b.branch(name@) is None,
        b.on() == a.on(),
        b.data() == a.data(),
        b.catalog() == a.catalog(),
        forall|n: Seq<char>| n != name@ ==> #[trigger] b.branch(n) == a.branch(n),
{
    assert(b.branch(a.on()) == a.branch(a.on()));
    lemma_head_kept(a, b, a.head());
}

/// Merging a branch that is ahead makes the current branch show what that
/// one shows; the branches that are not current stay. A branch with the same
/// head changes nothing.
pub proof fn law_merging_shows_the_other_branch<S: Storage>(
    a: Db<S>,
    b: Db<S>,
    name: String,
    out: Answer,
)
    requires
        a.sound(),
        chronicled(a, b, Statement::Merge { name }, out),
    ensures
        name@ != a.on(),
        b.on() == a.on(),
        a.branch(name@) matches Some(t) && b.head().head_id == t.head_id && if t.head_id
            == a.head().head_id {
            same_view(a, b)
        } else {
            b.data() == head_data(a.store(), t) && b.catalog() == head_catalog(a.store(), t)
        },
        forall|n: Seq<char>| n != a.on() ==> #[trigger] b.branch(n) == a.branch(n),
{
    let t = a.branch(name@)->0;
    if t.head_id != a.head().head_id {
        lemma_head_kept(a, b, t);
        let x = records(b.store(), b.head());
        let y = records(b.store(), t);
        assert(crate::store::same_past(a.store(), b.store(), t));
        assert(crate::store::readable(b.store(), t));
        assert(crate::store::branch_ok(b.store(), b.head()));
        assert(crate::commit::chain_of(crate::pager::ReadPages::pages(&b.store()), b.head(), x));
        assert(crate::commit::chain_of(crate::pager::ReadPages::pages(&b.store()), t, y));
        if t.head_id != 0 {
            assert(x[0].0 == y[0].0);
            assert(x[0].1 == y[0].1);
        }
    }
}

/// The log lists the commits of the current branch, the newest first, each
/// with its id and its parent's.
pub proof fn law_the_log_lists_every_commit<S: Storage>(a: Db<S>, b: Db<S>, out: Answer)
    requires
        a.sound(),
        chronicled(a, b, Statement::Log, out),
    ensures
        same_view(a, b),
        ({
            let h = records(a.store(), a.head());
            &&& out matches Answer::Lines(lines) && lines.len() == h.len() && forall|i: int|
                0 <= i < h.len() ==> #[trigger] lines[i] == "commit "@ + decimal(
                    h[i].1.commit_id as nat,
                ) + (" parent "@ + decimal(h[i].1.parent_id as nat))
            &&& forall|i: int, j: int|
                0 <= i < j < h.len() ==> (#[trigger] h[i]).1.commit_id > (
                #[trigger] h[j]).1.commit_id
            &&& h.len() > 0 ==> h[0].1.commit_id == a.head().head_id
        }),
{
    let h = records(a.store(), a.head());
    assert(crate::store::branch_ok(a.store(), a.head()));
    assert(crate::commit::chain_of(crate::pager::ReadPages::pages(&a.store()), a.head(), h));
}

proof fn lemma_branch_line(name: Seq<char>, r: BranchRef, on: Seq<char>)
    ensures
        branch_shown(name, r, on) == (if name == on {
            seq!['*', ' ']
        } else {
            seq![' ', ' ']
        }) + name + (seq![' ', '@'] + decimal(r.head_id as nat)),
{
    reveal_strlit("* ");
    reveal_strlit("  ");
    reveal_strlit(" @");
    assert("* "@ =~= seq!['*', ' ']);
    assert("  "@ =~= seq![' ', ' ']);
    assert(" @"@ =~= seq![' ', '@']);
}

/// Showing the branches shows every branch once, with the id of its head,
/// and a star before the current one only.
pub proof fn law_every_branch_is_shown<S: Storage>(a: Db<S>, b: Db<S>, out: Answer, name: Seq<char>)
    requires
        chronicled(a, b, Statement::ShowBranches, out),
    ensures
        same_view(a, b),
        out matches Answer::Lines(lines) && (a.branch(name) matches Some(r) ==> exists|i: int|
            {
                &&& 0 <= i < lines.len()
                &&& #[trigger] lines[i] == (if name == a.on() {
                    seq!['*', ' ']
                } else {
                    seq![' ', ' ']
                }) + name + (seq![' ', '@'] + decimal(r.head_id as nat))
            }),
{
    let lines = out->Lines_0;
    let v = choose|v: Seq<(String, BranchRef)>| #[trigger]
        lists_branches(a.store(), v) && out is Lines && lines.len() == v.len() && forall|i: int|
            0 <= i < v.len() ==> #[trigger] lines[i] == branch_shown(v[i].0@, v[i].1, a.on());
    if a.branch(name) is Some {
        let i = choose|i: int| 0 <= i < v.len() && (#[trigger] v[i]).0@ == name;
        assert(lines[i] == branch_shown(v[i].0@, v[i].1, a.on()));
        lemma_branch_line(name, v[i].1, a.on());
    }
}

/// A collection keeps of every branch the newest commits, as many as it was
/// told and no more, and what each of them holds. Every branch stays, with
/// its head, and the current one shows what it showed.
pub proof fn law_collections_keep_the_newest<S: Storage>(
    a: Db<S>,
    b: Db<S>,
    keep: u64,
    out: Answer,
    name: Seq<char>,
)
    requires
        a.sound(),
        keep <= usize::MAX,
        chronicled(a, b, Statement::Gc { keep }, out),
    ensures
        keep > 0,
        b.on() == a.on(),
        b.branch(name) is Some <==> a.branch(name) is Some,
        a.branch(name) matches Some(r) ==> {
            let was = records(a.store(), r);
            let now = records(b.store(), b.branch(name)->0);
            &&& b.branch(name)->0.head_id == r.head_id
            &&& now.len() == (if keep < was.len() {
                keep as nat
            } else {
                was.len()
            })
            &&& forall|i: int| 0 <= i < now.len() ==> #[trigger] now[i] == was[i]
            &&& forall|i: int|
                0 <= i < now.len() ==> data_of(b.store(), (#[trigger] now[i]).1) == data_of(
                    a.store(),
                    now[i].1,
                ) && catalog_of(b.store(), now[i].1) == catalog_of(a.store(), now[i].1)
        },
{
    assert(exists|n: int| #[trigger] gc_done(a.store(), b.store(), n) && n == keep);
    if a.branch(name) is Some {
        let r = a.branch(name)->0;
        let was = records(a.store(), r);
        assert forall|i: int|
            0 <= i < was.len() && i < keep implies data_of(b.store(), (#[trigger] was[i]).1)
            == data_of(a.store(), was[i].1) && catalog_of(b.store(), was[i].1) == catalog_of(
            a.store(),
            was[i].1,
        ) by {
            crate::db::law_gc_keeps_retained_commits(a.store(), b.store(), keep as int, name, i);
        }
    }
}

/// Inside a transaction a statement is answered from what the statements
/// before it left, one after the other, on what was stored when it began.
pub proof fn law_transactions_see_their_own_writes<
    S: Storage,
    M: Fn(BinaryOp, u64, u64) -> u64,
    T: Fn(u64) -> String,
>(
    a: Session<S, M, T>,
    b: Session<S, M, T>,
    s: Statement,
    r: core::result::Result<Output, ExecError>,
)
    requires
        a.sound(),
        a.open() is Some,
        !(s is Begin || s is Commit || s is Rollback) && !is_history(s) && !is_past(s),
        a.acts(&b, s, r),
        r is Ok,
    ensures
        exists|sts: Seq<State>| #[trigger]
            ends_in(
                a.open()->0,
                sts,
                start(a.db),
                key_limit(a.db),
                a.floats.math(),
                a.floats.shown(),
            ) && (did(
                sts.last(),
                s,
                key_limit(a.db),
                a.floats.math(),
                a.floats.shown(),
            ) matches Ok((_, answer)) && answer == (r->Ok_0)@),
{
    let list = a.open()->0;
    let g = a.floats.math();
    let f = a.floats.shown();
    lemma_steps(list, list.len() as int, start(a.db), key_limit(a.db), g, f);
    let sts = steps(list, list.len() as int, start(a.db), key_limit(a.db), g, f);
    assert(ends_in(list, sts, start(a.db), key_limit(a.db), g, f));
    assert(sts.last() == sts[list.len() as int]);
}

} // verus!
