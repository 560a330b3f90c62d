//! What a column reference means, in one table and in a join.

use vstd::prelude::*;

use crate::ast::Name;
use crate::catalog::{key_spots, lemma_key_spots, lemma_spot, spot, Col, Tab};
use crate::encoding::Val;
use crate::exec_error::Fail;
use crate::join::{havers, joint_names, lemma_resolved, named, width};
use crate::rows::{pk_of, row_names};

verus! {

/// A reference means the first column of that name, and where it says a
/// table, only in that table.
pub proof fn law_names_mean_columns(t: Tab, row: Seq<Val>, n: Name)
    ensures
        match row_names(t, row)(n) {
            Ok(v) => {
                &&& n.table matches Some(q) ==> q == t.name
                &&& exists|p: int|
                    {
                        &&& 0 <= p < t.columns.len()
                        &&& (#[trigger] t.columns[p]).name == n.column
                        &&& v == row[p]
                        &&& forall|k: int| 0 <= k < p ==> (#[trigger] t.columns[k]).name != n.column
                    }
            },
            Err(e) => {
                &&& e is Plan
                &&& (n.table matches Some(q) && q != t.name) || forall|p: int|
                    0 <= p < t.columns.len() ==> (#[trigger] t.columns[p]).name != n.column
            },
        },
{
    lemma_spot(t.columns, n.column);
    if row_names(t, row)(n) is Ok {
        let p = spot(t.columns, n.column)->0;
        assert(t.columns[p].name == n.column);
    }
}

/// Two rows have the same primary key exactly where they have the same value
/// in every key column.
pub proof fn law_keys_are_the_key_columns(cs: Seq<Col>, a: Seq<Val>, b: Seq<Val>)
    ensures
        pk_of(cs, a) == pk_of(cs, b) <==> forall|p: int|
            0 <= p < cs.len() && (#[trigger] cs[p]).key ==> a[p] == b[p],
{
    lemma_key_spots(cs);
    let s = key_spots(cs);
    if pk_of(cs, a) == pk_of(cs, b) {
        assert forall|p: int| 0 <= p < cs.len() && (#[trigger] cs[p]).key implies a[p] == b[p] by {
            assert(s.contains(p));
            let i = choose|i: int| 0 <= i < s.len() && s[i] == p;
            assert(pk_of(cs, a)[i] == pk_of(cs, b)[i]);
        }
    }
    if forall|p: int| 0 <= p < cs.len() && (#[trigger] cs[p]).key ==> a[p] == b[p] {
        assert forall|i: int| 0 <= i < s.len() implies a[s[i]] == b[s[i]] by {
            assert(cs[s[i]].key);
        }
        assert(pk_of(cs, a) =~= pk_of(cs, b));
    }
}

/// The values of a primary key stand in the order of their columns.
pub proof fn law_keys_go_by_column(cs: Seq<Col>, row: Seq<Val>, i: int, j: int)
    requires
        0 <= i < j < pk_of(cs, row).len(),
    ensures
        exists|p: int, q: int|
            #![trigger cs[p], cs[q]]
            {
                &&& 0 <= p < q < cs.len()
                &&& cs[p].key
                &&& cs[q].key
                &&& pk_of(cs, row)[i] == row[p]
                &&& pk_of(cs, row)[j] == row[q]
            },
{
    lemma_key_spots(cs);
    let s = key_spots(cs);
    assert(cs[s[i]].key && cs[s[j]].key);
}

/// In the rows of the first table of a join names mean what they mean in
/// that table.
pub proof fn law_one_table_joins_to_itself(ts: Seq<Tab>, row: Seq<Val>, r: Name)
    requires
        ts.len() > 0,
    ensures
        joint_names(ts, 1, row)(r) == row_names(ts[0], row)(r),
{
    reveal_with_fuel(named, 3);
    reveal_with_fuel(havers, 3);
    reveal_with_fuel(width, 3);
}

/// Whether one of the first `n` tables has that name.
pub open spec fn table_among(ts: Seq<Tab>, n: int, name: Seq<char>) -> bool {
    exists|i: int| 0 <= i < n && (#[trigger] ts[i]).name == name
}

/// Whether one of the first `n` tables has a column of that name.
pub open spec fn column_among(ts: Seq<Tab>, n: int, column: Seq<char>) -> bool {
    exists|i: int, p: int|
        #![trigger ts[i].columns[p]]
        0 <= i < n && 0 <= p < ts[i].columns.len() && ts[i].columns[p].name == column
}

proof fn lemma_not_named(ts: Seq<Tab>, n: int, name: Seq<char>)
    requires
        0 <= n <= ts.len(),
    ensures
        named(ts, n, name) is Some <==> table_among(ts, n, name),
    decreases n,
{
    if n > 0 {
        lemma_not_named(ts, n - 1, name);
        if named(ts, n, name) is Some {
            if named(ts, n - 1, name) is Some {
                let i = choose|i: int| 0 <= i < n - 1 && (#[trigger] ts[i]).name == name;
                assert(ts[i].name == name);
            } else {
                assert(ts[n - 1].name == name);
            }
        }
        if table_among(ts, n, name) {
            let i = choose|i: int| 0 <= i < n && (#[trigger] ts[i]).name == name;
            if i < n - 1 {
                assert(table_among(ts, n - 1, name));
            }
        }
    }
}

proof fn lemma_no_haver(ts: Seq<Tab>, n: int, column: Seq<char>)
    requires
        0 <= n <= ts.len(),
    ensures
        havers(ts, n, column).len() == 0 <==> !column_among(ts, n, column),
    decreases n,
{
    if n > 0 {
        lemma_no_haver(ts, n - 1, column);
        lemma_spot(ts[n - 1].columns, column);
        if spot(ts[n - 1].columns, column) is Some {
            let p = spot(ts[n - 1].columns, column)->0;
            assert(ts[n - 1].columns[p].name == column);
        } else {
            if column_among(ts, n, column) {
                let (i, p) = choose|i: int, p: int|
                    #![trigger ts[i].columns[p]]
                    0 <= i < n && 0 <= p < ts[i].columns.len() && ts[i].columns[p].name == column;
                assert(i < n - 1);
                assert(ts[i].columns[p].name == column);
            }
            if column_among(ts, n - 1, column) {
                let (i, p) = choose|i: int, p: int|
                    #![trigger ts[i].columns[p]]
                    0 <= i < n - 1 && 0 <= p < ts[i].columns.len() && ts[i].columns[p].name
                        == column;
                assert(ts[i].columns[p].name == column);
            }
        }
    }
}

/// Joining one more table leaves every name its meaning that says an earlier
/// table, gives the names that say the new table the new values, and makes a
/// bare name ambiguous that both sides have.
pub proof fn law_joining_extends_names(ts: Seq<Tab>, n: int, left: Seq<Val>, right: Seq<Val>, r: Name)
    requires
        0 < n < ts.len(),
        left.len() == width(ts, n),
        right.len() == ts[n].columns.len(),
    ensures
        ({
            let now = joint_names(ts, n + 1, left + right)(r);
            match r.table {
                Some(q) => if table_among(ts, n, q) {
                    now == joint_names(ts, n, left)(r)
                } else {
                    now == row_names(ts[n], right)(r)
                },
                None => if !column_among(ts, n, r.column) {
                    now == row_names(ts[n], right)(r)
                } else if spot(ts[n].columns, r.column) is None {
                    now == joint_names(ts, n, left)(r)
                } else {
                    now == Err::<Val, Fail>(Fail::Plan)
                },
            }
        }),
{
    lemma_resolved(ts, n, r);
    lemma_spot(ts[n].columns, r.column);
    match r.table {
        Some(q) => {
            lemma_not_named(ts, n, q);
        },
        None => {
            lemma_no_haver(ts, n, r.column);
            let h = havers(ts, n, r.column);
            if h.len() == 0 {
                assert(h =~= Seq::<int>::empty());
            }
        },
    }
}

} // verus!
