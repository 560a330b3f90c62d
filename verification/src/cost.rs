//! How much a statement writes, and how far a file grows by it.

use vstd::prelude::*;

use crate::ast::{opt_term, Assign, Expr, Statement, TableDef, Term};
use crate::catalog::{spot, table_from, table_stored, Col, Tab};
use crate::effects::{
    assigned, built, id_taken, index_set, indexed, next_id, selected, unindexed, without, State,
};
use crate::encoding::enc_key;
use crate::page::MAX_PAGES;
use crate::pager::{Pager, ReadPages};
use crate::plan::Path;
use crate::query::{reached, Hit};
use crate::rows::range_at;
use crate::source::{listing, table_in};
use crate::storage::Storage;
use crate::store::Bytes;
use crate::value_ops::Math;

verus! {

/// How many writes, and how many bytes of values among them.
pub type Cost = (nat, nat);

pub open spec fn plus(a: Cost, b: Cost) -> Cost {
    (a.0 + b.0, a.1 + b.1)
}

// ---------------------------------------------------------------------
// statements
// ---------------------------------------------------------------------

/// What creating a table writes at most: an id for the table and for each
/// index, and the definition.
pub open spec fn create_cost(st: State, def: TableDef, lim: int) -> Cost {
    let n = def.columns@.len();
    let stored: nat = match id_taken(st, lim) {
        Err(_) => 0,
        Ok(s) => match indexed(
            s,
            table_from(def, next_id(st.schema)->Ok_0),
            def.columns@,
            n as int,
            lim,
        ) {
            Err(_) => 0,
            Ok((_, t)) => table_stored(t).len(),
        },
    };
    (n + 2, 8 * (n + 1) + stored)
}

/// How many entries the indexes of the first `n` columns have.
pub open spec fn index_entries(m: Bytes, cs: Seq<Col>, n: int) -> nat
    decreases n,
{
    if n <= 0 {
        0
    } else {
        index_entries(m, cs, n - 1) + (match cs[n - 1].index_id {
            Some(id) => listing(unindexed(m, cs, n - 1), range_at(id)).len(),
            None => 0,
        })
    }
}

/// What dropping a table writes: its rows, its entries and its definition
/// are taken away.
pub open spec fn drop_cost(st: State, name: Seq<char>) -> Cost {
    match table_in(st.schema, name) {
        Err(_) => (0, 0),
        Ok(t) => (
            listing(st.data, range_at(t.id)).len() + index_entries(
                without(st.data, range_at(t.id)),
                t.columns,
                t.columns.len() as int,
            ) + 1,
            0,
        ),
    }
}

/// What an index on a column writes at most: its id, an entry per row and
/// the new definition.
pub open spec fn index_cost(st: State, name: Seq<char>, column: Seq<char>) -> Cost {
    match table_in(st.schema, name) {
        Err(_) => (0, 0),
        Ok(t) => match spot(t.columns, column) {
            None => (0, 0),
            Some(pos) => {
                let u = index_set(t, pos, next_id(st.schema)->Ok_0);
                let rows: nat = match reached(st.data, u, Path::SeqScan) {
                    Ok(h) => h.len(),
                    Err(_) => 0,
                };
                (rows + 2, 8 + table_stored(u).len())
            },
        },
    }
}

/// The bytes of the first `n` rows to put.
pub open spec fn put_bytes(t: Tab, rows: Seq<Vec<(String, Expr)>>, n: int, g: Math) -> nat
    decreases n,
{
    if n <= 0 {
        0
    } else {
        put_bytes(t, rows, n - 1, g) + (match built(t, rows[n - 1]@, g) {
            Ok(row) => enc_key(row).len(),
            Err(_) => 0,
        })
    }
}

/// What adding rows writes at most: each row, and an entry per column.
pub open spec fn put_cost(
    st: State,
    name: Seq<char>,
    rows: Seq<Vec<(String, Expr)>>,
    g: Math,
) -> Cost {
    match table_in(st.schema, name) {
        Err(_) => (0, 0),
        Ok(t) => (
            rows.len() * (t.columns.len() + 1),
            put_bytes(t, rows, rows.len() as int, g),
        ),
    }
}

/// What deleting rows writes at most.
pub open spec fn del_cost(st: State, name: Seq<char>, filter: Option<Term>, g: Math) -> Cost {
    match selected(st, name, filter, g) {
        Err(_) => (0, 0),
        Ok((t, h)) => (h.len() * (t.columns.len() + 1), 0),
    }
}

/// The bytes of some rows once they are changed.
pub open spec fn set_bytes(t: Tab, h: Seq<Hit>, assigns: Seq<Assign>, g: Math) -> nat
    decreases h.len(),
{
    if h.len() == 0 {
        0
    } else {
        set_bytes(t, h.drop_last(), assigns, g) + (match assigned(
            t,
            h.last().1,
            assigns,
            assigns.len() as int,
            g,
        ) {
            Ok(row) => enc_key(row).len(),
            Err(_) => 0,
        })
    }
}

/// What changing rows writes at most: each row, and two entries per column.
pub open spec fn set_cost(
    st: State,
    name: Seq<char>,
    filter: Option<Term>,
    assigns: Seq<Assign>,
    g: Math,
) -> Cost {
    match selected(st, name, filter, g) {
        Err(_) => (0, 0),
        Ok((t, h)) => (h.len() * (2 * t.columns.len() + 1), set_bytes(t, h, assigns, g)),
    }
}

/// What a statement writes at most.
#[verifier::opaque]
pub open spec fn cost_of(st: State, s: Statement, lim: int, g: Math) -> Cost {
    match s {
        Statement::TableDef(def) => create_cost(st, def, lim),
        Statement::DropTable { name } => drop_cost(st, name@),
        Statement::IndexDef { table, column } => index_cost(st, table@, column@),
        Statement::Put { table, rows } => put_cost(st, table@, rows@, g),
        Statement::Update { table, filter, assigns } => set_cost(
            st,
            table@,
            opt_term(filter),
            assigns@,
            g,
        ),
        Statement::Del { table, filter } => del_cost(st, table@, opt_term(filter), g),
        _ => (0, 0),
    }
}

pub proof fn lemma_put_bytes(t: Tab, rows: Seq<Vec<(String, Expr)>>, a: int, b: int, g: Math)
    requires
        0 <= a <= b,
    ensures
        put_bytes(t, rows, a, g) <= put_bytes(t, rows, b, g),
    decreases b - a,
{
    if a < b {
        lemma_put_bytes(t, rows, a, b - 1, g);
    }
}

pub proof fn lemma_set_bytes(t: Tab, h: Seq<Hit>, assigns: Seq<Assign>, g: Math, a: int, b: int)
    requires
        0 <= a <= b <= h.len(),
    ensures
        set_bytes(t, h.take(a), assigns, g) <= set_bytes(t, h.take(b), assigns, g),
    decreases b - a,
{
    if a < b {
        lemma_set_bytes(t, h, assigns, g, a, b - 1);
        assert(h.take(b).drop_last() =~= h.take(b - 1));
    }
}

pub proof fn lemma_index_entries(m: Bytes, cs: Seq<Col>, a: int, b: int)
    requires
        0 <= a <= b,
    ensures
        index_entries(m, cs, a) <= index_entries(m, cs, b),
    decreases b - a,
{
    if a < b {
        lemma_index_entries(m, cs, a, b - 1);
    }
}

/// So many times as much, one more time.
pub proof fn lemma_once_more(i: nat, n: nat, c: nat)
    requires
        i < n,
    ensures
        (i + 1) * c == i * c + c,
        (i + 1) * c <= n * c,
{
    assert((i + 1) * c == i * c + c) by (nonlinear_arith);
    assert((i + 1) * c <= n * c) by (nonlinear_arith)
        requires
            i + 1 <= n,
    ;
}

// ---------------------------------------------------------------------
// pages
// ---------------------------------------------------------------------

pub open spec fn pow3(w: nat) -> nat
    decreases w,
{
    if w == 0 {
        1
    } else {
        3 * pow3((w - 1) as nat)
    }
}

/// How many pages a file of `n` has at most after some writes.
pub open spec fn reach(n: int, c: Cost) -> int {
    pow3(c.0) * (n + c.1 + 2 * c.0)
}

/// One more write.
pub proof fn lemma_reach_step(n: int, c: Cost, len: nat, x: int, y: int)
    requires
        0 <= n,
        x <= reach(n, c),
        y <= 3 * (x + len + 1) + 1,
    ensures
        y <= reach(n, (c.0 + 1, c.1 + len)),
{
    lemma_pow3(c.0, c.0);
    let p = pow3(c.0) as int;
    let q = n + c.1 + 2 * c.0;
    assert(pow3(c.0 + 1) == 3 * p);
    assert(3 * (p * q + len + 1) + 1 <= (3 * p) * (q + len + 2)) by (nonlinear_arith)
        requires
            p >= 1,
            len >= 0,
            q >= 0,
    ;
}

proof fn lemma_pow3(a: nat, b: nat)
    requires
        a <= b,
    ensures
        1 <= pow3(a) <= pow3(b),
    decreases b,
{
    if b > 0 {
        if a < b {
            lemma_pow3(a, (b - 1) as nat);
        } else {
            lemma_pow3((a - 1) as nat, (b - 1) as nat);
        }
    }
}

/// More writes reach further.
pub proof fn lemma_reach_more(n: int, c: Cost, d: Cost)
    requires
        0 <= n,
        c.0 <= d.0,
        c.1 <= d.1,
    ensures
        0 <= reach(n, c) <= reach(n, d),
{
    lemma_pow3(c.0, d.0);
    let p = pow3(c.0) as int;
    let q = pow3(d.0) as int;
    let x = n + c.1 + 2 * c.0;
    let y = n + d.1 + 2 * d.0;
    assert(0 <= p * x <= q * y) by (nonlinear_arith)
        requires
            1 <= p <= q,
            0 <= x <= y,
    ;
}

/// Whether a file has room for some writes and the commit after them.
pub open spec fn has_room<S: Storage>(p: Pager<S>, c: Cost) -> bool {
    let most = 4 * reach(p.meta().page_count as int, c) + 100;
    &&& most < MAX_PAGES
    &&& most * p.size() <= usize::MAX
    &&& p.meta().txid < u64::MAX
}

/// A file with room for more writes has room for fewer.
pub proof fn law_room_for_less<S: Storage>(p: Pager<S>, c: Cost, d: Cost)
    requires
        has_room(p, d),
        c.0 <= d.0,
        c.1 <= d.1,
    ensures
        has_room(p, c),
{
    lemma_reach_more(p.meta().page_count as int, c, d);
    let x = 4 * reach(p.meta().page_count as int, c) + 100;
    let y = 4 * reach(p.meta().page_count as int, d) + 100;
    let s = p.size() as int;
    assert(x * s <= y * s) by (nonlinear_arith)
        requires
            x <= y,
            s >= 0,
    ;
}

} // verus!
