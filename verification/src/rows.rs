//! Keys and rows: where the rows of a table and the entries of an index
//! stand in the data tree, and what a column name means inside a row.
//!
//! - row: key `(table id, primary key...)`, value = the tuple of columns
//! - index entry: key `(index id, column value, primary key...)`, no value
//!
//! Tuple encoding is order preserving and prefix friendly, so table scans
//! and index probes are plain range scans.

use vstd::prelude::*;

use crate::ast::{ColumnRef, Expr, Name, Term};
use crate::catalog::{ints, key_spots, lemma_key_spots, spot, Col, Tab, Table};
use crate::encoding::{dec_key, decode_key, enc_key, encode_key, vals, Val, Value};
use crate::exec_error::{ExecError, Fail};
use crate::strings::{join2, join3, owned, same_text, u64_text};
use crate::value_ops::Scope;

verus! {

/// An object id as it stands in a key.
pub open spec fn id_val(id: u64) -> Val {
    Val::Int(id as i64)
}

/// What every key of a table, or of an index, starts with.
pub open spec fn range_at(id: u64) -> Seq<u8> {
    enc_key(seq![id_val(id)])
}

/// Where a row stands.
pub open spec fn row_at(id: u64, pk: Seq<Val>) -> Seq<u8> {
    enc_key(seq![id_val(id)] + pk)
}

/// Where an index entry stands.
pub open spec fn entry_at(id: u64, v: Val, pk: Seq<Val>) -> Seq<u8> {
    enc_key(seq![id_val(id), v] + pk)
}

/// What the index entries of one value start with.
pub open spec fn probe_at(id: u64, v: Val) -> Seq<u8> {
    enc_key(seq![id_val(id), v])
}

/// The primary key of a row.
pub open spec fn pk_of(cs: Seq<Col>, row: Seq<Val>) -> Seq<Val> {
    Seq::new(key_spots(cs).len(), |i: int| row[key_spots(cs)[i]])
}

/// The row that stored bytes spell, if they are one.
pub open spec fn row_of(cs: Seq<Col>, b: Seq<u8>) -> Option<Seq<Val>> {
    match dec_key(b) {
        Some(vs) => if vs.len() == cs.len() {
            Some(vs)
        } else {
            None
        },
        None => None,
    }
}

/// Every row and every entry starts with the id it belongs to, and an entry
/// with the value it stands for.
pub proof fn law_keys_start_with_their_object(id: u64, v: Val, pk: Seq<Val>)
    ensures
        row_at(id, pk) == range_at(id) + enc_key(pk),
        entry_at(id, v, pk) == probe_at(id, v) + enc_key(pk),
        entry_at(id, v, pk) == range_at(id) + enc_key(seq![v] + pk),
{
    crate::encoding::law_tuple_prefix(seq![id_val(id)], pk);
    crate::encoding::law_tuple_prefix(seq![id_val(id), v], pk);
    crate::encoding::law_tuple_prefix(seq![id_val(id)], seq![v] + pk);
    assert(seq![id_val(id)] + (seq![v] + pk) =~= seq![id_val(id), v] + pk);
}

/// Two rows of one table share a key only if they share a primary key; two
/// entries only if they agree on value and primary key.
pub proof fn law_keys_are_distinct(
    id: u64,
    v: Val,
    pk: Seq<Val>,
    w: Val,
    other: Seq<Val>,
)
    ensures
        row_at(id, pk) == row_at(id, other) ==> pk == other,
        entry_at(id, v, pk) == entry_at(id, w, other) ==> v == w && pk == other,
{
    if row_at(id, pk) == row_at(id, other) {
        let a = seq![id_val(id)] + pk;
        let b = seq![id_val(id)] + other;
        crate::encoding::law_encode_injective(a, b);
        assert(a.skip(1) =~= pk);
        assert(b.skip(1) =~= other);
    }
    if entry_at(id, v, pk) == entry_at(id, w, other) {
        let a = seq![id_val(id), v] + pk;
        let b = seq![id_val(id), w] + other;
        crate::encoding::law_encode_injective(a, b);
        assert(a[1] == v && b[1] == w);
        assert(a.skip(2) =~= pk);
        assert(b.skip(2) =~= other);
    }
}

fn id_value(id: u64) -> (r: Value)
    ensures
        r@ == id_val(id),
{
    Value::Int(id as i64)
}

/// Equal values, one for one.
pub fn copy_values(from: &[Value]) -> (r: Vec<Value>)
    ensures
        vals(r@) == vals(from@),
{
    let mut out: Vec<Value> = Vec::new();
    append_values(&mut out, from);
    proof {
        assert(vals(out@) =~= vals(from@));
    }
    out
}

/// Append equal values.
pub fn append_values(out: &mut Vec<Value>, from: &[Value])
    ensures
        vals(final(out)@) == vals(old(out)@) + vals(from@),
        final(out)@.len() == old(out)@.len() + from@.len(),
{
    let len: usize = from.len();
    let ghost start = out@;
    for i in 0..len
        invariant
            len == from@.len(),
            out@.len() == start.len() + i,
            forall|k: int| 0 <= k < start.len() ==> (#[trigger] out@[k])@ == start[k]@,
            forall|k: int|
                start.len() <= k < start.len() + i ==> (#[trigger] out@[k])@ == from@[k
                    - start.len()]@,
    {
        out.push(from[i].duplicate());
    }
    proof {
        assert(vals(out@) =~= vals(start) + vals(from@));
    }
}

pub fn object_prefix(id: u64) -> (r: Vec<u8>)
    ensures
        r@ == range_at(id),
{
    let parts: Vec<Value> = vec![id_value(id)];
    proof {
        assert(vals(parts@) =~= seq![id_val(id)]);
    }
    encode_key(parts.as_slice())
}

pub fn row_key(id: u64, pk: &[Value]) -> (r: Vec<u8>)
    ensures
        r@ == row_at(id, vals(pk@)),
{
    let mut parts: Vec<Value> = vec![id_value(id)];
    let ghost head = parts@;
    append_values(&mut parts, pk);
    proof {
        assert(vals(head) =~= seq![id_val(id)]);
    }
    encode_key(parts.as_slice())
}

pub fn index_entry_key(id: u64, value: &Value, pk: &[Value]) -> (r: Vec<u8>)
    ensures
        r@ == entry_at(id, value@, vals(pk@)),
{
    let mut parts: Vec<Value> = vec![id_value(id), value.duplicate()];
    let ghost head = parts@;
    append_values(&mut parts, pk);
    proof {
        assert(vals(head) =~= seq![id_val(id), value@]);
    }
    encode_key(parts.as_slice())
}

pub fn probe_prefix(id: u64, value: &Value) -> (r: Vec<u8>)
    ensures
        r@ == probe_at(id, value@),
{
    let parts: Vec<Value> = vec![id_value(id), value.duplicate()];
    proof {
        assert(vals(parts@) =~= seq![id_val(id), value@]);
    }
    encode_key(parts.as_slice())
}

/// The primary key of a row.
pub fn row_pk(table: &Table, values: &[Value]) -> (r: Vec<Value>)
    requires
        values@.len() == table@.columns.len(),
    ensures
        vals(r@) == pk_of(table@.columns, vals(values@)),
{
    let keys: Vec<usize> = table.key_positions();
    let len: usize = keys.len();
    let mut out: Vec<Value> = Vec::new();
    proof {
        lemma_key_spots(table@.columns);
        assert forall|i: int| 0 <= i < keys@.len() implies #[trigger] keys@[i]
            < values@.len() by {
            assert(ints(keys@)[i] == key_spots(table@.columns)[i]);
        }
    }
    for i in 0..len
        invariant
            len == keys@.len(),
            out@.len() == i,
            forall|k: int| 0 <= k < keys@.len() ==> #[trigger] keys@[k] < values@.len(),
            forall|k: int| 0 <= k < i ==> (#[trigger] out@[k])@ == values@[keys@[k] as int]@,
    {
        out.push(values[keys[i]].duplicate());
    }
    proof {
        let want = pk_of(table@.columns, vals(values@));
        assert(want.len() == ints(keys@).len());
        assert forall|k: int| 0 <= k < want.len() implies #[trigger] vals(out@)[k] == want[k] by {
            assert(ints(keys@)[k] == key_spots(table@.columns)[k]);
            assert(out@[k]@ == values@[keys@[k] as int]@);
        }
        assert(vals(out@) =~= want);
    }
    out
}

/// The row that stored bytes spell.
pub fn decode_row(table: &Table, bytes: &[u8]) -> (r: core::result::Result<Vec<Value>, ExecError>)
    ensures
        match r {
            Ok(vs) => row_of(table@.columns, bytes@) == Some(vals(vs@)) && vs@.len()
                == table@.columns.len(),
            Err(e) => row_of(table@.columns, bytes@) is None && e.fail() is Exec,
        },
{
    match decode_key(bytes) {
        Ok(values) => {
            if values.len() != table.columns.len() {
                let head = join3(
                    "row has ",
                    u64_text(values.len() as u64).as_str(),
                    " values but table '",
                );
                let rest = join3(
                    "' has ",
                    u64_text(table.columns.len() as u64).as_str(),
                    " columns",
                );
                return Err(
                    ExecError::Exec(join3(head.as_str(), table.name.as_str(), rest.as_str())),
                );
            }
            Ok(values)
        },
        Err(_) => Err(ExecError::Exec(owned("stored row does not decode"))),
    }
}

// ---------------------------------------------------------------------
// names
// ---------------------------------------------------------------------

/// Which column of a single table a reference means. A qualifier must name
/// that table.
pub open spec fn place(t: Tab, n: Name) -> Option<int> {
    if n.table is Some && n.table->0 != t.name {
        None
    } else {
        spot(t.columns, n.column)
    }
}

/// What names mean inside a row of one table.
pub open spec fn row_names(t: Tab, row: Seq<Val>) -> spec_fn(Name) -> core::result::Result<
    Val,
    Fail,
> {
    |n: Name|
        match place(t, n) {
            Some(i) => Ok(row[i]),
            None => Err(Fail::Plan),
        }
}

/// Whether every column an expression mentions exists.
pub open spec fn known(t: Tab, e: Term) -> bool
    decreases e,
{
    match e {
        Term::Literal(_) => true,
        Term::Column(n) => place(t, n) is Some,
        Term::Unary(_, x) => known(t, *x),
        Term::Binary(l, _, r) => known(t, *l) && known(t, *r),
    }
}

/// Resolve a reference against one table, or nothing.
pub fn place_of(table: &Table, r: &ColumnRef) -> (o: Option<usize>)
    ensures
        match o {
            Some(i) => place(table@, r@) == Some(i as int) && i < table@.columns.len(),
            None => place(table@, r@) is None,
        },
{
    if let Some(t) = &r.table {
        if !same_text(t.as_str(), table.name.as_str()) {
            return None;
        }
    }
    table.column_position(r.column.as_str())
}

/// Why a reference means no column of a table.
pub open spec fn misplaced(t: Tab, n: Name) -> Seq<char> {
    if n.table matches Some(q) && q != t.name {
        "no table named '"@ + n.table->0 + "' in this statement"@
    } else {
        "table '"@ + t.name + "' has no column '"@ + (n.column + "'"@)
    }
}

/// Resolve a reference against a single-table statement.
pub fn position_in(table: &Table, r: &ColumnRef) -> (o: core::result::Result<usize, ExecError>)
    ensures
        match o {
            Ok(i) => place(table@, r@) == Some(i as int) && i < table@.columns.len(),
            Err(e) => place(table@, r@) is None && e.fail() is Plan && e.text() == misplaced(
                table@,
                r@,
            ),
        },
{
    if let Some(t) = &r.table {
        if !same_text(t.as_str(), table.name.as_str()) {
            return Err(
                ExecError::Plan(join3("no table named '", t.as_str(), "' in this statement")),
            );
        }
    }
    match table.column_position(r.column.as_str()) {
        Some(i) => Ok(i),
        None => Err(no_column(table.name.as_str(), r.column.as_str())),
    }
}

/// The complaint about a column a table does not have.
pub fn no_column(table: &str, column: &str) -> (r: ExecError)
    ensures
        r.fail() is Plan,
        r.text() == "table '"@ + table@ + "' has no column '"@ + (column@ + "'"@),
{
    ExecError::Plan(
        join2(join3("table '", table, "' has no column '").as_str(), join2(column, "'").as_str()),
    )
}

/// Every column reference in the expression must exist, checked up front so
/// an empty table still reports the typo.
pub fn validate_columns(table: &Table, expr: &Expr) -> (r: core::result::Result<(), ExecError>)
    ensures
        match r {
            Ok(_) => known(table@, expr@),
            Err(e) => !known(table@, expr@) && e.fail() is Plan,
        },
    decreases expr,
{
    match expr {
        Expr::Literal(_) => Ok(()),
        Expr::Column(r) => match position_in(table, r) {
            Ok(_) => Ok(()),
            Err(e) => Err(e),
        },
        Expr::Unary(_, inner) => validate_columns(table, inner),
        Expr::Binary(l, _, r) => match validate_columns(table, l) {
            Ok(_) => validate_columns(table, r),
            Err(e) => Err(e),
        },
    }
}

/// One row of one table, as a scope.
pub struct RowScope<'a> {
    pub table: &'a Table,
    pub values: &'a Vec<Value>,
}

impl<'a> Scope for RowScope<'a> {
    open spec fn holds(&self) -> spec_fn(Name) -> core::result::Result<Val, Fail> {
        row_names(self.table@, vals(self.values@))
    }

    open spec fn ready(&self) -> bool {
        self.values@.len() == self.table@.columns.len()
    }

    fn column(&self, name: &ColumnRef) -> (r: core::result::Result<Value, ExecError>) {
        match position_in(self.table, name) {
            Ok(i) => {
                proof {
                    assert(vals(self.values@)[i as int] == self.values@[i as int]@);
                }
                Ok(self.values[i].duplicate())
            },
            Err(e) => Err(e),
        }
    }
}

} // verus!
