//! The catalog: table definitions living in the catalog tree.
//!
//! Catalog keys use the same tuple encoding as everything else:
//!
//! - `("seq")` holds the next object id (tables and indexes share one
//!   counter, ids never repeat)
//! - `("table", name)` holds the serialized table definition
//!
//! Because the catalog tree and the data tree commit through the same meta,
//! schema changes are atomic with the data they affect, and time travel
//! sees the schema as it was.

use vstd::prelude::*;
use vstd::utf8::{decode_utf8, encode_utf8, valid_utf8};

use crate::ast::{ColumnDef, TableDef, TypeName};
use crate::bytes::{
    get_u16, get_u32, get_u64, le_bytes, lemma_field16, lemma_field32, lemma_field64,
    lemma_pow256_values, put_all, put_le, sub_vec, u16_at, u32_at, u64_at,
};
use crate::encoding::{
    dec_key, decode_key, enc_key, encode_key, law_decode_inverts_encode, vals, Val, Value,
};
use crate::exec_error::ExecError;
use crate::strings::{join2, join3, owned, same_text, text_from_utf8};
use crate::value_ops::{coerce, fitted};

verus! {

#[derive(Debug, PartialEq)]
pub struct Table {
    pub id: u64,
    pub name: String,
    pub columns: Vec<Column>,
}

#[derive(Debug, PartialEq)]
pub struct Column {
    pub name: String,
    pub ty: TypeName,
    pub nullable: bool,
    pub key: bool,
    /// Object id of this column's secondary index, if one exists.
    pub index_id: Option<u64>,
    pub default: Option<Value>,
}

/// What a column definition says.
#[verifier::ext_equal]
pub struct Col {
    pub name: Seq<char>,
    pub ty: TypeName,
    pub nullable: bool,
    pub key: bool,
    pub index_id: Option<u64>,
    pub default: Option<Val>,
}

/// What a table definition says.
#[verifier::ext_equal]
pub struct Tab {
    pub id: u64,
    pub name: Seq<char>,
    pub columns: Seq<Col>,
}

/// The value behind an optional one.
pub open spec fn opt_val(v: Option<Value>) -> Option<Val> {
    match v {
        Some(x) => Some(x@),
        None => None,
    }
}

impl View for Column {
    type V = Col;

    open spec fn view(&self) -> Col {
        Col {
            name: self.name@,
            ty: self.ty,
            nullable: self.nullable,
            key: self.key,
            index_id: self.index_id,
            default: opt_val(self.default),
        }
    }
}

pub open spec fn cols(s: Seq<Column>) -> Seq<Col> {
    Seq::new(s.len(), |i: int| s[i]@)
}

impl View for Table {
    type V = Tab;

    open spec fn view(&self) -> Tab {
        Tab { id: self.id, name: self.name@, columns: cols(self.columns@) }
    }
}

/// Positions as numbers.
pub open spec fn ints(s: Seq<usize>) -> Seq<int> {
    Seq::new(s.len(), |i: int| s[i] as int)
}

/// Positions of the primary key columns, in declaration order.
pub open spec fn key_spots(cs: Seq<Col>) -> Seq<int>
    decreases cs.len(),
{
    if cs.len() == 0 {
        Seq::empty()
    } else if cs.last().key {
        key_spots(cs.drop_last()).push(cs.len() - 1)
    } else {
        key_spots(cs.drop_last())
    }
}

/// The first column of that name.
pub open spec fn spot(cs: Seq<Col>, name: Seq<char>) -> Option<int>
    decreases cs.len(),
{
    if cs.len() == 0 {
        None
    } else {
        match spot(cs.drop_last(), name) {
            Some(i) => Some(i),
            None => if cs.last().name == name {
                Some(cs.len() - 1)
            } else {
                None
            },
        }
    }
}

/// The key columns are key columns, each listed once and in order.
pub proof fn lemma_key_spots(cs: Seq<Col>)
    ensures
        forall|i: int|
            0 <= i < key_spots(cs).len() ==> 0 <= #[trigger] key_spots(cs)[i] < cs.len()
                && cs[key_spots(cs)[i]].key,
        forall|i: int, j: int|
            0 <= i < j < key_spots(cs).len() ==> #[trigger] key_spots(cs)[i]
                < #[trigger] key_spots(cs)[j],
        forall|p: int|
            0 <= p < cs.len() && #[trigger] cs[p].key ==> key_spots(cs).contains(p),
        key_spots(cs).len() <= cs.len(),
    decreases cs.len(),
{
    if cs.len() > 0 {
        let less = cs.drop_last();
        lemma_key_spots(less);
        let a = key_spots(less);
        let b = key_spots(cs);
        assert forall|i: int| 0 <= i < b.len() implies 0 <= #[trigger] b[i] < cs.len()
            && cs[b[i]].key by {
            if i < a.len() {
                assert(b[i] == a[i]);
                assert(less[a[i]] == cs[a[i]]);
            }
        }
        assert forall|i: int, j: int| 0 <= i < j < b.len() implies #[trigger] b[i]
            < #[trigger] b[j] by {
            assert(b[i] == a[i]);
            if j < a.len() {
                assert(b[j] == a[j]);
            }
        }
        assert forall|p: int| 0 <= p < cs.len() && #[trigger] cs[p].key implies b.contains(p) by {
            if p < less.len() {
                assert(less[p] == cs[p]);
                assert(a.contains(p));
                let i = choose|i: int| 0 <= i < a.len() && a[i] == p;
                assert(b[i] == p);
            } else {
                assert(b[b.len() - 1] == p);
            }
        }
    }
}

/// A column found by name has that name, and no earlier one does.
pub proof fn lemma_spot(cs: Seq<Col>, name: Seq<char>)
    ensures
        match spot(cs, name) {
            Some(i) => 0 <= i < cs.len() && cs[i].name == name && forall|j: int|
                0 <= j < i ==> (#[trigger] cs[j]).name != name,
            None => forall|j: int| 0 <= j < cs.len() ==> (#[trigger] cs[j]).name != name,
        },
    decreases cs.len(),
{
    if cs.len() > 0 {
        let less = cs.drop_last();
        lemma_spot(less, name);
        match spot(less, name) {
            Some(i) => {
                assert forall|j: int| 0 <= j < i implies (#[trigger] cs[j]).name != name by {
                    assert(less[j] == cs[j]);
                }
            },
            None => {
                assert forall|j: int| 0 <= j < cs.len() - 1 implies (#[trigger] cs[j]).name
                    != name by {
                    assert(less[j] == cs[j]);
                }
            },
        }
    }
}

impl Table {
    /// Positions of the primary key columns, in declaration order.
    pub fn key_positions(&self) -> (r: Vec<usize>)
        ensures
            ints(r@) == key_spots(self@.columns),
    {
        let mut out: Vec<usize> = Vec::new();
        let len: usize = self.columns.len();
        let ghost cs = self@.columns;
        proof {
            assert(ints(out@) =~= key_spots(cs.take(0)));
        }
        for i in 0..len
            invariant
                len == self.columns@.len(),
                cs == self@.columns,
                ints(out@) == key_spots(cs.take(i as int)),
        {
            proof {
                let now = cs.take(i as int + 1);
                assert(now.drop_last() =~= cs.take(i as int));
                assert(now.last() == self.columns@[i as int]@);
            }
            if self.columns[i].key {
                let ghost before = out@;
                out.push(i);
                proof {
                    assert(ints(out@) =~= ints(before).push(i as int));
                }
            }
        }
        proof {
            assert(cs.take(len as int) =~= cs);
        }
        out
    }

    pub fn column_position(&self, name: &str) -> (r: Option<usize>)
        ensures
            match r {
                Some(i) => spot(self@.columns, name@) == Some(i as int) && i < self.columns@.len(),
                None => spot(self@.columns, name@) is None,
            },
    {
        let len: usize = self.columns.len();
        let ghost cs = self@.columns;
        for i in 0..len
            invariant
                len == self.columns@.len(),
                cs == self@.columns,
                spot(cs.take(i as int), name@) is None,
        {
            proof {
                let now = cs.take(i as int + 1);
                assert(now.drop_last() =~= cs.take(i as int));
                assert(now.last() == self.columns@[i as int]@);
            }
            if same_text(self.columns[i].name.as_str(), name) {
                proof {
                    lemma_spot_grows(cs, name@, i as int + 1);
                }
                return Some(i);
            }
        }
        proof {
            assert(cs.take(len as int) =~= cs);
        }
        None
    }
}

/// What is found among the first columns is found among all.
proof fn lemma_spot_grows(cs: Seq<Col>, name: Seq<char>, n: int)
    requires
        0 <= n <= cs.len(),
        spot(cs.take(n), name) is Some,
    ensures
        spot(cs, name) == spot(cs.take(n), name),
    decreases cs.len() - n,
{
    if n < cs.len() {
        assert(cs.take(n + 1).drop_last() =~= cs.take(n));
        lemma_spot_grows(cs, name, n + 1);
    } else {
        assert(cs.take(n) =~= cs);
    }
}

// ---------------------------------------------------------------------
// definitions
// ---------------------------------------------------------------------

/// A column as declared, before it gets an index.
pub open spec fn declared(d: ColumnDef) -> Col {
    Col {
        name: d.name@,
        ty: d.ty,
        nullable: d.nullable,
        key: d.key,
        index_id: None,
        default: match d.default {
            Some(v) => match fitted(v@, d.ty, d.nullable) {
                Ok(x) => Some(x),
                Err(_) => None,
            },
            None => None,
        },
    }
}

/// A column that can stand in a table: a key is never null, a default fits.
pub open spec fn column_ok(d: ColumnDef) -> bool {
    &&& !(d.key && d.nullable)
    &&& d.default matches Some(v) ==> fitted(v@, d.ty, d.nullable) is Ok
}

/// A definition a table can be made of: no column twice, every column
/// usable, at least one key column.
pub open spec fn def_ok(ds: Seq<ColumnDef>) -> bool {
    &&& defs_ok(ds)
    &&& exists|i: int| 0 <= i < ds.len() && (#[trigger] ds[i]).key
}

pub open spec fn defs_ok(ds: Seq<ColumnDef>) -> bool {
    &&& forall|i: int, j: int|
        0 <= i < j < ds.len() ==> (#[trigger] ds[i]).name@ != (#[trigger] ds[j]).name@
    &&& forall|i: int| 0 <= i < ds.len() ==> column_ok(#[trigger] ds[i])
}

/// The table a definition describes.
pub open spec fn table_from(def: TableDef, id: u64) -> Tab {
    Tab {
        id,
        name: def.name@,
        columns: Seq::new(def.columns@.len(), |i: int| declared(def.columns@[i])),
    }
}

impl Table {
    /// Build a validated `Table` from a parsed definition.
    pub fn from_ast(def: &TableDef, id: u64) -> (r: core::result::Result<Table, ExecError>)
        ensures
            match r {
                Ok(t) => def_ok(def.columns@) && t@ == table_from(*def, id),
                Err(e) => !def_ok(def.columns@) && e.fail() is Plan,
            },
    {
        let mut columns: Vec<Column> = Vec::new();
        let len: usize = def.columns.len();
        let ghost ds = def.columns@;
        for i in 0..len
            invariant
                len == ds.len(),
                ds == def.columns@,
                columns@.len() == i,
                defs_ok(ds.take(i as int)),
                forall|k: int| 0 <= k < i ==> (#[trigger] columns@[k])@ == declared(ds[k]),
        {
            let col = &def.columns[i];
            for j in 0..i
                invariant
                    i < len == ds.len(),
                    ds == def.columns@,
                    *col == ds[i as int],
                    columns@.len() == i,
                    forall|k: int| 0 <= k < i ==> (#[trigger] columns@[k])@ == declared(ds[k]),
                    forall|k: int| 0 <= k < j ==> (#[trigger] ds[k]).name@ != col.name@,
            {
                proof {
                    assert(columns@[j as int]@ == declared(ds[j as int]));
                    assert(columns@[j as int].name@ == columns@[j as int]@.name);
                }
                if same_text(columns[j].name.as_str(), col.name.as_str()) {
                    proof {
                        assert(ds[j as int].name@ == ds[i as int].name@);
                    }
                    return Err(
                        ExecError::Plan(
                            join3(
                                join3(
                                    "column '",
                                    col.name.as_str(),
                                    "' is defined twice in table '",
                                ).as_str(),
                                def.name.as_str(),
                                "'",
                            ),
                        ),
                    );
                }
            }
            if col.key && col.nullable {
                proof {
                    assert(!column_ok(ds[i as int]));
                }
                return Err(
                    ExecError::Plan(
                        join3("key column '", col.name.as_str(), "' cannot be @null"),
                    ),
                );
            }
            let default: Option<Value> = match &col.default {
                Some(v) => match coerce(v.duplicate(), col.ty, col.nullable) {
                    Ok(x) => Some(x),
                    Err(e) => {
                        proof {
                            assert(!column_ok(ds[i as int]));
                        }
                        return Err(
                            ExecError::Plan(
                                join2(
                                    join3(
                                        "default for column '",
                                        col.name.as_str(),
                                        "': ",
                                    ).as_str(),
                                    e.message().as_str(),
                                ),
                            ),
                        );
                    },
                },
                None => None,
            };
            let made = Column {
                name: owned(col.name.as_str()),
                ty: col.ty,
                nullable: col.nullable,
                key: col.key,
                index_id: None,
                default,
            };
            proof {
                assert(made@ == declared(ds[i as int]));
                let now = ds.take(i as int + 1);
                assert forall|a: int, b: int| 0 <= a < b < now.len() implies (
                #[trigger] now[a]).name@ != (#[trigger] now[b]).name@ by {
                    assert(now[a] == ds[a] && now[b] == ds[b]);
                    if b < i {
                        assert(ds.take(i as int)[a] == ds[a] && ds.take(i as int)[b] == ds[b]);
                    }
                }
                assert forall|a: int| 0 <= a < now.len() implies column_ok(#[trigger] now[a]) by {
                    if a < i {
                        assert(ds.take(i as int)[a] == now[a]);
                    }
                }
            }
            columns.push(made);
        }
        let table = Table { id, name: owned(def.name.as_str()), columns };
        proof {
            assert(ds.take(len as int) =~= ds);
            assert(table@.columns =~= table_from(*def, id).columns);
            lemma_key_spots(table@.columns);
        }
        let keys: Vec<usize> = table.key_positions();
        if keys.len() == 0 {
            proof {
                assert(key_spots(table@.columns) =~= Seq::empty());
                if def_ok(ds) {
                    let i = choose|i: int| 0 <= i < ds.len() && (#[trigger] ds[i]).key;
                    assert(table@.columns[i].key);
                    assert(key_spots(table@.columns).contains(i));
                }
            }
            return Err(
                ExecError::Plan(
                    join3("table '", def.name.as_str(), "' needs at least one @key column"),
                ),
            );
        }
        proof {
            let p = key_spots(table@.columns)[0];
            assert(ints(keys@)[0] == p);
            assert(table@.columns[p].key);
            assert(ds[p].key);
        }
        Ok(table)
    }
}

// ---------------------------------------------------------------------
// catalog keys
// ---------------------------------------------------------------------

pub open spec fn table_at(name: Seq<char>) -> Seq<u8> {
    enc_key(seq![Val::Text("table"@), Val::Text(name)])
}

pub open spec fn tables_at() -> Seq<u8> {
    enc_key(seq![Val::Text("table"@)])
}

pub open spec fn seq_at() -> Seq<u8> {
    enc_key(seq![Val::Text("seq"@)])
}

/// Where the definition of a table stands.
pub fn table_key(name: &str) -> (r: Vec<u8>)
    ensures
        r@ == table_at(name@),
{
    let parts: Vec<Value> = vec![Value::Text(owned("table")), Value::Text(owned(name))];
    proof {
        assert(vals(parts@) =~= seq![Val::Text("table"@), Val::Text(name@)]);
    }
    encode_key(parts.as_slice())
}

/// What the keys of all tables start with.
pub fn tables_prefix() -> (r: Vec<u8>)
    ensures
        r@ == tables_at(),
{
    let parts: Vec<Value> = vec![Value::Text(owned("table"))];
    proof {
        assert(vals(parts@) =~= seq![Val::Text("table"@)]);
    }
    encode_key(parts.as_slice())
}

/// Where the next object id stands.
pub fn seq_key() -> (r: Vec<u8>)
    ensures
        r@ == seq_at(),
{
    let parts: Vec<Value> = vec![Value::Text(owned("seq"))];
    proof {
        assert(vals(parts@) =~= seq![Val::Text("seq"@)]);
    }
    encode_key(parts.as_slice())
}

/// No two tables share a key, and no table has the key of the counter.
pub proof fn law_table_keys_are_distinct(a: Seq<char>, b: Seq<char>)
    ensures
        table_at(a) == table_at(b) ==> a == b,
        table_at(a) != seq_at(),
{
    let ka = seq![Val::Text("table"@), Val::Text(a)];
    let kb = seq![Val::Text("table"@), Val::Text(b)];
    let ks = seq![Val::Text("seq"@)];
    if table_at(a) == table_at(b) {
        crate::encoding::law_encode_injective(ka, kb);
        assert(ka[1] == kb[1]);
    }
    if table_at(a) == seq_at() {
        crate::encoding::law_encode_injective(ka, ks);
        assert(ka.len() == ks.len());
    }
}

// ---------------------------------------------------------------------
// serialization
// ---------------------------------------------------------------------

const CATALOG_VERSION: u8 = 1;

pub open spec fn tag_of(ty: TypeName) -> u8 {
    match ty {
        TypeName::Int => 0,
        TypeName::Float => 1,
        TypeName::Text => 2,
        TypeName::Bytes => 3,
        TypeName::Bool => 4,
    }
}

pub open spec fn tagged(tag: u8) -> Option<TypeName> {
    if tag == 0 {
        Some(TypeName::Int)
    } else if tag == 1 {
        Some(TypeName::Float)
    } else if tag == 2 {
        Some(TypeName::Text)
    } else if tag == 3 {
        Some(TypeName::Bytes)
    } else if tag == 4 {
        Some(TypeName::Bool)
    } else {
        None
    }
}

fn type_tag(ty: TypeName) -> (r: u8)
    ensures
        r == tag_of(ty),
{
    match ty {
        TypeName::Int => 0,
        TypeName::Float => 1,
        TypeName::Text => 2,
        TypeName::Bytes => 3,
        TypeName::Bool => 4,
    }
}

fn type_from_tag(tag: u8) -> (r: Option<TypeName>)
    ensures
        r == tagged(tag),
{
    match tag {
        0 => Some(TypeName::Int),
        1 => Some(TypeName::Float),
        2 => Some(TypeName::Text),
        3 => Some(TypeName::Bytes),
        4 => Some(TypeName::Bool),
        _ => None,
    }
}

/// A text as stored: its length, then its bytes.
pub open spec fn text_stored(s: Seq<char>) -> Seq<u8> {
    le_bytes(encode_utf8(s).len(), 2) + encode_utf8(s)
}

/// A default as stored.
pub open spec fn default_stored(d: Option<Val>) -> Seq<u8> {
    match d {
        None => seq![0u8],
        Some(v) => seq![1u8] + le_bytes(enc_key(seq![v]).len(), 4) + enc_key(seq![v]),
    }
}

pub open spec fn flags_of(c: Col) -> u8 {
    ((if c.key {
        1int
    } else {
        0
    }) + (if c.nullable {
        2int
    } else {
        0
    })) as u8
}

/// A column as stored. Index id zero stands for no index.
pub open spec fn col_stored(c: Col) -> Seq<u8> {
    text_stored(c.name) + seq![tag_of(c.ty), flags_of(c)] + le_bytes(
        match c.index_id {
            Some(i) => i as nat,
            None => 0,
        },
        8,
    ) + default_stored(c.default)
}

pub open spec fn cols_stored(cs: Seq<Col>) -> Seq<u8>
    decreases cs.len(),
{
    if cs.len() == 0 {
        Seq::empty()
    } else {
        cols_stored(cs.drop_last()) + col_stored(cs.last())
    }
}

/// A table definition as stored.
pub open spec fn table_stored(t: Tab) -> Seq<u8> {
    seq![1u8] + le_bytes(t.id as nat, 8) + text_stored(t.name) + le_bytes(t.columns.len(), 2)
        + cols_stored(t.columns)
}

/// A column whose parts fit the fields they are stored in.
pub open spec fn col_fits(c: Col) -> bool {
    &&& encode_utf8(c.name).len() <= u16::MAX
    &&& c.index_id != Some(0u64)
    &&& c.default matches Some(v) ==> enc_key(seq![v]).len() <= u32::MAX
}

/// A table whose parts fit the fields they are stored in.
pub open spec fn fits(t: Tab) -> bool {
    &&& encode_utf8(t.name).len() <= u16::MAX
    &&& t.columns.len() <= u16::MAX
    &&& forall|i: int| 0 <= i < t.columns.len() ==> col_fits(#[trigger] t.columns[i])
}

/// The text at the front of `b`, and what follows it.
pub open spec fn text_front(b: Seq<u8>) -> Option<(Seq<char>, Seq<u8>)> {
    if b.len() < 2 || b.len() < 2 + u16_at(b, 0) || !valid_utf8(
        b.subrange(2, 2 + u16_at(b, 0)),
    ) {
        None
    } else {
        Some((decode_utf8(b.subrange(2, 2 + u16_at(b, 0))), b.skip(2 + u16_at(b, 0))))
    }
}

/// The default at the front of `b`, and what follows it.
pub open spec fn default_front(b: Seq<u8>) -> Option<(Option<Val>, Seq<u8>)> {
    if b.len() < 1 {
        None
    } else if b[0] == 0 {
        Some((None, b.skip(1)))
    } else if b[0] != 1 || b.len() < 5 || b.len() < 5 + u32_at(b, 1) {
        None
    } else {
        match dec_key(b.subrange(5, 5 + u32_at(b, 1))) {
            Some(vs) => if vs.len() == 1 {
                Some((Some(vs[0]), b.skip(5 + u32_at(b, 1))))
            } else {
                None
            },
            None => None,
        }
    }
}

/// The column at the front of `b`, and what follows it.
pub open spec fn col_front(b: Seq<u8>) -> Option<(Col, Seq<u8>)> {
    match text_front(b) {
        None => None,
        Some((name, rest)) => if rest.len() < 10 {
            None
        } else {
            match (tagged(rest[0]), default_front(rest.skip(10))) {
                (Some(ty), Some((default, after))) => Some(
                    (
                        Col {
                            name,
                            ty,
                            nullable: (rest[1] / 2) % 2 == 1,
                            key: rest[1] % 2 == 1,
                            index_id: if u64_at(rest, 2) == 0 {
                                None
                            } else {
                                Some(u64_at(rest, 2))
                            },
                            default,
                        },
                        after,
                    ),
                ),
                _ => None,
            }
        },
    }
}

/// `n` columns at the front of `b`, and what follows them.
pub open spec fn cols_front(b: Seq<u8>, n: nat) -> Option<(Seq<Col>, Seq<u8>)>
    decreases n,
{
    if n == 0 {
        Some((Seq::empty(), b))
    } else {
        match cols_front(b, (n - 1) as nat) {
            None => None,
            Some((cs, rest)) => match col_front(rest) {
                None => None,
                Some((c, after)) => Some((cs.push(c), after)),
            },
        }
    }
}

/// The table definition bytes spell, if they are one.
pub open spec fn table_of(b: Seq<u8>) -> Option<Tab> {
    if b.len() < 9 || b[0] != 1 {
        None
    } else {
        match text_front(b.skip(9)) {
            None => None,
            Some((name, rest)) => if rest.len() < 2 {
                None
            } else {
                match cols_front(rest.skip(2), u16_at(rest, 0) as nat) {
                    None => None,
                    Some((columns, after)) => if after.len() == 0 {
                        Some(Tab { id: u64_at(b, 1), name, columns })
                    } else {
                        None
                    },
                }
            },
        }
    }
}

proof fn lemma_text_front(s: Seq<char>, rest: Seq<u8>)
    requires
        encode_utf8(s).len() <= u16::MAX,
    ensures
        text_front(text_stored(s) + rest) == Some((s, rest)),
{
    let e = encode_utf8(s);
    let b = text_stored(s) + rest;
    lemma_field16(e.len() as u16);
    vstd::utf8::encode_utf8_valid_utf8(s);
    vstd::utf8::encode_utf8_decode_utf8(s);
    assert(b.subrange(0, 2) =~= le_bytes(e.len(), 2));
    assert(b.subrange(2, 2 + e.len() as int) =~= e);
    assert(b.skip(2 + e.len() as int) =~= rest);
}

proof fn lemma_default_front(d: Option<Val>, rest: Seq<u8>)
    requires
        d matches Some(v) ==> enc_key(seq![v]).len() <= u32::MAX,
    ensures
        default_front(default_stored(d) + rest) == Some((d, rest)),
{
    let b = default_stored(d) + rest;
    match d {
        None => {
            assert(b.skip(1) =~= rest);
        },
        Some(v) => {
            let e = enc_key(seq![v]);
            lemma_field32(e.len() as u32);
            law_decode_inverts_encode(seq![v]);
            assert(b.subrange(1, 5) =~= le_bytes(e.len(), 4));
            assert(b.subrange(5, 5 + e.len() as int) =~= e);
            assert(b.skip(5 + e.len() as int) =~= rest);
        },
    }
}

#[verifier::spinoff_prover]
#[verifier::rlimit(40)]
proof fn lemma_col_front(c: Col, rest: Seq<u8>)
    requires
        col_fits(c),
    ensures
        col_front(col_stored(c) + rest) == Some((c, rest)),
{
    let i: u64 = match c.index_id {
        Some(i) => i,
        None => 0,
    };
    let tail = seq![tag_of(c.ty), flags_of(c)] + le_bytes(i as nat, 8) + default_stored(c.default)
        + rest;
    assert(col_stored(c) + rest =~= text_stored(c.name) + tail);
    lemma_text_front(c.name, tail);
    lemma_field64(i);
    assert(tail.subrange(2, 10) =~= le_bytes(i as nat, 8));
    assert(tail.skip(10) =~= default_stored(c.default) + rest);
    lemma_default_front(c.default, rest);
    assert(tail[0] == tag_of(c.ty));
    assert(tail[1] == flags_of(c));
}

proof fn lemma_cols_front(cs: Seq<Col>, rest: Seq<u8>)
    requires
        forall|i: int| 0 <= i < cs.len() ==> col_fits(#[trigger] cs[i]),
    ensures
        cols_front(cols_stored(cs) + rest, cs.len()) == Some((cs, rest)),
    decreases cs.len(),
{
    if cs.len() == 0 {
        assert(cols_stored(cs) + rest =~= rest);
        assert(cs =~= Seq::empty());
    } else {
        let less = cs.drop_last();
        let tail = col_stored(cs.last()) + rest;
        assert(cols_stored(cs) + rest =~= cols_stored(less) + tail);
        lemma_cols_front(less, tail);
        lemma_col_front(cs.last(), rest);
        assert(less.push(cs.last()) =~= cs);
    }
}

/// A stored definition reads back as the table it was made from.
pub proof fn law_table_decode_inverts_encode(t: Tab)
    requires
        fits(t),
    ensures
        table_of(table_stored(t)) == Some(t),
{
    let b = table_stored(t);
    let n = le_bytes(t.columns.len(), 2);
    let tail = n + cols_stored(t.columns);
    lemma_field64(t.id);
    lemma_field16(t.columns.len() as u16);
    assert(b.subrange(1, 9) =~= le_bytes(t.id as nat, 8));
    assert(b.skip(9) =~= text_stored(t.name) + tail);
    lemma_text_front(t.name, tail);
    assert(tail.subrange(0, 2) =~= n);
    assert(tail.skip(2) =~= cols_stored(t.columns) + Seq::<u8>::empty());
    lemma_cols_front(t.columns, Seq::empty());
}

fn put_str(out: &mut Vec<u8>, s: &str)
    requires
        encode_utf8(s@).len() <= u16::MAX,
    ensures
        final(out)@ == old(out)@ + text_stored(s@),
{
    let b = s.as_bytes();
    let n: usize = b.len();
    proof {
        lemma_pow256_values();
    }
    let ghost start = out@;
    put_le(out, n as u64, 2);
    put_all(out, b);
    proof {
        assert(out@ =~= start + text_stored(s@));
    }
}

#[verifier::spinoff_prover]
#[verifier::rlimit(60)]
fn put_column(out: &mut Vec<u8>, col: &Column)
    requires
        col_fits(col@),
    ensures
        final(out)@ == old(out)@ + col_stored(col@),
{
    let ghost start = out@;
    put_str(out, col.name.as_str());
    out.push(type_tag(col.ty));
    let mut flags: u8 = 0;
    if col.key {
        flags = 1;
    }
    if col.nullable {
        flags = flags + 2;
    }
    out.push(flags);
    let id: u64 = match col.index_id {
        Some(i) => i,
        None => 0,
    };
    proof {
        lemma_pow256_values();
    }
    put_le(out, id, 8);
    let ghost head = out@;
    proof {
        assert(head =~= start + (text_stored(col.name@) + seq![tag_of(col.ty), flags_of(col@)]
            + le_bytes(id as nat, 8)));
    }
    match &col.default {
        Some(v) => {
            out.push(1);
            let one: Vec<Value> = vec![v.duplicate()];
            proof {
                assert(vals(one@) =~= seq![v@]);
            }
            let e = encode_key(one.as_slice());
            let n: usize = e.len();
            put_le(out, n as u64, 4);
            put_all(out, e.as_slice());
            proof {
                assert(out@ =~= head + default_stored(Some(v@)));
            }
        },
        None => {
            out.push(0);
            proof {
                assert(out@ =~= head + default_stored(None));
            }
        },
    }
    proof {
        assert(out@ =~= start + col_stored(col@));
    }
}

fn broken() -> (r: ExecError)
    ensures
        r.fail() is Exec,
{
    ExecError::Exec(owned("catalog entry does not deserialize, this is a bug"))
}

fn read_str(buf: &[u8], at: usize) -> (r: Option<(String, usize)>)
    requires
        at <= buf@.len(),
    ensures
        match r {
            Some((s, next)) => at <= next <= buf@.len() && text_front(buf@.skip(at as int))
                == Some((s@, buf@.skip(next as int))),
            None => text_front(buf@.skip(at as int)) is None,
        },
{
    let ghost b = buf@.skip(at as int);
    if buf.len() - at < 2 {
        return None;
    }
    let n: usize = get_u16(buf, at) as usize;
    proof {
        assert(b.subrange(0, 2) =~= buf@.subrange(at as int, at + 2));
    }
    if buf.len() - at - 2 < n {
        return None;
    }
    let raw = sub_vec(buf, at + 2, at + 2 + n);
    proof {
        assert(raw@ =~= b.subrange(2, 2 + n));
        assert(buf@.skip(at + 2 + n) =~= b.skip(2 + n));
    }
    match text_from_utf8(raw) {
        Some(s) => Some((s, at + 2 + n)),
        None => None,
    }
}

fn read_default(buf: &[u8], at: usize) -> (r: core::result::Result<
    (Option<Value>, usize),
    ExecError,
>)
    requires
        at <= buf@.len(),
    ensures
        match r {
            Ok((d, next)) => at <= next <= buf@.len() && default_front(buf@.skip(at as int))
                == Some((opt_val(d), buf@.skip(next as int))),
            Err(e) => default_front(buf@.skip(at as int)) is None && e.fail() is Exec,
        },
{
    let ghost b = buf@.skip(at as int);
    if buf.len() - at < 1 {
        return Err(broken());
    }
    if buf[at] == 0 {
        proof {
            assert(buf@.skip(at + 1) =~= b.skip(1));
        }
        return Ok((None, at + 1));
    }
    if buf[at] != 1 || buf.len() - at < 5 {
        return Err(broken());
    }
    let n: usize = get_u32(buf, at + 1) as usize;
    proof {
        assert(b.subrange(1, 5) =~= buf@.subrange(at + 1, at + 5));
    }
    if buf.len() - at - 5 < n {
        return Err(broken());
    }
    let e = sub_vec(buf, at + 5, at + 5 + n);
    proof {
        assert(e@ =~= b.subrange(5, 5 + n));
        assert(buf@.skip(at + 5 + n) =~= b.skip(5 + n));
    }
    match decode_key(e.as_slice()) {
        Ok(mut values) => {
            if values.len() != 1 {
                return Err(broken());
            }
            let ghost all = values@;
            proof {
                assert(vals(all)[0] == all[0]@);
            }
            match values.pop() {
                Some(v) => Ok((Some(v), at + 5 + n)),
                None => Err(broken()),
            }
        },
        Err(_) => Err(ExecError::Exec(owned("catalog default does not decode"))),
    }
}

fn read_column(buf: &[u8], at: usize) -> (r: core::result::Result<(Column, usize), ExecError>)
    requires
        at <= buf@.len(),
    ensures
        match r {
            Ok((c, next)) => at <= next <= buf@.len() && col_front(buf@.skip(at as int)) == Some(
                (c@, buf@.skip(next as int)),
            ),
            Err(e) => col_front(buf@.skip(at as int)) is None && e.fail() is Exec,
        },
{
    let (name, here): (String, usize) = match read_str(buf, at) {
        Some(x) => x,
        None => return Err(broken()),
    };
    let ghost rest = buf@.skip(here as int);
    if buf.len() - here < 10 {
        return Err(broken());
    }
    let ty: TypeName = match type_from_tag(buf[here]) {
        Some(ty) => ty,
        None => return Err(broken()),
    };
    let flags: u8 = buf[here + 1];
    let id: u64 = get_u64(buf, here + 2);
    proof {
        assert(rest.subrange(2, 10) =~= buf@.subrange(here + 2, here + 10));
        assert(rest.skip(10) =~= buf@.skip(here + 10));
    }
    match read_default(buf, here + 10) {
        Ok((default, next)) => Ok(
            (
                Column {
                    name,
                    ty,
                    nullable: (flags / 2) % 2 == 1,
                    key: flags % 2 == 1,
                    index_id: if id == 0 {
                        None
                    } else {
                        Some(id)
                    },
                    default,
                },
                next,
            ),
        ),
        Err(e) => Err(e),
    }
}

impl Table {
    /// The stored form of a definition.
    pub fn serialize(&self) -> (r: Vec<u8>)
        requires
            fits(self@),
        ensures
            r@ == table_stored(self@),
    {
        let mut out: Vec<u8> = vec![CATALOG_VERSION];
        proof {
            lemma_pow256_values();
        }
        put_le(&mut out, self.id, 8);
        put_str(&mut out, self.name.as_str());
        let len: usize = self.columns.len();
        let ghost cs = self@.columns;
        put_le(&mut out, len as u64, 2);
        let ghost head = out@;
        proof {
            assert(head =~= seq![1u8] + le_bytes(self.id as nat, 8) + text_stored(self.name@)
                + le_bytes(cs.len(), 2));
            assert(head + cols_stored(cs.take(0)) =~= head);
        }
        for i in 0..len
            invariant
                len == self.columns@.len(),
                cs == self@.columns,
                fits(self@),
                out@ == head + cols_stored(cs.take(i as int)),
        {
            proof {
                let now = cs.take(i as int + 1);
                assert(now.drop_last() =~= cs.take(i as int));
                assert(now.last() == cs[i as int]);
                assert(cs[i as int] == self.columns@[i as int]@);
                assert(col_fits(self@.columns[i as int]));
            }
            let ghost before = out@;
            put_column(&mut out, &self.columns[i]);
            proof {
                assert(out@ =~= head + cols_stored(cs.take(i as int + 1)));
            }
        }
        proof {
            assert(cs.take(len as int) =~= cs);
        }
        out
    }

    /// The definition stored bytes spell.
    pub fn deserialize(buf: &[u8]) -> (r: core::result::Result<Table, ExecError>)
        ensures
            match r {
                Ok(t) => table_of(buf@) == Some(t@),
                Err(e) => table_of(buf@) is None && e.fail() is Exec,
            },
    {
        if buf.len() < 1 {
            return Err(broken());
        }
        if buf[0] != CATALOG_VERSION {
            return Err(ExecError::Exec(owned("catalog entry has an unknown version")));
        }
        if buf.len() < 9 {
            return Err(broken());
        }
        let id: u64 = get_u64(buf, 1);
        let (name, here): (String, usize) = match read_str(buf, 9) {
            Some(x) => x,
            None => return Err(broken()),
        };
        let ghost rest = buf@.skip(here as int);
        if buf.len() - here < 2 {
            return Err(broken());
        }
        let n: usize = get_u16(buf, here) as usize;
        proof {
            assert(rest.subrange(0, 2) =~= buf@.subrange(here as int, here + 2));
            assert(rest.skip(2) =~= buf@.skip(here + 2));
        }
        let mut at: usize = here + 2;
        let mut columns: Vec<Column> = Vec::new();
        let ghost body = rest.skip(2);
        proof {
            assert(cols(columns@) =~= Seq::empty());
        }
        for i in 0..n
            invariant
                at <= buf@.len(),
                cols_front(body, i as nat) == Some((cols(columns@), buf@.skip(at as int))),
                table_of(buf@) is Some ==> cols_front(body, n as nat) is Some,
        {
            match read_column(buf, at) {
                Ok((c, next)) => {
                    let ghost before = columns@;
                    columns.push(c);
                    at = next;
                    proof {
                        assert(cols(columns@) =~= cols(before).push(c@));
                    }
                },
                Err(e) => {
                    proof {
                        assert(cols_front(body, (i + 1) as nat) is None);
                        lemma_cols_front_grows(body, (i + 1) as nat, n as nat);
                    }
                    return Err(e);
                },
            }
        }
        if at != buf.len() {
            return Err(broken());
        }
        Ok(Table { id, name, columns })
    }

    /// An equal definition.
    pub fn duplicate(&self) -> (r: Table)
        ensures
            r@ == self@,
    {
        let mut columns: Vec<Column> = Vec::new();
        let len: usize = self.columns.len();
        for i in 0..len
            invariant
                len == self.columns@.len(),
                columns@.len() == i,
                forall|k: int| 0 <= k < i ==> (#[trigger] columns@[k])@ == self.columns@[k]@,
        {
            let c = &self.columns[i];
            columns.push(
                Column {
                    name: owned(c.name.as_str()),
                    ty: c.ty,
                    nullable: c.nullable,
                    key: c.key,
                    index_id: c.index_id,
                    default: match &c.default {
                        Some(v) => Some(v.duplicate()),
                        None => None,
                    },
                },
            );
        }
        let out = Table { id: self.id, name: owned(self.name.as_str()), columns };
        proof {
            assert(out@.columns =~= self@.columns);
        }
        out
    }
}

proof fn lemma_cols_front_grows(b: Seq<u8>, n: nat, m: nat)
    requires
        n <= m,
        cols_front(b, n) is None,
    ensures
        cols_front(b, m) is None,
    decreases m - n,
{
    if n < m {
        lemma_cols_front_grows(b, n, (m - 1) as nat);
    }
}

} // verus!
