//! Planning: turn a filter into an access path.
//!
//! Three access paths, tried in this order:
//!
//! 1. `KeyLookup`: the filter pins every primary key column to a literal
//! 2. `IndexScan`: some conjunct is `indexed_column = literal`
//! 3. `SeqScan`: everything else
//!
//! Conjuncts consumed by the access path disappear from the residual
//! filter; the rest is evaluated per row. `explain` prints exactly this
//! structure.

use vstd::prelude::*;
use vstd::utf8::encode_utf8;

use crate::ast::{ref_term, BinaryOp, ColumnRef, Direction, Expr, Name, Term, TypeName};
use crate::catalog::{ints, key_spots, lemma_key_spots, lemma_spot, Col, Tab, Table};
use crate::encoding::{vals, Val, Value};
use crate::exec_error::{ExecError, Fail};
use crate::pretty;
use crate::pretty::{expr_shown, literal_shown, name_shown};
use crate::rows::{pk_of, place, place_of, row_names};
use crate::strings::{decimal, join2, join3, join_all, joined, texts, u64_text};
use crate::value_ops::{coerce, equal, fitted, holds_in, widened, worth, Floats, Math, Shown};

verus! {

#[derive(Debug)]
pub enum Access {
    /// Point lookup by full primary key. Values in key column order.
    KeyLookup { key_values: Vec<Value> },
    /// Equality scan over one secondary index.
    IndexScan { column: usize, index_id: u64, value: Value },
    /// Walk the whole table.
    SeqScan,
}

#[derive(Debug)]
pub struct AccessPlan {
    pub access: Access,
    /// What remains of the filter after the access path consumed its part.
    pub residual: Option<Expr>,
}

/// What an access path says.
#[verifier::ext_equal]
pub enum Path {
    KeyLookup(Seq<Val>),
    IndexScan(int, u64, Val),
    SeqScan,
}

/// What a plan says.
#[verifier::ext_equal]
pub struct Way {
    pub path: Path,
    pub residual: Option<Term>,
}

impl View for Access {
    type V = Path;

    open spec fn view(&self) -> Path {
        match self {
            Access::KeyLookup { key_values } => Path::KeyLookup(vals(key_values@)),
            Access::IndexScan { column, index_id, value } => Path::IndexScan(
                *column as int,
                *index_id,
                value@,
            ),
            Access::SeqScan => Path::SeqScan,
        }
    }
}

impl View for AccessPlan {
    type V = Way;

    open spec fn view(&self) -> Way {
        Way { path: self.access@, residual: crate::ast::opt_term(self.residual) }
    }
}

// ---------------------------------------------------------------------
// conjuncts
// ---------------------------------------------------------------------

/// The top-level `and` conjuncts of a condition, left to right.
pub open spec fn conj(t: Term) -> Seq<Term>
    decreases t,
{
    match t {
        Term::Binary(l, op, r) => if op is And {
            conj(*l) + conj(*r)
        } else {
            seq![t]
        },
        _ => seq![t],
    }
}

/// The `and` of some conditions, if there are any.
pub open spec fn conjoin(parts: Seq<Term>) -> Option<Term>
    decreases parts.len(),
{
    if parts.len() == 0 {
        None
    } else {
        match conjoin(parts.drop_last()) {
            None => Some(parts.last()),
            Some(t) => Some(Term::Binary(Box::new(t), BinaryOp::And, Box::new(parts.last()))),
        }
    }
}

/// Conditions checked one after the other, up to the first that does not
/// hold.
pub open spec fn all_hold(
    parts: Seq<Term>,
    s: spec_fn(Name) -> core::result::Result<Val, Fail>,
    g: Math,
) -> core::result::Result<bool, Fail>
    decreases parts.len(),
{
    if parts.len() == 0 {
        Ok(true)
    } else {
        match all_hold(parts.drop_last(), s, g) {
            Ok(true) => holds_in(parts.last(), s, g),
            other => other,
        }
    }
}

proof fn lemma_all_hold_concat(
    a: Seq<Term>,
    b: Seq<Term>,
    s: spec_fn(Name) -> core::result::Result<Val, Fail>,
    g: Math,
)
    ensures
        all_hold(a + b, s, g) == (match all_hold(a, s, g) {
            Ok(true) => all_hold(b, s, g),
            other => other,
        }),
    decreases b.len(),
{
    if b.len() == 0 {
        assert(a + b =~= a);
    } else {
        assert((a + b).drop_last() =~= a + b.drop_last());
        lemma_all_hold_concat(a, b.drop_last(), s, g);
    }
}

/// A condition holds where its conjuncts hold, checked left to right.
pub proof fn law_condition_is_its_conjuncts(
    t: Term,
    s: spec_fn(Name) -> core::result::Result<Val, Fail>,
    g: Math,
)
    ensures
        holds_in(t, s, g) == all_hold(conj(t), s, g),
    decreases t,
{
    reveal_with_fuel(worth, 3);
    reveal_with_fuel(holds_in, 3);
    match t {
        Term::Binary(l, op, r) => {
            if op is And {
                law_condition_is_its_conjuncts(*l, s, g);
                law_condition_is_its_conjuncts(*r, s, g);
                lemma_all_hold_concat(conj(*l), conj(*r), s, g);
            } else {
                lemma_one_holds(t, s, g);
            }
        },
        _ => {
            lemma_one_holds(t, s, g);
        },
    }
}

proof fn lemma_one_holds(
    t: Term,
    s: spec_fn(Name) -> core::result::Result<Val, Fail>,
    g: Math,
)
    ensures
        all_hold(seq![t], s, g) == holds_in(t, s, g),
{
    assert(seq![t].drop_last() =~= Seq::empty());
    assert(all_hold(Seq::empty(), s, g) == Ok::<bool, Fail>(true));
}

/// A conjunction put back together says what its parts said.
proof fn lemma_conjoin_holds(
    parts: Seq<Term>,
    s: spec_fn(Name) -> core::result::Result<Val, Fail>,
    g: Math,
)
    ensures
        conjoin(parts) is None <==> parts.len() == 0,
        conjoin(parts) matches Some(t) ==> holds_in(t, s, g) == all_hold(parts, s, g),
    decreases parts.len(),
{
    reveal_with_fuel(worth, 3);
    reveal_with_fuel(holds_in, 3);
    if parts.len() > 0 {
        lemma_conjoin_holds(parts.drop_last(), s, g);
        if parts.len() == 1 {
            assert(parts =~= seq![parts.last()]);
            lemma_one_holds(parts.last(), s, g);
        }
    }
}

/// The terms of some expressions.
pub open spec fn terms(s: Seq<&Expr>) -> Seq<Term> {
    Seq::new(s.len(), |i: int| s[i]@)
}

/// Split an expression into its top-level `and` conjuncts.
pub(crate) fn conjuncts<'a>(expr: &'a Expr) -> (r: Vec<&'a Expr>)
    ensures
        terms(r@) == conj(expr@),
    decreases expr,
{
    if let Expr::Binary(l, op, r) = expr {
        if *op == BinaryOp::And {
            let mut out = conjuncts(l);
            let more = conjuncts(r);
            let ghost start = out@;
            let len: usize = more.len();
            for i in 0..len
                invariant
                    len == more@.len(),
                    out@ == start + more@.take(i as int),
            {
                out.push(more[i]);
                proof {
                    assert(out@ =~= start + more@.take(i as int + 1));
                }
            }
            proof {
                assert(terms(out@) =~= terms(start) + terms(more@));
            }
            return out;
        }
    }
    let mut out: Vec<&'a Expr> = Vec::new();
    out.push(expr);
    proof {
        assert(terms(out@) =~= seq![expr@]);
    }
    out
}

/// If this conjunct is `column = literal` (either side), both.
pub open spec fn pins(t: Term) -> Option<(Name, Val)> {
    match t {
        Term::Binary(l, op, r) => if op is Eq {
            match (*l, *r) {
                (Term::Column(c), Term::Literal(v)) => Some((c, v)),
                (Term::Literal(v), Term::Column(c)) => Some((c, v)),
                _ => None,
            }
        } else {
            None
        },
        _ => None,
    }
}

fn as_column_eq_literal<'a>(expr: &'a Expr) -> (r: Option<(&'a ColumnRef, &'a Value)>)
    ensures
        match r {
            Some((c, v)) => pins(expr@) == Some((c@, v@)),
            None => pins(expr@) is None,
        },
{
    proof {
        reveal_with_fuel(Expr::term, 3);
    }
    if let Expr::Binary(l, op, r) = expr {
        if *op == BinaryOp::Eq {
            return match (&**l, &**r) {
                (Expr::Column(c), Expr::Literal(v)) => Some((c, v)),
                (Expr::Literal(v), Expr::Column(c)) => Some((c, v)),
                _ => None,
            };
        }
    }
    None
}

/// The parts whose places are not in `used`, among the first `n`.
pub open spec fn unused(parts: Seq<Term>, n: int, used: Set<int>) -> Seq<Term>
    decreases n,
{
    if n <= 0 {
        Seq::empty()
    } else if used.contains(n - 1) {
        unused(parts, n - 1, used)
    } else {
        unused(parts, n - 1, used).push(parts[n - 1])
    }
}

/// The `and` of the parts that are not used.
fn rebuild_conjunction(parts: &Vec<&Expr>, used: &Vec<usize>) -> (r: Option<Expr>)
    ensures
        crate::ast::opt_term(r) == conjoin(
            unused(terms(parts@), parts@.len() as int, ints(used@).to_set()),
        ),
{
    let len: usize = parts.len();
    let mut out: Option<Expr> = None;
    let ghost set = ints(used@).to_set();
    let ghost ts = terms(parts@);
    for i in 0..len
        invariant
            len == parts@.len(),
            ts == terms(parts@),
            set == ints(used@).to_set(),
            crate::ast::opt_term(out) == conjoin(unused(ts, i as int, set)),
    {
        let skip: bool = contains(used, i);
        proof {
            let next = unused(ts, i as int + 1, set);
            if !skip {
                assert(next.drop_last() =~= unused(ts, i as int, set));
                assert(next.last() == ts[i as int]);
            }
        }
        if !skip {
            out = match out {
                None => Some(parts[i].duplicate()),
                Some(acc) => Some(
                    Expr::Binary(Box::new(acc), BinaryOp::And, Box::new(parts[i].duplicate())),
                ),
            };
        }
    }
    out
}

fn contains(v: &Vec<usize>, x: usize) -> (r: bool)
    ensures
        r == ints(v@).to_set().contains(x as int),
{
    let len: usize = v.len();
    for i in 0..len
        invariant
            len == v@.len(),
            forall|k: int| 0 <= k < i ==> v@[k] != x,
    {
        if v[i] == x {
            proof {
                assert(ints(v@)[i as int] == x as int);
                assert(ints(v@).contains(x as int));
            }
            return true;
        }
    }
    proof {
        if ints(v@).contains(x as int) {
            let k = choose|k: int| 0 <= k < ints(v@).len() && ints(v@)[k] == x as int;
            assert(v@[k] == x);
        }
    }
    false
}

// ---------------------------------------------------------------------
// access paths
// ---------------------------------------------------------------------

/// Whether a part pins the column at `pos` to something that is not null.
pub open spec fn pins_key(t: Tab, part: Term, pos: int) -> bool {
    pins(part) matches Some((n, v)) && place(t, n) == Some(pos) && !(v is Null)
}

/// The first part that pins the column at `pos`.
pub open spec fn pinned(t: Tab, parts: Seq<Term>, pos: int) -> Option<int>
    decreases parts.len(),
{
    if parts.len() == 0 {
        None
    } else {
        match pinned(t, parts.drop_last(), pos) {
            Some(i) => Some(i),
            None => if pins_key(t, parts.last(), pos) {
                Some(parts.len() - 1)
            } else {
                None
            },
        }
    }
}

/// Whether a part pins an indexed column.
pub open spec fn pins_index(t: Tab, part: Term) -> bool {
    pins(part) matches Some((n, v)) && (place(t, n) matches Some(p) && t.columns[p].index_id is Some)
}

/// The first part that pins an indexed column.
pub open spec fn probed(t: Tab, parts: Seq<Term>) -> Option<int>
    decreases parts.len(),
{
    if parts.len() == 0 {
        None
    } else {
        match probed(t, parts.drop_last()) {
            Some(i) => Some(i),
            None => if pins_index(t, parts.last()) {
                Some(parts.len() - 1)
            } else {
                None
            },
        }
    }
}

/// Whether the parts pin the whole primary key.
pub open spec fn key_pinned(t: Tab, parts: Seq<Term>) -> bool {
    forall|k: int|
        0 <= k < key_spots(t.columns).len() ==> pinned(
            t,
            parts,
            #[trigger] key_spots(t.columns)[k],
        ) is Some
}

/// Where the parts that pin the key stand.
pub open spec fn key_parts(t: Tab, parts: Seq<Term>) -> Seq<int> {
    Seq::new(
        key_spots(t.columns).len(),
        |k: int| pinned(t, parts, key_spots(t.columns)[k])->0,
    )
}

/// What the key is pinned to, column by column, fitted to the column.
pub open spec fn key_value(t: Tab, parts: Seq<Term>, k: int) -> core::result::Result<Val, Fail> {
    fitted(
        (pins(parts[key_parts(t, parts)[k]])->0).1,
        t.columns[key_spots(t.columns)[k]].ty,
        false,
    )
}

/// The plan for a filter. A literal that does not fit the column it is
/// compared to is refused.
pub open spec fn planned(t: Tab, filter: Option<Term>) -> core::result::Result<Way, Fail> {
    match filter {
        None => Ok(Way { path: Path::SeqScan, residual: None }),
        Some(f) => {
            let parts = conj(f);
            let n = parts.len() as int;
            let keys = key_spots(t.columns).len();
            if key_pinned(t, parts) {
                if forall|k: int| 0 <= k < keys ==> (#[trigger] key_value(t, parts, k)) is Ok {
                    Ok(
                        Way {
                            path: Path::KeyLookup(
                                Seq::new(keys, |k: int| key_value(t, parts, k)->Ok_0),
                            ),
                            residual: conjoin(unused(parts, n, key_parts(t, parts).to_set())),
                        },
                    )
                } else {
                    Err(Fail::Plan)
                }
            } else {
                match probed(t, parts) {
                    Some(i) => {
                        let p = place(t, (pins(parts[i])->0).0)->0;
                        match fitted((pins(parts[i])->0).1, t.columns[p].ty, true) {
                            Ok(v) => Ok(
                                Way {
                                    path: Path::IndexScan(p, t.columns[p].index_id->0, v),
                                    residual: conjoin(unused(parts, n, seq![i].to_set())),
                                },
                            ),
                            Err(_) => Err(Fail::Plan),
                        }
                    },
                    None => Ok(Way { path: Path::SeqScan, residual: Some(f) }),
                }
            }
        },
    }
}

pub proof fn lemma_pinned(t: Tab, parts: Seq<Term>, pos: int)
    ensures
        match pinned(t, parts, pos) {
            Some(i) => 0 <= i < parts.len() && pins_key(t, parts[i], pos),
            None => forall|i: int| 0 <= i < parts.len() ==> !pins_key(t, #[trigger] parts[i], pos),
        },
    decreases parts.len(),
{
    if parts.len() > 0 {
        let less = parts.drop_last();
        lemma_pinned(t, less, pos);
        if pinned(t, less, pos) is None {
            assert forall|i: int| 0 <= i < less.len() implies !pins_key(
                t,
                #[trigger] parts[i],
                pos,
            ) by {
                assert(less[i] == parts[i]);
            }
        }
    }
}

proof fn lemma_pinned_grows(t: Tab, parts: Seq<Term>, pos: int, n: int)
    requires
        0 <= n <= parts.len(),
        pinned(t, parts.take(n), pos) is Some,
    ensures
        pinned(t, parts, pos) == pinned(t, parts.take(n), pos),
    decreases parts.len() - n,
{
    if n < parts.len() {
        assert(parts.take(n + 1).drop_last() =~= parts.take(n));
        lemma_pinned_grows(t, parts, pos, n + 1);
    } else {
        assert(parts.take(n) =~= parts);
    }
}

pub proof fn lemma_probed(t: Tab, parts: Seq<Term>)
    ensures
        match probed(t, parts) {
            Some(i) => 0 <= i < parts.len() && pins_index(t, parts[i]),
            None => true,
        },
    decreases parts.len(),
{
    if parts.len() > 0 {
        lemma_probed(t, parts.drop_last());
    }
}

proof fn lemma_probed_grows(t: Tab, parts: Seq<Term>, n: int)
    requires
        0 <= n <= parts.len(),
        probed(t, parts.take(n)) is Some,
    ensures
        probed(t, parts) == probed(t, parts.take(n)),
    decreases parts.len() - n,
{
    if n < parts.len() {
        assert(parts.take(n + 1).drop_last() =~= parts.take(n));
        lemma_probed_grows(t, parts, n + 1);
    } else {
        assert(parts.take(n) =~= parts);
    }
}

/// Which part pins the column at `pos`, and to what.
fn find_pin<'a>(table: &Table, parts: &Vec<&'a Expr>, pos: usize) -> (r: Option<
    (usize, &'a Value),
>)
    ensures
        match r {
            Some((i, v)) => pinned(table@, terms(parts@), pos as int) == Some(i as int) && i
                < parts@.len() && pins(terms(parts@)[i as int]) is Some && (pins(
                terms(parts@)[i as int],
            )->0).1 == v@,
            None => pinned(table@, terms(parts@), pos as int) is None,
        },
{
    let len: usize = parts.len();
    let ghost ts = terms(parts@);
    let ghost t = table@;
    for i in 0..len
        invariant
            len == parts@.len(),
            ts == terms(parts@),
            t == table@,
            pinned(t, ts.take(i as int), pos as int) is None,
    {
        proof {
            let now = ts.take(i as int + 1);
            assert(now.drop_last() =~= ts.take(i as int));
            assert(now.last() == parts@[i as int]@);
        }
        if let Some((col, value)) = as_column_eq_literal(parts[i]) {
            if let Some(p) = place_of(table, col) {
                let null: bool = match value {
                    Value::Null => true,
                    _ => false,
                };
                if p == pos && !null {
                    proof {
                        lemma_pinned_grows(t, ts, pos as int, i as int + 1);
                    }
                    return Some((i, value));
                }
            }
        }
    }
    proof {
        assert(ts.take(len as int) =~= ts);
    }
    None
}

/// What the key columns are pinned to, and by which parts.
fn find_key(table: &Table, parts: &Vec<&Expr>) -> (r: core::result::Result<
    Option<(Vec<Value>, Vec<usize>)>,
    ExecError,
>)
    ensures
        match r {
            Ok(None) => !key_pinned(table@, terms(parts@)),
            Ok(Some((vs, used))) => {
                let keys = key_spots(table@.columns).len();
                let ts = terms(parts@);
                &&& key_pinned(table@, ts)
                &&& forall|k: int| 0 <= k < keys ==> (#[trigger] key_value(table@, ts, k)) is Ok
                &&& vals(vs@) == Seq::new(keys, |k: int| key_value(table@, ts, k)->Ok_0)
                &&& ints(used@) == key_parts(table@, ts)
            },
            Err(e) => e.fail() is Plan && key_pinned(table@, terms(parts@)) && exists|k: int|
                0 <= k < key_spots(table@.columns).len() && (#[trigger] key_value(
                    table@,
                    terms(parts@),
                    k,
                )) is Err,
        },
{
    let ghost t = table@;
    let ghost ts = terms(parts@);
    let keys: Vec<usize> = table.key_positions();
    let len: usize = keys.len();
    let ghost spots = key_spots(t.columns);
    let mut raw: Vec<&Value> = Vec::new();
    let mut used: Vec<usize> = Vec::new();
    proof {
        lemma_key_spots(t.columns);
        assert(spots.len() == ints(keys@).len());
    }
    for k in 0..len
        invariant
            len == keys@.len() == spots.len(),
            t == table@,
            ts == terms(parts@),
            spots == key_spots(t.columns),
            ints(keys@) == spots,
            raw@.len() == k,
            used@.len() == k,
            forall|j: int| 0 <= j < k ==> pinned(t, ts, #[trigger] spots[j]) is Some,
            forall|j: int|
                0 <= j < k ==> (#[trigger] used@[j]) as int == pinned(t, ts, spots[j])->0,
            forall|j: int|
                0 <= j < k ==> (#[trigger] raw@[j])@ == (pins(ts[used@[j] as int])->0).1,
    {
        let pos: usize = keys[k];
        proof {
            assert(ints(keys@)[k as int] == spots[k as int]);
        }
        match find_pin(table, parts, pos) {
            Some((i, v)) => {
                raw.push(v);
                used.push(i);
            },
            None => {
                proof {
                    assert(pinned(t, ts, spots[k as int]) is None);
                }
                return Ok(None);
            },
        }
    }
    proof {
        assert(ints(used@) =~= key_parts(t, ts));
        assert(key_pinned(t, ts));
    }
    let mut values: Vec<Value> = Vec::new();
    for k in 0..len
        invariant
            len == keys@.len() == spots.len(),
            t == table@,
            ts == terms(parts@),
            spots == key_spots(t.columns),
            ints(keys@) == spots,
            forall|j: int| 0 <= j < spots.len() ==> 0 <= #[trigger] spots[j] < t.columns.len(),
            raw@.len() == len,
            ints(used@) == key_parts(t, ts),
            key_pinned(t, ts),
            used@.len() == len,
            forall|j: int|
                0 <= j < len ==> (#[trigger] raw@[j])@ == (pins(ts[used@[j] as int])->0).1,
            values@.len() == k,
            forall|j: int|
                0 <= j < k ==> key_value(t, ts, j) == Ok::<Val, Fail>((#[trigger] values@[j])@),
    {
        let pos: usize = keys[k];
        proof {
            assert(ints(keys@)[k as int] == spots[k as int]);
            assert(ints(used@)[k as int] == used@[k as int]);
            assert(t.columns[pos as int] == table.columns@[pos as int]@);
            assert(raw@[k as int]@ == (pins(ts[used@[k as int] as int])->0).1);
        }
        let col = &table.columns[pos];
        match coerce(raw[k].duplicate(), col.ty, false) {
            Ok(v) => {
                values.push(v);
            },
            Err(e) => {
                proof {
                    assert(key_value(t, ts, k as int) is Err);
                }
                return Err(
                    ExecError::Plan(
                        join2(
                            join3("key column '", col.name.as_str(), "': ").as_str(),
                            e.message().as_str(),
                        ),
                    ),
                );
            },
        }
    }
    proof {
        let want = Seq::new(spots.len(), |k: int| key_value(t, ts, k)->Ok_0);
        assert forall|k: int| 0 <= k < spots.len() implies (#[trigger] key_value(t, ts, k))
            is Ok by {
            assert(key_value(t, ts, k) == Ok::<Val, Fail>(values@[k]@));
        }
        assert forall|k: int| 0 <= k < want.len() implies #[trigger] vals(values@)[k]
            == want[k] by {
            assert(key_value(t, ts, k) == Ok::<Val, Fail>(values@[k]@));
        }
        assert(vals(values@) =~= want);
    }
    Ok(Some((values, used)))
}

/// The access path for a filter over one table, and what it leaves to check.
pub fn plan_access(table: &Table, filter: Option<&Expr>) -> (r: core::result::Result<
    AccessPlan,
    ExecError,
>)
    ensures
        match r {
            Ok(p) => planned(table@, ref_term(filter)) == Ok::<Way, Fail>(p@),
            Err(e) => planned(table@, ref_term(filter)) == Err::<Way, Fail>(e.fail()),
        },
{
    let cond: &Expr = match filter {
        Some(f) => f,
        None => return Ok(AccessPlan { access: Access::SeqScan, residual: None }),
    };
    let parts = conjuncts(cond);
    let ghost ts = terms(parts@);
    let ghost t = table@;
    // 1. full primary key pinned by equality?
    match find_key(table, &parts) {
        Err(e) => return Err(e),
        Ok(Some((key_values, used))) => {
            let residual = rebuild_conjunction(&parts, &used);
            return Ok(AccessPlan { access: Access::KeyLookup { key_values }, residual });
        },
        Ok(None) => {},
    }
    // 2. an indexed column pinned by equality?
    let len: usize = parts.len();
    for i in 0..len
        invariant
            len == parts@.len() == ts.len(),
            ts == terms(parts@),
            ts == conj(cond@),
            ref_term(filter) == Some(cond@),
            t == table@,
            !key_pinned(t, ts),
            probed(t, ts.take(i as int)) is None,
    {
        proof {
            let now = ts.take(i as int + 1);
            assert(now.drop_last() =~= ts.take(i as int));
            assert(now.last() == parts@[i as int]@);
        }
        if let Some((col, value)) = as_column_eq_literal(parts[i]) {
            if let Some(pos) = place_of(table, col) {
                proof {
                    assert(t.columns[pos as int] == table.columns@[pos as int]@);
                }
                if let Some(index_id) = table.columns[pos].index_id {
                    proof {
                        lemma_probed_grows(t, ts, i as int + 1);
                    }
                    // null is a legal index probe: col = null finds nulls
                    let coerced: Value = match coerce(
                        value.duplicate(),
                        table.columns[pos].ty,
                        true,
                    ) {
                        Ok(v) => v,
                        Err(e) => return Err(
                            ExecError::Plan(
                                join2(
                                    join3(
                                        "column '",
                                        pretty::column(col).as_str(),
                                        "': ",
                                    ).as_str(),
                                    e.message().as_str(),
                                ),
                            ),
                        ),
                    };
                    let used: Vec<usize> = vec![i];
                    proof {
                        assert(ints(used@) =~= seq![i as int]);
                    }
                    let residual = rebuild_conjunction(&parts, &used);
                    return Ok(
                        AccessPlan {
                            access: Access::IndexScan { column: pos, index_id, value: coerced },
                            residual,
                        },
                    );
                }
            }
        }
    }
    proof {
        assert(ts.take(len as int) =~= ts);
    }
    // 3. walk everything
    Ok(AccessPlan { access: Access::SeqScan, residual: Some(cond.duplicate()) })
}

// ---------------------------------------------------------------------
// what a plan selects
// ---------------------------------------------------------------------

/// Whether a value can stand in a column of that type.
pub open spec fn typed(v: Val, ty: TypeName) -> bool {
    match v {
        Val::Null => true,
        Val::Int(_) => ty is Int,
        Val::Float(_) => ty is Float,
        Val::Text(_) => ty is Text,
        Val::Bytes(_) => ty is Bytes,
        Val::Bool(_) => ty is Bool,
    }
}

/// Whether every value of a row can stand in its column.
pub open spec fn row_typed(cs: Seq<Col>, row: Seq<Val>) -> bool {
    &&& row.len() == cs.len()
    &&& forall|i: int| 0 <= i < cs.len() ==> typed(#[trigger] row[i], cs[i].ty)
}

/// Whether an access path reaches a row.
pub open spec fn reaches(t: Tab, p: Path, row: Seq<Val>) -> bool {
    match p {
        Path::KeyLookup(vs) => pk_of(t.columns, row) == vs,
        Path::IndexScan(c, _, v) => row[c] == v,
        Path::SeqScan => true,
    }
}

/// A column value equals a literal exactly when it is the literal as the
/// column would store it.
pub proof fn lemma_equal_is_same(x: Val, v: Val, ty: TypeName, nullable: bool)
    requires
        typed(x, ty),
        fitted(v, ty, nullable) is Ok,
    ensures
        equal(x, v) == Ok::<bool, Fail>(x == fitted(v, ty, nullable)->Ok_0),
        equal(v, x) == Ok::<bool, Fail>(x == fitted(v, ty, nullable)->Ok_0),
{
    let w = fitted(v, ty, nullable)->Ok_0;
    match (x, v) {
        (Val::Float(a), Val::Float(b)) => {
            crate::encoding::lemma_float_key(a);
            crate::encoding::lemma_float_key(b);
        },
        (Val::Float(a), Val::Int(b)) => {
            crate::encoding::lemma_float_key(a);
            crate::encoding::lemma_float_key(widened(b));
        },
        (Val::Text(a), Val::Text(b)) => {
            if encode_utf8(a) == encode_utf8(b) {
                crate::strings::lemma_utf8_injective(a, b);
            }
        },
        _ => {},
    }
}

pub proof fn lemma_all_hold_each(
    parts: Seq<Term>,
    s: spec_fn(Name) -> core::result::Result<Val, Fail>,
    g: Math,
)
    ensures
        all_hold(parts, s, g) == Ok::<bool, Fail>(true) <==> forall|i: int|
            0 <= i < parts.len() ==> holds_in(#[trigger] parts[i], s, g) == Ok::<bool, Fail>(true),
    decreases parts.len(),
{
    if parts.len() > 0 {
        let less = parts.drop_last();
        lemma_all_hold_each(less, s, g);
        assert forall|i: int| 0 <= i < less.len() implies less[i] == #[trigger] parts[i] by {}
        if all_hold(parts, s, g) == Ok::<bool, Fail>(true) {
            assert(holds_in(parts.last(), s, g) == Ok::<bool, Fail>(true));
            assert forall|i: int| 0 <= i < parts.len() implies holds_in(#[trigger] parts[i], s, g)
                == Ok::<bool, Fail>(true) by {
                if i < less.len() {
                    assert(less[i] == parts[i]);
                }
            }
        }
        if forall|i: int|
            0 <= i < parts.len() ==> holds_in(#[trigger] parts[i], s, g) == Ok::<bool, Fail>(
                true,
            ) {
            assert forall|i: int| 0 <= i < less.len() implies holds_in(#[trigger] less[i], s, g)
                == Ok::<bool, Fail>(true) by {
                assert(less[i] == parts[i]);
            }
            assert(parts.last() == parts[parts.len() - 1]);
        }
    }
}

proof fn lemma_unused_holds(
    parts: Seq<Term>,
    n: int,
    used: Set<int>,
    s: spec_fn(Name) -> core::result::Result<Val, Fail>,
    g: Math,
)
    requires
        0 <= n <= parts.len(),
    ensures
        all_hold(unused(parts, n, used), s, g) == Ok::<bool, Fail>(true) <==> forall|i: int|
            0 <= i < n && !used.contains(i) ==> holds_in(#[trigger] parts[i], s, g) == Ok::<
                bool,
                Fail,
            >(true),
    decreases n,
{
    if n > 0 {
        lemma_unused_holds(parts, n - 1, used, s, g);
        if !used.contains(n - 1) {
            let now = unused(parts, n, used);
            assert(now.drop_last() =~= unused(parts, n - 1, used));
            assert(now.last() == parts[n - 1]);
        }
    }
}

/// A part that pins a column holds in a row exactly when the column holds
/// the literal, as the column would store it.
proof fn lemma_pin_holds(t: Tab, part: Term, row: Seq<Val>, p: int, nullable: bool, g: Math)
    requires
        row_typed(t.columns, row),
        pins(part) is Some,
        place(t, (pins(part)->0).0) == Some(p),
        fitted((pins(part)->0).1, t.columns[p].ty, nullable) is Ok,
    ensures
        holds_in(part, row_names(t, row), g) == Ok::<bool, Fail>(
            row[p] == fitted((pins(part)->0).1, t.columns[p].ty, nullable)->Ok_0,
        ),
{
    reveal_with_fuel(worth, 3);
    reveal_with_fuel(holds_in, 3);
    let (n, v) = pins(part)->0;
    lemma_spot(t.columns, n.column);
    lemma_equal_is_same(row[p], v, t.columns[p].ty, nullable);
}

/// A row passes the filter exactly when the access path reaches it and it
/// passes what the plan leaves to check.
pub proof fn law_plan_selects_what_the_filter_selects(t: Tab, f: Term, row: Seq<Val>, g: Math)
    requires
        row_typed(t.columns, row),
        planned(t, Some(f)) is Ok,
    ensures
        holds_in(f, row_names(t, row), g) == Ok::<bool, Fail>(true) <==> {
            let w = planned(t, Some(f))->Ok_0;
            &&& reaches(t, w.path, row)
            &&& w.residual matches Some(r) ==> holds_in(r, row_names(t, row), g) == Ok::<
                bool,
                Fail,
            >(true)
        },
{
    let w = planned(t, Some(f))->Ok_0;
    let s = row_names(t, row);
    let parts = conj(f);
    let n = parts.len() as int;
    law_condition_is_its_conjuncts(f, s, g);
    lemma_all_hold_each(parts, s, g);
    if key_pinned(t, parts) {
        let spots = key_spots(t.columns);
        let used = key_parts(t, parts);
        let rest = unused(parts, n, used.to_set());
        lemma_unused_holds(parts, n, used.to_set(), s, g);
        lemma_conjoin_holds(rest, s, g);
        lemma_key_spots(t.columns);
        let vs = w.path->KeyLookup_0;
        assert forall|k: int| 0 <= k < spots.len() implies {
            &&& 0 <= #[trigger] used[k] < n
            &&& holds_in(parts[used[k]], s, g) == Ok::<bool, Fail>(row[spots[k]] == vs[k])
        } by {
            lemma_pinned(t, parts, spots[k]);
            assert(pinned(t, parts, spots[k]) is Some);
            assert(key_value(t, parts, k) is Ok);
            lemma_pin_holds(t, parts[used[k]], row, spots[k], false, g);
        }
        if reaches(t, w.path, row) {
            assert forall|i: int| 0 <= i < n && used.to_set().contains(i) implies holds_in(
                #[trigger] parts[i],
                s,
                g,
            ) == Ok::<bool, Fail>(true) by {
                let k = choose|k: int| 0 <= k < used.len() && used[k] == i;
                assert(used[k] == i);
                assert(pk_of(t.columns, row)[k] == vs[k]);
            }
        }
        if holds_in(f, s, g) == Ok::<bool, Fail>(true) {
            assert forall|k: int| 0 <= k < vs.len() implies #[trigger] pk_of(t.columns, row)[k]
                == vs[k] by {
                assert(0 <= used[k] < n);
                assert(holds_in(parts[used[k]], s, g) == Ok::<bool, Fail>(true));
            }
            assert(pk_of(t.columns, row) =~= vs);
        }
        if rest.len() == 0 {
            assert(all_hold(rest, s, g) == Ok::<bool, Fail>(true));
        }
    } else {
        lemma_probed(t, parts);
        match probed(t, parts) {
            Some(i) => {
                let used = seq![i].to_set();
                let rest = unused(parts, n, used);
                let p = place(t, (pins(parts[i])->0).0)->0;
                lemma_unused_holds(parts, n, used, s, g);
                lemma_conjoin_holds(rest, s, g);
                lemma_spot(t.columns, (pins(parts[i])->0).0.column);
                lemma_pin_holds(t, parts[i], row, p, true, g);
                assert(seq![i][0] == i);
                assert(forall|j: int| used.contains(j) <==> j == i) by {
                    assert forall|j: int| used.contains(j) implies j == i by {
                        let k = choose|k: int| 0 <= k < seq![i].len() && seq![i][k] == j;
                        assert(seq![i][k] == i);
                    }
                    assert(seq![i].contains(i));
                }
                if rest.len() == 0 {
                    assert(all_hold(rest, s, g) == Ok::<bool, Fail>(true));
                }
            },
            None => {},
        }
    }
}

// ---------------------------------------------------------------------
// explain rendering
// ---------------------------------------------------------------------

pub struct ExplainNode {
    pub label: String,
    pub children: Vec<ExplainNode>,
}

impl ExplainNode {
    /// The node and what is below it, one line each, each level indented by
    /// two more spaces.
    pub open spec fn lines(self, pad: Seq<char>) -> Seq<Seq<char>>
        decreases self,
    {
        seq![pad + self.label@] + lines_of(self.children@, pad + "  "@)
    }

    pub fn leaf(label: String) -> (r: Self)
        ensures
            r.label == label,
            r.children@.len() == 0,
            forall|pad: Seq<char>| #[trigger] r.lines(pad) == seq![pad + label@],
    {
        let r = ExplainNode { label, children: Vec::new() };
        proof {
            assert forall|pad: Seq<char>| #[trigger] r.lines(pad) == seq![pad + label@] by {
                reveal_with_fuel(lines_of, 2);
                assert(r.lines(pad) =~= seq![pad + label@]);
            }
        }
        r
    }

    pub fn over(label: String, child: ExplainNode) -> (r: Self)
        ensures
            r.label == label,
            r.children@ == seq![child],
            forall|pad: Seq<char>| #[trigger]
                r.lines(pad) == seq![pad + label@] + child.lines(pad + "  "@),
    {
        let mut children: Vec<ExplainNode> = Vec::new();
        children.push(child);
        let r = ExplainNode { label, children };
        proof {
            assert(r.children@ =~= seq![child]);
            assert forall|pad: Seq<char>| #[trigger] r.lines(pad) == seq![pad + label@]
                + child.lines(pad + "  "@) by {
                reveal_with_fuel(ExplainNode::lines, 2);
                lemma_one_child(child, pad + "  "@);
            }
        }
        r
    }

    /// A node over two others.
    pub fn over_two(label: String, first: ExplainNode, second: ExplainNode) -> (r: Self)
        ensures
            r.label == label,
            r.children@ == seq![first, second],
            forall|pad: Seq<char>| #[trigger]
                r.lines(pad) == seq![pad + label@] + (first.lines(pad + "  "@) + second.lines(
                    pad + "  "@,
                )),
    {
        let mut children: Vec<ExplainNode> = Vec::new();
        children.push(first);
        children.push(second);
        let r = ExplainNode { label, children };
        proof {
            assert(r.children@ =~= seq![first, second]);
            assert forall|pad: Seq<char>| #[trigger] r.lines(pad) == seq![pad + label@] + (
            first.lines(pad + "  "@) + second.lines(pad + "  "@)) by {
                reveal_with_fuel(ExplainNode::lines, 2);
                reveal_with_fuel(lines_of, 2);
                let both = seq![first, second];
                assert(both.subrange(1, 2) =~= seq![second]);
                lemma_one_child(second, pad + "  "@);
            }
        }
        r
    }

    pub fn render(&self) -> (r: Vec<String>)
        ensures
            texts(r@) == self.lines(Seq::empty()),
    {
        let mut out: Vec<String> = Vec::new();
        self.render_into("", &mut out);
        proof {
            reveal_strlit("");
            assert(""@ =~= Seq::empty());
            assert(texts(Seq::<String>::empty()) + self.lines(Seq::empty()) =~= self.lines(
                Seq::empty(),
            ));
        }
        out
    }

    fn render_into(&self, pad: &str, out: &mut Vec<String>)
        ensures
            texts(final(out)@) == texts(old(out)@) + self.lines(pad@),
        decreases self,
    {
        let ghost start = out@;
        out.push(join2(pad, self.label.as_str()));
        let deeper = join2(pad, "  ");
        let len: usize = self.children.len();
        let ghost kids = self.children@;
        let ghost head = out@;
        proof {
            assert(texts(head) =~= texts(start).push(pad@ + self.label@));
            assert(kids.take(0) =~= Seq::empty());
            assert(texts(head) + lines_of(kids.take(0), deeper@) =~= texts(head));
        }
        for i in 0..len
            invariant
                len == self.children@.len(),
                kids == self.children@,
                texts(out@) == texts(head) + lines_of(kids.take(i as int), deeper@),
        {
            proof {
                assert(decreases_to!(self => self.children));
                assert(decreases_to!(self.children => self.children@));
                assert(decreases_to!(self.children@ => self.children@[i as int]));
            }
            self.children[i].render_into(deeper.as_str(), out);
            proof {
                lemma_lines_push(kids.take(i as int), kids[i as int], deeper@);
                assert(kids.take(i as int).push(kids[i as int]) =~= kids.take(i as int + 1));
                assert(texts(out@) =~= texts(head) + lines_of(kids.take(i as int + 1), deeper@));
            }
        }
        proof {
            assert(kids.take(len as int) =~= kids);
            assert(texts(out@) =~= texts(start) + self.lines(pad@));
        }
    }
}

/// The lines of some nodes, one after the other.
pub open spec fn lines_of(kids: Seq<ExplainNode>, pad: Seq<char>) -> Seq<Seq<char>>
    decreases kids,
{
    if kids.len() == 0 {
        Seq::empty()
    } else {
        kids[0].lines(pad) + lines_of(kids.subrange(1, kids.len() as int), pad)
    }
}

proof fn lemma_one_child(n: ExplainNode, pad: Seq<char>)
    ensures
        lines_of(seq![n], pad) == n.lines(pad),
{
    reveal_with_fuel(lines_of, 2);
    assert(seq![n].subrange(1, 1) =~= Seq::empty());
    assert(lines_of(seq![n], pad) =~= n.lines(pad));
}

proof fn lemma_lines_push(kids: Seq<ExplainNode>, n: ExplainNode, pad: Seq<char>)
    ensures
        lines_of(kids.push(n), pad) == lines_of(kids, pad) + n.lines(pad),
    decreases kids.len(),
{
    if kids.len() == 0 {
        assert(kids.push(n) =~= seq![n]);
        lemma_one_child(n, pad);
        assert(lines_of(kids, pad) + n.lines(pad) =~= n.lines(pad));
    } else {
        let rest = kids.subrange(1, kids.len() as int);
        lemma_lines_push(rest, n, pad);
        assert(kids.push(n).subrange(1, kids.len() as int + 1) =~= rest.push(n));
        assert(lines_of(kids.push(n), pad) =~= lines_of(kids, pad) + n.lines(pad));
    }
}

/// One `column = literal` of a key lookup.
pub open spec fn key_shown(t: Tab, vs: Seq<Val>, k: int, f: Shown) -> Seq<char> {
    t.columns[key_spots(t.columns)[k]].name + " = "@ + literal_shown(vs[k], f)
}

/// How an access path is shown.
pub open spec fn path_shown(t: Tab, p: Path, f: Shown) -> Seq<char> {
    match p {
        Path::KeyLookup(vs) => "KeyLookup "@ + t.name + " ("@ + joined(
            Seq::new(vs.len(), |k: int| key_shown(t, vs, k, f)),
            ", "@,
        ) + ")"@,
        Path::IndexScan(c, _, v) => "IndexScan "@ + t.name + " via "@ + t.columns[c].name + " = "@
            + literal_shown(v, f),
        Path::SeqScan => "SeqScan "@ + t.name,
    }
}

/// How a plan is shown: the access path, under the filter where one is left.
pub open spec fn way_shown(t: Tab, w: Way, f: Shown, pad: Seq<char>) -> Seq<Seq<char>> {
    match w.residual {
        None => seq![pad + path_shown(t, w.path, f)],
        Some(e) => seq![pad + ("Filter "@ + expr_shown(e, f))] + seq![
            pad + "  "@ + path_shown(t, w.path, f),
        ],
    }
}

/// Whether a plan can be a plan for this table.
pub open spec fn suits(t: Tab, p: Path) -> bool {
    match p {
        Path::KeyLookup(vs) => vs.len() == key_spots(t.columns).len(),
        Path::IndexScan(c, _, _) => 0 <= c < t.columns.len(),
        Path::SeqScan => true,
    }
}

/// A plan made for a table suits it.
pub proof fn lemma_planned_suits(t: Tab, filter: Option<Term>)
    requires
        planned(t, filter) is Ok,
    ensures
        suits(t, (planned(t, filter)->Ok_0).path),
{
    if let Some(f) = filter {
        lemma_probed(t, conj(f));
        if let Some(i) = probed(t, conj(f)) {
            lemma_spot(t.columns, (pins(conj(f)[i])->0).0.column);
        }
    }
}

fn show_path<M: Fn(BinaryOp, u64, u64) -> u64, T: Fn(u64) -> String>(
    table: &Table,
    access: &Access,
    floats: &Floats<M, T>,
) -> (r: String)
    requires
        floats.ok(),
        suits(table@, access@),
    ensures
        r@ == path_shown(table@, access@, floats.shown()),
{
    match access {
        Access::KeyLookup { key_values } => {
            let keys: Vec<usize> = table.key_positions();
            let mut parts: Vec<String> = Vec::new();
            let len: usize = key_values.len();
            let ghost t = table@;
            let ghost vs = vals(key_values@);
            let ghost want = Seq::new(vs.len(), |k: int| key_shown(t, vs, k, floats.shown()));
            proof {
                lemma_key_spots(t.columns);
                assert(ints(keys@).len() == len);
            }
            for k in 0..len
                invariant
                    len == key_values@.len() == keys@.len(),
                    t == table@,
                    vs == vals(key_values@),
                    ints(keys@) == key_spots(t.columns),
                    floats.ok(),
                    want == Seq::new(vs.len(), |k: int| key_shown(t, vs, k, floats.shown())),
                    forall|j: int|
                        0 <= j < key_spots(t.columns).len() ==> 0 <= #[trigger] key_spots(
                            t.columns,
                        )[j] < t.columns.len(),
                    parts@.len() == k,
                    forall|j: int| 0 <= j < k ==> (#[trigger] parts@[j])@ == want[j],
            {
                proof {
                    assert(ints(keys@)[k as int] == key_spots(t.columns)[k as int]);
                    assert(t.columns[keys@[k as int] as int] == table.columns@[keys@[k as int]
                        as int]@);
                    assert(vs[k as int] == key_values@[k as int]@);
                }
                parts.push(
                    join3(
                        table.columns[keys[k]].name.as_str(),
                        " = ",
                        pretty::literal(&key_values[k], floats).as_str(),
                    ),
                );
            }
            proof {
                assert(texts(parts@) =~= want);
            }
            join3(
                join3("KeyLookup ", table.name.as_str(), " (").as_str(),
                join_all(&parts, ", ").as_str(),
                ")",
            )
        },
        Access::IndexScan { column, index_id: _, value } => {
            proof {
                assert(table@.columns[*column as int] == table.columns@[*column as int]@);
            }
            join2(
                join3(
                    join3("IndexScan ", table.name.as_str(), " via ").as_str(),
                    table.columns[*column].name.as_str(),
                    " = ",
                ).as_str(),
                pretty::literal(value, floats).as_str(),
            )
        },
        Access::SeqScan => join2("SeqScan ", table.name.as_str()),
    }
}

/// The nodes of one access plan.
pub fn explain_access<M: Fn(BinaryOp, u64, u64) -> u64, T: Fn(u64) -> String>(
    table: &Table,
    plan: &AccessPlan,
    floats: &Floats<M, T>,
) -> (r: ExplainNode)
    requires
        floats.ok(),
        suits(table@, plan@.path),
    ensures
        forall|pad: Seq<char>| #[trigger]
            r.lines(pad) == way_shown(table@, plan@, floats.shown(), pad),
{
    let access = ExplainNode::leaf(show_path(table, &plan.access, floats));
    match &plan.residual {
        Some(e) => ExplainNode::over(join2("Filter ", pretty::expr(e, floats).as_str()), access),
        None => access,
    }
}

/// How a sort and a limit are shown over what they work on.
pub open spec fn trimmed_shown(
    order: Option<(Name, Direction)>,
    limit: Option<u64>,
    pad: Seq<char>,
    under: spec_fn(Seq<char>) -> Seq<Seq<char>>,
) -> Seq<Seq<char>> {
    match limit {
        Some(n) => seq![pad + ("Limit "@ + decimal(n as nat))] + sorted_shown(
            order,
            pad + "  "@,
            under,
        ),
        None => sorted_shown(order, pad, under),
    }
}

pub open spec fn sorted_shown(
    order: Option<(Name, Direction)>,
    pad: Seq<char>,
    under: spec_fn(Seq<char>) -> Seq<Seq<char>>,
) -> Seq<Seq<char>> {
    match order {
        Some((n, d)) => seq![
            pad + ("Sort "@ + name_shown(n) + (if d is Asc {
                " asc"@
            } else {
                " desc"@
            })),
        ] + under(pad + "  "@),
        None => under(pad),
    }
}

/// What an optional order says.
pub open spec fn opt_order(o: Option<(ColumnRef, Direction)>) -> Option<(Name, Direction)> {
    match o {
        Some((c, d)) => Some((c@, d)),
        None => None,
    }
}

/// Put a sort and a limit over a node.
pub fn explain_trim(
    node: ExplainNode,
    order: &Option<(ColumnRef, Direction)>,
    limit: Option<u64>,
) -> (r: ExplainNode)
    ensures
        forall|pad: Seq<char>| #[trigger]
            r.lines(pad) == trimmed_shown(
                opt_order(*order),
                limit,
                pad,
                |p: Seq<char>| node.lines(p),
            ),
{
    let sorted = match order {
        Some((col, dir)) => ExplainNode::over(
            join3(
                "Sort ",
                pretty::column(col).as_str(),
                match dir {
                    Direction::Asc => " asc",
                    Direction::Desc => " desc",
                },
            ),
            node,
        ),
        None => node,
    };
    match limit {
        Some(n) => ExplainNode::over(join2("Limit ", u64_text(n).as_str()), sorted),
        None => sorted,
    }
}

/// The nodes of a read of one table.
pub fn explain_get<M: Fn(BinaryOp, u64, u64) -> u64, T: Fn(u64) -> String>(
    table: &Table,
    plan: &AccessPlan,
    order: &Option<(ColumnRef, Direction)>,
    limit: Option<u64>,
    floats: &Floats<M, T>,
) -> (r: ExplainNode)
    requires
        floats.ok(),
        suits(table@, plan@.path),
    ensures
        forall|pad: Seq<char>| #[trigger]
            r.lines(pad) == trimmed_shown(
                opt_order(*order),
                limit,
                pad,
                |p: Seq<char>| way_shown(table@, plan@, floats.shown(), p),
            ),
{
    let node = explain_access(table, plan, floats);
    explain_trim(node, order, limit)
}

} // verus!
