//! Joins: what a column name means across several tables, and how one join
//! step finds its rows.

use vstd::prelude::*;

use crate::ast::{BinaryOp, ColumnRef, Expr, Join, JoinKind, Name, Term, TypeName};
use crate::catalog::{ints, key_spots, lemma_key_spots, lemma_spot, spot, Tab, Table};
use crate::encoding::{vals, Val, Value};
use crate::exec_error::{ExecError, Fail};
use crate::plan::{conj, conjuncts, terms, ExplainNode};
use crate::pretty;
use crate::pretty::expr_shown;
use crate::strings::{join2, join3, join_all, owned, same_text};
use crate::value_ops::{Floats, Scope, Shown};

verus! {

/// What some table definitions say.
pub open spec fn tabs(s: Seq<Table>) -> Seq<Tab> {
    Seq::new(s.len(), |i: int| s[i]@)
}

/// How many columns the first `n` tables have together.
pub open spec fn width(ts: Seq<Tab>, n: int) -> nat
    decreases n,
{
    if n <= 0 {
        0
    } else {
        width(ts, n - 1) + ts[n - 1].columns.len()
    }
}

/// The first of the first `n` tables with that name.
pub open spec fn named(ts: Seq<Tab>, n: int, name: Seq<char>) -> Option<int>
    decreases n,
{
    if n <= 0 {
        None
    } else {
        match named(ts, n - 1, name) {
            Some(i) => Some(i),
            None => if ts[n - 1].name == name {
                Some(n - 1)
            } else {
                None
            },
        }
    }
}

/// Which of the first `n` tables have a column of that name.
pub open spec fn havers(ts: Seq<Tab>, n: int, column: Seq<char>) -> Seq<int>
    decreases n,
{
    if n <= 0 {
        Seq::empty()
    } else if spot(ts[n - 1].columns, column) is Some {
        havers(ts, n - 1, column).push(n - 1)
    } else {
        havers(ts, n - 1, column)
    }
}

/// Where a reference points in the combined row of the first `n` tables. An
/// unqualified name must be unambiguous among them.
pub open spec fn resolved(ts: Seq<Tab>, n: int, r: Name) -> Option<int> {
    match r.table {
        Some(t) => match named(ts, n, t) {
            None => None,
            Some(i) => match spot(ts[i].columns, r.column) {
                Some(p) => Some(width(ts, i) + p),
                None => None,
            },
        },
        None => {
            let h = havers(ts, n, r.column);
            if h.len() == 1 {
                Some(width(ts, h[0]) + spot(ts[h[0]].columns, r.column)->0)
            } else {
                None
            }
        },
    }
}

/// What names mean in a combined row of the first `n` tables.
pub open spec fn joint_names(ts: Seq<Tab>, n: int, row: Seq<Val>) -> spec_fn(
    Name,
) -> core::result::Result<Val, Fail> {
    |r: Name|
        match resolved(ts, n, r) {
            Some(i) => Ok(row[i]),
            None => Err(Fail::Plan),
        }
}

/// Whether every column an expression mentions resolves among the first `n`
/// tables.
pub open spec fn known_within(ts: Seq<Tab>, n: int, e: Term) -> bool
    decreases e,
{
    match e {
        Term::Literal(_) => true,
        Term::Column(r) => resolved(ts, n, r) is Some,
        Term::Unary(_, x) => known_within(ts, n, *x),
        Term::Binary(l, _, r) => known_within(ts, n, *l) && known_within(ts, n, *r),
    }
}

/// Tables that can be joined: no name twice, and a combined row that can be
/// counted.
pub open spec fn joinable(ts: Seq<Tab>) -> bool {
    &&& forall|i: int, j: int|
        0 <= i < j < ts.len() ==> (#[trigger] ts[i]).name != (#[trigger] ts[j]).name
    &&& width(ts, ts.len() as int) <= usize::MAX
}

pub proof fn lemma_width_grows(ts: Seq<Tab>, m: int, n: int)
    requires
        0 <= m <= n,
    ensures
        width(ts, m) <= width(ts, n),
    decreases n - m,
{
    if m < n {
        lemma_width_grows(ts, m, n - 1);
    }
}

pub proof fn lemma_named(ts: Seq<Tab>, n: int, name: Seq<char>)
    ensures
        named(ts, n, name) matches Some(i) ==> 0 <= i < n && ts[i].name == name,
    decreases n,
{
    if n > 0 {
        lemma_named(ts, n - 1, name);
    }
}

pub proof fn lemma_named_grows(ts: Seq<Tab>, m: int, n: int, name: Seq<char>)
    requires
        0 <= m <= n,
        named(ts, m, name) is Some,
    ensures
        named(ts, n, name) == named(ts, m, name),
    decreases n - m,
{
    if m < n {
        lemma_named_grows(ts, m, n - 1, name);
    }
}

proof fn lemma_havers(ts: Seq<Tab>, n: int, column: Seq<char>)
    ensures
        forall|k: int|
            0 <= k < havers(ts, n, column).len() ==> 0 <= #[trigger] havers(ts, n, column)[k] < n
                && spot(ts[havers(ts, n, column)[k]].columns, column) is Some,
    decreases n,
{
    if n > 0 {
        lemma_havers(ts, n - 1, column);
        let a = havers(ts, n - 1, column);
        let b = havers(ts, n, column);
        assert forall|k: int| 0 <= k < b.len() implies 0 <= #[trigger] b[k] < n && spot(
            ts[b[k]].columns,
            column,
        ) is Some by {
            if k < a.len() {
                assert(b[k] == a[k]);
            }
        }
    }
}

/// A resolved reference points into the combined row.
pub proof fn lemma_resolved(ts: Seq<Tab>, n: int, r: Name)
    ensures
        resolved(ts, n, r) matches Some(i) ==> 0 <= i < width(ts, n),
{
    if let Some(i) = resolved(ts, n, r) {
        let t = match r.table {
            Some(name) => {
                lemma_named(ts, n, name);
                named(ts, n, name)->0
            },
            None => {
                lemma_havers(ts, n, r.column);
                assert(0 <= havers(ts, n, r.column)[0] < n);
                havers(ts, n, r.column)[0]
            },
        };
        lemma_spot(ts[t].columns, r.column);
        lemma_width_grows(ts, t + 1, n);
    }
}

/// The tables of a join statement, in from-clause order, with the offset
/// of each table's columns inside the combined row.
pub struct Bound {
    pub tables: Vec<Table>,
    pub offsets: Vec<usize>,
}

impl Bound {
    pub open spec fn wf(&self) -> bool {
        &&& joinable(tabs(self.tables@))
        &&& self.offsets@.len() == self.tables@.len()
        &&& forall|i: int|
            0 <= i < self.offsets@.len() ==> (#[trigger] self.offsets@[i]) as nat == width(
                tabs(self.tables@),
                i,
            )
    }

    /// Bind some tables, unless one of them appears twice.
    pub fn new(tables: Vec<Table>) -> (r: core::result::Result<Bound, ExecError>)
        ensures
            match r {
                Ok(b) => b.wf() && tabs(b.tables@) == tabs(tables@),
                Err(e) => !joinable(tabs(tables@)) && e.fail() is Plan,
            },
    {
        let len: usize = tables.len();
        let ghost ts = tabs(tables@);
        for i in 0..len
            invariant
                len == tables@.len(),
                ts == tabs(tables@),
                forall|a: int, b: int|
                    0 <= a < b < i ==> (#[trigger] ts[a]).name != (#[trigger] ts[b]).name,
        {
            for j in 0..i
                invariant
                    i < len == tables@.len(),
                    ts == tabs(tables@),
                    forall|a: int| 0 <= a < j ==> (#[trigger] ts[a]).name != ts[i as int].name,
            {
                if same_text(tables[j].name.as_str(), tables[i].name.as_str()) {
                    proof {
                        assert(ts[j as int].name == ts[i as int].name);
                    }
                    return Err(
                        ExecError::Plan(
                            join3(
                                "table '",
                                tables[i].name.as_str(),
                                "' appears twice in this statement; table aliases are not supported yet",
                            ),
                        ),
                    );
                }
            }
        }
        let mut offsets: Vec<usize> = Vec::new();
        let mut wide: usize = 0;
        for i in 0..len
            invariant
                len == tables@.len(),
                ts == tabs(tables@),
                offsets@.len() == i,
                wide as nat == width(ts, i as int),
                forall|k: int|
                    0 <= k < i ==> (#[trigger] offsets@[k]) as nat == width(ts, k),
        {
            let more: usize = tables[i].columns.len();
            proof {
                assert(ts[i as int].columns.len() == more);
                lemma_width_grows(ts, i as int + 1, len as int);
            }
            if more > usize::MAX - wide {
                return Err(ExecError::Plan(owned("the tables have too many columns to join")));
            }
            offsets.push(wide);
            wide = wide + more;
        }
        Ok(Bound { tables, offsets })
    }

    /// Resolve a reference against the first `upto` tables. Unqualified
    /// names must be unambiguous within that scope.
    pub fn resolve_within(&self, r: &ColumnRef, upto: usize) -> (o: core::result::Result<
        usize,
        ExecError,
    >)
        requires
            self.wf(),
            upto <= self.tables@.len(),
        ensures
            match o {
                Ok(i) => resolved(tabs(self.tables@), upto as int, r@) == Some(i as int) && i
                    < width(tabs(self.tables@), upto as int),
                Err(e) => resolved(tabs(self.tables@), upto as int, r@) is None && e.fail() is Plan,
            },
    {
        let ghost ts = tabs(self.tables@);
        proof {
            lemma_resolved(ts, upto as int, r@);
            lemma_width_grows(ts, upto as int, ts.len() as int);
        }
        match &r.table {
            Some(t) => {
                let i: usize = match self.find_table(t.as_str(), upto) {
                    Some(i) => i,
                    None => return Err(
                        ExecError::Plan(
                            join3("no table named '", t.as_str(), "' in this statement"),
                        ),
                    ),
                };
                match self.tables[i].column_position(r.column.as_str()) {
                    Some(pos) => Ok(self.offsets[i] + pos),
                    None => Err(crate::rows::no_column(t.as_str(), r.column.as_str())),
                }
            },
            None => {
                let mut hits: Vec<(usize, usize)> = Vec::new();
                let mut spellings: Vec<String> = Vec::new();
                for i in 0..upto
                    invariant
                        upto <= self.tables@.len(),
                        ts == tabs(self.tables@),
                        hits@.len() == havers(ts, i as int, r.column@).len(),
                        forall|k: int|
                            0 <= k < hits@.len() ==> (#[trigger] hits@[k]).0 as int == havers(
                                ts,
                                i as int,
                                r.column@,
                            )[k] && hits@[k].0 < i && spot(
                                ts[hits@[k].0 as int].columns,
                                r.column@,
                            ) == Some(hits@[k].1 as int),
                {
                    proof {
                        assert(ts[i as int] == self.tables@[i as int]@);
                    }
                    if let Some(pos) = self.tables[i].column_position(r.column.as_str()) {
                        hits.push((i, pos));
                        spellings.push(
                            join3(self.tables[i].name.as_str(), ".", r.column.as_str()),
                        );
                    }
                }
                if hits.len() == 0 {
                    return Err(
                        ExecError::Plan(
                            join3(
                                "no table in this statement has a column '",
                                r.column.as_str(),
                                "'",
                            ),
                        ),
                    );
                }
                if hits.len() > 1 {
                    return Err(
                        ExecError::Plan(
                            join3(
                                join3(
                                    "column '",
                                    r.column.as_str(),
                                    "' is ambiguous here; qualify it (",
                                ).as_str(),
                                join_all(&spellings, " or ").as_str(),
                                ")",
                            ),
                        ),
                    );
                }
                let hit: (usize, usize) = hits[0];
                Ok(self.offsets[hit.0] + hit.1)
            },
        }
    }

    fn find_table(&self, name: &str, upto: usize) -> (r: Option<usize>)
        requires
            upto <= self.tables@.len(),
        ensures
            match r {
                Some(i) => named(tabs(self.tables@), upto as int, name@) == Some(i as int) && i
                    < upto,
                None => named(tabs(self.tables@), upto as int, name@) is None,
            },
    {
        let ghost ts = tabs(self.tables@);
        for i in 0..upto
            invariant
                upto <= self.tables@.len(),
                ts == tabs(self.tables@),
                named(ts, i as int, name@) is None,
        {
            if same_text(self.tables[i].name.as_str(), name) {
                proof {
                    lemma_named_grows(ts, i as int + 1, upto as int, name@);
                }
                return Some(i);
            }
        }
        None
    }

    /// Every column of the expression must resolve among the first `upto`
    /// tables.
    pub fn validate_within(&self, expr: &Expr, upto: usize) -> (r: core::result::Result<
        (),
        ExecError,
    >)
        requires
            self.wf(),
            upto <= self.tables@.len(),
        ensures
            match r {
                Ok(_) => known_within(tabs(self.tables@), upto as int, expr@),
                Err(e) => !known_within(tabs(self.tables@), upto as int, expr@) && e.fail() is Plan,
            },
        decreases expr,
    {
        match expr {
            Expr::Literal(_) => Ok(()),
            Expr::Column(r) => match self.resolve_within(r, upto) {
                Ok(_) => Ok(()),
                Err(e) => Err(e),
            },
            Expr::Unary(_, inner) => self.validate_within(inner, upto),
            Expr::Binary(l, _, r) => match self.validate_within(l, upto) {
                Ok(_) => self.validate_within(r, upto),
                Err(e) => Err(e),
            },
        }
    }
}

/// A combined row over the first `upto` tables of a bind.
pub struct BoundScope<'a> {
    pub bound: &'a Bound,
    pub upto: usize,
    pub values: &'a Vec<Value>,
}

impl<'a> Scope for BoundScope<'a> {
    open spec fn holds(&self) -> spec_fn(Name) -> core::result::Result<Val, Fail> {
        joint_names(tabs(self.bound.tables@), self.upto as int, vals(self.values@))
    }

    open spec fn ready(&self) -> bool {
        &&& self.bound.wf()
        &&& self.upto <= self.bound.tables@.len()
        &&& self.values@.len() == width(tabs(self.bound.tables@), self.upto as int)
    }

    fn column(&self, name: &ColumnRef) -> (r: core::result::Result<Value, ExecError>) {
        match self.bound.resolve_within(name, self.upto) {
            Ok(i) => {
                proof {
                    assert(vals(self.values@)[i as int] == self.values@[i as int]@);
                }
                Ok(self.values[i].duplicate())
            },
            Err(e) => Err(e),
        }
    }
}

// ---------------------------------------------------------------------
// join planning
// ---------------------------------------------------------------------

/// How one join step runs. Every strategy is only an accelerator: the
/// executor evaluates the full `on` condition on every candidate row, so a
/// probe can never change results, only skip rows that could not match.
#[derive(Debug)]
pub enum JoinStrategy {
    /// Materialize the right table once, test every pair.
    NestedLoop,
    /// Probe the right table's single-column primary key with the value of
    /// a left column, per left row.
    KeyProbe { left: ColumnRef },
    /// Probe a secondary index on the right table with the value of a left
    /// column, per left row.
    IndexProbe { left: ColumnRef, column: usize, index_id: u64 },
}

/// What a strategy says.
pub enum Probe {
    NestedLoop,
    KeyProbe(Name),
    IndexProbe(Name, int, u64),
}

impl View for JoinStrategy {
    type V = Probe;

    open spec fn view(&self) -> Probe {
        match self {
            JoinStrategy::NestedLoop => Probe::NestedLoop,
            JoinStrategy::KeyProbe { left } => Probe::KeyProbe(left@),
            JoinStrategy::IndexProbe { left, column, index_id } => Probe::IndexProbe(
                left@,
                *column as int,
                *index_id,
            ),
        }
    }
}

/// Can a value of the left column's type probe the right column without a
/// coercion that could fail? Equal types always; int probes float because
/// widening never fails.
pub open spec fn probes(left: TypeName, right: TypeName) -> bool {
    left == right || (left is Int && right is Float)
}

/// Whether any of the tables has a column of that name.
pub open spec fn someone_has(ts: Seq<Tab>, column: Seq<char>) -> bool {
    exists|i: int| 0 <= i < ts.len() && spot((#[trigger] ts[i]).columns, column) is Some
}

/// Which column of `t` a reference means, with `others` in scope too.
pub open spec fn means(r: Name, t: Tab, others: Seq<Tab>) -> Option<int> {
    match r.table {
        Some(q) => if q == t.name {
            spot(t.columns, r.column)
        } else {
            None
        },
        None => if someone_has(others, r.column) {
            None
        } else {
            spot(t.columns, r.column)
        },
    }
}

/// The first of the first `n` left tables a reference means a column of.
pub open spec fn left_home(ls: Seq<Tab>, n: int, right: Tab, r: Name) -> Option<int>
    decreases n,
{
    if n <= 0 {
        None
    } else {
        match left_home(ls, n - 1, right, r) {
            Some(i) => Some(i),
            None => if means(r, ls[n - 1], seq![right]) is Some {
                Some(n - 1)
            } else {
                None
            },
        }
    }
}

/// A right reference and a left one that an `on` condition says are equal.
pub type Pair = (Name, Name);

/// The column of the right table a pair can probe, if it can.
pub open spec fn probe_of(ls: Seq<Tab>, right: Tab, p: Pair) -> Option<int> {
    match (means(p.0, right, ls), left_home(ls, ls.len() as int, right, p.1)) {
        (Some(rp), Some(i)) => if probes(
            ls[i].columns[means(p.1, ls[i], seq![right])->0].ty,
            right.columns[rp].ty,
        ) {
            Some(rp)
        } else {
            None
        },
        _ => None,
    }
}

/// Whether a pair probes the whole primary key.
pub open spec fn is_key_pair(ls: Seq<Tab>, right: Tab, p: Pair) -> bool {
    probe_of(ls, right, p) matches Some(rp) && key_spots(right.columns) == seq![rp]
}

/// Whether a pair probes an indexed column.
pub open spec fn is_index_pair(ls: Seq<Tab>, right: Tab, p: Pair) -> bool {
    probe_of(ls, right, p) matches Some(rp) && right.columns[rp].index_id is Some
}

/// The pairs of one conjunct: both ways round.
pub open spec fn pairs_of(t: Term) -> Seq<Pair> {
    match t {
        Term::Binary(l, op, r) => if op is Eq {
            match (*l, *r) {
                (Term::Column(a), Term::Column(b)) => seq![(a, b), (b, a)],
                _ => Seq::empty(),
            }
        } else {
            Seq::empty()
        },
        _ => Seq::empty(),
    }
}

/// The pairs of all conjuncts, in order.
pub open spec fn pairs(parts: Seq<Term>) -> Seq<Pair>
    decreases parts.len(),
{
    if parts.len() == 0 {
        Seq::empty()
    } else {
        pairs(parts.drop_last()) + pairs_of(parts.last())
    }
}

/// The first pair that probes the key.
pub open spec fn first_key(ls: Seq<Tab>, right: Tab, ps: Seq<Pair>) -> Option<int>
    decreases ps.len(),
{
    if ps.len() == 0 {
        None
    } else {
        match first_key(ls, right, ps.drop_last()) {
            Some(i) => Some(i),
            None => if is_key_pair(ls, right, ps.last()) {
                Some(ps.len() - 1)
            } else {
                None
            },
        }
    }
}

/// The first pair that probes an index.
pub open spec fn first_index(ls: Seq<Tab>, right: Tab, ps: Seq<Pair>) -> Option<int>
    decreases ps.len(),
{
    if ps.len() == 0 {
        None
    } else {
        match first_index(ls, right, ps.drop_last()) {
            Some(i) => Some(i),
            None => if is_index_pair(ls, right, ps.last()) {
                Some(ps.len() - 1)
            } else {
                None
            },
        }
    }
}

/// The strategy for joining `right` onto the tables in `ls`. Key probes win
/// over index probes, first match wins otherwise.
pub open spec fn join_planned(ls: Seq<Tab>, right: Tab, on: Term) -> Probe {
    let ps = pairs(conj(on));
    match first_key(ls, right, ps) {
        Some(i) => Probe::KeyProbe(ps[i].1),
        None => match first_index(ls, right, ps) {
            Some(i) => {
                let c = probe_of(ls, right, ps[i])->0;
                Probe::IndexProbe(ps[i].1, c, right.columns[c].index_id->0)
            },
            None => Probe::NestedLoop,
        },
    }
}

proof fn lemma_first_key_grows(ls: Seq<Tab>, right: Tab, ps: Seq<Pair>, n: int)
    requires
        0 <= n <= ps.len(),
        first_key(ls, right, ps.take(n)) is Some,
    ensures
        first_key(ls, right, ps) == first_key(ls, right, ps.take(n)),
    decreases ps.len() - n,
{
    if n < ps.len() {
        assert(ps.take(n + 1).drop_last() =~= ps.take(n));
        lemma_first_key_grows(ls, right, ps, n + 1);
    } else {
        assert(ps.take(n) =~= ps);
    }
}

pub proof fn lemma_first_key(ls: Seq<Tab>, right: Tab, ps: Seq<Pair>)
    ensures
        first_key(ls, right, ps) matches Some(i) ==> 0 <= i < ps.len() && is_key_pair(
            ls,
            right,
            ps[i],
        ),
    decreases ps.len(),
{
    if ps.len() > 0 {
        lemma_first_key(ls, right, ps.drop_last());
    }
}

pub proof fn lemma_first_index(ls: Seq<Tab>, right: Tab, ps: Seq<Pair>)
    ensures
        first_index(ls, right, ps) matches Some(i) ==> 0 <= i < ps.len() && is_index_pair(
            ls,
            right,
            ps[i],
        ),
    decreases ps.len(),
{
    if ps.len() > 0 {
        lemma_first_index(ls, right, ps.drop_last());
    }
}

/// Whether a strategy can be one for this right table.
pub open spec fn probe_suits(right: Tab, p: Probe) -> bool {
    match p {
        Probe::NestedLoop => true,
        Probe::KeyProbe(_) => key_spots(right.columns).len() == 1,
        Probe::IndexProbe(_, c, _) => 0 <= c < right.columns.len(),
    }
}

/// A strategy planned for a table suits it.
pub proof fn lemma_join_planned_suits(ls: Seq<Tab>, right: Tab, on: Term)
    ensures
        probe_suits(right, join_planned(ls, right, on)),
{
    let ps = pairs(conj(on));
    lemma_first_key(ls, right, ps);
    lemma_first_index(ls, right, ps);
    if let Some(i) = first_index(ls, right, ps) {
        lemma_means(ps[i].0, right, ls);
    }
}

pub proof fn lemma_means(r: Name, t: Tab, others: Seq<Tab>)
    ensures
        means(r, t, others) matches Some(i) ==> 0 <= i < t.columns.len(),
{
    lemma_spot(t.columns, r.column);
}

fn probe_compatible(left: TypeName, right: TypeName) -> (r: bool)
    ensures
        r == probes(left, right),
{
    left == right || (left == TypeName::Int && right == TypeName::Float)
}

fn any_has(others: &[Table], column: &str) -> (r: bool)
    ensures
        r == someone_has(tabs(others@), column@),
{
    let len: usize = others.len();
    let ghost ts = tabs(others@);
    for i in 0..len
        invariant
            len == others@.len(),
            ts == tabs(others@),
            forall|k: int| 0 <= k < i ==> spot((#[trigger] ts[k]).columns, column@) is None,
    {
        if let Some(_) = others[i].column_position(column) {
            proof {
                assert(spot(ts[i as int].columns, column@) is Some);
            }
            return true;
        }
    }
    false
}

/// Does this reference mean a column of `table`, given the other tables in
/// scope?
fn resolves_to(r: &ColumnRef, table: &Table, elsewhere: bool) -> (o: Option<usize>)
    ensures
        match o {
            Some(i) => i < table@.columns.len() && spot(table@.columns, r@.column) == Some(
                i as int,
            ) && (match r@.table {
                Some(q) => q == table@.name,
                None => !elsewhere,
            }),
            None => (match r@.table {
                Some(q) => q == table@.name,
                None => !elsewhere,
            }) ==> spot(table@.columns, r@.column) is None,
        },
{
    match &r.table {
        Some(t) => if same_text(t.as_str(), table.name.as_str()) {
            table.column_position(r.column.as_str())
        } else {
            None
        },
        None => if elsewhere {
            None
        } else {
            table.column_position(r.column.as_str())
        },
    }
}

/// The right column a pair can probe, if it can.
fn find_probe(left: &[Table], right: &Table, right_ref: &ColumnRef, left_ref: &ColumnRef) -> (r:
    Option<usize>)
    ensures
        match r {
            Some(p) => probe_of(tabs(left@), right@, (right_ref@, left_ref@)) == Some(p as int) && p
                < right@.columns.len(),
            None => probe_of(tabs(left@), right@, (right_ref@, left_ref@)) is None,
        },
{
    let ghost ls = tabs(left@);
    let elsewhere: bool = any_has(left, right_ref.column.as_str());
    let right_pos: usize = match resolves_to(right_ref, right, elsewhere) {
        Some(p) => p,
        None => return None,
    };
    proof {
        assert(means(right_ref@, right@, ls) == Some(right_pos as int));
        assert(right@.columns[right_pos as int] == right.columns@[right_pos as int]@);
    }
    let in_right: bool = match right.column_position(left_ref.column.as_str()) {
        Some(_) => true,
        None => false,
    };
    proof {
        assert(in_right == someone_has(seq![right@], left_ref@.column)) by {
            assert(seq![right@][0] == right@);
            if someone_has(seq![right@], left_ref@.column) {
                let i = choose|i: int|
                    0 <= i < seq![right@].len() && spot(
                        (#[trigger] seq![right@][i]).columns,
                        left_ref@.column,
                    ) is Some;
                assert(i == 0);
            }
        }
    }
    let len: usize = left.len();
    for i in 0..len
        invariant
            len == left@.len(),
            ls == tabs(left@),
            in_right == someone_has(seq![right@], left_ref@.column),
            left_home(ls, i as int, right@, left_ref@) is None,
            means(right_ref@, right@, ls) == Some(right_pos as int),
            right_pos < right@.columns.len(),
            right@.columns[right_pos as int] == right.columns@[right_pos as int]@,
    {
        proof {
            assert(ls[i as int] == left@[i as int]@);
        }
        if let Some(pos) = resolves_to(left_ref, &left[i], in_right) {
            proof {
                assert(means(left_ref@, ls[i as int], seq![right@]) == Some(pos as int));
                assert(left_home(ls, i as int + 1, right@, left_ref@) == Some(i as int));
                lemma_left_home_grows(ls, i as int + 1, ls.len() as int, right@, left_ref@);
                assert(ls[i as int].columns[pos as int] == left@[i as int].columns@[pos as int]@);
            }
            if probe_compatible(left[i].columns[pos].ty, right.columns[right_pos].ty) {
                return Some(right_pos);
            }
            return None;
        }
    }
    None
}

proof fn lemma_left_home_grows(ls: Seq<Tab>, m: int, n: int, right: Tab, r: Name)
    requires
        0 <= m <= n,
        left_home(ls, m, right, r) is Some,
    ensures
        left_home(ls, n, right, r) == left_home(ls, m, right, r),
    decreases n - m,
{
    if m < n {
        lemma_left_home_grows(ls, m, n - 1, right, r);
    }
}

/// What some pairs of references say.
pub open spec fn pair_names(s: Seq<(&ColumnRef, &ColumnRef)>) -> Seq<Pair> {
    Seq::new(s.len(), |i: int| (s[i].0@, s[i].1@))
}

/// The pairs of columns an `on` condition says are equal.
fn equal_columns<'a>(on: &'a Expr) -> (r: Vec<(&'a ColumnRef, &'a ColumnRef)>)
    ensures
        pair_names(r@) == pairs(conj(on@)),
{
    let parts = conjuncts(on);
    let ghost ts = terms(parts@);
    let mut out: Vec<(&'a ColumnRef, &'a ColumnRef)> = Vec::new();
    let len: usize = parts.len();
    proof {
        assert(pair_names(out@) =~= pairs(ts.take(0)));
    }
    for i in 0..len
        invariant
            len == parts@.len(),
            ts == terms(parts@),
            pair_names(out@) == pairs(ts.take(i as int)),
    {
        let ghost before = out@;
        proof {
            reveal_with_fuel(Expr::term, 3);
            let now = ts.take(i as int + 1);
            assert(now.drop_last() =~= ts.take(i as int));
            assert(now.last() == parts@[i as int]@);
        }
        if let Expr::Binary(l, op, r) = parts[i] {
            if *op == BinaryOp::Eq {
                if let (Expr::Column(a), Expr::Column(b)) = (&**l, &**r) {
                    out.push((a, b));
                    out.push((b, a));
                    proof {
                        assert(pairs_of(parts@[i as int]@) == seq![(a@, b@), (b@, a@)]);
                    }
                }
            }
        }
        proof {
            assert(pair_names(out@) =~= pair_names(before) + pairs_of(parts@[i as int]@));
        }
    }
    proof {
        assert(ts.take(len as int) =~= ts);
    }
    out
}

/// Pick a strategy for joining `right` onto the tables in `left`. Looks
/// for an `on` conjunct of the shape `left_column = right_column` (either
/// side) with probe-compatible types; the right column must be the whole
/// primary key or carry a secondary index.
pub fn plan_join(left: &[Table], right: &Table, on: &Expr) -> (r: JoinStrategy)
    ensures
        r@ == join_planned(tabs(left@), right@, on@),
        probe_suits(right@, r@),
{
    let ghost ls = tabs(left@);
    let found = equal_columns(on);
    let ghost ps = pair_names(found@);
    let keys: Vec<usize> = right.key_positions();
    let len: usize = found.len();
    let mut index_probe: Option<JoinStrategy> = None;
    proof {
        lemma_join_planned_suits(ls, right@, on@);
    }
    for i in 0..len
        invariant
            len == found@.len(),
            ls == tabs(left@),
            ps == pair_names(found@),
            ps == pairs(conj(on@)),
            ints(keys@) == key_spots(right@.columns),
            probe_suits(right@, join_planned(ls, right@, on@)),
            first_key(ls, right@, ps.take(i as int)) is None,
            match index_probe {
                None => first_index(ls, right@, ps.take(i as int)) is None,
                Some(p) => first_index(ls, right@, ps.take(i as int)) matches Some(k) && 0 <= k < i
                    && {
                    let c = probe_of(ls, right@, ps[k])->0;
                    p@ == Probe::IndexProbe(ps[k].1, c, right@.columns[c].index_id->0)
                },
            },
    {
        let (right_ref, left_ref) = found[i];
        proof {
            let now = ps.take(i as int + 1);
            assert(now.drop_last() =~= ps.take(i as int));
            assert(now.last() == (right_ref@, left_ref@));
            assert(ps[i as int] == (right_ref@, left_ref@));
        }
        if let Some(pos) = find_probe(left, right, right_ref, left_ref) {
            let whole: bool = keys.len() == 1 && keys[0] == pos;
            proof {
                let ks = key_spots(right@.columns);
                assert(ks == seq![pos as int] <==> whole) by {
                    if whole {
                        assert(ints(keys@)[0] == ks[0]);
                        assert(ks =~= seq![pos as int]);
                    }
                    if ks == seq![pos as int] {
                        assert(ints(keys@).len() == keys@.len());
                        assert(ks.len() == 1);
                        assert(ks[0] == pos as int);
                        assert(ints(keys@)[0] == keys@[0] as int);
                    }
                }
                assert(right@.columns[pos as int] == right.columns@[pos as int]@);
            }
            if whole {
                proof {
                    lemma_first_key_grows(ls, right@, ps, i as int + 1);
                }
                return JoinStrategy::KeyProbe { left: left_ref.duplicate() };
            }
            if let Some(index_id) = right.columns[pos].index_id {
                if index_probe.is_none() {
                    index_probe = Some(
                        JoinStrategy::IndexProbe {
                            left: left_ref.duplicate(),
                            column: pos,
                            index_id,
                        },
                    );
                }
            }
        }
    }
    proof {
        assert(ps.take(len as int) =~= ps);
    }
    match index_probe {
        Some(p) => p,
        None => JoinStrategy::NestedLoop,
    }
}

// ---------------------------------------------------------------------
// explain
// ---------------------------------------------------------------------

/// How the right side of a join step is shown.
pub open spec fn probe_shown(right: Tab, p: Probe) -> Seq<char> {
    match p {
        Probe::NestedLoop => "SeqScan "@ + right.name,
        Probe::KeyProbe(_) => "KeyProbe "@ + right.name + (" ("@
            + right.columns[key_spots(right.columns)[0]].name + ")"@),
        Probe::IndexProbe(_, c, _) => "IndexProbe "@ + right.name + (" via "@
            + right.columns[c].name),
    }
}

/// How a join step is shown.
pub open spec fn join_shown(kind: JoinKind, on: Term, p: Probe, f: Shown) -> Seq<char> {
    (if p is NestedLoop {
        "NestedLoopJoin "@
    } else {
        "IndexNestedLoopJoin "@
    }) + (if kind is Inner {
        "inner"@
    } else {
        "left"@
    }) + (" on "@ + expr_shown(on, f))
}

/// The explain leaf for the right side of one join step.
pub fn explain_join_probe(right: &Table, strategy: &JoinStrategy) -> (r: ExplainNode)
    requires
        probe_suits(right@, strategy@),
    ensures
        forall|pad: Seq<char>| #[trigger]
            r.lines(pad) == seq![pad + probe_shown(right@, strategy@)],
{
    match strategy {
        JoinStrategy::NestedLoop => ExplainNode::leaf(join2("SeqScan ", right.name.as_str())),
        JoinStrategy::KeyProbe { left: _ } => {
            let keys: Vec<usize> = right.key_positions();
            proof {
                lemma_key_spots(right@.columns);
                assert(ints(keys@)[0] == key_spots(right@.columns)[0]);
                assert(right@.columns[keys@[0] as int] == right.columns@[keys@[0] as int]@);
            }
            ExplainNode::leaf(
                join3(
                    "KeyProbe ",
                    right.name.as_str(),
                    join3(" (", right.columns[keys[0]].name.as_str(), ")").as_str(),
                ),
            )
        },
        JoinStrategy::IndexProbe { left: _, column, index_id: _ } => {
            proof {
                assert(right@.columns[*column as int] == right.columns@[*column as int]@);
            }
            ExplainNode::leaf(
                join3(
                    "IndexProbe ",
                    right.name.as_str(),
                    join2(" via ", right.columns[*column].name.as_str()).as_str(),
                ),
            )
        },
    }
}

/// The label for one join step; the children are the left plan and the
/// probe leaf.
pub fn join_label<M: Fn(BinaryOp, u64, u64) -> u64, T: Fn(u64) -> String>(
    join: &Join,
    strategy: &JoinStrategy,
    floats: &Floats<M, T>,
) -> (r: String)
    requires
        floats.ok(),
    ensures
        r@ == join_shown(join.kind, join.on@, strategy@, floats.shown()),
{
    let kind = match join.kind {
        JoinKind::Inner => "inner",
        JoinKind::Left => "left",
    };
    let name = match strategy {
        JoinStrategy::NestedLoop => "NestedLoopJoin ",
        _ => "IndexNestedLoopJoin ",
    };
    join3(name, kind, join2(" on ", pretty::expr(&join.on, floats).as_str()).as_str())
}

} // verus!
