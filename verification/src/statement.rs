//! Statements that run inside a write transaction, and what they answer.

use vstd::prelude::*;

use crate::ast::{opt_term, ref_term, BinaryOp, Expr, Get, Statement, Term};
use crate::catalog::{tables_at, Tab, Table};
use crate::cost::cost_of;
use crate::effects::{
    del_done, index_created, put_done, set_done, table_created, table_dropped, table_names, State,
};
use crate::encoding::{vals, Value};
use crate::exec_error::{ExecError, Fail};
use crate::join::{
    explain_join_probe, join_label, join_shown, probe_shown, resolved, tabs, Bound, JoinStrategy,
};
use crate::joining::{bind_join_get, bound_to, got, planned_for, run_get, strategy};
use crate::plan::{
    explain_access, explain_get, explain_trim, lemma_planned_suits, opt_order, plan_access, planned,
    trimmed_shown, way_shown, AccessPlan, ExplainNode, Way,
};
use crate::pretty;
use crate::pretty::expr_shown;
use crate::query::Places;
use crate::rows::{known, validate_columns};
use crate::sorting::{rows_of, Row};
use crate::source::{listing, load_table_from, table_in, Source};
use crate::storage::Storage;
use crate::store::Bytes;
use crate::strings::{decimal, join2, join3, join_all, joined, owned, texts, u64_text};
use crate::txn::{ends, failure, within, Run};
use crate::value_ops::{render, rendered, Floats, Math, Shown};

verus! {

/// What a statement answers.
#[derive(Debug, PartialEq)]
pub enum Output {
    Done,
    Count { verb: &'static str, n: u64 },
    Rows(Vec<Vec<Value>>),
    Lines(Vec<String>),
}

/// What an answer says.
#[verifier::ext_equal]
pub enum Answer {
    Done,
    Count(Seq<char>, nat),
    Rows(Seq<Row>),
    Lines(Seq<Seq<char>>),
}

impl View for Output {
    type V = Answer;

    open spec fn view(&self) -> Answer {
        match self {
            Output::Done => Answer::Done,
            Output::Count { verb, n } => Answer::Count(verb@, *n as nat),
            Output::Rows(rows) => Answer::Rows(rows_of(rows@)),
            Output::Lines(lines) => Answer::Lines(texts(lines@)),
        }
    }
}

/// A row as one line of output.
pub open spec fn row_shown(row: Row, f: Shown) -> Seq<char> {
    joined(Seq::new(row.len(), |i: int| rendered(row[i], f)), "|"@)
}

/// An answer as text.
pub open spec fn answer_shown(a: Answer, f: Shown) -> Seq<char> {
    match a {
        Answer::Done => "ok"@,
        Answer::Count(verb, n) => verb + " "@ + decimal(n),
        Answer::Rows(rows) => joined(Seq::new(rows.len(), |i: int| row_shown(rows[i], f)), "\n"@),
        Answer::Lines(lines) => joined(lines, "\n"@),
    }
}

pub fn show_row<M: Fn(BinaryOp, u64, u64) -> u64, T: Fn(u64) -> String>(
    row: &Vec<Value>,
    floats: &Floats<M, T>,
) -> (r: String)
    requires
        floats.ok(),
    ensures
        r@ == row_shown(vals(row@), floats.shown()),
{
    let mut parts: Vec<String> = Vec::new();
    let len: usize = row.len();
    let ghost f = floats.shown();
    for i in 0..len
        invariant
            len == row@.len(),
            floats.ok(),
            f == floats.shown(),
            parts@.len() == i,
            forall|k: int| 0 <= k < i ==> (#[trigger] parts@[k])@ == rendered(row@[k]@, f),
    {
        parts.push(render(&row[i], floats));
    }
    proof {
        assert(texts(parts@) =~= Seq::new(vals(row@).len(), |i: int| rendered(vals(row@)[i], f)));
    }
    join_all(&parts, "|")
}

impl Output {
    pub fn render<M: Fn(BinaryOp, u64, u64) -> u64, T: Fn(u64) -> String>(
        &self,
        floats: &Floats<M, T>,
    ) -> (r: String)
        requires
            floats.ok(),
        ensures
            r@ == answer_shown(self@, floats.shown()),
    {
        match self {
            Output::Done => owned("ok"),
            Output::Count { verb, n } => join3(*verb, " ", u64_text(*n).as_str()),
            Output::Rows(rows) => {
                let mut lines: Vec<String> = Vec::new();
                let len: usize = rows.len();
                let ghost f = floats.shown();
                for i in 0..len
                    invariant
                        len == rows@.len(),
                        floats.ok(),
                        f == floats.shown(),
                        lines@.len() == i,
                        forall|k: int|
                            0 <= k < i ==> (#[trigger] lines@[k])@ == row_shown(
                                vals(rows@[k]@),
                                f,
                            ),
                {
                    lines.push(show_row(&rows[i], floats));
                }
                proof {
                    assert(texts(lines@) =~= Seq::new(
                        rows_of(rows@).len(),
                        |i: int| row_shown(rows_of(rows@)[i], f),
                    ));
                }
                join_all(&lines, "\n")
            },
            Output::Lines(lines) => join_all(lines, "\n"),
        }
    }
}

// ---------------------------------------------------------------------
// explain
// ---------------------------------------------------------------------

pub type Plan = core::result::Result<Seq<Seq<char>>, Fail>;

/// How the first `n` joins are shown: each over what comes before it and
/// the way it finds its own rows.
pub open spec fn joins_shown(ts: Seq<Tab>, get: Get, n: int, f: Shown, pad: Seq<char>) -> Seq<
    Seq<char>,
>
    decreases n,
{
    if n <= 0 {
        seq![pad + ("SeqScan "@ + ts[0].name)]
    } else {
        seq![
            pad + join_shown(
                get.joins@[n - 1].kind,
                get.joins@[n - 1].on@,
                strategy(ts, get, n - 1),
                f,
            ),
        ] + (joins_shown(ts, get, n - 1, f, pad + "  "@) + seq![
            pad + "  "@ + probe_shown(ts[n], strategy(ts, get, n - 1)),
        ])
    }
}

/// How a join is shown, under the filter where there is one.
pub open spec fn join_tree_shown(ts: Seq<Tab>, get: Get, f: Shown, pad: Seq<char>) -> Seq<
    Seq<char>,
> {
    let n = get.joins@.len() as int;
    match get.filter {
        Some(e) => seq![pad + ("Filter "@ + expr_shown(e@, f))] + joins_shown(
            ts,
            get,
            n,
            f,
            pad + "  "@,
        ),
        None => joins_shown(ts, get, n, f, pad),
    }
}

pub open spec fn join_explained(schema: Bytes, get: Get, f: Shown) -> Plan {
    match bound_to(schema, get) {
        Err(e) => Err(e),
        Ok(ts) => if get.order matches Some((c, _)) && resolved(ts, ts.len() as int, c@) is None {
            Err(Fail::Plan)
        } else {
            Ok(
                trimmed_shown(
                    opt_order(get.order),
                    get.limit,
                    Seq::empty(),
                    |p: Seq<char>| join_tree_shown(ts, get, f, p),
                ),
            )
        },
    }
}

/// The plan of a filter over one table.
pub open spec fn table_plan(schema: Bytes, name: Seq<char>, filter: Option<Term>) -> core::result::Result<
    (Tab, Way),
    Fail,
> {
    match table_in(schema, name) {
        Err(e) => Err(e),
        Ok(t) => if filter matches Some(f) && !known(t, f) {
            Err(Fail::Plan)
        } else {
            match planned(t, filter) {
                Err(e) => Err(e),
                Ok(w) => Ok((t, w)),
            }
        },
    }
}

/// What `explain` prints.
pub open spec fn explained(schema: Bytes, s: Statement, f: Shown) -> Plan {
    match s {
        Statement::Get(get) => if get.joins@.len() > 0 {
            join_explained(schema, get, f)
        } else {
            match table_plan(schema, get.table@, opt_term(get.filter)) {
                Err(e) => Err(e),
                Ok((t, w)) => Ok(
                    trimmed_shown(
                        opt_order(get.order),
                        get.limit,
                        Seq::empty(),
                        |p: Seq<char>| way_shown(t, w, f, p),
                    ),
                ),
            }
        },
        Statement::Update { table, filter, assigns } => match table_plan(
            schema,
            table@,
            opt_term(filter),
        ) {
            Err(e) => Err(e),
            Ok((t, w)) => Ok(seq!["Update "@ + t.name] + way_shown(t, w, f, "  "@)),
        },
        Statement::Del { table, filter } => match table_plan(schema, table@, opt_term(filter)) {
            Err(e) => Err(e),
            Ok((t, w)) => Ok(seq!["Delete "@ + t.name] + way_shown(t, w, f, "  "@)),
        },
        Statement::Put { table, rows } => Ok(
            seq![
                "Insert "@ + table@ + (" ("@ + decimal(rows@.len()) + " rows)"@),
            ],
        ),
        _ => Err(Fail::Plan),
    }
}

fn explain_joins<M: Fn(BinaryOp, u64, u64) -> u64, T: Fn(u64) -> String>(
    bound: &Bound,
    strategies: &Vec<JoinStrategy>,
    get: &Get,
    floats: &Floats<M, T>,
) -> (r: ExplainNode)
    requires
        floats.ok(),
        bound.tables@.len() == get.joins@.len() + 1,
        planned_for(tabs(bound.tables@), *get, strategies@),
    ensures
        forall|pad: Seq<char>| #[trigger]
            r.lines(pad) == join_tree_shown(tabs(bound.tables@), *get, floats.shown(), pad),
{
    let ghost ts = tabs(bound.tables@);
    let ghost f = floats.shown();
    let mut node = ExplainNode::leaf(join2("SeqScan ", bound.tables[0].name.as_str()));
    proof {
        assert(ts[0] == bound.tables@[0]@);
    }
    let len: usize = get.joins.len();
    for i in 0..len
        invariant
            len == get.joins@.len(),
            ts == tabs(bound.tables@),
            f == floats.shown(),
            floats.ok(),
            bound.tables@.len() == len + 1,
            planned_for(ts, *get, strategies@),
            forall|pad: Seq<char>| #[trigger]
                node.lines(pad) == joins_shown(ts, *get, i as int, f, pad),
    {
        proof {
            assert(strategies@[i as int]@ == strategy(ts, *get, i as int));
            assert(ts[i as int + 1] == bound.tables@[i as int + 1]@);
        }
        let probe = explain_join_probe(&bound.tables[i + 1], &strategies[i]);
        let label = join_label(&get.joins[i], &strategies[i], floats);
        let ghost below = node;
        let next = ExplainNode::over_two(label, node, probe);
        proof {
            assert forall|pad: Seq<char>| #[trigger] next.lines(pad) == joins_shown(
                ts,
                *get,
                i as int + 1,
                f,
                pad,
            ) by {
                assert(below.lines(pad + "  "@) == joins_shown(
                    ts,
                    *get,
                    i as int,
                    f,
                    pad + "  "@,
                ));
            }
        }
        node = next;
    }
    match &get.filter {
        Some(e) => {
            let ghost below = node;
            let out = ExplainNode::over(join2("Filter ", pretty::expr(e, floats).as_str()), node);
            proof {
                assert forall|pad: Seq<char>| #[trigger] out.lines(pad) == join_tree_shown(
                    ts,
                    *get,
                    f,
                    pad,
                ) by {
                    assert(below.lines(pad + "  "@) == joins_shown(
                        ts,
                        *get,
                        len as int,
                        f,
                        pad + "  "@,
                    ));
                }
            }
            out
        },
        None => node,
    }
}

proof fn lemma_trimmed_same(
    order: Option<(crate::ast::Name, crate::ast::Direction)>,
    limit: Option<u64>,
    pad: Seq<char>,
    a: spec_fn(Seq<char>) -> Seq<Seq<char>>,
    b: spec_fn(Seq<char>) -> Seq<Seq<char>>,
)
    requires
        forall|p: Seq<char>| #[trigger] a(p) == b(p),
    ensures
        trimmed_shown(order, limit, pad, a) == trimmed_shown(order, limit, pad, b),
{
    assert(a(pad) == b(pad));
    assert(a(pad + "  "@) == b(pad + "  "@));
    assert(a(pad + "  "@ + "  "@) == b(pad + "  "@ + "  "@));
}

impl<'db, S: Storage> Run<'db, S> {
    fn plan_table(&self, name: &str, filter: Option<&Expr>) -> (r: core::result::Result<
        (Table, AccessPlan),
        ExecError,
    >)
        requires
            self.ready(),
        ensures
            r matches Ok((t, p)) ==> crate::plan::suits(t@, p@.path),
            self.whole() ==> match r {
                Ok((t, p)) => table_plan(self.schema(), name@, ref_term(filter)) == Ok::<
                    (Tab, Way),
                    Fail,
                >((t@, p@)),
                Err(e) => (e.fail() is Storage && !self.steady()) || table_plan(
                    self.schema(),
                    name@,
                    ref_term(filter),
                ) == Err::<(Tab, Way), Fail>(e.fail()),
            },
    {
        let table = match load_table_from(self, name) {
            Ok(t) => t,
            Err(e) => return Err(e),
        };
        if let Some(f) = filter {
            if let Err(e) = validate_columns(&table, f) {
                return Err(e);
            }
        }
        match plan_access(&table, filter) {
            Ok(p) => {
                proof {
                    lemma_planned_suits(table@, ref_term(filter));
                }
                Ok((table, p))
            },
            Err(e) => Err(e),
        }
    }

    fn explain_change<M: Fn(BinaryOp, u64, u64) -> u64, T: Fn(u64) -> String>(
        &self,
        verb: &str,
        name: &str,
        filter: Option<&Expr>,
        floats: &Floats<M, T>,
    ) -> (r: core::result::Result<Vec<String>, ExecError>)
        requires
            self.ready(),
            floats.ok(),
        ensures
            self.whole() ==> match r {
                Ok(v) => table_plan(self.schema(), name@, ref_term(filter)) matches Ok((t, w))
                    && texts(v@) == seq![verb@ + t.name] + way_shown(t, w, floats.shown(), "  "@),
                Err(e) => (e.fail() is Storage && !self.steady()) || table_plan(
                    self.schema(),
                    name@,
                    ref_term(filter),
                ) == Err::<(Tab, Way), Fail>(e.fail()),
            },
    {
        match self.plan_table(name, filter) {
            Err(e) => Err(e),
            Ok((table, plan)) => {
                let node = ExplainNode::over(
                    join2(verb, table.name.as_str()),
                    explain_access(&table, &plan, floats),
                );
                proof {
                    assert(Seq::<char>::empty() + "  "@ =~= "  "@);
                    assert(Seq::<char>::empty() + (verb@ + table.name@) =~= verb@ + table.name@);
                }
                Ok(node.render())
            },
        }
    }

    fn explain_read<M: Fn(BinaryOp, u64, u64) -> u64, T: Fn(u64) -> String>(
        &self,
        get: &Get,
        floats: &Floats<M, T>,
    ) -> (r: core::result::Result<Vec<String>, ExecError>)
        requires
            self.ready(),
            floats.ok(),
        ensures
            self.whole() ==> match r {
                Ok(v) => explained(self.schema(), Statement::Get(*get), floats.shown()) == Ok::<
                    Seq<Seq<char>>,
                    Fail,
                >(texts(v@)),
                Err(e) => (e.fail() is Storage && !self.steady()) || explained(
                    self.schema(),
                    Statement::Get(*get),
                    floats.shown(),
                ) == Err::<Seq<Seq<char>>, Fail>(e.fail()),
            },
    {
        let ghost f = floats.shown();
        if get.joins.len() > 0 {
            let (bound, strategies) = match bind_join_get(self, get) {
                Ok(x) => x,
                Err(e) => return Err(e),
            };
            let ghost ts = tabs(bound.tables@);
            if let Some((col, _)) = &get.order {
                if let Err(e) = bound.resolve_within(col, bound.tables.len()) {
                    return Err(e);
                }
            }
            let node = explain_joins(&bound, &strategies, get, floats);
            let out = explain_trim(node, &get.order, get.limit);
            proof {
                lemma_trimmed_same(
                    opt_order(get.order),
                    get.limit,
                    Seq::empty(),
                    |p: Seq<char>| node.lines(p),
                    |p: Seq<char>| join_tree_shown(ts, *get, f, p),
                );
            }
            return Ok(out.render());
        }
        match self.plan_table(get.table.as_str(), get.filter.as_ref()) {
            Err(e) => Err(e),
            Ok((table, plan)) => {
                let node = explain_get(&table, &plan, &get.order, get.limit, floats);
                proof {
                    lemma_trimmed_same(
                        opt_order(get.order),
                        get.limit,
                        Seq::empty(),
                        |p: Seq<char>| way_shown(table@, plan@, floats.shown(), p),
                        |p: Seq<char>| way_shown(table@, plan@, f, p),
                    );
                }
                Ok(node.render())
            },
        }
    }

    /// Show how a statement would run.
    pub fn explain<M: Fn(BinaryOp, u64, u64) -> u64, T: Fn(u64) -> String>(
        &self,
        inner: &Statement,
        floats: &Floats<M, T>,
    ) -> (r: core::result::Result<Vec<String>, ExecError>)
        requires
            self.ready(),
            floats.ok(),
        ensures
            self.whole() ==> match r {
                Ok(v) => explained(self.schema(), *inner, floats.shown()) == Ok::<
                    Seq<Seq<char>>,
                    Fail,
                >(texts(v@)),
                Err(e) => (e.fail() is Storage && !self.steady()) || explained(
                    self.schema(),
                    *inner,
                    floats.shown(),
                ) == Err::<Seq<Seq<char>>, Fail>(e.fail()),
            },
    {
        match inner {
            Statement::Get(get) => self.explain_read(get, floats),
            Statement::Update { table, filter, assigns: _ } => self.explain_change(
                "Update ",
                table.as_str(),
                filter.as_ref(),
                floats,
            ),
            Statement::Del { table, filter } => self.explain_change(
                "Delete ",
                table.as_str(),
                filter.as_ref(),
                floats,
            ),
            Statement::Put { table, rows } => {
                let mut out: Vec<String> = Vec::new();
                out.push(
                    join3(
                        "Insert ",
                        table.as_str(),
                        join3(" (", u64_text(rows.len() as u64).as_str(), " rows)").as_str(),
                    ),
                );
                proof {
                    assert(texts(out@) =~= seq![
                        "Insert "@ + table@ + (" ("@ + decimal(rows@.len()) + " rows)"@),
                    ]);
                }
                Ok(out)
            },
            _ => Err(ExecError::Plan(owned("explain wants get, put, set or del"))),
        }
    }
}

// ---------------------------------------------------------------------
// statements
// ---------------------------------------------------------------------

pub type Ran = core::result::Result<(State, Answer), Fail>;

/// An answer that leaves everything as it was.
pub open spec fn told(st: State, r: core::result::Result<Answer, Fail>) -> Ran {
    match r {
        Ok(a) => Ok((st, a)),
        Err(e) => Err(e),
    }
}

/// A change that is answered with `a`.
pub open spec fn made(r: core::result::Result<State, Fail>, a: Answer) -> Ran {
    match r {
        Ok(s) => Ok((s, a)),
        Err(e) => Err(e),
    }
}

/// A change that is answered with a count.
pub open spec fn counted(r: core::result::Result<(State, nat), Fail>, verb: Seq<char>) -> Ran {
    match r {
        Ok((s, n)) => Ok((s, Answer::Count(verb, n))),
        Err(e) => Err(e),
    }
}

/// What a statement does inside a transaction, and what it answers.
#[verifier::opaque]
pub open spec fn did(st: State, s: Statement, lim: int, g: Math, f: Shown) -> Ran {
    match s {
        Statement::TableDef(def) => made(table_created(st, def, lim), Answer::Done),
        Statement::DropTable { name } => made(table_dropped(st, name@), Answer::Done),
        Statement::Put { table, rows } => made(
            put_done(st, table@, rows@, lim, g),
            Answer::Count("put"@, rows@.len()),
        ),
        Statement::Get(get) => if get.as_of is Some {
            Err(Fail::Plan)
        } else {
            told(
                st,
                match got(st.data, st.schema, get, g) {
                    Ok(rows) => Ok(Answer::Rows(rows)),
                    Err(e) => Err(e),
                },
            )
        },
        Statement::Update { table, filter, assigns } => counted(
            set_done(st, table@, opt_term(filter), assigns@, lim, g),
            "set"@,
        ),
        Statement::Del { table, filter } => counted(
            del_done(st, table@, opt_term(filter), g),
            "del"@,
        ),
        Statement::IndexDef { table, column } => made(
            index_created(st, table@, column@, lim),
            Answer::Done,
        ),
        Statement::ShowTables => told(
            st,
            match table_names(listing(st.schema, tables_at())) {
                Ok(names) => Ok(Answer::Lines(names)),
                Err(e) => Err(e),
            },
        ),
        Statement::Explain(inner) => told(
            st,
            match explained(st.schema, *inner, f) {
                Ok(lines) => Ok(Answer::Lines(lines)),
                Err(e) => Err(e),
            },
        ),
        _ => Err(Fail::Exec),
    }
}

/// The state of a result.
pub open spec fn state_after(r: Ran) -> core::result::Result<State, Fail> {
    match r {
        Ok((s, _)) => Ok(s),
        Err(e) => Err(e),
    }
}

/// Whether a statement led from `a` to `b` as it should, and answered so.
pub open spec fn ran<'db, S: Storage>(
    a: Run<'db, S>,
    b: Run<'db, S>,
    r: core::result::Result<Output, ExecError>,
    want: Ran,
) -> bool {
    &&& ends(a, b, failure(r), state_after(want))
    &&& a.whole() ==> (r matches Ok(out) ==> (want->Ok_0).1 == out@)
}

/// An answer to a step that gives none of its own.
fn plainly(r: core::result::Result<(), ExecError>) -> (o: core::result::Result<Output, ExecError>)
    ensures
        failure(o) == failure(r),
        o matches Ok(out) ==> out@ == Answer::Done,
{
    match r {
        Ok(_) => Ok(Output::Done),
        Err(e) => Err(e),
    }
}

/// An answer to a step that counts.
fn counting(r: core::result::Result<u64, ExecError>, verb: &'static str) -> (o:
    core::result::Result<Output, ExecError>)
    ensures
        failure(o) == failure(r),
        o matches Ok(out) ==> r is Ok && out@ == Answer::Count(verb@, (r->Ok_0) as nat),
{
    match r {
        Ok(n) => Ok(Output::Count { verb, n }),
        Err(e) => Err(e),
    }
}

impl<'db, S: Storage> Run<'db, S> {
    fn read_statement<M: Fn(BinaryOp, u64, u64) -> u64, T: Fn(u64) -> String>(
        &self,
        stmt: &Statement,
        floats: &Floats<M, T>,
    ) -> (r: core::result::Result<Output, ExecError>)
        requires
            self.ready(),
            floats.ok(),
            stmt is Get || stmt is ShowTables || stmt is Explain,
        ensures
            self.whole() ==> match r {
                Ok(out) => did(self.state(), *stmt, self.lim(), floats.math(), floats.shown())
                    == Ok::<(State, Answer), Fail>((self.state(), out@)),
                Err(e) => (e.fail() is Storage && !self.steady()) || did(
                    self.state(),
                    *stmt,
                    self.lim(),
                    floats.math(),
                    floats.shown(),
                ) == Err::<(State, Answer), Fail>(e.fail()),
            },
    {
        proof {
            reveal(did);
        }
        match stmt {
            Statement::Get(get) => {
                if get.as_of.is_some() {
                    return Err(
                        ExecError::Plan(owned("as of cannot run inside a write statement")),
                    );
                }
                match run_get(self, get, floats) {
                    Ok(rows) => Ok(Output::Rows(rows)),
                    Err(e) => Err(e),
                }
            },
            Statement::ShowTables => match self.show_tables() {
                Ok(names) => Ok(Output::Lines(names)),
                Err(e) => Err(e),
            },
            Statement::Explain(inner) => match self.explain(inner, floats) {
                Ok(lines) => Ok(Output::Lines(lines)),
                Err(e) => Err(e),
            },
            _ => Err(ExecError::Exec(owned("not a read, this is a bug"))),
        }
    }

    fn define<M: Fn(BinaryOp, u64, u64) -> u64, T: Fn(u64) -> String>(
        &mut self,
        stmt: &Statement,
        floats: &Floats<M, T>,
    ) -> (r: core::result::Result<Output, ExecError>)
        requires
            old(self).ready(),
            floats.ok(),
            stmt is TableDef || stmt is DropTable || stmt is IndexDef,
        ensures
            final(self).after(old(self)),
            *final(final(self).tx.batch.pager) == *final(old(self).tx.batch.pager),
            old(self).whole() ==> within(
                *old(self),
                *final(self),
                cost_of(old(self).state(), *stmt, old(self).lim(), floats.math()),
            ),
            ran(
                *old(self),
                *final(self),
                r,
                did(old(self).state(), *stmt, old(self).lim(), floats.math(), floats.shown()),
            ),
    {
        proof {
            reveal(did);
            reveal(cost_of);
        }
        match stmt {
            Statement::TableDef(def) => plainly(self.create_table(def)),
            Statement::DropTable { name } => plainly(self.drop_table(name.as_str())),
            Statement::IndexDef { table, column } => plainly(
                self.create_index(table.as_str(), column.as_str(), floats),
            ),
            _ => Err(ExecError::Exec(owned("not a definition, this is a bug"))),
        }
    }

    fn change<M: Fn(BinaryOp, u64, u64) -> u64, T: Fn(u64) -> String>(
        &mut self,
        stmt: &Statement,
        floats: &Floats<M, T>,
    ) -> (r: core::result::Result<Output, ExecError>)
        requires
            old(self).ready(),
            floats.ok(),
            stmt is Put || stmt is Update || stmt is Del,
        ensures
            final(self).after(old(self)),
            *final(final(self).tx.batch.pager) == *final(old(self).tx.batch.pager),
            old(self).whole() ==> within(
                *old(self),
                *final(self),
                cost_of(old(self).state(), *stmt, old(self).lim(), floats.math()),
            ),
            ran(
                *old(self),
                *final(self),
                r,
                did(old(self).state(), *stmt, old(self).lim(), floats.math(), floats.shown()),
            ),
    {
        proof {
            reveal(did);
            reveal(cost_of);
        }
        match stmt {
            Statement::Put { table, rows } => counting(
                self.put(table.as_str(), rows, floats),
                "put",
            ),
            Statement::Update { table, filter, assigns } => counting(
                self.set(table.as_str(), filter.as_ref(), assigns, floats),
                "set",
            ),
            Statement::Del { table, filter } => counting(
                self.del(table.as_str(), filter.as_ref(), floats),
                "del",
            ),
            _ => Err(ExecError::Exec(owned("not a change, this is a bug"))),
        }
    }

    /// Run one statement.
    pub fn statement<M: Fn(BinaryOp, u64, u64) -> u64, T: Fn(u64) -> String>(
        &mut self,
        stmt: &Statement,
        floats: &Floats<M, T>,
    ) -> (r: core::result::Result<Output, ExecError>)
        requires
            old(self).ready(),
            floats.ok(),
        ensures
            final(self).after(old(self)),
            *final(final(self).tx.batch.pager) == *final(old(self).tx.batch.pager),
            old(self).whole() ==> within(
                *old(self),
                *final(self),
                cost_of(old(self).state(), *stmt, old(self).lim(), floats.math()),
            ),
            ran(
                *old(self),
                *final(self),
                r,
                did(old(self).state(), *stmt, old(self).lim(), floats.math(), floats.shown()),
            ),
            (stmt is Get || stmt is ShowTables || stmt is Explain) && old(self).whole() && old(
                self,
            ).steady() ==> (r matches Err(e) ==> did(
                old(self).state(),
                *stmt,
                old(self).lim(),
                floats.math(),
                floats.shown(),
            ) == Err::<(State, Answer), Fail>(e.fail())),
    {
        proof {
            reveal(did);
            reveal(cost_of);
        }
        match stmt {
            Statement::TableDef(_)
            | Statement::DropTable { name: _ }
            | Statement::IndexDef { table: _, column: _ } => self.define(stmt, floats),
            Statement::Put { table: _, rows: _ }
            | Statement::Update { table: _, filter: _, assigns: _ }
            | Statement::Del { table: _, filter: _ } => self.change(stmt, floats),
            Statement::Get(_) | Statement::ShowTables | Statement::Explain(_) => self.read_statement(
                stmt,
                floats,
            ),
            _ => Err(
                ExecError::Exec(owned("control statement reached the write path, this is a bug")),
            ),
        }
    }
}

} // verus!
