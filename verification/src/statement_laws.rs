//! What statements answer, and what counts as a change.

use vstd::prelude::*;

use crate::ast::{opt_term, Statement};
use crate::catalog::tables_at;
use crate::effects::{
    del_done, index_created, put_done, set_done, table_created, table_dropped, table_names, State,
};
use crate::joining::got;
use crate::query::Hit;
use crate::sorting::Row;
use crate::source::listing;
use crate::statement::{answer_shown, did, row_shown, Answer};
use crate::strings::joined;
use crate::text::terms;
use crate::text_index::{documents, total_length};
use crate::encoding::Val;
use crate::shown_laws::{law_decimal_spells_its_number, spelled};
use crate::value_ops::{rendered, Math, Shown};

verus! {

proof fn lemma_verbs()
    ensures
        "put"@ == seq!['p', 'u', 't'],
        "set"@ == seq!['s', 'e', 't'],
        "del"@ == seq!['d', 'e', 'l'],
{
    reveal_strlit("put");
    reveal_strlit("set");
    reveal_strlit("del");
    assert("put"@ =~= seq!['p', 'u', 't']);
    assert("set"@ =~= seq!['s', 'e', 't']);
    assert("del"@ =~= seq!['d', 'e', 'l']);
}

/// Adding rows answers how many were to be added.
pub proof fn law_put_answers(
    st: State,
    table: String,
    rows: Vec<Vec<(String, crate::ast::Expr)>>,
    lim: int,
    g: Math,
    f: Shown,
)
    ensures
        did(st, Statement::Put { table, rows }, lim, g, f) == (match put_done(
            st,
            table@,
            rows@,
            lim,
            g,
        ) {
            Ok(b) => Ok((b, Answer::Count(seq!['p', 'u', 't'], rows@.len()))),
            Err(e) => Err(e),
        }),
{
    reveal(did);
    lemma_verbs();
}

/// Changing rows answers how many were changed.
pub proof fn law_set_answers(
    st: State,
    table: String,
    filter: Option<crate::ast::Expr>,
    assigns: Vec<crate::ast::Assign>,
    lim: int,
    g: Math,
    f: Shown,
)
    ensures
        did(st, Statement::Update { table, filter, assigns }, lim, g, f) == (match set_done(
            st,
            table@,
            opt_term(filter),
            assigns@,
            lim,
            g,
        ) {
            Ok((b, n)) => Ok((b, Answer::Count(seq!['s', 'e', 't'], n))),
            Err(e) => Err(e),
        }),
{
    reveal(did);
    lemma_verbs();
}

/// Removing rows answers how many were removed.
pub proof fn law_del_answers(
    st: State,
    table: String,
    filter: Option<crate::ast::Expr>,
    lim: int,
    g: Math,
    f: Shown,
)
    ensures
        did(st, Statement::Del { table, filter }, lim, g, f) == (match del_done(
            st,
            table@,
            opt_term(filter),
            g,
        ) {
            Ok((b, n)) => Ok((b, Answer::Count(seq!['d', 'e', 'l'], n))),
            Err(e) => Err(e),
        }),
{
    reveal(did);
    lemma_verbs();
}

/// Defining, dropping and indexing tables answers that it is done.
pub proof fn law_tables_answer(
    st: State,
    def: crate::ast::TableDef,
    name: String,
    column: String,
    lim: int,
    g: Math,
    f: Shown,
)
    ensures
        did(st, Statement::TableDef(def), lim, g, f) == (match table_created(st, def, lim) {
            Ok(b) => Ok((b, Answer::Done)),
            Err(e) => Err(e),
        }),
        did(st, Statement::DropTable { name }, lim, g, f) == (match table_dropped(st, name@) {
            Ok(b) => Ok((b, Answer::Done)),
            Err(e) => Err(e),
        }),
        did(st, Statement::IndexDef { table: name, column }, lim, g, f) == (match index_created(
            st,
            name@,
            column@,
            lim,
        ) {
            Ok(b) => Ok((b, Answer::Done)),
            Err(e) => Err(e),
        }),
{
    reveal(did);
}

/// Reading answers with what was read and leaves everything as it was.
pub proof fn law_reads_answer(st: State, get: crate::ast::Get, lim: int, g: Math, f: Shown)
    ensures
        get.as_of is None ==> did(st, Statement::Get(get), lim, g, f) == (match got(
            st.data,
            st.schema,
            get,
            g,
        ) {
            Ok(rows) => Ok((st, Answer::Rows(rows))),
            Err(e) => Err(e),
        }),
        did(st, Statement::ShowTables, lim, g, f) == (match table_names(
            listing(st.schema, tables_at()),
        ) {
            Ok(names) => Ok((st, Answer::Lines(names))),
            Err(e) => Err(e),
        }),
{
    reveal(did);
}

/// Whatever a statement changed it says it changed: where nothing is marked
/// as changed, nothing differs. A mark is never taken back.
pub proof fn law_changes_are_marked(st: State, s: Statement, lim: int, g: Math, f: Shown)
    requires
        did(st, s, lim, g, f) is Ok,
    ensures
        ({
            let b = (did(st, s, lim, g, f)->Ok_0).0;
            &&& !b.touched ==> b.data == st.data && b.schema == st.schema
            &&& st.touched ==> b.touched
        }),
{
    match s {
        Statement::Put { table, rows } => {
            law_put_answers(st, table, rows, lim, g, f);
        },
        Statement::Update { table, filter, assigns } => {
            law_set_answers(st, table, filter, assigns, lim, g, f);
        },
        Statement::Del { table, filter } => {
            law_del_answers(st, table, filter, lim, g, f);
        },
        Statement::TableDef(def) => {
            lemma_table_marks(st, def, lim, g, f);
        },
        _ => {
            lemma_others_mark(st, s, lim, g, f);
        },
    }
}

proof fn lemma_table_marks(st: State, def: crate::ast::TableDef, lim: int, g: Math, f: Shown)
    ensures
        did(st, Statement::TableDef(def), lim, g, f) matches Ok((b, _)) ==> b.touched,
{
    reveal(did);
    if table_created(st, def, lim) is Ok {
        lemma_indexed_marks(
            crate::effects::id_taken(st, lim)->Ok_0,
            crate::catalog::table_from(def, crate::effects::next_id(st.schema)->Ok_0),
            def.columns@,
            def.columns@.len() as int,
            lim,
        );
    }
}

proof fn lemma_others_mark(st: State, s: Statement, lim: int, g: Math, f: Shown)
    requires
        !(s is Put || s is Update || s is Del || s is TableDef),
    ensures
        did(st, s, lim, g, f) matches Ok((b, _)) ==> b.touched || b == st,
{
    reveal(did);
}

proof fn lemma_indexed_marks(
    st: State,
    t: crate::catalog::Tab,
    ds: Seq<crate::ast::ColumnDef>,
    n: int,
    lim: int,
)
    requires
        st.touched,
    ensures
        crate::effects::indexed(st, t, ds, n, lim) matches Ok((s, _)) ==> s.touched,
    decreases n,
{
    if n > 0 {
        lemma_indexed_marks(st, t, ds, n - 1, lim);
    }
}

/// How answers are shown: a count is the verb, a space and the number; rows
/// and lines stand below each other; the values of a row have bars between
/// them.
pub proof fn law_answers_are_shown(a: Answer, row: Row, f: Shown)
    ensures
        a is Done ==> answer_shown(a, f) == seq!['o', 'k'],
        a matches Answer::Count(verb, n) ==> {
            let s = answer_shown(a, f);
            &&& s.len() > verb.len() + 1
            &&& s.take(verb.len() as int) == verb
            &&& s[verb.len() as int] == ' '
            &&& spelled(s.skip(verb.len() as int + 1)) == n
        },
        a matches Answer::Lines(lines) ==> answer_shown(a, f) == joined(lines, seq!['\n']),
        a matches Answer::Rows(rows) ==> exists|lines: Seq<Seq<char>>|
            {
                &&& lines.len() == rows.len()
                &&& answer_shown(a, f) == #[trigger] joined(lines, seq!['\n'])
                &&& forall|i: int| 0 <= i < rows.len() ==> #[trigger] lines[i] == row_shown(rows[i], f)
            },
        exists|cells: Seq<Seq<char>>|
            {
                &&& cells.len() == row.len()
                &&& row_shown(row, f) == #[trigger] joined(cells, seq!['|'])
                &&& forall|i: int| 0 <= i < row.len() ==> #[trigger] cells[i] == rendered(row[i], f)
            },
{
    reveal_strlit("ok");
    reveal_strlit(" ");
    reveal_strlit("\n");
    reveal_strlit("|");
    assert("ok"@ =~= seq!['o', 'k']);
    assert(" "@ =~= seq![' ']);
    assert("\n"@ =~= seq!['\n']);
    assert("|"@ =~= seq!['|']);
    match a {
        Answer::Count(verb, n) => {
            law_decimal_spells_its_number(n);
            let s = answer_shown(a, f);
            assert(s.take(verb.len() as int) =~= verb);
            assert(s.skip(verb.len() as int + 1) =~= crate::strings::decimal(n));
        },
        Answer::Rows(rows) => {
            let lines = Seq::new(rows.len(), |i: int| row_shown(rows[i], f));
            assert(answer_shown(a, f) == joined(lines, seq!['\n']));
        },
        _ => {},
    }
    let cells = Seq::new(row.len(), |i: int| rendered(row[i], f));
    assert(row_shown(row, f) == joined(cells, seq!['|']));
}

/// The rows among the first `n` whose column holds a text.
pub open spec fn texts_among(h: Seq<Hit>, pos: int, n: int) -> Set<int> {
    Set::new(|i: int| 0 <= i < n && h[i].1[pos] is Text)
}

/// A text index counts as documents the rows whose column holds a text.
pub proof fn law_documents_are_texts(h: Seq<Hit>, pos: int, n: int)
    requires
        0 <= n <= h.len(),
    ensures
        texts_among(h, pos, n).finite(),
        documents(h, pos, n) == texts_among(h, pos, n).len(),
    decreases n,
{
    let now = texts_among(h, pos, n);
    if n == 0 {
        assert(now =~= Set::empty());
    } else {
        law_documents_are_texts(h, pos, n - 1);
        let less = texts_among(h, pos, n - 1);
        if h[n - 1].1[pos] is Text {
            assert(now =~= less.insert(n - 1));
        } else {
            assert(now =~= less);
        }
    }
}

/// The length of a text index adds up: over two lists of rows it is that of
/// the one and that of the other, and over one row the number of words of
/// its text.
pub proof fn law_lengths_add_up(a: Seq<Hit>, b: Seq<Hit>, pos: int)
    ensures
        total_length(a + b, pos, (a + b).len() as int) == total_length(a, pos, a.len() as int)
            + total_length(b, pos, b.len() as int),
        a.len() == 1 ==> total_length(a, pos, 1) == (match a[0].1[pos] {
            Val::Text(doc) => terms(doc).len(),
            _ => 0,
        }),
{
    reveal_with_fuel(total_length, 2);
    lemma_same_length(a, a + b, pos, a.len() as int);
    lemma_lengths(a, b, pos, b.len() as int);
}

proof fn lemma_same_length(a: Seq<Hit>, c: Seq<Hit>, pos: int, n: int)
    requires
        0 <= n <= a.len() <= c.len(),
        forall|i: int| 0 <= i < n ==> a[i] == #[trigger] c[i],
    ensures
        total_length(a, pos, n) == total_length(c, pos, n),
    decreases n,
{
    if n > 0 {
        lemma_same_length(a, c, pos, n - 1);
        assert(a[n - 1] == c[n - 1]);
    }
}

proof fn lemma_lengths(a: Seq<Hit>, b: Seq<Hit>, pos: int, n: int)
    requires
        0 <= n <= b.len(),
    ensures
        total_length(a + b, pos, a.len() + n) == total_length(a + b, pos, a.len() as int)
            + total_length(b, pos, n),
    decreases n,
{
    if n > 0 {
        lemma_lengths(a, b, pos, n - 1);
        assert((a + b)[a.len() + n - 1] == b[n - 1]);
    }
}

} // verus!
