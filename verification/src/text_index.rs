//! Checking a text index against the rows it was built from.
//!
//! A text index holds, for every document, one posting per term and one
//! entry with the document's length, and for the whole corpus one entry
//! with the number of documents and their total length. Postings stand
//! under the term, the rest under small integers, which sort ahead of every
//! term. Text indexes carry values, so they are compared on key and value
//! both: a posting whose positions drifted is a wrong answer, not a missing
//! entry.

use vstd::prelude::*;
use vstd::utf8::encode_utf8;

use crate::ast::BinaryOp;
use crate::bytes::{le_bytes, put_le};
use crate::catalog::{Col, Tab, Table};
use crate::encoding::{vals, Val, Value};
use crate::exec_error::{ExecError, Fail};
use crate::plan::Path;
use crate::query::{full_rows, hits, reached, scan_table, Fetched, Hit};
use crate::rows::{entry_at, index_entry_key, object_prefix, pk_of, probe_at, probe_prefix, range_at, row_pk};
use crate::scan::{item_keys, Item};
use crate::session::Session;
use crate::source::{items, listing, Source};
use crate::storage::Storage;
use crate::store::Bytes;
use crate::strings::{join2, join3, join_all, lemma_utf8_injective, owned, texts, u64_text};
use crate::text::{
    count_terms, encode_posting, has_term, indexes, length, occurs, positions, posting_stored, posting_view,
    postings, terms,
};
use crate::verify::{
    agrees, compare_entries, compared, has_item, holds_key, in_line, lemma_compared, lemma_in_order,
    order_items, report,
};

verus! {

/// What an index holds where.
pub type Entries = Vec<(Vec<u8>, Vec<u8>)>;

/// Whether a word is a term of a document.
pub open spec fn is_term(doc: Seq<char>, word: Seq<char>) -> bool {
    occurs(terms(doc), encode_utf8(word), terms(doc).len() as int)
}

/// The posting of one term of a document: where it occurs, beside the
/// document's length.
pub open spec fn posting_item(id: u64, pk: Seq<Val>, doc: Seq<char>, word: Seq<char>) -> Item {
    let ts = terms(doc);
    (
        entry_at(id, Val::Text(word), pk),
        posting_stored(ts.len() as u32, positions(ts, encode_utf8(word), ts.len() as int)),
    )
}

/// The entry with a document's length.
pub open spec fn length_item(id: u64, pk: Seq<Val>, doc: Seq<char>) -> Item {
    (entry_at(id, Val::Int(0), pk), le_bytes(terms(doc).len(), 4))
}

/// Whether a document asks for an entry.
pub open spec fn of_document(id: u64, pk: Seq<Val>, doc: Seq<char>, x: Item) -> bool {
    ||| x == length_item(id, pk, doc)
    ||| exists|word: Seq<char>| #[trigger]
        is_term(doc, word) && x == posting_item(id, pk, doc, word)
}

/// Whether a row asks for an entry: a value that is no text is no document.
pub open spec fn of_row(cs: Seq<Col>, pos: int, id: u64, h: Hit, x: Item) -> bool {
    h.1[pos] matches Val::Text(doc) && of_document(id, pk_of(cs, h.1), doc, x)
}

/// How many of the first `n` rows hold a document.
pub open spec fn documents(h: Seq<Hit>, pos: int, n: int) -> nat
    decreases n,
{
    if n <= 0 {
        0
    } else if h[n - 1].1[pos] is Text {
        documents(h, pos, n - 1) + 1
    } else {
        documents(h, pos, n - 1)
    }
}

/// How long the documents of the first `n` rows are together.
pub open spec fn total_length(h: Seq<Hit>, pos: int, n: int) -> nat
    decreases n,
{
    if n <= 0 {
        0
    } else {
        match h[n - 1].1[pos] {
            Val::Text(doc) => total_length(h, pos, n - 1) + terms(doc).len(),
            _ => total_length(h, pos, n - 1),
        }
    }
}

/// The entry with the corpus counters.
pub open spec fn corpus_item(id: u64, docs: nat, total: nat) -> Item {
    (probe_at(id, Val::Int(1)), le_bytes(docs, 8) + le_bytes(total, 8))
}

/// Whether some rows ask for an entry. An index without documents holds no
/// counters.
pub open spec fn text_wanted(cs: Seq<Col>, pos: int, id: u64, h: Seq<Hit>, x: Item) -> bool {
    let docs = documents(h, pos, h.len() as int);
    ||| exists|i: int| 0 <= i < h.len() && #[trigger] of_row(cs, pos, id, h[i], x)
    ||| docs > 0 && x == corpus_item(id, docs, total_length(h, pos, h.len() as int))
}

/// Whether a text index is as its rows ask for: nothing missing, nothing
/// different, nothing stray.
pub open spec fn text_agrees(
    actual: Seq<Item>,
    cs: Seq<Col>,
    pos: int,
    id: u64,
    h: Seq<Hit>,
) -> bool {
    &&& forall|x: Item| #[trigger] text_wanted(cs, pos, id, h, x) ==> has_item(actual, x)
    &&& forall|i: int|
        0 <= i < actual.len() ==> key_wanted(cs, pos, id, h, (#[trigger] actual[i]).0)
}

/// Whether some rows ask for an entry with that key.
pub open spec fn key_wanted(cs: Seq<Col>, pos: int, id: u64, h: Seq<Hit>, k: Seq<u8>) -> bool {
    exists|x: Item| #[trigger] text_wanted(cs, pos, id, h, x) && x.0 == k
}

/// Whether every document is short enough for its positions to be counted,
/// and all of them together for their length to be.
pub open spec fn countable(h: Seq<Hit>, pos: int) -> bool {
    &&& forall|i: int|
        0 <= i < h.len() ==> ((#[trigger] h[i]).1[pos] matches Val::Text(doc) ==> terms(
            doc,
        ).len() <= u32::MAX)
    &&& total_length(h, pos, h.len() as int) <= u64::MAX
}

/// Whether the rows of a table can be read and a text index over one of its
/// columns is as they ask for.
pub open spec fn text_indexed(m: Bytes, t: Tab, pos: int, id: u64) -> bool {
    match reached(m, t, Path::SeqScan) {
        Ok(h) => countable(h, pos) && text_agrees(
            listing(m, range_at(id)),
            t.columns,
            pos,
            id,
            h,
        ),
        Err(_) => false,
    }
}

/// How reports name a text index.
pub open spec fn text_place(t: Tab, pos: int) -> Seq<char> {
    "text index "@ + t.name + "."@ + t.columns[pos].name
}

/// What some rows ask for, in order of the keys.
pub open spec fn text_listed(cs: Seq<Col>, pos: int, id: u64, h: Seq<Hit>, e: Seq<Item>) -> bool {
    &&& in_line(item_keys(e))
    &&& forall|x: Item| #[trigger] has_item(e, x) <==> text_wanted(cs, pos, id, h, x)
}

/// What a report on a text index says.
pub open spec fn text_report(m: Bytes, t: Tab, pos: int, id: u64, text: Seq<char>) -> bool {
    reached(m, t, Path::SeqScan) matches Ok(h) ==> if countable(h, pos) {
        exists|e: Seq<Item>| #[trigger]
            text_listed(t.columns, pos, id, h, e) && text == report(
                compared(text_place(t, pos), false, listing(m, range_at(id)), e),
            )
    } else {
        text == text_place(t, pos) + ": the documents are too long to count"@
    }
}

/// Where the corpus counters stand.
pub fn corpus_key(id: u64) -> (r: Vec<u8>)
    ensures
        r@ == probe_at(id, Val::Int(1)),
{
    probe_prefix(id, &Value::Int(1))
}

/// The entries one document asks for.
fn document_entries(id: u64, pk: &[Value], doc: &str) -> (r: Entries)
    requires
        terms(doc@).len() <= u32::MAX,
    ensures
        forall|x: Item| #[trigger]
            has_item(items(r@), x) <==> of_document(id, vals(pk@), doc@, x),
{
    let ghost ts = terms(doc@);
    let ghost key = vals(pk@);
    let found = postings(doc);
    let size: u32 = length(doc);
    let len: usize = found.len();
    let mut out: Entries = Vec::new();
    for i in 0..len
        invariant
            len == found@.len(),
            ts == terms(doc@),
            key == vals(pk@),
            size == ts.len(),
            indexes(ts, ts.len() as int, posting_view(found@)),
            out@.len() == i,
            forall|k: int|
                0 <= k < i ==> (#[trigger] items(out@)[k]) == posting_item(
                    id,
                    key,
                    doc@,
                    found@[k].0@,
                ),
    {
        let ghost had = out@;
        let word = Value::Text(owned(found[i].0.as_str()));
        let at = index_entry_key(id, &word, pk);
        out.push((at, encode_posting(size, found[i].1.as_slice())));
        proof {
            let p = posting_view(found@)[i as int];
            assert(p == (encode_utf8(found@[i as int].0@), found@[i as int].1@));
            assert(p.1 == positions(ts, p.0, ts.len() as int));
            assert forall|k: int| 0 <= k < i + 1 implies (#[trigger] items(out@)[k])
                == posting_item(id, key, doc@, found@[k].0@) by {
                if k < i {
                    assert(items(out@)[k] == items(had)[k]);
                }
            }
        }
    }
    let ghost had = out@;
    let mut size_bytes: Vec<u8> = Vec::new();
    put_le(&mut size_bytes, size as u64, 4);
    out.push((index_entry_key(id, &Value::Int(0), pk), size_bytes));
    proof {
        let all = items(out@);
        assert(all[len as int] == length_item(id, key, doc@));
        assert forall|k: int| 0 <= k < len implies (#[trigger] all[k]) == items(had)[k] by {}
        assert forall|x: Item| #[trigger] has_item(all, x) implies of_document(
            id,
            key,
            doc@,
            x,
        ) by {
            let k = choose|k: int| 0 <= k < all.len() && #[trigger] all[k] == x;
            if k < len {
                assert(items(had)[k] == posting_item(id, key, doc@, found@[k].0@));
                assert(posting_view(found@)[k].0 == encode_utf8(found@[k].0@));
                assert(is_term(doc@, found@[k].0@));
            }
        }
        assert forall|x: Item| of_document(id, key, doc@, x) implies #[trigger] has_item(
            all,
            x,
        ) by {
            if x == length_item(id, key, doc@) {
                assert(all[len as int] == x);
            } else {
                let word = choose|word: Seq<char>| #[trigger]
                    is_term(doc@, word) && x == posting_item(id, key, doc@, word);
                let b = encode_utf8(word);
                let at = choose|k: int| 0 <= k < ts.len() && #[trigger] ts[k] == b;
                let p = posting_view(found@);
                assert(has_term(p, ts[at]));
                let i = choose|i: int| 0 <= i < p.len() && (#[trigger] p[i]).0 == b;
                lemma_utf8_injective(found@[i].0@, word);
                assert(items(had)[i] == x);
                assert(all[i] == x);
            }
        }
    }
    out
}

/// Move entries to the end of a list.
fn add_entries(out: &mut Entries, more: Entries)
    ensures
        items(final(out)@) == items(old(out)@) + items(more@),
{
    let ghost before = out@;
    let mut rest = more;
    out.append(&mut rest);
    proof {
        assert(items(out@) =~= items(before) + items(more@));
    }
}

proof fn lemma_has_item_add(a: Seq<Item>, b: Seq<Item>)
    ensures
        forall|x: Item| #[trigger] has_item(a + b, x) <==> has_item(a, x) || has_item(b, x),
{
    let s = a + b;
    assert forall|x: Item| has_item(a, x) || has_item(b, x) implies #[trigger] has_item(s, x) by {
        if has_item(a, x) {
            let i = choose|i: int| 0 <= i < a.len() && #[trigger] a[i] == x;
            assert(s[i] == x);
        } else {
            let i = choose|i: int| 0 <= i < b.len() && #[trigger] b[i] == x;
            assert(s[a.len() + i] == x);
        }
    }
    assert forall|x: Item| #[trigger] has_item(s, x) implies has_item(a, x) || has_item(b, x) by {
        let i = choose|i: int| 0 <= i < s.len() && #[trigger] s[i] == x;
        if i < a.len() {
            assert(a[i] == x);
        } else {
            assert(b[i - a.len()] == x);
        }
    }
}

proof fn lemma_total_grows(h: Seq<Hit>, pos: int, n: int, m: int)
    requires
        0 <= n <= m,
    ensures
        total_length(h, pos, n) <= total_length(h, pos, m),
    decreases m - n,
{
    if n < m {
        lemma_total_grows(h, pos, n, m - 1);
    }
}

/// The entries some rows ask for, unless their documents cannot be counted.
#[verifier::spinoff_prover]
#[verifier::rlimit(40)]
fn wanted_entries(table: &Table, pos: usize, id: u64, found: &Fetched) -> (r: Option<Entries>)
    requires
        pos < table@.columns.len(),
        full_rows(found@, table@.columns.len()),
    ensures
        r is Some <==> countable(hits(found@), pos as int),
        r matches Some(v) ==> forall|x: Item| #[trigger]
            has_item(items(v@), x) <==> text_wanted(
                table@.columns,
                pos as int,
                id,
                hits(found@),
                x,
            ),
{
    let ghost cs = table@.columns;
    let ghost h = hits(found@);
    let ghost p = pos as int;
    let mut out: Entries = Vec::new();
    let mut docs: u64 = 0;
    let mut total: u64 = 0;
    let len: usize = found.len();
    for i in 0..len
        invariant
            len == found@.len() == h.len(),
            cs == table@.columns,
            h == hits(found@),
            p == pos,
            pos < cs.len(),
            full_rows(found@, cs.len()),
            docs == documents(h, p, i as int),
            docs <= i,
            total == total_length(h, p, i as int),
            forall|k: int|
                0 <= k < i ==> ((#[trigger] h[k]).1[p] matches Val::Text(doc) ==> terms(
                    doc,
                ).len() <= u32::MAX),
            forall|x: Item| #[trigger]
                has_item(items(out@), x) <==> exists|k: int|
                    0 <= k < i && #[trigger] of_row(cs, p, id, h[k], x),
    {
        let row = &found[i].1;
        proof {
            assert(found@[i as int].1@.len() == cs.len());
            assert(h[i as int].1 == vals(row@));
            assert(h[i as int].1[p] == row@[p]@);
        }
        let ghost had = items(out@);
        match &row[pos] {
            Value::Text(doc) => {
                if count_terms(doc.as_str()) > 0xFFFF_FFFF {
                    return None;
                }
                let size: u32 = length(doc.as_str());
                if total > u64::MAX - size as u64 {
                    proof {
                        lemma_total_grows(h, p, i + 1, h.len() as int);
                    }
                    return None;
                }
                let pk = row_pk(table, row.as_slice());
                let more = document_entries(id, pk.as_slice(), doc.as_str());
                let ghost new = items(more@);
                add_entries(&mut out, more);
                docs = docs + 1;
                total = total + size as u64;
                proof {
                    lemma_has_item_add(had, new);
                    assert forall|x: Item| #[trigger] has_item(items(out@), x) <==> exists|k: int|
                        0 <= k < i + 1 && #[trigger] of_row(cs, p, id, h[k], x) by {
                        assert(has_item(had + new, x) <==> has_item(had, x) || has_item(new, x));
                        assert(has_item(new, x) <==> of_row(cs, p, id, h[i as int], x));
                    }
                }
            },
            _ => {
                proof {
                    assert forall|x: Item| #[trigger] has_item(items(out@), x) <==> exists|k: int|
                        0 <= k < i + 1 && #[trigger] of_row(cs, p, id, h[k], x) by {
                        assert(!of_row(cs, p, id, h[i as int], x));
                    }
                }
            },
        }
    }
    let ghost had = out@;
    if docs > 0 {
        let mut counters: Vec<u8> = Vec::new();
        put_le(&mut counters, docs, 8);
        put_le(&mut counters, total, 8);
        out.push((corpus_key(id), counters));
        proof {
            let last = corpus_item(id, docs as nat, total as nat);
            let one = seq![last];
            assert(items(out@) =~= items(had) + one);
            lemma_has_item_add(items(had), one);
            assert forall|x: Item| #[trigger] has_item(one, x) <==> x == last by {
                assert(one[0] == last);
            }
        }
    }
    Some(out)
}

/// Check a text index over one column of a table, as a point in time holds
/// both.
fn verify_text<V: Source>(view: &V, table: &Table, pos: usize, id: u64) -> (r:
    core::result::Result<(), ExecError>)
    requires
        view.ready(),
        pos < table@.columns.len(),
    ensures
        view.whole() ==> match r {
            Ok(_) => text_indexed(view.rows(), table@, pos as int, id),
            Err(e) => (e.fail() is Storage && !view.steady()) || (e.fail() is Exec && !text_indexed(
                view.rows(),
                table@,
                pos as int,
                id,
            ) && text_report(view.rows(), table@, pos as int, id, e.text())),
        },
{
    let ghost m = view.rows();
    let ghost t = table@;
    let found = match scan_table(view, table) {
        Ok(v) => v,
        Err(e) => {
            proof {
                if view.whole() && reached(m, t, Path::SeqScan) is Err {
                    crate::query::lemma_read_all_kind(t.columns, listing(m, range_at(t.id)));
                }
            }
            return Err(e);
        },
    };
    let ghost h = hits(found@);
    proof {
        if view.whole() {
            assert(reached(m, t, Path::SeqScan) == Ok::<Seq<Hit>, Fail>(h));
        }
    }
    let place = join2(
        join3("text index ", table.name.as_str(), ".").as_str(),
        table.columns[pos].name.as_str(),
    );
    let expected = match wanted_entries(table, pos, id, &found) {
        Some(v) => v,
        None => return Err(
            ExecError::Exec(join2(place.as_str(), ": the documents are too long to count")),
        ),
    };
    let ordered = order_items(&expected);
    let actual = match view.view_scan(object_prefix(id).as_slice()) {
        Ok(v) => v,
        Err(e) => return Err(e),
    };
    let mut problems: Vec<String> = Vec::new();
    proof {
        assert(texts(problems@) =~= Seq::<Seq<char>>::empty());
        lemma_in_order(items(expected@));
    }
    compare_entries(place.as_str(), false, &actual, &ordered, &mut problems);
    proof {
        let a = items(actual@);
        let e = items(ordered@);
        assert(texts(problems@).len() == problems@.len());
        if view.whole() {
            assert(place@ == text_place(t, pos as int));
            assert(texts(problems@) =~= compared(place@, false, a, e));
            lemma_compared(place@, false, a, e);
            assert forall|x: Item| #[trigger] has_item(e, x) <==> text_wanted(
                t.columns,
                pos as int,
                id,
                h,
                x,
            ) by {
                assert(has_item(items(expected@), x) <==> text_wanted(
                    t.columns,
                    pos as int,
                    id,
                    h,
                    x,
                ));
            }
            lemma_agrees(a, e, t.columns, pos as int, id, h);
            assert(text_listed(t.columns, pos as int, id, h, e));
        }
    }
    if problems.len() == 0 {
        return Ok(());
    }
    let head = join3(
        "index verification found ",
        u64_text(problems.len() as u64).as_str(),
        " problems:\n",
    );
    Err(ExecError::Exec(join2(head.as_str(), join_all(&problems, "\n").as_str())))
}

proof fn lemma_agrees(
    actual: Seq<Item>,
    expected: Seq<Item>,
    cs: Seq<Col>,
    pos: int,
    id: u64,
    h: Seq<Hit>,
)
    requires
        forall|x: Item| #[trigger]
            has_item(expected, x) <==> text_wanted(cs, pos, id, h, x),
    ensures
        agrees(actual, expected) <==> text_agrees(actual, cs, pos, id, h),
{
    assert forall|k: Seq<u8>| #[trigger] holds_key(expected, k) <==> key_wanted(
        cs,
        pos,
        id,
        h,
        k,
    ) by {
        if holds_key(expected, k) {
            let i = choose|i: int| 0 <= i < expected.len() && (#[trigger] expected[i]).0 == k;
            assert(has_item(expected, expected[i]));
            assert(text_wanted(cs, pos, id, h, expected[i]));
        }
        if key_wanted(cs, pos, id, h, k) {
            let x = choose|x: Item| #[trigger] text_wanted(cs, pos, id, h, x) && x.0 == k;
            assert(has_item(expected, x));
            let i = choose|i: int| 0 <= i < expected.len() && #[trigger] expected[i] == x;
            assert(expected[i].0 == k);
        }
    }
    if agrees(actual, expected) {
        assert forall|x: Item| #[trigger] text_wanted(cs, pos, id, h, x) implies has_item(
            actual,
            x,
        ) by {
            assert(has_item(expected, x));
            let i = choose|i: int| 0 <= i < expected.len() && #[trigger] expected[i] == x;
            assert(has_item(actual, expected[i]));
        }
        assert forall|i: int| 0 <= i < actual.len() implies key_wanted(
            cs,
            pos,
            id,
            h,
            (#[trigger] actual[i]).0,
        ) by {
            assert(holds_key(expected, actual[i].0));
        }
    }
    if text_agrees(actual, cs, pos, id, h) {
        assert forall|i: int| 0 <= i < expected.len() implies has_item(
            actual,
            #[trigger] expected[i],
        ) by {
            assert(has_item(expected, expected[i]));
            assert(text_wanted(cs, pos, id, h, expected[i]));
        }
        assert forall|i: int| 0 <= i < actual.len() implies holds_key(
            expected,
            (#[trigger] actual[i]).0,
        ) by {
            assert(key_wanted(cs, pos, id, h, actual[i].0));
        }
    }
}

/// Check a text index over one column of a table, as the current branch
/// holds both. Returns a report of all problems found, or nothing when
/// everything lines up.
pub fn verify_text_index<S: Storage, M: Fn(BinaryOp, u64, u64) -> u64, T: Fn(u64) -> String>(
    session: &Session<S, M, T>,
    table: &Table,
    pos: usize,
    id: u64,
) -> (r: core::result::Result<(), ExecError>)
    requires
        session.wf(),
        pos < table@.columns.len(),
    ensures
        session.sound() ==> match r {
            Ok(_) => text_indexed(session.db.data(), table@, pos as int, id),
            Err(e) => e.fail() is Exec && !text_indexed(
                session.db.data(),
                table@,
                pos as int,
                id,
            ) && text_report(session.db.data(), table@, pos as int, id, e.text()),
        },
{
    let view = session.db.snapshot();
    verify_text(&view, table, pos, id)
}

} // verus!
