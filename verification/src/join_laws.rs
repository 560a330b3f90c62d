//! However a join finds its rows, it finds the same ones.
//!
//! The nested loop tests every pair. A probe tests only the rows it looks
//! up, and the whole condition on each of them. On tables whose indexes are
//! in step the rows a probe leaves out are rows the condition refuses.

use vstd::prelude::*;

use crate::ast::{JoinKind, Name, Term};
use crate::catalog::{key_spots, lemma_key_spots, spot, Col, Tab};
use crate::consistency::{
    entry_of, has_index, is_row, kept, lemma_entry_prefix, lemma_follow_hits, lemma_listed,
    lemma_one_row, lemma_probe_range, lemma_reached_hits, path_ok,
};
use crate::encoding::Val;
use crate::exec_error::Fail;
use crate::join::{
    first_index, first_key, havers, join_planned, joinable, joint_names, left_home,
    lemma_first_index, lemma_first_key, lemma_means, lemma_named, lemma_named_grows,
    lemma_resolved, means, named, pairs, pairs_of, probe_of, resolved, someone_has, width, Probe,
};
use crate::joining::{candidates, found_rows, joined_all, joined_one, matched};
use crate::plan::{
    conj, law_condition_is_its_conjuncts, lemma_all_hold_each, lemma_equal_is_same, row_typed, Path,
};
use crate::query::{bare, follow_all, reached};
use crate::rows::{law_keys_are_distinct, pk_of, probe_at, range_at, row_at};
use crate::scan::has_key;
use crate::sorting::Row;
use crate::source::listing;
use crate::store::Bytes;
use crate::value_ops::{equal, fitted, holds_in, worth, Math};

verus! {

/// A row a table can hold: every value of its column's type, and no key
/// null.
pub open spec fn row_valid(cs: Seq<Col>, row: Row) -> bool {
    &&& row_typed(cs, row)
    &&& forall|i: int| 0 <= i < cs.len() && cs[i].key ==> !(#[trigger] row[i] is Null)
}

// ---------------------------------------------------------------------
// names
// ---------------------------------------------------------------------

/// A reference that means a column of the right table resolves to it.
proof fn lemma_right_name(ts: Seq<Tab>, step: int, r: Name)
    requires
        joinable(ts),
        0 <= step,
        step + 1 < ts.len(),
        means(r, ts[step + 1], ts.take(step + 1)) is Some,
    ensures
        resolved(ts, step + 2, r) == Some(
            width(ts, step + 1) + means(r, ts[step + 1], ts.take(step + 1))->0,
        ),
{
    let n = step + 1;
    match r.table {
        Some(q) => {
            lemma_named(ts, n, q);
            if let Some(i) = named(ts, n, q) {
                assert(ts[i].name != ts[n].name);
            }
            assert(named(ts, n + 1, q) == Some(n));
        },
        None => {
            lemma_nobody(ts, n, r.column, ts.take(n));
            assert(havers(ts, n + 1, r.column) =~= seq![n]);
        },
    }
}

proof fn lemma_nobody(ts: Seq<Tab>, n: int, column: Seq<char>, ls: Seq<Tab>)
    requires
        0 <= n <= ls.len() <= ts.len(),
        ls == ts.take(ls.len() as int),
        !someone_has(ls, column),
    ensures
        havers(ts, n, column) == Seq::<int>::empty(),
    decreases n,
{
    if n > 0 {
        lemma_nobody(ts, n - 1, column, ls);
        assert(ls[n - 1] == ts[n - 1]);
        assert(spot(ls[n - 1].columns, column) is None);
    }
}

proof fn lemma_left_home(ls: Seq<Tab>, n: int, right: Tab, r: Name)
    requires
        n <= ls.len(),
    ensures
        left_home(ls, n, right, r) matches Some(i) ==> 0 <= i < n && means(r, ls[i], seq![right]) is Some,
    decreases n,
{
    if n > 0 {
        lemma_left_home(ls, n - 1, right, r);
    }
}

/// A reference that means a left column resolves to the same place before
/// and after the right table joins.
proof fn lemma_left_name(ts: Seq<Tab>, step: int, r: Name)
    requires
        0 <= step,
        step + 1 < ts.len(),
        left_home(ts.take(step + 1), step + 1, ts[step + 1], r) is Some,
        resolved(ts, step + 2, r) is Some,
    ensures
        resolved(ts, step + 1, r) == resolved(ts, step + 2, r),
        0 <= resolved(ts, step + 1, r)->0 < width(ts, step + 1),
{
    let n = step + 1;
    let ls = ts.take(n);
    lemma_left_home(ls, n, ts[n], r);
    let i = left_home(ls, n, ts[n], r)->0;
    match r.table {
        Some(q) => {
            assert(ls[i].name == q);
            lemma_is_named(ts, n, i, q);
            lemma_named_grows(ts, n, n + 1, q);
        },
        None => {
            assert(seq![ts[n]][0] == ts[n]);
            assert(!someone_has(seq![ts[n]], r.column));
            assert(spot(ts[n].columns, r.column) is None);
            assert(havers(ts, n + 1, r.column) == havers(ts, n, r.column));
        },
    }
    lemma_resolved(ts, n, r);
}

proof fn lemma_is_named(ts: Seq<Tab>, n: int, i: int, q: Seq<char>)
    requires
        0 <= i < n,
        ts[i].name == q,
    ensures
        named(ts, n, q) is Some,
    decreases n,
{
    if i < n - 1 {
        lemma_is_named(ts, n - 1, i, q);
    }
}

/// A pair comes from a part of the condition.
proof fn lemma_pair_part(parts: Seq<Term>, i: int) -> (k: int)
    requires
        0 <= i < pairs(parts).len(),
    ensures
        0 <= k < parts.len(),
        pairs_of(parts[k]).contains(pairs(parts)[i]),
    decreases parts.len(),
{
    if parts.len() == 0 {
        0
    } else {
        let less = pairs(parts.drop_last());
        if i < less.len() {
            let k = lemma_pair_part(parts.drop_last(), i);
            assert(parts.drop_last()[k] == parts[k]);
            assert(pairs(parts)[i] == less[i]);
            k
        } else {
            let mine = pairs_of(parts.last());
            assert(pairs(parts)[i] == mine[i - less.len()]);
            parts.len() - 1
        }
    }
}

/// Where a condition holds, both sides of each of its pairs are equal.
proof fn lemma_pair_holds(
    on: Term,
    i: int,
    s: spec_fn(Name) -> core::result::Result<Val, Fail>,
    g: Math,
)
    requires
        0 <= i < pairs(conj(on)).len(),
        holds_in(on, s, g) == Ok::<bool, Fail>(true),
    ensures
        s(pairs(conj(on))[i].0) is Ok,
        s(pairs(conj(on))[i].1) is Ok,
        equal(s(pairs(conj(on))[i].0)->Ok_0, s(pairs(conj(on))[i].1)->Ok_0) == Ok::<bool, Fail>(true)
            || equal(s(pairs(conj(on))[i].1)->Ok_0, s(pairs(conj(on))[i].0)->Ok_0) == Ok::<
            bool,
            Fail,
        >(true),
{
    let parts = conj(on);
    let pair = pairs(parts)[i];
    law_condition_is_its_conjuncts(on, s, g);
    lemma_all_hold_each(parts, s, g);
    let k = lemma_pair_part(parts, i);
    reveal_with_fuel(worth, 3);
    reveal_with_fuel(holds_in, 3);
    assert(holds_in(parts[k], s, g) == Ok::<bool, Fail>(true));
    let j = choose|j: int| 0 <= j < pairs_of(parts[k]).len() && pairs_of(parts[k])[j] == pair;
    match parts[k] {
        Term::Binary(l, op, r) => {
            match (*l, *r) {
                (Term::Column(a), Term::Column(b)) => {
                    assert(worth(*l, s, g) == s(a));
                    assert(worth(*r, s, g) == s(b));
                },
                _ => {},
            }
        },
        _ => {},
    }
}

// ---------------------------------------------------------------------
// rows
// ---------------------------------------------------------------------

/// A scan of a table reaches every row.
pub proof fn lemma_scan_has(m: Bytes, right: Tab, row: Row)
    requires
        m.dom().finite(),
        kept(m, right),
        is_row(m, right, row),
        found_rows(m, right, Path::SeqScan) is Ok,
    ensures
        found_rows(m, right, Path::SeqScan)->Ok_0.contains(row),
{
    lemma_listed(m, range_at(right.id));
    let raw = listing(m, range_at(right.id));
    let h = reached(m, right, Path::SeqScan)->Ok_0;
    lemma_reached_hits(m, right, Path::SeqScan);
    crate::consistency::lemma_read_all_hits(m, right, raw);
    let k = row_at(right.id, pk_of(right.columns, row));
    lemma_entry_prefix(right.id, Val::Null, pk_of(right.columns, row));
    assert(has_key(raw, k));
    let i = choose|i: int| 0 <= i < raw.len() && (#[trigger] raw[i]).0 == k;
    assert(h[i].0 == k);
    law_keys_are_distinct(
        right.id,
        Val::Null,
        pk_of(right.columns, h[i].1),
        Val::Null,
        pk_of(right.columns, row),
    );
    lemma_one_row(m, right, h[i].1, row);
    assert(bare(h)[i] == row);
}

/// An index scan reaches every row with its value.
pub proof fn lemma_scan_reaches(m: Bytes, t: Tab, pos: int, v: Val, row: Row)
    requires
        m.dom().finite(),
        kept(m, t),
        has_index(t, pos),
        is_row(m, t, row),
        row[pos] == v,
        reached(m, t, Path::IndexScan(pos, t.columns[pos].index_id->0, v)) is Ok,
    ensures
        bare(reached(m, t, Path::IndexScan(pos, t.columns[pos].index_id->0, v))->Ok_0).contains(row),
{
    let id = t.columns[pos].index_id->0;
    let s = listing(m, probe_at(id, v));
    lemma_listed(m, probe_at(id, v));
    assert forall|i: int| 0 <= i < s.len() implies m.contains_key((#[trigger] s[i]).0) && range_at(
        id,
    ).is_prefix_of(s[i].0) by {
        lemma_probe_range(id, v, s[i].0);
    }
    lemma_follow_hits(m, t, pos, s);
    let h = follow_all(m, t, s)->Ok_0;
    assert(crate::consistency::index_kept(m, t, pos));
    let e = entry_of(t, pos, row);
    lemma_entry_prefix(id, v, pk_of(t.columns, row));
    assert(has_key(s, e));
    let i = choose|i: int| 0 <= i < s.len() && (#[trigger] s[i]).0 == e;
    law_keys_are_distinct(
        id,
        h[i].1[pos],
        pk_of(t.columns, h[i].1),
        row[pos],
        pk_of(t.columns, row),
    );
    assert(is_row(m, t, h[i].1));
    lemma_one_row(m, t, h[i].1, row);
    assert(bare(h)[i] == row);
}

/// A probe offers every stored row the join condition accepts.
pub proof fn law_probe_offers_every_match(
    m: Bytes,
    ts: Seq<Tab>,
    step: int,
    on: Term,
    left: Row,
    row: Row,
    g: Math,
)
    requires
        m.dom().finite(),
        joinable(ts),
        0 <= step,
        step + 1 < ts.len(),
        kept(m, ts[step + 1]),
        left.len() == width(ts, step + 1),
        is_row(m, ts[step + 1], row),
        row_valid(ts[step + 1].columns, row),
        holds_in(on, joint_names(ts, step + 2, left + row), g) == Ok::<bool, Fail>(true),
        candidates(
            m,
            ts,
            step,
            join_planned(ts.take(step + 1), ts[step + 1], on),
            left,
        ) is Ok,
    ensures
        candidates(
            m,
            ts,
            step,
            join_planned(ts.take(step + 1), ts[step + 1], on),
            left,
        )->Ok_0.contains(row),
{
    let right = ts[step + 1];
    let ls = ts.take(step + 1);
    let s = joint_names(ts, step + 2, left + row);
    let ps = pairs(conj(on));
    lemma_first_key(ls, right, ps);
    lemma_first_index(ls, right, ps);
    match join_planned(ls, right, on) {
        Probe::NestedLoop => {
            lemma_scan_has(m, right, row);
        },
        Probe::KeyProbe(n) => {
            let i = first_key(ls, right, ps)->0;
            let c = probe_of(ls, right, ps[i])->0;
            lemma_probe_value(ts, step, on, left, row, i, c, g);
            lemma_key_spots(right.columns);
            assert(key_spots(right.columns)[0] == c);
            assert(right.columns[c].key);
            let v = joint_names(ts, step + 1, left)(n)->Ok_0;
            assert(!(row[c] is Null));
            assert(!(v is Null));
            lemma_equal_is_same(row[c], v, right.columns[c].ty, false);
            let w = fitted(v, right.columns[c].ty, false)->Ok_0;
            assert(pk_of(right.columns, row) =~= seq![w]);
            let h = reached(m, right, Path::KeyLookup(seq![w]))->Ok_0;
            assert(h[0].1 == row);
            assert(bare(h)[0] == row);
        },
        Probe::IndexProbe(n, c, id) => {
            let i = first_index(ls, right, ps)->0;
            lemma_probe_value(ts, step, on, left, row, i, c, g);
            let v = joint_names(ts, step + 1, left)(n)->Ok_0;
            lemma_equal_is_same(row[c], v, right.columns[c].ty, true);
            assert(has_index(right, c));
            lemma_scan_reaches(m, right, c, row[c], row);
        },
    }
}

/// Where the condition holds, the probed column equals the probing one.
proof fn lemma_probe_value(
    ts: Seq<Tab>,
    step: int,
    on: Term,
    left: Row,
    row: Row,
    i: int,
    c: int,
    g: Math,
)
    requires
        joinable(ts),
        0 <= step,
        step + 1 < ts.len(),
        left.len() == width(ts, step + 1),
        row.len() == ts[step + 1].columns.len(),
        holds_in(on, joint_names(ts, step + 2, left + row), g) == Ok::<bool, Fail>(true),
        0 <= i < pairs(conj(on)).len(),
        probe_of(ts.take(step + 1), ts[step + 1], pairs(conj(on))[i]) == Some(c),
    ensures
        0 <= c < ts[step + 1].columns.len(),
        joint_names(ts, step + 1, left)(pairs(conj(on))[i].1) matches Ok(v) && (equal(row[c], v)
            == Ok::<bool, Fail>(true) || equal(v, row[c]) == Ok::<bool, Fail>(true)),
{
    let s = joint_names(ts, step + 2, left + row);
    let pair = pairs(conj(on))[i];
    let ls = ts.take(step + 1);
    lemma_means(pair.0, ts[step + 1], ls);
    lemma_pair_holds(on, i, s, g);
    lemma_right_name(ts, step, pair.0);
    lemma_left_name(ts, step, pair.1);
    let j = resolved(ts, step + 1, pair.1)->0;
    assert(width(ts, step + 1) + c < (left + row).len());
    assert((left + row)[width(ts, step + 1) + c] == row[c]);
    assert((left + row)[j] == left[j]);
}

/// A probe offers nothing but stored rows of the right table, each at most
/// once.
pub proof fn law_probe_offers_only_rows(m: Bytes, ts: Seq<Tab>, step: int, on: Term, left: Row)
    requires
        m.dom().finite(),
        0 <= step,
        step + 1 < ts.len(),
        kept(m, ts[step + 1]),
        candidates(
            m,
            ts,
            step,
            join_planned(ts.take(step + 1), ts[step + 1], on),
            left,
        ) is Ok,
    ensures
        ({
            let c = candidates(
                m,
                ts,
                step,
                join_planned(ts.take(step + 1), ts[step + 1], on),
                left,
            )->Ok_0;
            &&& forall|i: int| 0 <= i < c.len() ==> is_row(m, ts[step + 1], #[trigger] c[i])
            &&& c.no_duplicates()
        }),
{
    let right = ts[step + 1];
    let ls = ts.take(step + 1);
    let ps = pairs(conj(on));
    lemma_first_index(ls, right, ps);
    match join_planned(ls, right, on) {
        Probe::NestedLoop => {
            lemma_found(m, right, Path::SeqScan);
        },
        Probe::KeyProbe(n) => {
            let v = joint_names(ts, step + 1, left)(n)->Ok_0;
            if !(v is Null) {
                let w = fitted(v, right.columns[key_spots(right.columns)[0]].ty, false)->Ok_0;
                lemma_found(m, right, Path::KeyLookup(seq![w]));
            }
        },
        Probe::IndexProbe(n, c, id) => {
            let i = first_index(ls, right, ps)->0;
            lemma_means(ps[i].0, right, ls);
            assert(has_index(right, c));
            let v = joint_names(ts, step + 1, left)(n)->Ok_0;
            let w = fitted(v, right.columns[c].ty, true)->Ok_0;
            lemma_found(m, right, Path::IndexScan(c, id, w));
        },
    }
}

pub proof fn lemma_found(m: Bytes, t: Tab, p: Path)
    requires
        m.dom().finite(),
        kept(m, t),
        path_ok(t, p),
        found_rows(m, t, p) is Ok,
    ensures
        forall|i: int|
            0 <= i < found_rows(m, t, p)->Ok_0.len() ==> is_row(
                m,
                t,
                #[trigger] found_rows(m, t, p)->Ok_0[i],
            ),
        found_rows(m, t, p)->Ok_0.no_duplicates(),
{
    lemma_reached_hits(m, t, p);
    let h = reached(m, t, p)->Ok_0;
    let c = bare(h);
    assert forall|i: int, j: int| 0 <= i < c.len() && 0 <= j < c.len() && i != j implies c[i]
        != c[j] by {
        if i < j {
            assert(h[i].0 != h[j].0);
        } else {
            assert(h[j].0 != h[i].0);
        }
    }
}

/// What the rows a condition accepts are, whatever order the candidates
/// come in.
pub proof fn lemma_matched(ts: Seq<Tab>, n: int, left: Row, cands: Seq<Row>, on: Term, g: Math)
    requires
        matched(ts, n, left, cands, on, g) is Ok,
        cands.no_duplicates(),
    ensures
        matched(ts, n, left, cands, on, g)->Ok_0.no_duplicates(),
        forall|x: Row| #[trigger]
            matched(ts, n, left, cands, on, g)->Ok_0.contains(x) <==> exists|row: Row| #[trigger]
                cands.contains(row) && x == left + row && holds_in(
                    on,
                    joint_names(ts, n, left + row),
                    g,
                ) == Ok::<bool, Fail>(true),
    decreases cands.len(),
{
    let out = matched(ts, n, left, cands, on, g)->Ok_0;
    if cands.len() == 0 {
        assert forall|x: Row| !#[trigger] out.contains(x) by {}
    } else {
        let less = cands.drop_last();
        let last = cands.last();
        assert(less.no_duplicates()) by {
            assert forall|i: int, j: int| 0 <= i < less.len() && 0 <= j < less.len() && i != j implies
                less[i] != less[j] by {
                assert(less[i] == cands[i] && less[j] == cands[j]);
            }
        }
        lemma_matched(ts, n, left, less, on, g);
        let rest = matched(ts, n, left, less, on, g)->Ok_0;
        let yes = holds_in(on, joint_names(ts, n, left + last), g) == Ok::<bool, Fail>(true);
        assert(less.push(last) =~= cands);
        assert(!less.contains(last)) by {
            if less.contains(last) {
                let i = choose|i: int| 0 <= i < less.len() && less[i] == last;
                assert(cands[i] == cands[cands.len() - 1]);
            }
        }
        assert forall|row: Row| #[trigger] cands.contains(row) <==> less.contains(row) || row == last by {
            if cands.contains(row) {
                let i = choose|i: int| 0 <= i < cands.len() && cands[i] == row;
                if i < less.len() {
                    assert(less[i] == row);
                }
            }
            if less.contains(row) {
                let i = choose|i: int| 0 <= i < less.len() && less[i] == row;
                assert(cands[i] == row);
            }
            if row == last {
                assert(cands[cands.len() - 1] == row);
            }
        }
        assert(out == if yes {
            rest.push(left + last)
        } else {
            rest
        });
        if yes {
            assert(!rest.contains(left + last)) by {
                if rest.contains(left + last) {
                    let row = choose|row: Row| #[trigger]
                        less.contains(row) && left + last == left + row && holds_in(
                            on,
                            joint_names(ts, n, left + row),
                            g,
                        ) == Ok::<bool, Fail>(true);
                    assert((left + last).skip(left.len() as int) =~= last);
                    assert((left + row).skip(left.len() as int) =~= row);
                }
            }
            assert forall|i: int, j: int| 0 <= i < out.len() && 0 <= j < out.len() && i != j implies
                out[i] != out[j] by {
                if i < rest.len() && j < rest.len() {
                    assert(out[i] == rest[i] && out[j] == rest[j]);
                } else if i < rest.len() {
                    assert(rest.contains(rest[i]));
                } else {
                    assert(rest.contains(rest[j]));
                }
            }
        }
        assert forall|x: Row| #[trigger] out.contains(x) <==> exists|row: Row| #[trigger]
            cands.contains(row) && x == left + row && holds_in(on, joint_names(ts, n, left + row), g)
                == Ok::<bool, Fail>(true) by {
            assert(out.contains(x) <==> rest.contains(x) || (yes && x == left + last)) by {
                if out.contains(x) {
                    let i = choose|i: int| 0 <= i < out.len() && out[i] == x;
                    if i < rest.len() {
                        assert(rest[i] == x);
                    }
                }
                if rest.contains(x) {
                    let i = choose|i: int| 0 <= i < rest.len() && rest[i] == x;
                    assert(out[i] == x);
                }
                if yes && x == left + last {
                    assert(out[rest.len() as int] == x);
                }
            }
            if rest.contains(x) {
                let row = choose|row: Row| #[trigger]
                    less.contains(row) && x == left + row && holds_in(
                        on,
                        joint_names(ts, n, left + row),
                        g,
                    ) == Ok::<bool, Fail>(true);
                assert(cands.contains(row));
            }
            if yes && x == left + last {
                assert(cands.contains(last));
            }
            if exists|row: Row| #[trigger]
                cands.contains(row) && x == left + row && holds_in(
                    on,
                    joint_names(ts, n, left + row),
                    g,
                ) == Ok::<bool, Fail>(true) {
                let row = choose|row: Row| #[trigger]
                    cands.contains(row) && x == left + row && holds_in(
                        on,
                        joint_names(ts, n, left + row),
                        g,
                    ) == Ok::<bool, Fail>(true);
                if row != last {
                    assert(less.contains(row));
                }
            }
        }
    }
}

/// Two lists without repeats that have the same members are the same bag.
pub proof fn lemma_same_bag(a: Seq<Row>, b: Seq<Row>)
    requires
        a.no_duplicates(),
        b.no_duplicates(),
        forall|x: Row| #[trigger] a.contains(x) <==> b.contains(x),
    ensures
        a.to_multiset() == b.to_multiset(),
{
    a.to_multiset_ensures();
    b.to_multiset_ensures();
    a.lemma_multiset_has_no_duplicates();
    b.lemma_multiset_has_no_duplicates();
    assert forall|x: Row| a.to_multiset().count(x) == b.to_multiset().count(x) by {
        assert(a.contains(x) <==> b.contains(x));
        if a.contains(x) {
            assert(a.to_multiset().contains(x) && b.to_multiset().contains(x));
        } else {
            assert(!a.to_multiset().contains(x) && !b.to_multiset().contains(x));
        }
    }
    assert(a.to_multiset() =~= b.to_multiset());
}

/// Everything a join step rests on: whole indexes, and rows as their table
/// asks for.
pub open spec fn step_ready(m: Bytes, ts: Seq<Tab>, step: int) -> bool {
    &&& m.dom().finite()
    &&& joinable(ts)
    &&& 0 <= step
    &&& step + 1 < ts.len()
    &&& kept(m, ts[step + 1])
    &&& forall|row: Row| #[trigger]
        is_row(m, ts[step + 1], row) ==> row_valid(ts[step + 1].columns, row)
}

/// What a probe finds for a left row is what testing every row of the right
/// table finds, perhaps in another order.
proof fn lemma_one_row_joins(
    m: Bytes,
    ts: Seq<Tab>,
    step: int,
    kind: JoinKind,
    on: Term,
    left: Row,
    g: Math,
)
    requires
        step_ready(m, ts, step),
        left.len() == width(ts, step + 1),
        joined_one(m, ts, step, kind, on, Probe::NestedLoop, left, g) is Ok,
        joined_one(
            m,
            ts,
            step,
            kind,
            on,
            join_planned(ts.take(step + 1), ts[step + 1], on),
            left,
            g,
        ) is Ok,
    ensures
        joined_one(
            m,
            ts,
            step,
            kind,
            on,
            join_planned(ts.take(step + 1), ts[step + 1], on),
            left,
            g,
        )->Ok_0.to_multiset() == joined_one(
            m,
            ts,
            step,
            kind,
            on,
            Probe::NestedLoop,
            left,
            g,
        )->Ok_0.to_multiset(),
{
    let right = ts[step + 1];
    let p = join_planned(ts.take(step + 1), right, on);
    let c = candidates(m, ts, step, p, left)->Ok_0;
    let d = candidates(m, ts, step, Probe::NestedLoop, left)->Ok_0;
    law_probe_offers_only_rows(m, ts, step, on, left);
    lemma_found(m, right, Path::SeqScan);
    lemma_matched(ts, step + 2, left, c, on, g);
    lemma_matched(ts, step + 2, left, d, on, g);
    let x = matched(ts, step + 2, left, c, on, g)->Ok_0;
    let y = matched(ts, step + 2, left, d, on, g)->Ok_0;
    assert forall|z: Row| #[trigger] x.contains(z) <==> y.contains(z) by {
        if x.contains(z) {
            let row = choose|row: Row| #[trigger]
                c.contains(row) && z == left + row && holds_in(
                    on,
                    joint_names(ts, step + 2, left + row),
                    g,
                ) == Ok::<bool, Fail>(true);
            let i = choose|i: int| 0 <= i < c.len() && c[i] == row;
            assert(is_row(m, right, c[i]));
            lemma_scan_has(m, right, row);
            assert(d.contains(row));
        }
        if y.contains(z) {
            let row = choose|row: Row| #[trigger]
                d.contains(row) && z == left + row && holds_in(
                    on,
                    joint_names(ts, step + 2, left + row),
                    g,
                ) == Ok::<bool, Fail>(true);
            let i = choose|i: int| 0 <= i < d.len() && d[i] == row;
            assert(is_row(m, right, d[i]));
            assert(row_valid(right.columns, row));
            law_probe_offers_every_match(m, ts, step, on, left, row, g);
            assert(c.contains(row));
        }
    }
    lemma_same_bag(x, y);
    x.to_multiset_ensures();
    y.to_multiset_ensures();
    assert(x.len() == y.len());
}

/// Every join strategy finds the same rows: one step through the probe that
/// was planned gives the rows that testing every pair gives, each as often,
/// where both come to an end.
pub proof fn law_strategies_agree(
    m: Bytes,
    ts: Seq<Tab>,
    step: int,
    kind: JoinKind,
    on: Term,
    lefts: Seq<Row>,
    g: Math,
)
    requires
        step_ready(m, ts, step),
        forall|i: int| 0 <= i < lefts.len() ==> (#[trigger] lefts[i]).len() == width(ts, step + 1),
        joined_all(m, ts, step, kind, on, Probe::NestedLoop, lefts, g) is Ok,
        joined_all(
            m,
            ts,
            step,
            kind,
            on,
            join_planned(ts.take(step + 1), ts[step + 1], on),
            lefts,
            g,
        ) is Ok,
    ensures
        joined_all(
            m,
            ts,
            step,
            kind,
            on,
            join_planned(ts.take(step + 1), ts[step + 1], on),
            lefts,
            g,
        )->Ok_0.to_multiset() == joined_all(
            m,
            ts,
            step,
            kind,
            on,
            Probe::NestedLoop,
            lefts,
            g,
        )->Ok_0.to_multiset(),
    decreases lefts.len(),
{
    if lefts.len() > 0 {
        let p = join_planned(ts.take(step + 1), ts[step + 1], on);
        let less = lefts.drop_last();
        let left = lefts.last();
        assert(lefts[lefts.len() - 1].len() == width(ts, step + 1));
        assert forall|i: int| 0 <= i < less.len() implies (#[trigger] less[i]).len() == width(
            ts,
            step + 1,
        ) by {
            assert(less[i] == lefts[i]);
        }
        law_strategies_agree(m, ts, step, kind, on, less, g);
        lemma_one_row_joins(m, ts, step, kind, on, left, g);
        let a = joined_all(m, ts, step, kind, on, p, less, g)->Ok_0;
        let b = joined_one(m, ts, step, kind, on, p, left, g)->Ok_0;
        let c = joined_all(m, ts, step, kind, on, Probe::NestedLoop, less, g)->Ok_0;
        let d = joined_one(m, ts, step, kind, on, Probe::NestedLoop, left, g)->Ok_0;
        vstd::seq_lib::lemma_multiset_commutative(a, b);
        vstd::seq_lib::lemma_multiset_commutative(c, d);
    }
}

} // verus!
