//! What a passed index check shows.

use vstd::prelude::*;

use crate::catalog::Tab;
use crate::consistency::{
    entry_of, has_index, index_kept, is_row, kept, lemma_entry_prefix, lemma_listed,
    lemma_one_row, lemma_read_all_hits, rows_kept,
};
use crate::encoding::Val;
use crate::plan::Path;
use crate::query::{bare, reached};
use crate::rows::{entry_at, law_keys_are_distinct, pk_of, range_at, row_at};
use crate::scan::has_key;
use crate::sorting::Row;
use crate::source::listing;
use crate::store::Bytes;
use crate::verify::{column_indexed, entries_for, has_item, holds_key, table_indexed};

verus! {

/// A scan of a table whose rows stand at their keys meets every row.
proof fn lemma_scan_rows(m: Bytes, t: Tab, row: Row)
    requires
        m.dom().finite(),
        rows_kept(m, t),
        is_row(m, t, row),
    ensures
        reached(m, t, Path::SeqScan) is Ok,
        bare(reached(m, t, Path::SeqScan)->Ok_0).contains(row),
{
    let raw = listing(m, range_at(t.id));
    lemma_listed(m, range_at(t.id));
    lemma_read_all_hits(m, t, raw);
    let h = reached(m, t, Path::SeqScan)->Ok_0;
    let k = row_at(t.id, pk_of(t.columns, row));
    lemma_entry_prefix(t.id, Val::Null, pk_of(t.columns, row));
    assert(has_key(raw, k));
    let i = choose|i: int| 0 <= i < raw.len() && (#[trigger] raw[i]).0 == k;
    assert(h[i].0 == k);
    law_keys_are_distinct(
        t.id,
        Val::Null,
        pk_of(t.columns, h[i].1),
        Val::Null,
        pk_of(t.columns, row),
    );
    lemma_one_row(m, t, h[i].1, row);
    assert(bare(h)[i] == row);
}

/// A table that passes the index check is in step: every row has its entry
/// in every index, with nothing beside it, and every entry has its row.
pub proof fn law_a_passed_check_means_in_step(m: Bytes, t: Tab)
    requires
        m.dom().finite(),
        rows_kept(m, t),
        table_indexed(m, t),
    ensures
        kept(m, t),
        forall|pos: int, row: Row|
            0 <= pos < t.columns.len() && #[trigger] t.columns[pos].index_id is Some && #[trigger]
                is_row(m, t, row) ==> m.contains_key(
                entry_at(t.columns[pos].index_id->0, row[pos], pk_of(t.columns, row)),
            ),
{
    let h = reached(m, t, Path::SeqScan)->Ok_0;
    let raw = listing(m, range_at(t.id));
    lemma_listed(m, range_at(t.id));
    lemma_read_all_hits(m, t, raw);
    assert forall|pos: int| #[trigger] has_index(t, pos) implies index_kept(m, t, pos) by {
        let id = t.columns[pos].index_id->0;
        let actual = listing(m, range_at(id));
        let expected = entries_for(t.columns, pos, id, h);
        lemma_listed(m, range_at(id));
        assert(column_indexed(m, t, pos, h));
        assert forall|row: Row| #[trigger] is_row(m, t, row) implies m.contains_key(
            entry_of(t, pos, row),
        ) && m[entry_of(t, pos, row)] == Seq::<u8>::empty() by {
            lemma_scan_rows(m, t, row);
            let i = choose|i: int| 0 <= i < bare(h).len() && bare(h)[i] == row;
            assert(h[i].1 == row);
            assert(expected[i].0 == entry_of(t, pos, row));
            assert(has_item(actual, expected[i]));
            let j = choose|j: int| 0 <= j < actual.len() && #[trigger] actual[j] == expected[i];
            assert(actual[j].0 == entry_of(t, pos, row));
        }
        assert forall|k: Seq<u8>| #[trigger]
            m.contains_key(k) && range_at(id).is_prefix_of(k) implies exists|row: Row| #[trigger]
            is_row(m, t, row) && k == entry_of(t, pos, row) by {
            assert(has_key(actual, k));
            let j = choose|j: int| 0 <= j < actual.len() && (#[trigger] actual[j]).0 == k;
            assert(holds_key(expected, actual[j].0));
            let i = choose|i: int| 0 <= i < expected.len() && (#[trigger] expected[i]).0 == k;
            assert(is_row(m, t, h[i].1));
            assert(k == entry_of(t, pos, h[i].1));
        }
    }
    assert forall|pos: int, row: Row|
        0 <= pos < t.columns.len() && #[trigger] t.columns[pos].index_id is Some && #[trigger] is_row(
            m,
            t,
            row,
        ) implies m.contains_key(
        entry_at(t.columns[pos].index_id->0, row[pos], pk_of(t.columns, row)),
    ) by {
        assert(has_index(t, pos));
        assert(index_kept(m, t, pos));
        assert(m.contains_key(entry_of(t, pos, row)));
    }
}

} // verus!
