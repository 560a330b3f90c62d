//! What the past holds: which commit a read of it answers from, and what a
//! session leaves behind.

use vstd::prelude::*;

use crate::ast::{AsOf, Get};
use crate::commit::{at_time, chain_of, Rec};
use crate::db::{retained, Db};
use crate::exec_error::{ExecError, Fail};
use crate::joining::got;
use crate::pager::ReadPages;
use crate::session::{recalled, seen_at, unseen};
use crate::sorting::Row;
use crate::statement::{Answer, Output};
use crate::storage::Storage;
use crate::store::{catalog_of, data_of, records, Bytes};
use crate::value_ops::Math;

verus! {

/// Whether an answer is what a read gives of some data under some schema.
pub open spec fn read_from(
    data: Bytes,
    schema: Bytes,
    get: Get,
    r: core::result::Result<Output, ExecError>,
    g: Math,
) -> bool {
    match (r, got(data, schema, get, g)) {
        (Ok(out), Ok(rows)) => out@ == Answer::Rows(rows),
        (Err(e), Err(x)) => e.fail() == x,
        _ => false,
    }
}

/// Whether a commit is the newest of a branch stamped at or before a time:
/// no commit of the branch with a larger id is.
pub open spec fn newest_by(h: Seq<Rec>, i: int, t: u64) -> bool {
    &&& 0 <= i < h.len()
    &&& h[i].1.unix_ts_ms <= t
    &&& forall|j: int|
        0 <= j < h.len() && (#[trigger] h[j]).1.commit_id > h[i].1.commit_id ==> h[j].1.unix_ts_ms > t
}

/// Whether every commit of a branch is stamped after a time.
pub open spec fn all_later(h: Seq<Rec>, t: u64) -> bool {
    forall|j: int| 0 <= j < h.len() ==> (#[trigger] h[j]).1.unix_ts_ms > t
}

proof fn lemma_at_time(h: Seq<Rec>, t: u64) -> (i: int)
    ensures
        match at_time(h, t) {
            Some(info) => {
                &&& 0 <= i < h.len()
                &&& h[i].1 == info
                &&& h[i].1.unix_ts_ms <= t
                &&& forall|j: int| 0 <= j < i ==> (#[trigger] h[j]).1.unix_ts_ms > t
            },
            None => all_later(h, t),
        },
    decreases h.len(),
{
    if h.len() == 0 {
        0
    } else if h[0].1.unix_ts_ms <= t {
        0
    } else {
        let rest = h.skip(1);
        let i = lemma_at_time(rest, t);
        assert(forall|j: int| 0 <= j < rest.len() ==> rest[j] == h[j + 1]);
        if at_time(h, t) is Some {
            assert forall|j: int| 0 <= j < i + 1 implies (#[trigger] h[j]).1.unix_ts_ms > t by {
                if j > 0 {
                    assert(rest[j - 1] == h[j]);
                }
            }
        } else {
            assert forall|j: int| 0 <= j < h.len() implies (#[trigger] h[j]).1.unix_ts_ms > t by {
                if j > 0 {
                    assert(rest[j - 1] == h[j]);
                }
            }
        }
        i + 1
    }
}

/// A read as of a time answers from the newest commit of the current branch
/// stamped at or before that time. Where every commit is stamped later it
/// answers from an empty database, or refuses where older commits were given
/// up.
pub proof fn law_read_as_of_a_time<S: Storage>(
    db: Db<S>,
    get: Get,
    t: u64,
    r: core::result::Result<Output, ExecError>,
    g: Math,
)
    requires
        db.sound(),
        get.as_of == Some(AsOf::Time(t)),
        recalled(db, get, r, g),
    ensures
        ({
            let h = records(db.store(), db.head());
            ||| exists|i: int| #[trigger]
                newest_by(h, i, t) && read_from(
                    data_of(db.store(), h[i].1),
                    catalog_of(db.store(), h[i].1),
                    get,
                    r,
                    g,
                )
            ||| all_later(h, t) && (h.len() == 0 || db.head().floor_id == 0) && read_from(
                Map::empty(),
                Map::empty(),
                get,
                r,
                g,
            )
            ||| all_later(h, t) && h.len() > 0 && db.head().floor_id != 0 && (r matches Err(e)
                && e.fail() is Storage)
        }),
{
    reveal(seen_at);
    reveal(unseen);
    let h = records(db.store(), db.head());
    assert(chain_of(db.store().pages(), db.head(), h));
    let i = lemma_at_time(h, t);
    if at_time(h, t) is Some {
        assert(newest_by(h, i, t)) by {
            assert forall|j: int|
                0 <= j < h.len() && (#[trigger] h[j]).1.commit_id > h[i].1.commit_id implies h[j].1.unix_ts_ms
                > t by {
                if j > i {
                    assert(h[i].1.commit_id > h[j].1.commit_id);
                }
            }
        }
    }
}

/// A read as of a commit answers from the commit of that id, wherever a
/// branch still keeps it. Before the first commit the database was empty.
pub proof fn law_read_as_of_a_commit<S: Storage>(
    db: Db<S>,
    get: Get,
    id: u64,
    r: core::result::Result<Output, ExecError>,
    g: Math,
)
    requires
        get.as_of == Some(AsOf::Commit(id)),
        recalled(db, get, r, g),
    ensures
        id == 0 ==> read_from(Map::empty(), Map::empty(), get, r, g),
        id != 0 ==> (exists|c: Rec|
            #![trigger retained(db.store(), c)]
            retained(db.store(), c) && c.1.commit_id == id && read_from(
                data_of(db.store(), c.1),
                catalog_of(db.store(), c.1),
                get,
                r,
                g,
            )) || ((r matches Err(e) && e.fail() is Storage) && forall|c: Rec| #[trigger]
            retained(db.store(), c) ==> c.1.commit_id != id),
{
    reveal(seen_at);
    reveal(unseen);
    if id != 0 && !unseen(db, get.as_of->0) {
        match r {
            Ok(out) => {
                let (data, schema) = choose|data: Bytes, schema: Bytes| #[trigger]
                    seen_at(db, get.as_of->0, data, schema) && (got(data, schema, get, g) matches Ok(
                        rows,
                    ) && out@ == Answer::Rows(rows));
                let c = choose|c: Rec| #[trigger]
                    retained(db.store(), c) && c.1.commit_id == id && data == data_of(
                        db.store(),
                        c.1,
                    ) && schema == catalog_of(db.store(), c.1);
                assert(retained(db.store(), c));
            },
            Err(e) => {
                let (data, schema) = choose|data: Bytes, schema: Bytes| #[trigger]
                    seen_at(db, get.as_of->0, data, schema) && got(data, schema, get, g) == Err::<
                        Seq<Row>,
                        Fail,
                    >(e.fail());
                let c = choose|c: Rec| #[trigger]
                    retained(db.store(), c) && c.1.commit_id == id && data == data_of(
                        db.store(),
                        c.1,
                    ) && schema == catalog_of(db.store(), c.1);
                assert(retained(db.store(), c));
            },
        }
    }
}

} // verus!
