//! A point in time to read from: an open transaction (branch head plus its
//! own writes) or a historical snapshot. Reads go through this so `get`
//! behaves identically against both, including reading the table definition
//! of that point in time; schema changes travel through history like
//! everything else.
//!
//! Scans collect eagerly: every result set passes through sorting and
//! projection anyway.

use vstd::prelude::*;

use crate::btree::answers;
use crate::catalog::{table_at, table_key, table_of, Tab, Table};
use crate::db::{lookup, Snapshot, WriteTx};
use crate::exec_error::{ExecError, Fail};
use crate::pager::ReadPages;
use crate::prefix::{prefix_successor, successor};
use crate::scan::{law_lists_is_unique, lists, Item, Scan};
use crate::storage::Storage;
use crate::store::Bytes;
use crate::strings::join3;

verus! {

/// What a list of keys and values says.
pub open spec fn items(v: Seq<(Vec<u8>, Vec<u8>)>) -> Seq<Item> {
    Seq::new(v.len(), |i: int| (v[i].0@, v[i].1@))
}

/// What a map has under a prefix, in key order.
pub open spec fn listing(m: Bytes, prefix: Seq<u8>) -> Seq<Item> {
    choose|s: Seq<Item>| lists(m, Some(prefix), successor(prefix), s)
}

/// A list of what is under a prefix is the listing.
pub proof fn lemma_listing(m: Bytes, prefix: Seq<u8>, s: Seq<Item>)
    requires
        lists(m, Some(prefix), successor(prefix), s),
    ensures
        listing(m, prefix) == s,
{
    law_lists_is_unique(m, Some(prefix), successor(prefix), s, listing(m, prefix));
}

/// A point in time.
pub trait Source {
    /// What the data tree holds.
    spec fn rows(&self) -> Bytes;

    /// What the catalog tree holds.
    spec fn schema(&self) -> Bytes;

    /// Whether the source can be asked.
    spec fn ready(&self) -> bool;

    /// Whether the trees underneath are whole.
    spec fn whole(&self) -> bool;

    /// Whether the medium underneath never fails.
    spec fn steady(&self) -> bool;

    fn view_get(&self, key: &[u8]) -> (r: core::result::Result<Option<Vec<u8>>, ExecError>)
        requires
            self.ready(),
        ensures
            match r {
                Ok(v) => self.whole() ==> answers(v, lookup(self.rows(), key@)),
                Err(e) => e.fail() is Storage && (self.whole() ==> !self.steady()),
            },
    ;

    /// Everything under a prefix, in key order.
    fn view_scan(&self, prefix: &[u8]) -> (r: core::result::Result<
        Vec<(Vec<u8>, Vec<u8>)>,
        ExecError,
    >)
        requires
            self.ready(),
        ensures
            match r {
                Ok(v) => self.whole() ==> items(v@) == listing(self.rows(), prefix@) && lists(
                    self.rows(),
                    Some(prefix@),
                    successor(prefix@),
                    items(v@),
                ),
                Err(e) => e.fail() is Storage && (self.whole() ==> !self.steady()),
            },
    ;

    fn view_catalog_get(&self, key: &[u8]) -> (r: core::result::Result<
        Option<Vec<u8>>,
        ExecError,
    >)
        requires
            self.ready(),
        ensures
            match r {
                Ok(v) => self.whole() ==> answers(v, lookup(self.schema(), key@)),
                Err(e) => e.fail() is Storage && (self.whole() ==> !self.steady()),
            },
    ;

    /// Everything in the catalog under a prefix, in key order.
    fn view_catalog_scan(&self, prefix: &[u8]) -> (r: core::result::Result<
        Vec<(Vec<u8>, Vec<u8>)>,
        ExecError,
    >)
        requires
            self.ready(),
        ensures
            match r {
                Ok(v) => self.whole() ==> items(v@) == listing(self.schema(), prefix@) && lists(
                    self.schema(),
                    Some(prefix@),
                    successor(prefix@),
                    items(v@),
                ),
                Err(e) => e.fail() is Storage && (self.whole() ==> !self.steady()),
            },
    ;
}

/// Run a cursor to its end.
pub fn collect<'a, P: ReadPages>(scan: Scan<'a, P>) -> (r: core::result::Result<
    Vec<(Vec<u8>, Vec<u8>)>,
    ExecError,
>)
    requires
        scan.wf(),
    ensures
        match r {
            Ok(v) => scan.sound() ==> items(v@) == scan.remaining(),
            Err(e) => e.fail() is Storage && (scan.sound() ==> !scan.source().reliable()),
        },
{
    let mut cursor = scan;
    let mut out: Vec<(Vec<u8>, Vec<u8>)> = Vec::new();
    proof {
        if scan.sound() {
            assert(items(out@) + cursor.remaining() =~= scan.remaining());
        }
    }
    loop
        invariant
            cursor.wf(),
            cursor.source() == scan.source(),
            scan.sound() ==> cursor.sound() && items(out@) + cursor.remaining()
                == scan.remaining(),
        decreases cursor.steps(), cursor.here_left(),
    {
        let ghost before = cursor;
        match cursor.next() {
            None => {
                proof {
                    if scan.sound() {
                        assert(items(out@) + before.remaining() =~= items(out@));
                    }
                }
                return Ok(out);
            },
            Some(Ok(kv)) => {
                let ghost had = out@;
                out.push(kv);
                proof {
                    if scan.sound() {
                        assert(items(out@) =~= items(had).push(before.remaining()[0]));
                        assert(items(out@) + cursor.remaining() =~= items(had)
                            + before.remaining());
                    }
                }
            },
            Some(Err(e)) => return Err(ExecError::Storage(e)),
        }
    }
}

impl<'db, S: Storage> Source for WriteTx<'db, S> {
    open spec fn rows(&self) -> Bytes {
        self.data()
    }

    open spec fn schema(&self) -> Bytes {
        self.catalog()
    }

    open spec fn ready(&self) -> bool {
        self.wf()
    }

    open spec fn whole(&self) -> bool {
        self.sound()
    }

    open spec fn steady(&self) -> bool {
        self.reliable()
    }

    fn view_get(&self, key: &[u8]) -> (r: core::result::Result<Option<Vec<u8>>, ExecError>) {
        match self.get(key) {
            Ok(v) => Ok(v),
            Err(e) => Err(ExecError::Storage(e)),
        }
    }

    fn view_scan(&self, prefix: &[u8]) -> (r: core::result::Result<
        Vec<(Vec<u8>, Vec<u8>)>,
        ExecError,
    >) {
        let end = prefix_successor(prefix);
        let scan = match &end {
            Some(e) => self.scan(Some(prefix), Some(e.as_slice())),
            None => self.scan(Some(prefix), None),
        };
        match scan {
            Ok(s) => {
                proof {
                    if self.sound() {
                        lemma_listing(self.data(), prefix@, s.remaining());
                    }
                }
                collect(s)
            },
            Err(e) => Err(ExecError::Storage(e)),
        }
    }

    fn view_catalog_get(&self, key: &[u8]) -> (r: core::result::Result<
        Option<Vec<u8>>,
        ExecError,
    >) {
        match self.catalog_get(key) {
            Ok(v) => Ok(v),
            Err(e) => Err(ExecError::Storage(e)),
        }
    }

    fn view_catalog_scan(&self, prefix: &[u8]) -> (r: core::result::Result<
        Vec<(Vec<u8>, Vec<u8>)>,
        ExecError,
    >) {
        let end = prefix_successor(prefix);
        let scan = match &end {
            Some(e) => self.catalog_scan(Some(prefix), Some(e.as_slice())),
            None => self.catalog_scan(Some(prefix), None),
        };
        match scan {
            Ok(s) => {
                proof {
                    if self.sound() {
                        lemma_listing(self.catalog(), prefix@, s.remaining());
                    }
                }
                collect(s)
            },
            Err(e) => Err(ExecError::Storage(e)),
        }
    }
}

impl<'db, S: Storage> Source for Snapshot<'db, S> {
    open spec fn rows(&self) -> Bytes {
        self.data()
    }

    open spec fn schema(&self) -> Bytes {
        self.catalog()
    }

    open spec fn ready(&self) -> bool {
        self.wf()
    }

    open spec fn whole(&self) -> bool {
        self.sound()
    }

    open spec fn steady(&self) -> bool {
        self.reliable()
    }

    fn view_get(&self, key: &[u8]) -> (r: core::result::Result<Option<Vec<u8>>, ExecError>) {
        match self.get(key) {
            Ok(v) => Ok(v),
            Err(e) => Err(ExecError::Storage(e)),
        }
    }

    fn view_scan(&self, prefix: &[u8]) -> (r: core::result::Result<
        Vec<(Vec<u8>, Vec<u8>)>,
        ExecError,
    >) {
        let end = prefix_successor(prefix);
        let scan = match &end {
            Some(e) => self.scan(Some(prefix), Some(e.as_slice())),
            None => self.scan(Some(prefix), None),
        };
        match scan {
            Ok(s) => {
                proof {
                    if self.sound() {
                        lemma_listing(self.data(), prefix@, s.remaining());
                    }
                }
                collect(s)
            },
            Err(e) => Err(ExecError::Storage(e)),
        }
    }

    fn view_catalog_get(&self, key: &[u8]) -> (r: core::result::Result<
        Option<Vec<u8>>,
        ExecError,
    >) {
        match self.catalog_get(key) {
            Ok(v) => Ok(v),
            Err(e) => Err(ExecError::Storage(e)),
        }
    }

    fn view_catalog_scan(&self, prefix: &[u8]) -> (r: core::result::Result<
        Vec<(Vec<u8>, Vec<u8>)>,
        ExecError,
    >) {
        let end = prefix_successor(prefix);
        let scan = match &end {
            Some(e) => self.catalog_scan(Some(prefix), Some(e.as_slice())),
            None => self.catalog_scan(Some(prefix), None),
        };
        match scan {
            Ok(s) => {
                proof {
                    if self.sound() {
                        lemma_listing(self.catalog(), prefix@, s.remaining());
                    }
                }
                collect(s)
            },
            Err(e) => Err(ExecError::Storage(e)),
        }
    }
}

/// The definition of a table, where there is a sound one.
pub open spec fn table_in(schema: Bytes, name: Seq<char>) -> core::result::Result<Tab, Fail> {
    match lookup(schema, table_at(name)) {
        Some(b) => match table_of(b) {
            Some(t) => Ok(t),
            None => Err(Fail::Exec),
        },
        None => Err(Fail::Plan),
    }
}

/// Load the definition of a table.
pub fn load_table_from<V: Source>(view: &V, name: &str) -> (r: core::result::Result<
    Table,
    ExecError,
>)
    requires
        view.ready(),
    ensures
        view.whole() ==> match r {
            Ok(t) => table_in(view.schema(), name@) == Ok::<Tab, Fail>(t@),
            Err(e) => (e.fail() is Storage && !view.steady()) || (table_in(view.schema(), name@)
                == Err::<Tab, Fail>(e.fail()) && (!view.schema().contains_key(table_at(name@))
                ==> e.text() == "no table named '"@ + name@ + "'"@)),
        },
{
    match view.view_catalog_get(table_key(name).as_slice()) {
        Ok(Some(bytes)) => Table::deserialize(bytes.as_slice()),
        Ok(None) => Err(ExecError::Plan(join3("no table named '", name, "'"))),
        Err(e) => Err(e),
    }
}

} // verus!
