//! A write transaction while statements run in it: what it holds, and the
//! few ways statements read and change it.

use vstd::prelude::*;

use crate::cost::{lemma_reach_step, pow3, reach, Cost};
use crate::db::WriteTx;
use crate::effects::{with_data, with_schema, Next, State};
use crate::exec_error::{ExecError, Fail};
use crate::meta::Meta;
use crate::pager::{Pager, ReadPages};
use crate::refs::BranchRef;
use crate::source::Source;
use crate::storage::Storage;
use crate::store::Bytes;
use crate::tree::max_key;

verus! {

/// One transaction's execution state.
pub struct Run<'db, S: Storage> {
    pub tx: WriteTx<'db, S>,
    pub mutated: bool,
    /// What was written so far.
    pub work: Ghost<Cost>,
}

/// Where a transaction comes from: the database it began on, its branch, the
/// branch head it builds on, and the meta it began with.
pub type Origin<S> = (Pager<S>, Seq<char>, BranchRef, Meta, u32);

impl<'db, S: Storage> Run<'db, S> {
    /// What the transaction holds, own writes included.
    pub open spec fn state(&self) -> State {
        State { data: self.rows(), schema: self.schema(), touched: self.mutated }
    }

    pub closed spec fn origin(&self) -> Origin<S> {
        (
            self.tx.base(),
            self.tx.branch(),
            self.tx.parent(),
            self.tx.batch.meta(),
            self.tx.batch.size(),
        )
    }

    /// The longest key the storage accepts.
    pub closed spec fn lim(&self) -> int {
        max_key(self.tx.batch.size())
    }

    /// The file has no page left to give.
    pub closed spec fn spent(&self) -> bool {
        self.tx.full()
    }

    /// What was written so far.
    pub open spec fn cost(&self) -> Cost {
        self.work@
    }

    /// The file has not grown more than what was written explains.
    pub open spec fn paced(&self) -> bool {
        self.tx.batch.next() <= reach(self.tx.base().meta().page_count as int, self.cost())
    }

    /// A transaction in which nothing has run yet.
    pub fn new(tx: WriteTx<'db, S>) -> (r: Self)
        requires
            tx.wf(),
            tx.batch.next() <= tx.base().meta().page_count,
        ensures
            r.tx == tx,
            !r.mutated,
            r.cost() == (0nat, 0nat),
            r.ready(),
    {
        proof {
            let n = tx.base().meta().page_count as int;
            assert(pow3(0) == 1);
            assert(reach(n, (0nat, 0nat)) == 1 * n);
        }
        Run { tx, mutated: false, work: Ghost((0, 0)) }
    }

    /// The same transaction, some writes later.
    pub open spec fn after(&self, a: &Run<'db, S>) -> bool {
        &&& self.ready()
        &&& self.origin() == a.origin()
        &&& self.lim() == a.lim()
        &&& self.steady() == a.steady()
    }

    /// What all this says of the transaction itself.
    pub proof fn lemma_run(&self)
        ensures
            self.ready() == (self.tx.wf() && self.paced()),
            self.whole() == self.tx.sound(),
            self.steady() == self.tx.reliable(),
            self.rows() == self.tx.data(),
            self.schema() == self.tx.catalog(),
            self.spent() == self.tx.full(),
            self.origin() == (
                self.tx.base(),
                self.tx.branch(),
                self.tx.parent(),
                self.tx.batch.meta(),
                self.tx.batch.size(),
            ),
            self.lim() == max_key(self.tx.batch.size()),
    {
    }
}

impl<'db, S: Storage> Source for Run<'db, S> {
    closed spec fn rows(&self) -> Bytes {
        self.tx.data()
    }

    closed spec fn schema(&self) -> Bytes {
        self.tx.catalog()
    }

    closed spec fn ready(&self) -> bool {
        self.tx.wf() && self.paced()
    }

    closed spec fn whole(&self) -> bool {
        self.tx.sound()
    }

    closed spec fn steady(&self) -> bool {
        self.tx.reliable()
    }

    fn view_get(&self, key: &[u8]) -> (r: core::result::Result<Option<Vec<u8>>, ExecError>) {
        self.tx.view_get(key)
    }

    fn view_scan(&self, prefix: &[u8]) -> (r: core::result::Result<
        Vec<(Vec<u8>, Vec<u8>)>,
        ExecError,
    >) {
        self.tx.view_scan(prefix)
    }

    fn view_catalog_get(&self, key: &[u8]) -> (r: core::result::Result<
        Option<Vec<u8>>,
        ExecError,
    >) {
        self.tx.view_catalog_get(key)
    }

    fn view_catalog_scan(&self, prefix: &[u8]) -> (r: core::result::Result<
        Vec<(Vec<u8>, Vec<u8>)>,
        ExecError,
    >) {
        self.tx.view_catalog_scan(prefix)
    }
}

/// No more was written from `a` to `b` than that.
pub open spec fn within<'db, S: Storage>(a: Run<'db, S>, b: Run<'db, S>, c: Cost) -> bool {
    b.cost().0 <= a.cost().0 + c.0 && b.cost().1 <= a.cost().1 + c.1
}

/// How a step went.
pub open spec fn failure<T>(r: core::result::Result<T, ExecError>) -> Option<Fail> {
    match r {
        Ok(_) => None,
        Err(e) => Some(e.fail()),
    }
}

/// Whether a step led from `a` to `b` as it should. Storage that fails, or
/// has no page left, may end it early.
pub open spec fn ends<'db, S: Storage>(
    a: Run<'db, S>,
    b: Run<'db, S>,
    f: Option<Fail>,
    want: Next,
) -> bool {
    a.whole() ==> match f {
        None => b.whole() && want == Ok::<State, Fail>(b.state()),
        Some(x) => (x is Storage && (!a.steady() || b.spent())) || want == Err::<State, Fail>(x),
    }
}

/// A result for the data alone, inside a state.
pub open spec fn on_data(st: State, m: core::result::Result<Bytes, Fail>) -> Next {
    match m {
        Ok(b) => Ok(State { data: b, ..st }),
        Err(e) => Err(e),
    }
}

impl<'db, S: Storage> Run<'db, S> {
    /// Note that something has changed.
    pub fn mark(&mut self)
        requires
            old(self).ready(),
        ensures
            final(self).after(old(self)),
            *final(final(self).tx.batch.pager) == *final(old(self).tx.batch.pager),
            final(self).whole() == old(self).whole(),
            final(self).cost() == old(self).cost(),
            final(self).state() == (State { touched: true, ..old(self).state() }),
    {
        self.mutated = true;
    }

    pub fn put_data(&mut self, key: &[u8], value: &[u8]) -> (r: core::result::Result<(), ExecError>)
        requires
            old(self).ready(),
        ensures
            final(self).after(old(self)),
            *final(final(self).tx.batch.pager) == *final(old(self).tx.batch.pager),
            final(self).mutated == old(self).mutated,
            within(*old(self), *final(self), (1, value@.len())),
            ends(
                *old(self),
                *final(self),
                failure(r),
                on_data(
                    old(self).state(),
                    with_data(old(self).rows(), key@, value@, old(self).lim()),
                ),
            ),
    {
        let ghost before = *self;
        let done = self.tx.put(key, value);
        self.work = Ghost((before.work@.0 + 1, before.work@.1 + value@.len()));
        proof {
            lemma_reach_step(
                before.tx.base().meta().page_count as int,
                before.cost(),
                value@.len(),
                before.tx.batch.next() as int,
                self.tx.batch.next() as int,
            );
        }
        match done {
            Ok(_) => Ok(()),
            Err(e) => Err(ExecError::Storage(e)),
        }
    }

    pub fn delete_data(&mut self, key: &[u8]) -> (r: core::result::Result<(), ExecError>)
        requires
            old(self).ready(),
        ensures
            final(self).after(old(self)),
            *final(final(self).tx.batch.pager) == *final(old(self).tx.batch.pager),
            final(self).mutated == old(self).mutated,
            within(*old(self), *final(self), (1, 0)),
            ends(
                *old(self),
                *final(self),
                failure(r),
                Ok(State { data: old(self).rows().remove(key@), ..old(self).state() }),
            ),
    {
        let ghost before = *self;
        let done = self.tx.delete(key);
        self.work = Ghost((before.work@.0 + 1, before.work@.1 + 0));
        proof {
            lemma_reach_step(
                before.tx.base().meta().page_count as int,
                before.cost(),
                0,
                before.tx.batch.next() as int,
                self.tx.batch.next() as int,
            );
        }
        match done {
            Ok(_) => Ok(()),
            Err(e) => Err(ExecError::Storage(e)),
        }
    }

    pub fn put_schema(&mut self, key: &[u8], value: &[u8]) -> (r: core::result::Result<
        (),
        ExecError,
    >)
        requires
            old(self).ready(),
        ensures
            final(self).after(old(self)),
            *final(final(self).tx.batch.pager) == *final(old(self).tx.batch.pager),
            within(*old(self), *final(self), (1, value@.len())),
            ends(
                *old(self),
                *final(self),
                failure(r),
                with_schema(old(self).state(), key@, value@, old(self).lim()),
            ),
    {
        let ghost before = *self;
        let done = self.tx.catalog_put(key, value);
        self.work = Ghost((before.work@.0 + 1, before.work@.1 + value@.len()));
        proof {
            lemma_reach_step(
                before.tx.base().meta().page_count as int,
                before.cost(),
                value@.len(),
                before.tx.batch.next() as int,
                self.tx.batch.next() as int,
            );
        }
        match done {
            Ok(_) => {
                self.mutated = true;
                Ok(())
            },
            Err(e) => Err(ExecError::Storage(e)),
        }
    }

    pub fn delete_schema(&mut self, key: &[u8]) -> (r: core::result::Result<(), ExecError>)
        requires
            old(self).ready(),
        ensures
            final(self).after(old(self)),
            *final(final(self).tx.batch.pager) == *final(old(self).tx.batch.pager),
            within(*old(self), *final(self), (1, 0)),
            ends(
                *old(self),
                *final(self),
                failure(r),
                Ok(
                    State {
                        schema: old(self).schema().remove(key@),
                        touched: true,
                        ..old(self).state()
                    },
                ),
            ),
    {
        let ghost before = *self;
        let done = self.tx.catalog_delete(key);
        self.work = Ghost((before.work@.0 + 1, before.work@.1 + 0));
        proof {
            lemma_reach_step(
                before.tx.base().meta().page_count as int,
                before.cost(),
                0,
                before.tx.batch.next() as int,
                self.tx.batch.next() as int,
            );
        }
        match done {
            Ok(_) => {
                self.mutated = true;
                Ok(())
            },
            Err(e) => Err(ExecError::Storage(e)),
        }
    }
}

} // verus!
