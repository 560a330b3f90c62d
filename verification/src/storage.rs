//! Storage backends.
//!
//! The pager talks to a `Storage` trait, not to a file. That keeps the core
//! testable against an in-memory backend. Offsets are absolute byte offsets,
//! callers are responsible for page alignment.

use vstd::prelude::*;

use crate::bytes::{put_zeros, set_all, splice, zeros};
use crate::error::{Error, IoError, Result};

verus! {

/// `b` with `t` written at `off`, grown with zeros where it is too short.
pub open spec fn written(b: Seq<u8>, off: int, t: Seq<u8>) -> Seq<u8> {
    if off + t.len() <= b.len() {
        splice(b, off, t)
    } else {
        splice(b + zeros((off + t.len() - b.len()) as nat), off, t)
    }
}

/// The bytes of a storage, as contracts speak of them.
pub type Held = Seq<u8>;

/// A call that changes what a storage holds or what of it is durable.
#[verifier::ext_equal]
pub enum Op {
    /// Bytes written at an offset.
    Write(int, Held),
    /// Everything written so far made durable.
    Sync,
}

/// What was asked of a storage, in order.
pub type Ops = Seq<Op>;

/// Whether `d` is `a` with any part of `t` written at `off`, byte by byte.
/// Past the end of `a` anything may stand.
pub open spec fn torn(a: Held, d: Held, off: int, t: Held) -> bool {
    &&& d.len() >= a.len()
    &&& forall|i: int|
        0 <= i < a.len() ==> #[trigger] d[i] == a[i] || (off <= i < off + t.len() && d[i] == t[i
            - off])
}

/// What a storage that held `b` holds after some calls.
pub open spec fn applied(b: Held, ops: Ops) -> Held
    decreases ops.len(),
{
    if ops.len() == 0 {
        b
    } else {
        match ops.last() {
            Op::Write(off, t) => written(applied(b, ops.drop_last()), off, t),
            Op::Sync => applied(b, ops.drop_last()),
        }
    }
}

/// What a write may leave of a medium that holds what `was` says.
pub open spec fn torn_of(was: spec_fn(Held) -> bool, off: int, t: Held) -> spec_fn(Held) -> bool {
    |d: Held| exists|c: Held| #[trigger] was(c) && torn(c, d, off, t)
}

/// What a crash after some calls may leave, where a crash before them might
/// have left what `was` says and the storage held `b`. Writes reach the
/// medium in any mix of old and new bytes until a sync settles them.
pub open spec fn survivors(was: spec_fn(Held) -> bool, b: Held, ops: Ops) -> spec_fn(Held) -> bool
    decreases ops.len(),
{
    if ops.len() == 0 {
        was
    } else {
        match ops.last() {
            Op::Write(off, t) => torn_of(survivors(was, b, ops.drop_last()), off, t),
            Op::Sync => |d: Held| d == applied(b, ops.drop_last()),
        }
    }
}

/// Whether a crash after some calls may leave `d`.
pub open spec fn survives(was: spec_fn(Held) -> bool, b: Held, ops: Ops, d: Held) -> bool {
    survivors(was, b, ops)(d)
}

pub trait Storage: Send + Sync {
    /// What the storage holds.
    spec fn bytes(&self) -> Held;

    /// Whether the medium underneath never fails.
    spec fn reliable(&self) -> bool;

    /// Whether a crash right now may leave `d` on the medium.
    spec fn durable(&self, d: Held) -> bool;

    /// The writes and syncs asked of it so far, in order.
    spec fn ops(&self) -> Ops;

    /// Whether everything it holds is durable.
    open spec fn settled(&self) -> bool {
        forall|d: Held| #[trigger] self.durable(d) ==> d == self.bytes()
    }

    /// Read exactly `buf.len()` bytes at `offset`. Reading past the end of
    /// the storage is an error, short reads are never returned.
    fn read_at(&self, offset: u64, buf: &mut [u8]) -> (r: Result<()>)
        ensures
            final(buf)@.len() == old(buf)@.len(),
            r is Ok ==> offset + old(buf)@.len() <= self.bytes().len() && final(buf)@
                == self.bytes().subrange(offset as int, offset + old(buf)@.len()),
            self.reliable() && offset + old(buf)@.len() <= self.bytes().len() ==> r is Ok,
    ;

    /// Write all of `buf` at `offset`, growing the storage if needed. A
    /// write that fails may have reached any part of its own range and
    /// nothing outside it.
    fn write_at(&mut self, offset: u64, buf: &[u8]) -> (r: Result<()>)
        ensures
            final(self).reliable() == old(self).reliable(),
            r is Ok ==> final(self).bytes() == written(old(self).bytes(), offset as int, buf@),
            r is Err ==> final(self).bytes().len() >= old(self).bytes().len() && (forall|i: int|
                0 <= i < old(self).bytes().len() && !(offset <= i < offset + buf@.len())
                    ==> #[trigger] final(self).bytes()[i] == old(self).bytes()[i]),
            old(self).reliable() && offset + buf@.len() <= usize::MAX ==> r is Ok,
            final(self).ops() == old(self).ops().push(Op::Write(offset as int, buf@)),
            forall|d: Held| #[trigger]
                final(self).durable(d) ==> exists|c: Held| #[trigger]
                    old(self).durable(c) && torn(c, d, offset as int, buf@),
    ;

    /// Make everything written so far durable. Commit correctness depends
    /// on this actually reaching stable storage.
    fn sync(&mut self) -> (r: Result<()>)
        ensures
            final(self).reliable() == old(self).reliable(),
            final(self).bytes() == old(self).bytes(),
            old(self).reliable() ==> r is Ok,
            match r {
                Ok(_) => final(self).ops() == old(self).ops().push(Op::Sync) && forall|d: Held|
                    #[trigger] final(self).durable(d) ==> d == final(self).bytes(),
                Err(_) => final(self).ops() == old(self).ops() && forall|d: Held| #[trigger]
                    final(self).durable(d) ==> old(self).durable(d),
            },
    ;

    /// Current size in bytes.
    fn len(&self) -> (r: Result<u64>)
        ensures
            r matches Ok(n) ==> n == self.bytes().len(),
            self.reliable() ==> r is Ok,
    ;

    fn is_empty(&self) -> (r: Result<bool>)
        ensures
            r matches Ok(b) ==> b == (self.bytes().len() == 0),
            self.reliable() ==> r is Ok,
    {
        match self.len() {
            Ok(n) => Ok(n == 0),
            Err(e) => Err(e),
        }
    }
}

/// In-memory backend for tests and ephemeral databases.
pub struct MemStorage {
    data: Vec<u8>,
    ops: Ghost<Ops>,
}

impl MemStorage {
    pub fn new() -> (r: MemStorage)
        ensures
            r.bytes() == Seq::<u8>::empty(),
            r.reliable(),
            r.settled(),
    {
        MemStorage { data: Vec::new(), ops: Ghost(Seq::empty()) }
    }

    /// A storage that already holds `data`.
    pub fn from_bytes(data: Vec<u8>) -> (r: MemStorage)
        ensures
            r.bytes() == data@,
            r.reliable(),
            r.settled(),
    {
        MemStorage { data, ops: Ghost(Seq::empty()) }
    }

    /// Give up the storage for the bytes it holds.
    pub fn into_bytes(self) -> (r: Vec<u8>)
        ensures
            r@ == self.bytes(),
    {
        self.data
    }
}

impl Storage for MemStorage {
    closed spec fn bytes(&self) -> Seq<u8> {
        self.data@
    }

    open spec fn reliable(&self) -> bool {
        true
    }

    closed spec fn durable(&self, d: Held) -> bool {
        d == self.data@
    }

    closed spec fn ops(&self) -> Ops {
        self.ops@
    }

    fn read_at(&self, offset: u64, buf: &mut [u8]) -> (r: Result<()>) {
        let n: usize = buf.len();
        let have: usize = self.data.len();
        if offset > usize::MAX as u64 {
            return Err(Error::PageOutOfBounds(offset));
        }
        let start: usize = offset as usize;
        let end: usize = match start.checked_add(n) {
            Some(e) => e,
            None => {
                return Err(Error::PageOutOfBounds(offset));
            },
        };
        if end > have {
            return Err(Error::Io(IoError::UnexpectedEof));
        }
        let mut i: usize = 0;
        while i < n
            invariant
                i <= n == buf@.len(),
                start + n <= self.data@.len(),
                self.data@.len() <= usize::MAX,
                forall|j: int| 0 <= j < i ==> buf@[j] == self.data@[start + j],
            decreases n - i,
        {
            buf[i] = self.data[start + i];
            i = i + 1;
        }
        proof {
            assert(buf@ =~= self.data@.subrange(start as int, start + n));
        }
        Ok(())
    }

    fn write_at(&mut self, offset: u64, buf: &[u8]) -> (r: Result<()>) {
        let n: usize = buf.len();
        let ghost a = self.data@;
        proof {
            self.ops@ = self.ops@.push(Op::Write(offset as int, buf@));
            assert(old(self).durable(a));
            assert(torn(a, a, offset as int, buf@));
        }
        if offset > usize::MAX as u64 {
            return Err(Error::PageOutOfBounds(offset));
        }
        let start: usize = offset as usize;
        let end: usize = match start.checked_add(n) {
            Some(e) => e,
            None => {
                return Err(Error::PageOutOfBounds(offset));
            },
        };
        let len: usize = self.data.len();
        if end > len {
            put_zeros(&mut self.data, end - len);
        }
        set_all(self.data.as_mut_slice(), start, buf);
        proof {
            assert(torn(a, self.data@, offset as int, buf@));
        }
        Ok(())
    }

    fn sync(&mut self) -> (r: Result<()>) {
        proof {
            self.ops@ = self.ops@.push(Op::Sync);
        }
        Ok(())
    }

    fn len(&self) -> (r: Result<u64>) {
        Ok(self.data.len() as u64)
    }
}

} // verus!
