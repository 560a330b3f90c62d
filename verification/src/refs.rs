//! Branch refs.
//!
//! Branch heads live in their own small tree whose root sits in the meta,
//! not in the versioned catalog. That separation is load bearing: a commit
//! must not version the pointers that point at it, or two branches would
//! each carry a stale copy of the other's head. Same reason git keeps
//! refs/ outside the object store.
//!
//! Keys use the ordinary tuple encoding:
//!
//! - `("head")` holds the current branch name
//! - `("branch", name)` holds a [`BranchRef`]
//!
//! A database starts with an empty refs tree, which reads as a single
//! implicit branch called "main" whose head is the newest commit. The tree
//! materializes on the first branch operation, so plain linear use never
//! pays for any of this.

use vstd::prelude::*;
use vstd::string::*;

use crate::bytes::{get_u64, le_bytes, put_le, u64_at};
use crate::encoding::{enc_key, encode_key, vals, Val, Value};
use crate::error::{Error, Result};
use crate::page::PageId;
use crate::strings::owned;

verus! {

/// The branch a database has before it has any other.
pub const DEFAULT_BRANCH: &'static str = "main";

/// One branch head as stored in the refs tree.
#[derive(Debug, Clone, Copy, PartialEq, Eq, Structural)]
pub struct BranchRef {
    /// Newest commit on this branch.
    pub head_id: u64,
    /// Page of that commit's record; 0 when head_id is 0 (empty history).
    pub head_page: PageId,
    /// Oldest commit id still readable on this branch. 0 means the whole
    /// history down to the root is retained. Garbage collection raises
    /// this so lookups never walk into reclaimed records.
    pub floor_id: u64,
}

impl BranchRef {
    /// The stored form.
    pub open spec fn stored(self) -> Seq<u8> {
        le_bytes(self.head_id as nat, 8) + le_bytes(self.head_page as nat, 8) + le_bytes(
            self.floor_id as nat,
            8,
        )
    }

    pub fn encode(&self) -> (r: Vec<u8>)
        ensures
            r@ == self.stored(),
            r@.len() == 24,
    {
        let mut out: Vec<u8> = Vec::new();
        put_le(&mut out, self.head_id, 8);
        put_le(&mut out, self.head_page, 8);
        put_le(&mut out, self.floor_id, 8);
        proof {
            crate::bytes::lemma_le_bytes_len(self.head_id as nat, 8);
            crate::bytes::lemma_le_bytes_len(self.head_page as nat, 8);
            crate::bytes::lemma_le_bytes_len(self.floor_id as nat, 8);
            assert(out@ =~= self.stored());
        }
        out
    }

    pub fn decode(buf: &[u8]) -> (r: Result<BranchRef>)
        ensures
            match r {
                Ok(b) => ref_of(buf@) == Some(b),
                Err(e) => ref_of(buf@) is None && e is Corrupted && e->page is None,
            },
    {
        if buf.len() != 24 {
            return Err(Error::corrupted(None, "branch ref has the wrong size"));
        }
        Ok(
            BranchRef {
                head_id: get_u64(buf, 0),
                head_page: get_u64(buf, 8),
                floor_id: get_u64(buf, 16),
            },
        )
    }
}

/// The branch head that bytes spell, if they are one.
pub open spec fn ref_of(b: Seq<u8>) -> Option<BranchRef> {
    if b.len() == 24 {
        Some(BranchRef { head_id: u64_at(b, 0), head_page: u64_at(b, 8), floor_id: u64_at(b, 16) })
    } else {
        None
    }
}

/// A branch head read back is the one that was stored.
pub proof fn law_ref_decode_inverts_encode(r: BranchRef)
    ensures
        ref_of(r.stored()) == Some(r),
{
    let b = r.stored();
    crate::bytes::lemma_field64(r.head_id);
    crate::bytes::lemma_field64(r.head_page);
    crate::bytes::lemma_field64(r.floor_id);
    crate::bytes::lemma_le_bytes_len(r.head_id as nat, 8);
    crate::bytes::lemma_le_bytes_len(r.head_page as nat, 8);
    crate::bytes::lemma_le_bytes_len(r.floor_id as nat, 8);
    assert(b.subrange(0, 8) =~= le_bytes(r.head_id as nat, 8));
    assert(b.subrange(8, 16) =~= le_bytes(r.head_page as nat, 8));
    assert(b.subrange(16, 24) =~= le_bytes(r.floor_id as nat, 8));
}

/// The key the current branch name lives at.
pub open spec fn head_at() -> Seq<u8> {
    enc_key(seq![Val::Text("head"@)])
}

/// The key a branch head lives at.
pub open spec fn branch_at(name: Seq<char>) -> Seq<u8> {
    enc_key(seq![Val::Text("branch"@), Val::Text(name)])
}

pub open spec fn branches_at() -> Seq<u8> {
    enc_key(seq![Val::Text("branch"@)])
}

pub fn head_key() -> (r: Vec<u8>)
    ensures
        r@ == head_at(),
{
    let parts: Vec<Value> = vec![Value::Text(owned("head"))];
    proof {
        assert(vals(parts@) =~= seq![Val::Text("head"@)]);
    }
    encode_key(parts.as_slice())
}

pub fn branch_key(name: &str) -> (r: Vec<u8>)
    ensures
        r@ == branch_at(name@),
{
    let parts: Vec<Value> = vec![Value::Text(owned("branch")), Value::Text(owned(name))];
    proof {
        assert(vals(parts@) =~= seq![Val::Text("branch"@), Val::Text(name@)]);
    }
    encode_key(parts.as_slice())
}

pub fn branches_prefix() -> (r: Vec<u8>)
    ensures
        r@ == branches_at(),
{
    let parts: Vec<Value> = vec![Value::Text(owned("branch"))];
    proof {
        assert(vals(parts@) =~= seq![Val::Text("branch"@)]);
    }
    encode_key(parts.as_slice())
}

/// Two branches have two keys, and neither is where the current branch is.
pub proof fn law_branch_keys_are_distinct(a: Seq<char>, b: Seq<char>)
    ensures
        branch_at(a) == branch_at(b) ==> a == b,
        branch_at(a) != head_at(),
{
    let x = seq![Val::Text("branch"@), Val::Text(a)];
    let y = seq![Val::Text("branch"@), Val::Text(b)];
    let h = seq![Val::Text("head"@)];
    if enc_key(x) == enc_key(y) {
        crate::encoding::law_encode_injective(x, y);
        assert(x[1] == y[1]);
    }
    if enc_key(x) == enc_key(h) {
        crate::encoding::law_encode_injective(x, h);
        assert(x.len() == h.len());
    }
}

pub open spec fn is_alnum(c: char) -> bool {
    ('a' <= c && c <= 'z') || ('A' <= c && c <= 'Z') || ('0' <= c && c <= '9')
}

/// What a branch may be called.
pub open spec fn name_ok(s: Seq<char>) -> bool {
    &&& 0 < s.len() <= 64
    &&& is_alnum(s[0])
    &&& forall|i: int|
        0 <= i < s.len() ==> is_alnum(#[trigger] s[i]) || s[i] == '_' || s[i] == '-'
}

pub(crate) fn alnum(c: char) -> (r: bool)
    ensures
        r == is_alnum(c),
{
    ('a' <= c && c <= 'z') || ('A' <= c && c <= 'Z') || ('0' <= c && c <= '9')
}

/// Branch names travel through queries and the refs tree; keep them boring.
pub fn validate_name(name: &str) -> (r: Result<()>)
    ensures
        r is Ok <==> name_ok(name@),
        r matches Err(e) ==> e is InvalidArgument,
{
    let n: usize = name.unicode_len();
    let mut ok: bool = n > 0 && n <= 64 && alnum(name.get_char(0));
    let mut i: usize = 0;
    while ok && i < n
        invariant
            n == name@.len(),
            i <= n,
            ok ==> 0 < n <= 64 && is_alnum(name@[0]) && forall|j: int|
                0 <= j < i ==> is_alnum(#[trigger] name@[j]) || name@[j] == '_' || name@[j] == '-',
            !ok ==> !name_ok(name@),
        decreases n - i, (if ok {
            1int
        } else {
            0int
        }),
    {
        let c: char = name.get_char(i);
        if !(alnum(c) || c == '_' || c == '-') {
            ok = false;
        } else {
            i = i + 1;
        }
    }
    if ok {
        Ok(())
    } else {
        Err(
            Error::InvalidArgument(
                "branch names are 1 to 64 ascii letters, digits, '_' or '-', starting alphanumeric",
            ),
        )
    }
}

} // verus!
