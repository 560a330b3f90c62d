//! The key-value database API on top of the pager and the B-tree.
//!
//! This is the surface queries run on: a transactional, snapshot-capable
//! ordered map with git-shaped history. Commits form a DAG, branches are
//! named pointers into it, any retained commit can be read as a snapshot,
//! and garbage collection reclaims whatever falls out of retention.

use std::collections::HashSet;

use vstd::prelude::*;
use vstd::string::*;
use vstd::utf8::{decode_utf8, encode_utf8};

use crate::btree::{
    self, answers, editable, edited, extends, finds_set, fresh, lemma_extends_self,
    lemma_extends_trans,
};
use crate::commit::{
    self, above_floor, at_time, chain_of, commit_of, lemma_chain_grow, lemma_chain_unique,
    CommitInfo, Rec,
};
use crate::encoding::{decode_key, enc_key, vals, Val, Value};
use crate::error::{Error, Result};
use crate::mark::{closed_set, collect_pages};
use crate::order::lex_lt;
use crate::page::{PageId, MAX_PAGES, NIL_PAGE};
use crate::pager::{written_in, Pager, PagerOptions, ReadPages, WriteBatch};
use crate::prefix::{law_successor_covers_prefix, prefix_successor, successor};
use crate::refs::{
    self, branch_at, branches_at, head_at, name_ok, ref_of, BranchRef, DEFAULT_BRANCH,
};
use crate::scan::{lists, slice_opt, Scan};
use crate::storage::{MemStorage, Storage};
use crate::store::{
    all_kept, branch_of, branch_ok, catalog_of, data_of, implicit, is_branch_key, kept,
    lemma_left_alone_store, lemma_past_kept, lemma_readable_kept, lemma_ref_set, lemma_same_store,
    lemma_steady_commit, lemma_steady_extends, lemma_steady_tree, lemma_tree_commit, past_kept,
    readable, record_ok, records, ref_in, refs_map, refs_sane, same_past, same_store, steady,
    store_ok, uses, Bytes,
};
use crate::strings::{owned, same_text, text_bytes, text_from_utf8};
use crate::tree::{contents, ohas, sound_root, tree_at, tree_of, Pages};

verus! {

// ---------------------------------------------------------------------
// trees as maps
// ---------------------------------------------------------------------

/// What a map has for a key.
pub open spec fn lookup(m: Bytes, k: Seq<u8>) -> Option<Seq<u8>> {
    if m.contains_key(k) {
        Some(m[k])
    } else {
        None
    }
}

/// A write is read back, and no other key reads differently.
pub proof fn law_put_is_read_back(m: Bytes, k: Seq<u8>, v: Seq<u8>)
    ensures
        lookup(m.insert(k, v), k) == Some(v),
        forall|j: Seq<u8>| j != k ==> #[trigger] lookup(m.insert(k, v), j) == lookup(m, j),
{
}

/// A removed key is gone, and no other key reads differently.
pub proof fn law_removed_is_gone(m: Bytes, k: Seq<u8>)
    ensures
        lookup(m.remove(k), k) is None,
        forall|j: Seq<u8>| j != k ==> #[trigger] lookup(m.remove(k), j) == lookup(m, j),
{
}

/// Point read under a root.
pub(crate) fn read_at<P: ReadPages>(src: &P, root: PageId, key: &[u8]) -> (r: Result<
    Option<Vec<u8>>,
>)
    requires
        src.wf(),
    ensures
        sound_root(src.pages(), src.size(), root) ==> match r {
            Ok(v) => answers(v, lookup(contents(src.pages(), src.size(), root), key@)),
            Err(_) => !src.reliable(),
        },
{
    let r = btree::get(src, root, key);
    proof {
        if sound_root(src.pages(), src.size(), root) && root != NIL_PAGE {
            assert(tree_at(src.pages(), src.size(), root, tree_of(src.pages(), src.size(), root)->0));
        }
    }
    r
}

/// Range read under a root.
pub(crate) fn scan_at<'a, P: ReadPages>(
    src: &'a P,
    root: PageId,
    start: Option<&[u8]>,
    end: Option<&[u8]>,
) -> (r: Result<Scan<'a, P>>)
    requires
        src.wf(),
    ensures
        r matches Ok(s) ==> s.wf() && s.source() == src && !s.has_failed(),
        sound_root(src.pages(), src.size(), root) ==> match r {
            Ok(s) => s.sound() && lists(
                contents(src.pages(), src.size(), root),
                slice_opt(start),
                slice_opt(end),
                s.remaining(),
            ),
            Err(_) => !src.reliable(),
        },
{
    let r = Scan::new(src, root, start, end);
    proof {
        if sound_root(src.pages(), src.size(), root) {
            if root != NIL_PAGE {
                assert(tree_at(
                    src.pages(),
                    src.size(),
                    root,
                    tree_of(src.pages(), src.size(), root)->0,
                ));
            }
        }
    }
    r
}

// ---------------------------------------------------------------------
// refs
// ---------------------------------------------------------------------

/// A key starting like a branch key is one, and the other way round.
proof fn lemma_branch_keys(m: Bytes, k: Seq<u8>)
    requires
        refs_sane(m),
        m.contains_key(k),
    ensures
        crate::tree::in_range(k, Some(branches_at()), successor(branches_at())) <==> is_branch_key(k),
        is_branch_key(k) ==> ref_of(m[k]) is Some,
{
    let b = branches_at();
    law_successor_covers_prefix(b, k);
    if is_branch_key(k) {
        let name = choose|name: Seq<char>| k == #[trigger] branch_at(name);
        lemma_branch_prefix(name);
        refs::law_branch_keys_are_distinct(name, name);
    } else {
        lemma_head_prefix();
    }
}

proof fn lemma_branch_prefix(name: Seq<char>)
    ensures
        branches_at().is_prefix_of(branch_at(name)),
{
    let a = seq![Val::Text("branch"@)];
    let b = seq![Val::Text(name)];
    crate::encoding::law_tuple_prefix(a, b);
    assert(a + b =~= seq![Val::Text("branch"@), Val::Text(name)]);
}

/// The first byte of a text that starts with an ascii letter.
proof fn lemma_text_first(s: Seq<char>, c: u8)
    requires
        s.len() > 0,
        s[0] as u32 == c as u32,
        1 <= c < 128,
    ensures
        crate::encoding::enc(Val::Text(s)).len() >= 2,
        crate::encoding::enc(Val::Text(s))[1] == c,
{
    let u = encode_utf8(s);
    vstd::utf8::encode_utf8_first_scalar(s);
    assert(vstd::utf8::encode_scalar(s[0] as u32) == seq![c]) by {
        let x = s[0] as u32;
        assert((x & 0x7F) as u8 == c) by (bit_vector)
            requires
                x == c as u32,
                c < 128,
        ;
    }
    assert(u == vstd::utf8::encode_scalar(s[0] as u32) + encode_utf8(s.drop_first()));
    assert(u[0] == c);
    assert(crate::encoding::escaped(u)[0] == c);
}

proof fn lemma_head_prefix()
    ensures
        !branches_at().is_prefix_of(head_at()),
{
    reveal_strlit("head");
    reveal_strlit("branch");
    let h = Val::Text("head"@);
    let b = Val::Text("branch"@);
    lemma_text_first("head"@, 104u8);
    lemma_text_first("branch"@, 98u8);
    assert(seq![h].skip(1) =~= Seq::empty());
    assert(seq![b].skip(1) =~= Seq::empty());
    assert(enc_key(Seq::<Val>::empty()) =~= Seq::empty());
    assert(head_at() =~= crate::encoding::enc(h));
    assert(branches_at() =~= crate::encoding::enc(b));
    if branches_at().is_prefix_of(head_at()) {
        assert(head_at().subrange(0, branches_at().len() as int)[1] == branches_at()[1]);
    }
}

/// A list of all branches, in key order.
pub open spec fn lists_branches<S: Storage>(p: Pager<S>, v: Seq<(String, BranchRef)>) -> bool {
    &&& forall|i: int| 0 <= i < v.len() ==> branch_of(p, (#[trigger] v[i]).0@) == Some(v[i].1)
    &&& forall|i: int, j: int|
        0 <= i < j < v.len() ==> lex_lt(
            branch_at((#[trigger] v[i]).0@),
            branch_at((#[trigger] v[j]).0@),
        )
    &&& forall|name: Seq<char>|
        (#[trigger] branch_of(p, name)) is Some ==> exists|i: int|
            0 <= i < v.len() && (#[trigger] v[i]).0@ == name
}

/// The name that a branch key ends in.
fn name_of(key: &[u8]) -> (r: Result<String>)
    ensures
        forall|name: Seq<char>| key@ == #[trigger] branch_at(name) ==> (r matches Ok(s) && s@ == name),
{
    let mut parts = match decode_key(key) {
        Ok(v) => v,
        Err(e) => {
            proof {
                assert forall|name: Seq<char>| key@ == #[trigger] branch_at(name) implies false by {
                    crate::encoding::law_decode_inverts_encode(
                        seq![Val::Text("branch"@), Val::Text(name)],
                    );
                }
            }
            return Err(e);
        },
    };
    let ghost vs = vals(parts@);
    let last = parts.pop();
    proof {
        assert forall|name: Seq<char>| key@ == #[trigger] branch_at(name) implies (last matches Some(
            Value::Text(s),
        ) && s@ == name) by {
            let t = seq![Val::Text("branch"@), Val::Text(name)];
            crate::encoding::law_decode_inverts_encode(t);
            assert(vs == t);
            assert(vs[1] == Val::Text(name));
        }
    }
    match last {
        Some(Value::Text(name)) => Ok(name),
        _ => Err(Error::corrupted(None, "branch key does not end in a name")),
    }
}

fn implicit_ref<S: Storage>(pager: &Pager<S>) -> (r: BranchRef)
    ensures
        r == implicit(*pager),
{
    let meta = pager.committed_meta();
    BranchRef { head_id: meta.txid, head_page: meta.commit_page, floor_id: 0 }
}

/// All branches with their heads, sorted by name.
#[verifier::spinoff_prover]
#[verifier::rlimit(60)]
fn read_branches<S: Storage>(pager: &Pager<S>) -> (r: Result<Vec<(String, BranchRef)>>)
    requires
        pager.wf(),
    ensures
        store_ok(*pager) ==> match r {
            Ok(v) => lists_branches(*pager, v@),
            Err(_) => !pager.reliable(),
        },
{
    let meta = pager.committed_meta();
    if meta.refs_root == NIL_PAGE {
        let mut out: Vec<(String, BranchRef)> = Vec::new();
        out.push((owned(DEFAULT_BRANCH), implicit_ref(pager)));
        proof {
            assert(out@[0].0@ == "main"@);
            assert forall|name: Seq<char>| (#[trigger] branch_of(*pager, name)) is Some implies exists|
                i: int,
            |
                0 <= i < out@.len() && (#[trigger] out@[i]).0@ == name by {
                assert(out@[0].0@ == name);
            }
        }
        return Ok(out);
    }
    let prefix = refs::branches_prefix();
    let end = prefix_successor(prefix.as_slice());
    let stop: Option<&[u8]> = match &end {
        Some(e) => Some(e.as_slice()),
        None => None,
    };
    let ghost m = refs_map(*pager);
    let ghost good = store_ok(*pager);
    let mut scan = match scan_at(pager, meta.refs_root, Some(prefix.as_slice()), stop) {
        Ok(s) => s,
        Err(e) => {
            return Err(e);
        },
    };
    let ghost all = scan.remaining();
    let mut out: Vec<(String, BranchRef)> = Vec::new();
    proof {
        assert(slice_opt(stop) == successor(branches_at()));
        if good {
            assert(all.skip(0) =~= all);
        }
    }
    loop
        invariant
            pager.wf(),
            scan.wf(),
            scan.source() == pager,
            good == store_ok(*pager),
            m == refs_map(*pager),
            meta == pager.meta(),
            meta.refs_root != NIL_PAGE,
            good ==> {
                &&& scan.sound()
                &&& lists(m, Some(branches_at()), successor(branches_at()), all)
                &&& out@.len() <= all.len()
                &&& scan.remaining() == all.skip(out@.len() as int)
                &&& forall|i: int|
                    0 <= i < out@.len() ==> branch_at((#[trigger] out@[i]).0@) == all[i].0 && branch_of(
                        *pager,
                        out@[i].0@,
                    ) == Some(out@[i].1)
            },
        decreases scan.steps(), scan.here_left(),
    {
        let ghost n = out@.len() as int;
        match scan.next() {
            None => {
                proof {
                    if good {
                        assert(all.skip(n).len() == 0);
                        assert forall|i: int, j: int| 0 <= i < j < out@.len() implies lex_lt(
                            branch_at((#[trigger] out@[i]).0@),
                            branch_at((#[trigger] out@[j]).0@),
                        ) by {
                            assert(lex_lt(
                                crate::scan::item_keys(all)[i],
                                crate::scan::item_keys(all)[j],
                            ));
                        }
                        assert forall|name: Seq<char>|
                            (#[trigger] branch_of(*pager, name)) is Some implies exists|i: int|
                            0 <= i < out@.len() && (#[trigger] out@[i]).0@ == name by {
                            let k = branch_at(name);
                            assert(m.contains_key(k));
                            lemma_branch_keys(m, k);
                            assert(crate::scan::has_key(all, k));
                            let i = choose|i: int| 0 <= i < all.len() && (#[trigger] all[i]).0 == k;
                            refs::law_branch_keys_are_distinct(out@[i].0@, name);
                            assert(out@[i].0@ == name);
                        }
                    }
                }
                return Ok(out);
            },
            Some(Err(e)) => {
                return Err(e);
            },
            Some(Ok((key, value))) => {
                proof {
                    if good {
                        assert(all.skip(n)[0] == all[n]);
                        assert(all.skip(n).skip(1) =~= all.skip(n + 1));
                        lemma_branch_keys(m, key@);
                        let name = choose|name: Seq<char>| key@ == #[trigger] branch_at(name);
                        assert(key@ == branch_at(name));
                    }
                }
                let name = match name_of(key.as_slice()) {
                    Ok(s) => s,
                    Err(e) => {
                        return Err(e);
                    },
                };
                let branch = match BranchRef::decode(value.as_slice()) {
                    Ok(b) => b,
                    Err(e) => {
                        return Err(e);
                    },
                };
                out.push((name, branch));
            },
        }
    }
}

/// The head of a branch.
fn branch_head<S: Storage>(pager: &Pager<S>, name: &str) -> (r: Result<BranchRef>)
    requires
        pager.wf(),
    ensures
        store_ok(*pager) ==> match r {
            Ok(b) => branch_of(*pager, name@) == Some(b),
            Err(e) => !pager.reliable() || (branch_of(*pager, name@) is None && e is InvalidArgument),
        },
{
    let refs_root: PageId = pager.committed_meta().refs_root;
    if refs_root == NIL_PAGE {
        if same_text(name, DEFAULT_BRANCH) {
            return Ok(implicit_ref(pager));
        }
        return Err(Error::InvalidArgument("no branch with this name"));
    }
    let key = refs::branch_key(name);
    let found = match read_at(pager, refs_root, key.as_slice()) {
        Ok(f) => f,
        Err(e) => {
            return Err(e);
        },
    };
    match found {
        Some(bytes) => {
            let r = BranchRef::decode(bytes.as_slice());
            proof {
                if store_ok(*pager) {
                    let m = refs_map(*pager);
                    assert(m.contains_key(branch_at(name@)));
                    refs::law_branch_keys_are_distinct(name@, name@);
                    assert(ref_of(m[branch_at(name@)]) is Some);
                }
            }
            r
        },
        None => Err(Error::InvalidArgument("no branch with this name")),
    }
}

/// The name of the current branch as the file has it.
fn read_head_name<S: Storage>(pager: &Pager<S>) -> (r: Result<Option<String>>)
    requires
        pager.wf(),
    ensures
        store_ok(*pager) ==> match r {
            Ok(Some(s)) => pager.meta().refs_root != NIL_PAGE && s@ == decode_utf8(
                refs_map(*pager)[head_at()],
            ),
            Ok(None) => pager.meta().refs_root == NIL_PAGE,
            Err(_) => !pager.reliable(),
        },
{
    let refs_root: PageId = pager.committed_meta().refs_root;
    if refs_root == NIL_PAGE {
        return Ok(None);
    }
    let key = refs::head_key();
    let found = match read_at(pager, refs_root, key.as_slice()) {
        Ok(f) => f,
        Err(e) => {
            return Err(e);
        },
    };
    match found {
        Some(bytes) => match text_from_utf8(bytes) {
            Some(s) => Ok(Some(s)),
            None => Err(Error::corrupted(None, "head ref is not a valid branch name")),
        },
        None => Ok(None),
    }
}

/// A commit found by its id: its record, the page of that, and the floor of
/// the branch it was found on.
struct FoundCommit {
    info: CommitInfo,
    page: PageId,
    floor: u64,
}

/// Whether some branch retains a record.
pub open spec fn retained<S: Storage>(p: Pager<S>, c: Rec) -> bool {
    exists|name: Seq<char>, i: int| #[trigger] retained_at(p, name, i, c)
}

pub open spec fn retained_at<S: Storage>(p: Pager<S>, name: Seq<char>, i: int, c: Rec) -> bool {
    branch_of(p, name) matches Some(r) && 0 <= i < records(p, r).len() && records(p, r)[i] == c
}

/// Whether some branch retains the commit with this id.
pub open spec fn retains_id<S: Storage>(p: Pager<S>, id: u64) -> bool {
    exists|c: Rec| #[trigger] retained(p, c) && c.1.commit_id == id
}

/// A listed branch has its history.
proof fn lemma_listed_chain<S: Storage>(p: Pager<S>, v: Seq<(String, BranchRef)>, n: int)
    requires
        store_ok(p),
        lists_branches(p, v),
        0 <= n < v.len(),
    ensures
        branch_of(p, v[n].0@) == Some(v[n].1),
        chain_of(p.pages(), v[n].1, records(p, v[n].1)),
{
    assert(branch_of(p, v[n].0@) == Some(v[n].1));
    assert(branch_ok(p, v[n].1));
}

/// Locate a commit record by id across all branches.
#[verifier::spinoff_prover]
#[verifier::rlimit(90)]
fn find_commit<S: Storage>(pager: &Pager<S>, commit_id: u64) -> (r: Result<FoundCommit>)
    requires
        pager.wf(),
    ensures
        store_ok(*pager) ==> match r {
            Ok(f) => f.info.commit_id == commit_id && exists|name: Seq<char>, i: int|
                #[trigger] retained_at(*pager, name, i, (f.page, f.info)) && branch_of(
                    *pager,
                    name,
                )->0.floor_id == f.floor,
            Err(e) => !pager.reliable() || (e is InvalidArgument && !retains_id(*pager, commit_id)),
        },
{
    let branches = match read_branches(pager) {
        Ok(b) => b,
        Err(e) => {
            return Err(e);
        },
    };
    let ghost good = store_ok(*pager);
    let mut n: usize = 0;
    while n < branches.len()
        invariant
            pager.wf(),
            n <= branches@.len(),
            good == store_ok(*pager),
            good ==> lists_branches(*pager, branches@),
            good ==> forall|k: int, i: int|
                0 <= k < n && 0 <= i < records(*pager, (#[trigger] branches@[k]).1).len() ==> (
                #[trigger] records(*pager, branches@[k].1)[i]).1.commit_id != commit_id,
        decreases branches@.len() - n,
    {
        let branch: BranchRef = branches[n].1;
        proof {
            if good {
                lemma_listed_chain(*pager, branches@, n as int);
            }
        }
        match commit::find(pager, &branch, commit_id) {
            Err(e) => {
                return Err(e);
            },
            Ok(Some((page, info))) => {
                proof {
                    if good {
                        let h = records(*pager, branch);
                        let i = choose|i: int| 0 <= i < h.len() && #[trigger] h[i] == (page, info);
                        assert(retained_at(*pager, branches@[n as int].0@, i, (page, info)));
                    }
                }
                return Ok(FoundCommit { info, page, floor: branch.floor_id });
            },
            Ok(None) => {},
        }
        n = n + 1;
    }
    proof {
        if good && retains_id(*pager, commit_id) {
            let c = choose|c: Rec| #[trigger] retained(*pager, c) && c.1.commit_id == commit_id;
            let (name, i) = choose|name: Seq<char>, i: int| #[trigger] retained_at(*pager, name, i, c);
            let k = choose|k: int| 0 <= k < branches@.len() && (#[trigger] branches@[k]).0@ == name;
            assert(branch_of(*pager, branches@[k].0@) == Some(branches@[k].1));
            assert(records(*pager, branches@[k].1)[i].1.commit_id != commit_id);
        }
    }
    Err(Error::InvalidArgument("no such commit id (it may have been garbage collected)"))
}

// ---------------------------------------------------------------------
// snapshots
// ---------------------------------------------------------------------

/// A read-only view of one commit. Cheap to create, never blocks writers,
/// stays valid for the lifetime of the `Db` borrow.
pub struct Snapshot<'db, S: Storage> {
    pager: &'db Pager<S>,
    root: PageId,
    catalog_root: PageId,
    commit_id: u64,
}

impl<'db, S: Storage> Snapshot<'db, S> {
    pub closed spec fn wf(&self) -> bool {
        self.pager.wf()
    }

    /// Whether both trees under the snapshot are whole.
    pub closed spec fn sound(&self) -> bool {
        &&& self.pager.wf()
        &&& sound_root(self.pager.pages(), self.pager.size(), self.root)
        &&& sound_root(self.pager.pages(), self.pager.size(), self.catalog_root)
    }

    pub closed spec fn reliable(&self) -> bool {
        self.pager.reliable()
    }

    pub closed spec fn id(&self) -> u64 {
        self.commit_id
    }

    /// What the data tree holds.
    pub closed spec fn data(&self) -> Bytes {
        contents(self.pager.pages(), self.pager.size(), self.root)
    }

    /// What the catalog tree holds.
    pub closed spec fn catalog(&self) -> Bytes {
        contents(self.pager.pages(), self.pager.size(), self.catalog_root)
    }

    /// What scans of this snapshot walk over.
    pub closed spec fn store(&self) -> &'db Pager<S> {
        self.pager
    }

    pub fn commit_id(&self) -> (r: u64)
        ensures
            r == self.id(),
    {
        self.commit_id
    }

    pub fn get(&self, key: &[u8]) -> (r: Result<Option<Vec<u8>>>)
        requires
            self.wf(),
        ensures
            self.sound() ==> match r {
                Ok(v) => answers(v, lookup(self.data(), key@)),
                Err(_) => !self.reliable(),
            },
    {
        read_at(self.pager, self.root, key)
    }

    /// Iterate `[start, end)` in key order; `None` means unbounded.
    pub fn scan(&self, start: Option<&[u8]>, end: Option<&[u8]>) -> (r: Result<Scan<'db, Pager<S>>>)
        requires
            self.wf(),
        ensures
            r matches Ok(s) ==> s.wf() && s.source().reliable() == self.reliable(),
            self.sound() ==> match r {
                Ok(s) => s.sound() && lists(
                    self.data(),
                    slice_opt(start),
                    slice_opt(end),
                    s.remaining(),
                ),
                Err(_) => !self.reliable(),
            },
    {
        scan_at(self.pager, self.root, start, end)
    }

    /// Point read in the catalog tree.
    pub fn catalog_get(&self, key: &[u8]) -> (r: Result<Option<Vec<u8>>>)
        requires
            self.wf(),
        ensures
            self.sound() ==> match r {
                Ok(v) => answers(v, lookup(self.catalog(), key@)),
                Err(_) => !self.reliable(),
            },
    {
        read_at(self.pager, self.catalog_root, key)
    }

    /// Range scan over the catalog tree, same bounds semantics as `scan`.
    pub fn catalog_scan(&self, start: Option<&[u8]>, end: Option<&[u8]>) -> (r: Result<
        Scan<'db, Pager<S>>,
    >)
        requires
            self.wf(),
        ensures
            r matches Ok(s) ==> s.wf() && s.source().reliable() == self.reliable(),
            self.sound() ==> match r {
                Ok(s) => s.sound() && lists(
                    self.catalog(),
                    slice_opt(start),
                    slice_opt(end),
                    s.remaining(),
                ),
                Err(_) => !self.reliable(),
            },
    {
        scan_at(self.pager, self.catalog_root, start, end)
    }
}

// ---------------------------------------------------------------------
// the database
// ---------------------------------------------------------------------

pub struct Db<S: Storage> {
    pager: Pager<S>,
    /// Name of the branch new transactions commit to. Kept here, the
    /// durable copy lives under the "head" key in the refs tree.
    current: String,
}

/// What a garbage collection run did.
#[derive(Debug, Clone, Copy, PartialEq, Eq, Structural)]
pub struct GcReport {
    /// Commits that fell out of retention this run.
    pub pruned_commits: u64,
    /// Pages returned to the free list.
    pub freed_pages: u64,
    /// Total pages in the file. Collection does not shrink the file; freed
    /// pages get reused by later commits, which is what stops it growing.
    pub page_count: u64,
}

/// Diagnostic counters.
#[derive(Debug, Clone, Copy, PartialEq, Eq, Structural)]
pub struct DbStats {
    pub page_count: u64,
    /// Pages reachable from the current branch head (data and catalog trees
    /// plus the head's commit record).
    pub head_pages: u64,
    /// Pages currently listed in the free list.
    pub free_pages: u64,
}

/// What a branch head's data tree holds.
pub open spec fn head_data<S: Storage>(p: Pager<S>, r: BranchRef) -> Bytes {
    if r.head_id == 0 {
        Map::empty()
    } else {
        data_of(p, records(p, r)[0].1)
    }
}

/// What a branch head's catalog tree holds.
pub open spec fn head_catalog<S: Storage>(p: Pager<S>, r: BranchRef) -> Bytes {
    if r.head_id == 0 {
        Map::empty()
    } else {
        catalog_of(p, records(p, r)[0].1)
    }
}

impl<S: Storage> Db<S> {
    /// The pages underneath.
    pub closed spec fn store(&self) -> Pager<S> {
        self.pager
    }

    /// The current branch.
    pub closed spec fn on(&self) -> Seq<char> {
        self.current@
    }

    pub open spec fn wf(&self) -> bool {
        self.store().wf()
    }

    /// A sound database, on a branch that exists.
    pub open spec fn sound(&self) -> bool {
        &&& store_ok(self.store())
        &&& branch_of(self.store(), self.on()) is Some
        &&& self.store().meta().refs_root != NIL_PAGE ==> self.on() == decode_utf8(
            refs_map(self.store())[head_at()],
        )
    }

    pub open spec fn reliable(&self) -> bool {
        self.store().reliable()
    }

    /// The head of the current branch.
    pub open spec fn head(&self) -> BranchRef {
        branch_of(self.store(), self.on())->0
    }

    pub open spec fn branch(&self, name: Seq<char>) -> Option<BranchRef> {
        branch_of(self.store(), name)
    }

    /// What readers of the current branch see.
    pub open spec fn data(&self) -> Bytes {
        head_data(self.store(), self.head())
    }

    pub open spec fn catalog(&self) -> Bytes {
        head_catalog(self.store(), self.head())
    }

    /// A new database: empty, one branch, no commits.
    pub fn create(storage: S, options: PagerOptions) -> (r: Result<Self>)
        ensures
            match r {
                Ok(db) => {
                    &&& db.wf()
                    &&& db.sound()
                    &&& db.reliable() == storage.reliable()
                    &&& db.on() == "main"@
                    &&& db.head() == (BranchRef { head_id: 0, head_page: 0, floor_id: 0 })
                    &&& db.store().meta().refs_root == NIL_PAGE
                    &&& crate::page::page_size_ok(options.page_size)
                    &&& storage.bytes().len() == 0
                    &&& db.store().settled()
                    &&& db.store().anchored()
                },
                Err(Error::InvalidArgument(_)) => !crate::page::page_size_ok(options.page_size)
                    || storage.bytes().len() > 0 || !storage.reliable(),
                Err(_) => !storage.reliable(),
            },
    {
        match Pager::create(storage, options) {
            Ok(pager) => {
                let db = Db { pager, current: owned(DEFAULT_BRANCH) };
                proof {
                    lemma_fresh(db.pager);
                }
                Ok(db)
            },
            Err(e) => Err(e),
        }
    }

    /// Open an existing database.
    pub fn open(storage: S, options: PagerOptions) -> (r: Result<Self>)
        ensures
            r matches Ok(db) ==> {
                &&& db.wf()
                &&& db.store().bytes() == storage.bytes()
                &&& db.reliable() == storage.reliable()
                &&& storage.reliable() ==> crate::meta::newest(storage.bytes(), 16) == Some(
                    db.store().meta(),
                )
                &&& store_ok(db.store()) ==> db.sound()
            },
            r is Err && storage.reliable() ==> match crate::meta::newest(storage.bytes(), 16) {
                None => true,
                Some(m) => forall|p: Pager<S>|
                    #![trigger store_ok(p)]
                    p.bytes() == storage.bytes() && p.meta() == m ==> !store_ok(p),
            },
    {
        let pager = match Pager::open(storage, options) {
            Ok(p) => p,
            Err(e) => {
                return Err(e);
            },
        };
        match read_head_name(&pager) {
            Ok(Some(current)) => {
                proof {
                    if store_ok(pager) {
                        crate::store::lemma_refs_seen(pager);
                    }
                }
                Ok(Db { pager, current })
            },
            Ok(None) => Ok(Db { pager, current: owned(DEFAULT_BRANCH) }),
            Err(e) => {
                proof {
                    assert forall|p: Pager<S>|
                        #![trigger store_ok(p)]
                        p.bytes() == storage.bytes() && p.meta() == pager.meta() && storage.reliable() implies !store_ok(
                        p,
                    ) by {
                        if store_ok(p) {
                            law_store_is_what_its_bytes_say(p, pager);
                        }
                    }
                }
                Err(e)
            },
        }
    }

    /// Give up the database for its storage.
    pub fn into_storage(self) -> (r: S)
        ensures
            r.bytes() == self.store().bytes(),
            r.reliable() == self.reliable(),
    {
        self.pager.into_storage()
    }
}

proof fn lemma_fresh<S: Storage>(p: Pager<S>)
    requires
        p.wf(),
        p.free_ok(),
        p.meta().txid == 0,
        p.meta().refs_root == NIL_PAGE,
        p.meta().commit_page == NIL_PAGE,
        p.meta().data_root == NIL_PAGE,
        p.meta().catalog_root == NIL_PAGE,
    ensures
        store_ok(p),
        branch_of(p, "main"@) == Some(BranchRef { head_id: 0, head_page: 0, floor_id: 0 }),
{
    let h: Seq<Rec> = Seq::empty();
    let r = implicit(p);
    assert(chain_of(p.pages(), r, h));
    lemma_chain_unique(p.pages(), r, h);
    assert(branch_ok(p, r));
}

/// What a database is depends on nothing but the bytes of its file and the
/// meta they recover to: reopening loses nothing.
pub proof fn law_store_is_what_its_bytes_say<S: Storage>(p: Pager<S>, q: Pager<S>)
    requires
        store_ok(p),
        q.wf(),
        p.bytes() == q.bytes(),
        p.meta() == q.meta(),
    ensures
        store_ok(q),
        forall|name: Seq<char>| #[trigger] branch_of(q, name) == branch_of(p, name),
        past_kept(p, q),
{
    p.lemma_pages(&q);
    assert forall|x: PageId| #[trigger] q.free(x) == p.free(x) by {
        if q.free(x) {
            let fc = choose|fc: crate::pager::FreeChain|
                #[trigger] q.free_view(fc) && crate::pager::chain_has(fc, x);
            assert(p.free_view(fc));
        }
        if p.free(x) {
            let fc = choose|fc: crate::pager::FreeChain|
                #[trigger] p.free_view(fc) && crate::pager::chain_has(fc, x);
            assert(q.free_view(fc));
        }
    }
    assert(q.free_ok()) by {
        let fc = choose|fc: crate::pager::FreeChain| #[trigger] p.free_view(fc);
        assert(q.free_view(fc));
    }
    assert(all_kept(p, q));
    lemma_past_kept(p, q);
    assert forall|name: Seq<char>| (#[trigger] branch_of(q, name)) matches Some(r) implies branch_ok(
        q,
        branch_of(q, name)->0,
    ) by {
        if let Some(r) = branch_of(q, name) {
            assert(branch_of(p, name) == Some(r));
            assert(branch_ok(p, r));
            assert(same_past(p, q, r));
        }
    }
}

impl Db<MemStorage> {
    /// A fresh in-memory database, gone when dropped. Handy for tests.
    pub fn in_memory() -> (r: Result<Self>)
        ensures
            r matches Ok(db) && db.sound() && db.reliable() && db.on() == "main"@ && db.head().head_id
                == 0,
    {
        Db::create(MemStorage::new(), PagerOptions::default())
    }
}

/// What a snapshot of a commit shows.
pub open spec fn shows<'db, S: Storage>(
    s: Snapshot<'db, S>,
    p: Pager<S>,
    id: u64,
    data: Bytes,
    catalog: Bytes,
) -> bool {
    &&& s.sound()
    &&& s.reliable() == p.reliable()
    &&& s.id() == id
    &&& s.data() == data
    &&& s.catalog() == catalog
}

/// A snapshot of the empty state every file starts as.
fn empty_snapshot<'db, S: Storage>(pager: &'db Pager<S>) -> (r: Snapshot<'db, S>)
    requires
        pager.wf(),
    ensures
        r.wf(),
        shows(r, *pager, 0, Map::empty(), Map::empty()),
{
    proof {
        crate::store::lemma_empty_tree(pager.pages(), pager.size());
    }
    Snapshot { pager, root: NIL_PAGE, catalog_root: NIL_PAGE, commit_id: 0 }
}

impl<S: Storage> Db<S> {
    /// Name of the branch new transactions commit to.
    pub fn current_branch(&self) -> (r: String)
        ensures
            r@ == self.on(),
    {
        owned(self.current.as_str())
    }

    /// Id of the newest commit on the current branch. 0 means the branch
    /// sits at the empty initial state.
    pub fn head_commit(&self) -> (r: u64)
        requires
            self.wf(),
        ensures
            self.sound() && self.reliable() ==> r == self.head().head_id,
    {
        match branch_head(&self.pager, self.current.as_str()) {
            Ok(r) => r.head_id,
            Err(_) => 0,
        }
    }

    /// All branches with their heads, sorted by name. A database that
    /// never branched reports the single implicit branch "main".
    pub fn branches(&self) -> (r: Result<Vec<(String, BranchRef)>>)
        requires
            self.wf(),
        ensures
            self.sound() ==> match r {
                Ok(v) => lists_branches(self.store(), v@),
                Err(_) => !self.reliable(),
            },
    {
        read_branches(&self.pager)
    }

    /// A read snapshot of the current branch head.
    pub fn snapshot<'db>(&'db self) -> (r: Snapshot<'db, S>)
        requires
            self.wf(),
        ensures
            r.wf(),
            self.sound() && self.reliable() ==> shows(
                r,
                self.store(),
                self.head().head_id,
                self.data(),
                self.catalog(),
            ),
    {
        let meta = self.pager.committed_meta();
        let head = match branch_head(&self.pager, self.current.as_str()) {
            Ok(r) => r,
            Err(_) => implicit_ref(&self.pager),
        };
        let ghost good = self.sound() && self.reliable();
        proof {
            if good {
                assert(head == self.head());
                assert(branch_ok(self.pager, head));
                let h = records(self.pager, head);
                if head.head_id != 0 {
                    assert(record_ok(self.pager, h[0]));
                    assert(commit_of(self.pager.pages()[h[0].0]) == Some(h[0].1));
                }
            }
        }
        if head.head_id != meta.txid && head.head_id != 0 {
            if let Ok(rec) = commit::read_record(&self.pager, head.head_page) {
                return Snapshot {
                    pager: &self.pager,
                    root: rec.data_root,
                    catalog_root: rec.catalog_root,
                    commit_id: head.head_id,
                };
            }
        }
        if head.head_id == 0 {
            return empty_snapshot(&self.pager);
        }
        Snapshot {
            pager: &self.pager,
            root: meta.data_root,
            catalog_root: meta.catalog_root,
            commit_id: meta.txid,
        }
    }

    /// A read snapshot of an arbitrary retained commit, searched across
    /// all branches. Commit id 0 is the empty database every file starts
    /// as.
    pub fn snapshot_at<'db>(&'db self, commit_id: u64) -> (r: Result<Snapshot<'db, S>>)
        requires
            self.wf(),
        ensures
            r matches Ok(s) ==> s.wf(),
            commit_id == 0 ==> (r matches Ok(s) && shows(
                s,
                self.store(),
                0,
                Map::empty(),
                Map::empty(),
            )),
            self.sound() && commit_id != 0 ==> match r {
                Ok(s) => exists|c: Rec| #[trigger]
                    retained(self.store(), c) && c.1.commit_id == commit_id && shows(
                        s,
                        self.store(),
                        commit_id,
                        data_of(self.store(), c.1),
                        catalog_of(self.store(), c.1),
                    ),
                Err(e) => !self.reliable() || (e is InvalidArgument && !retains_id(
                    self.store(),
                    commit_id,
                )),
            },
    {
        if commit_id == 0 {
            return Ok(empty_snapshot(&self.pager));
        }
        match find_commit(&self.pager, commit_id) {
            Ok(found) => {
                let s = Snapshot {
                    pager: &self.pager,
                    root: found.info.data_root,
                    catalog_root: found.info.catalog_root,
                    commit_id,
                };
                proof {
                    if self.sound() {
                        let c = (found.page, found.info);
                        lemma_retained_ok(self.pager, c);
                        assert(retained(self.store(), c));
                    }
                }
                Ok(s)
            },
            Err(e) => Err(e),
        }
    }

    /// The newest commit on the current branch with a timestamp at or
    /// before `unix_ts_ms`. Resolves to the empty state when the branch
    /// has no commit that old and its full history is retained.
    pub fn snapshot_at_time<'db>(&'db self, unix_ts_ms: u64) -> (r: Result<Snapshot<'db, S>>)
        requires
            self.wf(),
        ensures
            r matches Ok(s) ==> s.wf(),
            self.sound() ==> match r {
                Ok(s) => match at_time(records(self.store(), self.head()), unix_ts_ms) {
                    Some(info) => shows(
                        s,
                        self.store(),
                        info.commit_id,
                        data_of(self.store(), info),
                        catalog_of(self.store(), info),
                    ),
                    None => (self.head().head_id == 0 || self.head().floor_id == 0) && shows(
                        s,
                        self.store(),
                        0,
                        Map::empty(),
                        Map::empty(),
                    ),
                },
                Err(e) => !self.reliable() || (e is InvalidArgument && self.head().head_id != 0
                    && self.head().floor_id != 0 && at_time(records(self.store(), self.head()), unix_ts_ms) is None),
            },
    {
        let head = match branch_head(&self.pager, self.current.as_str()) {
            Ok(r) => r,
            Err(e) => {
                return Err(e);
            },
        };
        let ghost h = records(self.pager, head);
        proof {
            if self.sound() {
                assert(head == self.head());
                assert(branch_ok(self.pager, head));
                assert(chain_of(self.pager.pages(), head, h));
            }
        }
        if head.head_id == 0 {
            return Ok(empty_snapshot(&self.pager));
        }
        match commit::find_at_time(&self.pager, &head, unix_ts_ms) {
            Err(e) => Err(e),
            Ok(Some(rec)) => {
                proof {
                    if self.sound() {
                        let i = lemma_at_time(h, unix_ts_ms);
                        assert(record_ok(self.pager, h[i]));
                    }
                }
                Ok(
                    Snapshot {
                        pager: &self.pager,
                        root: rec.data_root,
                        catalog_root: rec.catalog_root,
                        commit_id: rec.commit_id,
                    },
                )
            },
            Ok(None) => {
                if head.floor_id == 0 {
                    Ok(empty_snapshot(&self.pager))
                } else {
                    Err(
                        Error::InvalidArgument(
                            "no commit that old is retained on this branch (raise the gc retention)",
                        ),
                    )
                }
            },
        }
    }

    /// History of the current branch, newest first, down to its retention
    /// floor.
    pub fn log(&self) -> (r: Result<Vec<CommitInfo>>)
        requires
            self.wf(),
        ensures
            self.sound() ==> match r {
                Ok(v) => v@ == infos(records(self.store(), self.head())),
                Err(_) => !self.reliable(),
            },
    {
        let head = match branch_head(&self.pager, self.current.as_str()) {
            Ok(r) => r,
            Err(e) => {
                return Err(e);
            },
        };
        proof {
            if self.sound() {
                assert(branch_ok(self.pager, head));
                assert(chain_of(self.pager.pages(), head, records(self.pager, head)));
            }
        }
        let h = match commit::walk(&self.pager, &head) {
            Ok(h) => h,
            Err(e) => {
                return Err(e);
            },
        };
        let mut out: Vec<CommitInfo> = Vec::new();
        let mut i: usize = 0;
        while i < h.len()
            invariant
                i <= h@.len(),
                out@ =~= infos(h@.take(i as int)),
            decreases h@.len() - i,
        {
            out.push(h[i].1);
            i = i + 1;
        }
        proof {
            assert(h@.take(h@.len() as int) =~= h@);
        }
        Ok(out)
    }
}

/// The records of a history without their pages.
pub open spec fn infos(h: Seq<Rec>) -> Seq<CommitInfo> {
    Seq::new(h.len(), |i: int| h[i].1)
}

/// Where the record that [`at_time`] finds is.
proof fn lemma_at_time(h: Seq<Rec>, ts: u64) -> (i: int)
    requires
        at_time(h, ts) is Some,
    ensures
        0 <= i < h.len(),
        h[i].1 == at_time(h, ts)->0,
    decreases h.len(),
{
    if h[0].1.unix_ts_ms <= ts {
        0
    } else {
        let t = h.skip(1);
        let i = lemma_at_time(t, ts);
        assert(t[i] == h[i + 1]);
        i + 1
    }
}

proof fn lemma_retained_ok<S: Storage>(p: Pager<S>, c: Rec)
    requires
        store_ok(p),
        retained(p, c),
    ensures
        record_ok(p, c),
{
    let (name, i) = choose|name: Seq<char>, i: int| #[trigger] retained_at(p, name, i, c);
    let r = branch_of(p, name)->0;
    assert(branch_ok(p, r));
    assert(record_ok(p, records(p, r)[i]));
}

// ---------------------------------------------------------------------
// transactions
// ---------------------------------------------------------------------

/// A write transaction on one branch. Reads see the transaction's own
/// writes. Dropping without committing discards everything.
pub struct WriteTx<'db, S: Storage> {
    /// The page writes so far.
    pub batch: WriteBatch<'db, S>,
    /// What else the transaction knows.
    pub state: TxState,
}

/// The private half of a [`WriteTx`].
pub struct TxState {
    root: PageId,
    catalog_root: PageId,
    branch: String,
    parent: BranchRef,
}

impl<'db, S: Storage> WriteTx<'db, S> {
    pub open spec fn wf(&self) -> bool {
        self.batch.wf()
    }

    pub open spec fn reliable(&self) -> bool {
        self.batch.reliable()
    }

    /// The database as it was when the transaction began.
    pub open spec fn base(&self) -> Pager<S> {
        self.batch.under()
    }

    pub closed spec fn root(&self) -> PageId {
        self.state.root
    }

    pub closed spec fn catalog_root(&self) -> PageId {
        self.state.catalog_root
    }

    /// The branch the transaction commits to.
    pub closed spec fn branch(&self) -> Seq<char> {
        self.state.branch@
    }

    /// The branch head the transaction builds on.
    pub closed spec fn parent(&self) -> BranchRef {
        self.state.parent
    }

    /// What the data tree holds, own writes included.
    pub open spec fn data(&self) -> Bytes {
        contents(self.batch.pages(), self.batch.size(), self.root())
    }

    /// What the catalog tree holds, own writes included.
    pub open spec fn catalog(&self) -> Bytes {
        contents(self.batch.pages(), self.batch.size(), self.catalog_root())
    }

    /// A transaction on a sound database that has disturbed nothing else.
    pub open spec fn sound(&self) -> bool {
        &&& store_ok(self.base())
        &&& steady(self.base(), self.batch)
        &&& self.batch.chosen_free() is None
        &&& self.batch.refs() == self.base().meta().refs_root
        &&& editable(self.batch, self.root())
        &&& editable(self.batch, self.catalog_root())
        &&& crate::store::apart(self.batch, self.root(), self.catalog_root())
        &&& branch_of(self.base(), self.branch()) == Some(self.parent())
    }

    /// The same transaction, some writes later.
    pub open spec fn follows(&self, b: &WriteTx<'db, S>) -> bool {
        &&& self.base() == b.base()
        &&& self.branch() == b.branch()
        &&& self.parent() == b.parent()
        &&& self.reliable() == b.reliable()
        &&& self.batch.meta() == b.batch.meta()
        &&& self.batch.size() == b.batch.size()
        &&& self.batch.next() >= b.batch.next()
    }

    /// The file has no page left to give.
    pub open spec fn full(&self) -> bool {
        self.batch.next() >= MAX_PAGES
    }

    /// Keys this database accepts.
    pub open spec fn key_ok(&self, key: Seq<u8>) -> bool {
        0 < key.len() <= crate::tree::max_key(self.batch.size())
    }

    /// The commit id this transaction will get if it commits.
    pub fn pending_commit_id(&self) -> (r: u64)
        requires
            self.wf(),
            self.batch.meta().txid < u64::MAX,
        ensures
            r == self.batch.meta().txid + 1,
    {
        self.batch.base_meta().txid + 1
    }

    pub fn put(&mut self, key: &[u8], value: &[u8]) -> (r: Result<()>)
        requires
            old(self).wf(),
        ensures
            final(self).wf(),
            final(self).follows(old(self)),
            *final(final(self).batch.pager) == *final(old(self).batch.pager),
            final(self).batch.next() <= 3 * (old(self).batch.next() + value@.len() + 1) + 1,
            !old(self).key_ok(key@) ==> (r matches Err(Error::InvalidArgument(_))) && *final(self)
                == *old(self),
            old(self).sound() && old(self).key_ok(key@) ==> match r {
                Ok(_) => {
                    &&& final(self).sound()
                    &&& final(self).data() == old(self).data().insert(key@, value@)
                    &&& final(self).catalog() == old(self).catalog()
                },
                Err(_) => !old(self).reliable() || final(self).full(),
            },
    {
        let ghost a = self.batch;
        let ghost root = self.state.root;
        let ghost other = self.state.catalog_root;
        let ghost good = self.sound() && self.key_ok(key@);
        match btree::put(&mut self.batch, self.state.root, key, value) {
            Ok(next) => {
                self.state.root = next;
                proof {
                    if good {
                        lemma_tx_edit(a, self.batch, root, next, other, key@, Some(value@));
                    }
                }
                Ok(())
            },
            Err(e) => Err(e),
        }
    }

    /// Returns whether the key existed.
    pub fn delete(&mut self, key: &[u8]) -> (r: Result<bool>)
        requires
            old(self).wf(),
        ensures
            final(self).wf(),
            final(self).follows(old(self)),
            *final(final(self).batch.pager) == *final(old(self).batch.pager),
            final(self).batch.next() <= 3 * old(self).batch.next(),
            old(self).sound() ==> match r {
                Ok(existed) => {
                    &&& final(self).sound()
                    &&& existed == old(self).data().contains_key(key@)
                    &&& final(self).data() == old(self).data().remove(key@)
                    &&& final(self).catalog() == old(self).catalog()
                },
                Err(_) => !old(self).reliable() || final(self).full(),
            },
    {
        let ghost a = self.batch;
        let ghost root = self.state.root;
        let ghost other = self.state.catalog_root;
        let ghost good = self.sound();
        match btree::remove(&mut self.batch, self.state.root, key) {
            Ok((next, existed)) => {
                self.state.root = next;
                proof {
                    if good {
                        lemma_tx_edit(a, self.batch, root, next, other, key@, None);
                    }
                }
                Ok(existed)
            },
            Err(e) => Err(e),
        }
    }

    pub fn get(&self, key: &[u8]) -> (r: Result<Option<Vec<u8>>>)
        requires
            self.wf(),
        ensures
            self.sound() ==> match r {
                Ok(v) => answers(v, lookup(self.data(), key@)),
                Err(_) => !self.reliable(),
            },
    {
        read_at(&self.batch, self.state.root, key)
    }

    /// Iterate `[start, end)` including this transaction's own writes.
    pub fn scan<'a>(&'a self, start: Option<&[u8]>, end: Option<&[u8]>) -> (r: Result<
        Scan<'a, WriteBatch<'db, S>>,
    >)
        requires
            self.wf(),
        ensures
            r matches Ok(s) ==> s.wf() && s.source().reliable() == self.reliable(),
            self.sound() ==> match r {
                Ok(s) => s.sound() && lists(
                    self.data(),
                    slice_opt(start),
                    slice_opt(end),
                    s.remaining(),
                ),
                Err(_) => !self.reliable(),
            },
    {
        scan_at(&self.batch, self.state.root, start, end)
    }

    /// The catalog tree, same operations as the data tree. Schema and data
    /// commit atomically together since both roots land in one meta.
    pub fn catalog_put(&mut self, key: &[u8], value: &[u8]) -> (r: Result<()>)
        requires
            old(self).wf(),
        ensures
            final(self).wf(),
            final(self).follows(old(self)),
            *final(final(self).batch.pager) == *final(old(self).batch.pager),
            final(self).batch.next() <= 3 * (old(self).batch.next() + value@.len() + 1) + 1,
            !old(self).key_ok(key@) ==> (r matches Err(Error::InvalidArgument(_))) && *final(self)
                == *old(self),
            old(self).sound() && old(self).key_ok(key@) ==> match r {
                Ok(_) => {
                    &&& final(self).sound()
                    &&& final(self).catalog() == old(self).catalog().insert(key@, value@)
                    &&& final(self).data() == old(self).data()
                },
                Err(_) => !old(self).reliable() || final(self).full(),
            },
    {
        let ghost a = self.batch;
        let ghost root = self.state.catalog_root;
        let ghost other = self.state.root;
        let ghost good = self.sound() && self.key_ok(key@);
        match btree::put(&mut self.batch, self.state.catalog_root, key, value) {
            Ok(next) => {
                self.state.catalog_root = next;
                proof {
                    if good {
                        lemma_apart_swap(a, root, other);
                        lemma_tx_edit(a, self.batch, root, next, other, key@, Some(value@));
                        lemma_apart_swap(self.batch, next, other);
                    }
                }
                Ok(())
            },
            Err(e) => Err(e),
        }
    }

    /// Returns whether the key existed in the catalog tree.
    pub fn catalog_delete(&mut self, key: &[u8]) -> (r: Result<bool>)
        requires
            old(self).wf(),
        ensures
            final(self).wf(),
            final(self).follows(old(self)),
            *final(final(self).batch.pager) == *final(old(self).batch.pager),
            final(self).batch.next() <= 3 * old(self).batch.next(),
            old(self).sound() ==> match r {
                Ok(existed) => {
                    &&& final(self).sound()
                    &&& existed == old(self).catalog().contains_key(key@)
                    &&& final(self).catalog() == old(self).catalog().remove(key@)
                    &&& final(self).data() == old(self).data()
                },
                Err(_) => !old(self).reliable() || final(self).full(),
            },
    {
        let ghost a = self.batch;
        let ghost root = self.state.catalog_root;
        let ghost other = self.state.root;
        let ghost good = self.sound();
        match btree::remove(&mut self.batch, self.state.catalog_root, key) {
            Ok((next, existed)) => {
                self.state.catalog_root = next;
                proof {
                    if good {
                        lemma_apart_swap(a, root, other);
                        lemma_tx_edit(a, self.batch, root, next, other, key@, None);
                        lemma_apart_swap(self.batch, next, other);
                    }
                }
                Ok(existed)
            },
            Err(e) => Err(e),
        }
    }

    pub fn catalog_get(&self, key: &[u8]) -> (r: Result<Option<Vec<u8>>>)
        requires
            self.wf(),
        ensures
            self.sound() ==> match r {
                Ok(v) => answers(v, lookup(self.catalog(), key@)),
                Err(_) => !self.reliable(),
            },
    {
        read_at(&self.batch, self.state.catalog_root, key)
    }

    /// Iterate a range of the catalog tree including this transaction's own
    /// writes.
    pub fn catalog_scan<'a>(&'a self, start: Option<&[u8]>, end: Option<&[u8]>) -> (r: Result<
        Scan<'a, WriteBatch<'db, S>>,
    >)
        requires
            self.wf(),
        ensures
            r matches Ok(s) ==> s.wf() && s.source().reliable() == self.reliable(),
            self.sound() ==> match r {
                Ok(s) => s.sound() && lists(
                    self.catalog(),
                    slice_opt(start),
                    slice_opt(end),
                    s.remaining(),
                ),
                Err(_) => !self.reliable(),
            },
    {
        scan_at(&self.batch, self.state.catalog_root, start, end)
    }
}

proof fn lemma_apart_swap<'p, S: Storage>(b: WriteBatch<'p, S>, x: PageId, y: PageId)
    requires
        crate::store::apart(b, x, y),
    ensures
        crate::store::apart(b, y, x),
{
    assert forall|i: PageId| #[trigger] b.own(i) implies !(ohas(tree_of(b.pages(), b.size(), y), i)
        && ohas(tree_of(b.pages(), b.size(), x), i)) by {}
}

/// One tree of a transaction edited, the other as it was.
proof fn lemma_tx_edit<'p, S: Storage>(
    a: WriteBatch<'p, S>,
    b: WriteBatch<'p, S>,
    root: PageId,
    next: PageId,
    other: PageId,
    key: Seq<u8>,
    value: Option<Seq<u8>>,
)
    requires
        steady(a.under(), a),
        editable(a, root),
        editable(a, other),
        crate::store::apart(a, root, other),
        extends(a, b),
        edited(a, b, root, next),
        finds_set(
            tree_of(a.pages(), a.size(), root),
            tree_of(b.pages(), a.size(), next),
            key,
            value,
        ),
    ensures
        steady(a.under(), b),
        editable(b, next),
        editable(b, other),
        crate::store::apart(b, next, other),
        contents(b.pages(), b.size(), next) == (match value {
            Some(v) => contents(a.pages(), a.size(), root).insert(key, v),
            None => contents(a.pages(), a.size(), root).remove(key),
        }),
        contents(b.pages(), b.size(), other) == contents(a.pages(), a.size(), other),
{
    lemma_steady_extends(a.under(), a, b);
    crate::store::lemma_other_tree(a, b, root, next, other);
    crate::store::lemma_set_map(
        tree_of(a.pages(), a.size(), root),
        tree_of(b.pages(), a.size(), next),
        key,
        value,
    );
}

impl<S: Storage> Db<S> {
    /// Start a write transaction on the current branch.
    pub fn begin<'db>(&'db mut self) -> (r: WriteTx<'db, S>)
        requires
            old(self).wf(),
        ensures
            r.wf(),
            r.base() == old(self).store(),
            r.batch.meta() == old(self).store().meta(),
            r.batch.next() == old(self).store().meta().page_count,
            r.batch.size() == old(self).store().size(),
            r.reliable() == old(self).reliable(),
            r.branch() == old(self).on(),
            final(self).store() == *final(r.batch.pager),
            final(self).on() == old(self).on(),
            old(self).sound() && old(self).reliable() ==> {
                &&& r.sound()
                &&& r.parent() == old(self).head()
                &&& r.data() == old(self).data()
                &&& r.catalog() == old(self).catalog()
            },
    {
        let meta = self.pager.committed_meta();
        let branch = owned(self.current.as_str());
        let head = match branch_head(&self.pager, self.current.as_str()) {
            Ok(r) => r,
            Err(_) => implicit_ref(&self.pager),
        };
        // roots come from the branch head, which equals the newest meta
        // only when this branch was the last one written to
        let (root, catalog_root) = if head.head_id == meta.txid {
            (meta.data_root, meta.catalog_root)
        } else if head.head_id == 0 {
            (NIL_PAGE, NIL_PAGE)
        } else {
            match commit::read_record(&self.pager, head.head_page) {
                Ok(rec) => (rec.data_root, rec.catalog_root),
                Err(_) => (meta.data_root, meta.catalog_root),
            }
        };
        let ghost p = self.pager;
        let ghost good = self.sound() && self.reliable();
        let batch = self.pager.begin();
        proof {
            if good {
                assert(branch_of(p, branch@) == Some(head));
                lemma_begin(p, batch, head, root, catalog_root);
            }
        }
        WriteTx { batch, state: TxState { root, catalog_root, branch, parent: head } }
    }
}

/// Whether a change is on the medium for good: nothing it asked for is
/// still to come, and both meta slots are sound if they were.
pub open spec fn durable_after<S: Storage>(p: Pager<S>, q: Pager<S>) -> bool {
    &&& p.settled() || q != p ==> q.settled()
    &&& p.anchored() ==> q.anchored()
}

/// What a transaction starts from.
proof fn lemma_begin<'p, S: Storage>(
    p: Pager<S>,
    b: WriteBatch<'p, S>,
    head: BranchRef,
    root: PageId,
    catalog_root: PageId,
)
    requires
        store_ok(p),
        branch_ok(p, head),
        b.wf(),
        b.under() == p,
        b.free_ok(),
        forall|x: PageId| !#[trigger] b.own(x),
        forall|x: PageId| #[trigger] b.spare(x) ==> x >= p.meta().page_count || p.free(x),
        head.head_id == p.meta().txid ==> root == p.meta().data_root && catalog_root
            == p.meta().catalog_root,
        head.head_id != p.meta().txid && head.head_id == 0 ==> root == NIL_PAGE && catalog_root
            == NIL_PAGE,
        head.head_id != p.meta().txid && head.head_id != 0 ==> {
            &&& root == records(p, head)[0].1.data_root
            &&& catalog_root == records(p, head)[0].1.catalog_root
        },
    ensures
        steady(p, b),
        editable(b, root),
        editable(b, catalog_root),
        crate::store::apart(b, root, catalog_root),
        contents(b.pages(), b.size(), root) == head_data(p, head),
        contents(b.pages(), b.size(), catalog_root) == head_catalog(p, head),
{
    p.lemma_facts();
    assert(steady(p, b));
    if head.head_id == 0 {
        crate::store::lemma_empty_tree(p.pages(), p.size());
    } else {
        let c = records(p, head)[0];
        assert(record_ok(p, c));
        assert forall|x: PageId| #[trigger] ohas(tree_of(p.pages(), p.size(), root), x) implies !p.free(x) by {
            assert(uses(p.pages(), p.size(), c, x));
        }
        assert forall|x: PageId| #[trigger] ohas(tree_of(p.pages(), p.size(), catalog_root), x) implies !p.free(
            x,
        ) by {
            assert(uses(p.pages(), p.size(), c, x));
        }
    }
    lemma_steady_tree(p, b, root);
    lemma_steady_tree(p, b, catalog_root);
}

/// What a committed transaction leaves behind: one more commit on its
/// branch, holding what the transaction held, and everything else as it
/// was.
pub open spec fn tx_done<'db, S: Storage>(tx: WriteTx<'db, S>, q: Pager<S>, now: u64) -> bool {
    let p = tx.base();
    let id = (tx.batch.meta().txid + 1) as u64;
    &&& store_ok(q)
    &&& q.meta().txid == id
    &&& branch_of(q, tx.branch()) matches Some(r) && {
        let h = records(q, r);
        &&& r.head_id == id
        &&& r.floor_id == tx.parent().floor_id
        &&& h.len() > 0
        &&& h.skip(1) == records(p, tx.parent())
        &&& h[0].1.commit_id == id
        &&& h[0].1.parent_id == tx.parent().head_id
        &&& h[0].1.unix_ts_ms == now
        &&& data_of(q, h[0].1) == tx.data()
        &&& catalog_of(q, h[0].1) == tx.catalog()
    }
    &&& forall|n: Seq<char>| n != tx.branch() ==> #[trigger] branch_of(q, n) == branch_of(p, n)
    &&& past_kept(p, q)
    &&& (q.meta().refs_root == NIL_PAGE <==> p.meta().refs_root == NIL_PAGE)
    &&& q.meta().refs_root != NIL_PAGE ==> refs_map(q)[head_at()] == refs_map(p)[head_at()]
}

/// The record page of a commit, once committed.
proof fn lemma_record_commit<'p, S: Storage>(
    b: WriteBatch<'p, S>,
    q: Pager<S>,
    now: u64,
    id: PageId,
    info: CommitInfo,
)
    requires
        b.wf(),
        q.wf(),
        b.free_ok(),
        b.chosen_free() is None,
        b.committed_as(&q, now),
        b.own(id),
        !b.spare(id),
        b.pages().contains_key(id),
        commit_of(b.pages()[id]) == Some(info),
    ensures
        q.pages().contains_key(id),
        commit_of(q.pages()[id]) == Some(info),
        !q.free(id),
{
    b.lemma_facts();
    assert(q.pages().contains_key(id) && crate::tree::same_page(b.pages()[id], q.pages()[id]));
    commit::lemma_commit_of_frame(b.pages()[id], q.pages()[id]);
    if q.free(id) {
        assert(b.will_free(id));
    }
}

#[verifier::spinoff_prover]
#[verifier::rlimit(80)]
proof fn lemma_tx_done<'db, S: Storage>(
    tx: WriteTx<'db, S>,
    b: WriteBatch<'db, S>,
    q: Pager<S>,
    now: u64,
    page: PageId,
    info: CommitInfo,
    refs: Bytes,
)
    requires
        tx.wf(),
        tx.sound(),
        steady(tx.base(), b),
        b.meta() == tx.batch.meta(),
        b.size() == tx.batch.size(),
        b.chosen_free() is None,
        b.meta().txid < u64::MAX,
        b.data() == tx.root(),
        b.catalog() == tx.catalog_root(),
        b.commit_at_page() == page,
        b.own(page),
        !b.spare(page),
        page >= 2,
        b.pages().contains_key(page),
        commit_of(b.pages()[page]) == Some(info),
        info == (CommitInfo {
            commit_id: (b.meta().txid + 1) as u64,
            parent_id: tx.parent().head_id,
            data_root: tx.root(),
            catalog_root: tx.catalog_root(),
            parent_page: tx.parent().head_page,
            unix_ts_ms: now,
        }),
        editable(b, tx.root()),
        editable(b, tx.catalog_root()),
        contents(b.pages(), b.size(), tx.root()) == tx.data(),
        contents(b.pages(), b.size(), tx.catalog_root()) == tx.catalog(),
        editable(b, b.refs()),
        (b.refs() == NIL_PAGE <==> tx.base().meta().refs_root == NIL_PAGE),
        b.refs() != NIL_PAGE ==> contents(b.pages(), b.size(), b.refs()) == refs && refs == refs_map(
            tx.base(),
        ).insert(
            branch_at(tx.branch()),
            (BranchRef {
                head_id: info.commit_id,
                head_page: page,
                floor_id: tx.parent().floor_id,
            }).stored(),
        ),
        q.wf(),
        b.committed_as(&q, now),
    ensures
        tx_done(tx, q, now),
{
    let p = tx.base();
    let parent = tx.parent();
    let r = BranchRef { head_id: info.commit_id, head_page: page, floor_id: parent.floor_id };
    b.lemma_facts();
    q.lemma_facts();
    lemma_steady_commit(p, b, q, now);
    lemma_past_kept(p, q);
    lemma_ready_tree(b, q, now, tx.root());
    lemma_ready_tree(b, q, now, tx.catalog_root());
    lemma_ready_tree(b, q, now, b.refs());
    lemma_record_commit(b, q, now, page, info);
    assert(branch_ok(p, parent));
    assert(same_past(p, q, parent));
    let h = records(p, parent);
    assert(chain_of(q.pages(), parent, h));
    if h.len() > 0 {
        assert(record_ok(p, h[0]));
    }
    lemma_chain_grow(q.pages(), parent, h, page, info);
    let g = seq![(page, info)] + h;
    lemma_chain_unique(q.pages(), r, g);
    assert(g.skip(1) =~= h);
    assert(readable(q, r)) by {
        assert forall|i: int| 0 <= i < g.len() implies record_ok(q, #[trigger] g[i]) by {
            if i > 0 {
                assert(g[i] == h[i - 1]);
                assert(record_ok(q, h[i - 1]));
            } else {
                assert forall|x: PageId| #[trigger] uses(q.pages(), q.size(), g[0], x) implies !q.free(x) by {}
            }
        }
    }
    assert(branch_ok(q, r));
    if b.refs() != NIL_PAGE {
        lemma_ref_set(refs_map(p), tx.branch(), r);
        crate::store::lemma_sane_set(refs_map(p), tx.branch(), r);
        refs::law_branch_keys_are_distinct(tx.branch(), tx.branch());
        assert(refs_map(q) == refs);
    } else {
        assert(implicit(q) == r);
        assert(tx.branch() == "main"@);
    }
    assert forall|name: Seq<char>| (#[trigger] branch_of(q, name)) matches Some(s) implies branch_ok(
        q,
        branch_of(q, name)->0,
    ) by {
        if let Some(s) = branch_of(q, name) {
            if name != tx.branch() {
                assert(branch_of(p, name) == Some(s));
                assert(branch_ok(p, s));
                assert(same_past(p, q, s));
                if s.head_id != 0 {
                    assert(record_ok(p, records(p, s)[0]));
                }
            }
        }
    }
}

/// A tree ready in a batch that chose no free list, once committed.
proof fn lemma_ready_tree<'p, S: Storage>(
    b: WriteBatch<'p, S>,
    q: Pager<S>,
    now: u64,
    root: PageId,
)
    requires
        b.wf(),
        q.wf(),
        editable(b, root),
        b.chosen_free() is None,
        b.committed_as(&q, now),
    ensures
        sound_root(q.pages(), q.size(), root),
        tree_of(q.pages(), q.size(), root) == tree_of(b.pages(), b.size(), root),
        contents(q.pages(), q.size(), root) == contents(b.pages(), b.size(), root),
        forall|x: PageId| #[trigger] ohas(tree_of(q.pages(), q.size(), root), x) ==> !q.free(x),
{
    assert forall|x: PageId| #[trigger] ohas(tree_of(b.pages(), b.size(), root), x) implies !b.will_free(x) by {
        assert(!b.spare(x));
    }
    lemma_tree_commit(b, q, now, root);
}

/// A batch in which only roots were set is as steady as before.
proof fn lemma_only_roots<'p, S: Storage>(p: Pager<S>, a: WriteBatch<'p, S>, b: WriteBatch<'p, S>)
    requires
        b.only_roots(&a),
        a.wf(),
    ensures
        steady(p, a) ==> steady(p, b),
        forall|root: PageId| #[trigger] editable(a, root) ==> editable(b, root),
{
    if steady(p, a) {
        assert forall|x: PageId| #[trigger] p.pages().contains_key(x) && !p.free(x) implies !b.own(x)
            && !b.spare(x) by {
            assert(b.own(x) == a.own(x));
            assert(b.spare(x) == a.spare(x));
        }
    }
    assert forall|root: PageId| #[trigger] editable(a, root) implies editable(b, root) by {
        assert forall|x: PageId| #[trigger] ohas(tree_of(b.pages(), b.size(), root), x) implies !b.spare(
            x,
        ) by {
            assert(b.spare(x) == a.spare(x));
        }
    }
}

/// Adding pages disturbs no tree.
proof fn lemma_untouched<'p, S: Storage>(
    a: WriteBatch<'p, S>,
    b: WriteBatch<'p, S>,
    root: PageId,
)
    requires
        a.wf(),
        extends(a, b),
        editable(a, root),
        forall|x: PageId| #[trigger]
            a.pages().contains_key(x) && !fresh(a, b, x) ==> b.pages().contains_key(x) && b.pages()[x]
                == a.pages()[x],
    ensures
        editable(b, root),
        tree_of(b.pages(), b.size(), root) == tree_of(a.pages(), a.size(), root),
        contents(b.pages(), b.size(), root) == contents(a.pages(), a.size(), root),
{
    a.lemma_facts();
    let ps = a.size();
    assert forall|x: PageId| #[trigger] ohas(tree_of(a.pages(), ps, root), x) implies !b.spare(x)
        && !fresh(a, b, x) by {
        assert(!a.spare(x));
        if b.spare(x) {
            assert(a.spare(x));
        }
    }
    crate::store::lemma_tree_kept(a.pages(), b.pages(), ps, root);
}

/// What is in place between the record and the end of a commit.
pub open spec fn committing<'db, S: Storage>(
    tx: WriteTx<'db, S>,
    b: WriteBatch<'db, S>,
    page: PageId,
    info: CommitInfo,
) -> bool {
    &&& steady(tx.base(), b)
    &&& extends(tx.batch, b)
    &&& b.own(page)
    &&& !b.spare(page)
    &&& b.pages().contains_key(page)
    &&& commit_of(b.pages()[page]) == Some(info)
    &&& editable(b, tx.root())
    &&& editable(b, tx.catalog_root())
    &&& contents(b.pages(), b.size(), tx.root()) == tx.data()
    &&& contents(b.pages(), b.size(), tx.catalog_root()) == tx.catalog()
}

/// The record is written: everything but the refs is in place.
proof fn lemma_recorded<'db, S: Storage>(
    tx: WriteTx<'db, S>,
    b: WriteBatch<'db, S>,
    page: PageId,
    info: CommitInfo,
)
    requires
        tx.wf(),
        tx.sound(),
        extends(tx.batch, b),
        fresh(tx.batch, b, page),
        b.pages().contains_key(page),
        commit_of(b.pages()[page]) == Some(info),
        forall|x: PageId| #[trigger]
            tx.batch.pages().contains_key(x) && !fresh(tx.batch, b, x) ==> b.pages().contains_key(x)
                && b.pages()[x] == tx.batch.pages()[x],
    ensures
        committing(tx, b, page, info),
        editable(b, tx.base().meta().refs_root),
        tree_of(b.pages(), b.size(), tx.base().meta().refs_root) == tree_of(
            tx.base().pages(),
            tx.base().size(),
            tx.base().meta().refs_root,
        ),
        forall|x: PageId| #[trigger]
            ohas(tree_of(b.pages(), b.size(), tx.base().meta().refs_root), x) ==> !b.own(x),
{
    let p = tx.base();
    let refs_root = p.meta().refs_root;
    lemma_steady_extends(p, tx.batch, b);
    lemma_untouched(tx.batch, b, tx.root());
    lemma_untouched(tx.batch, b, tx.catalog_root());
    lemma_steady_tree(p, b, refs_root);
}

/// The refs tree is edited: the rest is still in place.
#[verifier::spinoff_prover]
#[verifier::rlimit(40)]
proof fn lemma_refs_moved<'db, S: Storage>(
    tx: WriteTx<'db, S>,
    a: WriteBatch<'db, S>,
    b: WriteBatch<'db, S>,
    page: PageId,
    info: CommitInfo,
    root: PageId,
    next: PageId,
)
    requires
        tx.wf(),
        tx.sound(),
        committing(tx, a, page, info),
        extends(a, b),
        editable(a, root),
        edited(a, b, root, next),
        forall|x: PageId| #[trigger] ohas(tree_of(a.pages(), a.size(), root), x) ==> !a.own(x),
    ensures
        committing(tx, b, page, info),
        editable(b, next),
{
    lemma_steady_extends(tx.base(), a, b);
    lemma_extends_trans(tx.batch, a, b);
    a.lemma_facts();
    assert(crate::store::apart(a, root, tx.root()));
    assert(crate::store::apart(a, root, tx.catalog_root()));
    crate::store::lemma_other_tree(a, b, root, next, tx.root());
    crate::store::lemma_other_tree(a, b, root, next, tx.catalog_root());
    assert(!fresh(a, b, page));
    assert(!ohas(tree_of(a.pages(), a.size(), root), page));
    assert(b.own(page));
    if b.spare(page) {
        assert(a.spare(page));
    }
}

impl<'db, S: Storage> WriteTx<'db, S> {
    /// Neither page ids nor transaction ids run out at commit.
    pub open spec fn roomy(&self) -> bool {
        &&& 4 * self.batch.next() + 100 < MAX_PAGES
        &&& (4 * self.batch.next() + 100) * self.batch.size() <= usize::MAX
        &&& self.batch.meta().txid < u64::MAX
    }

    /// Write the commit record, advance the branch, make everything
    /// durable. Returns the commit id.
    pub fn commit(self) -> (r: Result<u64>)
        requires
            self.wf(),
        ensures
            final(self.batch.pager).wf(),
            final(self.batch.pager).reliable() == self.reliable(),
            match r {
                Ok(id) => id == self.batch.meta().txid + 1 && (self.sound() ==> tx_done(
                    self,
                    *final(self.batch.pager),
                    final(self.batch.pager).meta().unix_ts_ms,
                ) && final(self.batch.pager).meta().page_count <= 4 * self.batch.next() + 100) && final(
                    self.batch.pager).settled() && (self.base().anchored() ==> final(
                    self.batch.pager).anchored()),
                Err(_) => final(self.batch.pager).meta() == self.batch.meta() && (self.sound()
                    ==> same_store(self.base(), *final(self.batch.pager))),
            },
            self.sound() && self.reliable() && self.roomy() ==> r is Ok,
    {
        self.commit_at(crate::pager::now_ms())
    }

    /// Commit, stamped with a given time.
    #[verifier::spinoff_prover]
    #[verifier::rlimit(60)]
    pub fn commit_at(self, now: u64) -> (r: Result<u64>)
        requires
            self.wf(),
        ensures
            final(self.batch.pager).wf(),
            final(self.batch.pager).reliable() == self.reliable(),
            match r {
                Ok(id) => id == self.batch.meta().txid + 1 && final(
                    self.batch.pager).meta().unix_ts_ms == now && (self.sound() ==> tx_done(
                    self,
                    *final(self.batch.pager),
                    now,
                ) && final(self.batch.pager).meta().page_count <= 4 * self.batch.next() + 100) && final(
                    self.batch.pager).settled() && (self.base().anchored() ==> final(
                    self.batch.pager).anchored()),
                Err(_) => final(self.batch.pager).meta() == self.batch.meta() && (self.sound()
                    ==> same_store(self.base(), *final(self.batch.pager))),
            },
            self.sound() && self.reliable() && self.roomy() ==> r is Ok,
    {
        let ghost tx = self;
        let ghost good = self.sound();
        let mut batch = self.batch;
        let state = self.state;
        let ghost b0 = batch;
        proof {
            b0.lemma_facts();
            if good {
                lemma_same_store(tx.base(), tx.base());
            }
        }
        let page: PageId = match commit::write_record(
            &mut batch,
            state.parent.head_id,
            state.parent.head_page,
            state.root,
            state.catalog_root,
            now,
        ) {
            Ok(p) => p,
            Err(e) => {
                proof {
                    batch.lemma_facts();
                }
                return Err(e);
            },
        };
        let base = batch.base_meta();
        let commit_id: u64 = base.txid + 1;
        let ghost info = CommitInfo {
            commit_id,
            parent_id: state.parent.head_id,
            data_root: state.root,
            catalog_root: state.catalog_root,
            parent_page: state.parent.head_page,
            unix_ts_ms: now,
        };
        let ghost b1 = batch;
        proof {
            if good {
                lemma_recorded(tx, b1, page, info);
            }
        }
        let updated = BranchRef {
            head_id: commit_id,
            head_page: page,
            floor_id: state.parent.floor_id,
        };
        let refs_root: PageId = match advance_branch(
            &mut batch,
            state.branch.as_str(),
            updated,
            Ghost(tx),
            Ghost(page),
            Ghost(info),
        ) {
            Ok(r) => r,
            Err(e) => {
                proof {
                    batch.lemma_facts();
                }
                return Err(e);
            },
        };
        finish_commit(
            batch,
            state.root,
            state.catalog_root,
            page,
            refs_root,
            now,
            Ghost(tx),
            Ghost(info),
        )
    }
}

/// Once refs exist, the branch pointer advances in the same commit.
#[verifier::spinoff_prover]
#[verifier::rlimit(60)]
fn advance_branch<'db, S: Storage>(
    batch: &mut WriteBatch<'db, S>,
    branch: &str,
    updated: BranchRef,
    Ghost(tx): Ghost<WriteTx<'db, S>>,
    Ghost(page): Ghost<PageId>,
    Ghost(info): Ghost<CommitInfo>,
) -> (r: Result<PageId>)
    requires
        old(batch).wf(),
    ensures
        extends(*old(batch), *final(batch)),
        final(batch).next() <= 3 * (old(batch).next() + 25) + 1,
        *final(final(batch).pager) == *final(old(batch).pager),
        old(batch).meta().refs_root == NIL_PAGE ==> r == Result::<PageId>::Ok(NIL_PAGE)
            && *final(batch) == *old(batch),
        tx.wf() && tx.sound() && branch@ == tx.branch() && committing(tx, *old(batch), page, info)
            && editable(*old(batch), tx.base().meta().refs_root) && tree_of(
            old(batch).pages(),
            old(batch).size(),
            tx.base().meta().refs_root,
        ) == tree_of(tx.base().pages(), tx.base().size(), tx.base().meta().refs_root) && (forall|
            x: PageId,
        | #[trigger]
            ohas(tree_of(old(batch).pages(), old(batch).size(), tx.base().meta().refs_root), x)
                ==> !old(batch).own(x)) ==> match r {
            Ok(root) => {
                &&& committing(tx, *final(batch), page, info)
                &&& editable(*final(batch), root)
                &&& (root == NIL_PAGE <==> tx.base().meta().refs_root == NIL_PAGE)
                &&& root != NIL_PAGE ==> contents(final(batch).pages(), final(batch).size(), root)
                    == refs_map(tx.base()).insert(branch_at(tx.branch()), updated.stored())
            },
            Err(_) => !old(batch).reliable() || final(batch).next() >= MAX_PAGES,
        },
{
    let ghost b1 = *batch;
    let base = batch.base_meta();
    proof {
        b1.lemma_facts();
        lemma_extends_self(b1);
    }
    if base.refs_root == NIL_PAGE {
        return Ok(NIL_PAGE);
    }
    let ghost good = tx.wf() && tx.sound() && branch@ == tx.branch() && committing(tx, b1, page, info)
        && editable(b1, tx.base().meta().refs_root) && tree_of(
        b1.pages(),
        b1.size(),
        tx.base().meta().refs_root,
    ) == tree_of(tx.base().pages(), tx.base().size(), tx.base().meta().refs_root) && (forall|
        x: PageId,
    | #[trigger]
        ohas(tree_of(b1.pages(), b1.size(), tx.base().meta().refs_root), x) ==> !b1.own(x));
    let key = refs::branch_key(branch);
    let stored = updated.encode();
    proof {
        if good {
            lemma_branch_key_ok(tx.base(), branch@);
            tx.base().lemma_facts();
        }
    }
    match btree::put(batch, base.refs_root, key.as_slice(), stored.as_slice()) {
        Ok(next) => {
            proof {
                if good {
                    lemma_refs_moved(tx, b1, *batch, page, info, base.refs_root, next);
                    crate::store::lemma_set_map(
                        tree_of(b1.pages(), b1.size(), base.refs_root),
                        tree_of(batch.pages(), b1.size(), next),
                        key@,
                        Some(stored@),
                    );
                }
            }
            Ok(next)
        },
        Err(e) => Err(e),
    }
}

/// Set all roots and make the batch durable.
#[verifier::spinoff_prover]
#[verifier::rlimit(60)]
fn finish_commit<'db, S: Storage>(
    batch: WriteBatch<'db, S>,
    root: PageId,
    catalog_root: PageId,
    page: PageId,
    refs_root: PageId,
    now: u64,
    Ghost(tx): Ghost<WriteTx<'db, S>>,
    Ghost(info): Ghost<CommitInfo>,
) -> (r: Result<u64>)
    requires
        batch.wf(),
    ensures
        final(batch.pager).wf(),
        final(batch.pager).reliable() == batch.reliable(),
        match r {
            Ok(id) => id == batch.meta().txid + 1 && final(batch.pager).meta().unix_ts_ms == now
                && final(batch.pager).settled() && (batch.under().anchored() ==> final(
                batch.pager).anchored()),
            Err(_) => final(batch.pager).meta() == batch.meta(),
        },
        finishing(tx, batch, root, catalog_root, page, refs_root, now, info) ==> {
            &&& r is Ok ==> tx_done(tx, *final(batch.pager), now)
            &&& r is Ok && batch.next() <= 3 * (tx.batch.next() + 26) + 1 ==> final(
                batch.pager).meta().page_count <= 4 * tx.batch.next() + 100
            &&& r is Err ==> same_store(tx.base(), *final(batch.pager))
            &&& batch.reliable() && tx.roomy() && batch.next() <= 3 * (tx.batch.next() + 26) + 1
                ==> r is Ok
        },
{
    let mut b = batch;
    let ghost b2 = b;
    let ghost good = finishing(tx, batch, root, catalog_root, page, refs_root, now, info);
    b.set_data_root(root);
    let ghost b3 = b;
    b.set_catalog_root(catalog_root);
    let ghost b4 = b;
    b.set_commit_page(page);
    let ghost b5 = b;
    b.set_refs_root(refs_root);
    let ghost b6 = b;
    proof {
        b2.lemma_facts();
        if good {
            lemma_only_roots(tx.base(), b2, b3);
            lemma_only_roots(tx.base(), b3, b4);
            lemma_only_roots(tx.base(), b4, b5);
            lemma_only_roots(tx.base(), b5, b6);
            assert(b6.own(page) == b2.own(page)) by {
                assert(b3.own(page) == b2.own(page));
                assert(b4.own(page) == b3.own(page));
                assert(b5.own(page) == b4.own(page));
                assert(b6.own(page) == b5.own(page));
            }
            assert(b6.spare(page) == b2.spare(page)) by {
                assert(b3.spare(page) == b2.spare(page));
                assert(b4.spare(page) == b3.spare(page));
                assert(b5.spare(page) == b4.spare(page));
                assert(b6.spare(page) == b5.spare(page));
            }
            lemma_root_in(b6, root);
            lemma_root_in(b6, catalog_root);
            lemma_root_in(b6, refs_root);
            b6.lemma_settling();
            b6.lemma_facts();
            tx.batch.lemma_facts();
            if tx.roomy() && batch.next() <= 3 * (tx.batch.next() + 26) + 1 {
                lemma_room(b6, tx.batch.next());
            }
        }
    }
    let r = b.commit_at(now);
    proof {
        if good && r is Err {
            lemma_left_alone_store(tx.base(), b6, *final(b6.pager));
        }
        if good && r is Ok {
            lemma_tx_done(
                tx,
                b6,
                *final(b6.pager),
                now,
                page,
                info,
                contents(b6.pages(), b6.size(), refs_root),
            );
        }
    }
    r
}

/// Everything in place for the roots to be set.
pub open spec fn finishing<'db, S: Storage>(
    tx: WriteTx<'db, S>,
    b: WriteBatch<'db, S>,
    root: PageId,
    catalog_root: PageId,
    page: PageId,
    refs_root: PageId,
    now: u64,
    info: CommitInfo,
) -> bool {
    &&& tx.wf()
    &&& tx.sound()
    &&& committing(tx, b, page, info)
    &&& b.meta().txid < u64::MAX
    &&& page >= 2
    &&& root == tx.root()
    &&& catalog_root == tx.catalog_root()
    &&& info == (CommitInfo {
        commit_id: (b.meta().txid + 1) as u64,
        parent_id: tx.parent().head_id,
        data_root: tx.root(),
        catalog_root: tx.catalog_root(),
        parent_page: tx.parent().head_page,
        unix_ts_ms: now,
    })
    &&& editable(b, refs_root)
    &&& (refs_root == NIL_PAGE <==> tx.base().meta().refs_root == NIL_PAGE)
    &&& refs_root != NIL_PAGE ==> contents(b.pages(), b.size(), refs_root) == refs_map(
        tx.base(),
    ).insert(
        branch_at(tx.branch()),
        (BranchRef {
            head_id: info.commit_id,
            head_page: page,
            floor_id: tx.parent().floor_id,
        }).stored(),
    )
}

/// Room for a commit, from room at its start.
proof fn lemma_room<'p, S: Storage>(b: WriteBatch<'p, S>, n: PageId)
    requires
        b.next() <= 3 * (n + 26) + 1,
        b.settling() <= n,
        4 * n + 100 < MAX_PAGES,
        (4 * n + 100) * b.size() <= usize::MAX,
        b.meta().txid < u64::MAX,
    ensures
        b.roomy(),
{
    let a = b.next() + b.settling();
    let c = 4 * n + 100;
    let s = b.size() as int;
    assert(a * s <= c * s) by (nonlinear_arith)
        requires
            a <= c,
            s >= 0,
    ;
}

/// The root of a sound tree is a page of the file.
proof fn lemma_root_in<'p, S: Storage>(b: WriteBatch<'p, S>, root: PageId)
    requires
        b.wf(),
        editable(b, root),
    ensures
        crate::meta::root_in(root, b.next()),
{
    b.lemma_facts();
    if root != NIL_PAGE {
        let t = tree_of(b.pages(), b.size(), root)->0;
        assert(tree_at(b.pages(), b.size(), root, t));
        assert(b.pages().contains_key(t.root()));
    }
}

/// The key of an existing branch fits the page size.
proof fn lemma_branch_key_ok<S: Storage>(p: Pager<S>, name: Seq<char>)
    requires
        store_ok(p),
        p.meta().refs_root != NIL_PAGE,
        branch_of(p, name) is Some,
    ensures
        0 < branch_at(name).len() <= crate::tree::max_key(p.size()),
{
    let root = p.meta().refs_root;
    let t = tree_of(p.pages(), p.size(), root)->0;
    assert(tree_at(p.pages(), p.size(), root, t));
    assert(t.find(branch_at(name)) is Some);
    crate::tree::lemma_find_key_len(t, p.size(), None, None, branch_at(name));
}

// ---------------------------------------------------------------------
// branch operations
// ---------------------------------------------------------------------

/// How long plain text is as part of a key.
proof fn lemma_plain_text(s: Seq<char>)
    requires
        forall|i: int| 0 <= i < s.len() ==> 1 <= (#[trigger] s[i]) as u32 && (s[i] as u32) < 128,
    ensures
        encode_utf8(s).len() == s.len(),
        crate::encoding::escaped(encode_utf8(s)).len() == s.len() + 1,
        crate::encoding::enc(Val::Text(s)).len() == s.len() + 2,
    decreases s.len(),
{
    let u = encode_utf8(s);
    if s.len() > 0 {
        let t = s.drop_first();
        assert forall|i: int| 0 <= i < t.len() implies 1 <= (#[trigger] t[i]) as u32 && (t[i] as u32)
            < 128 by {
            assert(t[i] == s[i + 1]);
        }
        lemma_plain_text(t);
        let x = s[0] as u32;
        let c = x as u8;
        assert(vstd::utf8::encode_scalar(x) == seq![c]) by {
            assert((x & 0x7F) as u8 == x as u8 && 1 <= x as u8) by (bit_vector)
                requires
                    1 <= x < 128,
            ;
        }
        assert(u == seq![c] + encode_utf8(t));
        assert(u.skip(1) =~= encode_utf8(t));
        assert(u[0] == c);
        assert(c != 0) by (bit_vector)
            requires
                1 <= x < 128,
                c == x as u8,
        ;
    }
}

/// The keys of the refs tree fit every page size, for short names.
proof fn lemma_ref_key_lens(name: Seq<char>)
    requires
        name_ok(name),
    ensures
        branch_at(name).len() == name.len() + 10,
        head_at().len() == 6,
        encode_utf8(name).len() == name.len(),
{
    reveal_strlit("branch");
    reveal_strlit("head");
    let b = Val::Text("branch"@);
    let n = Val::Text(name);
    let h = Val::Text("head"@);
    lemma_plain_text("branch"@);
    lemma_plain_text("head"@);
    lemma_plain_text(name);
    assert(enc_key(Seq::<Val>::empty()) =~= Seq::empty());
    assert(seq![h].skip(1) =~= Seq::empty());
    assert(seq![b, n].skip(1) =~= seq![n]);
    assert(seq![n].skip(1) =~= Seq::empty());
    assert(enc_key(seq![n]).len() == name.len() + 2);
}

proof fn lemma_main_ok()
    ensures
        name_ok("main"@),
{
    reveal_strlit("main");
}

/// Room for a change of refs.
pub open spec fn roomy_refs<S: Storage>(p: Pager<S>) -> bool {
    &&& 30 * p.meta().page_count + 10000 < MAX_PAGES
    &&& (30 * p.meta().page_count + 10000) * p.size() <= usize::MAX
    &&& p.meta().txid < u64::MAX
}

/// The refs tree inside a batch, seeded with the implicit branch and the
/// head pointer on first use. Returns the working refs root for further
/// writes in the same batch.
#[verifier::spinoff_prover]
#[verifier::rlimit(60)]
fn materialize_refs<'p, S: Storage>(batch: &mut WriteBatch<'p, S>, current: &str) -> (r: Result<
    PageId,
>)
    requires
        old(batch).wf(),
        old(batch).under().meta() == old(batch).meta(),
    ensures
        extends(*old(batch), *final(batch)),
        final(batch).next() <= 9 * old(batch).next() + 12 * current@.len() + 300,
        old(batch).meta().refs_root != NIL_PAGE ==> *final(batch) == *old(batch),
        *final(final(batch).pager) == *final(old(batch).pager),
        store_ok(old(batch).under()) && steady(old(batch).under(), *old(batch)) && branch_of(
            old(batch).under(),
            current@,
        ) is Some ==> match r {
            Ok(root) => {
                &&& root != NIL_PAGE
                &&& editable(*final(batch), root)
                &&& contents(final(batch).pages(), final(batch).size(), root)
                    == crate::store::refs_seen(old(batch).under())
            },
            Err(_) => !old(batch).reliable() || final(batch).next() >= MAX_PAGES,
        },
{
    let base = batch.base_meta();
    let ghost p = batch.under();
    let ghost b0 = *batch;
    let ghost good = store_ok(p) && steady(p, b0) && branch_of(p, current@) is Some;
    proof {
        b0.lemma_facts();
        lemma_extends_self(b0);
        lemma_utf8_len(current@);
    }
    if base.refs_root != NIL_PAGE {
        proof {
            if good {
                lemma_steady_tree(p, b0, base.refs_root);
            }
        }
        return Ok(base.refs_root);
    }
    let implied = BranchRef { head_id: base.txid, head_page: base.commit_page, floor_id: 0 };
    let key = refs::branch_key(DEFAULT_BRANCH);
    let stored = implied.encode();
    proof {
        lemma_main_ok();
        reveal_strlit("main");
        lemma_ref_key_lens("main"@);
        assert(DEFAULT_BRANCH@ == "main"@);
        crate::store::lemma_empty_tree(b0.pages(), b0.size());
    }
    let root: PageId = match btree::put(batch, NIL_PAGE, key.as_slice(), stored.as_slice()) {
        Ok(r) => r,
        Err(e) => {
            return Err(e);
        },
    };
    let ghost b1 = *batch;
    proof {
        if good {
            crate::store::lemma_edited(b0, b1, NIL_PAGE, root);
            crate::store::lemma_set_map(
                tree_of(b0.pages(), b0.size(), NIL_PAGE),
                tree_of(b1.pages(), b0.size(), root),
                key@,
                Some(stored@),
            );
        }
    }
    let key = refs::head_key();
    let name = text_bytes(current);
    let next: PageId = match btree::put(batch, root, key.as_slice(), name.as_slice()) {
        Ok(r) => r,
        Err(e) => {
            proof {
                lemma_extends_trans(b0, b1, *batch);
            }
            return Err(e);
        },
    };
    proof {
        lemma_extends_trans(b0, b1, *batch);
        if good {
            crate::store::lemma_edited(b1, *batch, root, next);
            crate::store::lemma_set_map(
                tree_of(b1.pages(), b1.size(), root),
                tree_of(batch.pages(), b1.size(), next),
                key@,
                Some(name@),
            );
            assert(current@ == "main"@);
        }
    }
    Ok(next)
}

/// A character takes at most four bytes.
proof fn lemma_utf8_len(s: Seq<char>)
    ensures
        encode_utf8(s).len() <= 4 * s.len(),
    decreases s.len(),
{
    if s.len() > 0 {
        lemma_utf8_len(s.drop_first());
    }
}

/// Commit a batch that changed nothing but the refs.
fn commit_refs<'p, S: Storage>(
    batch: WriteBatch<'p, S>,
    root: PageId,
    Ghost(m): Ghost<Bytes>,
) -> (r: Result<()>)
    requires
        batch.wf(),
    ensures
        final(batch.pager).wf(),
        final(batch.pager).reliable() == batch.reliable(),
        r is Err ==> final(batch.pager).meta() == batch.meta(),
        r is Ok ==> final(batch.pager).settled() && (batch.under().anchored() ==> final(
            batch.pager).anchored()),
        crate::store::refs_ready(batch.under(), batch, root, m) ==> match r {
            Ok(_) => crate::store::refs_done(batch.under(), *final(batch.pager), m),
            Err(_) => same_store(batch.under(), *final(batch.pager)) && (!batch.reliable()
                || !room_for(batch)),
        },
{
    let mut b = batch;
    let ghost p = batch.under();
    let ghost good = crate::store::refs_ready(p, batch, root, m);
    let ghost b0 = b;
    b.set_refs_root(root);
    let now: u64 = crate::pager::now_ms();
    let ghost b1 = b;
    proof {
        b0.lemma_facts();
        if good {
            lemma_only_roots(p, b0, b1);
            p.lemma_facts();
            lemma_root_in(b1, root);
            b1.lemma_settling();
            b1.lemma_facts();
            if room_for(batch) {
                lemma_room_for(b1);
            }
        }
    }
    match b.commit_at(now) {
        Ok(_) => {
            proof {
                if good {
                    crate::store::lemma_refs_done(p, b1, *final(b1.pager), now, m);
                }
            }
            Ok(())
        },
        Err(e) => {
            proof {
                if good {
                    lemma_left_alone_store(p, b1, *final(b1.pager));
                }
            }
            Err(e)
        },
    }
}

/// Room for the commit of a batch, whatever its free list.
pub open spec fn room_for<'p, S: Storage>(b: WriteBatch<'p, S>) -> bool {
    &&& b.next() + b.meta().page_count < MAX_PAGES
    &&& (b.next() + b.meta().page_count) * b.size() <= usize::MAX
    &&& b.meta().txid < u64::MAX
}

proof fn lemma_room_for<'p, S: Storage>(b: WriteBatch<'p, S>)
    requires
        room_for(b),
        b.settling() <= b.meta().page_count,
    ensures
        b.roomy(),
{
    let a = b.next() + b.settling();
    let c = b.next() + b.meta().page_count;
    let s = b.size() as int;
    assert(a * s <= c * s) by (nonlinear_arith)
        requires
            a <= c,
            s >= 0,
    ;
}

/// A batch that has just begun.
proof fn lemma_just_begun<'p, S: Storage>(p: Pager<S>, b: WriteBatch<'p, S>)
    requires
        p.wf(),
        p.free_ok(),
        b.wf(),
        b.under() == p,
        b.free_ok(),
        forall|x: PageId| !#[trigger] b.own(x),
        forall|x: PageId| #[trigger] b.spare(x) ==> x >= p.meta().page_count || p.free(x),
    ensures
        steady(p, b),
{
    p.lemma_facts();
}

/// The file names the branch the database is on.
proof fn lemma_on<S: Storage>(db: Db<S>)
    requires
        db.sound(),
    ensures
        refs_sane(crate::store::refs_seen(db.store())),
        decode_utf8(crate::store::refs_seen(db.store())[head_at()]) == db.on(),
        forall|n: Seq<char>| #[trigger]
            db.branch(n) == ref_in(crate::store::refs_seen(db.store()), n),
        db.store().meta().refs_root == NIL_PAGE ==> db.on() == "main"@,
{
    crate::store::lemma_refs_seen(db.store());
    vstd::utf8::encode_utf8_decode_utf8("main"@);
}

/// A changed map of refs, once committed, is what the branches are.
proof fn lemma_refs_sound<S: Storage>(old_db: Db<S>, new_db: Db<S>, m: Bytes)
    requires
        old_db.sound(),
        crate::store::refs_done(old_db.store(), new_db.store(), m),
        new_db.on() == decode_utf8(m[head_at()]),
        refs_sane(m),
    ensures
        new_db.sound(),
        forall|n: Seq<char>| #[trigger] new_db.branch(n) == ref_in(m, n),
{
}

/// What a batch that just materialized the refs is ready for.
proof fn lemma_refs_in_place<'p, S: Storage>(
    p: Pager<S>,
    a: WriteBatch<'p, S>,
    b: WriteBatch<'p, S>,
)
    requires
        store_ok(p),
        steady(p, a),
        extends(a, b),
        a.chosen_free() is None,
        a.data() == p.meta().data_root,
        a.catalog() == p.meta().catalog_root,
        a.commit_at_page() == p.meta().commit_page,
    ensures
        steady(p, b),
        b.chosen_free() is None,
        b.data() == p.meta().data_root,
        b.catalog() == p.meta().catalog_root,
        b.commit_at_page() == p.meta().commit_page,
        b.meta() == a.meta(),
        b.size() == a.size(),
{
    lemma_steady_extends(p, a, b);
}

/// Room for the commit of a change of refs.
proof fn lemma_refs_room<'p, S: Storage>(p: Pager<S>, b: WriteBatch<'p, S>)
    requires
        roomy_refs(p),
        b.meta() == p.meta(),
        b.size() == p.size(),
        b.next() <= 29 * p.meta().page_count + 9000,
    ensures
        room_for(b),
{
    let a = b.next() + b.meta().page_count;
    let c = 30 * p.meta().page_count + 10000;
    let s = b.size() as int;
    assert(a * s <= c * s) by (nonlinear_arith)
        requires
            a <= c,
            s >= 0,
    ;
}

/// A branch that starts at an older commit of another can be read.
proof fn lemma_readable_suffix<S: Storage>(p: Pager<S>, r: BranchRef, i: int)
    requires
        readable(p, r),
        0 <= i < records(p, r).len(),
    ensures
        readable(
            p,
            BranchRef {
                head_id: records(p, r)[i].1.commit_id,
                head_page: records(p, r)[i].0,
                floor_id: r.floor_id,
            },
        ),
{
    let h = records(p, r);
    let q = BranchRef { head_id: h[i].1.commit_id, head_page: h[i].0, floor_id: r.floor_id };
    commit::lemma_chain_suffix(p.pages(), r, h, i);
    lemma_chain_unique(p.pages(), q, h.skip(i));
    assert forall|j: int| 0 <= j < h.skip(i).len() implies record_ok(p, #[trigger] h.skip(i)[j]) by {
        assert(record_ok(p, h[i + j]));
    }
}

/// A branch with a higher floor can be read, as far as it goes.
proof fn lemma_readable_floor<S: Storage>(p: Pager<S>, r: BranchRef, floor: u64)
    requires
        readable(p, r),
        r.floor_id <= floor <= p.meta().txid,
    ensures
        readable(p, BranchRef { floor_id: floor, ..r }),
        records(p, BranchRef { floor_id: floor, ..r }) == records(p, r).take(
            above_floor(records(p, r), floor),
        ),
{
    let h = records(p, r);
    let q = BranchRef { floor_id: floor, ..r };
    commit::lemma_chain_higher_floor(p.pages(), r, h, floor);
    let g = h.take(above_floor(h, floor));
    lemma_chain_unique(p.pages(), q, g);
    assert forall|j: int| 0 <= j < g.len() implies record_ok(p, #[trigger] g[j]) by {
        assert(record_ok(p, h[j]));
    }
}

/// A branch at the empty state can always be read.
proof fn lemma_readable_empty<S: Storage>(p: Pager<S>)
    ensures
        readable(p, BranchRef { head_id: 0, head_page: NIL_PAGE, floor_id: 0 }),
{
    let r = BranchRef { head_id: 0, head_page: NIL_PAGE, floor_id: 0 };
    let h: Seq<Rec> = Seq::empty();
    assert(chain_of(p.pages(), r, h));
    lemma_chain_unique(p.pages(), r, h);
}

/// Where a new branch starts: the current head, the empty state, or a
/// retained commit.
pub open spec fn starts_at<S: Storage>(db: Db<S>, at: Option<u64>, t: BranchRef) -> bool {
    match at {
        None => t == db.head(),
        Some(id) => {
            &&& t.head_id == id
            &&& id == 0 ==> t == (BranchRef { head_id: 0, head_page: NIL_PAGE, floor_id: 0 })
            &&& id != 0 ==> exists|name: Seq<char>, i: int, info: CommitInfo|
                #[trigger] retained_at(db.store(), name, i, (t.head_page, info)) && info.commit_id
                    == id && db.branch(name)->0.floor_id == t.floor_id
        },
    }
}

/// A name whose key does not fit a page of this size.
pub open spec fn name_too_long(name: Seq<char>, ps: u32) -> bool {
    branch_at(name).len() > crate::tree::max_key(ps)
}

impl<S: Storage> Db<S> {
    /// Where a new branch would start.
    fn branch_start(&self, at: Option<u64>) -> (r: Result<BranchRef>)
        requires
            self.wf(),
        ensures
            self.sound() ==> match r {
                Ok(t) => starts_at(*self, at, t) && readable(self.store(), t),
                Err(e) => !self.reliable() || (e is InvalidArgument && (at matches Some(id) && id != 0
                    && !retains_id(self.store(), id))),
            },
    {
        match at {
            None => {
                let r = branch_head(&self.pager, self.current.as_str());
                proof {
                    if self.sound() {
                        assert(branch_ok(self.pager, self.head()));
                    }
                }
                r
            },
            Some(id) => {
                if id == 0 {
                    proof {
                        lemma_readable_empty(self.pager);
                    }
                    return Ok(BranchRef { head_id: 0, head_page: NIL_PAGE, floor_id: 0 });
                }
                match find_commit(&self.pager, id) {
                    Ok(found) => {
                        let t = BranchRef {
                            head_id: id,
                            head_page: found.page,
                            floor_id: found.floor,
                        };
                        proof {
                            if self.sound() {
                                let c = (found.page, found.info);
                                let (name, i) = choose|name: Seq<char>, i: int|
                                    #[trigger] retained_at(self.pager, name, i, c) && branch_of(
                                        self.pager,
                                        name,
                                    )->0.floor_id == found.floor;
                                let r = branch_of(self.pager, name)->0;
                                assert(branch_ok(self.pager, r));
                                lemma_readable_suffix(self.pager, r, i);
                                assert(retained_at(self.store(), name, i, (t.head_page, found.info)));
                            }
                        }
                        Ok(t)
                    },
                    Err(e) => Err(e),
                }
            },
        }
    }

    /// Create a branch pointing at commit `at`, or at the current branch
    /// head. The new branch is not switched to.
    #[verifier::spinoff_prover]
    #[verifier::rlimit(60)]
    pub fn create_branch(&mut self, name: &str, at: Option<u64>) -> (r: Result<()>)
        requires
            old(self).wf(),
        ensures
            final(self).wf(),
            final(self).on() == old(self).on(),
            r is Ok ==> durable_after(old(self).store(), final(self).store()),
            final(self).reliable() == old(self).reliable(),
            old(self).sound() && r is Err ==> same_store(old(self).store(), final(self).store()),
            old(self).sound() ==> match r {
                Ok(_) => {
                    &&& final(self).sound()
                    &&& name_ok(name@)
                    &&& old(self).branch(name@) is None
                    &&& final(self).branch(name@) matches Some(t) && starts_at(*old(self), at, t)
                    &&& forall|n: Seq<char>|
                        n != name@ ==> #[trigger] final(self).branch(n) == old(self).branch(n)
                    &&& past_kept(old(self).store(), final(self).store())
                },
                Err(e) => {
                    ||| !old(self).reliable()
                    ||| !roomy_refs(old(self).store())
                    ||| final(self).store() == old(self).store() && e is InvalidArgument && {
                        ||| !name_ok(name@)
                        ||| old(self).branch(name@) is Some
                        ||| at matches Some(id) && id != 0 && !retains_id(old(self).store(), id)
                        ||| name_too_long(name@, old(self).store().size())
                    }
                },
            },
    {
        proof {
            if self.sound() {
                lemma_same_store(self.pager, self.pager);
            }
        }
        if let Err(e) = refs::validate_name(name) {
            return Err(e);
        }
        let target = match self.branch_start(at) {
            Ok(t) => t,
            Err(e) => {
                return Err(e);
            },
        };
        let current = owned(self.current.as_str());
        let ghost before = *self;
        let ghost p = self.pager;
        let ghost good = self.sound();
        let mut batch = self.pager.begin();
        let ghost b0 = batch;
        proof {
            b0.lemma_facts();
            if good {
                lemma_just_begun(p, b0);
                lemma_on(before);
                reveal_strlit("main");
            }
        }
        let root: PageId = match materialize_refs(&mut batch, current.as_str()) {
            Ok(r) => r,
            Err(e) => {
                proof {
                    batch.lemma_facts();
                }
                return Err(e);
            },
        };
        let ghost b1 = batch;
        let ghost m = crate::store::refs_seen(p);
        proof {
            b1.lemma_facts();
            if good {
                lemma_refs_in_place(p, b0, b1);
            }
        }
        let key = refs::branch_key(name);
        let found = match read_at(&batch, root, key.as_slice()) {
            Ok(f) => f,
            Err(e) => {
                return Err(e);
            },
        };
        if found.is_some() {
            proof {
                if good {
                    assert(m.contains_key(key@));
                    refs::law_branch_keys_are_distinct(name@, name@);
                    assert(before.branch(name@) == ref_in(m, name@));
                }
            }
            return Err(Error::InvalidArgument("a branch with this name already exists"));
        }
        let stored = target.encode();
        let root2: PageId = match btree::put(&mut batch, root, key.as_slice(), stored.as_slice()) {
            Ok(r) => r,
            Err(e) => {
                proof {
                    batch.lemma_facts();
                    if good {
                        lemma_refs_in_place(p, b1, batch);
                    }
                }
                return Err(e);
            },
        };
        let ghost b2 = batch;
        let ghost m2 = m.insert(branch_at(name@), target.stored());
        proof {
            b2.lemma_facts();
            if good {
                lemma_refs_in_place(p, b1, b2);
                lemma_refs_put(p, b1, b2, root, root2, m, name@, target);
                if roomy_refs(p) {
                    lemma_refs_room(p, b2);
                }
                assert(before.branch(name@) == ref_in(m, name@));
            }
        }
        match commit_refs(batch, root2, Ghost(m2)) {
            Ok(_) => {
                proof {
                    if good {
                        lemma_ref_set(m, name@, target);
                        refs::law_branch_keys_are_distinct(name@, name@);
                        lemma_refs_sound(before, *self, m2);
                        assert forall|n: Seq<char>| n != name@ implies #[trigger] self.branch(n)
                            == before.branch(n) by {
                            assert(before.branch(n) == ref_in(m, n));
                            assert(ref_in(m2, n) == ref_in(m, n));
                        }
                    }
                }
                Ok(())
            },
            Err(e) => Err(e),
        }
    }
}

/// A branch set in the working refs: ready to be committed.
proof fn lemma_refs_put<'p, S: Storage>(
    p: Pager<S>,
    a: WriteBatch<'p, S>,
    b: WriteBatch<'p, S>,
    root: PageId,
    next: PageId,
    m: Bytes,
    name: Seq<char>,
    r: BranchRef,
)
    requires
        store_ok(p),
        steady(p, a),
        steady(p, b),
        extends(a, b),
        b.chosen_free() is None,
        b.data() == p.meta().data_root,
        b.catalog() == p.meta().catalog_root,
        b.commit_at_page() == p.meta().commit_page,
        editable(a, root),
        contents(a.pages(), a.size(), root) == m,
        m == crate::store::refs_seen(p),
        next != NIL_PAGE,
        edited(a, b, root, next),
        finds_set(
            tree_of(a.pages(), a.size(), root),
            tree_of(b.pages(), a.size(), next),
            branch_at(name),
            Some(r.stored()),
        ),
        readable(p, r),
    ensures
        crate::store::refs_ready(p, b, next, m.insert(branch_at(name), r.stored())),
        refs_sane(m.insert(branch_at(name), r.stored())),
{
    let m2 = m.insert(branch_at(name), r.stored());
    crate::store::lemma_refs_seen(p);
    crate::store::lemma_edited(a, b, root, next);
    crate::store::lemma_set_map(
        tree_of(a.pages(), a.size(), root),
        tree_of(b.pages(), a.size(), next),
        branch_at(name),
        Some(r.stored()),
    );
    crate::store::lemma_sane_set(m, name, r);
    lemma_ref_set(m, name, r);
    assert forall|n: Seq<char>| (#[trigger] ref_in(m2, n)) matches Some(s) implies readable(
        p,
        ref_in(m2, n)->0,
    ) by {
        if let Some(s) = ref_in(m2, n) {
            if n != name {
                assert(branch_of(p, n) == ref_in(m, n));
                assert(branch_ok(p, s));
            }
        }
    }
}

/// The working refs edited to `m2`: ready to be committed.
proof fn lemma_refs_edit<'p, S: Storage>(
    p: Pager<S>,
    a: WriteBatch<'p, S>,
    b: WriteBatch<'p, S>,
    root: PageId,
    next: PageId,
    key: Seq<u8>,
    value: Option<Seq<u8>>,
    m2: Bytes,
)
    requires
        store_ok(p),
        steady(p, a),
        steady(p, b),
        extends(a, b),
        b.chosen_free() is None,
        b.data() == p.meta().data_root,
        b.catalog() == p.meta().catalog_root,
        b.commit_at_page() == p.meta().commit_page,
        editable(a, root),
        contents(a.pages(), a.size(), root) == crate::store::refs_seen(p),
        edited(a, b, root, next),
        finds_set(
            tree_of(a.pages(), a.size(), root),
            tree_of(b.pages(), a.size(), next),
            key,
            value,
        ),
        m2 == (match value {
            Some(v) => crate::store::refs_seen(p).insert(key, v),
            None => crate::store::refs_seen(p).remove(key),
        }),
        refs_sane(m2),
        forall|n: Seq<char>|
            (#[trigger] ref_in(m2, n)) matches Some(s) ==> ref_in(crate::store::refs_seen(p), n)
                == Some(s),
    ensures
        crate::store::refs_ready(p, b, next, m2),
{
    let m = crate::store::refs_seen(p);
    crate::store::lemma_refs_seen(p);
    crate::store::lemma_edited(a, b, root, next);
    crate::store::lemma_set_map(
        tree_of(a.pages(), a.size(), root),
        tree_of(b.pages(), a.size(), next),
        key,
        value,
    );
    assert(contents(b.pages(), b.size(), next) == m2);
    if next == NIL_PAGE {
        crate::store::lemma_empty_tree(b.pages(), b.size());
        assert(m2.contains_key(head_at()));
    }
    assert forall|n: Seq<char>| (#[trigger] ref_in(m2, n)) matches Some(s) implies readable(
        p,
        ref_in(m2, n)->0,
    ) by {
        if let Some(s) = ref_in(m2, n) {
            assert(branch_of(p, n) == ref_in(m, n));
            assert(branch_ok(p, s));
        }
    }
}

impl<S: Storage> Db<S> {
    /// Make `name` the branch new transactions commit to.
    #[verifier::spinoff_prover]
    #[verifier::rlimit(60)]
    pub fn switch_branch(&mut self, name: &str) -> (r: Result<()>)
        requires
            old(self).wf(),
        ensures
            final(self).wf(),
            r is Ok ==> durable_after(old(self).store(), final(self).store()),
            final(self).reliable() == old(self).reliable(),
            r is Err ==> final(self).on() == old(self).on(),
            old(self).sound() && r is Err ==> same_store(old(self).store(), final(self).store()),
            old(self).sound() ==> match r {
                Ok(_) => {
                    &&& final(self).sound()
                    &&& final(self).on() == name@
                    &&& name_ok(name@)
                    &&& old(self).branch(name@) is Some
                    &&& forall|n: Seq<char>| #[trigger] final(self).branch(n) == old(self).branch(n)
                    &&& past_kept(old(self).store(), final(self).store())
                },
                Err(e) => {
                    ||| !old(self).reliable()
                    ||| !roomy_refs(old(self).store())
                    ||| final(self).store() == old(self).store() && e is InvalidArgument && (!name_ok(
                        name@,
                    ) || old(self).branch(name@) is None)
                },
            },
    {
        proof {
            if self.sound() {
                lemma_same_store(self.pager, self.pager);
            }
        }
        if let Err(e) = refs::validate_name(name) {
            return Err(e);
        }
        let current = owned(self.current.as_str());
        let ghost before = *self;
        let ghost p = self.pager;
        let ghost good = self.sound();
        let mut batch = self.pager.begin();
        let ghost b0 = batch;
        proof {
            b0.lemma_facts();
            lemma_ref_key_lens(name@);
            if good {
                lemma_just_begun(p, b0);
                lemma_on(before);
                reveal_strlit("main");
            }
        }
        let root: PageId = match materialize_refs(&mut batch, current.as_str()) {
            Ok(r) => r,
            Err(e) => {
                proof {
                    batch.lemma_facts();
                }
                return Err(e);
            },
        };
        let ghost b1 = batch;
        let ghost m = crate::store::refs_seen(p);
        proof {
            b1.lemma_facts();
            if good {
                lemma_refs_in_place(p, b0, b1);
            }
        }
        let key = refs::branch_key(name);
        let found = match read_at(&batch, root, key.as_slice()) {
            Ok(f) => f,
            Err(e) => {
                return Err(e);
            },
        };
        proof {
            if good {
                assert(before.branch(name@) == ref_in(m, name@));
                refs::law_branch_keys_are_distinct(name@, name@);
            }
        }
        if found.is_none() {
            return Err(Error::InvalidArgument("no branch with this name"));
        }
        let head = refs::head_key();
        let stored = text_bytes(name);
        let root2: PageId = match btree::put(&mut batch, root, head.as_slice(), stored.as_slice()) {
            Ok(r) => r,
            Err(e) => {
                proof {
                    batch.lemma_facts();
                    if good {
                        lemma_refs_in_place(p, b1, batch);
                    }
                }
                return Err(e);
            },
        };
        let ghost b2 = batch;
        let ghost m2 = m.insert(head_at(), stored@);
        proof {
            b2.lemma_facts();
            if good {
                lemma_refs_in_place(p, b1, b2);
                crate::store::lemma_sane_head(m, name@);
                crate::store::lemma_head_set(m, stored@);
                assert forall|n: Seq<char>| (#[trigger] ref_in(m2, n)) matches Some(s) implies ref_in(
                    m,
                    n,
                ) == ref_in(m2, n) by {
                    assert(ref_in(m.insert(head_at(), stored@), n) == ref_in(m, n));
                }
                lemma_refs_edit(p, b1, b2, root, root2, head_at(), Some(stored@), m2);
                if roomy_refs(p) {
                    lemma_refs_room(p, b2);
                }
            }
        }
        match commit_refs(batch, root2, Ghost(m2)) {
            Ok(_) => {
                self.current = owned(name);
                proof {
                    if good {
                        vstd::utf8::encode_utf8_decode_utf8(name@);
                        lemma_refs_sound(before, *self, m2);
                        assert forall|n: Seq<char>| #[trigger] self.branch(n) == before.branch(n) by {
                            assert(before.branch(n) == ref_in(m, n));
                            assert(ref_in(m.insert(head_at(), stored@), n) == ref_in(m, n));
                        }
                    }
                }
                Ok(())
            },
            Err(e) => Err(e),
        }
    }

    /// Delete a branch pointer. Its exclusive commits become unreachable
    /// and are reclaimed by the next garbage collection.
    #[verifier::spinoff_prover]
    #[verifier::rlimit(60)]
    pub fn drop_branch(&mut self, name: &str) -> (r: Result<()>)
        requires
            old(self).wf(),
        ensures
            final(self).wf(),
            final(self).on() == old(self).on(),
            r is Ok ==> durable_after(old(self).store(), final(self).store()),
            final(self).reliable() == old(self).reliable(),
            old(self).sound() && r is Err ==> same_store(old(self).store(), final(self).store()),
            old(self).sound() ==> match r {
                Ok(_) => {
                    &&& final(self).sound()
                    &&& name@ != old(self).on()
                    &&& old(self).branch(name@) is Some
                    &&& final(self).branch(name@) is None
                    &&& forall|n: Seq<char>|
                        n != name@ ==> #[trigger] final(self).branch(n) == old(self).branch(n)
                    &&& past_kept(old(self).store(), final(self).store())
                },
                Err(e) => {
                    ||| !old(self).reliable()
                    ||| !roomy_refs(old(self).store())
                    ||| final(self).store() == old(self).store() && e is InvalidArgument && (name@
                        == old(self).on() || old(self).branch(name@) is None)
                },
            },
    {
        proof {
            if self.sound() {
                lemma_same_store(self.pager, self.pager);
            }
        }
        if same_text(name, self.current.as_str()) {
            return Err(Error::InvalidArgument("cannot drop the current branch"));
        }
        let current = owned(self.current.as_str());
        let ghost before = *self;
        let ghost p = self.pager;
        let ghost good = self.sound();
        let mut batch = self.pager.begin();
        let ghost b0 = batch;
        proof {
            b0.lemma_facts();
            if good {
                lemma_just_begun(p, b0);
                lemma_on(before);
                reveal_strlit("main");
            }
        }
        let root: PageId = match materialize_refs(&mut batch, current.as_str()) {
            Ok(r) => r,
            Err(e) => {
                proof {
                    batch.lemma_facts();
                }
                return Err(e);
            },
        };
        let ghost b1 = batch;
        let ghost m = crate::store::refs_seen(p);
        proof {
            b1.lemma_facts();
            if good {
                lemma_refs_in_place(p, b0, b1);
                assert(before.branch(name@) == ref_in(m, name@));
                refs::law_branch_keys_are_distinct(name@, name@);
            }
        }
        let key = refs::branch_key(name);
        let (root2, existed) = match btree::remove(&mut batch, root, key.as_slice()) {
            Ok(r) => r,
            Err(e) => {
                proof {
                    batch.lemma_facts();
                    if good {
                        lemma_refs_in_place(p, b1, batch);
                    }
                }
                return Err(e);
            },
        };
        let ghost b2 = batch;
        proof {
            b2.lemma_facts();
        }
        if !existed {
            return Err(Error::InvalidArgument("no branch with this name"));
        }
        let ghost m2 = m.remove(branch_at(name@));
        proof {
            if good {
                lemma_refs_in_place(p, b1, b2);
                crate::store::lemma_sane_remove(m, name@);
                crate::store::lemma_ref_removed(m, name@);
                assert forall|n: Seq<char>| (#[trigger] ref_in(m2, n)) matches Some(s) implies ref_in(
                    m,
                    n,
                ) == ref_in(m2, n) by {
                    assert(ref_in(m.remove(branch_at(name@)), n) == (if n == name@ {
                        None
                    } else {
                        ref_in(m, n)
                    }));
                }
                lemma_refs_edit(p, b1, b2, root, root2, branch_at(name@), None, m2);
                if roomy_refs(p) {
                    lemma_refs_room(p, b2);
                }
            }
        }
        match commit_refs(batch, root2, Ghost(m2)) {
            Ok(_) => {
                proof {
                    if good {
                        lemma_refs_sound(before, *self, m2);
                        assert forall|n: Seq<char>| n != name@ implies #[trigger] self.branch(n)
                            == before.branch(n) by {
                            assert(before.branch(n) == ref_in(m, n));
                            assert(ref_in(m.remove(branch_at(name@)), n) == ref_in(m, n));
                        }
                        assert(ref_in(m.remove(branch_at(name@)), name@) is None);
                    }
                }
                Ok(())
            },
            Err(e) => Err(e),
        }
    }

    /// Is `ancestor_id` on the parent chain of `head`, or equal to it?
    fn is_ancestor(&self, ancestor_id: u64, head: &BranchRef) -> (r: Result<bool>)
        requires
            self.wf(),
        ensures
            readable(self.store(), *head) ==> match r {
                Ok(yes) => yes == reaches(self.store(), *head, ancestor_id),
                Err(_) => !self.reliable(),
            },
    {
        if ancestor_id == 0 {
            return Ok(true);  // the empty state is everyone's ancestor
        }
        match commit::find(&self.pager, head, ancestor_id) {
            Ok(found) => {
                proof {
                    if readable(self.store(), *head) {
                        let h = records(self.store(), *head);
                        assert(chain_of(self.pager.pages(), *head, h));
                        if let Some(c) = found {
                            let i = choose|i: int| 0 <= i < h.len() && #[trigger] h[i] == c;
                            assert(h[i].1.commit_id == ancestor_id);
                        }
                    }
                }
                Ok(found.is_some())
            },
            Err(e) => Err(e),
        }
    }

    /// Fast-forward the current branch to the head of `from`. Errors when
    /// the branches have diverged; real merges need conflict handling and
    /// are out of scope until then.
    #[verifier::spinoff_prover]
    #[verifier::rlimit(60)]
    pub fn merge_ff(&mut self, from: &str) -> (r: Result<u64>)
        requires
            old(self).wf(),
        ensures
            final(self).wf(),
            final(self).on() == old(self).on(),
            r is Ok ==> durable_after(old(self).store(), final(self).store()),
            final(self).reliable() == old(self).reliable(),
            old(self).sound() && r is Err ==> same_store(old(self).store(), final(self).store()),
            old(self).sound() ==> match r {
                Ok(id) => {
                    &&& final(self).sound()
                    &&& from@ != old(self).on()
                    &&& old(self).branch(from@) matches Some(theirs) && {
                        &&& id == theirs.head_id
                        &&& final(self).head().head_id == theirs.head_id
                        &&& theirs.head_id == old(self).head().head_id ==> final(self).store()
                            == old(self).store()
                        &&& theirs.head_id != old(self).head().head_id ==> {
                            &&& reaches(old(self).store(), theirs, old(self).head().head_id)
                            &&& final(self).head() == forwarded(old(self).head(), theirs)
                        }
                    }
                    &&& forall|n: Seq<char>|
                        n != old(self).on() ==> #[trigger] final(self).branch(n) == old(self).branch(n)
                    &&& past_kept(old(self).store(), final(self).store())
                },
                Err(e) => {
                    ||| !old(self).reliable()
                    ||| !roomy_refs(old(self).store())
                    ||| final(self).store() == old(self).store() && e is InvalidArgument && {
                        ||| from@ == old(self).on()
                        ||| old(self).branch(from@) is None
                        ||| old(self).branch(from@) matches Some(theirs) && theirs.head_id
                            != old(self).head().head_id && !reaches(
                            old(self).store(),
                            theirs,
                            old(self).head().head_id,
                        )
                    }
                },
            },
    {
        proof {
            if self.sound() {
                lemma_same_store(self.pager, self.pager);
            }
        }
        if same_text(from, self.current.as_str()) {
            return Err(Error::InvalidArgument("cannot merge a branch into itself"));
        }
        let ours = match branch_head(&self.pager, self.current.as_str()) {
            Ok(r) => r,
            Err(e) => {
                return Err(e);
            },
        };
        let theirs = match branch_head(&self.pager, from) {
            Ok(r) => r,
            Err(e) => {
                return Err(e);
            },
        };
        let ghost before = *self;
        let ghost p = self.pager;
        let ghost good = self.sound();
        proof {
            if good {
                assert(branch_ok(p, ours));
                assert(branch_ok(p, theirs));
                assert(all_kept(p, p));
                lemma_past_kept(p, p);
            }
        }
        if ours.head_id == theirs.head_id {
            return Ok(ours.head_id);  // already up to date
        }
        match self.is_ancestor(ours.head_id, &theirs) {
            Err(e) => {
                return Err(e);
            },
            Ok(yes) => {
                if !yes {
                    return Err(
                        Error::InvalidArgument(
                            "branches have diverged; only fast-forward merges are supported for now",
                        ),
                    );
                }
            },
        }
        let updated = BranchRef {
            head_id: theirs.head_id,
            head_page: theirs.head_page,
            floor_id: if ours.floor_id > theirs.floor_id {
                ours.floor_id
            } else {
                theirs.floor_id
            },
        };
        let current = owned(self.current.as_str());
        let mut batch = self.pager.begin();
        let ghost b0 = batch;
        proof {
            b0.lemma_facts();
            if good {
                lemma_just_begun(p, b0);
                lemma_on(before);
                reveal_strlit("main");
                lemma_readable_floor(p, theirs, updated.floor_id);
            }
        }
        let root: PageId = match materialize_refs(&mut batch, current.as_str()) {
            Ok(r) => r,
            Err(e) => {
                proof {
                    batch.lemma_facts();
                }
                return Err(e);
            },
        };
        let ghost b1 = batch;
        let ghost m = crate::store::refs_seen(p);
        proof {
            b1.lemma_facts();
            if good {
                lemma_refs_in_place(p, b0, b1);
                if p.meta().refs_root == NIL_PAGE {
                    lemma_main_ok();
                    lemma_ref_key_lens("main"@);
                } else {
                    lemma_branch_key_ok(p, current@);
                }
            }
        }
        let key = refs::branch_key(current.as_str());
        let stored = updated.encode();
        let root2: PageId = match btree::put(&mut batch, root, key.as_slice(), stored.as_slice()) {
            Ok(r) => r,
            Err(e) => {
                proof {
                    batch.lemma_facts();
                    if good {
                        lemma_refs_in_place(p, b1, batch);
                    }
                }
                return Err(e);
            },
        };
        let ghost b2 = batch;
        let ghost m2 = m.insert(branch_at(current@), updated.stored());
        proof {
            b2.lemma_facts();
            if good {
                lemma_refs_in_place(p, b1, b2);
                lemma_refs_put(p, b1, b2, root, root2, m, current@, updated);
                if roomy_refs(p) {
                    lemma_refs_room(p, b2);
                }
            }
        }
        match commit_refs(batch, root2, Ghost(m2)) {
            Ok(_) => {
                proof {
                    if good {
                        lemma_ref_set(m, current@, updated);
                        refs::law_branch_keys_are_distinct(current@, current@);
                        lemma_refs_sound(before, *self, m2);
                        assert forall|n: Seq<char>| n != before.on() implies #[trigger] self.branch(n)
                            == before.branch(n) by {
                            assert(before.branch(n) == ref_in(m, n));
                            assert(ref_in(m2, n) == ref_in(m, n));
                        }
                    }
                }
                Ok(updated.head_id)
            },
            Err(e) => Err(e),
        }
    }
}

/// Whether a branch's history has a commit; the empty state is in every
/// history.
pub open spec fn reaches<S: Storage>(p: Pager<S>, r: BranchRef, id: u64) -> bool {
    id == 0 || exists|i: int|
        0 <= i < records(p, r).len() && (#[trigger] records(p, r)[i]).1.commit_id == id
}

/// A branch moved forward to where another is.
pub open spec fn forwarded(ours: BranchRef, theirs: BranchRef) -> BranchRef {
    BranchRef {
        head_id: theirs.head_id,
        head_page: theirs.head_page,
        floor_id: if ours.floor_id > theirs.floor_id {
            ours.floor_id
        } else {
            theirs.floor_id
        },
    }
}

// ---------------------------------------------------------------------
// garbage collection
// ---------------------------------------------------------------------

/// How many commits of a history a collection keeps.
pub open spec fn keep_count(len: int, retain: int) -> int {
    if retain < len {
        retain
    } else {
        len
    }
}

/// Whether one of the first `n` records uses page `x`.
pub open spec fn held_first<S: Storage>(p: Pager<S>, h: Seq<Rec>, n: int, x: PageId) -> bool {
    exists|i: int| 0 <= i < n && uses(p.pages(), p.size(), #[trigger] h[i], x)
}

/// Whether a commit that a collection keeps of this branch uses page `x`.
pub open spec fn held<S: Storage>(p: Pager<S>, r: BranchRef, retain: int, x: PageId) -> bool {
    held_first(p, records(p, r), keep_count(records(p, r).len() as int, retain), x)
}

/// Whether a commit that a collection keeps of one of the first `n`
/// branches uses page `x`.
pub open spec fn held_by<S: Storage>(
    p: Pager<S>,
    v: Seq<(String, BranchRef)>,
    n: int,
    retain: int,
    x: PageId,
) -> bool {
    exists|k: int| 0 <= k < n && held(p, (#[trigger] v[k]).1, retain, x)
}

/// A branch after a collection: where commits were pruned, the floor is the
/// oldest commit kept.
pub open spec fn collected<S: Storage>(p: Pager<S>, r: BranchRef, retain: int) -> BranchRef {
    let h = records(p, r);
    if keep_count(h.len() as int, retain) == h.len() {
        r
    } else {
        BranchRef { floor_id: h[keep_count(h.len() as int, retain) - 1].1.commit_id, ..r }
    }
}

/// Whether one of the first `n` records stands on page `x`.
pub open spec fn among(h: Seq<Rec>, n: int, x: PageId) -> bool {
    exists|i: int| 0 <= i < n && (#[trigger] h[i]).0 == x
}

/// Whether page `x` holds the record of a commit of one of the first `n`
/// branches.
pub open spec fn recorded<S: Storage>(
    p: Pager<S>,
    v: Seq<(String, BranchRef)>,
    n: int,
    x: PageId,
) -> bool {
    exists|k: int|
        0 <= k < n && among(
            records(p, (#[trigger] v[k]).1),
            records(p, v[k].1).len() as int,
            x,
        )
}

/// Whether page `x` holds the record of a commit that a collection keeps of
/// one of the first `n` branches.
pub open spec fn kept_record<S: Storage>(
    p: Pager<S>,
    v: Seq<(String, BranchRef)>,
    n: int,
    retain: int,
    x: PageId,
) -> bool {
    exists|k: int|
        0 <= k < n && among(
            records(p, (#[trigger] v[k]).1),
            keep_count(records(p, v[k].1).len() as int, retain),
            x,
        )
}

/// The commits a collection prunes, by the pages of their records: those of
/// some branch that no branch keeps.
pub open spec fn pruned_of<S: Storage>(p: Pager<S>, v: Seq<(String, BranchRef)>, retain: int) -> Set<
    PageId,
> {
    Set::new(
        |x: PageId|
            recorded(p, v, v.len() as int, x) && !kept_record(p, v, v.len() as int, retain, x),
    )
}

/// How many pages below `n` no kept commit uses.
pub open spec fn unheld<S: Storage>(
    p: Pager<S>,
    v: Seq<(String, BranchRef)>,
    retain: int,
    n: int,
) -> int
    decreases n,
{
    if n <= 2 {
        0
    } else {
        unheld(p, v, retain, n - 1) + (if held_by(p, v, v.len() as int, retain, (n - 1) as PageId) {
            0int
        } else {
            1int
        })
    }
}

/// Mark the first `n` records of a history, trees included.
#[verifier::spinoff_prover]
#[verifier::rlimit(40)]
fn mark_records<S: Storage>(
    pager: &Pager<S>,
    h: &Vec<(PageId, CommitInfo)>,
    n: usize,
    marked: &mut HashSet<PageId>,
) -> (r: Result<()>)
    requires
        pager.wf(),
        n <= h@.len(),
    ensures
        closed_set(old(marked)@, pager.pages(), pager.size()) && (forall|i: int|
            0 <= i < n ==> record_ok(*pager, #[trigger] h@[i]) && pager.pages().contains_key(h@[i].0)
                && commit_of(pager.pages()[h@[i].0]) is Some) ==> match r {
            Ok(_) => {
                &&& closed_set(final(marked)@, pager.pages(), pager.size())
                &&& forall|x: PageId| #[trigger]
                    final(marked)@.contains(x) == (old(marked)@.contains(x) || held_first(
                        *pager,
                        h@,
                        n as int,
                        x,
                    ))
            },
            Err(_) => !pager.reliable(),
        },
{
    broadcast use vstd::std_specs::hash::group_hash_axioms;

    let ghost begin = marked@;
    let ghost pages = pager.pages();
    let ghost ps = pager.size();
    let ghost good = closed_set(begin, pages, ps) && (forall|i: int|
        0 <= i < n ==> record_ok(*pager, #[trigger] h@[i]) && pages.contains_key(h@[i].0) && commit_of(
            pages[h@[i].0],
        ) is Some);
    let mut i: usize = 0;
    while i < n
        invariant
            pager.wf(),
            pages == pager.pages(),
            ps == pager.size(),
            i <= n <= h@.len(),
            begin == old(marked)@,
            good == (closed_set(begin, pages, ps) && (forall|i: int|
                0 <= i < n ==> record_ok(*pager, #[trigger] h@[i]) && pages.contains_key(h@[i].0)
                    && commit_of(pages[h@[i].0]) is Some)),
            good ==> closed_set(marked@, pages, ps) && forall|x: PageId| #[trigger]
                marked@.contains(x) == (begin.contains(x) || held_first(*pager, h@, i as int, x)),
        decreases n - i,
    {
        let ghost s0 = marked@;
        let (page, rec) = h[i];
        let ghost c = h@[i as int];
        marked.insert(page);
        let ghost s1 = marked@;
        proof {
            if good {
                pager.lemma_facts();
                assert(record_ok(*pager, c));
                lemma_commit_page(pages[page]);
                crate::mark::lemma_closed_insert(s0, pages, ps, page);
                assert(s1 =~= s0.insert(page));
            }
        }
        if let Err(e) = collect_pages(pager, rec.data_root, marked) {
            proof {
                if good {
                    lemma_some_root(pages, ps, rec.data_root);
                }
            }
            return Err(e);
        }
        let ghost s2 = marked@;
        proof {
            if good {
                lemma_some_root(pages, ps, rec.data_root);
            }
        }
        if let Err(e) = collect_pages(pager, rec.catalog_root, marked) {
            proof {
                if good {
                    lemma_some_root(pages, ps, rec.catalog_root);
                }
            }
            return Err(e);
        }
        proof {
            if good {
                lemma_some_root(pages, ps, rec.catalog_root);
                assert forall|x: PageId| #[trigger]
                    marked@.contains(x) == (begin.contains(x) || held_first(*pager, h@, i + 1, x)) by {
                    let d = ohas(tree_of(pages, ps, rec.data_root), x);
                    let k = ohas(tree_of(pages, ps, rec.catalog_root), x);
                    assert(s1.contains(x) == (s0.contains(x) || x == page));
                    assert(s2.contains(x) == (s1.contains(x) || d));
                    assert(marked@.contains(x) == (s2.contains(x) || k));
                    assert(uses(pages, ps, c, x) == (x == page || d || k));
                    assert(s0.contains(x) == (begin.contains(x) || held_first(
                        *pager,
                        h@,
                        i as int,
                        x,
                    )));
                    if held_first(*pager, h@, i + 1, x) {
                        let j = choose|j: int|
                            0 <= j < i + 1 && uses(pager.pages(), pager.size(), #[trigger] h@[j], x);
                        if j < i {
                            assert(held_first(*pager, h@, i as int, x));
                        }
                    }
                    if held_first(*pager, h@, i as int, x) {
                        let j = choose|j: int|
                            0 <= j < i && uses(pager.pages(), pager.size(), #[trigger] h@[j], x);
                        assert(held_first(*pager, h@, i + 1, x));
                    }
                    if uses(pages, ps, c, x) {
                        assert(uses(pager.pages(), pager.size(), h@[i as int], x));
                        assert(held_first(*pager, h@, i + 1, x));
                    }
                }
            }
        }
        i = i + 1;
    }
    Ok(())
}

/// A commit record is neither a node nor part of a chain.
proof fn lemma_commit_page(b: Seq<u8>)
    requires
        commit_of(b) is Some,
    ensures
        crate::node::node_of(b) is None,
        crate::tree::part_of(b) is None,
        b.len() >= 64,
{
}

/// The tree under a sound root, told to callers that quantify over it.
proof fn lemma_some_root(pages: Pages, ps: u32, root: PageId)
    requires
        sound_root(pages, ps, root),
    ensures
        root != NIL_PAGE ==> tree_at(pages, ps, root, tree_of(pages, ps, root)->0),
        root == NIL_PAGE ==> tree_of(pages, ps, root) is None,
{
}

/// What marking all branches gives.
struct Marks {
    marked: HashSet<PageId>,
    floors: Vec<(String, BranchRef)>,
}

proof fn lemma_held_by_next<S: Storage>(
    pager: Pager<S>,
    branches: Seq<(String, BranchRef)>,
    n: int,
    keep: int,
    x: PageId,
)
    requires
        0 <= n < branches.len(),
    ensures
        held_by(pager, branches, n + 1, keep, x) == (held_by(pager, branches, n, keep, x) || held(
            pager,
            branches[n].1,
            keep,
            x,
        )),
{
    if held_by(pager, branches, n + 1, keep, x) {
        let k = choose|k: int| 0 <= k < n + 1 && held(pager, (#[trigger] branches[k]).1, keep, x);
        if k < n {
            assert(held_by(pager, branches, n, keep, x));
        }
    }
    if held_by(pager, branches, n, keep, x) {
        let k = choose|k: int| 0 <= k < n && held(pager, (#[trigger] branches[k]).1, keep, x);
        assert(held_by(pager, branches, n + 1, keep, x));
    }
    if held(pager, branches[n].1, keep, x) {
        assert(held_by(pager, branches, n + 1, keep, x));
    }
}

proof fn lemma_records_next<S: Storage>(
    p: Pager<S>,
    v: Seq<(String, BranchRef)>,
    n: int,
    keep: int,
    x: PageId,
)
    requires
        0 <= n < v.len(),
    ensures
        kept_record(p, v, n + 1, keep, x) == (kept_record(p, v, n, keep, x) || among(
            records(p, v[n].1),
            keep_count(records(p, v[n].1).len() as int, keep),
            x,
        )),
        recorded(p, v, n + 1, x) == (recorded(p, v, n, x) || among(
            records(p, v[n].1),
            records(p, v[n].1).len() as int,
            x,
        )),
{
    if kept_record(p, v, n + 1, keep, x) {
        let k = choose|k: int|
            0 <= k < n + 1 && among(
                records(p, (#[trigger] v[k]).1),
                keep_count(records(p, v[k].1).len() as int, keep),
                x,
            );
        if k < n {
            assert(kept_record(p, v, n, keep, x));
        }
    }
    if kept_record(p, v, n, keep, x) {
        let k = choose|k: int|
            0 <= k < n && among(
                records(p, (#[trigger] v[k]).1),
                keep_count(records(p, v[k].1).len() as int, keep),
                x,
            );
        assert(v[k] == v[k]);
    }
    if recorded(p, v, n + 1, x) {
        let k = choose|k: int|
            0 <= k < n + 1 && among(
                records(p, (#[trigger] v[k]).1),
                records(p, v[k].1).len() as int,
                x,
            );
        if k < n {
            assert(recorded(p, v, n, x));
        }
    }
    if recorded(p, v, n, x) {
        let k = choose|k: int|
            0 <= k < n && among(
                records(p, (#[trigger] v[k]).1),
                records(p, v[k].1).len() as int,
                x,
            );
        assert(v[k] == v[k]);
    }
    assert(v[n] == v[n]);
}

/// Note the pages of the first `n` records of a history.
fn note_records(h: &Vec<(PageId, CommitInfo)>, n: usize, noted: &mut HashSet<PageId>)
    requires
        n <= h@.len(),
        old(noted)@.finite(),
    ensures
        final(noted)@.finite(),
        forall|x: PageId| #[trigger]
            final(noted)@.contains(x) == (old(noted)@.contains(x) || among(h@, n as int, x)),
{
    broadcast use vstd::std_specs::hash::group_hash_axioms;

    let ghost begin = noted@;
    let mut i: usize = 0;
    while i < n
        invariant
            i <= n <= h@.len(),
            noted@.finite(),
            forall|x: PageId| #[trigger]
                noted@.contains(x) == (begin.contains(x) || among(h@, i as int, x)),
        decreases n - i,
    {
        let ghost before = noted@;
        noted.insert(h[i].0);
        proof {
            assert forall|x: PageId| #[trigger]
                noted@.contains(x) == (begin.contains(x) || among(h@, i + 1, x)) by {
                assert(before.contains(x) == (begin.contains(x) || among(h@, i as int, x)));
                if among(h@, i + 1, x) {
                    let j = choose|j: int| 0 <= j < i + 1 && (#[trigger] h@[j]).0 == x;
                    if j < i {
                        assert(among(h@, i as int, x));
                    }
                }
                if among(h@, i as int, x) {
                    let j = choose|j: int| 0 <= j < i && (#[trigger] h@[j]).0 == x;
                    assert(h@[j].0 == x);
                }
                if x == h@[i as int].0 {
                    assert(among(h@, i + 1, x));
                }
            }
        }
        i = i + 1;
    }
}

/// Mark everything the retained commits can reach.
#[verifier::spinoff_prover]
#[verifier::rlimit(100)]
fn mark_branches<S: Storage>(pager: &Pager<S>, branches: &Vec<(String, BranchRef)>, retain: usize) -> (r:
    Result<Marks>)
    requires
        pager.wf(),
        retain > 0,
    ensures
        store_ok(*pager) && lists_branches(*pager, branches@) ==> match r {
            Ok(m) => {
                &&& forall|x: PageId| #[trigger]
                    m.marked@.contains(x) == held_by(
                        *pager,
                        branches@,
                        branches@.len() as int,
                        retain as int,
                        x,
                    )
                &&& m.floors@.len() == branches@.len()
                &&& forall|k: int|
                    0 <= k < branches@.len() ==> (#[trigger] m.floors@[k]).0@ == branches@[k].0@
                        && m.floors@[k].1 == collected(*pager, branches@[k].1, retain as int)
            },
            Err(_) => !pager.reliable(),
        },
{
    broadcast use vstd::std_specs::hash::group_hash_axioms;

    let ghost good = store_ok(*pager) && lists_branches(*pager, branches@);
    let ghost pages = pager.pages();
    let ghost ps = pager.size();
    let ghost keep = retain as int;
    let mut marked: HashSet<PageId> = HashSet::new();
    let mut floors: Vec<(String, BranchRef)> = Vec::new();
    let mut n: usize = 0;
    proof {
        crate::mark::lemma_closed_empty(pages, ps);
        assert(marked@ =~= Set::empty());
    }
    while n < branches.len()
        invariant
            pager.wf(),
            retain > 0,
            keep == retain as int,
            pages == pager.pages(),
            ps == pager.size(),
            n <= branches@.len(),
            good == (store_ok(*pager) && lists_branches(*pager, branches@)),
            floors@.len() == n,
            good ==> {
                &&& closed_set(marked@, pages, ps)
                &&& forall|x: PageId| #[trigger]
                    marked@.contains(x) == held_by(*pager, branches@, n as int, keep, x)
                &&& forall|k: int|
                    0 <= k < n ==> (#[trigger] floors@[k]).0@ == branches@[k].0@ && floors@[k].1
                        == collected(*pager, branches@[k].1, keep)
            },
        decreases branches@.len() - n,
    {
        let ghost s0 = marked@;
        let branch: BranchRef = branches[n].1;
        proof {
            if good {
                assert(branch_of(*pager, branches@[n as int].0@) == Some(branch));
                assert(branch_ok(*pager, branch));
                assert(chain_of(pages, branch, records(*pager, branch)));
            }
        }
        let h = match commit::walk(pager, &branch) {
            Ok(h) => h,
            Err(e) => {
                return Err(e);
            },
        };
        let len: usize = h.len();
        let kept: usize = if retain < len {
            retain
        } else {
            len
        };
        proof {
            if good {
                assert(h@ == records(*pager, branch));
                assert forall|i: int| 0 <= i < kept implies record_ok(*pager, #[trigger] h@[i])
                    && pages.contains_key(h@[i].0) && commit_of(pages[h@[i].0]) is Some by {
                    assert(record_ok(*pager, records(*pager, branch)[i]));
                }
            }
        }
        if let Err(e) = mark_records(pager, &h, kept, &mut marked) {
            return Err(e);
        }
        let floor: u64 = if kept < len {
            h[kept - 1].1.commit_id
        } else {
            branch.floor_id
        };
        floors.push(
            (
                owned(branches[n].0.as_str()),
                BranchRef { head_id: branch.head_id, head_page: branch.head_page, floor_id: floor },
            ),
        );
        proof {
            if good {
                assert forall|x: PageId| #[trigger]
                    marked@.contains(x) == held_by(*pager, branches@, n + 1, keep, x) by {
                    assert(s0.contains(x) == held_by(*pager, branches@, n as int, keep, x));
                    lemma_held_by_next(*pager, branches@, n as int, keep, x);
                }
            }
        }
        n = n + 1;
    }
    Ok(Marks { marked, floors })
}

/// How many commits fall out of retention: those of some branch that no
/// branch keeps.
#[verifier::spinoff_prover]
#[verifier::rlimit(60)]
fn count_pruned<S: Storage>(pager: &Pager<S>, branches: &Vec<(String, BranchRef)>, retain: usize) -> (r:
    Result<u64>)
    requires
        pager.wf(),
    ensures
        store_ok(*pager) && lists_branches(*pager, branches@) ==> match r {
            Ok(n) => n == pruned_of(*pager, branches@, retain as int).len(),
            Err(_) => !pager.reliable(),
        },
{
    broadcast use vstd::std_specs::hash::group_hash_axioms;

    let ghost good = store_ok(*pager) && lists_branches(*pager, branches@);
    let ghost keep = retain as int;
    let mut kept_records: HashSet<PageId> = HashSet::new();
    let mut seen_records: HashSet<PageId> = HashSet::new();
    let mut n: usize = 0;
    while n < branches.len()
        invariant
            pager.wf(),
            keep == retain as int,
            n <= branches@.len(),
            good == (store_ok(*pager) && lists_branches(*pager, branches@)),
            good ==> {
                &&& forall|x: PageId| #[trigger]
                    kept_records@.contains(x) == kept_record(*pager, branches@, n as int, keep, x)
                &&& forall|x: PageId| #[trigger]
                    seen_records@.contains(x) == recorded(*pager, branches@, n as int, x)
            },
            forall|x: PageId| #[trigger] kept_records@.contains(x) ==> seen_records@.contains(x),
            kept_records@.finite() && seen_records@.finite(),
        decreases branches@.len() - n,
    {
        let ghost r0 = kept_records@;
        let ghost r1 = seen_records@;
        let branch: BranchRef = branches[n].1;
        proof {
            if good {
                assert(branch_of(*pager, branches@[n as int].0@) == Some(branch));
                assert(branch_ok(*pager, branch));
                assert(chain_of(pager.pages(), branch, records(*pager, branch)));
            }
        }
        let h = match commit::walk(pager, &branch) {
            Ok(h) => h,
            Err(e) => {
                return Err(e);
            },
        };
        let len: usize = h.len();
        let kept: usize = if retain < len {
            retain
        } else {
            len
        };
        note_records(&h, kept, &mut kept_records);
        note_records(&h, len, &mut seen_records);
        proof {
            assert forall|x: PageId| #[trigger] kept_records@.contains(x) implies seen_records@.contains(
                x,
            ) by {
                if among(h@, kept as int, x) {
                    let i = choose|i: int| 0 <= i < kept && (#[trigger] h@[i]).0 == x;
                    assert(h@[i].0 == x);
                    assert(among(h@, len as int, x));
                } else {
                    assert(r0.contains(x));
                }
            }
            if good {
                assert(h@ == records(*pager, branch));
                assert forall|x: PageId| #[trigger]
                    kept_records@.contains(x) == kept_record(*pager, branches@, n + 1, keep, x) by {
                    assert(r0.contains(x) == kept_record(*pager, branches@, n as int, keep, x));
                    lemma_records_next(*pager, branches@, n as int, keep, x);
                }
                assert forall|x: PageId| #[trigger]
                    seen_records@.contains(x) == recorded(*pager, branches@, n + 1, x) by {
                    assert(r1.contains(x) == recorded(*pager, branches@, n as int, x));
                    lemma_records_next(*pager, branches@, n as int, keep, x);
                }
            }
        }
        n = n + 1;
    }
    proof {
        let gone = seen_records@.difference(kept_records@);
        vstd::set_lib::lemma_set_difference_len(seen_records@, kept_records@);
        assert(seen_records@.intersect(kept_records@) =~= kept_records@);
        if good {
            assert(gone =~= pruned_of(*pager, branches@, keep));
        }
    }
    Ok((seen_records.len() - kept_records.len()) as u64)
}

/// Within the file, everything unmarked is free.
fn sweep(marked: &HashSet<PageId>, page_count: u64) -> (r: Vec<PageId>)
    ensures
        r@.no_duplicates(),
        forall|x: PageId| #[trigger]
            r@.contains(x) <==> 2 <= x < page_count && !marked@.contains(x),
        r@.len() == unmarked(marked@, page_count as int),
{
    broadcast use vstd::std_specs::hash::group_hash_axioms;

    let mut out: Vec<PageId> = Vec::new();
    let mut id: u64 = 2;
    while id < page_count
        invariant
            2 <= id,
            id <= page_count || id == 2,
            out@.no_duplicates(),
            forall|i: int| 0 <= i < out@.len() ==> 2 <= (#[trigger] out@[i]) < id && !marked@.contains(
                out@[i],
            ),
            forall|x: PageId| 2 <= x < id && !marked@.contains(x) ==> #[trigger] out@.contains(x),
            out@.len() == unmarked(marked@, id as int),
        decreases page_count - id,
    {
        let ghost o0 = out@;
        if !marked.contains(&id) {
            out.push(id);
        }
        proof {
            assert forall|x: PageId| 2 <= x < id + 1 && !marked@.contains(x) implies #[trigger] out@.contains(
                x,
            ) by {
                if x < id {
                    assert(o0.contains(x));
                    let i = choose|i: int| 0 <= i < o0.len() && o0[i] == x;
                    assert(out@[i] == x);
                } else {
                    assert(out@[out@.len() - 1] == x);
                }
            }
        }
        id = id + 1;
    }
    proof {
        assert forall|x: PageId| #[trigger] out@.contains(x) <==> 2 <= x < page_count && !marked@.contains(x) by {
            if out@.contains(x) {
                let i = choose|i: int| 0 <= i < out@.len() && out@[i] == x;
                assert(out@[i] == x);
            }
        }
    }
    out
}

/// How many ids from 2 up to `n` are not in a set.
pub open spec fn unmarked(s: Set<PageId>, n: int) -> int
    decreases n,
{
    if n <= 2 {
        0
    } else {
        unmarked(s, n - 1) + (if s.contains((n - 1) as PageId) {
            0int
        } else {
            1int
        })
    }
}

proof fn lemma_unmarked<S: Storage>(
    s: Set<PageId>,
    p: Pager<S>,
    v: Seq<(String, BranchRef)>,
    retain: int,
    n: int,
)
    requires
        forall|x: PageId| #[trigger] s.contains(x) == held_by(p, v, v.len() as int, retain, x),
    ensures
        unmarked(s, n) == unheld(p, v, retain, n),
    decreases n,
{
    if n > 2 {
        lemma_unmarked(s, p, v, retain, n - 1);
    }
}

/// The refs of the first `n` branches of a list.
pub open spec fn floors_map(v: Seq<(String, BranchRef)>, n: int) -> Bytes
    decreases n,
{
    if n <= 0 {
        Map::empty()
    } else {
        floors_map(v, n - 1).insert(branch_at(v[n - 1].0@), v[n - 1].1.stored())
    }
}

/// A list of refs, read as a map.
proof fn lemma_floors_map(v: Seq<(String, BranchRef)>, n: int)
    requires
        0 <= n <= v.len(),
        forall|i: int, j: int| 0 <= i < j < v.len() ==> (#[trigger] v[i]).0@ != (#[trigger] v[j]).0@,
    ensures
        forall|k: Seq<u8>| #[trigger]
            floors_map(v, n).contains_key(k) ==> is_branch_key(k) && ref_of(floors_map(v, n)[k]) is Some,
        forall|i: int| 0 <= i < n ==> ref_in(floors_map(v, n), (#[trigger] v[i]).0@) == Some(v[i].1),
        forall|name: Seq<char>|
            (#[trigger] ref_in(floors_map(v, n), name)) is Some ==> exists|i: int|
                0 <= i < n && (#[trigger] v[i]).0@ == name,
    decreases n,
{
    if n > 0 {
        lemma_floors_map(v, n - 1);
        let m = floors_map(v, n - 1);
        let name = v[n - 1].0@;
        let r = v[n - 1].1;
        lemma_ref_set(m, name, r);
        refs::law_ref_decode_inverts_encode(r);
        assert(is_branch_key(branch_at(name)));
        assert forall|i: int| 0 <= i < n implies ref_in(floors_map(v, n), (#[trigger] v[i]).0@) == Some(
            v[i].1,
        ) by {
            if i < n - 1 {
                assert(v[i].0@ != v[n - 1].0@);
                assert(ref_in(m, v[i].0@) == Some(v[i].1));
            }
        }
        assert forall|q: Seq<char>| (#[trigger] ref_in(floors_map(v, n), q)) is Some implies exists|
            i: int,
        |
            0 <= i < n && (#[trigger] v[i]).0@ == q by {
            if q == name {
                assert(v[n - 1].0@ == q);
            } else {
                assert(ref_in(m, q) is Some);
                let i = choose|i: int| 0 <= i < n - 1 && (#[trigger] v[i]).0@ == q;
                assert(v[i].0@ == q);
            }
        }
    }
}

/// How far a file may grow while `k` branches are written anew.
pub open spec fn grown(n: int, k: int) -> int
    decreases k,
{
    if k <= 0 {
        n
    } else {
        3 * (grown(n, k - 1) + 25) + 1
    }
}

/// Room to write the refs of `k` branches and a name of `len` characters
/// anew.
pub open spec fn roomy_gc<S: Storage>(p: Pager<S>, k: int, len: int) -> bool {
    let most = 3 * (grown(p.meta().page_count as int, k) + 4 * len + 1) + 1 + p.meta().page_count;
    &&& most < MAX_PAGES
    &&& most * p.size() <= usize::MAX
    &&& p.meta().txid < u64::MAX
}

/// All pages of a tree belong to the batch.
pub open spec fn all_own<'p, S: Storage>(b: WriteBatch<'p, S>, root: PageId) -> bool {
    forall|x: PageId| #[trigger] ohas(tree_of(b.pages(), b.size(), root), x) ==> b.own(x)
}

proof fn lemma_all_own<'p, S: Storage>(
    a: WriteBatch<'p, S>,
    b: WriteBatch<'p, S>,
    root: PageId,
    next: PageId,
)
    requires
        all_own(a, root),
        extends(a, b),
        edited(a, b, root, next),
    ensures
        all_own(b, next),
{
    assert forall|x: PageId| #[trigger] ohas(tree_of(b.pages(), b.size(), next), x) implies b.own(x) by {
        if ohas(tree_of(a.pages(), a.size(), root), x) {
            assert(a.own(x));
        } else {
            assert(fresh(a, b, x));
        }
    }
}

/// Write a list of refs and the current branch name as a tree of new pages
/// only. The pages of the tree before are about to be swept, so none of
/// them may be shared.
#[verifier::spinoff_prover]
#[verifier::rlimit(80)]
fn write_refs<'p, S: Storage>(
    batch: &mut WriteBatch<'p, S>,
    floors: &Vec<(String, BranchRef)>,
    current: &str,
) -> (r: Result<PageId>)
    requires
        old(batch).wf(),
    ensures
        extends(*old(batch), *final(batch)),
        final(batch).next() <= 3 * (grown(old(batch).next() as int, floors@.len() as int) + 4
            * current@.len() + 1) + 1,
        *final(final(batch).pager) == *final(old(batch).pager),
        old(batch).free_ok() && (forall|k: int|
            0 <= k < floors@.len() ==> branch_at((#[trigger] floors@[k]).0@).len() <= crate::tree::max_key(
                old(batch).size(),
            )) ==> match r {
            Ok(root) => {
                &&& root != NIL_PAGE
                &&& editable(*final(batch), root)
                &&& all_own(*final(batch), root)
                &&& contents(final(batch).pages(), final(batch).size(), root) == floors_map(
                    floors@,
                    floors@.len() as int,
                ).insert(head_at(), encode_utf8(current@))
            },
            Err(_) => !old(batch).reliable() || final(batch).next() >= MAX_PAGES,
        },
{
    let ghost b0 = *batch;
    let ghost good = b0.free_ok() && (forall|k: int|
        0 <= k < floors@.len() ==> branch_at((#[trigger] floors@[k]).0@).len() <= crate::tree::max_key(
            b0.size(),
        ));
    proof {
        b0.lemma_facts();
        lemma_extends_self(b0);
        lemma_utf8_len(current@);
        lemma_main_ok();
        lemma_ref_key_lens("main"@);
        crate::store::lemma_empty_tree(b0.pages(), b0.size());
        lemma_grown(b0.next() as int, floors@.len() as int, 0);
    }
    let mut root: PageId = NIL_PAGE;
    let mut n: usize = 0;
    while n < floors.len()
        invariant
            n <= floors@.len(),
            b0 == *old(batch),
            batch.wf(),
            extends(b0, *batch),
            batch.next() <= grown(b0.next() as int, n as int),
            *final(batch.pager) == *final(old(batch).pager),
            good == (b0.free_ok() && (forall|k: int|
                0 <= k < floors@.len() ==> branch_at((#[trigger] floors@[k]).0@).len()
                    <= crate::tree::max_key(b0.size()))),
            good ==> {
                &&& editable(*batch, root)
                &&& all_own(*batch, root)
                &&& contents(batch.pages(), batch.size(), root) == floors_map(floors@, n as int)
            },
        decreases floors@.len() - n,
    {
        let ghost b1 = *batch;
        let ghost root1 = root;
        let key = refs::branch_key(floors[n].0.as_str());
        let stored = floors[n].1.encode();
        proof {
            lemma_grown(b0.next() as int, floors@.len() as int, n + 1);
            lemma_branch_key_nonempty(floors@[n as int].0@);
        }
        root = match btree::put(batch, root, key.as_slice(), stored.as_slice()) {
            Ok(r) => r,
            Err(e) => {
                proof {
                    lemma_extends_trans(b0, b1, *batch);
                }
                return Err(e);
            },
        };
        proof {
            lemma_extends_trans(b0, b1, *batch);
            if good {
                crate::store::lemma_edited(b1, *batch, root1, root);
                lemma_all_own(b1, *batch, root1, root);
                crate::store::lemma_set_map(
                    tree_of(b1.pages(), b1.size(), root1),
                    tree_of(batch.pages(), b1.size(), root),
                    key@,
                    Some(stored@),
                );
            }
        }
        n = n + 1;
    }
    let ghost b1 = *batch;
    let key = refs::head_key();
    let name = text_bytes(current);
    let next: PageId = match btree::put(batch, root, key.as_slice(), name.as_slice()) {
        Ok(r) => r,
        Err(e) => {
            proof {
                lemma_extends_trans(b0, b1, *batch);
            }
            return Err(e);
        },
    };
    proof {
        lemma_extends_trans(b0, b1, *batch);
        if good {
            crate::store::lemma_edited(b1, *batch, root, next);
            lemma_all_own(b1, *batch, root, next);
            crate::store::lemma_set_map(
                tree_of(b1.pages(), b1.size(), root),
                tree_of(batch.pages(), b1.size(), next),
                key@,
                Some(name@),
            );
        }
    }
    Ok(next)
}

proof fn lemma_grown(n: int, k: int, j: int)
    requires
        0 <= j <= k,
        n >= 0,
    ensures
        0 <= n <= grown(n, j) <= grown(n, k),
    decreases k,
{
    if k > 0 {
        if j < k {
            lemma_grown(n, k - 1, j);
        } else {
            lemma_grown(n, k - 1, k - 1);
        }
    }
}

proof fn lemma_branch_key_nonempty(name: Seq<char>)
    ensures
        branch_at(name).len() > 0,
{
    lemma_branch_prefix(name);
    reveal_strlit("branch");
    lemma_text_first("branch"@, 98u8);
    let b = Val::Text("branch"@);
    assert(seq![b, Val::Text(name)][0] == b);
}

/// A collected branch can still be read, as far as it goes.
proof fn lemma_collected<S: Storage>(p: Pager<S>, r: BranchRef, retain: int)
    requires
        readable(p, r),
        retain > 0,
    ensures
        readable(p, collected(p, r, retain)),
        records(p, collected(p, r, retain)) == records(p, r).take(
            keep_count(records(p, r).len() as int, retain),
        ),
{
    let h = records(p, r);
    let n = keep_count(h.len() as int, retain);
    let q = collected(p, r, retain);
    let g = h.take(n);
    if n == h.len() {
        assert(g =~= h);
    } else {
        commit::lemma_chain_floor(p.pages(), r, h, n);
        lemma_chain_unique(p.pages(), q, g);
        assert(record_ok(p, h[n - 1]));
        assert forall|j: int| 0 <= j < g.len() implies record_ok(p, #[trigger] g[j]) by {
            assert(record_ok(p, h[j]));
        }
    }
}

/// What a collection leaves behind: each branch keeps its newest commits,
/// and those read as before.
pub open spec fn gc_done<S: Storage>(p: Pager<S>, q: Pager<S>, retain: int) -> bool {
    &&& store_ok(q)
    &&& q.meta().txid == p.meta().txid + 1
    &&& forall|name: Seq<char>| #[trigger]
        branch_of(q, name) == (match branch_of(p, name) {
            Some(r) => Some(collected(p, r, retain)),
            None => None,
        })
    &&& forall|name: Seq<char>|
        (#[trigger] branch_of(p, name)) matches Some(r) ==> {
            &&& records(q, collected(p, r, retain)) == records(p, r).take(
                keep_count(records(p, r).len() as int, retain),
            )
            &&& same_past(p, q, collected(p, r, retain))
        }
}

/// The free list a collection leaves behind: every page that no kept commit
/// uses, but for free pages taken again to write the new refs.
pub open spec fn swept_free<S: Storage>(
    p: Pager<S>,
    q: Pager<S>,
    v: Seq<(String, BranchRef)>,
    retain: int,
) -> bool {
    forall|x: PageId|
        2 <= x < p.meta().page_count ==> {
            &&& #[trigger] q.free(x) ==> !held_by(p, v, v.len() as int, retain, x)
            &&& !q.free(x) && !held_by(p, v, v.len() as int, retain, x) ==> p.free(x) && written_in(
                q.pages(),
                x,
                q.meta().txid,
            )
        }
}

/// Everything a collecting commit has to have in place.
pub open spec fn gc_ready<'p, S: Storage>(
    p: Pager<S>,
    b: WriteBatch<'p, S>,
    v: Seq<(String, BranchRef)>,
    floors: Seq<(String, BranchRef)>,
    on: Seq<char>,
    retain: int,
) -> bool {
    &&& store_ok(p)
    &&& branch_of(p, on) is Some
    &&& lists_branches(p, v)
    &&& retain > 0
    &&& steady(p, b)
    &&& b.chosen_ok()
    &&& b.chosen_free() matches Some(l) && forall|x: PageId| #[trigger]
        l.contains(x) == (2 <= x < p.meta().page_count && !held_by(
            p,
            v,
            v.len() as int,
            retain,
            x,
        ))
    &&& b.next() >= p.meta().page_count
    &&& forall|x: PageId| #[trigger] b.own(x) ==> x >= p.meta().page_count || p.free(x)
    &&& b.refs() != NIL_PAGE
    &&& editable(b, b.refs())
    &&& all_own(b, b.refs())
    &&& floors.len() == v.len()
    &&& forall|k: int|
        0 <= k < v.len() ==> (#[trigger] floors[k]).0@ == v[k].0@ && floors[k].1 == collected(
            p,
            v[k].1,
            retain,
        )
    &&& contents(b.pages(), b.size(), b.refs()) == floors_map(floors, floors.len() as int).insert(
        head_at(),
        encode_utf8(on),
    )
}

/// The refs a collection writes, against the branches it found.
#[verifier::spinoff_prover]
#[verifier::rlimit(40)]
proof fn lemma_gc_refs<S: Storage>(
    p: Pager<S>,
    v: Seq<(String, BranchRef)>,
    floors: Seq<(String, BranchRef)>,
    on: Seq<char>,
    retain: int,
    m: Bytes,
)
    requires
        lists_branches(p, v),
        branch_of(p, on) is Some,
        floors.len() == v.len(),
        forall|k: int|
            0 <= k < v.len() ==> (#[trigger] floors[k]).0@ == v[k].0@ && floors[k].1 == collected(
                p,
                v[k].1,
                retain,
            ),
        m == floors_map(floors, floors.len() as int).insert(head_at(), encode_utf8(on)),
    ensures
        refs_sane(m),
        m[head_at()] == encode_utf8(on),
        decode_utf8(m[head_at()]) == on,
        forall|name: Seq<char>| #[trigger]
            ref_in(m, name) == (match branch_of(p, name) {
                Some(r) => Some(collected(p, r, retain)),
                None => None,
            }),
{
    let n = floors.len() as int;
    let f = floors_map(floors, n);
    assert forall|i: int, j: int| 0 <= i < j < floors.len() implies (#[trigger] floors[i]).0@ != (
    #[trigger] floors[j]).0@ by {
        assert(lex_lt(branch_at(v[i].0@), branch_at(v[j].0@)));
        crate::order::lemma_lex_irrefl(branch_at(v[i].0@));
    }
    lemma_floors_map(floors, n);
    crate::store::lemma_head_set(f, encode_utf8(on));
    vstd::utf8::encode_utf8_valid_utf8(on);
    vstd::utf8::encode_utf8_decode_utf8(on);
    assert forall|name: Seq<char>| #[trigger]
        ref_in(m, name) == (match branch_of(p, name) {
            Some(r) => Some(collected(p, r, retain)),
            None => None,
        }) by {
        assert(ref_in(m, name) == ref_in(f, name));
        if let Some(r) = branch_of(p, name) {
            let i = choose|i: int| 0 <= i < v.len() && (#[trigger] v[i]).0@ == name;
            assert(branch_of(p, v[i].0@) == Some(v[i].1));
            assert(floors[i].0@ == name);
            assert(ref_in(f, floors[i].0@) == Some(floors[i].1));
        } else if ref_in(f, name) is Some {
            let i = choose|i: int| 0 <= i < n && (#[trigger] floors[i]).0@ == name;
            assert(branch_of(p, v[i].0@) == Some(v[i].1));
        }
    }
    assert(ref_in(m, on) is Some);
}

#[verifier::spinoff_prover]
#[verifier::rlimit(100)]
proof fn lemma_gc_done<'p, S: Storage>(
    p: Pager<S>,
    b: WriteBatch<'p, S>,
    q: Pager<S>,
    now: u64,
    v: Seq<(String, BranchRef)>,
    floors: Seq<(String, BranchRef)>,
    on: Seq<char>,
    retain: int,
)
    requires
        gc_ready(p, b, v, floors, on, retain),
        b.meta().txid < u64::MAX,
        q.wf(),
        b.committed_as(&q, now),
    ensures
        gc_done(p, q, retain),
        swept_free(p, q, v, retain),
        q.meta().refs_root != NIL_PAGE,
        decode_utf8(refs_map(q)[head_at()]) == on,
{
    let m = contents(b.pages(), b.size(), b.refs());
    lemma_gc_refs(p, v, floors, on, retain, m);
    p.lemma_facts();
    b.lemma_facts();
    q.lemma_facts();
    assert forall|x: PageId| 2 <= x < p.meta().page_count implies {
        &&& #[trigger] q.free(x) ==> !held_by(p, v, v.len() as int, retain, x)
        &&& !q.free(x) && !held_by(p, v, v.len() as int, retain, x) ==> p.free(x) && written_in(
            q.pages(),
            x,
            q.meta().txid,
        )
    } by {
        let l = b.chosen_free()->0;
        assert(l.contains(x) == !held_by(p, v, v.len() as int, retain, x));
        assert(q.free(x) == b.frees(x, q.meta().page_count));
        if b.own(x) {
            assert(written_in(q.pages(), x, q.meta().txid));
        }
    }
    assert forall|x: PageId| #[trigger] ohas(tree_of(b.pages(), b.size(), b.refs()), x) implies !b.will_free(
        x,
    ) by {
        assert(b.own(x));
        assert(!b.spare(x));
    }
    lemma_tree_commit(b, q, now, b.refs());
    assert(refs_map(q) == m);
    assert forall|name: Seq<char>| (#[trigger] branch_of(p, name)) matches Some(r) implies ({
        let r = branch_of(p, name)->0;
        &&& records(q, collected(p, r, retain)) == records(p, r).take(
            keep_count(records(p, r).len() as int, retain),
        )
        &&& same_past(p, q, collected(p, r, retain))
    }) by {
        if let Some(r) = branch_of(p, name) {
            assert(branch_ok(p, r));
            lemma_collected(p, r, retain);
            let c = collected(p, r, retain);
            let h = records(p, r);
            let g = records(p, c);
            let k = choose|k: int| 0 <= k < v.len() && (#[trigger] v[k]).0@ == name;
            assert(branch_of(p, v[k].0@) == Some(v[k].1));
            assert forall|i: int, x: PageId|
                0 <= i < g.len() && #[trigger] uses(p.pages(), p.size(), g[i], x) implies kept(p, q, x) by {
                assert(g[i] == h[i]);
                assert(uses(p.pages(), p.size(), h[i], x));
                assert(held(p, v[k].1, retain, x));
                assert(held_by(p, v, v.len() as int, retain, x));
                crate::store::lemma_uses_pages(p, r, i, x);
                crate::store::lemma_steady_pages(p, b, x);
                assert(!b.spare(x));
                assert(q.pages().contains_key(x) && crate::tree::same_page(
                    b.pages()[x],
                    q.pages()[x],
                ));
                if q.free(x) {
                    assert(b.will_free(x));
                }
            }
            lemma_readable_kept(p, q, c);
        }
    }
    assert forall|name: Seq<char>| (#[trigger] branch_of(q, name)) matches Some(s) implies branch_ok(
        q,
        branch_of(q, name)->0,
    ) by {
        if let Some(s) = branch_of(q, name) {
            assert(ref_in(m, name) == Some(s));
            let r = branch_of(p, name)->0;
            assert(branch_ok(p, r));
            assert(same_past(p, q, s));
            if s.head_id != 0 {
                assert(record_ok(p, records(p, r)[0]));
            }
        }
    }
}

impl<S: Storage> Db<S> {
    /// Reclaim pages of commits outside retention. `retain` is the number
    /// of commits kept per branch, counting the head; at least one.
    ///
    /// Takes `&mut self` on purpose: outstanding snapshots and
    /// transactions borrow the database, so the borrow checker proves
    /// reader quiescence at compile time and a reused page can never pull
    /// the rug out from under a live snapshot.
    #[verifier::spinoff_prover]
    #[verifier::rlimit(60)]
    pub fn gc(&mut self, retain: usize) -> (r: Result<GcReport>)
        requires
            old(self).wf(),
        ensures
            final(self).wf(),
            final(self).on() == old(self).on(),
            r is Ok ==> durable_after(old(self).store(), final(self).store()),
            final(self).reliable() == old(self).reliable(),
            retain == 0 ==> (r matches Err(Error::InvalidArgument(_))) && final(self).store()
                == old(self).store(),
            old(self).sound() && retain > 0 ==> match r {
                Ok(report) => {
                    &&& final(self).sound()
                    &&& gc_done(old(self).store(), final(self).store(), retain as int)
                    &&& report.page_count == old(self).store().meta().page_count
                    &&& exists|v: Seq<(String, BranchRef)>| #[trigger]
                        lists_branches(old(self).store(), v) && report.pruned_commits == pruned_of(
                            old(self).store(),
                            v,
                            retain as int,
                        ).len() && report.freed_pages == unheld(
                            old(self).store(),
                            v,
                            retain as int,
                            report.page_count as int,
                        ) && swept_free(
                            old(self).store(),
                            final(self).store(),
                            v,
                            retain as int,
                        )
                },
                Err(_) => same_store(old(self).store(), final(self).store()) && {
                    ||| !old(self).reliable()
                    ||| exists|v: Seq<(String, BranchRef)>| #[trigger]
                        lists_branches(old(self).store(), v) && !roomy_gc(
                            old(self).store(),
                            v.len() as int,
                            old(self).on().len() as int,
                        )
                },
            },
    {
        proof {
            if self.sound() {
                lemma_same_store(self.pager, self.pager);
            }
        }
        if retain == 0 {
            return Err(Error::InvalidArgument("gc must retain at least one commit per branch"));
        }
        let base = self.pager.committed_meta();
        let branches = match read_branches(&self.pager) {
            Ok(b) => b,
            Err(e) => {
                return Err(e);
            },
        };
        // mark: everything the retained commits can reach stays
        let marks = match mark_branches(&self.pager, &branches, retain) {
            Ok(m) => m,
            Err(e) => {
                return Err(e);
            },
        };
        let pruned_commits: u64 = match count_pruned(&self.pager, &branches, retain) {
            Ok(n) => n,
            Err(e) => {
                return Err(e);
            },
        };
        let ghost before = *self;
        let ghost p = self.pager;
        let ghost v = branches@;
        let ghost good = self.sound();
        let ghost keep = retain as int;
        // sweep: within the committed file, everything unmarked is free
        let free = sweep(&marks.marked, base.page_count);
        let freed_pages: u64 = free.len() as u64;
        let current = owned(self.current.as_str());
        let mut batch = self.pager.begin();
        let ghost b0 = batch;
        batch.set_freelist(free);
        let ghost b1 = batch;
        let ghost l = b1.chosen_free()->0;
        proof {
            b0.lemma_facts();
            if good {
                lemma_just_begun(p, b0);
                assert(steady(p, b1)) by {
                    assert forall|x: PageId| #[trigger] p.pages().contains_key(x) && !p.free(x) implies
                        !b1.own(x) && !b1.spare(x) by {
                        assert(b1.own(x) == b0.own(x));
                        assert(b1.spare(x) == b0.spare(x));
                    }
                }
                lemma_on(before);
                lemma_unmarked(marks.marked@, p, v, keep, base.page_count as int);
                assert forall|k: int| 0 <= k < marks.floors@.len() implies branch_at(
                    (#[trigger] marks.floors@[k]).0@,
                ).len() <= crate::tree::max_key(p.size()) by {
                    assert(branch_of(p, v[k].0@) is Some);
                    if p.meta().refs_root == NIL_PAGE {
                        lemma_main_ok();
                        lemma_ref_key_lens("main"@);
                        reveal_strlit("main");
                    } else {
                        lemma_branch_key_ok(p, v[k].0@);
                    }
                }
            }
        }
        // persist the raised floors so no lookup ever walks into a
        // reclaimed record
        let root: PageId = match write_refs(&mut batch, &marks.floors, current.as_str()) {
            Ok(r) => r,
            Err(e) => {
                proof {
                    batch.lemma_facts();
                }
                return Err(e);
            },
        };
        let ghost b2 = batch;
        batch.set_refs_root(root);
        let ghost b3 = batch;
        proof {
            b2.lemma_facts();
            if good {
                lemma_steady_extends(p, b1, b2);
                lemma_only_roots(p, b2, b3);
                assert(all_own(b3, root)) by {
                    assert forall|x: PageId| #[trigger]
                        ohas(tree_of(b3.pages(), b3.size(), root), x) implies b3.own(x) by {
                        assert(ohas(tree_of(b2.pages(), b2.size(), root), x));
                        assert(b3.own(x) == b2.own(x));
                    }
                }
                assert forall|x: PageId| #[trigger]
                    l.contains(x) == (2 <= x < p.meta().page_count && !held_by(
                        p,
                        v,
                        v.len() as int,
                        keep,
                        x,
                    )) by {
                    assert(marks.marked@.contains(x) == held_by(p, v, v.len() as int, keep, x));
                }
                assert forall|x: PageId| #[trigger] b3.own(x) implies x >= p.meta().page_count
                    || p.free(x) by {
                    assert(b3.own(x) == b2.own(x));
                    assert(!b0.own(x));
                    assert(b1.own(x) == b0.own(x));
                    assert(fresh(b1, b2, x));
                    assert(b1.spare(x) == b0.spare(x));
                }
                assert(gc_ready(p, b3, v, marks.floors@, before.on(), keep));
                lemma_root_in(b3, root);
                b3.lemma_settling();
                b3.lemma_facts();
                p.lemma_facts();
                lemma_list_len(l, p.meta().page_count as nat);
                if roomy_gc(p, v.len() as int, before.on().len() as int) {
                    lemma_gc_room(p, b3, v.len() as int, before.on().len() as int);
                }
            }
        }
        let now: u64 = crate::pager::now_ms();
        match batch.commit_at(now) {
            Ok(_) => {
                proof {
                    if good {
                        lemma_gc_done(
                            p,
                            b3,
                            self.pager,
                            now,
                            v,
                            marks.floors@,
                            before.on(),
                            keep,
                        );
                    }
                }
                Ok(
                    GcReport {
                        pruned_commits,
                        freed_pages,
                        page_count: base.page_count,
                    },
                )
            },
            Err(e) => {
                proof {
                    if good {
                        lemma_left_alone_store(p, b3, self.pager);
                    }
                }
                Err(e)
            },
        }
    }
}

/// A list of distinct pages of a file is no longer than the file.
proof fn lemma_list_len(l: Seq<PageId>, n: nat)
    requires
        l.no_duplicates(),
        forall|x: PageId| #[trigger] l.contains(x) ==> x < n,
        n <= u64::MAX,
    ensures
        l.len() <= n,
{
    l.unique_seq_to_set();
    crate::tree::lemma_below(n);
    assert forall|x: PageId| #[trigger] l.to_set().contains(x) implies crate::tree::below(n).contains(x) by {
        assert(l.contains(x));
    }
    vstd::set_lib::lemma_len_subset(l.to_set(), crate::tree::below(n));
}

proof fn lemma_gc_room<'p, S: Storage>(p: Pager<S>, b: WriteBatch<'p, S>, k: int, len: int)
    requires
        roomy_gc(p, k, len),
        b.meta() == p.meta(),
        b.size() == p.size(),
        b.next() <= 3 * (grown(p.meta().page_count as int, k) + 4 * len + 1) + 1,
        b.settling() <= p.meta().page_count,
    ensures
        b.roomy(),
{
    let a = b.next() + b.settling();
    let c = 3 * (grown(p.meta().page_count as int, k) + 4 * len + 1) + 1 + p.meta().page_count;
    let s = b.size() as int;
    assert(a * s <= c * s) by (nonlinear_arith)
        requires
            a <= c,
            s >= 0,
    ;
}

// ---------------------------------------------------------------------
// diagnostics
// ---------------------------------------------------------------------

/// The pages a commit uses.
pub open spec fn pages_of<S: Storage>(p: Pager<S>, c: Rec) -> Set<PageId> {
    Set::new(|x: PageId| uses(p.pages(), p.size(), c, x))
}

/// How many ids the first `n` pages of a free list have.
pub open spec fn listed(fc: crate::pager::FreeChain, n: int) -> int
    decreases n,
{
    if n <= 0 {
        0
    } else {
        listed(fc, n - 1) + fc[n - 1].1.len()
    }
}

/// How many pages the free list lists.
#[verifier::spinoff_prover]
#[verifier::rlimit(40)]
fn count_free<S: Storage>(pager: &Pager<S>) -> (r: Result<u64>)
    requires
        pager.wf(),
    ensures
        forall|fc: crate::pager::FreeChain| #[trigger]
            pager.free_view(fc) ==> match r {
                Ok(n) => n == listed(fc, fc.len() as int),
                Err(_) => !pager.reliable(),
            },
{
    let meta = pager.committed_meta();
    let size: u32 = pager.page_size();
    let ghost pages = pager.pages();
    let ghost known = pager.free_ok();
    let ghost fc = choose|fc: crate::pager::FreeChain| #[trigger] pager.free_view(fc);
    let ghost mut i: int = 0;
    let most: u64 = if meta.page_count < MAX_PAGES {
        meta.page_count
    } else {
        MAX_PAGES
    };
    let mut fuel: u64 = most;
    let mut chain: PageId = meta.freelist_root;
    let mut count: u64 = 0;
    proof {
        pager.lemma_facts();
        assert forall|g: crate::pager::FreeChain| #[trigger] pager.free_view(g) implies known && g == fc by {
            crate::pager::lemma_free_chain_unique(
                pages,
                meta.freelist_root,
                g,
                fc,
                meta.page_count,
            );
        }
        if known {
            pager.lemma_facts();
            assert forall|i: int| 0 <= i < fc.len() implies (#[trigger] fc[i]).0 < most by {
                assert(pages.contains_key(fc[i].0));
            }
            lemma_chain_pages(fc, meta.page_count, most);
        }
    }
    while chain != NIL_PAGE
        invariant
            pager.wf(),
            pages == pager.pages(),
            meta == pager.meta(),
            size == pager.size(),
            crate::page::page_size_ok(size),
            fuel <= most <= MAX_PAGES,
            count <= (most - fuel) * 65536,
            forall|g: crate::pager::FreeChain| #[trigger] pager.free_view(g) ==> known && g == fc,
            known ==> {
                &&& pager.free_view(fc)
                &&& 0 <= i <= fc.len()
                &&& chain == (if i < fc.len() {
                    fc[i].0
                } else {
                    NIL_PAGE
                })
                &&& count == listed(fc, i)
                &&& fc.len() <= i + fuel
            },
        decreases fuel,
    {
        if fuel == 0 {
            return Err(Error::corrupted(Some(chain), "free list visits more pages than the file has"));
        }
        fuel = fuel - 1;
        let buf = match pager.read_page(chain) {
            Ok(b) => b,
            Err(e) => {
                proof {
                    if known {
                        assert(pages.contains_key(fc[i].0));
                    }
                }
                return Err(e);
            },
        };
        proof {
            if known {
                assert(pages.contains_key(fc[i].0));
                assert(crate::freelist::list_of(pages[fc[i].0]) == Some(
                    (crate::pager::free_link(fc, i), fc[i].1),
                ));
            }
        }
        let (next, ids) = match crate::freelist::decode_page(buf.as_slice(), chain) {
            Ok(x) => x,
            Err(e) => {
                return Err(e);
            },
        };
        let n: usize = ids.len();
        proof {
            assert(ids@.len() == crate::bytes::u16_at(buf@, 6));
            let spent = most - fuel;
            assert((spent - 1) * 65536 + 65535 <= spent * 65536);
            assert(spent * 65536 <= 0x8000_0000_0000int * 65536);
        }
        count = count + n as u64;
        chain = next;
        proof {
            if known {
                i = i + 1;
            }
        }
    }
    Ok(count)
}

/// A free list chain has no more pages than the file.
proof fn lemma_chain_pages(fc: crate::pager::FreeChain, count: u64, most: u64)
    requires
        crate::pager::chain_ok(fc, count),
        forall|i: int| 0 <= i < fc.len() ==> (#[trigger] fc[i]).0 < most,
    ensures
        fc.len() <= most,
{
    let l = Seq::new(fc.len(), |i: int| fc[i].0);
    assert forall|i: int, j: int| 0 <= i < j < l.len() implies l[i] != l[j] by {
        assert(fc[i].0 != fc[j].0);
    }
    assert forall|x: PageId| #[trigger] l.contains(x) implies x < most by {
        let i = choose|i: int| 0 <= i < l.len() && l[i] == x;
        assert(fc[i].0 == x);
    }
    lemma_list_len(l, most as nat);
}

impl<S: Storage> Db<S> {
    /// Diagnostic counters.
    #[verifier::spinoff_prover]
    #[verifier::rlimit(40)]
    pub fn stats(&self) -> (r: Result<DbStats>)
        requires
            self.wf(),
        ensures
            self.sound() ==> match r {
                Ok(s) => {
                    &&& s.page_count == self.store().meta().page_count
                    &&& s.head_pages == (if self.head().head_id == 0 {
                        0
                    } else {
                        pages_of(self.store(), records(self.store(), self.head())[0]).len()
                    })
                    &&& forall|fc: crate::pager::FreeChain| #[trigger]
                        self.store().free_view(fc) ==> s.free_pages == listed(fc, fc.len() as int)
                },
                Err(_) => !self.reliable(),
            } || !self.reliable(),
    {
        broadcast use vstd::std_specs::hash::group_hash_axioms;

        let meta = self.pager.committed_meta();
        let head = match branch_head(&self.pager, self.current.as_str()) {
            Ok(r) => r,
            Err(_) => implicit_ref(&self.pager),
        };
        let ghost p = self.pager;
        let ghost good = self.sound() && self.reliable();
        proof {
            if good {
                assert(branch_ok(p, head));
            }
        }
        let mut marked: HashSet<PageId> = HashSet::new();
        if head.head_id != 0 {
            let mut one: Vec<(PageId, CommitInfo)> = Vec::new();
            let rec = match commit::read_record(&self.pager, head.head_page) {
                Ok(r) => r,
                Err(e) => {
                    proof {
                        if good {
                            assert(p.pages().contains_key(records(p, head)[0].0));
                        }
                    }
                    return Err(e);
                },
            };
            one.push((head.head_page, rec));
            proof {
                if good {
                    let h = records(p, head);
                    assert(commit_of(p.pages()[h[0].0]) == Some(h[0].1));
                    assert(one@[0] == h[0]);
                    assert(record_ok(p, h[0]));
                    crate::mark::lemma_closed_empty(p.pages(), p.size());
                    assert(marked@ =~= Set::empty());
                }
            }
            if let Err(e) = mark_records(&self.pager, &one, 1, &mut marked) {
                return Err(e);
            }
            proof {
                if good {
                    let c = records(p, head)[0];
                    assert forall|x: PageId| #[trigger] marked@.contains(x) == pages_of(p, c).contains(x) by {
                        if held_first(p, one@, 1, x) {
                            let i = choose|i: int|
                                0 <= i < 1 && uses(p.pages(), p.size(), #[trigger] one@[i], x);
                            assert(one@[i] == c);
                        }
                        if uses(p.pages(), p.size(), c, x) {
                            assert(uses(p.pages(), p.size(), one@[0], x));
                        }
                    }
                    assert(marked@ =~= pages_of(p, c));
                }
            }
        }
        let free_pages: u64 = match count_free(&self.pager) {
            Ok(n) => n,
            Err(e) => {
                return Err(e);
            },
        };
        let head_pages: usize = marked.len();
        proof {
            if good && head.head_id == 0 {
                assert(marked@ =~= Set::empty());
            }
        }
        Ok(DbStats { page_count: meta.page_count, head_pages: head_pages as u64, free_pages })
    }
}

// ---------------------------------------------------------------------
// laws
// ---------------------------------------------------------------------

/// What a transaction wrote is what the next reader of its branch sees.
pub proof fn law_commit_is_read_back<'db, S: Storage>(tx: WriteTx<'db, S>, q: Pager<S>, now: u64)
    requires
        tx.batch.meta().txid < u64::MAX,
        tx_done(tx, q, now),
    ensures
        branch_of(q, tx.branch()) matches Some(r) && head_data(q, r) == tx.data() && head_catalog(q, r)
            == tx.catalog(),
{
}

/// A commit takes nothing away: every commit that could be read before can
/// be read after, and holds what it held.
pub proof fn law_commit_keeps_the_past<'db, S: Storage>(
    tx: WriteTx<'db, S>,
    q: Pager<S>,
    now: u64,
    c: Rec,
)
    requires
        tx.sound(),
        tx_done(tx, q, now),
        retained(tx.base(), c),
    ensures
        retained(q, c),
        data_of(q, c.1) == data_of(tx.base(), c.1),
        catalog_of(q, c.1) == catalog_of(tx.base(), c.1),
{
    let p = tx.base();
    let (name, i) = choose|name: Seq<char>, i: int| #[trigger] retained_at(p, name, i, c);
    let r = branch_of(p, name)->0;
    assert(branch_ok(p, r));
    assert(same_past(p, q, r));
    assert(crate::store::same_record(p, q, records(p, r)[i]));
    if name == tx.branch() {
        let s = branch_of(q, name)->0;
        assert(records(q, s).skip(1)[i] == records(q, s)[i + 1]);
        assert(retained_at(q, name, i + 1, c));
    } else {
        assert(branch_of(q, name) == branch_of(p, name));
        assert(retained_at(q, name, i, c));
    }
}

/// A commit advances its own branch and no other.
pub proof fn law_commit_moves_one_branch<'db, S: Storage>(
    tx: WriteTx<'db, S>,
    q: Pager<S>,
    now: u64,
    name: Seq<char>,
)
    requires
        tx.sound(),
        tx_done(tx, q, now),
        name != tx.branch(),
        branch_of(tx.base(), name) is Some,
    ensures
        branch_of(q, name) == branch_of(tx.base(), name),
        head_data(q, branch_of(q, name)->0) == head_data(tx.base(), branch_of(tx.base(), name)->0),
        head_catalog(q, branch_of(q, name)->0) == head_catalog(
            tx.base(),
            branch_of(tx.base(), name)->0,
        ),
{
    let p = tx.base();
    let r = branch_of(p, name)->0;
    assert(branch_of(q, name) == Some(r));
    assert(branch_ok(p, r));
    assert(same_past(p, q, r));
    if r.head_id != 0 {
        assert(crate::store::same_record(p, q, records(p, r)[0]));
    }
}

/// A collection never touches a commit it retains, nor the head of any
/// branch.
#[verifier::spinoff_prover]
#[verifier::rlimit(60)]
pub proof fn law_gc_keeps_retained_commits<S: Storage>(
    p: Pager<S>,
    q: Pager<S>,
    retain: int,
    name: Seq<char>,
    i: int,
)
    requires
        store_ok(p),
        retain > 0,
        gc_done(p, q, retain),
        branch_of(p, name) is Some,
        0 <= i < keep_count(records(p, branch_of(p, name)->0).len() as int, retain),
    ensures
        retained_at(q, name, i, records(p, branch_of(p, name)->0)[i]),
        data_of(q, records(p, branch_of(p, name)->0)[i].1) == data_of(
            p,
            records(p, branch_of(p, name)->0)[i].1,
        ),
        catalog_of(q, records(p, branch_of(p, name)->0)[i].1) == catalog_of(
            p,
            records(p, branch_of(p, name)->0)[i].1,
        ),
{
    let r = branch_of(p, name)->0;
    let c = collected(p, r, retain);
    assert(branch_ok(p, r));
    lemma_collected(p, r, retain);
    assert(branch_of(q, name) == Some(c));
    assert(records(p, c)[i] == records(p, r)[i]);
    assert(crate::store::same_record(p, q, records(p, c)[i]));
}

/// What a collection prunes is gone: no branch has it any more.
#[verifier::spinoff_prover]
#[verifier::rlimit(60)]
pub proof fn law_gc_prunes_the_rest<S: Storage>(p: Pager<S>, q: Pager<S>, retain: int, c: Rec)
    requires
        store_ok(p),
        retain > 0,
        gc_done(p, q, retain),
        retained(q, c),
    ensures
        exists|name: Seq<char>, i: int|
            #[trigger] retained_at(p, name, i, c) && i < keep_count(
                records(p, branch_of(p, name)->0).len() as int,
                retain,
            ),
{
    let (name, i) = choose|name: Seq<char>, i: int| #[trigger] retained_at(q, name, i, c);
    let r = branch_of(p, name)->0;
    assert(branch_of(q, name) == Some(collected(p, r, retain)));
    assert(branch_of(p, name) == Some(r));
    assert(records(p, r).take(keep_count(records(p, r).len() as int, retain))[i] == records(p, r)[i]);
    assert(retained_at(p, name, i, c));
}

} // verus!
