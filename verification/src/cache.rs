//! Userspace page cache with clock eviction.
//!
//! Deliberately boring: a map from page id to slot, a ring of slots, one
//! referenced bit per slot. Committed pages are immutable (COW discipline),
//! so this cache never has to deal with dirty entries.

use std::collections::HashMap;

use vstd::prelude::*;

use crate::bytes::copy_vec;
use crate::page::PageId;

verus! {

broadcast use vstd::std_specs::hash::group_hash_axioms;

pub struct PageCache {
    map: HashMap<PageId, usize>,
    slots: Vec<Slot>,
    hand: usize,
    capacity: usize,
}

struct Slot {
    id: PageId,
    buf: Vec<u8>,
    referenced: bool,
}

impl Slot {
    spec fn seen(&self) -> Cached {
        Cached { id: self.id, bytes: self.buf@, used: self.referenced }
    }
}

/// A cached page as the clock sees it.
#[verifier::ext_equal]
pub struct Cached {
    pub id: PageId,
    pub bytes: Seq<u8>,
    /// Whether it was used since the hand last passed.
    pub used: bool,
}

/// How many pages would get a second chance.
pub open spec fn busy(ring: Seq<Cached>) -> nat
    decreases ring.len(),
{
    if ring.len() == 0 {
        0
    } else {
        busy(ring.drop_last()) + (if ring.last().used {
            1nat
        } else {
            0
        })
    }
}

/// The ring with one page marked as used or resting.
pub open spec fn marked(ring: Seq<Cached>, i: int, used: bool) -> Seq<Cached> {
    ring.update(i, Cached { used, ..ring[i] })
}

/// The clock sweep: pages in use get a second chance, and the hand stops at
/// the first one that rests. Gives the ring after the sweep and where the
/// hand stops.
pub open spec fn sweep(ring: Seq<Cached>, hand: int) -> (Seq<Cached>, int)
    decreases busy(ring),
    when 0 <= hand < ring.len()
    via sweep_ends
{
    if ring[hand].used {
        sweep(marked(ring, hand, false), (hand + 1) % (ring.len() as int))
    } else {
        (ring, hand)
    }
}

#[via_fn]
proof fn sweep_ends(ring: Seq<Cached>, hand: int) {
    if ring[hand].used {
        lemma_marked(ring, hand);
    }
}

proof fn lemma_marked(ring: Seq<Cached>, i: int)
    requires
        0 <= i < ring.len(),
        ring[i].used,
    ensures
        busy(marked(ring, i, false)) < busy(ring),
    decreases ring.len(),
{
    let t = marked(ring, i, false);
    if i == ring.len() - 1 {
        assert(t.drop_last() =~= ring.drop_last());
    } else {
        lemma_marked(ring.drop_last(), i);
        assert(t.drop_last() =~= marked(ring.drop_last(), i, false));
    }
}

/// Where a page stands in the ring.
pub open spec fn stands_at(ring: Seq<Cached>, id: PageId, i: int) -> bool {
    0 <= i < ring.len() && ring[i].id == id
}

/// The ring and the hand after a page was remembered: over itself where it
/// is there, at the end while there is room, and else in place of the page
/// the sweep stops at.
pub open spec fn remembered(ring: Seq<Cached>, hand: int, limit: nat, page: Cached) -> (
    Seq<Cached>,
    int,
) {
    if exists|i: int| stands_at(ring, page.id, i) {
        (ring.update(choose|i: int| stands_at(ring, page.id, i), page), hand)
    } else if ring.len() < limit {
        (ring.push(page), hand)
    } else {
        let (rest, at) = sweep(ring, hand);
        (rest.update(at, page), (at + 1) % (ring.len() as int))
    }
}

impl PageCache {
    /// What is cached.
    pub closed spec fn view(&self) -> Map<PageId, Seq<u8>> {
        Map::new(
            |id: PageId| self.map@.contains_key(id),
            |id: PageId| self.slots@[self.map@[id] as int].buf@,
        )
    }

    /// The pages in the order the hand passes them.
    pub closed spec fn ring(&self) -> Seq<Cached> {
        Seq::new(self.slots@.len(), |i: int| self.slots@[i].seen())
    }

    /// Where the hand stands.
    pub closed spec fn at(&self) -> int {
        self.hand as int
    }

    /// Most pages it will hold.
    pub closed spec fn limit(&self) -> nat {
        self.capacity as nat
    }

    /// Map and slots name each other, and there are no more slots than
    /// allowed.
    pub closed spec fn wf(&self) -> bool {
        &&& self.capacity >= 8
        &&& self.slots@.len() <= self.capacity
        &&& self.hand == 0 || self.hand < self.slots@.len()
        &&& forall|id: PageId|
            #[trigger] self.map@.contains_key(id) ==> self.map@[id] < self.slots@.len()
                && self.slots@[self.map@[id] as int].id == id
        &&& forall|i: int|
            0 <= i < self.slots@.len() ==> self.map@.contains_key((#[trigger] self.slots@[i]).id)
                && self.map@[self.slots@[i].id] == i
    }

    /// A cache for `capacity` pages, at least eight.
    pub fn new(capacity: usize) -> (r: PageCache)
        ensures
            r.wf(),
            r@ == Map::<PageId, Seq<u8>>::empty(),
            r.ring() == Seq::<Cached>::empty(),
            r.at() == 0,
            r.limit() == if capacity < 8 {
                8
            } else {
                capacity as nat
            },
    {
        let r = PageCache {
            map: HashMap::new(),
            slots: Vec::new(),
            hand: 0,
            capacity: if capacity < 8 {
                8
            } else {
                capacity
            },
        };
        proof {
            assert(r@ =~= Map::<PageId, Seq<u8>>::empty());
        }
        r
    }

    /// What is cached is what stands in the ring, each page once.
    pub proof fn lemma_ring(&self)
        requires
            self.wf(),
        ensures
            self@.dom().finite(),
            self@.dom().len() == self.ring().len() <= self.limit(),
            self.at() == 0 || 0 <= self.at() < self.ring().len(),
            forall|i: int|
                0 <= i < self.ring().len() ==> self@.contains_key((#[trigger] self.ring()[i]).id)
                    && self@[self.ring()[i].id] == self.ring()[i].bytes,
            forall|i: int, j: int|
                0 <= i < j < self.ring().len() ==> (#[trigger] self.ring()[i]).id != (
                #[trigger] self.ring()[j]).id,
            forall|id: PageId| #[trigger]
                self@.contains_key(id) ==> exists|i: int| stands_at(self.ring(), id, i),
    {
        let ids = Seq::new(self.slots@.len(), |i: int| self.slots@[i].id);
        assert(ids.no_duplicates()) by {
            assert forall|i: int, j: int|
                0 <= i < ids.len() && 0 <= j < ids.len() && i != j implies ids[i] != ids[j] by {
                assert(self.map@[self.slots@[i].id] == i && self.map@[self.slots@[j].id] == j);
            }
        }
        assert(ids.to_set() =~= self@.dom()) by {
            assert forall|id: PageId| #[trigger] self@.dom().contains(id) implies ids.to_set().contains(
                id,
            ) by {
                let i = self.map@[id] as int;
                assert(ids[i] == id);
            }
            assert forall|id: PageId| #[trigger] ids.to_set().contains(id) implies self@.dom().contains(
                id,
            ) by {
                let i = choose|i: int| 0 <= i < ids.len() && ids[i] == id;
                assert(self.slots@[i].id == id);
            }
        }
        ids.unique_seq_to_set();
        assert forall|i: int, j: int| 0 <= i < j < self.ring().len() implies (
        #[trigger] self.ring()[i]).id != (#[trigger] self.ring()[j]).id by {
            assert(ids[i] != ids[j]);
        }
        assert forall|i: int| 0 <= i < self.ring().len() implies self@.contains_key(
            (#[trigger] self.ring()[i]).id,
        ) && self@[self.ring()[i].id] == self.ring()[i].bytes by {
            assert(self.map@[self.slots@[i].id] == i);
        }
        assert forall|id: PageId| #[trigger] self@.contains_key(id) implies exists|i: int|
            stands_at(self.ring(), id, i) by {
            assert(stands_at(self.ring(), id, self.map@[id] as int));
        }
    }

    /// How many pages are cached.
    pub fn len(&self) -> (r: usize)
        requires
            self.wf(),
        ensures
            r == self@.dom().len(),
            r == self.ring().len(),
            r <= self.limit(),
    {
        proof {
            self.lemma_ring();
        }
        self.slots.len()
    }

    /// A copy of a cached page, which then counts as used.
    pub fn get(&mut self, id: PageId) -> (r: Option<Vec<u8>>)
        requires
            old(self).wf(),
        ensures
            final(self).wf(),
            final(self)@ == old(self)@,
            final(self).limit() == old(self).limit(),
            final(self).at() == old(self).at(),
            match r {
                Some(b) => old(self)@.contains_key(id) && b@ == old(self)@[id] && exists|i: int|
                    #[trigger] stands_at(old(self).ring(), id, i) && final(self).ring() == marked(
                        old(self).ring(),
                        i,
                        true,
                    ),
                None => !old(self)@.contains_key(id) && final(self).ring() == old(self).ring(),
            },
    {
        let ghost before = *self;
        let i: usize = match self.map.get(&id) {
            None => {
                return None;
            },
            Some(i) => *i,
        };
        let buf = copy_vec(self.slots[i].buf.as_slice());
        self.slots[i].referenced = true;
        proof {
            assert(self.slots@.len() == before.slots@.len());
            assert forall|j: int| 0 <= j < self.slots@.len() implies (#[trigger] self.slots@[j]).id
                == before.slots@[j].id && self.slots@[j].buf == before.slots@[j].buf by {}
            assert forall|j: int| 0 <= j < self.slots@.len() implies self.map@.contains_key(
                (#[trigger] self.slots@[j]).id,
            ) && self.map@[self.slots@[j].id] == j by {
                assert(before.slots@[j].id == self.slots@[j].id);
            }
            assert(self@ =~= before@);
            assert(stands_at(before.ring(), id, i as int));
            assert(self.ring() =~= marked(before.ring(), i as int, true));
        }
        Some(buf)
    }

    /// Remember a page, evicting a resting one when the cache is full.
    pub fn insert(&mut self, id: PageId, buf: Vec<u8>)
        requires
            old(self).wf(),
        ensures
            final(self).wf(),
            final(self).limit() == old(self).limit(),
            (final(self).ring(), final(self).at()) == remembered(
                old(self).ring(),
                old(self).at(),
                old(self).limit(),
                Cached { id, bytes: buf@, used: true },
            ),
            final(self)@ == (if old(self)@.contains_key(id) || old(self)@.dom().len() < old(
                self,
            ).limit() {
                old(self)@.insert(id, buf@)
            } else {
                old(self)@.remove(
                    old(self).ring()[sweep(old(self).ring(), old(self).at()).1].id,
                ).insert(id, buf@)
            }),
    {
        let ghost before = *self;
        let ghost page = Cached { id, bytes: buf@, used: true };
        proof {
            before.lemma_ring();
        }
        let hit: Option<usize> = match self.map.get(&id) {
            None => None,
            Some(i) => Some(*i),
        };
        if let Some(i) = hit {
            self.slots[i].buf = buf;
            self.slots[i].referenced = true;
            proof {
                assert forall|j: int| 0 <= j < self.slots@.len() implies self.map@.contains_key(
                    (#[trigger] self.slots@[j]).id,
                ) && self.map@[self.slots@[j].id] == j by {
                    assert(before.slots@[j].id == self.slots@[j].id);
                }
                assert(stands_at(before.ring(), id, i as int));
                let c = choose|c: int| stands_at(before.ring(), id, c);
                assert(before.ring()[i as int].id == before.ring()[c].id);
                assert(c == i);
                assert(self.ring() =~= before.ring().update(i as int, page));
                assert(self@ =~= before@.insert(id, page.bytes));
            }
            return;
        }
        proof {
            assert forall|i: int| !stands_at(before.ring(), id, i) by {
                if stands_at(before.ring(), id, i) {
                    assert(before@.contains_key(before.ring()[i].id));
                }
            }
        }
        if self.slots.len() < self.capacity {
            let i: usize = self.slots.len();
            self.slots.push(Slot { id, buf, referenced: true });
            self.map.insert(id, i);
            proof {
                assert forall|j: int| 0 <= j < self.slots@.len() implies self.map@.contains_key(
                    (#[trigger] self.slots@[j]).id,
                ) && self.map@[self.slots@[j].id] == j by {
                    if j < i {
                        assert(before.slots@[j].id == self.slots@[j].id);
                        assert(before.map@.contains_key(before.slots@[j].id));
                    }
                }
                assert(self.ring() =~= before.ring().push(page));
                assert(self@ =~= before@.insert(id, page.bytes));
            }
            return;
        }
        // Clock sweep: give referenced slots a second chance, evict the
        // first slot found resting.
        while self.slots[self.hand].referenced
            invariant
                self.wf(),
                self.capacity == before.capacity,
                self.map@ == before.map@,
                self.slots@.len() == before.slots@.len() >= 8,
                self.hand < self.slots@.len(),
                sweep(self.ring(), self.at()) == sweep(before.ring(), before.at()),
                forall|j: int|
                    0 <= j < self.slots@.len() ==> (#[trigger] self.slots@[j]).id
                        == before.slots@[j].id && self.slots@[j].buf == before.slots@[j].buf,
            decreases busy(self.ring()),
        {
            let hand: usize = self.hand;
            let ghost old_slots = self.slots@;
            let ghost old_ring = self.ring();
            self.slots[hand].referenced = false;
            proof {
                let s = self.slots@[hand as int];
                assert(self.slots@ =~= old_slots.update(hand as int, s));
                assert(old_ring[hand as int].used);
                assert(self.ring() =~= marked(old_ring, hand as int, false));
                lemma_marked(old_ring, hand as int);
                assert forall|j: int| 0 <= j < self.slots@.len() implies self.map@.contains_key(
                    (#[trigger] self.slots@[j]).id,
                ) && self.map@[self.slots@[j].id] == j by {
                    assert(old_slots[j].id == self.slots@[j].id);
                }
                assert forall|j: int| 0 <= j < self.slots@.len() implies (#[trigger] self.slots@[j]).id
                    == before.slots@[j].id && self.slots@[j].buf == before.slots@[j].buf by {
                    assert(old_slots[j].id == self.slots@[j].id);
                }
            }
            self.hand = (hand + 1) % self.slots.len();
        }
        let hand: usize = self.hand;
        let ghost rest = self.ring();
        let old_id: PageId = self.slots[hand].id;
        proof {
            assert(!rest[hand as int].used);
            assert(sweep(before.ring(), before.at()) == (rest, hand as int));
            assert(before.ring()[hand as int].id == old_id);
        }
        self.slots[hand] = Slot { id, buf, referenced: true };
        self.map.remove(&old_id);
        self.map.insert(id, hand);
        self.hand = (hand + 1) % self.slots.len();
        proof {
            assert forall|j: int| 0 <= j < self.slots@.len() implies self.map@.contains_key(
                (#[trigger] self.slots@[j]).id,
            ) && self.map@[self.slots@[j].id] == j by {
                if j != hand {
                    assert(before.slots@[j].id == self.slots@[j].id);
                    assert(before.map@[before.slots@[j].id] == j);
                    assert(before.map@[before.slots@[hand as int].id] == hand);
                }
            }
            assert forall|x: PageId| #[trigger] self.map@.contains_key(x) implies self.map@[x]
                < self.slots@.len() && self.slots@[self.map@[x] as int].id == x by {
                if x != id {
                    assert(before.map@.contains_key(x));
                    assert(before.slots@[before.map@[x] as int].id == x);
                }
            }
            assert(self.ring() =~= rest.update(hand as int, page));
            assert forall|x: PageId| #[trigger] self@.contains_key(x) && x != id implies before@[x]
                == self@[x] by {
                assert(before.map@.contains_key(x));
                assert(before.slots@[before.map@[x] as int].id == x);
            }
            assert(self@ =~= before@.remove(old_id).insert(id, page.bytes));
        }
    }
}

} // verus!
