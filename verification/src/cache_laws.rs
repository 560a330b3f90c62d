//! Which page the cache gives up.

use vstd::prelude::*;

use crate::cache::{marked, sweep, Cached};

verus! {

/// The place `k` steps on from the hand, round a ring of `n`.
pub open spec fn round(hand: int, k: int, n: int) -> int {
    if hand + k < n {
        hand + k
    } else {
        hand + k - n
    }
}

/// The hand passes the pages in use and stops at the first one that rests.
/// Those it passed rest from now on; every page keeps its place and its
/// bytes.
pub proof fn law_sweep_stops_at_the_first_resting_page(ring: Seq<Cached>, hand: int, k: int)
    requires
        0 <= hand < ring.len(),
        0 <= k < ring.len(),
        !ring[round(hand, k, ring.len() as int)].used,
        forall|j: int| 0 <= j < k ==> (#[trigger] ring[round(hand, j, ring.len() as int)]).used,
    ensures
        sweep(ring, hand).1 == round(hand, k, ring.len() as int),
        sweep(ring, hand).0.len() == ring.len(),
        forall|i: int|
            0 <= i < ring.len() ==> {
                let after = #[trigger] sweep(ring, hand).0[i];
                &&& after.id == ring[i].id
                &&& after.bytes == ring[i].bytes
                &&& after.used ==> ring[i].used
            },
        forall|j: int|
            0 <= j < k ==> !sweep(ring, hand).0[#[trigger] round(hand, j, ring.len() as int)].used,
        forall|j: int|
            k < j < ring.len() ==> sweep(ring, hand).0[#[trigger] round(
                hand,
                j,
                ring.len() as int,
            )] == ring[round(hand, j, ring.len() as int)],
    decreases k,
{
    let n = ring.len() as int;
    assert(round(hand, 0, n) == hand);
    if k > 0 {
        assert(ring[round(hand, 0, n)].used);
        let next = marked(ring, hand, false);
        let on = (hand + 1) % n;
        assert(on == round(hand, 1, n)) by {
            if hand + 1 == n {
                assert(n % n == 0) by (nonlinear_arith)
                    requires
                        n > 0,
                ;
            } else {
                vstd::arithmetic::div_mod::lemma_small_mod((hand + 1) as nat, n as nat);
            }
        }
        assert forall|j: int| 0 <= j < k - 1 implies (#[trigger] next[round(on, j, n)]).used by {
            assert(round(on, j, n) == round(hand, j + 1, n));
            assert(ring[round(hand, j + 1, n)].used);
        }
        assert(round(on, k - 1, n) == round(hand, k, n));
        law_sweep_stops_at_the_first_resting_page(next, on, k - 1);
        assert(sweep(ring, hand) == sweep(next, on));
        let after = sweep(ring, hand).0;
        assert forall|j: int| 0 <= j < k implies !after[#[trigger] round(hand, j, n)].used by {
            if j > 0 {
                assert(round(on, j - 1, n) == round(hand, j, n));
            } else {
                assert(!next[hand].used);
                assert(after[hand].used ==> next[hand].used);
            }
        }
        assert forall|j: int| k < j < n implies after[#[trigger] round(hand, j, n)] == ring[round(
            hand,
            j,
            n,
        )] by {
            assert(round(on, j - 1, n) == round(hand, j, n));
        }
        assert forall|i: int| 0 <= i < n implies {
            let a = #[trigger] after[i];
            &&& a.id == ring[i].id
            &&& a.bytes == ring[i].bytes
            &&& a.used ==> ring[i].used
        } by {
            assert(after[i].id == next[i].id);
        }
    }
}

/// Where every page is in use, the hand goes once round and gives up the
/// page it started from.
pub proof fn law_sweep_goes_once_round(ring: Seq<Cached>, hand: int)
    requires
        0 <= hand < ring.len(),
        forall|i: int| 0 <= i < ring.len() ==> (#[trigger] ring[i]).used,
    ensures
        sweep(ring, hand).1 == hand,
{
    let n = ring.len() as int;
    let next = marked(ring, hand, false);
    let on = (hand + 1) % n;
    assert(ring[hand].used);
    assert(on == round(hand, 1, n)) by {
        if hand + 1 == n {
            assert(n % n == 0) by (nonlinear_arith)
                requires
                    n > 0,
            ;
        } else {
            vstd::arithmetic::div_mod::lemma_small_mod((hand + 1) as nat, n as nat);
        }
    }
    assert(round(on, n - 1, n) == hand);
    assert forall|j: int| 0 <= j < n - 1 implies (#[trigger] next[round(on, j, n)]).used by {
        assert(round(on, j, n) != hand);
        assert(ring[round(on, j, n)].used);
    }
    law_sweep_stops_at_the_first_resting_page(next, on, n - 1);
    assert(sweep(ring, hand) == sweep(next, on));
}

} // verus!
