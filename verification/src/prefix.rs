//! Key ranges that cover a prefix.

use vstd::prelude::*;

use crate::bytes::copy_vec;
use crate::order::{lex_le, lex_lt};

verus! {

/// Smallest byte string greater than every extension of `p`, if there is
/// one.
pub open spec fn successor(p: Seq<u8>) -> Option<Seq<u8>>
    decreases p.len(),
{
    if p.len() == 0 {
        None
    } else {
        match successor(p.skip(1)) {
            Some(t) => Some(seq![p[0]] + t),
            None => if p[0] < 255 {
                Some(seq![(p[0] + 1) as u8])
            } else {
                None
            },
        }
    }
}

/// Whether `k` is below an upper bound, where there is one.
pub open spec fn under(k: Seq<u8>, end: Option<Seq<u8>>) -> bool {
    match end {
        Some(e) => lex_lt(k, e),
        None => true,
    }
}

/// Of the keys from a prefix on, those below its successor are exactly its
/// extensions.
pub proof fn law_successor_covers_prefix(p: Seq<u8>, k: Seq<u8>)
    ensures
        (lex_le(p, k) && under(k, successor(p))) == p.is_prefix_of(k),
    decreases p.len(),
{
    if p.len() == 0 {
        assert(p =~= Seq::empty());
        assert(k.subrange(0, 0) =~= p);
        if k.len() == 0 {
            assert(k =~= p);
        }
    } else if k.len() == 0 {
    } else {
        let a = p.skip(1);
        let b = k.skip(1);
        law_successor_covers_prefix(a, b);
        if p[0] == k[0] {
            assert(p.is_prefix_of(k) == a.is_prefix_of(b)) by {
                if p.is_prefix_of(k) {
                    assert(k.subrange(0, p.len() as int) == p);
                    assert(b.subrange(0, a.len() as int) =~= a) by {
                        assert forall|i: int| 0 <= i < a.len() implies b[i] == a[i] by {
                            assert(k.subrange(0, p.len() as int)[i + 1] == p[i + 1]);
                        }
                    }
                }
                if a.is_prefix_of(b) {
                    assert(k.subrange(0, p.len() as int) =~= p) by {
                        assert forall|i: int| 0 <= i < p.len() implies k[i] == p[i] by {
                            if i > 0 {
                                assert(b.subrange(0, a.len() as int)[i - 1] == a[i - 1]);
                            }
                        }
                    }
                }
            }
            assert(p == k <==> a == b) by {
                if a == b {
                    assert(p =~= seq![p[0]] + a);
                    assert(k =~= seq![k[0]] + b);
                }
            }
            assert(lex_le(p, k) == lex_le(a, b));
            match successor(a) {
                Some(t) => {
                    let s = seq![p[0]] + t;
                    assert(s.skip(1) =~= t);
                    assert(lex_lt(k, s) == lex_lt(b, t));
                },
                None => {
                    if p[0] < 255 {
                        let s = seq![(p[0] + 1) as u8];
                        assert(lex_lt(k, s));
                    }
                },
            }
        } else {
            if p.is_prefix_of(k) {
                assert(k.subrange(0, p.len() as int)[0] == p[0]);
            }
            match successor(a) {
                Some(t) => {
                    let s = seq![p[0]] + t;
                    assert(s[0] == p[0]);
                },
                None => {
                    if p[0] < 255 {
                        let s = seq![(p[0] + 1) as u8];
                        assert(s.skip(1).len() == 0);
                        assert(!lex_lt(b, s.skip(1)));
                    }
                },
            }
        }
    }
}

proof fn lemma_successor_push(q: Seq<u8>, b: u8)
    ensures
        successor(q.push(b)) == (if b < 255 {
            Some(q.push((b + 1) as u8))
        } else {
            successor(q)
        }),
    decreases q.len(),
{
    let p = q.push(b);
    if q.len() == 0 {
        assert(p.skip(1).len() == 0);
        assert(successor(p.skip(1)) is None);
        assert(seq![(b + 1) as u8] =~= q.push((b + 1) as u8));
    } else {
        lemma_successor_push(q.skip(1), b);
        assert(p.skip(1) =~= q.skip(1).push(b));
        if b < 255 {
            assert(seq![p[0]] + q.skip(1).push((b + 1) as u8) =~= q.push((b + 1) as u8));
        }
    }
}

/// Smallest byte string greater than every extension of `prefix`.
pub fn prefix_successor(prefix: &[u8]) -> (r: Option<Vec<u8>>)
    ensures
        match r {
            Some(s) => successor(prefix@) == Some(s@),
            None => successor(prefix@) is None,
        },
{
    let mut out: Vec<u8> = copy_vec(prefix);
    while out.len() > 0
        invariant
            successor(out@) == successor(prefix@),
        decreases out@.len(),
    {
        let n: usize = out.len();
        let last: u8 = out[n - 1];
        let ghost q = out@.drop_last();
        proof {
            assert(q.push(last) =~= out@);
            lemma_successor_push(q, last);
        }
        if last == 0xFF {
            out.truncate(n - 1);
            proof {
                assert(out@ =~= q);
            }
        } else {
            out[n - 1] = last + 1;
            proof {
                assert(out@ =~= q.push((last + 1) as u8));
            }
            return Some(out);
        }
    }
    None
}

} // verus!
