//! Which way a plan takes to its rows.

use vstd::prelude::*;

use crate::ast::{BinaryOp, Name, Term};
use crate::catalog::{key_spots, lemma_key_spots, Tab};
use crate::encoding::Val;
use crate::exec_error::Fail;
use crate::expr_laws::both;
use crate::plan::{
    conj, key_pinned, lemma_pinned, lemma_probed, pinned, pins, pins_index, pins_key, planned,
    probed, Path, Way,
};
use crate::rows::place;

verus! {

/// Whether a condition sets a column equal to a literal, either side first.
pub open spec fn equates(part: Term, n: Name, v: Val) -> bool {
    ||| part == both(Term::Column(n), BinaryOp::Eq, Term::Literal(v))
    ||| part == both(Term::Literal(v), BinaryOp::Eq, Term::Column(n))
}

/// Whether one of the conditions sets a column equal to a literal that is
/// not null.
pub open spec fn settled_at(t: Tab, parts: Seq<Term>, p: int) -> bool {
    exists|i: int, n: Name, v: Val|
        0 <= i < parts.len() && #[trigger] equates(parts[i], n, v) && place(t, n) == Some(p) && !(v is Null)
}

/// Whether one of the conditions sets an indexed column equal to a literal.
pub open spec fn indexed_at(t: Tab, parts: Seq<Term>) -> bool {
    exists|i: int, n: Name, v: Val|
        0 <= i < parts.len() && #[trigger] equates(parts[i], n, v) && (place(t, n) matches Some(p)
            && t.columns[p].index_id is Some)
}

proof fn lemma_pins(part: Term)
    ensures
        forall|n: Name, v: Val| #[trigger] equates(part, n, v) <==> pins(part) == Some((n, v)),
{
    assert forall|n: Name, v: Val| #[trigger] equates(part, n, v) <==> pins(part) == Some(
        (n, v),
    ) by {
        match part {
            Term::Binary(l, op, r) => {
                if op is Eq {
                    match (*l, *r) {
                        (Term::Column(c), Term::Literal(w)) => {
                            assert(part == both(Term::Column(c), BinaryOp::Eq, Term::Literal(w)));
                        },
                        (Term::Literal(w), Term::Column(c)) => {
                            assert(part == both(Term::Literal(w), BinaryOp::Eq, Term::Column(c)));
                        },
                        _ => {},
                    }
                }
            },
            _ => {},
        }
    }
}

proof fn lemma_settled(t: Tab, parts: Seq<Term>, p: int)
    ensures
        settled_at(t, parts, p) <==> pinned(t, parts, p) is Some,
{
    lemma_pinned(t, parts, p);
    if settled_at(t, parts, p) {
        let (i, n, v) = choose|i: int, n: Name, v: Val|
            0 <= i < parts.len() && #[trigger] equates(parts[i], n, v) && place(t, n) == Some(p)
                && !(v is Null);
        lemma_pins(parts[i]);
        assert(pins_key(t, parts[i], p));
    }
    if pinned(t, parts, p) is Some {
        let i = pinned(t, parts, p)->0;
        lemma_pins(parts[i]);
        let (n, v) = pins(parts[i])->0;
        assert(equates(parts[i], n, v));
    }
}

proof fn lemma_not_probed(t: Tab, parts: Seq<Term>)
    ensures
        probed(t, parts) is None ==> forall|i: int|
            0 <= i < parts.len() ==> !pins_index(t, #[trigger] parts[i]),
    decreases parts.len(),
{
    if parts.len() > 0 && probed(t, parts) is None {
        let less = parts.drop_last();
        lemma_not_probed(t, less);
        assert forall|i: int| 0 <= i < parts.len() implies !pins_index(t, #[trigger] parts[i]) by {
            if i < less.len() {
                assert(less[i] == parts[i]);
            } else {
                assert(parts[i] == parts.last());
            }
        }
    }
}

proof fn lemma_indexed(t: Tab, parts: Seq<Term>)
    ensures
        indexed_at(t, parts) <==> probed(t, parts) is Some,
{
    lemma_probed(t, parts);
    lemma_not_probed(t, parts);
    if indexed_at(t, parts) {
        let (i, n, v) = choose|i: int, n: Name, v: Val|
            0 <= i < parts.len() && #[trigger] equates(parts[i], n, v) && (place(t, n) matches Some(
                p,
            ) && t.columns[p].index_id is Some);
        lemma_pins(parts[i]);
        assert(pins_index(t, parts[i]));
    }
    if probed(t, parts) is Some {
        let i = probed(t, parts)->0;
        lemma_pins(parts[i]);
        let (n, v) = pins(parts[i])->0;
        assert(equates(parts[i], n, v));
    }
}

/// A filter that sets every key column equal to a literal looks its row up.
/// Otherwise one that sets an indexed column equal to a literal goes through
/// the index. Every other one reads the whole table.
pub proof fn law_the_shortest_way_is_taken(t: Tab, f: Term)
    requires
        planned(t, Some(f)) is Ok,
    ensures
        ({
            let path = planned(t, Some(f))->Ok_0.path;
            let keyed = forall|p: int|
                0 <= p < t.columns.len() && (#[trigger] t.columns[p]).key ==> settled_at(
                    t,
                    conj(f),
                    p,
                );
            &&& path is KeyLookup <==> keyed
            &&& path is IndexScan <==> !keyed && indexed_at(t, conj(f))
            &&& path is SeqScan <==> !keyed && !indexed_at(t, conj(f))
        }),
{
    let parts = conj(f);
    let s = key_spots(t.columns);
    lemma_key_spots(t.columns);
    lemma_indexed(t, parts);
    if key_pinned(t, parts) {
        assert forall|p: int| 0 <= p < t.columns.len() && (#[trigger] t.columns[p]).key implies settled_at(
            t,
            parts,
            p,
        ) by {
            assert(s.contains(p));
            let k = choose|k: int| 0 <= k < s.len() && s[k] == p;
            assert(pinned(t, parts, s[k]) is Some);
            lemma_settled(t, parts, p);
        }
    } else {
        let k = choose|k: int|
            0 <= k < s.len() && pinned(t, parts, #[trigger] key_spots(t.columns)[k]) is None;
        assert(t.columns[s[k]].key);
        lemma_settled(t, parts, s[k]);
    }
}

/// Without a filter the whole table is read and nothing is left out.
pub proof fn law_no_filter_reads_everything(t: Tab)
    ensures
        planned(t, None) == Ok::<Way, Fail>(Way { path: Path::SeqScan, residual: None }),
{
}

} // verus!
