//! What sorted rows look like, told by the values they are sorted by.

use vstd::prelude::*;
use vstd::utf8::encode_utf8;

use crate::ast::{Direction, TypeName};
use crate::encoding::Val;
use crate::expr_laws::{lemma_sooner, lesser, of_type, sooner};
use crate::sorting::{
    arranged, before, in_order, law_one_type_orders_consistently, law_sorting_keeps_every_row,
    law_sorting_sorts, lemma_arranged_members, Row,
};

verus! {

/// Whether a value may stand before another where small ones come first:
/// null before everything, numbers by size, texts and bytes by their bytes,
/// false before true.
pub open spec fn climbs(a: Val, b: Val) -> bool {
    match (a, b) {
        (Val::Null, _) => true,
        (_, Val::Null) => false,
        (Val::Int(x), Val::Int(y)) => x <= y,
        (Val::Bool(x), Val::Bool(y)) => !x || y,
        (Val::Text(x), Val::Text(y)) => !sooner(encode_utf8(y), encode_utf8(x)),
        (Val::Bytes(x), Val::Bytes(y)) => !sooner(y, x),
        (Val::Float(x), Val::Float(y)) => !lesser(y, x),
        _ => false,
    }
}

/// Whether all values of a column are of one type, or null.
pub open spec fn one_type(rows: Seq<Row>, pos: int, ty: TypeName) -> bool {
    forall|i: int| 0 <= i < rows.len() ==> of_type((#[trigger] rows[i])[pos], ty) || rows[i][pos] is Null
}

/// Whether a column climbs from row to row, or falls.
pub open spec fn monotone(rows: Seq<Row>, pos: int, dir: Direction) -> bool {
    forall|i: int, j: int|
        0 <= i < j < rows.len() ==> if dir is Asc {
            climbs((#[trigger] rows[i])[pos], (#[trigger] rows[j])[pos])
        } else {
            climbs(rows[j][pos], rows[i][pos])
        }
}

proof fn lemma_climbs(a: Row, b: Row, pos: int, ty: TypeName)
    requires
        of_type(a[pos], ty) || a[pos] is Null,
        of_type(b[pos], ty) || b[pos] is Null,
    ensures
        climbs(a[pos], b[pos]) <==> !before(b, a, pos, Direction::Asc),
        climbs(b[pos], a[pos]) <==> !before(b, a, pos, Direction::Desc),
{
    crate::order::lemma_lex_facts();
    match (a[pos], b[pos]) {
        (Val::Text(x), Val::Text(y)) => {
            lemma_sooner(encode_utf8(x), encode_utf8(y));
            lemma_sooner(encode_utf8(y), encode_utf8(x));
        },
        (Val::Bytes(x), Val::Bytes(y)) => {
            lemma_sooner(x, y);
            lemma_sooner(y, x);
        },
        _ => {},
    }
}

proof fn lemma_one_type(rows: Seq<Row>, pos: int, dir: Direction, ty: TypeName)
    requires
        one_type(rows, pos, ty),
    ensures
        in_order(arranged(rows, pos, dir), pos, dir),
        one_type(arranged(rows, pos, dir), pos, ty),
{
    assert forall|r: Row| #[trigger] rows.contains(r) implies crate::plan::typed(r[pos], ty) by {
        let i = choose|i: int| 0 <= i < rows.len() && rows[i] == r;
        assert(rows[i] == r);
    }
    law_one_type_orders_consistently(rows, pos, dir, ty);
    law_sorting_sorts(rows, pos, dir);
    let out = arranged(rows, pos, dir);
    assert forall|i: int| 0 <= i < out.len() implies of_type((#[trigger] out[i])[pos], ty)
        || out[i][pos] is Null by {
        assert(out.contains(out[i]));
        lemma_arranged_members(rows, pos, dir, out[i]);
        let k = choose|k: int| 0 <= k < rows.len() && rows[k] == out[i];
        assert(rows[k] == out[i]);
    }
}

/// Sorted rows are the rows there were, and the column they are sorted by
/// climbs where the order is ascending and falls where it is descending.
pub proof fn law_sorted_columns_climb(rows: Seq<Row>, pos: int, dir: Direction, ty: TypeName)
    requires
        one_type(rows, pos, ty),
    ensures
        monotone(arranged(rows, pos, dir), pos, dir),
        arranged(rows, pos, dir).to_multiset() == rows.to_multiset(),
        arranged(rows, pos, dir).len() == rows.len(),
{
    let out = arranged(rows, pos, dir);
    lemma_one_type(rows, pos, dir, ty);
    law_sorting_keeps_every_row(rows, pos, dir);
    out.to_multiset_ensures();
    rows.to_multiset_ensures();
    assert forall|i: int, j: int| 0 <= i < j < out.len() implies if dir is Asc {
        climbs((#[trigger] out[i])[pos], (#[trigger] out[j])[pos])
    } else {
        climbs(out[j][pos], out[i][pos])
    } by {
        lemma_climbs(out[i], out[j], pos, ty);
        assert(!before(out[j], out[i], pos, dir));
    }
}

/// After an ascending sort by a column of integers, the integers climb and
/// the nulls come first; after a descending one they fall and the nulls come
/// last.
pub proof fn law_sorted_integers(rows: Seq<Row>, pos: int, dir: Direction, i: int, j: int)
    requires
        one_type(rows, pos, TypeName::Int),
        0 <= i < j < rows.len(),
    ensures
        ({
            let a = arranged(rows, pos, dir)[i][pos];
            let b = arranged(rows, pos, dir)[j][pos];
            &&& dir is Asc ==> (b is Null ==> a is Null)
            &&& dir is Desc ==> (a is Null ==> b is Null)
            &&& a matches Val::Int(x) ==> (b matches Val::Int(y) ==> if dir is Asc {
                x <= y
            } else {
                x >= y
            })
        }),
{
    law_sorted_columns_climb(rows, pos, dir, TypeName::Int);
    let out = arranged(rows, pos, dir);
    lemma_one_type(rows, pos, dir, TypeName::Int);
    assert(out[i][pos] is Int || out[i][pos] is Null);
    assert(out[j][pos] is Int || out[j][pos] is Null);
}

/// After an ascending sort by a column of texts, none comes after a text
/// whose bytes come later, and the nulls come first; a descending sort is
/// the other way round.
pub proof fn law_sorted_texts(rows: Seq<Row>, pos: int, dir: Direction, i: int, j: int)
    requires
        one_type(rows, pos, TypeName::Text),
        0 <= i < j < rows.len(),
    ensures
        ({
            let a = arranged(rows, pos, dir)[i][pos];
            let b = arranged(rows, pos, dir)[j][pos];
            &&& dir is Asc ==> (b is Null ==> a is Null)
            &&& dir is Desc ==> (a is Null ==> b is Null)
            &&& a matches Val::Text(x) ==> (b matches Val::Text(y) ==> if dir is Asc {
                x == y || sooner(encode_utf8(x), encode_utf8(y))
            } else {
                x == y || sooner(encode_utf8(y), encode_utf8(x))
            })
        }),
{
    law_sorted_columns_climb(rows, pos, dir, TypeName::Text);
    let out = arranged(rows, pos, dir);
    lemma_one_type(rows, pos, dir, TypeName::Text);
    assert(out[i][pos] is Text || out[i][pos] is Null);
    assert(out[j][pos] is Text || out[j][pos] is Null);
    if let (Val::Text(x), Val::Text(y)) = (out[i][pos], out[j][pos]) {
        crate::expr_laws::lemma_sooner_or_later(encode_utf8(x), encode_utf8(y));
        vstd::utf8::encode_utf8_decode_utf8(x);
        vstd::utf8::encode_utf8_decode_utf8(y);
    }
}

/// After an ascending sort by a column of bools, nothing false comes after
/// anything true, and the nulls come first; a descending sort is the other
/// way round.
pub proof fn law_sorted_bools(rows: Seq<Row>, pos: int, dir: Direction, i: int, j: int)
    requires
        one_type(rows, pos, TypeName::Bool),
        0 <= i < j < rows.len(),
    ensures
        ({
            let a = arranged(rows, pos, dir)[i][pos];
            let b = arranged(rows, pos, dir)[j][pos];
            &&& dir is Asc ==> (b is Null ==> a is Null) && (a == Val::Bool(true) ==> b
                == Val::Bool(true))
            &&& dir is Desc ==> (a is Null ==> b is Null) && (b == Val::Bool(true) ==> a
                == Val::Bool(true))
        }),
{
    law_sorted_columns_climb(rows, pos, dir, TypeName::Bool);
    let out = arranged(rows, pos, dir);
    lemma_one_type(rows, pos, dir, TypeName::Bool);
    assert(out[i][pos] is Bool || out[i][pos] is Null);
    assert(out[j][pos] is Bool || out[j][pos] is Null);
}

/// Whether no two rows have the same value.
pub open spec fn all_differ(rows: Seq<Row>, pos: int) -> bool {
    forall|i: int, j: int|
        0 <= i < j < rows.len() ==> (#[trigger] rows[i])[pos] != (#[trigger] rows[j])[pos]
}

proof fn lemma_strict(a: Row, b: Row, pos: int, ty: TypeName)
    requires
        of_type(a[pos], ty) || a[pos] is Null,
        of_type(b[pos], ty) || b[pos] is Null,
        a[pos] != b[pos],
    ensures
        before(a, b, pos, Direction::Asc) <==> !before(b, a, pos, Direction::Asc),
        before(a, b, pos, Direction::Asc) <==> before(b, a, pos, Direction::Desc),
{
    crate::order::lemma_lex_facts();
    match (a[pos], b[pos]) {
        (Val::Text(x), Val::Text(y)) => {
            vstd::utf8::encode_utf8_decode_utf8(x);
            vstd::utf8::encode_utf8_decode_utf8(y);
        },
        _ => {},
    }
}

/// Whether every row has to come before every later one.
spec fn strict(rows: Seq<Row>, pos: int) -> bool {
    forall|i: int, j: int|
        0 <= i < j < rows.len() ==> before(
            #[trigger] rows[i],
            #[trigger] rows[j],
            pos,
            Direction::Asc,
        )
}

proof fn lemma_before_one_way(a: Row, b: Row, pos: int)
    ensures
        before(a, b, pos, Direction::Asc) ==> !before(b, a, pos, Direction::Asc),
        !before(a, a, pos, Direction::Asc),
{
    crate::order::lemma_lex_facts();
}

/// The same rows in strict order are the same list.
proof fn lemma_strict_is_unique(a: Seq<Row>, b: Seq<Row>, pos: int)
    requires
        strict(a, pos),
        strict(b, pos),
        a.to_multiset() == b.to_multiset(),
    ensures
        a == b,
    decreases a.len(),
{
    a.to_multiset_ensures();
    b.to_multiset_ensures();
    assert(a.len() == b.len());
    if a.len() == 0 {
        assert(a =~= b);
    } else {
        let n = a.len() - 1;
        let x = a[n];
        let y = b[n];
        assert(a.contains(x));
        assert(a.to_multiset().contains(x));
        assert(b.contains(x));
        let k = choose|k: int| 0 <= k < b.len() && b[k] == x;
        assert(b.contains(y));
        assert(b.to_multiset().contains(y));
        assert(a.contains(y));
        let j = choose|j: int| 0 <= j < a.len() && a[j] == y;
        if k < n && j < n {
            assert(before(b[k], b[n], pos, Direction::Asc));
            assert(before(a[j], a[n], pos, Direction::Asc));
            lemma_before_one_way(x, y, pos);
        }
        assert(x == y);
        let p = a.drop_last();
        let q = b.drop_last();
        assert(p.push(x) =~= a);
        assert(q.push(x) =~= b);
        p.to_multiset_ensures();
        q.to_multiset_ensures();
        assert(p.to_multiset() =~= a.to_multiset().remove(x));
        assert(q.to_multiset() =~= b.to_multiset().remove(x));
        assert(strict(p, pos)) by {
            assert forall|i: int, j: int| 0 <= i < j < p.len() implies before(
                #[trigger] p[i],
                #[trigger] p[j],
                pos,
                Direction::Asc,
            ) by {
                assert(before(a[i], a[j], pos, Direction::Asc));
            }
        }
        assert(strict(q, pos)) by {
            assert forall|i: int, j: int| 0 <= i < j < q.len() implies before(
                #[trigger] q[i],
                #[trigger] q[j],
                pos,
                Direction::Asc,
            ) by {
                assert(before(b[i], b[j], pos, Direction::Asc));
            }
        }
        lemma_strict_is_unique(p, q, pos);
    }
}

/// Rows with different values keep different values however they are laid
/// out.
proof fn lemma_still_differ(a: Seq<Row>, b: Seq<Row>, pos: int)
    requires
        all_differ(a, pos),
        a.to_multiset() == b.to_multiset(),
    ensures
        all_differ(b, pos),
{
    a.to_multiset_ensures();
    b.to_multiset_ensures();
    assert(a.no_duplicates()) by {
        assert forall|i: int, j: int| 0 <= i < a.len() && 0 <= j < a.len() && i != j implies a[i]
            != a[j] by {
            if i < j {
                assert(a[i][pos] != a[j][pos]);
            } else {
                assert(a[j][pos] != a[i][pos]);
            }
        }
    }
    a.lemma_multiset_has_no_duplicates();
    b.lemma_multiset_has_no_duplicates_conv();
    assert forall|i: int, j: int| 0 <= i < j < b.len() implies (#[trigger] b[i])[pos] != (
    #[trigger] b[j])[pos] by {
        assert(b.to_multiset().contains(b[i]) && b.to_multiset().contains(b[j]));
        assert(a.contains(b[i]) && a.contains(b[j]));
        let k = choose|k: int| 0 <= k < a.len() && a[k] == b[i];
        let l = choose|l: int| 0 <= l < a.len() && a[l] == b[j];
        assert(b[i] != b[j]);
        if k < l {
            assert(a[k][pos] != a[l][pos]);
        } else {
            assert(a[l][pos] != a[k][pos]);
        }
    }
}

/// On rows with different values ascending order is descending order read
/// backwards.
pub proof fn law_ascending_is_descending_backwards(rows: Seq<Row>, pos: int, ty: TypeName)
    requires
        one_type(rows, pos, ty),
        all_differ(rows, pos),
    ensures
        arranged(rows, pos, Direction::Asc) == arranged(rows, pos, Direction::Desc).reverse(),
{
    let up = arranged(rows, pos, Direction::Asc);
    let down = arranged(rows, pos, Direction::Desc);
    let back = down.reverse();
    law_sorted_columns_climb(rows, pos, Direction::Asc, ty);
    law_sorted_columns_climb(rows, pos, Direction::Desc, ty);
    lemma_one_type(rows, pos, Direction::Asc, ty);
    lemma_one_type(rows, pos, Direction::Desc, ty);
    lemma_still_differ(rows, up, pos);
    lemma_still_differ(rows, down, pos);
    assert(strict(up, pos)) by {
        assert forall|i: int, j: int| 0 <= i < j < up.len() implies before(
            #[trigger] up[i],
            #[trigger] up[j],
            pos,
            Direction::Asc,
        ) by {
            assert(!before(up[j], up[i], pos, Direction::Asc));
            lemma_strict(up[i], up[j], pos, ty);
        }
    }
    assert(strict(back, pos)) by {
        assert forall|i: int, j: int| 0 <= i < j < back.len() implies before(
            #[trigger] back[i],
            #[trigger] back[j],
            pos,
            Direction::Asc,
        ) by {
            let p = down.len() - 1 - i;
            let q = down.len() - 1 - j;
            assert(!before(down[p], down[q], pos, Direction::Desc));
            assert(down[q][pos] != down[p][pos]);
            lemma_strict(down[p], down[q], pos, ty);
            lemma_strict(down[q], down[p], pos, ty);
        }
    }
    lemma_reversed_holds(down);
    lemma_strict_is_unique(up, back, pos);
}

proof fn lemma_reversed_holds(s: Seq<Row>)
    ensures
        s.reverse().to_multiset() == s.to_multiset(),
    decreases s.len(),
{
    broadcast use vstd::seq_lib::group_to_multiset_ensures;

    if s.len() == 0 {
        assert(s.reverse() =~= s);
    } else {
        let less = s.drop_last();
        lemma_reversed_holds(less);
        assert(s.reverse() =~= seq![s.last()] + less.reverse());
        assert(s =~= less + seq![s.last()]);
        vstd::seq_lib::lemma_multiset_commutative(seq![s.last()], less.reverse());
        vstd::seq_lib::lemma_multiset_commutative(less, seq![s.last()]);
        assert(s.reverse().to_multiset() =~= s.to_multiset());
    }
}

/// Rows with equal values stay in the order they came in.
pub proof fn law_equal_rows_stay_put(rows: Seq<Row>, pos: int, dir: Direction)
    requires
        forall|i: int, j: int|
            0 <= i < rows.len() && 0 <= j < rows.len() ==> (#[trigger] rows[i])[pos] == (
            #[trigger] rows[j])[pos],
    ensures
        arranged(rows, pos, dir) == rows,
    decreases rows.len(),
{
    if rows.len() > 1 {
        let half = rows.len() as int / 2;
        let a = rows.take(half);
        let b = rows.skip(half);
        law_equal_rows_stay_put(a, pos, dir);
        law_equal_rows_stay_put(b, pos, dir);
        lemma_merged_stays(a, b, pos, dir);
        assert(a + b =~= rows);
    }
}

proof fn lemma_merged_stays(a: Seq<Row>, b: Seq<Row>, pos: int, dir: Direction)
    requires
        forall|i: int, j: int|
            0 <= i < a.len() && 0 <= j < b.len() ==> (#[trigger] a[i])[pos] == (#[trigger] b[j])[pos],
    ensures
        crate::sorting::merged(a, b, pos, dir) == a + b,
    decreases a.len(),
{
    if a.len() == 0 {
        assert(a + b =~= b);
    } else if b.len() == 0 {
        assert(a + b =~= a);
    } else {
        crate::order::lemma_lex_facts();
        assert(a[0][pos] == b[0][pos]);
        assert(!before(b[0], a[0], pos, dir));
        lemma_merged_stays(a.skip(1), b, pos, dir);
        assert(seq![a[0]] + (a.skip(1) + b) =~= a + b);
    }
}

} // verus!
