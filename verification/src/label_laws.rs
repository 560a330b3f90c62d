//! What names look like: branches, tables of derived rows, and quoted
//! literals.

use vstd::prelude::*;

use crate::derive::{lowered, snaked, unquoted};
use crate::refs::name_ok;

verus! {

/// A branch name is 1 to 64 ASCII letters, digits, underscores and hyphens,
/// a letter or digit first.
pub proof fn law_branch_names(s: Seq<char>)
    ensures
        name_ok(s) <==> {
            &&& 1 <= s.len() <= 64
            &&& s[0] != '_' && s[0] != '-'
            &&& forall|i: int|
                0 <= i < s.len() ==> {
                    let c = #[trigger] s[i];
                    ||| 'a' <= c && c <= 'z'
                    ||| 'A' <= c && c <= 'Z'
                    ||| '0' <= c && c <= '9'
                    ||| c == '_'
                    ||| c == '-'
                }
        },
{
    if 1 <= s.len() {
        assert(s[0] == s[0]);
    }
}

/// A name in snake case is made piece by piece: what comes of the front,
/// an underscore where the rest starts with a capital, what comes of the
/// rest. One character is itself in lower case.
pub proof fn law_snake_case_goes_piece_by_piece(a: Seq<char>, b: Seq<char>)
    requires
        a.len() > 0,
        b.len() > 0,
    ensures
        snaked(a + b) == snaked(a) + (if 'A' <= b[0] && b[0] <= 'Z' {
            seq!['_']
        } else {
            Seq::empty()
        }) + snaked(b),
        a.len() == 1 ==> snaked(a) == seq![
            if 'A' <= a[0] && a[0] <= 'Z' {
                ((a[0] as u32) + 32) as char
            } else {
                a[0]
            },
        ],
    decreases b.len(),
{
    let all = a + b;
    let gap = if 'A' <= b[0] && b[0] <= 'Z' {
        seq!['_']
    } else {
        Seq::<char>::empty()
    };
    assert(all.last() == b.last());
    assert(snaked(a).len() >= 0);
    if a.len() == 1 {
        assert(a.drop_last() =~= Seq::<char>::empty());
        assert(snaked(a.drop_last()) =~= Seq::<char>::empty());
        assert(snaked(a) =~= seq![lowered(a[0])]);
    }
    if b.len() == 1 {
        assert(all.drop_last() =~= a);
        assert(b.drop_last() =~= Seq::<char>::empty());
        assert(snaked(b.drop_last()) =~= Seq::<char>::empty());
        assert(snaked(b) =~= seq![lowered(b[0])]);
        assert(snaked(all) =~= snaked(a) + gap + snaked(b));
    } else {
        let c = b.drop_last();
        law_snake_case_goes_piece_by_piece(a, c);
        assert(all.drop_last() =~= a + c);
        assert(c[0] == b[0]);
        assert(snaked(all) =~= snaked(a) + gap + snaked(b));
    }
}

/// A plain literal is what stands between its quotes; anything with a
/// backslash inside, or not between quotes, is none.
pub proof fn law_plain_literals_lose_their_quotes(inner: Seq<char>, s: Seq<char>)
    ensures
        !inner.contains('\\') ==> unquoted(seq!['"'] + inner + seq!['"']) == Some(inner),
        inner.contains('\\') ==> unquoted(seq!['"'] + inner + seq!['"']) is None,
        unquoted(s) matches Some(v) ==> s == seq!['"'] + v + seq!['"'],
{
    let q = seq!['"'] + inner + seq!['"'];
    assert(q.subrange(1, q.len() - 1) =~= inner);
    if let Some(v) = unquoted(s) {
        assert(s =~= seq!['"'] + v + seq!['"']);
    }
}

} // verus!
