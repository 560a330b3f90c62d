//! What a token file lists, line by line.

use vstd::prelude::*;

use crate::tokens::{file_says, line_says, listed_in, FileV, LineV};
use crate::words::{next_char, past_white, white};

verus! {

proof fn lemma_next(s: Seq<char>, c: char, i: int)
    requires
        0 <= i <= s.len(),
    ensures
        i <= next_char(s, c, i) <= s.len(),
        forall|k: int| i <= k < next_char(s, c, i) ==> #[trigger] s[k] != c,
        next_char(s, c, i) < s.len() ==> s[next_char(s, c, i)] == c,
    decreases s.len() - i,
{
    if i < s.len() && s[i] != c {
        lemma_next(s, c, i + 1);
    }
}

proof fn lemma_next_is(s: Seq<char>, c: char, i: int, e: int)
    requires
        0 <= i <= e <= s.len(),
        forall|k: int| i <= k < e ==> #[trigger] s[k] != c,
        e == s.len() || s[e] == c,
    ensures
        next_char(s, c, i) == e,
{
    lemma_next(s, c, i);
    let n = next_char(s, c, i);
    if n < e {
        assert(s[n] != c);
    } else if e < n {
        assert(s[e] != c);
    }
}

/// A file as told with more lines before it and more hashes held.
pub open spec fn told_later(r: FileV, k: nat, held: Set<Seq<u8>>) -> FileV {
    match r {
        Ok(s) => Ok(s.union(held)),
        Err((n, label)) => Err((n + k, label)),
    }
}

proof fn lemma_shift(
    p: Seq<char>,
    rest: Seq<char>,
    i: int,
    n: nat,
    k: nat,
    held: Set<Seq<u8>>,
    more: Set<Seq<u8>>,
)
    requires
        0 <= i,
    ensures
        file_says(p + rest, p.len() + i, n + k, held.union(more)) == told_later(
            file_says(rest, i, n, held),
            k,
            more,
        ),
    decreases
        (if i >= rest.len() {
            0
        } else {
            rest.len() - i
        }),
{
    let s = p + rest;
    let at = p.len() + i;
    if i < rest.len() {
        let e = next_char(rest, '\n', i);
        lemma_next(rest, '\n', i);
        assert forall|j: int| at <= j < p.len() + e implies #[trigger] s[j] != '\n' by {
            assert(s[j] == rest[j - p.len()]);
        }
        if e < rest.len() {
            assert(s[p.len() + e] == rest[e]);
        }
        lemma_next_is(s, '\n', at, p.len() + e);
        assert(s.subrange(at, p.len() + e) =~= rest.subrange(i, e));
        lemma_shift(p, rest, e + 1, n + 1, k, held, more);
        if let LineV::Hash(d) = line_says(rest.subrange(i, e)) {
            lemma_shift(p, rest, e + 1, n + 1, k, held.insert(d), more);
            assert(held.insert(d).union(more) =~= held.union(more).insert(d));
        }
    }
}

/// A token file is read line by line: a blank line lists nothing, a hash
/// with a label lists that hash beside what the other lines list, and the
/// first line that is neither is the one complained about, by its number.
pub proof fn law_token_files_go_line_by_line(line: Seq<char>, rest: Seq<char>)
    requires
        forall|i: int| 0 <= i < line.len() ==> #[trigger] line[i] != '\n',
    ensures
        ({
            let all = listed_in(line.push('\n') + rest);
            match line_says(line) {
                LineV::BadHash => all == Err::<Set<Seq<u8>>, (nat, bool)>((1, false)),
                LineV::NoLabel => all == Err::<Set<Seq<u8>>, (nat, bool)>((1, true)),
                LineV::Blank => all == told_later(listed_in(rest), 1, Set::empty()),
                LineV::Hash(d) => all == told_later(listed_in(rest), 1, Set::empty().insert(d)),
            }
        }),
        listed_in(Seq::empty()) == Ok::<Set<Seq<u8>>, (nat, bool)>(Set::empty()),
{
    let p = line.push('\n');
    let s = p + rest;
    let n = line.len() as int;
    let none = Set::<Seq<u8>>::empty();
    assert forall|k: int| 0 <= k < n implies #[trigger] s[k] != '\n' by {
        assert(s[k] == line[k]);
    }
    assert(s[n] == '\n');
    lemma_next_is(s, '\n', 0, n);
    assert(s.subrange(0, n) =~= line);
    match line_says(line) {
        LineV::Blank => {
            lemma_shift(p, rest, 0, 1, 1, none, none);
            assert(none.union(none) =~= none);
        },
        LineV::Hash(d) => {
            lemma_shift(p, rest, 0, 1, 1, none, none.insert(d));
            assert(none.union(none.insert(d)) =~= none.insert(d));
        },
        _ => {},
    }
}

proof fn lemma_past(s: Seq<char>, i: int)
    requires
        0 <= i <= s.len(),
        forall|k: int| i <= k < s.len() ==> white(#[trigger] s[k]),
    ensures
        past_white(s, i) == s.len(),
    decreases s.len() - i,
{
    if i < s.len() {
        lemma_past(s, i + 1);
    }
}

/// What follows a number sign is a comment: the line says what it says
/// without it. A line of white space is blank.
pub proof fn law_comments_say_nothing(line: Seq<char>, comment: Seq<char>)
    requires
        forall|i: int| 0 <= i < line.len() ==> #[trigger] line[i] != '#',
    ensures
        line_says(line.push('#') + comment) == line_says(line),
        (forall|i: int| 0 <= i < line.len() ==> white(#[trigger] line[i])) ==> line_says(line)
            is Blank,
{
    let s = line.push('#') + comment;
    let n = line.len() as int;
    assert forall|k: int| 0 <= k < n implies #[trigger] s[k] != '#' by {
        assert(s[k] == line[k]);
    }
    assert(s[n] == '#');
    lemma_next_is(s, '#', 0, n);
    lemma_next_is(line, '#', 0, n);
    assert(s.take(n) =~= line);
    assert(line.take(n) =~= line);
    if forall|i: int| 0 <= i < line.len() ==> white(#[trigger] line[i]) {
        lemma_past(line, 0);
    }
}

} // verus!
