//! What numbers, durations and lines mean where they are read, and what a
//! median and a pace are.

use vstd::prelude::*;

use crate::bench::{ascending, gap, is_median, seconds_of};
use crate::shown_laws::{law_decimal_spells_its_number, spelled};
use crate::strings::decimal;
use crate::words::{before_white, digits_worth, number, past_white, trimmed, unsigned, white};

verus! {

proof fn lemma_worth_is_spelled(s: Seq<char>)
    requires
        forall|i: int| 0 <= i < s.len() ==> '0' <= #[trigger] s[i] && s[i] <= '9',
    ensures
        digits_worth(s) == spelled(s),
    decreases s.len(),
{
    if s.len() > 0 {
        let less = s.drop_last();
        assert forall|i: int| 0 <= i < less.len() implies '0' <= #[trigger] less[i] && less[i]
            <= '9' by {
            assert(less[i] == s[i]);
        }
        lemma_worth_is_spelled(less);
        assert(s[s.len() - 1] == s.last());
    }
}

/// What follows a plus sign, or the whole text where there is none.
pub open spec fn behind_plus(s: Seq<char>) -> Seq<char> {
    if s.len() > 0 && s[0] == '+' {
        s.skip(1)
    } else {
        s
    }
}

/// A text is a number where it is one or more decimal digits, perhaps after
/// one plus sign, and then the number those digits spell.
pub proof fn law_numbers_are_digits(s: Seq<char>)
    ensures
        ({
            let d = behind_plus(s);
            &&& number(s) is Some <==> d.len() > 0 && forall|i: int|
                0 <= i < d.len() ==> '0' <= #[trigger] d[i] && d[i] <= '9'
            &&& number(s) matches Some(n) ==> n == spelled(d)
        }),
{
    let d = behind_plus(s);
    assert(d == unsigned(s));
    if number(s) is Some {
        assert forall|i: int| 0 <= i < d.len() implies '0' <= #[trigger] d[i] && d[i] <= '9' by {
            assert(crate::words::is_digit(d[i]));
        }
        lemma_worth_is_spelled(d);
    }
    if d.len() > 0 && forall|i: int| 0 <= i < d.len() ==> '0' <= #[trigger] d[i] && d[i] <= '9' {
        assert(crate::words::all_digits(d));
    }
}

/// A number that was written in decimal reads back.
pub proof fn law_decimal_reads_back(n: nat)
    ensures
        number(decimal(n)) == Some(n),
{
    law_decimal_spells_its_number(n);
    law_numbers_are_digits(decimal(n));
    assert(decimal(n)[0] >= '0');
}

/// A duration is a number of seconds, minutes or hours.
pub proof fn law_durations_have_units(n: nat)
    ensures
        n <= u64::MAX ==> seconds_of(decimal(n).push('s')) == Ok::<u64, Seq<char>>(n as u64),
        60 * n <= u64::MAX ==> seconds_of(decimal(n).push('m')) == Ok::<u64, Seq<char>>(
            (60 * n) as u64,
        ),
        3600 * n <= u64::MAX ==> seconds_of(decimal(n).push('h')) == Ok::<u64, Seq<char>>(
            (3600 * n) as u64,
        ),
        3600 * n > u64::MAX ==> seconds_of(decimal(n).push('h')) is Err,
{
    law_decimal_reads_back(n);
    assert(decimal(n).push('s').drop_last() =~= decimal(n));
    assert(decimal(n).push('m').drop_last() =~= decimal(n));
    assert(decimal(n).push('h').drop_last() =~= decimal(n));
}

proof fn lemma_past_white(s: Seq<char>, i: int)
    requires
        0 <= i <= s.len(),
    ensures
        i <= past_white(s, i) <= s.len(),
        forall|k: int| i <= k < past_white(s, i) ==> white(#[trigger] s[k]),
        past_white(s, i) < s.len() ==> !white(s[past_white(s, i)]),
    decreases s.len() - i,
{
    if i < s.len() && white(s[i]) {
        lemma_past_white(s, i + 1);
    }
}

proof fn lemma_before_white(s: Seq<char>, n: int)
    requires
        0 <= n <= s.len(),
    ensures
        0 <= before_white(s, n) <= n,
        forall|k: int| before_white(s, n) <= k < n ==> white(#[trigger] s[k]),
        before_white(s, n) > 0 ==> !white(s[before_white(s, n) - 1]),
    decreases n,
{
    if n > 0 && white(s[n - 1]) {
        lemma_before_white(s, n - 1);
    }
}

/// Trimming takes white space away at both ends, all of it, and nothing
/// else.
pub proof fn law_trimming_takes_white_space(s: Seq<char>)
    ensures
        exists|a: int, b: int|
            {
                &&& 0 <= a <= b <= s.len()
                &&& trimmed(s) == #[trigger] s.subrange(a, b)
                &&& forall|k: int| 0 <= k < a ==> white(#[trigger] s[k])
                &&& forall|k: int| b <= k < s.len() ==> white(#[trigger] s[k])
            },
        trimmed(s).len() > 0 ==> !white(trimmed(s)[0]) && !white(trimmed(s).last()),
        white(' ') && white('\t') && white('\n') && white('\r'),
        forall|c: char|
            (('0' <= c && c <= '9') || ('a' <= c && c <= 'z') || ('A' <= c && c <= 'Z'))
                ==> !#[trigger] white(c),
{
    let n = s.len() as int;
    lemma_past_white(s, 0);
    lemma_before_white(s, n);
    let a = past_white(s, 0);
    let b = before_white(s, n);
    if a < b {
        assert(trimmed(s) == s.subrange(a, b));
    } else {
        assert(s.subrange(n, n) =~= Seq::<char>::empty());
        assert forall|k: int| 0 <= k < n implies white(#[trigger] s[k]) by {
            if k >= a {
                assert(k >= b);
            }
        }
        assert(trimmed(s) == s.subrange(n, n));
    }
}

proof fn lemma_few(t: Seq<u64>, p: spec_fn(u64) -> bool, k: int)
    requires
        0 <= k,
        forall|i: int| k <= i < t.len() ==> !p(#[trigger] t[i]),
    ensures
        t.to_multiset().filter(p).len() <= k,
    decreases t.len(),
{
    broadcast use vstd::seq_lib::group_to_multiset_ensures;
    broadcast use vstd::multiset::group_multiset_axioms;

    if t.len() == 0 {
        assert(t.to_multiset().len() == 0);
        assert(t.to_multiset() =~= vstd::multiset::Multiset::empty());
        assert(t.to_multiset().filter(p) =~= vstd::multiset::Multiset::empty());
    } else {
        let less = t.drop_last();
        let x = t.last();
        assert(less.push(x) =~= t);
        assert(t.to_multiset() =~= less.to_multiset().insert(x));
        assert(t[t.len() - 1] == x);
        assert forall|i: int| k <= i < less.len() implies !p(#[trigger] less[i]) by {
            assert(less[i] == t[i]);
        }
        if p(x) {
            assert(t.len() <= k);
            assert forall|i: int| k - 1 <= i < less.len() implies !p(#[trigger] less[i]) by {}
            lemma_few(less, p, k - 1);
            assert(t.to_multiset().filter(p) =~= less.to_multiset().filter(p).insert(x));
        } else {
            lemma_few(less, p, k);
            assert(t.to_multiset().filter(p) =~= less.to_multiset().filter(p));
        }
    }
}

proof fn lemma_few_at_the_end(t: Seq<u64>, p: spec_fn(u64) -> bool, k: int)
    requires
        0 <= k <= t.len(),
        forall|i: int| 0 <= i < k ==> !p(#[trigger] t[i]),
    ensures
        t.to_multiset().filter(p).len() <= t.len() - k,
    decreases t.len(),
{
    broadcast use vstd::seq_lib::group_to_multiset_ensures;
    broadcast use vstd::multiset::group_multiset_axioms;

    if t.len() == k {
        lemma_few(t, p, 0);
    } else {
        let less = t.drop_last();
        let x = t.last();
        assert(less.push(x) =~= t);
        assert(t.to_multiset() =~= less.to_multiset().insert(x));
        assert forall|i: int| 0 <= i < k implies !p(#[trigger] less[i]) by {
            assert(less[i] == t[i]);
        }
        lemma_few_at_the_end(less, p, k);
        if p(x) {
            assert(t.to_multiset().filter(p) =~= less.to_multiset().filter(p).insert(x));
        } else {
            assert(t.to_multiset().filter(p) =~= less.to_multiset().filter(p));
        }
    }
}

/// A median is one of the numbers; at most half of them are smaller, and
/// fewer than half are larger.
pub proof fn law_medians_part_the_list(s: Seq<u64>, m: u64)
    requires
        s.len() > 0,
        is_median(s, m),
    ensures
        s.contains(m),
        2 * s.to_multiset().filter(|x: u64| x < m).len() <= s.len(),
        2 * s.to_multiset().filter(|x: u64| x > m).len() < s.len(),
{
    let t = choose|t: Seq<u64>| #[trigger]
        t.to_multiset() == s.to_multiset() && ascending(t) && t.len() == s.len() && m == t[s.len()
            as int / 2];
    let k = s.len() as int / 2;
    let below = |x: u64| x < m;
    let above = |x: u64| x > m;
    assert forall|i: int| k <= i < t.len() implies !below(#[trigger] t[i]) by {
        if k < i {
            assert(t[k] <= t[i]);
        }
    }
    lemma_few(t, below, k);
    assert forall|i: int| 0 <= i < k + 1 implies !above(#[trigger] t[i]) by {
        if i < k {
            assert(t[i] <= t[k]);
        }
    }
    lemma_few_at_the_end(t, above, k + 1);
    t.to_multiset_ensures();
    s.to_multiset_ensures();
    assert(t.contains(t[k]));
    assert(t.to_multiset().contains(m));
}

/// The gap between one connection's requests is the longest at which all
/// connections together keep the rate.
pub proof fn law_gaps_keep_the_rate(active: u64, qps: u64)
    requires
        active > 0,
        qps > 0,
        1_000_000_000 * active <= u64::MAX,
    ensures
        gap(active, qps) * qps <= 1_000_000_000 * active < (gap(active, qps) + 1) * qps,
{
    let total = 1_000_000_000 * active as int;
    let q = qps as int;
    vstd::arithmetic::div_mod::lemma_fundamental_div_mod(total, q);
    vstd::arithmetic::div_mod::lemma_mod_bound(total, q);
    assert((total / q) * q <= total < (total / q + 1) * q) by (nonlinear_arith)
        requires
            total == q * (total / q) + total % q,
            0 <= total % q < q,
    ;
}

} // verus!
