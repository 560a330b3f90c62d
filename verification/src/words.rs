//! White space, words and lines of a text.

use vstd::prelude::*;

use crate::strings::{chars_of, text_of_chars};

verus! {

/// White space, as Unicode counts it.
pub open spec fn white(c: char) -> bool {
    let n = c as u32;
    ||| 0x9 <= n <= 0xD
    ||| n == 0x20
    ||| n == 0x85
    ||| n == 0xA0
    ||| n == 0x1680
    ||| 0x2000 <= n <= 0x200A
    ||| n == 0x2028
    ||| n == 0x2029
    ||| n == 0x202F
    ||| n == 0x205F
    ||| n == 0x3000
}

pub fn is_white(c: char) -> (r: bool)
    ensures
        r == white(c),
{
    let n: u32 = c as u32;
    (0x9 <= n && n <= 0xD) || n == 0x20 || n == 0x85 || n == 0xA0 || n == 0x1680 || (0x2000 <= n
        && n <= 0x200A) || n == 0x2028 || n == 0x2029 || n == 0x202F || n == 0x205F || n == 0x3000
}

/// The first place from `i` on that is not white space.
pub open spec fn past_white(s: Seq<char>, i: int) -> int
    decreases s.len() - i,
{
    if i < 0 || i >= s.len() || !white(s[i]) {
        i
    } else {
        past_white(s, i + 1)
    }
}

/// The first place from `i` on that is white space.
pub open spec fn past_word(s: Seq<char>, i: int) -> int
    decreases s.len() - i,
{
    if i < 0 || i >= s.len() || white(s[i]) {
        i
    } else {
        past_word(s, i + 1)
    }
}

/// The first place from `i` on that holds `c`.
pub open spec fn next_char(s: Seq<char>, c: char, i: int) -> int
    decreases s.len() - i,
{
    if i < 0 || i >= s.len() || s[i] == c {
        i
    } else {
        next_char(s, c, i + 1)
    }
}

pub fn skip_white(s: &[char], from: usize, to: usize) -> (r: usize)
    requires
        from <= to <= s@.len(),
    ensures
        from <= r <= to,
        r == past_white(s@.take(to as int), from as int),
{
    let mut i: usize = from;
    let ghost l = s@.take(to as int);
    while i < to
        invariant
            from <= i <= to <= s@.len(),
            l == s@.take(to as int),
            past_white(l, from as int) == past_white(l, i as int),
        decreases to - i,
    {
        if !is_white(s[i]) {
            return i;
        }
        i = i + 1;
    }
    i
}

pub fn skip_word(s: &[char], from: usize, to: usize) -> (r: usize)
    requires
        from <= to <= s@.len(),
    ensures
        from <= r <= to,
        r == past_word(s@.take(to as int), from as int),
{
    let mut i: usize = from;
    let ghost l = s@.take(to as int);
    while i < to
        invariant
            from <= i <= to <= s@.len(),
            l == s@.take(to as int),
            past_word(l, from as int) == past_word(l, i as int),
        decreases to - i,
    {
        if is_white(s[i]) {
            return i;
        }
        i = i + 1;
    }
    i
}

pub fn find_char(s: &[char], c: char, from: usize) -> (r: usize)
    requires
        from <= s@.len(),
    ensures
        from <= r <= s@.len(),
        r == next_char(s@, c, from as int),
{
    let mut i: usize = from;
    let len: usize = s.len();
    while i < len
        invariant
            from <= i <= len == s@.len(),
            next_char(s@, c, from as int) == next_char(s@, c, i as int),
        decreases len - i,
    {
        if s[i] == c {
            return i;
        }
        i = i + 1;
    }
    i
}

pub proof fn lemma_next_char(s: Seq<char>, c: char, i: int)
    requires
        0 <= i <= s.len(),
    ensures
        i <= next_char(s, c, i) <= s.len(),
    decreases s.len() - i,
{
    if i < s.len() && s[i] != c {
        lemma_next_char(s, c, i + 1);
    }
}

pub proof fn lemma_word_runs(s: Seq<char>, i: int, n: int)
    requires
        0 <= i <= n < s.len(),
        forall|k: int| 0 <= k < n ==> !white(#[trigger] s[k]),
        white(s[n]),
    ensures
        past_word(s, i) == n,
    decreases n - i,
{
    if i < n {
        lemma_word_runs(s, i + 1, n);
    }
}

/// The words of a text from place `i` on: runs of what is not white space.
pub open spec fn words_from(s: Seq<char>, i: int) -> Seq<Seq<char>>
    decreases s.len() - i,
    when 0 <= i <= s.len()
    via words_shrink
{
    let a = past_white(s, i);
    if a >= s.len() {
        Seq::empty()
    } else {
        let b = past_word(s, a);
        seq![s.subrange(a, b)] + words_from(s, b)
    }
}

#[via_fn]
proof fn words_shrink(s: Seq<char>, i: int) {
    if 0 <= i <= s.len() {
        lemma_past(s, i);
        lemma_past(s, past_white(s, i));
    }
}

pub open spec fn words(s: Seq<char>) -> Seq<Seq<char>> {
    words_from(s, 0)
}

pub proof fn lemma_past(s: Seq<char>, i: int)
    requires
        0 <= i <= s.len(),
    ensures
        i <= past_white(s, i) <= s.len(),
        i <= past_word(s, i) <= s.len(),
        i < s.len() && !white(s[i]) ==> i < past_word(s, i),
        past_white(s, i) < s.len() ==> !white(s[past_white(s, i)]),
    decreases s.len() - i,
{
    if i < s.len() {
        lemma_past(s, i + 1);
    }
}

/// The words of a text.
pub fn split_words(s: &[char]) -> (r: Vec<String>)
    ensures
        crate::strings::texts(r@) == words(s@),
{
    let mut out: Vec<String> = Vec::new();
    let len: usize = s.len();
    let mut i: usize = 0;
    proof {
        assert(s@.take(len as int) =~= s@);
        assert(crate::strings::texts(out@) + words_from(s@, 0) =~= words(s@));
    }
    while i < len
        invariant
            i <= len == s@.len(),
            s@.take(len as int) == s@,
            crate::strings::texts(out@) + words_from(s@, i as int) == words(s@),
        decreases len - i,
    {
        let a: usize = skip_white(s, i, len);
        if a >= len {
            proof {
                assert(crate::strings::texts(out@) =~= words(s@));
            }
            return out;
        }
        let b: usize = skip_word(s, a, len);
        proof {
            lemma_past(s@, i as int);
            lemma_past(s@, a as int);
        }
        let ghost had = out@;
        let word = text_of_chars(vstd::slice::slice_subrange(s, a, b));
        out.push(word);
        proof {
            assert(crate::strings::texts(out@) =~= crate::strings::texts(had).push(word@));
            assert(crate::strings::texts(out@) + words_from(s@, b as int)
                =~= crate::strings::texts(had) + (seq![word@] + words_from(s@, b as int)));
        }
        i = b;
    }
    proof {
        assert(words_from(s@, len as int) =~= Seq::empty());
        assert(crate::strings::texts(out@) =~= words(s@));
    }
    out
}

/// Where trailing white space starts, looking back from `n`.
pub open spec fn before_white(s: Seq<char>, n: int) -> int
    decreases n,
{
    if n <= 0 || n > s.len() || !white(s[n - 1]) {
        n
    } else {
        before_white(s, n - 1)
    }
}

/// A text without the white space around it.
pub open spec fn trimmed(s: Seq<char>) -> Seq<char> {
    let a = past_white(s, 0);
    let b = before_white(s, s.len() as int);
    if a >= b {
        Seq::empty()
    } else {
        s.subrange(a, b)
    }
}

pub fn trim(s: &str) -> (r: Vec<char>)
    ensures
        r@ == trimmed(s@),
{
    let chars = chars_of(s);
    let len: usize = chars.len();
    proof {
        assert(chars@.take(len as int) =~= chars@);
    }
    let a: usize = skip_white(chars.as_slice(), 0, len);
    let mut b: usize = len;
    while b > 0 && is_white(chars[b - 1])
        invariant
            b <= len == chars@.len(),
            chars@ == s@,
            before_white(s@, len as int) == before_white(s@, b as int),
        decreases b,
    {
        b = b - 1;
    }
    let mut out: Vec<char> = Vec::new();
    if a >= b {
        return out;
    }
    for i in a..b
        invariant
            b <= chars@.len(),
            a <= b,
            chars@ == s@,
            out@ == s@.subrange(a as int, i as int),
    {
        out.push(chars[i]);
        proof {
            assert(out@ =~= s@.subrange(a as int, i + 1));
        }
    }
    out
}

/// Whether a text starts with another one.
pub open spec fn starts(s: Seq<char>, p: Seq<char>) -> bool {
    s.len() >= p.len() && s.take(p.len() as int) == p
}

pub fn starts_with(s: &[char], p: &[char]) -> (r: bool)
    ensures
        r == starts(s@, p@),
{
    let len: usize = p.len();
    if s.len() < len {
        return false;
    }
    for i in 0..len
        invariant
            len == p@.len() <= s@.len(),
            forall|k: int| 0 <= k < i ==> #[trigger] s@[k] == p@[k],
    {
        if s[i] != p[i] {
            proof {
                assert(s@.take(len as int)[i as int] != p@[i as int]);
            }
            return false;
        }
    }
    proof {
        assert(s@.take(len as int) =~= p@);
    }
    true
}

// ---------------------------------------------------------------------
// numbers
// ---------------------------------------------------------------------

pub open spec fn is_digit(c: char) -> bool {
    '0' <= c && c <= '9'
}

/// What decimal digits say.
pub open spec fn digits_worth(s: Seq<char>) -> nat
    decreases s.len(),
{
    if s.len() == 0 {
        0
    } else {
        digits_worth(s.drop_last()) * 10 + (s.last() as nat - 48) as nat
    }
}

/// A text without its plus sign.
pub open spec fn unsigned(s: Seq<char>) -> Seq<char> {
    if s.len() > 0 && s[0] == '+' {
        s.skip(1)
    } else {
        s
    }
}

pub open spec fn all_digits(s: Seq<char>) -> bool {
    forall|i: int| 0 <= i < s.len() ==> is_digit(#[trigger] s[i])
}

/// The number a text says: decimal digits, perhaps after a plus sign.
pub open spec fn number(s: Seq<char>) -> Option<nat> {
    if unsigned(s).len() > 0 && all_digits(unsigned(s)) {
        Some(digits_worth(unsigned(s)))
    } else {
        None
    }
}

proof fn lemma_digits_grow(s: Seq<char>, n: int)
    requires
        0 <= n <= s.len(),
        forall|i: int| 0 <= i < s.len() ==> is_digit(#[trigger] s[i]),
    ensures
        digits_worth(s.take(n)) <= digits_worth(s),
    decreases s.len() - n,
{
    if n < s.len() {
        assert(s.take(n + 1).drop_last() =~= s.take(n));
        lemma_digits_grow(s, n + 1);
    } else {
        assert(s.take(n) =~= s);
    }
}

/// The number a text says, where it fits.
pub fn parse_u64(s: &[char]) -> (r: Option<u64>)
    ensures
        match r {
            Some(n) => number(s@) == Some(n as nat),
            None => number(s@) is None || number(s@)->0 > u64::MAX,
        },
{
    let len: usize = s.len();
    let from: usize = if len > 0 && s[0] == '+' {
        1
    } else {
        0
    };
    let ghost d = s@.skip(from as int);
    proof {
        assert(s@.skip(0) =~= s@);
    }
    if from == len {
        return None;
    }
    // the digits are looked at first, a number that is too long is one
    for i in from..len
        invariant
            from <= len == s@.len(),
            d == s@.skip(from as int),
            d == unsigned(s@),
            forall|k: int| 0 <= k < i - from ==> is_digit(#[trigger] d[k]),
    {
        let c: char = s[i];
        proof {
            assert(d[i - from] == c);
        }
        if !('0' <= c && c <= '9') {
            proof {
                assert(!is_digit(d[i - from]));
            }
            return None;
        }
    }
    let mut n: u64 = 0;
    for i in from..len
        invariant
            from < len == s@.len(),
            d == s@.skip(from as int),
            d.len() == len - from,
            number(s@) == Some(digits_worth(d)),
            forall|k: int| 0 <= k < d.len() ==> is_digit(#[trigger] d[k]),
            n == digits_worth(d.take(i - from)),
    {
        let c: char = s[i];
        proof {
            assert(is_digit(d[i - from]));
        }
        let v: u64 = (c as u32 - 48) as u64;
        proof {
            assert(d[i - from] == c);
            assert(d.take(i - from + 1).drop_last() =~= d.take(i - from));
            assert(d.take(i - from + 1).last() == c);
            lemma_digits_grow(d, i - from + 1);
        }
        if n > (u64::MAX - v) / 10 {
            return None;
        }
        n = n * 10 + v;
    }
    proof {
        assert(d.take(len - from) =~= d);
    }
    Some(n)
}

} // verus!
