//! Turning text into terms.
//!
//! ASCII, and deliberately so: lowercase ASCII letters, split on anything
//! that is not a letter or a digit, do nothing else. No stemming, no stop
//! words, no Unicode case folding, no segmentation for languages that do
//! not put spaces between words.
//!
//! Everything else goes through [`tokenize`], so replacing it is a
//! change to this file and a reindex.

use vstd::prelude::*;
use vstd::string::*;
use vstd::utf8::{encode_utf8, is_ascii_chars};

use crate::bytes::{
    get_u32, le_bytes, lemma_field32, lemma_le_bytes_len, put_le, same_bytes, u32_at,
};
use crate::order::{lemma_lex_trans, lex_lt, order_bytes, Order};
use crate::strings::owned;

verus! {

/// One term and where it sat in the text.
#[derive(Debug, Clone, PartialEq, Eq)]
pub struct Token {
    /// The term, lowercased.
    pub term: String,
    /// Which token this was, counting from zero. Positions are ordinal
    /// rather than byte offsets: phrase search asks whether two terms are
    /// adjacent, and byte distance does not answer that.
    pub position: u32,
}

/// The longest term this will produce.
///
/// A term is a key, and a key has a limit. Rather than let a run of ten
/// thousand letters fail the insert, a term is cut here, which makes it
/// findable by its first bytes and nothing worse.
pub const MAX_TERM_LEN: usize = 128;

// ---------------------------------------------------------------------
// what the terms of a text are
// ---------------------------------------------------------------------

/// A byte that is part of a term: an ASCII letter or digit.
pub open spec fn is_word(b: u8) -> bool {
    (97 <= b <= 122) || (65 <= b <= 90) || (48 <= b <= 57)
}

/// A letter in lower case.
pub open spec fn lower(b: u8) -> u8 {
    if 65 <= b <= 90 {
        (b + 32) as u8
    } else {
        b
    }
}

/// The maximal runs of word bytes in `b`, where `cur` is the run that is
/// open on the left.
pub open spec fn runs(b: Seq<u8>, cur: Seq<u8>) -> Seq<Seq<u8>>
    decreases b.len(),
{
    if b.len() == 0 {
        if cur.len() == 0 {
            Seq::empty()
        } else {
            seq![cur]
        }
    } else if is_word(b[0]) {
        runs(b.skip(1), cur.push(b[0]))
    } else if cur.len() == 0 {
        runs(b.skip(1), Seq::empty())
    } else {
        seq![cur] + runs(b.skip(1), Seq::empty())
    }
}

/// The term a run becomes: folded, and cut.
pub open spec fn term_of(run: Seq<u8>) -> Seq<u8> {
    Seq::new(
        if run.len() < MAX_TERM_LEN {
            run.len()
        } else {
            MAX_TERM_LEN as nat
        },
        |i: int| lower(run[i]),
    )
}

/// The terms of a text, in order.
pub open spec fn terms(text: Seq<char>) -> Seq<Seq<u8>> {
    let r = runs(encode_utf8(text), Seq::empty());
    Seq::new(r.len(), |i: int| term_of(r[i]))
}

/// ASCII bytes as text.
pub open spec fn as_text(b: Seq<u8>) -> Seq<char> {
    Seq::new(b.len(), |i: int| b[i] as char)
}

pub open spec fn is_plain(b: Seq<u8>) -> bool {
    forall|i: int| 0 <= i < b.len() ==> #[trigger] b[i] < 128
}

/// ASCII text encodes to the bytes it was made of.
pub proof fn lemma_as_text(b: Seq<u8>)
    requires
        is_plain(b),
    ensures
        encode_utf8(as_text(b)) == b,
{
    let s = as_text(b);
    assert(is_ascii_chars(s)) by {
        assert forall|i: int| 0 <= i < s.len() implies (#[trigger] s[i] as nat) < 128 by {
            assert(b[i] < 128);
        }
    }
    vstd::utf8::is_ascii_chars_encode_utf8(s);
    assert(encode_utf8(s) =~= b) by {
        assert forall|i: int| 0 <= i < b.len() implies encode_utf8(s)[i] == b[i] by {
            assert(b[i] < 128);
        }
    }
}

/// A run of word bytes.
pub open spec fn word_run(r: Seq<u8>) -> bool {
    r.len() > 0 && forall|i: int| 0 <= i < r.len() ==> is_word(#[trigger] r[i])
}

proof fn lemma_runs_words(b: Seq<u8>, cur: Seq<u8>)
    requires
        cur.len() == 0 || word_run(cur),
    ensures
        forall|k: int| 0 <= k < runs(b, cur).len() ==> word_run(#[trigger] runs(b, cur)[k]),
    decreases b.len(),
{
    let r = runs(b, cur);
    if b.len() == 0 {
        assert forall|k: int| 0 <= k < r.len() implies word_run(#[trigger] r[k]) by {
            assert(r[k] == cur);
        }
    } else if is_word(b[0]) {
        let c = cur.push(b[0]);
        assert forall|i: int| 0 <= i < c.len() implies is_word(#[trigger] c[i]) by {
            if i < cur.len() {
                assert(c[i] == cur[i]);
            }
        }
        lemma_runs_words(b.skip(1), c);
        assert(r == runs(b.skip(1), c));
        assert forall|k: int| 0 <= k < r.len() implies word_run(#[trigger] r[k]) by {
            assert(word_run(runs(b.skip(1), c)[k]));
        }
    } else {
        lemma_runs_words(b.skip(1), Seq::empty());
        let t = runs(b.skip(1), Seq::empty());
        if cur.len() > 0 {
            assert forall|k: int| 0 <= k < r.len() implies word_run(#[trigger] r[k]) by {
                if k > 0 {
                    assert(r[k] == t[k - 1]);
                } else {
                    assert(r[k] == cur);
                }
            }
        } else {
            assert(r == t);
        }
    }
}

/// Every term is one to [`MAX_TERM_LEN`] lower case letters and digits.
pub proof fn law_terms_are_folded_words(text: Seq<char>, k: int)
    requires
        0 <= k < terms(text).len(),
    ensures
        0 < terms(text)[k].len() <= MAX_TERM_LEN,
        forall|i: int|
            0 <= i < terms(text)[k].len() ==> is_word(#[trigger] terms(text)[k][i]) && lower(
                terms(text)[k][i],
            ) == terms(text)[k][i] && terms(text)[k][i] < 128,
{
    let b = encode_utf8(text);
    lemma_runs_words(b, Seq::empty());
    let run = runs(b, Seq::empty())[k];
    assert(word_run(run));
    assert forall|i: int| 0 <= i < terms(text)[k].len() implies is_word(#[trigger] terms(text)[k][i])
        && lower(terms(text)[k][i]) == terms(text)[k][i] && terms(text)[k][i] < 128 by {
        assert(is_word(run[i]));
    }
}

proof fn lemma_runs_len(b: Seq<u8>, cur: Seq<u8>)
    ensures
        runs(b, cur).len() <= b.len() + (if cur.len() > 0 {
            1int
        } else {
            0int
        }),
    decreases b.len(),
{
    if b.len() > 0 {
        if is_word(b[0]) {
            lemma_runs_len(b.skip(1), cur.push(b[0]));
        } else {
            lemma_runs_len(b.skip(1), Seq::empty());
        }
    }
}

// ---------------------------------------------------------------------
// tokens
// ---------------------------------------------------------------------

/// A list of tokens for a list of terms.
pub open spec fn tokens_are(v: Seq<Token>, ts: Seq<Seq<u8>>) -> bool {
    &&& v.len() == ts.len()
    &&& forall|k: int|
        0 <= k < v.len() ==> (#[trigger] v[k]).term@ == as_text(ts[k]) && v[k].position == k
            && is_plain(ts[k])
}

fn word_byte(b: u8) -> (r: bool)
    ensures
        r == is_word(b),
{
    (97 <= b && b <= 122) || (65 <= b && b <= 90) || (48 <= b && b <= 57)
}

fn fold(b: u8) -> (r: u8)
    ensures
        r == lower(b),
{
    if 65 <= b && b <= 90 {
        b + 32
    } else {
        b
    }
}

/// Split `text` into terms.
///
/// A byte is part of a term if it is an ASCII letter or digit; everything
/// else separates. Non-ASCII bytes separate too.
#[verifier::rlimit(40)]
pub fn tokenize(text: &str) -> (r: Vec<Token>)
    requires
        terms(text@).len() <= u32::MAX,
    ensures
        tokens_are(r@, terms(text@)),
{
    let bytes: &[u8] = text.as_bytes();
    let n: usize = bytes.len();
    let ghost all = runs(bytes@, Seq::empty());
    let ghost mut cur: Seq<u8> = Seq::empty();
    let mut out: Vec<Token> = Vec::new();
    let mut current = String::new();
    let mut size: usize = 0;
    let mut position: u32 = 0;
    let mut i: usize = 0;
    proof {
        assert(bytes@.skip(0) =~= bytes@);
        assert(all.len() == terms(text@).len());
        assert(current@ =~= as_text(term_of(cur)));
    }
    while i < n
        invariant
            n == bytes@.len(),
            i <= n,
            all == runs(bytes@, Seq::empty()),
            all.len() <= u32::MAX,
            out@.len() == position,
            out@.len() <= all.len(),
            forall|k: int|
                0 <= k < out@.len() ==> (#[trigger] out@[k]).term@ == as_text(term_of(all[k]))
                    && out@[k].position == k,
            runs(bytes@.skip(i as int), cur) == all.skip(out@.len() as int),
            size == cur.len() || (size == MAX_TERM_LEN && cur.len() > MAX_TERM_LEN),
            size <= MAX_TERM_LEN,
            current@ == as_text(term_of(cur)),
        decreases n - i,
    {
        let b: u8 = bytes[i];
        let ghost rest = bytes@.skip(i as int);
        proof {
            assert(rest[0] == b);
            assert(rest.skip(1) =~= bytes@.skip(i + 1));
        }
        if word_byte(b) {
            let ghost next = cur.push(b);
            if size < MAX_TERM_LEN {
                current.push(fold(b) as char);
                size = size + 1;
                proof {
                    assert(current@ =~= as_text(term_of(next)));
                }
            } else {
                proof {
                    assert(term_of(next) =~= term_of(cur));
                }
            }
            proof {
                cur = next;
            }
        } else if size > 0 {
            let mut word = String::new();
            std::mem::swap(&mut word, &mut current);
            out.push(Token { term: word, position });
            proof {
                let k = position as int;
                assert(all.skip(k) == seq![cur] + runs(rest.skip(1), Seq::empty()));
                assert(all.skip(k).len() > 0);
                assert(all.skip(k)[0] == cur);
                assert(all.skip(k)[0] == all[k]);
                assert(all.skip(k).skip(1) =~= all.skip(k + 1));
                assert((seq![cur] + runs(rest.skip(1), Seq::empty())).skip(1) =~= runs(
                    rest.skip(1),
                    Seq::empty(),
                ));
                cur = Seq::empty();
                assert(current@ =~= as_text(term_of(cur)));
            }
            position = position + 1;
            size = 0;
        } else {
            proof {
                assert(cur =~= Seq::empty());
            }
        }
        i = i + 1;
    }
    proof {
        assert(bytes@.skip(n as int).len() == 0);
    }
    if size > 0 {
        proof {
            let k = position as int;
            assert(all.skip(k)[0] == cur);
            assert(all.skip(k)[0] == all[k]);
            assert(all.skip(k).len() == 1);
        }
        out.push(Token { term: current, position });
    } else {
        proof {
            assert(all.skip(out@.len() as int).len() == 0);
        }
    }
    proof {
        let ts = terms(text@);
        assert forall|k: int| 0 <= k < out@.len() implies (#[trigger] out@[k]).term@ == as_text(ts[k])
            && out@[k].position == k && is_plain(ts[k]) by {
            law_terms_are_folded_words(text@, k);
        }
    }
    out
}

/// How many tokens `text` has.
pub fn length(text: &str) -> (r: u32)
    requires
        terms(text@).len() <= u32::MAX,
    ensures
        r == terms(text@).len(),
{
    let n: usize = tokenize(text).len();
    n as u32
}

/// How many tokens `text` has, however many those are.
pub fn count_terms(text: &str) -> (r: usize)
    ensures
        r == terms(text@).len(),
{
    let bytes: &[u8] = text.as_bytes();
    let n: usize = bytes.len();
    let ghost all = runs(bytes@, Seq::empty());
    let ghost mut cur: Seq<u8> = Seq::empty();
    let mut count: usize = 0;
    let mut inside: bool = false;
    let mut i: usize = 0;
    proof {
        assert(bytes@.skip(0) =~= bytes@);
        assert(all.len() == terms(text@).len());
    }
    while i < n
        invariant
            n == bytes@.len(),
            i <= n,
            count + (if inside {
                1int
            } else {
                0int
            }) <= i,
            inside == (cur.len() > 0),
            all.len() == count + runs(bytes@.skip(i as int), cur).len(),
        decreases n - i,
    {
        let b: u8 = bytes[i];
        let ghost rest = bytes@.skip(i as int);
        proof {
            assert(rest[0] == b);
            assert(rest.skip(1) =~= bytes@.skip(i + 1));
        }
        if word_byte(b) {
            inside = true;
            proof {
                cur = cur.push(b);
            }
        } else {
            if inside {
                count = count + 1;
            }
            inside = false;
            proof {
                cur = Seq::empty();
            }
        }
        i = i + 1;
    }
    proof {
        assert(bytes@.skip(n as int).len() == 0);
    }
    if inside {
        count = count + 1;
    }
    count
}

// ---------------------------------------------------------------------
// postings
// ---------------------------------------------------------------------

/// Where a term occurs among the first `n`.
pub open spec fn positions(ts: Seq<Seq<u8>>, t: Seq<u8>, n: int) -> Seq<u32>
    decreases n,
{
    if n <= 0 {
        Seq::empty()
    } else if ts[n - 1] == t {
        positions(ts, t, n - 1).push((n - 1) as u32)
    } else {
        positions(ts, t, n - 1)
    }
}

/// One entry of an index: a term and where it occurs.
pub type Posting = (Seq<u8>, Seq<u32>);

/// The index of the first `n` terms: sorted, each term once, with all its
/// positions.
pub open spec fn indexes(ts: Seq<Seq<u8>>, n: int, p: Seq<Posting>) -> bool {
    &&& forall|i: int, j: int| 0 <= i < j < p.len() ==> lex_lt((#[trigger] p[i]).0, (#[trigger] p[j]).0)
    &&& forall|i: int|
        0 <= i < p.len() ==> (#[trigger] p[i]).1 == positions(ts, p[i].0, n) && occurs(ts, p[i].0, n)
    &&& forall|k: int| 0 <= k < n ==> has_term(p, #[trigger] ts[k])
}

pub open spec fn has_term(p: Seq<Posting>, t: Seq<u8>) -> bool {
    exists|i: int| 0 <= i < p.len() && (#[trigger] p[i]).0 == t
}

/// Whether a term is among the first `n`.
pub open spec fn occurs(ts: Seq<Seq<u8>>, t: Seq<u8>, n: int) -> bool {
    exists|k: int| 0 <= k < n && #[trigger] ts[k] == t
}

pub open spec fn posting_view(v: Seq<(String, Vec<u32>)>) -> Seq<Posting> {
    Seq::new(v.len(), |i: int| (encode_utf8(v[i].0@), v[i].1@))
}

/// The positions of a term are in order and exactly where it is.
pub proof fn lemma_positions(ts: Seq<Seq<u8>>, t: Seq<u8>, n: int)
    requires
        0 <= n <= ts.len(),
        n <= u32::MAX,
    ensures
        positions(ts, t, n).len() <= n,
        forall|i: int|
            0 <= i < positions(ts, t, n).len() ==> 0 <= (#[trigger] positions(ts, t, n)[i]) < n
                && ts[positions(ts, t, n)[i] as int] == t,
        forall|i: int, j: int|
            0 <= i < j < positions(ts, t, n).len() ==> (#[trigger] positions(ts, t, n)[i]) < (
            #[trigger] positions(ts, t, n)[j]),
        forall|k: int|
            0 <= k < n && #[trigger] ts[k] == t ==> positions(ts, t, n).contains(k as u32),
    decreases n,
{
    if n > 0 {
        lemma_positions(ts, t, n - 1);
        let a = positions(ts, t, n - 1);
        let b = positions(ts, t, n);
        if ts[n - 1] == t {
            assert forall|k: int| 0 <= k < n && #[trigger] ts[k] == t implies b.contains(k as u32) by {
                if k < n - 1 {
                    let i = choose|i: int| 0 <= i < a.len() && a[i] == k as u32;
                    assert(b[i] == k as u32);
                } else {
                    assert(b[a.len() as int] == k as u32);
                }
            }
        }
    }
}

proof fn lemma_positions_none(ts: Seq<Seq<u8>>, t: Seq<u8>, n: int)
    requires
        0 <= n <= ts.len(),
        !occurs(ts, t, n),
    ensures
        positions(ts, t, n).len() == 0,
    decreases n,
{
    if n > 0 {
        assert(ts[n - 1] != t);
        assert forall|k: int| 0 <= k < n - 1 implies #[trigger] ts[k] != t by {}
        lemma_positions_none(ts, t, n - 1);
    }
}

/// Where a term is in a sorted index, or where it would go.
fn find_term(table: &Vec<(String, Vec<u32>)>, term: &str) -> (r: (bool, usize))
    requires
        forall|i: int, j: int|
            0 <= i < j < table@.len() ==> lex_lt(
                (#[trigger] posting_view(table@)[i]).0,
                (#[trigger] posting_view(table@)[j]).0,
            ),
    ensures
        r.1 <= table@.len(),
        r.0 ==> r.1 < table@.len() && encode_utf8(table@[r.1 as int].0@) == encode_utf8(term@),
        forall|j: int|
            0 <= j < r.1 ==> lex_lt((#[trigger] posting_view(table@)[j]).0, encode_utf8(term@)),
        !r.0 ==> forall|j: int|
            r.1 <= j < table@.len() ==> lex_lt(encode_utf8(term@), (#[trigger] posting_view(table@)[j]).0),
{
    let ghost p = posting_view(table@);
    let ghost t = encode_utf8(term@);
    let mut i: usize = 0;
    while i < table.len()
        invariant
            i <= table@.len(),
            p == posting_view(table@),
            t == encode_utf8(term@),
            forall|i: int, j: int|
                0 <= i < j < p.len() ==> lex_lt((#[trigger] p[i]).0, (#[trigger] p[j]).0),
            forall|j: int| 0 <= j < i ==> lex_lt((#[trigger] p[j]).0, t),
        decreases table@.len() - i,
    {
        proof {
            assert(p[i as int].0 == encode_utf8(table@[i as int].0@));
        }
        match order_bytes(table[i].0.as_str().as_bytes(), term.as_bytes()) {
            Order::Less => {
                i = i + 1;
            },
            Order::Equal => {
                return (true, i);
            },
            Order::Greater => {
                proof {
                    crate::tree::lemma_lex_facts2(p[i as int].0, t);
                    assert forall|j: int| i <= j < p.len() implies lex_lt(t, (#[trigger] p[j]).0) by {
                        if j > i {
                            assert(lex_lt(p[i as int].0, p[j].0));
                            lemma_lex_trans(t, p[i as int].0, p[j].0);
                        }
                    }
                }
                return (false, i);
            },
        }
    }
    (false, i)
}

/// A term added to an index.
#[verifier::rlimit(60)]
proof fn lemma_index_step(
    ts: Seq<Seq<u8>>,
    n: int,
    p: Seq<Posting>,
    q: Seq<Posting>,
    found: bool,
    at: int,
)
    requires
        0 <= n < ts.len(),
        indexes(ts, n, p),
        0 <= at <= p.len(),
        found ==> at < p.len() && p[at].0 == ts[n] && q == p.update(
            at,
            (p[at].0, p[at].1.push(n as u32)),
        ),
        !found ==> q == p.insert(at, (ts[n], seq![n as u32])),
        forall|j: int| 0 <= j < at ==> lex_lt((#[trigger] p[j]).0, ts[n]),
        !found ==> forall|j: int| at <= j < p.len() ==> lex_lt(ts[n], (#[trigger] p[j]).0),
    ensures
        indexes(ts, n + 1, q),
{
    let t = ts[n];
    crate::order::lemma_lex_irrefl(t);
    assert forall|i: int, j: int| 0 <= i < j < q.len() implies lex_lt(
        (#[trigger] q[i]).0,
        (#[trigger] q[j]).0,
    ) by {
        if found {
            assert(lex_lt(p[i].0, p[j].0));
        } else {
            let x = if i < at {
                i
            } else {
                i - 1
            };
            let y = if j < at {
                j
            } else {
                j - 1
            };
            if i != at && j != at {
                assert(lex_lt(p[x].0, p[y].0));
            }
        }
    }
    assert forall|i: int| 0 <= i < q.len() implies (#[trigger] q[i]).1 == positions(ts, q[i].0, n + 1)
        && occurs(ts, q[i].0, n + 1) by {
        if i == at {
            assert(ts[n] == q[i].0);
            if !found {
                assert(!occurs(ts, t, n)) by {
                    if occurs(ts, t, n) {
                        let k = choose|k: int| 0 <= k < n && #[trigger] ts[k] == t;
                        assert(has_term(p, ts[k]));
                        let j = choose|j: int| 0 <= j < p.len() && (#[trigger] p[j]).0 == t;
                        if j < at {
                            assert(lex_lt(p[j].0, t));
                        } else {
                            assert(lex_lt(t, p[j].0));
                        }
                    }
                }
                lemma_positions_none(ts, t, n);
                assert(positions(ts, t, n + 1) =~= seq![n as u32]);
            }
        } else {
            let j = if found || i < at {
                i
            } else {
                i - 1
            };
            assert(q[i] == p[j]);
            if p[j].0 == t {
                if j < at {
                    assert(lex_lt(p[j].0, t));
                } else if !found {
                    assert(lex_lt(t, p[j].0));
                } else {
                    assert(lex_lt(p[at].0, p[j].0));
                }
            }
            let k = choose|k: int| 0 <= k < n && #[trigger] ts[k] == p[j].0;
            assert(ts[k] == q[i].0);
        }
    }
    assert forall|k: int| 0 <= k < n + 1 implies has_term(q, #[trigger] ts[k]) by {
        if k == n {
            assert(q[at].0 == t);
        } else {
            assert(has_term(p, ts[k]));
            let j = choose|j: int| 0 <= j < p.len() && (#[trigger] p[j]).0 == ts[k];
            let i = if found || j < at {
                j
            } else {
                j + 1
            };
            assert(q[i].0 == ts[k]);
        }
    }
}

/// The distinct terms of `text`, each with its positions in order.
///
/// This is the shape the index stores: one entry per term per document,
/// carrying every place it appeared, so term frequency is the length of
/// that list and no separate counter can drift from it.
#[verifier::rlimit(40)]
pub fn postings(text: &str) -> (r: Vec<(String, Vec<u32>)>)
    requires
        terms(text@).len() <= u32::MAX,
    ensures
        indexes(terms(text@), terms(text@).len() as int, posting_view(r@)),
{
    let tokens = tokenize(text);
    let ghost ts = terms(text@);
    let mut table: Vec<(String, Vec<u32>)> = Vec::new();
    let mut n: usize = 0;
    proof {
        lemma_runs_len(encode_utf8(text@), Seq::empty());
    }
    while n < tokens.len()
        invariant
            n <= tokens@.len(),
            ts == terms(text@),
            ts.len() <= u32::MAX,
            tokens_are(tokens@, ts),
            indexes(ts, n as int, posting_view(table@)),
        decreases tokens@.len() - n,
    {
        let ghost p = posting_view(table@);
        let ghost v0 = table@;
        let position: u32 = tokens[n].position;
        proof {
            assert(tokens@[n as int].term@ == as_text(ts[n as int]));
            lemma_as_text(ts[n as int]);
        }
        let (found, at) = find_term(&table, tokens[n].term.as_str());
        if found {
            table[at].1.push(position);
            proof {
                assert(posting_view(table@) =~= p.update(
                    at as int,
                    (p[at as int].0, p[at as int].1.push(n as u32)),
                ));
            }
        } else {
            let mut list: Vec<u32> = Vec::new();
            list.push(position);
            table.insert(at, (owned(tokens[n].term.as_str()), list));
            proof {
                assert(list@ =~= seq![n as u32]);
                assert(posting_view(table@) =~= p.insert(at as int, (ts[n as int], seq![n as u32])));
            }
        }
        proof {
            lemma_index_step(ts, n as int, p, posting_view(table@), found, at as int);
        }
        n = n + 1;
    }
    table
}

/// The distinct terms of `text`, sorted, without their positions.
pub fn terms_of(text: &str) -> (r: Vec<String>)
    requires
        terms(text@).len() <= u32::MAX,
    ensures
        forall|i: int, j: int|
            0 <= i < j < r@.len() ==> lex_lt(
                encode_utf8((#[trigger] r@[i])@),
                encode_utf8((#[trigger] r@[j])@),
            ),
        forall|i: int|
            0 <= i < r@.len() ==> occurs(
                terms(text@),
                encode_utf8((#[trigger] r@[i])@),
                terms(text@).len() as int,
            ),
        forall|k: int|
            0 <= k < terms(text@).len() ==> listed_term(r@, #[trigger] terms(text@)[k]),
{
    let table = postings(text);
    let ghost p = posting_view(table@);
    let ghost ts = terms(text@);
    let mut out: Vec<String> = Vec::new();
    let mut i: usize = 0;
    while i < table.len()
        invariant
            i <= table@.len(),
            p == posting_view(table@),
            out@.len() == i,
            forall|j: int| 0 <= j < i ==> encode_utf8((#[trigger] out@[j])@) == p[j].0,
        decreases table@.len() - i,
    {
        out.push(owned(table[i].0.as_str()));
        i = i + 1;
    }
    proof {
        assert forall|a: int, b: int| 0 <= a < b < out@.len() implies lex_lt(
            encode_utf8((#[trigger] out@[a])@),
            encode_utf8((#[trigger] out@[b])@),
        ) by {
            assert(lex_lt(p[a].0, p[b].0));
        }
        assert forall|a: int| 0 <= a < out@.len() implies occurs(
            ts,
            encode_utf8((#[trigger] out@[a])@),
            ts.len() as int,
        ) by {
            assert(occurs(ts, p[a].0, ts.len() as int));
        }
        assert forall|k: int| 0 <= k < ts.len() implies listed_term(out@, #[trigger] ts[k]) by {
            assert(has_term(p, ts[k]));
            let j = choose|j: int| 0 <= j < p.len() && (#[trigger] p[j]).0 == ts[k];
            assert(encode_utf8(out@[j]@) == ts[k]);
        }
    }
    out
}

/// Whether a list of terms has this one.
pub open spec fn listed_term(v: Seq<String>, t: Seq<u8>) -> bool {
    exists|i: int| 0 <= i < v.len() && encode_utf8((#[trigger] v[i])@) == t
}

/// Whether every word of one text is a word of another.
pub open spec fn all_words(have: Seq<Seq<u8>>, wanted: Seq<Seq<u8>>) -> bool {
    forall|k: int| 0 <= k < wanted.len() ==> occurs(have, #[trigger] wanted[k], have.len() as int)
}

/// Whether `haystack` contains every word of `needle`.
///
/// Both sides go through the same tokenizer, so a query matches on words
/// rather than on substrings: `cat` does not find `category`. An empty
/// query matches everything, which is what asking for nothing means.
pub fn contains_all(haystack: &str, needle: &str) -> (r: bool)
    requires
        terms(haystack@).len() <= u32::MAX,
        terms(needle@).len() <= u32::MAX,
    ensures
        r == all_words(terms(haystack@), terms(needle@)),
{
    let wanted = terms_of(needle);
    let have = terms_of(haystack);
    let ghost hs = terms(haystack@);
    let ghost ws = terms(needle@);
    let mut i: usize = 0;
    while i < wanted.len()
        invariant
            i <= wanted@.len(),
            hs == terms(haystack@),
            ws == terms(needle@),
            forall|j: int|
                0 <= j < wanted@.len() ==> occurs(
                    ws,
                    encode_utf8((#[trigger] wanted@[j])@),
                    ws.len() as int,
                ),
            forall|k: int| 0 <= k < ws.len() ==> listed_term(wanted@, #[trigger] ws[k]),
            forall|j: int|
                0 <= j < have@.len() ==> occurs(
                    hs,
                    encode_utf8((#[trigger] have@[j])@),
                    hs.len() as int,
                ),
            forall|k: int| 0 <= k < hs.len() ==> listed_term(have@, #[trigger] hs[k]),
            forall|j: int|
                0 <= j < i ==> occurs(hs, encode_utf8((#[trigger] wanted@[j])@), hs.len() as int),
        decreases wanted@.len() - i,
    {
        let ghost w = encode_utf8(wanted@[i as int]@);
        let mut found: bool = false;
        let mut j: usize = 0;
        while j < have.len() && !found
            invariant
                i < wanted@.len(),
                j <= have@.len(),
                w == encode_utf8(wanted@[i as int]@),
                found ==> listed_term(have@, w),
                !found ==> forall|k: int|
                    0 <= k < j ==> encode_utf8((#[trigger] have@[k])@) != w,
            decreases have@.len() - j,
        {
            found = same_bytes(have[j].as_str().as_bytes(), wanted[i].as_str().as_bytes());
            proof {
                if found {
                    assert(encode_utf8(have@[j as int]@) == w);
                }
            }
            j = j + 1;
        }
        if !found {
            proof {
                assert(occurs(ws, w, ws.len() as int));
                let k = choose|k: int| 0 <= k < ws.len() && #[trigger] ws[k] == w;
                if occurs(hs, w, hs.len() as int) {
                    let m = choose|m: int| 0 <= m < hs.len() && #[trigger] hs[m] == w;
                    assert(listed_term(have@, hs[m]));
                }
                assert(!occurs(hs, ws[k], hs.len() as int));
            }
            return false;
        }
        proof {
            let m = choose|m: int| 0 <= m < have@.len() && encode_utf8((#[trigger] have@[m])@) == w;
            assert(occurs(hs, encode_utf8(have@[m]@), hs.len() as int));
        }
        i = i + 1;
    }
    proof {
        assert forall|k: int| 0 <= k < ws.len() implies occurs(hs, #[trigger] ws[k], hs.len() as int) by {
            assert(listed_term(wanted@, ws[k]));
            let j = choose|j: int|
                0 <= j < wanted@.len() && encode_utf8((#[trigger] wanted@[j])@) == ws[k];
            assert(occurs(hs, encode_utf8(wanted@[j]@), hs.len() as int));
        }
    }
    true
}

// ---------------------------------------------------------------------
// phrases
// ---------------------------------------------------------------------

/// Whether the words of a phrase sit back to back from `i` on.
pub open spec fn phrase_at(have: Seq<Seq<u8>>, wanted: Seq<Seq<u8>>, i: int) -> bool {
    &&& i + wanted.len() <= have.len()
    &&& forall|k: int| 0 <= k < wanted.len() ==> #[trigger] wanted[k] == have[i + k]
}

/// How many of the first `n` places start a phrase.
pub open spec fn phrase_count(have: Seq<Seq<u8>>, wanted: Seq<Seq<u8>>, n: int) -> int
    decreases n,
{
    if n <= 0 {
        0
    } else {
        phrase_count(have, wanted, n - 1) + (if phrase_at(have, wanted, n - 1) {
            1int
        } else {
            0int
        })
    }
}

/// How often a phrase occurs; one without words never does.
pub open spec fn phrase_total(have: Seq<Seq<u8>>, wanted: Seq<Seq<u8>>) -> int {
    if wanted.len() == 0 {
        0
    } else {
        phrase_count(have, wanted, have.len() as int)
    }
}

proof fn lemma_phrase_tail(have: Seq<Seq<u8>>, wanted: Seq<Seq<u8>>, a: int, b: int)
    requires
        0 <= a <= b,
        a + wanted.len() > have.len(),
    ensures
        phrase_count(have, wanted, b) == phrase_count(have, wanted, a),
    decreases b,
{
    if b > a {
        lemma_phrase_tail(have, wanted, a, b - 1);
    }
}

/// Whether a phrase starts here.
fn starts_here(have: &Vec<Token>, wanted: &Vec<Token>, i: usize, Ghost(hs): Ghost<Seq<Seq<u8>>>, Ghost(ws): Ghost<Seq<Seq<u8>>>) -> (r:
    bool)
    requires
        tokens_are(have@, hs),
        tokens_are(wanted@, ws),
        i + wanted@.len() <= have@.len(),
    ensures
        r == phrase_at(hs, ws, i as int),
{
    let mut k: usize = 0;
    while k < wanted.len()
        invariant
            tokens_are(have@, hs),
            tokens_are(wanted@, ws),
            i + wanted@.len() <= have@.len(),
            k <= wanted@.len(),
            forall|j: int| 0 <= j < k ==> #[trigger] ws[j] == hs[i + j],
        decreases wanted@.len() - k,
    {
        proof {
            assert(have@[i + k].term@ == as_text(hs[i + k]));
            assert(wanted@[k as int].term@ == as_text(ws[k as int]));
            lemma_as_text(hs[i + k]);
            lemma_as_text(ws[k as int]);
        }
        if !same_bytes(have[i + k].term.as_str().as_bytes(), wanted[k].term.as_str().as_bytes()) {
            proof {
                assert(ws[k as int] != hs[i + k]);
            }
            return false;
        }
        k = k + 1;
    }
    true
}

/// How often the words of `needle` appear in `haystack` back to back.
///
/// The brute force half of a phrase query, and the definition the index
/// has to agree with. Both sides tokenize, so a phrase matches words in
/// sequence rather than a substring, and an empty needle is a phrase of
/// nothing, which is everywhere: it answers zero here and the caller
/// treats that shape as matching, exactly as `contains_all` does.
pub fn phrase_occurrences(haystack: &str, needle: &str) -> (r: u32)
    requires
        terms(haystack@).len() <= u32::MAX,
        terms(needle@).len() <= u32::MAX,
    ensures
        r == phrase_total(terms(haystack@), terms(needle@)),
{
    let wanted = tokenize(needle);
    let have = tokenize(haystack);
    let ghost ws = terms(needle@);
    let ghost hs = terms(haystack@);
    let w: usize = wanted.len();
    let h: usize = have.len();
    proof {
        lemma_runs_len(encode_utf8(haystack@), Seq::empty());
        assert(phrase_count(hs, ws, 0) == 0);
        if h < w {
            lemma_phrase_tail(hs, ws, 0, hs.len() as int);
        }
    }
    if w == 0 || h < w {
        return 0;
    }
    let mut count: u32 = 0;
    let mut i: usize = 0;
    while i <= h - w
        invariant
            tokens_are(have@, hs),
            tokens_are(wanted@, ws),
            h == have@.len(),
            w == wanted@.len(),
            0 < w <= h <= u32::MAX,
            i <= h - w + 1,
            count <= i,
            count == phrase_count(hs, ws, i as int),
        decreases h - w + 1 - i,
    {
        if starts_here(&have, &wanted, i, Ghost(hs), Ghost(ws)) {
            count = count + 1;
        }
        i = i + 1;
    }
    proof {
        lemma_phrase_tail(hs, ws, i as int, hs.len() as int);
    }
    count
}

/// Whether `haystack` contains the words of `needle` back to back.
pub fn contains_phrase(haystack: &str, needle: &str) -> (r: bool)
    requires
        terms(haystack@).len() <= u32::MAX,
        terms(needle@).len() <= u32::MAX,
    ensures
        r == (terms(needle@).len() == 0 || phrase_total(terms(haystack@), terms(needle@)) > 0),
{
    tokenize(needle).len() == 0 || phrase_occurrences(haystack, needle) > 0
}

/// Whether every later word of a phrase has a position right after its
/// predecessor, from `start` on.
pub open spec fn lined_up(lists: Seq<Seq<u32>>, start: u32) -> bool {
    forall|k: int| 1 <= k < lists.len() ==> has_position(#[trigger] lists[k], start + k)
}

pub open spec fn has_position(list: Seq<u32>, p: int) -> bool {
    exists|i: int| 0 <= i < list.len() && #[trigger] list[i] == p
}

/// How many of the first `n` positions of the first word start a phrase.
pub open spec fn hit_count(lists: Seq<Seq<u32>>, n: int) -> int
    decreases n,
{
    if n <= 0 {
        0
    } else {
        hit_count(lists, n - 1) + (if lined_up(lists, lists[0][n - 1]) {
            1int
        } else {
            0int
        })
    }
}

/// How often a phrase occurs, told by position lists.
pub open spec fn hit_total(lists: Seq<Seq<u32>>) -> int {
    if lists.len() == 0 {
        0
    } else {
        hit_count(lists, lists[0].len() as int)
    }
}

pub open spec fn lists_of(v: Seq<Vec<u32>>) -> Seq<Seq<u32>> {
    Seq::new(v.len(), |i: int| v[i]@)
}

/// Whether a list has a position.
fn has(list: &Vec<u32>, p: u64) -> (r: bool)
    ensures
        r == has_position(list@, p as int),
{
    let mut i: usize = 0;
    while i < list.len()
        invariant
            i <= list@.len(),
            forall|j: int| 0 <= j < i ==> #[trigger] list@[j] != p,
        decreases list@.len() - i,
    {
        if list[i] as u64 == p {
            return true;
        }
        i = i + 1;
    }
    false
}

/// How often a phrase occurs, given one position list per word in order.
///
/// The index half, and it has to answer the same as
/// [`phrase_occurrences`]. A phrase sits at position `p` when the first
/// word is at `p`, the second at `p + 1`, and so on, which is why
/// positions count tokens rather than bytes.
pub fn phrase_hits(positions: &[Vec<u32>]) -> (r: u32)
    requires
        positions@.len() <= u32::MAX,
        positions@.len() > 0 ==> positions@[0]@.len() <= u32::MAX,
    ensures
        r == hit_total(lists_of(positions@)),
{
    let n: usize = positions.len();
    if n == 0 {
        return 0;
    }
    let ghost lists = lists_of(positions@);
    let m: usize = positions[0].len();
    let mut count: u32 = 0;
    let mut i: usize = 0;
    while i < m
        invariant
            n == positions@.len(),
            0 < n <= u32::MAX,
            m == positions@[0]@.len(),
            m <= u32::MAX,
            lists == lists_of(positions@),
            i <= m,
            count <= i,
            count == hit_count(lists, i as int),
        decreases m - i,
    {
        let start: u32 = positions[0][i];
        let mut all: bool = true;
        let mut k: usize = 1;
        while k < n && all
            invariant
                n == positions@.len(),
                0 < n <= u32::MAX,
                lists == lists_of(positions@),
                1 <= k <= n,
                all ==> forall|j: int| 1 <= j < k ==> has_position(#[trigger] lists[j], start + j),
                !all ==> !lined_up(lists, start),
            decreases n - k,
        {
            all = has(&positions[k], start as u64 + k as u64);
            proof {
                assert(lists[k as int] == positions@[k as int]@);
            }
            k = k + 1;
        }
        if all {
            count = count + 1;
        }
        proof {
            assert(lists[0][i as int] == start);
        }
        i = i + 1;
    }
    count
}

/// The position lists of a phrase's words in a text.
pub open spec fn phrase_lists(have: Seq<Seq<u8>>, wanted: Seq<Seq<u8>>) -> Seq<Seq<u32>> {
    Seq::new(wanted.len(), |k: int| positions(have, wanted[k], have.len() as int))
}

proof fn lemma_lined_up(have: Seq<Seq<u8>>, wanted: Seq<Seq<u8>>, i: int)
    requires
        have.len() <= u32::MAX,
        wanted.len() > 0,
        0 <= i < have.len(),
        have[i] == wanted[0],
    ensures
        lined_up(phrase_lists(have, wanted), i as u32) == phrase_at(have, wanted, i),
{
    let lists = phrase_lists(have, wanted);
    let n = have.len() as int;
    if lined_up(lists, i as u32) {
        assert forall|k: int| 0 <= k < wanted.len() implies #[trigger] wanted[k] == have[i + k] && i + k
            < n by {
            if k > 0 {
                lemma_positions(have, wanted[k], n);
                assert(has_position(lists[k], i + k));
                let j = choose|j: int| 0 <= j < lists[k].len() && #[trigger] lists[k][j] == i + k;
                assert(positions(have, wanted[k], n)[j] == i + k);
            }
        }
        assert(wanted[wanted.len() - 1] == have[i + wanted.len() - 1]);
    }
    if phrase_at(have, wanted, i) {
        assert forall|k: int| 1 <= k < lists.len() implies has_position(#[trigger] lists[k], i + k) by {
            lemma_positions(have, wanted[k], n);
            assert(have[i + k] == wanted[k]);
            let j = choose|j: int|
                0 <= j < positions(have, wanted[k], n).len() && positions(have, wanted[k], n)[j] == (i
                    + k) as u32;
            assert(lists[k][j] == i + k);
        }
    }
}

proof fn lemma_positions_prefix(ts: Seq<Seq<u8>>, t: Seq<u8>, a: int, b: int)
    requires
        0 <= a <= b <= ts.len(),
    ensures
        positions(ts, t, a).is_prefix_of(positions(ts, t, b)),
    decreases b,
{
    if a < b {
        lemma_positions_prefix(ts, t, a, b - 1);
        let x = positions(ts, t, a);
        let y = positions(ts, t, b - 1);
        let z = positions(ts, t, b);
        assert(y.subrange(0, x.len() as int) == x);
        assert(z.subrange(0, x.len() as int) =~= x);
    } else {
        let x = positions(ts, t, a);
        assert(x.subrange(0, x.len() as int) =~= x);
    }
}

proof fn lemma_hits_up(have: Seq<Seq<u8>>, wanted: Seq<Seq<u8>>, n: int)
    requires
        have.len() <= u32::MAX,
        wanted.len() > 0,
        0 <= n <= have.len(),
    ensures
        hit_count(phrase_lists(have, wanted), positions(have, wanted[0], n).len() as int)
            == phrase_count(have, wanted, n),
    decreases n,
{
    let lists = phrase_lists(have, wanted);
    if n > 0 {
        lemma_hits_up(have, wanted, n - 1);
        let a = positions(have, wanted[0], n - 1);
        let b = positions(have, wanted[0], n);
        if have[n - 1] == wanted[0] {
            lemma_lined_up(have, wanted, n - 1);
            lemma_positions_prefix(have, wanted[0], n, have.len() as int);
            assert(lists[0].subrange(0, b.len() as int)[a.len() as int] == b[a.len() as int]);
        } else {
            if phrase_at(have, wanted, n - 1) {
                assert(wanted[0] == have[n - 1 + 0]);
            }
        }
    }
}

/// The index half answers what the text half answers: counting lined up
/// positions counts the places where the words stand back to back.
pub proof fn law_index_agrees_with_text(have: Seq<Seq<u8>>, wanted: Seq<Seq<u8>>)
    requires
        have.len() <= u32::MAX,
    ensures
        hit_total(phrase_lists(have, wanted)) == phrase_total(have, wanted),
{
    if wanted.len() > 0 {
        lemma_hits_up(have, wanted, have.len() as int);
    }
}

/// A phrase found through an index is found as often as in the text: the
/// lists that the postings of a text hold for the words of a phrase, nothing
/// for a word it lacks, line up as often as the phrase occurs.
pub proof fn law_postings_find_the_phrase(
    have: Seq<Seq<u8>>,
    wanted: Seq<Seq<u8>>,
    p: Seq<Posting>,
    lists: Seq<Seq<u32>>,
)
    requires
        have.len() <= u32::MAX,
        indexes(have, have.len() as int, p),
        lists.len() == wanted.len(),
        forall|k: int| 0 <= k < wanted.len() ==> #[trigger] listed_for(p, wanted[k], lists[k]),
    ensures
        hit_total(lists) == phrase_total(have, wanted),
{
    let n = have.len() as int;
    assert forall|k: int| 0 <= k < wanted.len() implies #[trigger] lists[k] == phrase_lists(
        have,
        wanted,
    )[k] by {
        let t = wanted[k];
        assert(listed_for(p, wanted[k], lists[k]));
        if has_term(p, t) {
            let i = choose|i: int| 0 <= i < p.len() && (#[trigger] p[i]).0 == t && p[i].1 == lists[k];
            assert(p[i].1 == positions(have, t, n));
        } else {
            assert forall|j: int| 0 <= j < n implies #[trigger] have[j] != t by {
                assert(has_term(p, have[j]));
            }
            lemma_no_positions(have, t, n);
            assert(lists[k] =~= positions(have, t, n));
        }
    }
    assert(lists =~= phrase_lists(have, wanted));
    law_index_agrees_with_text(have, wanted);
}

/// Whether a list is the one the postings hold for a term.
pub open spec fn listed_for(p: Seq<Posting>, t: Seq<u8>, list: Seq<u32>) -> bool {
    if has_term(p, t) {
        exists|i: int| 0 <= i < p.len() && (#[trigger] p[i]).0 == t && p[i].1 == list
    } else {
        list.len() == 0
    }
}

proof fn lemma_no_positions(ts: Seq<Seq<u8>>, t: Seq<u8>, n: int)
    requires
        n <= ts.len(),
        forall|j: int| 0 <= j < n ==> #[trigger] ts[j] != t,
    ensures
        positions(ts, t, n).len() == 0,
    decreases n,
{
    if n > 0 {
        lemma_no_positions(ts, t, n - 1);
    }
}

/// How many positions the first `k` postings of the first `n` terms have.
pub open spec fn posted(ts: Seq<Seq<u8>>, p: Seq<Posting>, n: int, k: int) -> int
    decreases k,
{
    if k <= 0 {
        0
    } else {
        posted(ts, p, n, k - 1) + positions(ts, p[k - 1].0, n).len()
    }
}

/// The lists of a text's postings have as many positions together as the
/// text has tokens.
pub proof fn law_postings_add_up(ts: Seq<Seq<u8>>, p: Seq<Posting>)
    requires
        indexes(ts, ts.len() as int, p),
    ensures
        posted(ts, p, ts.len() as int, p.len() as int) == ts.len(),
        forall|i: int|
            0 <= i < p.len() ==> (#[trigger] p[i]).1 == positions(ts, p[i].0, ts.len() as int),
{
    lemma_posted(ts, p, ts.len() as int);
}

proof fn lemma_posted(ts: Seq<Seq<u8>>, p: Seq<Posting>, n: int)
    requires
        0 <= n <= ts.len(),
        indexes(ts, ts.len() as int, p),
    ensures
        posted(ts, p, n, p.len() as int) == n,
    decreases n,
{
    if n == 0 {
        lemma_posted_none(ts, p, p.len() as int);
    } else {
        lemma_posted(ts, p, n - 1);
        let t = ts[n - 1];
        assert(has_term(p, ts[n - 1]));
        let at = choose|i: int| 0 <= i < p.len() && (#[trigger] p[i]).0 == t;
        assert forall|j: int| 0 <= j < p.len() && j != at implies (#[trigger] p[j]).0 != t by {
            crate::order::lemma_lex_irrefl(t);
            if j < at {
                assert(lex_lt(p[j].0, p[at].0));
            } else {
                assert(lex_lt(p[at].0, p[j].0));
            }
        }
        lemma_posted_step(ts, p, n, at, p.len() as int);
    }
}

proof fn lemma_posted_none(ts: Seq<Seq<u8>>, p: Seq<Posting>, k: int)
    ensures
        posted(ts, p, 0, k) == 0,
    decreases k,
{
    if k > 0 {
        lemma_posted_none(ts, p, k - 1);
    }
}

proof fn lemma_posted_step(ts: Seq<Seq<u8>>, p: Seq<Posting>, n: int, at: int, k: int)
    requires
        0 < n <= ts.len(),
        0 <= at < p.len(),
        0 <= k <= p.len(),
        p[at].0 == ts[n - 1],
        forall|j: int| 0 <= j < p.len() && j != at ==> (#[trigger] p[j]).0 != ts[n - 1],
    ensures
        posted(ts, p, n, k) == posted(ts, p, n - 1, k) + (if at < k {
            1int
        } else {
            0int
        }),
    decreases k,
{
    if k > 0 {
        lemma_posted_step(ts, p, n, at, k - 1);
        if k - 1 != at {
            assert(p[k - 1].0 != ts[n - 1]);
        }
    }
}

/// A text that contains a phrase contains all its words, and contains it
/// where and only where it occurs at least once.
pub proof fn law_phrase_has_all_its_words(have: Seq<Seq<u8>>, wanted: Seq<Seq<u8>>)
    ensures
        phrase_total(have, wanted) > 0 ==> all_words(have, wanted),
        phrase_total(have, wanted) > 0 <==> wanted.len() > 0 && exists|i: int|
            0 <= i < have.len() && #[trigger] phrase_at(have, wanted, i),
{
    let n = have.len() as int;
    lemma_phrase_found(have, wanted, n);
    if phrase_total(have, wanted) > 0 {
        let i = choose|i: int| 0 <= i < n && #[trigger] phrase_at(have, wanted, i);
        assert forall|k: int| 0 <= k < wanted.len() implies occurs(have, #[trigger] wanted[k], n) by {
            assert(have[i + k] == wanted[k]);
        }
    }
}

proof fn lemma_phrase_found(have: Seq<Seq<u8>>, wanted: Seq<Seq<u8>>, n: int)
    requires
        0 <= n <= have.len(),
    ensures
        phrase_count(have, wanted, n) >= 0,
        phrase_count(have, wanted, n) > 0 <==> exists|i: int|
            0 <= i < n && #[trigger] phrase_at(have, wanted, i),
    decreases n,
{
    if n > 0 {
        lemma_phrase_found(have, wanted, n - 1);
    }
}

/// Two texts with a space between them have the tokens of both.
pub proof fn law_tokens_join(a: Seq<char>, b: Seq<char>)
    ensures
        terms(a + " "@ + b) == terms(a) + terms(b),
{
    reveal_strlit(" ");
    let x = encode_utf8(a);
    let y = encode_utf8(b);
    lemma_utf8_add(" "@, b);
    lemma_utf8_add(a, " "@ + b);
    assert(encode_utf8(" "@) =~= seq![32u8]) by {
        reveal_with_fuel(encode_utf8, 2);
        assert(" "@.drop_first() =~= Seq::<char>::empty());
        assert((32u32 & 0x7F) as u8 == 32u8) by (bit_vector);
    }
    assert(a + " "@ + b =~= a + (" "@ + b));
    lemma_runs_split(x, Seq::empty(), y);
    assert(x + (seq![32u8] + y) =~= x + seq![32u8] + y);
    assert(terms(a + " "@ + b) =~= terms(a) + terms(b));
}

pub proof fn lemma_utf8_add(a: Seq<char>, b: Seq<char>)
    ensures
        encode_utf8(a + b) == encode_utf8(a) + encode_utf8(b),
    decreases a.len(),
{
    if a.len() == 0 {
        assert(a + b =~= b);
        assert(encode_utf8(a) + encode_utf8(b) =~= encode_utf8(b));
    } else {
        assert((a + b).drop_first() =~= a.drop_first() + b);
        lemma_utf8_add(a.drop_first(), b);
        let c = vstd::utf8::encode_scalar(a[0] as u32);
        assert((a + b)[0] == a[0]);
        assert(c + (encode_utf8(a.drop_first()) + encode_utf8(b)) =~= c + encode_utf8(a.drop_first())
            + encode_utf8(b));
    }
}

proof fn lemma_runs_split(x: Seq<u8>, cur: Seq<u8>, y: Seq<u8>)
    ensures
        runs(x + seq![32u8] + y, cur) == runs(x, cur) + runs(y, Seq::empty()),
    decreases x.len(),
{
    let all = x + seq![32u8] + y;
    if x.len() == 0 {
        assert(all[0] == 32u8);
        assert(all.skip(1) =~= y);
        assert(Seq::<Seq<u8>>::empty() + runs(y, Seq::empty()) =~= runs(y, Seq::empty()));
    } else {
        assert(all[0] == x[0]);
        assert(all.skip(1) =~= x.skip(1) + seq![32u8] + y);
        if is_word(x[0]) {
            lemma_runs_split(x.skip(1), cur.push(x[0]), y);
        } else {
            lemma_runs_split(x.skip(1), Seq::empty(), y);
            if cur.len() > 0 {
                let r = runs(x.skip(1), Seq::empty());
                let t = runs(y, Seq::empty());
                assert(seq![cur] + (r + t) =~= seq![cur] + r + t);
            }
        }
    }
}

// ---------------------------------------------------------------------
// stored postings
// ---------------------------------------------------------------------

/// Numbers one after the other, four bytes each.
pub open spec fn words_stored(w: Seq<u32>) -> Seq<u8>
    decreases w.len(),
{
    if w.len() == 0 {
        Seq::empty()
    } else {
        words_stored(w.drop_last()) + le_bytes(w.last() as nat, 4)
    }
}

/// A posting as stored: the document's length, then the positions.
pub open spec fn posting_stored(length: u32, positions: Seq<u32>) -> Seq<u8> {
    le_bytes(length as nat, 4) + words_stored(positions)
}

/// The posting that bytes spell, if they are one.
pub open spec fn posting_of(b: Seq<u8>) -> Option<(u32, Seq<u32>)> {
    if b.len() >= 4 && b.len() % 4 == 0 {
        Some((u32_at(b, 0), Seq::new((b.len() / 4 - 1) as nat, |i: int| u32_at(b, 4 + 4 * i))))
    } else {
        None
    }
}

/// A posting: the document's length, then the positions, all little endian
/// and the positions in order.
///
/// Term frequency is the length of the position list and is never stored
/// beside it, so the two cannot disagree. The document's length is stored,
/// and that is a deliberate second copy: scoring needs it for every
/// candidate, and reading it from an entry of its own costs one point
/// lookup per candidate.
pub fn encode_posting(length: u32, positions: &[u32]) -> (r: Vec<u8>)
    ensures
        r@ == posting_stored(length, positions@),
{
    let mut out: Vec<u8> = Vec::new();
    proof {
        crate::bytes::lemma_pow256_values();
    }
    put_le(&mut out, length as u64, 4);
    let ghost head = out@;
    let mut i: usize = 0;
    proof {
        assert(positions@.take(0) =~= Seq::empty());
        assert(out@ =~= head + words_stored(positions@.take(0)));
        assert(head =~= le_bytes(length as nat, 4));
    }
    while i < positions.len()
        invariant
            i <= positions@.len(),
            crate::bytes::pow256(4) == 0x1_0000_0000,
            out@ == head + words_stored(positions@.take(i as int)),
        decreases positions@.len() - i,
    {
        put_le(&mut out, positions[i] as u64, 4);
        proof {
            let t = positions@.take(i + 1);
            assert(t.drop_last() =~= positions@.take(i as int));
            assert(t.last() == positions@[i as int]);
            assert(out@ =~= head + words_stored(t));
        }
        i = i + 1;
    }
    proof {
        assert(positions@.take(positions@.len() as int) =~= positions@);
    }
    out
}

/// Read a posting back, or None if it is not a length and whole positions.
pub fn decode_posting(bytes: &[u8]) -> (r: Option<(u32, Vec<u32>)>)
    ensures
        match r {
            Some((n, v)) => posting_of(bytes@) == Some((n, v@)),
            None => posting_of(bytes@) is None,
        },
{
    let len: usize = bytes.len();
    if len < 4 || len % 4 != 0 {
        return None;
    }
    let n: u32 = get_u32(bytes, 0);
    let count: usize = len / 4 - 1;
    let mut v: Vec<u32> = Vec::new();
    let mut i: usize = 0;
    while i < count
        invariant
            i <= count,
            len == bytes@.len(),
            len == 4 * count + 4,
            v@.len() == i,
            forall|j: int| 0 <= j < i ==> #[trigger] v@[j] == u32_at(bytes@, 4 + 4 * j),
        decreases count - i,
    {
        v.push(get_u32(bytes, 4 + 4 * i));
        i = i + 1;
    }
    proof {
        assert(v@ =~= Seq::new(
            (bytes@.len() / 4 - 1) as nat,
            |i: int| u32_at(bytes@, 4 + 4 * i),
        ));
    }
    Some((n, v))
}

proof fn lemma_words_stored(w: Seq<u32>)
    ensures
        words_stored(w).len() == 4 * w.len(),
        forall|i: int|
            0 <= i < w.len() ==> #[trigger] words_stored(w).subrange(4 * i, 4 * i + 4) == le_bytes(
                w[i] as nat,
                4,
            ),
    decreases w.len(),
{
    if w.len() > 0 {
        let d = w.drop_last();
        let n = w.len() - 1;
        lemma_words_stored(d);
        lemma_le_bytes_len(w.last() as nat, 4);
        let s = words_stored(w);
        assert forall|i: int| 0 <= i < w.len() implies #[trigger] s.subrange(4 * i, 4 * i + 4)
            == le_bytes(w[i] as nat, 4) by {
            if i < n {
                assert(s.subrange(4 * i, 4 * i + 4) =~= words_stored(d).subrange(4 * i, 4 * i + 4));
                assert(d[i] == w[i]);
            } else {
                assert(s.subrange(4 * i, 4 * i + 4) =~= le_bytes(w.last() as nat, 4));
            }
        }
    }
}

/// A posting survives a round trip.
pub proof fn law_posting_decode_inverts_encode(length: u32, positions: Seq<u32>)
    ensures
        posting_of(posting_stored(length, positions)) == Some((length, positions)),
{
    let s = posting_stored(length, positions);
    lemma_words_stored(positions);
    lemma_field32(length);
    lemma_le_bytes_len(length as nat, 4);
    assert(s.subrange(0, 4) =~= le_bytes(length as nat, 4));
    let seen = Seq::new((s.len() / 4 - 1) as nat, |i: int| u32_at(s, 4 + 4 * i));
    assert forall|i: int| 0 <= i < seen.len() implies #[trigger] seen[i] == positions[i] by {
        lemma_field32(positions[i]);
        assert(s.subrange(4 + 4 * i, 4 + 4 * i + 4) =~= words_stored(positions).subrange(
            4 * i,
            4 * i + 4,
        ));
    }
    assert(seen =~= positions);
}


/// Every position of a text is in exactly one list of its index, so no
/// counter can drift from the lists.
pub proof fn law_every_position_is_used_once(ts: Seq<Seq<u8>>, p: Seq<Posting>, k: int)
    requires
        ts.len() <= u32::MAX,
        indexes(ts, ts.len() as int, p),
        0 <= k < ts.len(),
    ensures
        exists|i: int| 0 <= i < p.len() && (#[trigger] p[i]).1.contains(k as u32),
        forall|i: int, j: int|
            0 <= i < p.len() && 0 <= j < p.len() && (#[trigger] p[i]).1.contains(k as u32) && (
            #[trigger] p[j]).1.contains(k as u32) ==> i == j,
{
    let n = ts.len() as int;
    assert(has_term(p, ts[k]));
    let i = choose|i: int| 0 <= i < p.len() && (#[trigger] p[i]).0 == ts[k];
    lemma_positions(ts, ts[k], n);
    assert(p[i].1.contains(k as u32));
    assert forall|i: int, j: int|
        0 <= i < p.len() && 0 <= j < p.len() && (#[trigger] p[i]).1.contains(k as u32) && (
        #[trigger] p[j]).1.contains(k as u32) implies i == j by {
        lemma_positions(ts, p[i].0, n);
        lemma_positions(ts, p[j].0, n);
        let a = choose|a: int| 0 <= a < p[i].1.len() && p[i].1[a] == k as u32;
        let b = choose|b: int| 0 <= b < p[j].1.len() && p[j].1[b] == k as u32;
        assert(ts[positions(ts, p[i].0, n)[a] as int] == p[i].0);
        assert(ts[positions(ts, p[j].0, n)[b] as int] == p[j].0);
        crate::order::lemma_lex_irrefl(p[i].0);
        if i < j {
            assert(lex_lt(p[i].0, p[j].0));
        }
        if j < i {
            assert(lex_lt(p[j].0, p[i].0));
        }
    }
}

} // verus!
