//! What counts as a word, told in characters.

use vstd::prelude::*;
use vstd::utf8::{encode_scalar, encode_utf8, is_ascii_chars};

use crate::text::{
    all_words, as_text, is_word, lemma_utf8_add, occurs, phrase_at, phrase_count, phrase_total, runs,
    term_of, terms,
};

verus! {

/// A letter or digit of ASCII.
pub open spec fn wordy(c: char) -> bool {
    ('0' <= c && c <= '9') || ('a' <= c && c <= 'z') || ('A' <= c && c <= 'Z')
}

/// A capital of ASCII as a small letter, everything else as it is.
pub open spec fn small(c: char) -> char {
    if 'A' <= c && c <= 'Z' {
        ((c as u32) + 32) as char
    } else {
        c
    }
}

proof fn lemma_all_word(b: Seq<u8>, cur: Seq<u8>)
    requires
        forall|i: int| 0 <= i < b.len() ==> is_word(#[trigger] b[i]),
        cur.len() + b.len() > 0,
    ensures
        runs(b, cur) == seq![cur + b],
    decreases b.len(),
{
    if b.len() == 0 {
        assert(cur + b =~= cur);
    } else {
        assert(is_word(b[0]));
        lemma_all_word(b.skip(1), cur.push(b[0]));
        assert(cur.push(b[0]) + b.skip(1) =~= cur + b);
    }
}

/// A text of ASCII letters and digits is one word: the text in small
/// letters, cut after 128 characters.
pub proof fn law_a_word_is_one_term(s: Seq<char>)
    requires
        s.len() > 0,
        forall|i: int|
            0 <= i < s.len() ==> {
                let c = #[trigger] s[i];
                ('0' <= c && c <= '9') || ('a' <= c && c <= 'z') || ('A' <= c && c <= 'Z')
            },
    ensures
        terms(s).len() == 1,
        as_text(terms(s)[0]).len() == (if s.len() < 128 {
            s.len()
        } else {
            128
        }),
        forall|i: int|
            0 <= i < s.len() && i < 128 ==> #[trigger] as_text(terms(s)[0])[i] == small(s[i]),
{
    let b = encode_utf8(s);
    assert(is_ascii_chars(s));
    vstd::utf8::is_ascii_chars_encode_utf8(s);
    assert forall|i: int| 0 <= i < b.len() implies is_word(#[trigger] b[i]) by {
        assert(wordy(s[i]));
        assert(b[i] == s[i] as u8);
    }
    lemma_all_word(b, Seq::empty());
    assert(Seq::<u8>::empty() + b =~= b);
    assert(terms(s)[0] == term_of(b));
    assert forall|i: int| 0 <= i < s.len() && i < 128 implies #[trigger] as_text(terms(s)[0])[i]
        == small(s[i]) by {
        assert(wordy(s[i]));
        assert(b[i] == s[i] as u8);
    }
}

/// No byte of a character that is no ASCII letter or digit is one.
proof fn lemma_no_word(c: char)
    requires
        !wordy(c),
    ensures
        encode_scalar(c as u32).len() > 0,
        forall|i: int|
            0 <= i < encode_scalar(c as u32).len() ==> !is_word(#[trigger] encode_scalar(c as u32)[i]),
{
    let x = c as u32;
    assert(x <= 0x7F ==> (x & 0x7F) as u8 == x) by (bit_vector);
    assert(forall|b: u8|
        #![trigger (0xC0u8 | b)]
        #![trigger (0xE0u8 | b)]
        #![trigger (0xF0u8 | b)]
        #![trigger (0x80u8 | b)]
        (0xC0u8 | b) >= 128 && (0xE0u8 | b) >= 128 && (0xF0u8 | b) >= 128 && (0x80u8 | b) >= 128)
        by (bit_vector);
}

proof fn lemma_runs_part(x: Seq<u8>, cur: Seq<u8>, sep: Seq<u8>, y: Seq<u8>)
    requires
        sep.len() > 0,
        forall|i: int| 0 <= i < sep.len() ==> !is_word(#[trigger] sep[i]),
    ensures
        runs(x + sep + y, cur) == runs(x, cur) + runs(y, Seq::empty()),
    decreases x.len() + sep.len(),
{
    let all = x + sep + y;
    if x.len() == 0 {
        assert(all[0] == sep[0]);
        assert(!is_word(sep[0]));
        let rest = sep.skip(1);
        assert(all.skip(1) =~= rest + y);
        if rest.len() == 0 {
            assert(rest + y =~= y);
        } else {
            assert forall|i: int| 0 <= i < rest.len() implies !is_word(#[trigger] rest[i]) by {
                assert(rest[i] == sep[i + 1]);
            }
            lemma_runs_part(x, Seq::empty(), rest, y);
            assert(x + rest + y =~= rest + y);
            assert(runs(x, Seq::empty()) =~= Seq::<Seq<u8>>::empty());
            assert(Seq::<Seq<u8>>::empty() + runs(y, Seq::empty()) =~= runs(y, Seq::empty()));
        }
        assert(runs(all.skip(1), Seq::empty()) == runs(y, Seq::empty()));
        assert(Seq::<Seq<u8>>::empty() + runs(y, Seq::empty()) =~= runs(y, Seq::empty()));
    } else {
        assert(all[0] == x[0]);
        assert(all.skip(1) =~= x.skip(1) + sep + y);
        if is_word(x[0]) {
            lemma_runs_part(x.skip(1), cur.push(x[0]), sep, y);
        } else {
            lemma_runs_part(x.skip(1), Seq::empty(), sep, y);
            if cur.len() > 0 {
                let r = runs(x.skip(1), Seq::empty());
                let t = runs(y, Seq::empty());
                assert(seq![cur] + (r + t) =~= seq![cur] + r + t);
            }
        }
    }
}

/// Whatever is no ASCII letter or digit parts words: the words before it and
/// the words after it, and an empty text has none.
pub proof fn law_everything_else_parts_words(a: Seq<char>, c: char, b: Seq<char>)
    requires
        !(('0' <= c && c <= '9') || ('a' <= c && c <= 'z') || ('A' <= c && c <= 'Z')),
    ensures
        terms(a + seq![c] + b) == terms(a) + terms(b),
        terms(Seq::empty()) == Seq::<Seq<u8>>::empty(),
{
    let x = encode_utf8(a);
    let y = encode_utf8(b);
    let sep = encode_scalar(c as u32);
    lemma_no_word(c);
    lemma_utf8_add(a, seq![c]);
    lemma_utf8_add(a + seq![c], b);
    assert(encode_utf8(seq![c]) =~= sep) by {
        assert(seq![c].drop_first() =~= Seq::<char>::empty());
        reveal_with_fuel(encode_utf8, 2);
    }
    lemma_runs_part(x, Seq::empty(), sep, y);
    assert(terms(a + seq![c] + b) =~= terms(a) + terms(b));
    assert(terms(Seq::empty()) =~= Seq::<Seq<u8>>::empty());
}

/// Where a phrase occurs.
pub open spec fn places(have: Seq<Seq<u8>>, wanted: Seq<Seq<u8>>, n: int) -> Set<int> {
    Set::new(
        |i: int| 0 <= i < n && i + wanted.len() <= have.len() && have.subrange(i, i + wanted.len())
            == wanted,
    )
}

proof fn lemma_places(have: Seq<Seq<u8>>, wanted: Seq<Seq<u8>>, n: int)
    requires
        0 <= n,
    ensures
        places(have, wanted, n).finite(),
        places(have, wanted, n).len() == phrase_count(have, wanted, n),
    decreases n,
{
    let now = places(have, wanted, n);
    if n == 0 {
        assert(now =~= Set::empty());
    } else {
        lemma_places(have, wanted, n - 1);
        let less = places(have, wanted, n - 1);
        let i = n - 1;
        if phrase_at(have, wanted, i) {
            assert(have.subrange(i, i + wanted.len()) =~= wanted);
            assert(now =~= less.insert(i));
        } else {
            if i + wanted.len() <= have.len() && have.subrange(i, i + wanted.len()) == wanted {
                assert forall|k: int| 0 <= k < wanted.len() implies #[trigger] wanted[k] == have[i
                    + k] by {
                    assert(have.subrange(i, i + wanted.len())[k] == have[i + k]);
                }
            }
            assert(now =~= less);
        }
    }
}

/// A phrase is counted once for every place where its words stand next to
/// each other in the text.
pub proof fn law_phrases_are_counted(have: Seq<Seq<u8>>, wanted: Seq<Seq<u8>>)
    requires
        wanted.len() > 0,
    ensures
        places(have, wanted, have.len() as int).finite(),
        phrase_total(have, wanted) == places(have, wanted, have.len() as int).len(),
{
    lemma_places(have, wanted, have.len() as int);
}

/// A text has all the words of another exactly where the one's words are
/// among the other's.
pub proof fn law_all_words_is_inclusion(have: Seq<Seq<u8>>, wanted: Seq<Seq<u8>>)
    ensures
        all_words(have, wanted) <==> wanted.to_set().subset_of(have.to_set()),
{
    if all_words(have, wanted) {
        assert forall|w: Seq<u8>| wanted.to_set().contains(w) implies have.to_set().contains(w) by {
            let k = choose|k: int| 0 <= k < wanted.len() && wanted[k] == w;
            assert(occurs(have, wanted[k], have.len() as int));
        }
    }
    if wanted.to_set().subset_of(have.to_set()) {
        assert forall|k: int| 0 <= k < wanted.len() implies occurs(
            have,
            #[trigger] wanted[k],
            have.len() as int,
        ) by {
            assert(wanted.to_set().contains(wanted[k]));
            assert(have.to_set().contains(wanted[k]));
            let i = choose|i: int| 0 <= i < have.len() && have[i] == wanted[k];
            assert(have[i] == wanted[k]);
        }
    }
}

} // verus!
