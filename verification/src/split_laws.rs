//! How texts fall into words and command lines into arguments.

use vstd::prelude::*;

use crate::cli::{no_flags, split, wanted, FlagsV, Wanted};
use crate::words::{past_white, past_word, white, words, words_from};

verus! {

proof fn lemma_past_white(s: Seq<char>, i: int)
    requires
        0 <= i <= s.len(),
    ensures
        i <= past_white(s, i) <= s.len(),
        forall|k: int| i <= k < past_white(s, i) ==> white(#[trigger] s[k]),
        past_white(s, i) < s.len() ==> !white(s[past_white(s, i)]),
    decreases s.len() - i,
{
    if i < s.len() && white(s[i]) {
        lemma_past_white(s, i + 1);
    }
}

proof fn lemma_past_word(s: Seq<char>, i: int)
    requires
        0 <= i <= s.len(),
    ensures
        i <= past_word(s, i) <= s.len(),
        forall|k: int| i <= k < past_word(s, i) ==> !white(#[trigger] s[k]),
        past_word(s, i) < s.len() ==> white(s[past_word(s, i)]),
    decreases s.len() - i,
{
    if i < s.len() && !white(s[i]) {
        lemma_past_word(s, i + 1);
    }
}

proof fn lemma_white_to(s: Seq<char>, i: int, e: int)
    requires
        0 <= i <= e <= s.len(),
        forall|k: int| i <= k < e ==> white(#[trigger] s[k]),
        e == s.len() || !white(s[e]),
    ensures
        past_white(s, i) == e,
{
    lemma_past_white(s, i);
    let n = past_white(s, i);
    if n < e {
        assert(white(s[n]));
    } else if e < n {
        assert(white(s[e]));
    }
}

proof fn lemma_word_to(s: Seq<char>, i: int, e: int)
    requires
        0 <= i <= e <= s.len(),
        forall|k: int| i <= k < e ==> !white(#[trigger] s[k]),
        e == s.len() || white(s[e]),
    ensures
        past_word(s, i) == e,
{
    lemma_past_word(s, i);
    let n = past_word(s, i);
    if n < e {
        assert(!white(s[n]));
    } else if e < n {
        assert(!white(s[e]));
    }
}

proof fn lemma_words_shift(p: Seq<char>, s: Seq<char>, i: int)
    requires
        0 <= i <= s.len(),
    ensures
        words_from(p + s, p.len() + i) == words_from(s, i),
    decreases s.len() - i,
{
    let all = p + s;
    let n = p.len() as int;
    lemma_past_white(s, i);
    let a = past_white(s, i);
    assert forall|k: int| n + i <= k < n + a implies white(#[trigger] all[k]) by {
        assert(all[k] == s[k - n]);
    }
    if a < s.len() {
        assert(all[n + a] == s[a]);
    }
    lemma_white_to(all, n + i, n + a);
    if a < s.len() {
        lemma_past_word(s, a);
        let b = past_word(s, a);
        assert(b > a);
        assert forall|k: int| n + a <= k < n + b implies !white(#[trigger] all[k]) by {
            assert(all[k] == s[k - n]);
        }
        if b < s.len() {
            assert(all[n + b] == s[b]);
        }
        lemma_word_to(all, n + a, n + b);
        assert(all.subrange(n + a, n + b) =~= s.subrange(a, b));
        lemma_words_shift(p, s, b);
    }
}

proof fn lemma_words_part(a: Seq<char>, c: char, b: Seq<char>, i: int)
    requires
        white(c),
        0 <= i <= a.len(),
    ensures
        words_from(a.push(c) + b, i) == words_from(a, i) + words(b),
    decreases a.len() - i,
{
    let p = a.push(c);
    let all = p + b;
    let n = a.len() as int;
    lemma_past_white(a, i);
    let x = past_white(a, i);
    if x < n {
        assert forall|k: int| i <= k < x implies white(#[trigger] all[k]) by {
            assert(all[k] == a[k]);
        }
        assert(all[x] == a[x]);
        lemma_white_to(all, i, x);
        lemma_past_word(a, x);
        let y = past_word(a, x);
        assert(y > x);
        assert forall|k: int| x <= k < y implies !white(#[trigger] all[k]) by {
            assert(all[k] == a[k]);
        }
        if y < n {
            assert(all[y] == a[y]);
        } else {
            assert(all[y] == c);
        }
        lemma_word_to(all, x, y);
        assert(all.subrange(x, y) =~= a.subrange(x, y));
        lemma_words_part(a, c, b, y);
        let w = seq![a.subrange(x, y)];
        assert(w + (words_from(a, y) + words(b)) =~= w + words_from(a, y) + words(b));
    } else {
        lemma_past_white(b, 0);
        let z = past_white(b, 0);
        assert forall|k: int| i <= k < n + 1 + z implies white(#[trigger] all[k]) by {
            if k < n {
                assert(all[k] == a[k]);
            } else if k == n {
                assert(all[k] == c);
            } else {
                assert(all[k] == b[k - n - 1]);
            }
        }
        if z < b.len() {
            assert(all[n + 1 + z] == b[z]);
        }
        lemma_white_to(all, i, n + 1 + z);
        lemma_white_to(all, n + 1, n + 1 + z);
        lemma_words_shift(p, b, 0);
        assert(words_from(all, i) == words_from(all, n + 1));
        assert(words_from(a, i) =~= Seq::<Seq<char>>::empty());
        assert(Seq::<Seq<char>>::empty() + words(b) =~= words(b));
    }
}

/// White space parts words: the words before it, then the words after it.
/// A text without white space is one word, and an empty one none.
pub proof fn law_white_space_parts_words(a: Seq<char>, c: char, b: Seq<char>)
    requires
        white(c),
    ensures
        words(a.push(c) + b) == words(a) + words(b),
        a.len() > 0 && (forall|i: int| 0 <= i < a.len() ==> !white(#[trigger] a[i])) ==> words(a)
            == seq![a],
        words(Seq::empty()) == Seq::<Seq<char>>::empty(),
{
    lemma_words_part(a, c, b, 0);
    if a.len() > 0 && (forall|i: int| 0 <= i < a.len() ==> !white(#[trigger] a[i])) {
        lemma_white_to(a, 0, 0);
        lemma_word_to(a, 0, a.len() as int);
        assert(a.subrange(0, a.len() as int) =~= a);
        lemma_white_to(a, a.len() as int, a.len() as int);
        assert(words_from(a, a.len() as int) =~= Seq::<Seq<char>>::empty());
        assert(words(a) =~= seq![a]);
    }
}

proof fn lemma_no_dash(arg: Seq<char>)
    requires
        arg.len() == 0 || arg[0] != '-',
    ensures
        wanted(arg) is None,
        arg != "--branch"@,
        arg != "--elchi"@,
        arg != "--dry-run"@,
        arg != "--strict"@,
        arg != "--sql"@,
        arg != "--help"@,
        arg != "-h"@,
{
    reveal_strlit("--listen");
    reveal_strlit("--workers");
    reveal_strlit("--tokens");
    reveal_strlit("--token");
    reveal_strlit("--at");
    reveal_strlit("--branch");
    reveal_strlit("--elchi");
    reveal_strlit("--dry-run");
    reveal_strlit("--strict");
    reveal_strlit("--sql");
    reveal_strlit("--help");
    reveal_strlit("-h");
    assert("--listen"@[0] == '-' && "--workers"@[0] == '-' && "--tokens"@[0] == '-');
    assert("--token"@[0] == '-' && "--at"@[0] == '-' && "--branch"@[0] == '-');
    assert("--elchi"@[0] == '-' && "--dry-run"@[0] == '-' && "--strict"@[0] == '-');
    assert("--sql"@[0] == '-' && "--help"@[0] == '-' && "-h"@[0] == '-');
}

/// Arguments without a dash in front are kept, all of them and in order, and
/// set no flag.
pub proof fn law_plain_arguments_are_kept(args: Seq<Seq<char>>)
    requires
        forall|i: int| 0 <= i < args.len() ==> (#[trigger] args[i]).len() == 0 || args[i][0] != '-',
    ensures
        split(args, 0, Seq::empty(), no_flags(), None) == Ok::<(Seq<Seq<char>>, FlagsV), Seq<char>>(
            (args, no_flags()),
        ),
{
    lemma_plain_from(args, 0, Seq::empty(), no_flags());
    assert(Seq::<Seq<char>>::empty() + args.skip(0) =~= args);
}

proof fn lemma_signs()
    ensures
        wanted("--at"@) == Some(Wanted::At),
        wanted("--listen"@) == Some(Wanted::Listen),
        wanted("--workers"@) == Some(Wanted::Workers),
        wanted("--tokens"@) == Some(Wanted::Tokens),
        wanted("--token"@) == Some(Wanted::Token),
{
    reveal_strlit("--listen");
    reveal_strlit("--workers");
    reveal_strlit("--tokens");
    reveal_strlit("--token");
    reveal_strlit("--at");
    assert("--listen"@.len() == 8 && "--workers"@.len() == 9 && "--tokens"@.len() == 8);
    assert("--token"@.len() == 7 && "--at"@.len() == 4);
    assert("--listen"@[2] == 'l' && "--tokens"@[2] == 't');
}

/// A flag that wants a value takes the argument behind it, whatever that is,
/// and the rest is read as if neither were there.
pub proof fn law_flags_take_the_next_argument(value: Seq<char>, args: Seq<Seq<char>>)
    requires
        forall|i: int| 0 <= i < args.len() ==> (#[trigger] args[i]).len() == 0 || args[i][0] != '-',
    ensures
        split(seq!["--listen"@, value] + args, 0, Seq::empty(), no_flags(), None) == Ok::<
            (Seq<Seq<char>>, FlagsV),
            Seq<char>,
        >((args, FlagsV { listen: Some(value), ..no_flags() })),
        split(seq!["--tokens"@, value] + args, 0, Seq::empty(), no_flags(), None) == Ok::<
            (Seq<Seq<char>>, FlagsV),
            Seq<char>,
        >((args, FlagsV { tokens: Some(value), ..no_flags() })),
        split(seq!["--token"@, value] + args, 0, Seq::empty(), no_flags(), None) == Ok::<
            (Seq<Seq<char>>, FlagsV),
            Seq<char>,
        >((args, FlagsV { token: Some(value), ..no_flags() })),
{
    lemma_signs();
    lemma_one_flag("--listen"@, Wanted::Listen, value, args, FlagsV {
        listen: Some(value),
        ..no_flags()
    });
    lemma_one_flag("--tokens"@, Wanted::Tokens, value, args, FlagsV {
        tokens: Some(value),
        ..no_flags()
    });
    lemma_one_flag("--token"@, Wanted::Token, value, args, FlagsV {
        token: Some(value),
        ..no_flags()
    });
}

proof fn lemma_one_flag(
    flag: Seq<char>,
    w: Wanted,
    value: Seq<char>,
    args: Seq<Seq<char>>,
    f: FlagsV,
)
    requires
        forall|i: int| 0 <= i < args.len() ==> (#[trigger] args[i]).len() == 0 || args[i][0] != '-',
        wanted(flag) == Some(w),
        crate::cli::given(no_flags(), w, value) == Ok::<FlagsV, Seq<char>>(f),
    ensures
        split(seq![flag, value] + args, 0, Seq::empty(), no_flags(), None) == Ok::<
            (Seq<Seq<char>>, FlagsV),
            Seq<char>,
        >((args, f)),
{
    let all = seq![flag, value] + args;
    let none = Seq::<Seq<char>>::empty();
    assert(all[0] == flag && all[1] == value);
    reveal_with_fuel(split, 3);
    assert(split(all, 0, none, no_flags(), None) == split(all, 2, none, f, None));
    lemma_plain_from(all, 2, none, f);
    assert(none + all.skip(2) =~= args);
}

proof fn lemma_plain_from(args: Seq<Seq<char>>, i: int, held: Seq<Seq<char>>, f: FlagsV)
    requires
        0 <= i <= args.len(),
        forall|k: int| i <= k < args.len() ==> (#[trigger] args[k]).len() == 0 || args[k][0] != '-',
    ensures
        split(args, i, held, f, None) == Ok::<(Seq<Seq<char>>, FlagsV), Seq<char>>(
            (held + args.skip(i), f),
        ),
    decreases args.len() - i,
{
    if i < args.len() {
        lemma_no_dash(args[i]);
        lemma_plain_from(args, i + 1, held.push(args[i]), f);
        assert(held.push(args[i]) + args.skip(i + 1) =~= held + args.skip(i));
    } else {
        assert(held + args.skip(i) =~= held);
    }
}

} // verus!
