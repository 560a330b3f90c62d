//! Getting a server started, and getting rid of it again.
//!
//! There is no manifest. The only thing that is installed is the service
//! unit, at one well-known path, and the unit itself says where the
//! database and the token file are. Asking, writing files and removing them
//! is the caller's part; this module says what is written and what is read
//! back out of it.

use vstd::prelude::*;

use crate::cli::{maybe, Failure};
use crate::strings::{chars_of, join2, join3, owned, same_text, text_of_chars, texts};
use crate::words::{
    before_white, find_char, lemma_next_char, lemma_past, next_char, past_white, past_word,
    split_words, starts, starts_with, trim, trimmed, white, words, words_from,
};

verus! {

// ---------------------------------------------------------------------
// answers
// ---------------------------------------------------------------------

/// What was answered to a question with a default. End of input and a blank
/// answer mean the default, which is what makes this scriptable.
pub open spec fn answer_to(answer: Option<Seq<char>>, fallback: Seq<char>) -> Seq<char> {
    match answer {
        None => fallback,
        Some(a) => if trimmed(a).len() == 0 {
            fallback
        } else {
            trimmed(a)
        },
    }
}

/// What was answered to a question.
pub fn ask(answer: &Option<String>, fallback: &str) -> (r: String)
    ensures
        r@ == answer_to(maybe(*answer), fallback@),
{
    match answer {
        None => owned(fallback),
        Some(a) => {
            let t = trim(a.as_str());
            if t.len() == 0 {
                owned(fallback)
            } else {
                text_of_chars(t.as_slice())
            }
        },
    }
}

/// A letter in lower case, where it is an ASCII one.
pub open spec fn lower(c: char) -> char {
    if 'A' <= c && c <= 'Z' {
        (c as u32 + 32) as char
    } else {
        c
    }
}

/// Whether a text is `y` or `yes`, whatever its case.
pub open spec fn says_yes(s: Seq<char>) -> bool {
    ||| s.len() == 1 && lower(s[0]) == 'y'
    ||| s.len() == 3 && lower(s[0]) == 'y' && lower(s[1]) == 'e' && lower(s[2]) == 's'
}

fn is_letter(c: char, small: char, big: char) -> (r: bool)
    requires
        'a' <= small && small <= 'z',
        big as u32 + 32 == small as u32,
    ensures
        r == (lower(c) == small),
{
    c == small || c == big
}

fn is_yes(s: &Vec<char>) -> (r: bool)
    ensures
        r == says_yes(s@),
{
    if s.len() == 1 {
        is_letter(s[0], 'y', 'Y')
    } else if s.len() == 3 {
        is_letter(s[0], 'y', 'Y') && is_letter(s[1], 'e', 'E') && is_letter(s[2], 's', 'S')
    } else {
        false
    }
}

/// What was answered to a question of yes or no, with a default.
pub fn asks(answer: &Option<String>, fallback: bool) -> (r: bool)
    ensures
        r == (match *answer {
            None => fallback,
            Some(a) => if trimmed(a@).len() == 0 {
                fallback
            } else {
                says_yes(trimmed(a@))
            },
        }),
{
    match answer {
        None => fallback,
        Some(a) => {
            let t = trim(a.as_str());
            if t.len() == 0 {
                fallback
            } else {
                is_yes(&t)
            }
        },
    }
}

/// Whether something was confirmed. Anything but a yes leaves it alone.
pub fn confirm(answer: &str) -> (r: bool)
    ensures
        r == says_yes(trimmed(answer@)),
{
    is_yes(&trim(answer))
}

// ---------------------------------------------------------------------
// the report
// ---------------------------------------------------------------------

/// One thing setup does.
#[derive(Clone, Copy, Debug, PartialEq, Eq, Structural)]
pub enum Step {
    /// Use the database that is there.
    UseDatabase,
    CreateDatabase,
    /// Add a fresh token to the token file.
    AddToken,
    WriteUnit,
}

/// What setup does, in order.
pub open spec fn setup_steps(database_exists: bool, service: bool) -> Seq<Step> {
    seq![
        if database_exists {
            Step::UseDatabase
        } else {
            Step::CreateDatabase
        },
        Step::AddToken,
    ] + (if service {
        seq![Step::WriteUnit]
    } else {
        Seq::empty()
    })
}

/// Decide what setup does before it does any of it. Nothing is overwritten:
/// an existing database is used as it is, a token file is added to, and an
/// existing unit stops the whole thing.
pub fn plan_setup(database_exists: bool, service: bool, unit_exists: bool) -> (r:
    core::result::Result<Vec<Step>, Failure>)
    ensures
        r is Err <==> service && unit_exists,
        match r {
            Ok(steps) => steps@ == setup_steps(database_exists, service),
            Err(e) => e matches Failure::Failed(m) && m@
                == "/etc/systemd/system/quanty.service already exists. Remove it with `quanty uninstall`, or edit it, rather than having this overwrite it."@,
        },
{
    if service && unit_exists {
        return Err(
            Failure::Failed(
                owned(
                    "/etc/systemd/system/quanty.service already exists. Remove it with `quanty uninstall`, or edit it, rather than having this overwrite it.",
                ),
            ),
        );
    }
    let mut steps: Vec<Step> = Vec::new();
    if database_exists {
        steps.push(Step::UseDatabase);
    } else {
        steps.push(Step::CreateDatabase);
    }
    steps.push(Step::AddToken);
    if service {
        steps.push(Step::WriteUnit);
    }
    proof {
        assert(steps@ =~= setup_steps(database_exists, service));
    }
    Ok(steps)
}

/// What was set up.
pub struct Made {
    pub database: String,
    pub tokens: String,
    pub listen: String,
    pub token: String,
    /// What was written, in order.
    pub wrote: Vec<String>,
    pub service: bool,
    pub loopback: bool,
}

/// The lines that name what was written.
pub open spec fn wrote_lines(wrote: Seq<Seq<char>>) -> Seq<Seq<char>> {
    Seq::new(wrote.len(), |i: int| "  "@ + wrote[i])
}

/// What is said after a setup.
pub open spec fn report(m: Made) -> Seq<Seq<char>> {
    seq![
        ""@,
        "  token"@,
        "  "@ + m.token@,
        ""@,
        "  That is the only copy. It is stored nowhere, here or anywhere"@,
        "  else: the token file keeps a hash of it and not the token."@,
        "  Losing it means minting another with `quanty token <label>`."@,
        ""@,
        "wrote:"@,
    ] + wrote_lines(texts(m.wrote@)) + seq![""@] + (if m.loopback {
        Seq::empty()
    } else {
        seq![
            "  !!  the wire is not encrypted, and this address is not"@,
            "  !!  loopback. Tokens cross it in the clear. Put it behind"@,
            "  !!  wireguard, an ssh tunnel or a TLS proxy."@,
            ""@,
        ]
    }) + seq!["to start it:"@] + (if m.service {
        seq!["  systemctl daemon-reload"@, "  systemctl enable --now quanty"@]
    } else {
        seq![
            "  quanty serve "@ + m.database@ + (" --listen "@ + m.listen@ + (" --tokens "@
                + m.tokens@)),
        ]
    }) + seq![
        ""@,
        "to connect:"@,
        "  quanty connect "@ + m.listen@ + " --token <token>"@,
        ""@,
        "`quanty uninstall` removes the service and the binary, and never"@,
        "touches the database or the token file."@,
    ]
}

fn say(out: &mut Vec<String>, line: &str)
    ensures
        texts(final(out)@) == texts(old(out)@).push(line@),
{
    out.push(owned(line));
    proof {
        assert(texts(out@) =~= texts(old(out)@).push(line@));
    }
}

/// What is said after a setup: the token once, what was written, and how to
/// go on.
pub fn setup(made: &Made) -> (r: Vec<String>)
    ensures
        texts(r@) == report(*made),
{
    let mut out: Vec<String> = Vec::new();
    proof {
        assert(texts(out@) =~= Seq::empty());
    }
    say(&mut out, "");
    say(&mut out, "  token");
    say(&mut out, join2("  ", made.token.as_str()).as_str());
    say(&mut out, "");
    say(&mut out, "  That is the only copy. It is stored nowhere, here or anywhere");
    say(&mut out, "  else: the token file keeps a hash of it and not the token.");
    say(&mut out, "  Losing it means minting another with `quanty token <label>`.");
    say(&mut out, "");
    say(&mut out, "wrote:");
    let ghost top = texts(out@);
    let ghost names = wrote_lines(texts(made.wrote@));
    let len: usize = made.wrote.len();
    for i in 0..len
        invariant
            len == made.wrote@.len(),
            names == wrote_lines(texts(made.wrote@)),
            texts(out@) == top + names.take(i as int),
    {
        say(&mut out, join2("  ", made.wrote[i].as_str()).as_str());
        proof {
            assert(names.take(i + 1) =~= names.take(i as int).push(names[i as int]));
            assert(texts(out@) =~= top + names.take(i + 1));
        }
    }
    proof {
        assert(names.take(len as int) =~= names);
    }
    say(&mut out, "");
    if !made.loopback {
        say(&mut out, "  !!  the wire is not encrypted, and this address is not");
        say(&mut out, "  !!  loopback. Tokens cross it in the clear. Put it behind");
        say(&mut out, "  !!  wireguard, an ssh tunnel or a TLS proxy.");
        say(&mut out, "");
    }
    say(&mut out, "to start it:");
    if made.service {
        say(&mut out, "  systemctl daemon-reload");
        say(&mut out, "  systemctl enable --now quanty");
    } else {
        let tokens = join2(" --tokens ", made.tokens.as_str());
        let rest = join3(" --listen ", made.listen.as_str(), tokens.as_str());
        say(&mut out, join3("  quanty serve ", made.database.as_str(), rest.as_str()).as_str());
    }
    say(&mut out, "");
    say(&mut out, "to connect:");
    say(&mut out, join3("  quanty connect ", made.listen.as_str(), " --token <token>").as_str());
    say(&mut out, "");
    say(&mut out, "`quanty uninstall` removes the service and the binary, and never");
    say(&mut out, "touches the database or the token file.");
    proof {
        assert(texts(out@) =~= report(*made));
    }
    out
}

// ---------------------------------------------------------------------
// the unit
// ---------------------------------------------------------------------

/// The line of a unit that says what it runs.
pub open spec fn exec_line(
    binary: Seq<char>,
    database: Seq<char>,
    listen: Seq<char>,
    tokens: Seq<char>,
) -> Seq<char> {
    "ExecStart="@ + binary + (" serve "@ + database + (" --listen "@ + listen + (" --tokens "@
        + tokens)))
}

pub open spec fn unit_head(user: Seq<char>) -> Seq<char> {
    "[Unit]\nDescription=QuantyDB\nAfter=network.target\n\n[Service]\nType=simple\nUser="@ + user
        + "\n"@
}

pub open spec fn unit_tail(data: Seq<char>) -> Seq<char> {
    "\nRestart=on-failure\n\n# It answers a signal now, so systemd can stop it rather than\n# killing it and leaving the next start to recover the file.\nKillSignal=SIGTERM\nTimeoutStopSec=30\n\nNoNewPrivileges=true\nPrivateTmp=true\nProtectHome=true\nProtectSystem=strict\nReadWritePaths="@
        + data + "\n\n[Install]\nWantedBy=multi-user.target\n"@
}

/// The text of a unit that runs as a person rather than as root.
pub open spec fn unit(
    user: Seq<char>,
    binary: Seq<char>,
    database: Seq<char>,
    listen: Seq<char>,
    tokens: Seq<char>,
    data: Seq<char>,
) -> Seq<char> {
    unit_head(user) + exec_line(binary, database, listen, tokens) + unit_tail(data)
}

/// Write a unit.
pub fn unit_text(
    user: &str,
    binary: &str,
    database: &str,
    listen: &str,
    tokens: &str,
    data: &str,
) -> (r: String)
    ensures
        r@ == unit(user@, binary@, database@, listen@, tokens@, data@),
{
    let head = join3(
        "[Unit]\nDescription=QuantyDB\nAfter=network.target\n\n[Service]\nType=simple\nUser=",
        user,
        "\n",
    );
    let tail = join3(
        "\nRestart=on-failure\n\n# It answers a signal now, so systemd can stop it rather than\n# killing it and leaving the next start to recover the file.\nKillSignal=SIGTERM\nTimeoutStopSec=30\n\nNoNewPrivileges=true\nPrivateTmp=true\nProtectHome=true\nProtectSystem=strict\nReadWritePaths=",
        data,
        "\n\n[Install]\nWantedBy=multi-user.target\n",
    );
    let last = join2(" --tokens ", tokens);
    let third = join3(" --listen ", listen, last.as_str());
    let second = join3(" serve ", database, third.as_str());
    let line = join3("ExecStart=", binary, second.as_str());
    join3(head.as_str(), line.as_str(), tail.as_str())
}

/// What a unit's `ExecStart` says it runs.
#[derive(Debug)]
pub struct Service {
    pub binary: String,
    pub database: String,
    pub tokens: Option<String>,
}

pub struct ServiceV {
    pub binary: Seq<char>,
    pub database: Seq<char>,
    pub tokens: Option<Seq<char>>,
}

impl View for Service {
    type V = ServiceV;

    open spec fn view(&self) -> ServiceV {
        ServiceV { binary: self.binary@, database: self.database@, tokens: maybe(self.tokens) }
    }
}

/// The token file that words from `i` on name last.
pub open spec fn tokens_named(
    w: Seq<Seq<char>>,
    i: int,
    sofar: Option<Seq<char>>,
) -> Option<Seq<char>>
    decreases
            (if i >= w.len() {
                0
            } else {
                w.len() - i
            }),
{
    if i < 0 || i >= w.len() {
        sofar
    } else if w[i] == "--tokens"@ {
        tokens_named(
            w,
            i + 2,
            if i + 1 < w.len() {
                Some(w[i + 1])
            } else {
                None
            },
        )
    } else {
        tokens_named(w, i + 1, sofar)
    }
}

/// What the words of a start line say.
pub open spec fn start_says(w: Seq<Seq<char>>) -> Option<ServiceV> {
    if w.len() >= 3 && w[1] == "serve"@ {
        Some(ServiceV { binary: w[0], database: w[2], tokens: tokens_named(w, 3, None) })
    } else {
        None
    }
}

/// What a line starts, where it is the one that does.
pub open spec fn start_of(line: Seq<char>) -> Option<Seq<char>> {
    let t = trimmed(line);
    if starts(t, "ExecStart="@) {
        Some(t.skip("ExecStart="@.len() as int))
    } else {
        None
    }
}

/// What the first start line from place `i` on says.
pub open spec fn unit_from(s: Seq<char>, i: int) -> Option<ServiceV>
    decreases
            (if i >= s.len() {
                0
            } else {
                s.len() - i
            }),
    when 0 <= i
    via unit_shrinks
{
    if i >= s.len() {
        None
    } else {
        let e = next_char(s, '\n', i);
        match start_of(s.subrange(i, e)) {
            Some(line) => start_says(words(line)),
            None => unit_from(s, e + 1),
        }
    }
}

#[via_fn]
proof fn unit_shrinks(s: Seq<char>, i: int) {
    if 0 <= i < s.len() {
        lemma_next_char(s, '\n', i);
    }
}

fn read_start(line: &Vec<char>) -> (r: Option<Service>)
    ensures
        match r {
            Some(s) => start_says(words(line@)) == Some(s@),
            None => start_says(words(line@)) is None,
        },
{
    let w = split_words(line.as_slice());
    let ghost v = texts(w@);
    let len: usize = w.len();
    if len < 3 || !same_text(w[1].as_str(), "serve") {
        return None;
    }
    let mut tokens: Option<String> = None;
    let mut i: usize = 3;
    while i < len
        invariant
            len == w@.len(),
            3 <= i,
            v == texts(w@),
            v.len() == len,
            tokens_named(v, 3, None) == tokens_named(v, i as int, maybe(tokens)),
        decreases
                (if i >= len {
                    0
                } else {
                    len - i
                }),
    {
        proof {
            assert(v[i as int] == w@[i as int]@);
        }
        if same_text(w[i].as_str(), "--tokens") {
            if i + 1 < len {
                proof {
                    assert(v[i + 1] == w@[i + 1]@);
                }
                tokens = Some(owned(w[i + 1].as_str()));
                i = i + 2;
            } else {
                tokens = None;
                proof {
                    assert(tokens_named(v, i + 2, None) == None::<Seq<char>>);
                }
                i = i + 1;
            }
        } else {
            i = i + 1;
        }
    }
    Some(Service { binary: owned(w[0].as_str()), database: owned(w[2].as_str()), tokens })
}

/// Read what a unit runs back out of it, which is why there is no manifest.
pub fn unit_says(text: &str) -> (r: Option<Service>)
    ensures
        match r {
            Some(s) => unit_from(text@, 0) == Some(s@),
            None => unit_from(text@, 0) is None,
        },
{
    let chars = chars_of(text);
    let s = chars.as_slice();
    let start = chars_of("ExecStart=");
    let len: usize = s.len();
    let mut i: usize = 0;
    while i < len
        invariant
            i <= len == s@.len(),
            s@ == text@,
            start@ == "ExecStart="@,
            unit_from(text@, 0) == unit_from(s@, i as int),
        decreases len - i,
    {
        let e: usize = find_char(s, '\n', i);
        let line = text_of_chars(vstd::slice::slice_subrange(s, i, e));
        let t = trim(line.as_str());
        if starts_with(t.as_slice(), start.as_slice()) {
            let mut t = t;
            let rest = t.split_off(start.len());
            proof {
                assert(rest@ =~= trimmed(line@).skip("ExecStart="@.len() as int));
            }
            return read_start(&rest);
        }
        if e >= len {
            proof {
                assert(unit_from(text@, 0) == unit_from(s@, e + 1));
            }
            return None;
        }
        i = e + 1;
    }
    None
}

/// A text that is one word.
pub open spec fn one_word(s: Seq<char>) -> bool {
    s.len() > 0 && forall|i: int| 0 <= i < s.len() ==> !white(#[trigger] s[i])
}

/// A unit says what was written into it: which binary it runs, on which
/// database, with which token file.
pub proof fn law_unit_says_what_was_written(
    user: Seq<char>,
    binary: Seq<char>,
    database: Seq<char>,
    listen: Seq<char>,
    tokens: Seq<char>,
    data: Seq<char>,
)
    requires
        forall|k: int| 0 <= k < user.len() ==> #[trigger] user[k] != '\n',
        one_word(binary),
        one_word(database),
        one_word(listen),
        one_word(tokens),
        listen != "--tokens"@,
    ensures
        unit_from(unit(user, binary, database, listen, tokens, data), 0) == Some(
            ServiceV { binary, database, tokens: Some(tokens) },
        ),
{
    let s = unit(user, binary, database, listen, tokens, data);
    let line = exec_line(binary, database, listen, tokens);
    let h = unit_head(user).len() as int;
    lemma_head(user, line + unit_tail(data));
    assert(s =~= unit_head(user) + (line + unit_tail(data)));
    lemma_exec_line(binary, database, listen, tokens);
    reveal_strlit(
        "\nRestart=on-failure\n\n# It answers a signal now, so systemd can stop it rather than\n# killing it and leaving the next start to recover the file.\nKillSignal=SIGTERM\nTimeoutStopSec=30\n\nNoNewPrivileges=true\nPrivateTmp=true\nProtectHome=true\nProtectSystem=strict\nReadWritePaths=",
    );
    let e = h + line.len();
    assert(s[e] == unit_tail(data)[0]);
    assert forall|k: int| h <= k < e implies #[trigger] s[k] != '\n' by {
        assert(s[k] == line[k - h]);
    }
    lemma_next_is(s, '\n', h, e);
    assert(s.subrange(h, e) =~= line);
}

/// The first place that holds a character.
proof fn lemma_next_is(s: Seq<char>, c: char, i: int, e: int)
    requires
        0 <= i <= e < s.len(),
        s[e] == c,
        forall|k: int| i <= k < e ==> #[trigger] s[k] != c,
    ensures
        next_char(s, c, i) == e,
    decreases e - i,
{
    if i < e {
        lemma_next_is(s, c, i + 1, e);
    }
}

/// What comes before the first place that holds a character does not.
proof fn lemma_before_next(s: Seq<char>, c: char, i: int)
    requires
        0 <= i <= s.len(),
    ensures
        i <= next_char(s, c, i) <= s.len(),
        forall|k: int| i <= k < next_char(s, c, i) ==> #[trigger] s[k] != c,
    decreases s.len() - i,
{
    if i < s.len() && s[i] != c {
        lemma_before_next(s, c, i + 1);
    }
}

/// A line that is blank, or starts otherwise, starts nothing.
proof fn lemma_no_start(line: Seq<char>)
    requires
        line.len() == 0 || (!white(line[0]) && line[0] != 'E'),
    ensures
        start_of(line) is None,
{
    reveal_strlit("ExecStart=");
    let t = trimmed(line);
    if line.len() > 0 {
        lemma_back(line, line.len() as int);
        if starts(t, "ExecStart="@) {
            assert(t.take(10)[0] == 'E');
            assert(t[0] == line[0]);
        }
    }
}

/// Looking back stops at what is not white at the latest.
proof fn lemma_back(s: Seq<char>, n: int)
    requires
        0 < n <= s.len(),
        !white(s[0]),
    ensures
        0 < before_white(s, n) <= n,
    decreases n,
{
    if n > 1 && white(s[n - 1]) {
        lemma_back(s, n - 1);
    }
}

proof fn lemma_skip_line(s: Seq<char>, i: int, e: int)
    requires
        0 <= i <= e < s.len(),
        next_char(s, '\n', i) == e,
        e == i || (!white(s[i]) && s[i] != 'E'),
    ensures
        unit_from(s, i) == unit_from(s, e + 1),
{
    let line = s.subrange(i, e);
    if e > i {
        assert(line[0] == s[i]);
    }
    lemma_no_start(line);
}

/// The head of a unit starts nothing.
proof fn lemma_head(user: Seq<char>, rest: Seq<char>)
    requires
        forall|k: int| 0 <= k < user.len() ==> #[trigger] user[k] != '\n',
    ensures
        unit_from(unit_head(user) + rest, 0) == unit_from(
            unit_head(user) + rest,
            unit_head(user).len() as int,
        ),
{
    let top = "[Unit]\nDescription=QuantyDB\nAfter=network.target\n\n[Service]\nType=simple\nUser="@;
    reveal_strlit(
        "[Unit]\nDescription=QuantyDB\nAfter=network.target\n\n[Service]\nType=simple\nUser=",
    );
    reveal_strlit("\n");
    let s = unit_head(user) + rest;
    assert(top.len() == 77);
    assert forall|k: int| 0 <= k < 77 implies #[trigger] s[k] == top[k] by {
    }
    assert(next_char(s, '\n', 0) == 6) by {
        reveal_with_fuel(next_char, 8);
    }
    lemma_skip_line(s, 0, 6);
    assert(next_char(s, '\n', 7) == 27) by {
        reveal_with_fuel(next_char, 22);
    }
    lemma_skip_line(s, 7, 27);
    assert(next_char(s, '\n', 28) == 48) by {
        reveal_with_fuel(next_char, 22);
    }
    lemma_skip_line(s, 28, 48);
    assert(next_char(s, '\n', 49) == 49);
    lemma_skip_line(s, 49, 49);
    assert(next_char(s, '\n', 50) == 59) by {
        reveal_with_fuel(next_char, 11);
    }
    lemma_skip_line(s, 50, 59);
    assert(next_char(s, '\n', 60) == 71) by {
        reveal_with_fuel(next_char, 13);
    }
    lemma_skip_line(s, 60, 71);
    let e = 77 + user.len() as int;
    assert(s[e] == '\n');
    assert forall|k: int| 77 <= k < e implies #[trigger] s[k] != '\n' by {
        assert(s[k] == user[k - 77]);
    }
    lemma_next_is(s, '\n', 77, e);
    assert(next_char(s, '\n', 72) == e) by {
        reveal_with_fuel(next_char, 7);
    }
    lemma_skip_line(s, 72, e);
}

/// A word in a text, ended by white space or by the end of it.
proof fn lemma_word_at(s: Seq<char>, i: int, w: Seq<char>)
    requires
        0 <= i,
        i + w.len() <= s.len(),
        one_word(w),
        s.subrange(i, i + w.len()) == w,
        i + w.len() == s.len() || white(s[i + w.len()]),
    ensures
        words_from(s, i) == seq![w] + words_from(s, i + w.len()),
{
    assert(s[i] == w[0]);
    assert(past_white(s, i) == i);
    lemma_word_to(s, i, i + w.len(), w, i);
}

proof fn lemma_word_to(s: Seq<char>, i: int, n: int, w: Seq<char>, from: int)
    requires
        0 <= from <= i <= n <= s.len(),
        n == from + w.len(),
        one_word(w),
        s.subrange(from, n) == w,
        n == s.len() || white(s[n]),
    ensures
        past_word(s, i) == n,
    decreases n - i,
{
    if i < n {
        assert(s[i] == w[i - from]);
        lemma_word_to(s, i + 1, n, w, from);
    }
}

/// A space before a word is passed over.
proof fn lemma_space_at(s: Seq<char>, i: int)
    requires
        0 <= i < s.len(),
        s[i] == ' ',
    ensures
        words_from(s, i) == words_from(s, i + 1),
{
    lemma_past(s, i + 1);
    assert(past_white(s, i) == past_white(s, i + 1));
}

/// What a start line has behind its name.
pub open spec fn exec_rest(
    binary: Seq<char>,
    database: Seq<char>,
    listen: Seq<char>,
    tokens: Seq<char>,
) -> Seq<char> {
    binary + (" serve "@ + database + (" --listen "@ + listen + (" --tokens "@ + tokens)))
}

/// What the start line of a unit says.
proof fn lemma_exec_line(
    binary: Seq<char>,
    database: Seq<char>,
    listen: Seq<char>,
    tokens: Seq<char>,
)
    requires
        one_word(binary),
        one_word(database),
        one_word(listen),
        one_word(tokens),
        listen != "--tokens"@,
    ensures
        ({
            let line = exec_line(binary, database, listen, tokens);
            &&& forall|k: int| 0 <= k < line.len() ==> #[trigger] line[k] != '\n'
            &&& start_of(line) matches Some(rest) && start_says(words(rest)) == Some(
                ServiceV { binary, database, tokens: Some(tokens) },
            )
        }),
{
    reveal_strlit("ExecStart=");
    let line = exec_line(binary, database, listen, tokens);
    let start = "ExecStart="@;
    let rest = exec_rest(binary, database, listen, tokens);
    assert(line =~= start + rest);
    assert(next_char(start, '\n', 0) == 10) by {
        reveal_with_fuel(next_char, 12);
    }
    lemma_before_next(start, '\n', 0);
    lemma_rest_is_one_line(binary, database, listen, tokens);
    assert forall|k: int| 0 <= k < line.len() implies #[trigger] line[k] != '\n' by {
        if k < 10 {
            assert(line[k] == start[k]);
        } else {
            assert(line[k] == rest[k - 10]);
        }
    }
    // nothing to trim
    assert(line[0] == 'E');
    assert(line[line.len() - 1] == rest[rest.len() - 1]);
    assert(trimmed(line) =~= line);
    assert(line.take(10) =~= start);
    assert(line.skip(10) =~= rest);
    lemma_rest_words(binary, database, listen, tokens);
    let w = words(rest);
    reveal_strlit("--listen");
    reveal_strlit("--tokens");
    assert("--listen"@[2] != "--tokens"@[2]);
    assert(tokens_named(w, 7, Some(tokens)) == Some(tokens));
    assert(tokens_named(w, 5, None) == Some(tokens));
    assert(tokens_named(w, 4, None) == Some(tokens));
    assert(tokens_named(w, 3, None) == Some(tokens));
}

proof fn lemma_rest_is_one_line(
    binary: Seq<char>,
    database: Seq<char>,
    listen: Seq<char>,
    tokens: Seq<char>,
)
    requires
        one_word(binary),
        one_word(database),
        one_word(listen),
        one_word(tokens),
    ensures
        ({
            let rest = exec_rest(binary, database, listen, tokens);
            &&& forall|k: int| 0 <= k < rest.len() ==> #[trigger] rest[k] != '\n'
            &&& rest.len() > 0
            &&& !white(rest[rest.len() - 1])
        }),
{
    reveal_strlit(" serve ");
    reveal_strlit(" --listen ");
    reveal_strlit(" --tokens ");
    let rest = exec_rest(binary, database, listen, tokens);
    assert(next_char(" serve "@, '\n', 0) == 7) by {
        reveal_with_fuel(next_char, 9);
    }
    assert(next_char(" --listen "@, '\n', 0) == 10) by {
        reveal_with_fuel(next_char, 12);
    }
    assert(next_char(" --tokens "@, '\n', 0) == 10) by {
        reveal_with_fuel(next_char, 12);
    }
    lemma_before_next(" serve "@, '\n', 0);
    lemma_before_next(" --listen "@, '\n', 0);
    lemma_before_next(" --tokens "@, '\n', 0);
    let a = binary.len() as int;
    let b = a + 7;
    let c = b + database.len();
    let d = c + 10;
    let f = d + listen.len();
    let g = f + 10;
    assert(rest[rest.len() - 1] == tokens[tokens.len() - 1]);
    assert forall|k: int| 0 <= k < rest.len() implies #[trigger] rest[k] != '\n' by {
        if k < a {
            assert(!white(binary[k]));
        } else if k < b {
            assert(rest[k] == " serve "@[k - a]);
        } else if k < c {
            assert(rest[k] == database[k - b]);
            assert(!white(database[k - b]));
        } else if k < d {
            assert(rest[k] == " --listen "@[k - c]);
        } else if k < f {
            assert(rest[k] == listen[k - d]);
            assert(!white(listen[k - d]));
        } else if k < g {
            assert(rest[k] == " --tokens "@[k - f]);
        } else {
            assert(rest[k] == tokens[k - g]);
            assert(!white(tokens[k - g]));
        }
    }
}

/// The words of what a start line has behind its name.
#[verifier::spinoff_prover]
#[verifier::rlimit(60)]
proof fn lemma_rest_words(
    binary: Seq<char>,
    database: Seq<char>,
    listen: Seq<char>,
    tokens: Seq<char>,
)
    requires
        one_word(binary),
        one_word(database),
        one_word(listen),
        one_word(tokens),
    ensures
        words(exec_rest(binary, database, listen, tokens)) == seq![
            binary,
            "serve"@,
            database,
            "--listen"@,
            listen,
            "--tokens"@,
            tokens,
        ],
{
    let rest = exec_rest(binary, database, listen, tokens);
    let a = binary.len() as int;
    let b = a + 7;
    let c = b + database.len();
    let d = c + 10;
    let f = d + listen.len();
    let g = f + 10;
    let n = g + tokens.len();
    lemma_is_word("serve"@);
    lemma_is_word("--listen"@);
    lemma_is_word("--tokens"@);
    lemma_spaced(" serve "@, "serve"@);
    lemma_spaced(" --listen "@, "--listen"@);
    lemma_spaced(" --tokens "@, "--tokens"@);
    assert(rest.len() == n);
    assert(rest.subrange(0, a) =~= binary);
    assert(rest.subrange(a, b) =~= " serve "@);
    assert(rest.subrange(b, c) =~= database);
    assert(rest.subrange(c, d) =~= " --listen "@);
    assert(rest.subrange(d, f) =~= listen);
    assert(rest.subrange(f, g) =~= " --tokens "@);
    assert(rest.subrange(g, n) =~= tokens);
    lemma_between(rest, a, " serve "@, "serve"@);
    lemma_between(rest, c, " --listen "@, "--listen"@);
    lemma_between(rest, f, " --tokens "@, "--tokens"@);
    lemma_word_at(rest, 0, binary);
    lemma_word_at(rest, b, database);
    lemma_word_at(rest, d, listen);
    lemma_word_at(rest, g, tokens);
    assert(words_from(rest, n) =~= Seq::empty());
    assert(words(rest) =~= seq![
        binary,
        "serve"@,
        database,
        "--listen"@,
        listen,
        "--tokens"@,
        tokens,
    ]);
}

/// Whether a text is a word between two spaces.
pub open spec fn spaced(s: Seq<char>, w: Seq<char>) -> bool {
    s.len() == w.len() + 2 && s[0] == ' ' && s.last() == ' ' && s.subrange(1, s.len() - 1) == w
}

proof fn lemma_spaced(s: Seq<char>, w: Seq<char>)
    requires
        (s == " serve "@ && w == "serve"@) || (s == " --listen "@ && w == "--listen"@) || (s
            == " --tokens "@ && w == "--tokens"@),
    ensures
        spaced(s, w),
        w.len() == 5 || w.len() == 8,
        s == " serve "@ ==> s.len() == 7,
        s == " --listen "@ ==> s.len() == 10,
        s == " --tokens "@ ==> s.len() == 10,
{
    reveal_strlit(" serve ");
    reveal_strlit(" --listen ");
    reveal_strlit(" --tokens ");
    reveal_strlit("serve");
    reveal_strlit("--listen");
    reveal_strlit("--tokens");
    assert(s.subrange(1, s.len() - 1) =~= w);
}

/// A word between two spaces in a text.
proof fn lemma_between(s: Seq<char>, i: int, p: Seq<char>, w: Seq<char>)
    requires
        0 <= i,
        i + p.len() <= s.len(),
        s.subrange(i, i + p.len()) == p,
        spaced(p, w),
        one_word(w),
    ensures
        words_from(s, i) == seq![w] + words_from(s, i + p.len()),
        white(s[i]),
{
    let q = s.subrange(i, i + p.len());
    assert(q[0] == s[i]);
    assert(q[p.len() - 1] == s[i + p.len() - 1]);
    assert(s.subrange(i + 1, i + 1 + w.len()) =~= p.subrange(1, p.len() - 1));
    lemma_space_at(s, i);
    lemma_word_at(s, i + 1, w);
    lemma_space_at(s, i + p.len() - 1);
}

/// A text of a few characters is one word if looking for its end finds
/// nothing before the end.
proof fn lemma_is_word(s: Seq<char>)
    requires
        s == "serve"@ || s == "--listen"@ || s == "--tokens"@,
    ensures
        one_word(s),
{
    reveal_strlit("serve");
    reveal_strlit("--listen");
    reveal_strlit("--tokens");
    assert(past_word(s, 0) == s.len()) by {
        reveal_with_fuel(past_word, 10);
    }
    lemma_before_white_run(s, 0);
}

proof fn lemma_before_white_run(s: Seq<char>, i: int)
    requires
        0 <= i <= s.len(),
    ensures
        forall|k: int| i <= k < past_word(s, i) ==> !white(#[trigger] s[k]),
    decreases s.len() - i,
{
    if i < s.len() && !white(s[i]) {
        lemma_before_white_run(s, i + 1);
    }
}

// ---------------------------------------------------------------------
// taking it away
// ---------------------------------------------------------------------

/// What was found of an installation.
pub struct Found {
    pub unit: String,
    pub unit_exists: bool,
    pub service: Option<Service>,
    pub binary: String,
    pub previous: Option<String>,
}

/// Whether the unit goes too: only where it runs this very binary.
pub open spec fn unit_goes(f: Found) -> bool {
    f.unit_exists && (f.service matches Some(s) && s.binary@ == f.binary@)
}

pub open spec fn found_unit(f: Found) -> Seq<Seq<char>> {
    if !f.unit_exists {
        Seq::empty()
    } else {
        seq!["  "@ + f.unit@] + (match f.service {
            None => seq!["    left alone: cannot tell which binary it runs"@],
            Some(s) => seq!["    runs    "@ + s.binary@, "    serving "@ + s.database@] + (
            match s.tokens {
                Some(t) => seq!["    tokens  "@ + t@],
                None => Seq::empty(),
            }) + (if s.binary@ == f.binary@ {
                Seq::empty()
            } else {
                seq!["    left alone: it runs a different binary than this one"@]
            }),
        })
    }
}

/// What is said before anything is removed.
pub open spec fn found_lines(f: Found) -> Seq<Seq<char>> {
    seq!["found:"@] + found_unit(f) + (match f.previous {
        Some(p) => seq!["  "@ + p@],
        None => Seq::empty(),
    }) + seq![
        "  "@ + f.binary@,
        ""@,
        "the database and the token file are yours and stay where they"@,
        "are. Delete them yourself if you want them gone."@,
        ""@,
    ]
}

/// Say what was found, and whether the unit goes too.
///
/// A copy of the tool sitting in a downloads folder must not be able to
/// take out the service that runs another one.
pub fn uninstall(found: &Found) -> (r: (Vec<String>, bool))
    ensures
        texts(r.0@) == found_lines(*found),
        r.1 == unit_goes(*found),
{
    let mut out: Vec<String> = Vec::new();
    let mut goes: bool = false;
    proof {
        assert(texts(out@) =~= Seq::empty());
    }
    say(&mut out, "found:");
    if found.unit_exists {
        say(&mut out, join2("  ", found.unit.as_str()).as_str());
        match &found.service {
            None => {
                say(&mut out, "    left alone: cannot tell which binary it runs");
            },
            Some(service) => {
                say(&mut out, join2("    runs    ", service.binary.as_str()).as_str());
                say(&mut out, join2("    serving ", service.database.as_str()).as_str());
                if let Some(tokens) = &service.tokens {
                    say(&mut out, join2("    tokens  ", tokens.as_str()).as_str());
                }
                goes = same_text(service.binary.as_str(), found.binary.as_str());
                if !goes {
                    say(&mut out, "    left alone: it runs a different binary than this one");
                }
            },
        }
    }
    proof {
        assert(texts(out@) =~= seq!["found:"@] + found_unit(*found));
    }
    if let Some(previous) = &found.previous {
        say(&mut out, join2("  ", previous.as_str()).as_str());
    }
    say(&mut out, join2("  ", found.binary.as_str()).as_str());
    say(&mut out, "");
    say(&mut out, "the database and the token file are yours and stay where they");
    say(&mut out, "are. Delete them yourself if you want them gone.");
    say(&mut out, "");
    proof {
        assert(texts(out@) =~= found_lines(*found));
    }
    (out, goes)
}

} // verus!
