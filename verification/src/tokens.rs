//! The token file: what it looks like, and how a revocation takes effect.
//!
//! Each line is a hash and a label; a `#` starts a comment. Reading the
//! file and its modification time is the caller's part, this module takes
//! what was read.

use vstd::prelude::*;

use crate::bytes::same_bytes;
use crate::sha256::{digest, sha256};
use crate::words::{
    find_char, lemma_next_char, lemma_word_runs, next_char, past_white, past_word, skip_white,
    skip_word, white,
};
use crate::strings::{chars_of, decimal, hex, join2, join3, owned, to_hex, u64_text};

verus! {

/// Why a token file could not be used.
#[derive(Debug)]
pub enum TokensError {
    /// The file could not be read.
    Io(String),
    /// A line was not a hash and a label.
    Malformed {
        /// One based, so it matches an editor.
        line: usize,
        /// What is wrong with it.
        detail: &'static str,
    },
}

impl TokensError {
    /// The error in words.
    pub open spec fn text(&self) -> Seq<char> {
        match self {
            TokensError::Io(e) => e@,
            TokensError::Malformed { line, detail } => "line "@ + decimal(*line as nat) + (": "@
                + detail@),
        }
    }

    pub fn message(&self) -> (r: String)
        ensures
            r@ == self.text(),
    {
        match self {
            TokensError::Io(e) => owned(e.as_str()),
            TokensError::Malformed { line, detail } => join3(
                "line ",
                u64_text(*line as u64).as_str(),
                join2(": ", *detail).as_str(),
            ),
        }
    }
}

// ---------------------------------------------------------------------
// hashes
// ---------------------------------------------------------------------

/// The value of a hex digit, either case.
pub open spec fn nibble(c: char) -> Option<u8> {
    if '0' <= c && c <= '9' {
        Some((c as u32 - 48) as u8)
    } else if 'a' <= c && c <= 'f' {
        Some((c as u32 - 87) as u8)
    } else if 'A' <= c && c <= 'F' {
        Some((c as u32 - 55) as u8)
    } else {
        None
    }
}

/// The 32 bytes sixty four hex digits spell.
pub open spec fn unhexed(s: Seq<char>) -> Option<Seq<u8>> {
    if s.len() == 64 && forall|i: int| 0 <= i < 64 ==> nibble(#[trigger] s[i]) is Some {
        Some(Seq::new(32, |i: int| (nibble(s[2 * i])->0 * 16 + nibble(s[2 * i + 1])->0) as u8))
    } else {
        None
    }
}

fn hex_value(c: char) -> (r: Option<u8>)
    ensures
        r == nibble(c),
        r matches Some(n) ==> n < 16,
{
    if '0' <= c && c <= '9' {
        Some((c as u32 - 48) as u8)
    } else if 'a' <= c && c <= 'f' {
        Some((c as u32 - 87) as u8)
    } else if 'A' <= c && c <= 'F' {
        Some((c as u32 - 55) as u8)
    } else {
        None
    }
}

fn read_hash(s: &[char], from: usize, to: usize) -> (r: Option<[u8; 32]>)
    requires
        from <= to <= s@.len(),
    ensures
        match r {
            Some(d) => unhexed(s@.subrange(from as int, to as int)) == Some(d@),
            None => unhexed(s@.subrange(from as int, to as int)) is None,
        },
{
    let ghost word = s@.subrange(from as int, to as int);
    if to - from != 64 {
        return None;
    }
    let mut out: [u8; 32] = [0u8; 32];
    for i in 0..32usize
        invariant
            from + 64 == to <= s@.len(),
            word == s@.subrange(from as int, to as int),
            forall|k: int| 0 <= k < 2 * i ==> nibble(#[trigger] word[k]) is Some,
            forall|k: int|
                0 <= k < i ==> (#[trigger] out@[k]) == (nibble(word[2 * k])->0 * 16 + nibble(
                    word[2 * k + 1],
                )->0) as u8,
    {
        let a: char = s[from + 2 * i];
        let b: char = s[from + 2 * i + 1];
        proof {
            assert(word[2 * i as int] == a);
            assert(word[2 * i + 1] == b);
        }
        let hi: u8 = match hex_value(a) {
            Some(n) => n,
            None => return None,
        };
        let lo: u8 = match hex_value(b) {
            Some(n) => n,
            None => return None,
        };
        out[i] = hi * 16 + lo;
    }
    proof {
        assert(out@ =~= Seq::new(
            32,
            |i: int| (nibble(word[2 * i])->0 * 16 + nibble(word[2 * i + 1])->0) as u8,
        ));
    }
    Some(out)
}

/// The 32 bytes a hash spells in hex.
pub fn from_hex(s: &str) -> (r: Option<[u8; 32]>)
    ensures
        match r {
            Some(d) => unhexed(s@) == Some(d@),
            None => unhexed(s@) is None,
        },
{
    let chars = chars_of(s);
    proof {
        assert(chars@.subrange(0, chars@.len() as int) =~= chars@);
    }
    read_hash(chars.as_slice(), 0, chars.len())
}

/// A hash written in hex reads back as itself.
pub proof fn law_hex_reads_back(b: Seq<u8>)
    requires
        b.len() == 32,
    ensures
        unhexed(hex(b)) == Some(b),
{
    lemma_hex_digits(b);
    assert(unhexed(hex(b))->0 =~= b) by {
        assert forall|i: int| 0 <= i < 32 implies #[trigger] (unhexed(hex(b))->0)[i] == b[i] by {
            assert(hex(b)[2 * i] == crate::strings::hex_char(b[i] as nat / 16));
            assert(hex(b)[2 * i + 1] == crate::strings::hex_char(b[i] as nat % 16));
            lemma_nibble(b[i] as nat / 16);
            lemma_nibble(b[i] as nat % 16);
        }
    }
}

proof fn lemma_nibble(d: nat)
    requires
        d < 16,
    ensures
        nibble(crate::strings::hex_char(d)) == Some(d as u8),
{
}

proof fn lemma_hex_digits(b: Seq<u8>)
    ensures
        hex(b).len() == 2 * b.len(),
        forall|i: int|
            0 <= i < b.len() ==> #[trigger] hex(b)[2 * i] == crate::strings::hex_char(
                b[i] as nat / 16,
            ) && hex(b)[2 * i + 1] == crate::strings::hex_char(b[i] as nat % 16),
        forall|i: int| 0 <= i < hex(b).len() ==> nibble(#[trigger] hex(b)[i]) is Some,
    decreases b.len(),
{
    if b.len() > 0 {
        let less = b.drop_last();
        lemma_hex_digits(less);
        lemma_nibble(b.last() as nat / 16);
        lemma_nibble(b.last() as nat % 16);
        assert forall|i: int| 0 <= i < b.len() implies #[trigger] hex(b)[2 * i]
            == crate::strings::hex_char(b[i] as nat / 16) && hex(b)[2 * i + 1]
            == crate::strings::hex_char(b[i] as nat % 16) by {
            if i < less.len() {
                assert(less[i] == b[i]);
                assert(hex(less)[2 * i] == hex(b)[2 * i]);
            }
        }
        assert forall|i: int| 0 <= i < hex(b).len() implies nibble(#[trigger] hex(b)[i])
            is Some by {
            if i < hex(less).len() {
                assert(hex(less)[i] == hex(b)[i]);
            }
        }
    }
}

// ---------------------------------------------------------------------
// the file
// ---------------------------------------------------------------------

/// What a line of the file says.
pub enum LineV {
    Blank,
    Hash(Seq<u8>),
    BadHash,
    NoLabel,
}

/// A line without its comment.
pub open spec fn uncommented(line: Seq<char>) -> Seq<char> {
    line.take(next_char(line, '#', 0))
}

pub open spec fn line_says(line: Seq<char>) -> LineV {
    let l = uncommented(line);
    let a = past_white(l, 0);
    let b = past_word(l, a);
    if a >= l.len() {
        LineV::Blank
    } else {
        match unhexed(l.subrange(a, b)) {
            None => LineV::BadHash,
            Some(d) => if past_white(l, b) >= l.len() {
                LineV::NoLabel
            } else {
                LineV::Hash(d)
            },
        }
    }
}

/// The first line that cannot be read, and whether only its label is
/// missing; or the hashes of all lines.
pub type FileV = core::result::Result<Set<Seq<u8>>, (nat, bool)>;

/// The hashes from place `i` on, which is where line `n` starts.
pub open spec fn file_says(s: Seq<char>, i: int, n: nat, held: Set<Seq<u8>>) -> FileV
    decreases
            (if i >= s.len() {
                0
            } else {
                s.len() - i
            }),
    when 0 <= i
    via file_says_shrinks
{
    if i >= s.len() {
        Ok(held)
    } else {
        let e = next_char(s, '\n', i);
        match line_says(s.subrange(i, e)) {
            LineV::BadHash => Err((n, false)),
            LineV::NoLabel => Err((n, true)),
            LineV::Blank => file_says(s, e + 1, n + 1, held),
            LineV::Hash(d) => file_says(s, e + 1, n + 1, held.insert(d)),
        }
    }
}

#[via_fn]
proof fn file_says_shrinks(s: Seq<char>, i: int, n: nat, held: Set<Seq<u8>>) {
    if 0 <= i < s.len() {
        lemma_next_char(s, '\n', i);
    }
}

/// The hashes a whole file lists.
pub open spec fn listed_in(text: Seq<char>) -> FileV {
    file_says(text, 0, 1, Set::empty())
}

/// What some hashes are.
pub open spec fn digests(v: Seq<[u8; 32]>) -> Seq<Seq<u8>> {
    Seq::new(v.len(), |i: int| v[i]@)
}

pub open spec fn digest_set(v: Seq<[u8; 32]>) -> Set<Seq<u8>> {
    digests(v).to_set()
}

fn holds(v: &Vec<[u8; 32]>, d: &[u8; 32]) -> (r: bool)
    ensures
        r == digest_set(v@).contains(d@),
{
    let len: usize = v.len();
    for i in 0..len
        invariant
            len == v@.len(),
            forall|k: int| 0 <= k < i ==> (#[trigger] v@[k])@ != d@,
    {
        if same_bytes(v[i].as_slice(), d.as_slice()) {
            proof {
                assert(digests(v@)[i as int] == d@);
                assert(digests(v@).contains(d@));
            }
            return true;
        }
    }
    proof {
        if digests(v@).contains(d@) {
            let k = choose|k: int| 0 <= k < digests(v@).len() && digests(v@)[k] == d@;
            assert(v@[k]@ == d@);
        }
    }
    false
}

/// What a line says, as read.
enum Line {
    Blank,
    Hash([u8; 32]),
    BadHash,
    NoLabel,
}

fn read_line(s: &[char], from: usize, to: usize) -> (r: Line)
    requires
        from <= to <= s@.len(),
    ensures
        match r {
            Line::Blank => line_says(s@.subrange(from as int, to as int)) is Blank,
            Line::Hash(d) => line_says(s@.subrange(from as int, to as int)) == LineV::Hash(d@),
            Line::BadHash => line_says(s@.subrange(from as int, to as int)) is BadHash,
            Line::NoLabel => line_says(s@.subrange(from as int, to as int)) is NoLabel,
        },
{
    let line = vstd::slice::slice_subrange(s, from, to);
    let end: usize = find_char(line, '#', 0);
    let ghost l = uncommented(line@);
    proof {
        assert(l == line@.take(end as int));
    }
    let a: usize = skip_white(line, 0, end);
    if a >= end {
        return Line::Blank;
    }
    let b: usize = skip_word(line, a, end);
    proof {
        assert(l.subrange(a as int, b as int) =~= line@.subrange(a as int, b as int));
    }
    match read_hash(line, a, b) {
        None => Line::BadHash,
        Some(d) => if skip_white(line, b, end) >= end {
            Line::NoLabel
        } else {
            Line::Hash(d)
        },
    }
}

/// Read all hashes of a file, each once.
fn parse_tokens(text: &str) -> (r: core::result::Result<Vec<[u8; 32]>, TokensError>)
    ensures
        match r {
            Ok(v) => listed_in(text@) == Ok::<Set<Seq<u8>>, (nat, bool)>(digest_set(v@))
                && digests(v@).no_duplicates(),
            Err(e) => listed_in(text@) matches Err((n, label)) && (e matches TokensError::Malformed {
                line,
                detail,
            } && line == n && detail@ == (if label {
                "a hash needs a label after it"@
            } else {
                "expected sixty four hex characters"@
            })),
        },
{
    let chars = chars_of(text);
    let s = chars.as_slice();
    let len: usize = s.len();
    let mut out: Vec<[u8; 32]> = Vec::new();
    let mut i: usize = 0;
    let mut n: usize = 0;
    proof {
        assert(digest_set(out@) =~= Set::empty());
    }
    while i < len
        invariant
            i <= len == s@.len(),
            s@ == text@,
            n <= i,
            listed_in(text@) == file_says(s@, i as int, (n + 1) as nat, digest_set(out@)),
            digests(out@).no_duplicates(),
        decreases len - i,
    {
        let e: usize = find_char(s, '\n', i);
        match read_line(s, i, e) {
            Line::Blank => {},
            Line::BadHash => return Err(
                TokensError::Malformed { line: n + 1, detail: "expected sixty four hex characters" },
            ),
            Line::NoLabel => return Err(
                TokensError::Malformed { line: n + 1, detail: "a hash needs a label after it" },
            ),
            Line::Hash(d) => {
                if !holds(&out, &d) {
                    let ghost had = out@;
                    out.push(d);
                    proof {
                        assert(digests(out@) =~= digests(had).push(d@));
                        lemma_push_set(digests(had), d@);
                    }
                } else {
                    proof {
                        assert(digest_set(out@).insert(d@) =~= digest_set(out@));
                    }
                }
            },
        }
        if e >= len {
            proof {
                assert(listed_in(text@) == file_says(
                    s@,
                    e + 1,
                    (n + 2) as nat,
                    digest_set(out@),
                ));
            }
            return Ok(out);
        }
        n = n + 1;
        i = e + 1;
    }
    Ok(out)
}

proof fn lemma_push_set(s: Seq<Seq<u8>>, d: Seq<u8>)
    requires
        s.no_duplicates(),
        !s.to_set().contains(d),
    ensures
        s.push(d).no_duplicates(),
        s.push(d).to_set() == s.to_set().insert(d),
{
    let t = s.push(d);
    assert(!s.contains(d));
    assert forall|i: int, j: int| 0 <= i < t.len() && 0 <= j < t.len() && i != j implies t[i]
        != t[j] by {
        if i == s.len() {
            assert(s[j] != d) by {
                if s[j] == d {
                    assert(s.contains(d));
                }
            }
        } else if j == s.len() {
            assert(s[i] != d) by {
                if s[i] == d {
                    assert(s.contains(d));
                }
            }
        }
    }
    assert forall|x: Seq<u8>| t.to_set().contains(x) <==> s.to_set().insert(d).contains(x) by {
        if t.contains(x) {
            let i = choose|i: int| 0 <= i < t.len() && t[i] == x;
            if i < s.len() {
                assert(s[i] == x);
                assert(s.contains(x));
            }
        }
        if s.contains(x) {
            let i = choose|i: int| 0 <= i < s.len() && s[i] == x;
            assert(t[i] == x);
            assert(t.contains(x));
        }
        if x == d {
            assert(t[s.len() as int] == d);
            assert(t.contains(d));
        }
    }
    assert(t.to_set() =~= s.to_set().insert(d));
}

/// The tokens a server accepts, and where they came from.
///
/// A failure to reload is deliberately not fatal and deliberately not
/// ignored: the last good set stays in force and the caller is told. The
/// safe direction for a broken credential file is to keep refusing what it
/// was already refusing, not to fall open and not to fall over.
#[derive(Debug)]
pub struct Tokens {
    path: String,
    accepted: Vec<[u8; 32]>,
    seen: Option<u64>,
}

impl Tokens {
    /// The hashes in force.
    pub closed spec fn in_force(&self) -> Set<Seq<u8>> {
        digest_set(self.accepted@)
    }

    /// The modification time of the file as it was last read.
    pub closed spec fn stamp(&self) -> Option<u64> {
        self.seen
    }

    pub closed spec fn from(&self) -> Seq<char> {
        self.path@
    }

    pub closed spec fn wf(&self) -> bool {
        digests(self.accepted@).no_duplicates()
    }

    /// Make a set of tokens from a file that was read.
    pub fn load(
        path: &str,
        stamp: Option<u64>,
        text: core::result::Result<String, String>,
    ) -> (r: core::result::Result<Tokens, TokensError>)
        ensures
            match r {
                Ok(t) => {
                    &&& t.wf()
                    &&& t.from() == path@
                    &&& t.stamp() == stamp
                    &&& text matches Ok(s) && listed_in(s@) == Ok::<Set<Seq<u8>>, (nat, bool)>(
                        t.in_force(),
                    )
                },
                Err(e) => refuses(text, e),
            },
    {
        let mut tokens = Tokens { path: owned(path), accepted: Vec::new(), seen: None };
        match tokens.read(stamp, text) {
            Ok(_) => Ok(tokens),
            Err(e) => Err(e),
        }
    }

    /// Whether this token is one of them.
    pub fn accepts(&self, token: &[u8]) -> (r: bool)
        requires
            token@.len() <= 0x1FFF_FFFF_FFFF_FFFF,
        ensures
            r == self.in_force().contains(digest(token@)),
    {
        holds(&self.accepted, &sha256(token))
    }

    /// How many tokens are in force.
    pub fn len(&self) -> (r: usize)
        requires
            self.wf(),
        ensures
            r == self.in_force().len(),
    {
        proof {
            digests(self.accepted@).unique_seq_to_set();
        }
        self.accepted.len()
    }

    /// Whether the file left nothing that can authenticate.
    pub fn is_empty(&self) -> (r: bool)
        requires
            self.wf(),
        ensures
            r == (self.in_force() == Set::<Seq<u8>>::empty()),
    {
        proof {
            let d = digests(self.accepted@);
            if d.len() > 0 {
                assert(d.contains(d[0]));
                assert(d.to_set().contains(d[0]));
            } else {
                assert(d.to_set() =~= Set::empty());
            }
        }
        self.accepted.len() == 0
    }

    /// Where they came from.
    pub fn path(&self) -> (r: &str)
        ensures
            r@ == self.from(),
    {
        self.path.as_str()
    }

    /// Whether a file with this modification time has to be read again. One
    /// that went backwards counts as changed: restoring an older file is
    /// exactly the case where reading it again matters most.
    pub fn changed(&self, now: Option<u64>) -> (r: bool)
        ensures
            r == !(now == self.stamp() && now is Some),
    {
        match (now, self.seen) {
            (Some(a), Some(b)) => a != b,
            _ => true,
        }
    }

    /// Take in the file if it changed, so revoking a token does not need a
    /// restart. Returns whether anything was taken in.
    pub fn reload_if_changed(
        &mut self,
        now: Option<u64>,
        text: core::result::Result<String, String>,
    ) -> (r: core::result::Result<bool, TokensError>)
        requires
            old(self).wf(),
        ensures
            final(self).wf(),
            final(self).from() == old(self).from(),
            match r {
                Ok(false) => now == old(self).stamp() && now is Some && *final(self) == *old(self),
                Ok(true) => {
                    &&& !(now == old(self).stamp() && now is Some)
                    &&& final(self).stamp() == now
                    &&& text matches Ok(s) && listed_in(s@) == Ok::<Set<Seq<u8>>, (nat, bool)>(
                        final(self).in_force(),
                    )
                },
                Err(e) => {
                    &&& !(now == old(self).stamp() && now is Some)
                    &&& refuses(text, e)
                    &&& *final(self) == *old(self)
                },
            },
    {
        if !self.changed(now) {
            return Ok(false);
        }
        match self.read(now, text) {
            Ok(_) => Ok(true),
            Err(e) => Err(e),
        }
    }

    fn read(&mut self, stamp: Option<u64>, text: core::result::Result<String, String>) -> (r:
        core::result::Result<(), TokensError>)
        ensures
            final(self).from() == old(self).from(),
            match r {
                Ok(_) => {
                    &&& final(self).wf()
                    &&& final(self).stamp() == stamp
                    &&& text matches Ok(s) && listed_in(s@) == Ok::<Set<Seq<u8>>, (nat, bool)>(
                        final(self).in_force(),
                    )
                },
                Err(e) => refuses(text, e) && *final(self) == *old(self),
            },
    {
        let text = match text {
            Ok(t) => t,
            Err(e) => return Err(TokensError::Io(e)),
        };
        match parse_tokens(text.as_str()) {
            Ok(v) => {
                self.accepted = v;
                self.seen = stamp;
                Ok(())
            },
            Err(e) => Err(e),
        }
    }
}

/// Why what was read is refused: it could not be read, or a line of it is
/// no hash and label.
pub open spec fn refuses(text: core::result::Result<String, String>, e: TokensError) -> bool {
    match text {
        Err(m) => e == TokensError::Io(m),
        Ok(s) => listed_in(s@) matches Err((n, label)) && (e matches TokensError::Malformed {
            line,
            detail,
        } && line == n && detail@ == (if label {
            "a hash needs a label after it"@
        } else {
            "expected sixty four hex characters"@
        })),
    }
}

/// A fresh token made of random bytes, and the line that lets a server
/// accept it.
///
/// The token is never stored anywhere by this function. Whoever calls it
/// has the only copy and has to hand it to its owner.
pub fn mint(raw: &[u8; 32], label: &str) -> (r: (String, String))
    ensures
        r.0@ == hex(raw@),
        r.1@ == hex(digest(vstd::utf8::encode_utf8(hex(raw@)))) + " "@ + label@,
{
    let token = to_hex(raw.as_slice());
    proof {
        lemma_hex_digits(raw@);
        lemma_hex_ascii(raw@);
        vstd::utf8::is_ascii_chars_encode_utf8(hex(raw@));
    }
    let line = join3(
        to_hex(sha256(token.as_str().as_bytes()).as_slice()).as_str(),
        " ",
        label,
    );
    (token, line)
}

proof fn lemma_hex_ascii(b: Seq<u8>)
    ensures
        vstd::utf8::is_ascii_chars(hex(b)),
    decreases b.len(),
{
    if b.len() > 0 {
        lemma_hex_ascii(b.drop_last());
    }
}

/// Whether a label names something: it is one line, and some of it is left
/// once comments and white space are gone.
pub open spec fn names_something(label: Seq<char>) -> bool {
    &&& forall|i: int| 0 <= i < label.len() ==> #[trigger] label[i] != '\n'
    &&& exists|k: int| 0 <= k < label.len() && telling(label, k)
}

/// Whether place `k` of a label is neither white space nor in a comment.
pub open spec fn telling(label: Seq<char>, k: int) -> bool {
    !white(label[k]) && forall|i: int| 0 <= i <= k ==> #[trigger] label[i] != '#'
}

/// A file of nothing but a minted line lists that token and no other:
/// whoever shows the token is let in, and a token with another hash is not.
pub proof fn law_minted_token_is_accepted(raw: Seq<u8>, label: Seq<char>)
    requires
        raw.len() == 32,
        names_something(label),
    ensures
        listed_in(hex(digest(vstd::utf8::encode_utf8(hex(raw)))) + " "@ + label + "\n"@) == Ok::<
            Set<Seq<u8>>,
            (nat, bool),
        >(Set::<Seq<u8>>::empty().insert(digest(vstd::utf8::encode_utf8(hex(raw))))),
{
    reveal_strlit(" ");
    reveal_strlit("\n");
    let d = digest(vstd::utf8::encode_utf8(hex(raw)));
    crate::sha256::law_digest_is_32_bytes(vstd::utf8::encode_utf8(hex(raw)));
    lemma_line_reads_back(d, label);
    lemma_hex_digits(d);
    let h = hex(d);
    let line = h + " "@ + label;
    let s = line + "\n"@;
    let n = line.len() as int;
    assert forall|i: int| 0 <= i < n implies #[trigger] s[i] != '\n' by {
        if i < 64 {
            assert(s[i] == h[i]);
            assert(nibble(h[i]) is Some);
        } else if i == 64 {
            assert(s[i] == ' ');
        } else {
            assert(s[i] == label[i - 65]);
        }
    }
    assert(s[n] == '\n');
    lemma_char_comes(s, '\n', 0, n);
    assert(s.subrange(0, n) =~= line);
    assert(file_says(s, n + 1, 2, Set::empty().insert(d)) == Ok::<Set<Seq<u8>>, (nat, bool)>(
        Set::empty().insert(d),
    ));
}

/// The first place that holds a character.
proof fn lemma_char_comes(s: Seq<char>, c: char, i: int, n: int)
    requires
        0 <= i <= n < s.len(),
        forall|k: int| 0 <= k < n ==> #[trigger] s[k] != c,
        s[n] == c,
    ensures
        next_char(s, c, i) == n,
    decreases n - i,
{
    if i < n {
        lemma_char_comes(s, c, i + 1, n);
    }
}

/// A character that comes late is found late.
proof fn lemma_char_late(s: Seq<char>, c: char, i: int, n: int)
    requires
        0 <= i <= n < s.len(),
        forall|k: int| 0 <= k <= n ==> #[trigger] s[k] != c,
    ensures
        n < next_char(s, c, i) <= s.len(),
    decreases n - i,
{
    if i < n {
        lemma_char_late(s, c, i + 1, n);
    } else {
        lemma_next_char(s, c, i + 1);
    }
}

/// White space ends no later than where something else stands.
proof fn lemma_white_ends(s: Seq<char>, i: int, n: int)
    requires
        0 <= i <= n < s.len(),
        !white(s[n]),
    ensures
        past_white(s, i) <= n,
    decreases n - i,
{
    if i < n {
        lemma_white_ends(s, i + 1, n);
    }
}

proof fn lemma_line_reads_back(d: Seq<u8>, label: Seq<char>)
    requires
        d.len() == 32,
        names_something(label),
    ensures
        line_says(hex(d) + " "@ + label) == LineV::Hash(d),
{
    reveal_strlit(" ");
    let h = hex(d);
    let line = h + " "@ + label;
    let k = choose|k: int| 0 <= k < label.len() && telling(label, k);
    lemma_hex_digits(d);
    assert(line.len() == 65 + label.len());
    assert forall|i: int| 0 <= i <= 65 + k implies #[trigger] line[i] != '#' by {
        if i < 64 {
            assert(line[i] == h[i]);
            assert(nibble(h[i]) is Some);
        } else if i == 64 {
            assert(line[i] == ' ');
        } else {
            assert(line[i] == label[i - 65]);
        }
    }
    lemma_char_late(line, '#', 0, 65 + k);
    let l = uncommented(line);
    assert(l.len() > 65 + k);
    assert forall|i: int| 0 <= i < 64 implies !white(#[trigger] l[i]) by {
        assert(l[i] == h[i]);
        assert(nibble(h[i]) is Some);
    }
    assert(past_white(l, 0) == 0) by {
        assert(!white(l[0]));
    }
    assert(white(l[64])) by {
        assert(line[64] == ' ');
        assert(l[64] == line[64]);
    }
    lemma_word_runs(l, 0, 64);
    assert(l.subrange(0, 64) =~= h);
    law_hex_reads_back(d);
    assert(!white(l[65 + k])) by {
        assert(l[65 + k] == line[65 + k]);
        assert(line[65 + k] == label[k]);
    }
    lemma_white_ends(l, 64, 65 + k);
}

} // verus!
