//! The row derive: what a struct of named fields says, and the code that
//! maps it to a table.
//!
//! The shape this accepts is deliberately narrow: a struct with named
//! fields, no generics, no lifetimes. Everything else gets an error naming
//! what it saw, because guessing what a tuple struct or an enum should mean
//! is how a surface grows things nobody asked for.
//!
//! The compiler's token stream comes in as plain [`Tok`] trees and the
//! generated code goes out as text.

use vstd::prelude::*;

use crate::strings::{join3, join_all, joined, owned, same_text, texts};

verus! {

/// Which brackets a group has.
#[derive(Clone, Copy, Debug, PartialEq, Eq, Structural)]
pub enum Delim {
    Brace,
    Paren,
    Bracket,
    Bare,
}

/// One token tree.
#[derive(Debug)]
pub enum Tok {
    Ident(String),
    Punct(char),
    Literal(String),
    Group(Delim, Vec<Tok>),
}

/// What a struct says.
#[derive(Debug, PartialEq, Eq)]
pub struct Model {
    pub name: String,
    pub table: String,
    pub fields: Vec<Field>,
}

#[derive(Debug, PartialEq, Eq)]
pub struct Field {
    pub name: String,
    pub column: String,
}

/// A field: its name and its column.
pub type FieldV = (Seq<char>, Seq<char>);

pub open spec fn fields_of(s: Seq<Field>) -> Seq<FieldV> {
    Seq::new(s.len(), |i: int| (s[i].name@, s[i].column@))
}

// ---------------------------------------------------------------------
// names
// ---------------------------------------------------------------------

pub open spec fn is_upper(c: char) -> bool {
    'A' <= c && c <= 'Z'
}

pub open spec fn lowered(c: char) -> char {
    if is_upper(c) {
        (c as u32 + 32) as char
    } else {
        c
    }
}

/// A name in lower case, with an underscore before every capital but the
/// first character.
pub open spec fn snaked(s: Seq<char>) -> Seq<char>
    decreases s.len(),
{
    if s.len() == 0 {
        Seq::empty()
    } else if is_upper(s.last()) && s.len() > 1 {
        snaked(s.drop_last()).push('_').push(lowered(s.last()))
    } else {
        snaked(s.drop_last()).push(lowered(s.last()))
    }
}

/// `UserAccount` to `user_account`.
pub fn snake_case(name: &str) -> (r: String)
    ensures
        r@ == snaked(name@),
{
    let mut out = String::new();
    let len: usize = name.unicode_len();
    proof {
        assert(out@ =~= snaked(name@.take(0)));
    }
    for i in 0..len
        invariant
            len == name@.len(),
            out@ == snaked(name@.take(i as int)),
    {
        let c: char = name.get_char(i);
        proof {
            assert(name@.take(i as int + 1).drop_last() =~= name@.take(i as int));
        }
        if 'A' <= c && c <= 'Z' {
            if i > 0 {
                out.push('_');
            }
            out.push((c as u8 + 32) as char);
        } else {
            out.push(c);
        }
    }
    proof {
        assert(name@.take(len as int) =~= name@);
    }
    out
}

/// What stands between the quotes of a plain string literal.
pub open spec fn unquoted(s: Seq<char>) -> Option<Seq<char>> {
    if s.len() < 2 || s[0] != '"' || s.last() != '"' {
        None
    } else if s.subrange(1, s.len() - 1).contains('\\') {
        None
    } else {
        Some(s.subrange(1, s.len() - 1))
    }
}

/// `"x"` to `x`, refusing raw, byte and escaped strings so that nothing
/// silently becomes a different table name than it looks like.
pub fn unquote(literal: &str) -> (r: Option<String>)
    ensures
        match r {
            Some(s) => unquoted(literal@) == Some(s@),
            None => unquoted(literal@) is None,
        },
{
    let len: usize = literal.unicode_len();
    if len < 2 || literal.get_char(0) != '"' || literal.get_char(len - 1) != '"' {
        return None;
    }
    let ghost inner = literal@.subrange(1, literal@.len() - 1);
    let mut out = String::new();
    proof {
        assert(out@ =~= inner.take(0));
    }
    for i in 1..len - 1
        invariant
            2 <= len == literal@.len(),
            inner == literal@.subrange(1, literal@.len() - 1),
            literal@[0] == '"',
            literal@.last() == '"',
            out@ == inner.take(i - 1),
            forall|k: int| 0 <= k < i - 1 ==> inner[k] != '\\',
    {
        let c: char = literal.get_char(i);
        proof {
            assert(inner[i - 1] == c);
        }
        if c == '\\' {
            return None;
        }
        out.push(c);
        proof {
            assert(out@ =~= inner.take(i as int));
        }
    }
    proof {
        assert(inner.take(len - 2) =~= inner);
        if inner.contains('\\') {
            let k = choose|k: int| 0 <= k < inner.len() && inner[k] == '\\';
            assert(inner[k] != '\\');
        }
    }
    Some(out)
}

// ---------------------------------------------------------------------
// reading
// ---------------------------------------------------------------------

/// Whether a token is that word.
pub open spec fn is_word(t: Tok, w: Seq<char>) -> bool {
    t matches Tok::Ident(s) && s@ == w
}

pub open spec fn is_mark(t: Tok, c: char) -> bool {
    t matches Tok::Punct(p) && p == c
}

/// The value in `key = "value"`, where the key is `table` or `column`.
pub open spec fn named_value(ts: Seq<Tok>) -> Option<Seq<char>> {
    if ts.len() >= 3 && (is_word(ts[0], "table"@) || is_word(ts[0], "column"@)) && is_mark(
        ts[1],
        '=',
    ) {
        match ts[2] {
            Tok::Literal(l) => unquoted(l@),
            _ => None,
        }
    } else {
        None
    }
}

/// What an attribute gives, and where it ends.
pub enum Attr {
    /// No attribute stands here.
    Nothing,
    /// Somebody else's attribute.
    Foreign,
    /// One of ours, with its value.
    Ours(Seq<char>),
    /// Something that is no attribute we can read.
    Broken,
}

/// The attribute at a place. One takes up two tokens.
pub open spec fn attr_at(ts: Seq<Tok>, i: int) -> Attr {
    if i >= ts.len() || !is_mark(ts[i], '#') {
        Attr::Nothing
    } else if i + 1 >= ts.len() {
        Attr::Broken
    } else {
        match ts[i + 1] {
            Tok::Group(Delim::Bracket, inner) => if inner@.len() == 0 || !is_word(
                inner@[0],
                "quanty"@,
            ) {
                Attr::Foreign
            } else if inner@.len() < 2 {
                Attr::Broken
            } else {
                match inner@[1] {
                    Tok::Group(Delim::Paren, args) => match named_value(args@) {
                        Some(v) => Attr::Ours(v),
                        None => Attr::Broken,
                    },
                    _ => Attr::Broken,
                }
            },
            _ => Attr::Broken,
        }
    }
}

/// All attributes from a place on: the last value of ours, and where they
/// end. Nothing where one of them cannot be read.
pub open spec fn attrs_at(ts: Seq<Tok>, i: int, held: Option<Seq<char>>) -> Option<
    (Option<Seq<char>>, int),
>
    decreases ts.len() - i,
{
    match attr_at(ts, i) {
        Attr::Nothing => Some((held, i)),
        Attr::Foreign => attrs_at(ts, i + 2, held),
        Attr::Ours(v) => attrs_at(ts, i + 2, Some(v)),
        Attr::Broken => None,
    }
}

/// Past a visibility, if one stands here.
pub open spec fn past_visibility(ts: Seq<Tok>, i: int) -> int {
    if 0 <= i < ts.len() && is_word(ts[i], "pub"@) {
        if i + 1 < ts.len() && (ts[i + 1] matches Tok::Group(d, _) && d is Paren) {
            i + 2
        } else {
            i + 1
        }
    } else {
        i
    }
}

/// Past a type: the comma that ends it is not inside angle brackets.
pub open spec fn past_type(ts: Seq<Tok>, i: int, depth: int) -> int
    decreases ts.len() - i,
{
    if i >= ts.len() || i < 0 {
        i + 1
    } else if is_mark(ts[i], ',') && depth <= 0 {
        i + 1
    } else if is_mark(ts[i], '<') {
        past_type(ts, i + 1, depth + 1)
    } else if is_mark(ts[i], '>') {
        past_type(ts, i + 1, depth - 1)
    } else {
        past_type(ts, i + 1, depth)
    }
}

/// The fields from a place on: `vis? name : type ,` repeated, with
/// attributes on any of them.
pub open spec fn fields_at(ts: Seq<Tok>, i: int) -> Option<Seq<FieldV>>
    decreases
        (if i >= ts.len() {
            0
        } else {
            ts.len() - i
        }),
    when 0 <= i
    via fields_at_shrinks
{
    if i >= ts.len() {
        Some(Seq::empty())
    } else {
        match attrs_at(ts, i, None) {
            None => None,
            Some((column, j)) => if j >= ts.len() {
                Some(Seq::empty())
            } else {
                let k = past_visibility(ts, j);
                if k + 1 < ts.len() && ts[k] is Ident && is_mark(ts[k + 1], ':') {
                    let name = ts[k]->Ident_0@;
                    match fields_at(ts, past_type(ts, k + 2, 0)) {
                        None => None,
                        Some(rest) => Some(
                            seq![
                                (
                                    name,
                                    match column {
                                        Some(c) => c,
                                        None => name,
                                    },
                                ),
                            ] + rest,
                        ),
                    }
                } else {
                    None
                }
            },
        }
    }
}

#[via_fn]
proof fn fields_at_shrinks(ts: Seq<Tok>, i: int) {
    if 0 <= i < ts.len() {
        lemma_attrs_forward(ts, i, None);
        if let Some((c, j)) = attrs_at(ts, i, None) {
            lemma_past_type_forward(ts, past_visibility(ts, j) + 2, 0);
        }
    }
}

proof fn lemma_attrs_forward(ts: Seq<Tok>, i: int, held: Option<Seq<char>>)
    requires
        0 <= i,
    ensures
        attrs_at(ts, i, held) matches Some((c, j)) ==> i <= j && (j > i ==> j <= ts.len()),
    decreases ts.len() - i,
{
    match attr_at(ts, i) {
        Attr::Foreign => lemma_attrs_forward(ts, i + 2, held),
        Attr::Ours(v) => lemma_attrs_forward(ts, i + 2, Some(v)),
        _ => {},
    }
}

proof fn lemma_past_type_forward(ts: Seq<Tok>, i: int, depth: int)
    requires
        0 <= i,
    ensures
        past_type(ts, i, depth) > i,
    decreases ts.len() - i,
{
    if i < ts.len() && !(is_mark(ts[i], ',') && depth <= 0) {
        if is_mark(ts[i], '<') {
            lemma_past_type_forward(ts, i + 1, depth + 1);
        } else if is_mark(ts[i], '>') {
            lemma_past_type_forward(ts, i + 1, depth - 1);
        } else {
            lemma_past_type_forward(ts, i + 1, depth);
        }
    }
}

/// What a whole input says: struct name, table name, fields.
pub open spec fn read_model(ts: Seq<Tok>) -> Option<(Seq<char>, Seq<char>, Seq<FieldV>)> {
    match attrs_at(ts, 0, None) {
        None => None,
        Some((table, j)) => {
            let k = past_visibility(ts, j);
            if k + 2 < ts.len() && is_word(ts[k], "struct"@) && ts[k + 1] is Ident && !is_mark(
                ts[k + 2],
                '<',
            ) {
                let name = ts[k + 1]->Ident_0@;
                match ts[k + 2] {
                    Tok::Group(Delim::Brace, body) => match fields_at(body@, 0) {
                        Some(fields) => if fields.len() > 0 {
                            Some(
                                (
                                    name,
                                    match table {
                                        Some(t) => t,
                                        None => snaked(name),
                                    },
                                    fields,
                                ),
                            )
                        } else {
                            None
                        },
                        None => None,
                    },
                    _ => None,
                }
            } else {
                None
            }
        },
    }
}

fn at_word(tokens: &Vec<Tok>, i: usize, word: &str) -> (r: bool)
    ensures
        r == (i < tokens@.len() && is_word(tokens@[i as int], word@)),
{
    if i < tokens.len() {
        if let Tok::Ident(s) = &tokens[i] {
            return same_text(s.as_str(), word);
        }
    }
    false
}

fn at_mark(tokens: &Vec<Tok>, i: usize, mark: char) -> (r: bool)
    ensures
        r == (i < tokens@.len() && is_mark(tokens@[i as int], mark)),
{
    if i < tokens.len() {
        if let Tok::Punct(c) = &tokens[i] {
            return *c == mark;
        }
    }
    false
}

/// `key = "value"`, where `key` is `table` or `column`.
fn named_string(parts: &Vec<Tok>) -> (r: core::result::Result<String, String>)
    ensures
        match r {
            Ok(s) => named_value(parts@) == Some(s@),
            Err(_) => named_value(parts@) is None,
        },
{
    if parts.len() == 0 {
        return Err(owned("`#[quanty(...)]` starts with a name"));
    }
    let key: &String = match &parts[0] {
        Tok::Ident(s) => s,
        _ => return Err(owned("`#[quanty(...)]` starts with a name")),
    };
    if !same_text(key.as_str(), "table") && !same_text(key.as_str(), "column") {
        return Err(
            join3(
                "`#[quanty(",
                key.as_str(),
                ")]` is not understood; expected one of table, column",
            ),
        );
    }
    if !at_mark(parts, 1, '=') {
        return Err(join3("`#[quanty(", key.as_str(), ")]` needs `= \"...\"`"));
    }
    if parts.len() < 3 {
        return Err(join3("`#[quanty(", key.as_str(), ")]` needs a string"));
    }
    match &parts[2] {
        Tok::Literal(l) => match unquote(l.as_str()) {
            Some(s) => Ok(s),
            None => Err(join3("`#[quanty(", key.as_str(), ")]` needs a plain string")),
        },
        _ => Err(join3("`#[quanty(", key.as_str(), ")]` needs a string")),
    }
}

/// What stands at the cursor.
enum Seen {
    Nothing,
    Foreign,
    Ours(String),
}

/// One attribute if the cursor is on one.
fn attribute(tokens: &Vec<Tok>, i: usize) -> (r: core::result::Result<Seen, String>)
    ensures
        match r {
            Ok(Seen::Nothing) => attr_at(tokens@, i as int) is Nothing,
            Ok(Seen::Foreign) => attr_at(tokens@, i as int) is Foreign && i + 2 <= tokens@.len(),
            Ok(Seen::Ours(s)) => attr_at(tokens@, i as int) == Attr::Ours(s@) && i + 2
                <= tokens@.len(),
            Err(_) => attr_at(tokens@, i as int) is Broken,
        },
{
    if !at_mark(tokens, i, '#') {
        return Ok(Seen::Nothing);
    }
    let len: usize = tokens.len();
    if i + 1 >= len {
        return Err(owned("a `#` that is not an attribute"));
    }
    let inner: &Vec<Tok> = match &tokens[i + 1] {
        Tok::Group(Delim::Bracket, g) => g,
        _ => return Err(owned("a `#` that is not an attribute")),
    };
    if !at_word(inner, 0, "quanty") {
        return Ok(Seen::Foreign);
    }
    if inner.len() < 2 {
        return Err(owned("`#[quanty]` needs a value, as in `#[quanty(table = \"x\")]`"));
    }
    match &inner[1] {
        Tok::Group(Delim::Paren, args) => match named_string(args) {
            Ok(s) => Ok(Seen::Ours(s)),
            Err(e) => Err(e),
        },
        _ => Err(owned("`#[quanty]` needs a value, as in `#[quanty(table = \"x\")]`")),
    }
}

/// All attributes from the cursor on.
fn attributes(tokens: &Vec<Tok>, from: usize) -> (r: core::result::Result<
    (Option<String>, usize),
    String,
>)
    requires
        from <= tokens@.len(),
    ensures
        match r {
            Ok((held, j)) => from <= j <= tokens@.len() && attrs_at(tokens@, from as int, None)
                == Some((crate::ast::opt_text(held), j as int)),
            Err(_) => attrs_at(tokens@, from as int, None) is None,
        },
{
    let mut i: usize = from;
    let mut held: Option<String> = None;
    let len: usize = tokens.len();
    loop
        invariant
            from <= i <= tokens@.len() == len,
            attrs_at(tokens@, from as int, None) == attrs_at(
                tokens@,
                i as int,
                crate::ast::opt_text(held),
            ),
        decreases tokens@.len() - i,
    {
        match attribute(tokens, i) {
            Err(e) => return Err(e),
            Ok(Seen::Nothing) => return Ok((held, i)),
            Ok(Seen::Foreign) => {
                i = i + 2;
            },
            Ok(Seen::Ours(s)) => {
                held = Some(s);
                i = i + 2;
            },
        }
    }
}

fn skip_visibility(tokens: &Vec<Tok>, i: usize) -> (r: usize)
    requires
        i <= tokens@.len(),
    ensures
        r == past_visibility(tokens@, i as int),
        i <= r <= tokens@.len(),
{
    let len: usize = tokens.len();
    if at_word(tokens, i, "pub") {
        if i + 1 < len {
            if let Tok::Group(Delim::Paren, _) = &tokens[i + 1] {
                return i + 2;
            }
        }
        return i + 1;
    }
    i
}

/// Skip a type. Angle brackets arrive as separate punctuation, so count
/// them to find the comma that is really the field separator.
fn skip_type(tokens: &Vec<Tok>, from: usize) -> (r: usize)
    requires
        from <= tokens@.len(),
    ensures
        from <= r <= tokens@.len(),
        past_type(tokens@, from as int, 0) == r + 1 || (r == tokens@.len() && past_type(
            tokens@,
            from as int,
            0,
        ) == r + 1),
{
    let mut i: usize = from;
    let mut depth: i128 = 0;
    let len: usize = tokens.len();
    while i < len
        invariant
            len == tokens@.len(),
            from <= i <= len,
            -(i as int) <= depth <= i,
            past_type(tokens@, from as int, 0) == past_type(tokens@, i as int, depth as int),
        decreases len - i,
    {
        if at_mark(tokens, i, ',') && depth <= 0 {
            return i;
        }
        if at_mark(tokens, i, '<') {
            depth = depth + 1;
        } else if at_mark(tokens, i, '>') {
            depth = depth - 1;
        }
        i = i + 1;
    }
    i
}

/// `vis? name : type ,` repeated, with attributes on any of them.
pub fn parse_fields(tokens: &Vec<Tok>, struct_name: &str) -> (r: core::result::Result<
    Vec<Field>,
    String,
>)
    ensures
        match r {
            Ok(f) => fields_at(tokens@, 0) == Some(fields_of(f@)),
            Err(_) => fields_at(tokens@, 0) is None,
        },
{
    let mut out: Vec<Field> = Vec::new();
    let mut i: usize = 0;
    let len: usize = tokens.len();
    let ghost whole = fields_at(tokens@, 0);
    proof {
        if let Some(all) = whole {
            assert(fields_of(out@) + all =~= all);
        }
    }
    while i < len
        invariant
            i <= len == tokens@.len(),
            whole == fields_at(tokens@, 0),
            match fields_at(tokens@, i as int) {
                Some(rest) => whole == Some(fields_of(out@) + rest),
                None => whole is None,
            },
        decreases len - i,
    {
        let ghost here = i as int;
        let (column, j): (Option<String>, usize) = match attributes(tokens, i) {
            Ok(x) => x,
            Err(e) => return Err(e),
        };
        if j >= len {
            proof {
                assert(fields_of(out@) + Seq::<FieldV>::empty() =~= fields_of(out@));
            }
            return Ok(out);
        }
        let k: usize = skip_visibility(tokens, j);
        if k >= len {
            return Err(unreadable(struct_name));
        }
        let name: String = match &tokens[k] {
            Tok::Ident(s) => owned(s.as_str()),
            _ => return Err(unreadable(struct_name)),
        };
        if !at_mark(tokens, k + 1, ':') {
            return Err(
                join3(
                    join3("`", struct_name, ".").as_str(),
                    name.as_str(),
                    "` has no type",
                ),
            );
        }
        let end: usize = skip_type(tokens, k + 2);
        let ghost had = out@;
        let ghost next = past_type(tokens@, k + 2, 0);
        proof {
            assert(next == end + 1);
        }
        let made = match column {
            Some(c) => Field { name, column: c },
            None => {
                let c = owned(name.as_str());
                Field { name, column: c }
            },
        };
        let ghost f: FieldV = (made.name@, made.column@);
        out.push(made);
        proof {
            assert(fields_of(out@) =~= fields_of(had).push(f));
            match fields_at(tokens@, next) {
                Some(rest) => {
                    assert(fields_of(had) + (seq![f] + rest) =~= fields_of(out@) + rest);
                },
                None => {},
            }
        }
        if end >= len {
            proof {
                assert(fields_at(tokens@, next) == Some(Seq::<FieldV>::empty()));
                assert(fields_of(out@) + Seq::<FieldV>::empty() =~= fields_of(out@));
            }
            return Ok(out);
        }
        i = end + 1;
    }
    proof {
        assert(fields_at(tokens@, i as int) == Some(Seq::<FieldV>::empty()));
        assert(fields_of(out@) + Seq::<FieldV>::empty() =~= fields_of(out@));
    }
    Ok(out)
}

fn unreadable(struct_name: &str) -> String {
    join3("`", struct_name, "` has a field this derive cannot read; named fields only")
}

/// Learn the struct name, the table name and the fields. Types are never
/// inspected: the generated code asks the field's own type to convert
/// itself.
pub fn parse(tokens: &Vec<Tok>) -> (r: core::result::Result<Model, String>)
    ensures
        match r {
            Ok(m) => read_model(tokens@) == Some((m.name@, m.table@, fields_of(m.fields@))),
            Err(_) => read_model(tokens@) is None,
        },
{
    let (table, j): (Option<String>, usize) = match attributes(tokens, 0) {
        Ok(x) => x,
        Err(e) => return Err(e),
    };
    let k: usize = skip_visibility(tokens, j);
    let len: usize = tokens.len();
    if !at_word(tokens, k, "struct") {
        if k < len {
            if let Tok::Ident(s) = &tokens[k] {
                return Err(
                    join3("Row can only be derived for a struct, found `", s.as_str(), "`"),
                );
            }
        }
        return Err(owned("Row can only be derived for a struct"));
    }
    if k + 1 >= len {
        return Err(owned("the struct has no name"));
    }
    let name: String = match &tokens[k + 1] {
        Tok::Ident(s) => owned(s.as_str()),
        _ => return Err(owned("the struct has no name")),
    };
    if at_mark(tokens, k + 2, '<') {
        return Err(
            join3(
                "Row does not support generics or lifetimes, and `",
                name.as_str(),
                "` has them",
            ),
        );
    }
    if k + 2 >= len {
        return Err(join3("Row needs named fields, and `", name.as_str(), "` has none"));
    }
    let body: &Vec<Tok> = match &tokens[k + 2] {
        Tok::Group(Delim::Brace, g) => g,
        Tok::Group(Delim::Paren, _) => return Err(
            join3("Row needs named fields, and `", name.as_str(), "` is a tuple struct"),
        ),
        _ => return Err(
            join3("Row needs named fields, and `", name.as_str(), "` has none"),
        ),
    };
    let fields = match parse_fields(body, name.as_str()) {
        Ok(f) => f,
        Err(e) => return Err(e),
    };
    if fields.len() == 0 {
        return Err(join3("`", name.as_str(), "` has no fields to map"));
    }
    let table = match table {
        Some(t) => t,
        None => snake_case(name.as_str()),
    };
    Ok(Model { name, table, fields })
}

// ---------------------------------------------------------------------
// writing
// ---------------------------------------------------------------------

/// Text inside a string literal: a backslash and a quote get a backslash.
pub open spec fn escaped(s: Seq<char>) -> Seq<char>
    decreases s.len(),
{
    if s.len() == 0 {
        Seq::empty()
    } else if s.last() == '"' || s.last() == '\\' {
        escaped(s.drop_last()).push('\\').push(s.last())
    } else {
        escaped(s.drop_last()).push(s.last())
    }
}

/// The code that makes the compiler report a message.
pub fn error(message: &str) -> (r: String)
    ensures
        r@ == "compile_error!(\""@ + escaped(message@) + "\");"@,
{
    let mut out = String::new();
    let len: usize = message.unicode_len();
    proof {
        assert(out@ =~= escaped(message@.take(0)));
    }
    for i in 0..len
        invariant
            len == message@.len(),
            out@ == escaped(message@.take(i as int)),
    {
        let c: char = message.get_char(i);
        proof {
            assert(message@.take(i as int + 1).drop_last() =~= message@.take(i as int));
        }
        if c == '"' || c == '\\' {
            out.push('\\');
        }
        out.push(c);
    }
    proof {
        assert(message@.take(len as int) =~= message@);
    }
    join3("compile_error!(\"", out.as_str(), "\");")
}

/// A column name as a literal.
pub open spec fn column_code(f: FieldV) -> Seq<char> {
    "\""@ + f.1 + "\""@
}

/// How one field is read back.
pub open spec fn from_code(name: Seq<char>, f: FieldV) -> Seq<char> {
    "            "@ + f.0 + ": ::quanty::__private::field(\""@ + (name + "\", \""@ + f.0)
        + "\", it.next())?,"@
}

/// How one field is written.
pub open spec fn to_code(f: FieldV) -> Seq<char> {
    "            (\""@ + f.1 + "\", ::quanty::IntoValue::into_value(self."@ + f.0
        + ".clone())),"@
}

/// The whole implementation.
pub open spec fn model_code(name: Seq<char>, table: Seq<char>, fs: Seq<FieldV>) -> Seq<char> {
    let columns = joined(Seq::new(fs.len(), |i: int| column_code(fs[i])), ", "@);
    let from = joined(Seq::new(fs.len(), |i: int| from_code(name, fs[i])), "\n"@);
    let to = joined(Seq::new(fs.len(), |i: int| to_code(fs[i])), "\n"@);
    "impl ::quanty::Row for "@ + name + " {\n    const TABLE: &'static str = \""@ + table
        + "\";\n    const COLUMNS: &'static [&'static str] = &["@ + columns
        + "];\n\n    fn from_values(values: ::std::vec::Vec<::quanty::Value>)\n        -> ::quanty::Result<Self>\n    {\n        let mut it = values.into_iter();\n        ::quanty::Result::Ok("@
        + name + " {\n"@ + from
        + "\n        })\n    }\n\n    fn to_values(&self) -> ::std::vec::Vec<(&'static str, ::quanty::Value)> {\n        ::std::vec![\n"@
        + to + "\n        ]\n    }\n}"@
}

/// The implementation, as text.
pub fn emit(model: &Model) -> (r: String)
    ensures
        r@ == model_code(model.name@, model.table@, fields_of(model.fields@)),
{
    let name = model.name.as_str();
    let mut columns: Vec<String> = Vec::new();
    let mut from: Vec<String> = Vec::new();
    let mut to: Vec<String> = Vec::new();
    let len: usize = model.fields.len();
    let ghost fs = fields_of(model.fields@);
    for i in 0..len
        invariant
            len == model.fields@.len(),
            fs == fields_of(model.fields@),
            name@ == model.name@,
            columns@.len() == i,
            from@.len() == i,
            to@.len() == i,
            forall|k: int| 0 <= k < i ==> (#[trigger] columns@[k])@ == column_code(fs[k]),
            forall|k: int| 0 <= k < i ==> (#[trigger] from@[k])@ == from_code(name@, fs[k]),
            forall|k: int| 0 <= k < i ==> (#[trigger] to@[k])@ == to_code(fs[k]),
    {
        let f = &model.fields[i];
        proof {
            assert(fs[i as int] == (f.name@, f.column@));
        }
        columns.push(join3("\"", f.column.as_str(), "\""));
        from.push(
            join3(
                join3(
                    "            ",
                    f.name.as_str(),
                    ": ::quanty::__private::field(\"",
                ).as_str(),
                join3(name, "\", \"", f.name.as_str()).as_str(),
                "\", it.next())?,",
            ),
        );
        to.push(
            join3(
                join3(
                    "            (\"",
                    f.column.as_str(),
                    "\", ::quanty::IntoValue::into_value(self.",
                ).as_str(),
                f.name.as_str(),
                ".clone())),",
            ),
        );
    }
    proof {
        assert(texts(columns@) =~= Seq::new(fs.len(), |i: int| column_code(fs[i])));
        assert(texts(from@) =~= Seq::new(fs.len(), |i: int| from_code(name@, fs[i])));
        assert(texts(to@) =~= Seq::new(fs.len(), |i: int| to_code(fs[i])));
    }
    let mut code = join3("impl ::quanty::Row for ", name, " {\n    const TABLE: &'static str = \"");
    code.append(model.table.as_str());
    code.append("\";\n    const COLUMNS: &'static [&'static str] = &[");
    code.append(join_all(&columns, ", ").as_str());
    code.append(
        "];\n\n    fn from_values(values: ::std::vec::Vec<::quanty::Value>)\n        -> ::quanty::Result<Self>\n    {\n        let mut it = values.into_iter();\n        ::quanty::Result::Ok(",
    );
    code.append(name);
    code.append(" {\n");
    code.append(join_all(&from, "\n").as_str());
    code.append(
        "\n        })\n    }\n\n    fn to_values(&self) -> ::std::vec::Vec<(&'static str, ::quanty::Value)> {\n        ::std::vec![\n",
    );
    code.append(join_all(&to, "\n").as_str());
    code.append("\n        ]\n    }\n}");
    code
}

/// The code for an input: the implementation, or the error it earned.
pub fn derive_row(tokens: &Vec<Tok>) -> (r: String)
    ensures
        read_model(tokens@) matches Some((name, table, fields)) ==> r@ == model_code(
            name,
            table,
            fields,
        ),
        read_model(tokens@) is None ==> exists|m: Seq<char>|
            r@ == "compile_error!(\""@ + #[trigger] escaped(m) + "\");"@,
{
    match parse(tokens) {
        Ok(model) => emit(&model),
        Err(message) => error(message.as_str()),
    }
}

} // verus!
