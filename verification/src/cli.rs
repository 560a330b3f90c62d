//! The command line: what was asked for, and what is wrong with it.

use vstd::prelude::*;

use crate::ast::Statement;
use crate::strings::{
    chars_of, decimal, join2, join3, owned, same_text, text_of_chars, texts, u64_text,
};
use crate::words::{number, parse_u64, split_words, trim, trimmed, words};

verus! {

/// Why a command did nothing.
#[derive(Debug)]
pub enum Failure {
    /// The command line itself was wrong, so the usage is worth printing.
    Usage(String),
    /// The command was understood and did not work.
    Failed(String),
    /// Whoever was reading our output stopped, as `head` does. Nothing
    /// went wrong and there is nobody left to tell.
    PipeClosed,
    /// A server refused a statement and has already said why, so there is
    /// nothing to add beyond the exit code.
    Refused,
}

impl Failure {
    /// The status the process ends with: two for a bad command line, one
    /// for a command that did not work.
    pub fn exit_code(&self) -> (r: u8)
        ensures
            r == (match self {
                Failure::Usage(_) => 2u8,
                Failure::Failed(_) => 1u8,
                Failure::PipeClosed => 0u8,
                Failure::Refused => 1u8,
            }),
    {
        match self {
            Failure::Usage(_) => 2,
            Failure::Failed(_) => 1,
            Failure::PipeClosed => 0,
            Failure::Refused => 1,
        }
    }
}

/// Flags pulled out of the arguments, leaving the positional ones behind.
pub struct Flags {
    pub dry_run: bool,
    pub strict: bool,
    pub sql: bool,
    pub at: Option<u64>,
    pub listen: Option<String>,
    pub workers: Option<usize>,
    pub tokens: Option<String>,
    pub token: Option<String>,
    pub elchi: bool,
}

pub struct FlagsV {
    pub dry_run: bool,
    pub strict: bool,
    pub sql: bool,
    pub at: Option<u64>,
    pub listen: Option<Seq<char>>,
    pub workers: Option<usize>,
    pub tokens: Option<Seq<char>>,
    pub token: Option<Seq<char>>,
    pub elchi: bool,
}

/// What a text that may be missing says.
pub open spec fn maybe(s: Option<String>) -> Option<Seq<char>> {
    match s {
        Some(t) => Some(t@),
        None => None,
    }
}

impl View for Flags {
    type V = FlagsV;

    open spec fn view(&self) -> FlagsV {
        FlagsV {
            dry_run: self.dry_run,
            strict: self.strict,
            sql: self.sql,
            at: self.at,
            listen: maybe(self.listen),
            workers: self.workers,
            tokens: maybe(self.tokens),
            token: maybe(self.token),
            elchi: self.elchi,
        }
    }
}

/// The flags of an empty command line.
pub open spec fn no_flags() -> FlagsV {
    FlagsV {
        dry_run: false,
        strict: false,
        sql: false,
        at: None,
        listen: None,
        workers: None,
        tokens: None,
        token: None,
        elchi: false,
    }
}

/// A flag whose value is the next argument.
#[derive(Clone, Copy, Debug, PartialEq, Eq, Structural)]
pub enum Wanted {
    Listen,
    Workers,
    Tokens,
    Token,
    At,
}

/// The flag an argument names, where it wants a value.
pub open spec fn wanted(arg: Seq<char>) -> Option<Wanted> {
    if arg == "--listen"@ {
        Some(Wanted::Listen)
    } else if arg == "--workers"@ {
        Some(Wanted::Workers)
    } else if arg == "--tokens"@ {
        Some(Wanted::Tokens)
    } else if arg == "--token"@ {
        Some(Wanted::Token)
    } else if arg == "--at"@ {
        Some(Wanted::At)
    } else {
        None
    }
}

/// The flags once a wanted value was given.
pub open spec fn given(f: FlagsV, w: Wanted, arg: Seq<char>) -> core::result::Result<
    FlagsV,
    Seq<char>,
> {
    match w {
        Wanted::Listen => Ok(FlagsV { listen: Some(arg), ..f }),
        Wanted::Tokens => Ok(FlagsV { tokens: Some(arg), ..f }),
        Wanted::Token => Ok(FlagsV { token: Some(arg), ..f }),
        Wanted::Workers => match number(arg) {
            Some(n) if n <= usize::MAX => if n == 0 {
                Err("--workers must be at least 1"@)
            } else {
                Ok(FlagsV { workers: Some(n as usize), ..f })
            },
            _ => Err("--workers wants a number, got "@ + arg),
        },
        Wanted::At => match number(arg) {
            Some(n) if n <= u64::MAX => Ok(FlagsV { at: Some(n as u64), ..f }),
            _ => Err("--at wants a commit id, got "@ + arg),
        },
    }
}

/// What a command line splits into: the positional arguments and the flags,
/// or what is wrong with it.
pub type SplitV = core::result::Result<(Seq<Seq<char>>, FlagsV), Seq<char>>;

/// Splitting on from argument `i`, with a flag that waits for its value. A
/// value that never comes leaves its flag as it was.
pub open spec fn split(
    args: Seq<Seq<char>>,
    i: int,
    positional: Seq<Seq<char>>,
    f: FlagsV,
    expect: Option<Wanted>,
) -> SplitV
    decreases args.len() - i,
{
    if i >= args.len() || i < 0 {
        Ok((positional, f))
    } else {
        let arg = args[i];
        match expect {
            Some(w) => match given(f, w, arg) {
                Err(e) => Err(e),
                Ok(g) => split(args, i + 1, positional, g, None),
            },
            None => if wanted(arg) is Some {
                split(args, i + 1, positional, f, wanted(arg))
            } else if arg == "--branch"@ {
                Err(no_branch_flag())
            } else if arg == "--elchi"@ {
                split(args, i + 1, positional, FlagsV { elchi: true, ..f }, None)
            } else if arg == "--dry-run"@ {
                split(args, i + 1, positional, FlagsV { dry_run: true, ..f }, None)
            } else if arg == "--strict"@ {
                split(args, i + 1, positional, FlagsV { strict: true, ..f }, None)
            } else if arg == "--sql"@ {
                split(args, i + 1, positional, FlagsV { sql: true, ..f }, None)
            } else if arg == "--help"@ || arg == "-h"@ {
                Err(""@)
            } else if arg.len() >= 2 && arg[0] == '-' && arg[1] == '-' {
                Err("unknown option "@ + arg)
            } else {
                split(args, i + 1, positional.push(arg), f, None)
            },
        }
    }
}

/// Why there is no flag to run a statement on another branch.
pub open spec fn no_branch_flag() -> Seq<char> {
    "--branch does not exist: a write always lands on the current branch, so running elsewhere means switching there and back, which is three commits and a window where a kill leaves the database on a branch nobody chose. Use switch instead."@
}

fn wants(arg: &str) -> (r: Option<Wanted>)
    ensures
        r == wanted(arg@),
{
    if same_text(arg, "--listen") {
        Some(Wanted::Listen)
    } else if same_text(arg, "--workers") {
        Some(Wanted::Workers)
    } else if same_text(arg, "--tokens") {
        Some(Wanted::Tokens)
    } else if same_text(arg, "--token") {
        Some(Wanted::Token)
    } else if same_text(arg, "--at") {
        Some(Wanted::At)
    } else {
        None
    }
}

fn take_value(flags: Flags, w: Wanted, arg: &str) -> (r: core::result::Result<Flags, Failure>)
    ensures
        match r {
            Ok(g) => given(flags@, w, arg@) == Ok::<FlagsV, Seq<char>>(g@),
            Err(e) => e matches Failure::Usage(m) && given(flags@, w, arg@) == Err::<
                FlagsV,
                Seq<char>,
            >(m@),
        },
{
    let mut f = flags;
    match w {
        Wanted::Listen => {
            f.listen = Some(owned(arg));
        },
        Wanted::Tokens => {
            f.tokens = Some(owned(arg));
        },
        Wanted::Token => {
            f.token = Some(owned(arg));
        },
        Wanted::Workers => match parse_u64(chars_of(arg).as_slice()) {
            Some(n) if n <= usize::MAX as u64 => {
                if n == 0 {
                    return Err(Failure::Usage(owned("--workers must be at least 1")));
                }
                f.workers = Some(n as usize);
            },
            _ => return Err(Failure::Usage(join2("--workers wants a number, got ", arg))),
        },
        Wanted::At => match parse_u64(chars_of(arg).as_slice()) {
            Some(n) => {
                f.at = Some(n);
            },
            None => return Err(Failure::Usage(join2("--at wants a commit id, got ", arg))),
        },
    }
    Ok(f)
}

/// Pull the flags out of the arguments.
pub fn split_flags(args: &Vec<String>) -> (r: core::result::Result<(Vec<String>, Flags), Failure>)
    ensures
        match r {
            Ok((p, f)) => split(texts(args@), 0, Seq::empty(), no_flags(), None) == Ok::<
                (Seq<Seq<char>>, FlagsV),
                Seq<char>,
            >((texts(p@), f@)),
            Err(e) => e matches Failure::Usage(m) && split(
                texts(args@),
                0,
                Seq::empty(),
                no_flags(),
                None,
            ) == Err::<(Seq<Seq<char>>, FlagsV), Seq<char>>(m@),
        },
{
    let mut positional: Vec<String> = Vec::new();
    let mut flags = Flags {
        dry_run: false,
        strict: false,
        sql: false,
        at: None,
        listen: None,
        workers: None,
        tokens: None,
        token: None,
        elchi: false,
    };
    let mut expect: Option<Wanted> = None;
    let len: usize = args.len();
    let ghost whole = split(texts(args@), 0, Seq::empty(), no_flags(), None);
    proof {
        assert(texts(positional@) =~= Seq::empty());
        assert(flags@ == no_flags());
    }
    let mut i: usize = 0;
    while i < len
        invariant
            i <= len == args@.len(),
            whole == split(texts(args@), 0, Seq::empty(), no_flags(), None),
            whole == split(texts(args@), i as int, texts(positional@), flags@, expect),
        decreases len - i,
    {
        let arg = args[i].as_str();
        proof {
            assert(texts(args@)[i as int] == arg@);
        }
        if let Some(w) = expect {
            flags = match take_value(flags, w, arg) {
                Ok(f) => f,
                Err(e) => return Err(e),
            };
            expect = None;
        } else if wants(arg).is_some() {
            expect = wants(arg);
        } else if same_text(arg, "--branch") {
            return Err(
                Failure::Usage(
                    owned(
                        "--branch does not exist: a write always lands on the current branch, so running elsewhere means switching there and back, which is three commits and a window where a kill leaves the database on a branch nobody chose. Use switch instead.",
                    ),
                ),
            );
        } else if same_text(arg, "--elchi") {
            flags.elchi = true;
        } else if same_text(arg, "--dry-run") {
            flags.dry_run = true;
        } else if same_text(arg, "--strict") {
            flags.strict = true;
        } else if same_text(arg, "--sql") {
            flags.sql = true;
        } else if same_text(arg, "--help") || same_text(arg, "-h") {
            return Err(Failure::Usage(owned("")));
        } else {
            let chars = chars_of(arg);
            if chars.len() >= 2 && chars[0] == '-' && chars[1] == '-' {
                return Err(Failure::Usage(join2("unknown option ", arg)));
            }
            let ghost had = positional@;
            positional.push(owned(arg));
            proof {
                assert(texts(positional@) =~= texts(had).push(arg@));
            }
        }
        i = i + 1;
    }
    Ok((positional, flags))
}

// ---------------------------------------------------------------------
// commands
// ---------------------------------------------------------------------

/// A statement this tool builds rather than one the user typed. No name is
/// ever glued into text.
#[derive(Debug)]
pub enum Ours {
    Tables,
    Branch { name: String, at: Option<u64> },
    Branches,
    Switch { name: String },
    Merge { name: String },
    Log,
    Stats,
    GcBlobs,
    Gc { keep: u64 },
}

pub enum OursV {
    Tables,
    Branch { name: Seq<char>, at: Option<u64> },
    Branches,
    Switch { name: Seq<char> },
    Merge { name: Seq<char> },
    Log,
    Stats,
    GcBlobs,
    Gc { keep: u64 },
}

impl View for Ours {
    type V = OursV;

    open spec fn view(&self) -> OursV {
        match self {
            Ours::Tables => OursV::Tables,
            Ours::Branch { name, at } => OursV::Branch { name: name@, at: *at },
            Ours::Branches => OursV::Branches,
            Ours::Switch { name } => OursV::Switch { name: name@ },
            Ours::Merge { name } => OursV::Merge { name: name@ },
            Ours::Log => OursV::Log,
            Ours::Stats => OursV::Stats,
            Ours::GcBlobs => OursV::GcBlobs,
            Ours::Gc { keep } => OursV::Gc { keep: *keep },
        }
    }
}

impl Ours {
    /// Whether it needs the writer lock. Looking at tables, branches, the
    /// log or the page counts changes nothing.
    pub fn writes(&self) -> (r: bool)
        ensures
            r == !(self is Tables || self is Branches || self is Log || self is Stats),
    {
        match self {
            Ours::Tables => false,
            Ours::Branches => false,
            Ours::Log => false,
            Ours::Stats => false,
            _ => true,
        }
    }

    /// The statement a session runs for it. Page counts and dropping chunks
    /// are asked of the database itself.
    pub fn statement(self) -> (r: Option<Statement>)
        ensures
            match self {
                Ours::Tables => r == Some(Statement::ShowTables),
                Ours::Branch { name, at } => r == Some(Statement::Branch { name, at }),
                Ours::Branches => r == Some(Statement::ShowBranches),
                Ours::Switch { name } => r == Some(Statement::Switch { name }),
                Ours::Merge { name } => r == Some(Statement::Merge { name }),
                Ours::Log => r == Some(Statement::Log),
                Ours::Stats => r is None,
                Ours::GcBlobs => r is None,
                Ours::Gc { keep } => r == Some(Statement::Gc { keep }),
            },
    {
        match self {
            Ours::Tables => Some(Statement::ShowTables),
            Ours::Branch { name, at } => Some(Statement::Branch { name, at }),
            Ours::Branches => Some(Statement::ShowBranches),
            Ours::Switch { name } => Some(Statement::Switch { name }),
            Ours::Merge { name } => Some(Statement::Merge { name }),
            Ours::Log => Some(Statement::Log),
            Ours::Stats => None,
            Ours::GcBlobs => None,
            Ours::Gc { keep } => Some(Statement::Gc { keep }),
        }
    }
}

/// What a command line asks for.
pub enum Command {
    Heart,
    Create { database: String },
    Import { source: String, target: String },
    Statement { database: String, statement: String },
    Shell { database: String },
    Serve { database: String },
    Token { label: String },
    About,
    Connect { addr: String, one: Option<String> },
    Run { database: String, ours: Ours },
}

pub enum CommandV {
    Heart,
    Create { database: Seq<char> },
    Import { source: Seq<char>, target: Seq<char> },
    Statement { database: Seq<char>, statement: Seq<char> },
    Shell { database: Seq<char> },
    Serve { database: Seq<char> },
    Token { label: Seq<char> },
    About,
    Connect { addr: Seq<char>, one: Option<Seq<char>> },
    Run { database: Seq<char>, ours: OursV },
}

impl View for Command {
    type V = CommandV;

    open spec fn view(&self) -> CommandV {
        match self {
            Command::Heart => CommandV::Heart,
            Command::Create { database } => CommandV::Create { database: database@ },
            Command::Import { source, target } => CommandV::Import {
                source: source@,
                target: target@,
            },
            Command::Statement { database, statement } => CommandV::Statement {
                database: database@,
                statement: statement@,
            },
            Command::Shell { database } => CommandV::Shell { database: database@ },
            Command::Serve { database } => CommandV::Serve { database: database@ },
            Command::Token { label } => CommandV::Token { label: label@ },
            Command::About => CommandV::About,
            Command::Connect { addr, one } => CommandV::Connect {
                addr: addr@,
                one: maybe(*one),
            },
            Command::Run { database, ours } => CommandV::Run {
                database: database@,
                ours: ours@,
            },
        }
    }
}

pub type AskedV = core::result::Result<CommandV, Seq<char>>;

/// What the positional arguments and the flags ask for, or what is wrong
/// with them.
pub open spec fn asked(p: Seq<Seq<char>>, f: FlagsV) -> AskedV {
    if f.elchi {
        Ok(CommandV::Heart)
    } else if p.len() == 0 {
        Err("no command given"@)
    } else {
        asked_for(p[0], p.skip(1), f)
    }
}

pub open spec fn asked_for(c: Seq<char>, rest: Seq<Seq<char>>, f: FlagsV) -> AskedV {
    if c == "create"@ {
        if rest.len() == 1 {
            Ok(CommandV::Create { database: rest[0] })
        } else {
            Err("create takes a database"@)
        }
    } else if c == "import"@ {
        if rest.len() == 2 {
            Ok(CommandV::Import { source: rest[0], target: rest[1] })
        } else {
            Err("import takes a source and a target"@)
        }
    } else if c == "run"@ {
        if rest.len() == 2 {
            Ok(CommandV::Statement { database: rest[0], statement: rest[1] })
        } else {
            Err("run takes a database and a statement"@)
        }
    } else if c == "shell"@ {
        if rest.len() == 1 {
            Ok(CommandV::Shell { database: rest[0] })
        } else {
            Err("shell takes a database"@)
        }
    } else if c == "serve"@ {
        if rest.len() == 1 {
            Ok(CommandV::Serve { database: rest[0] })
        } else {
            Err("serve takes a database"@)
        }
    } else if c == "token"@ {
        if rest.len() == 1 {
            Ok(CommandV::Token { label: rest[0] })
        } else {
            Err("token takes a label"@)
        }
    } else if c == "about"@ {
        if rest.len() == 0 {
            Ok(CommandV::About)
        } else {
            Err("about takes nothing"@)
        }
    } else if c == "connect"@ {
        if rest.len() == 1 {
            Ok(CommandV::Connect { addr: rest[0], one: None })
        } else if rest.len() == 2 {
            Ok(CommandV::Connect { addr: rest[0], one: Some(rest[1]) })
        } else {
            Err("connect takes an address and an optional statement"@)
        }
    } else {
        asked_of_database(c, rest, f)
    }
}

pub open spec fn asked_of_database(c: Seq<char>, rest: Seq<Seq<char>>, f: FlagsV) -> AskedV {
    if c == "tables"@ {
        if rest.len() == 1 {
            Ok(CommandV::Run { database: rest[0], ours: OursV::Tables })
        } else {
            Err("tables takes a database"@)
        }
    } else if c == "branch"@ {
        if rest.len() == 2 {
            Ok(CommandV::Run { database: rest[0], ours: OursV::Branch { name: rest[1], at: f.at } })
        } else {
            Err("branch takes a database and a name"@)
        }
    } else if c == "branches"@ {
        if rest.len() == 1 {
            Ok(CommandV::Run { database: rest[0], ours: OursV::Branches })
        } else {
            Err("branches takes a database"@)
        }
    } else if c == "switch"@ {
        if rest.len() == 2 {
            Ok(CommandV::Run { database: rest[0], ours: OursV::Switch { name: rest[1] } })
        } else {
            Err("switch takes a database and a branch"@)
        }
    } else if c == "merge"@ {
        if rest.len() == 2 {
            Ok(CommandV::Run { database: rest[0], ours: OursV::Merge { name: rest[1] } })
        } else {
            Err("merge takes a database and a branch"@)
        }
    } else if c == "log"@ {
        if rest.len() == 1 {
            Ok(CommandV::Run { database: rest[0], ours: OursV::Log })
        } else {
            Err("log takes a database"@)
        }
    } else if c == "stats"@ {
        if rest.len() == 1 {
            Ok(CommandV::Run { database: rest[0], ours: OursV::Stats })
        } else {
            Err("stats takes a database"@)
        }
    } else if c == "gc"@ {
        if rest.len() == 2 {
            if rest[1] == "blobs"@ {
                Ok(CommandV::Run { database: rest[0], ours: OursV::GcBlobs })
            } else {
                match number(rest[1]) {
                    Some(n) if n <= u64::MAX => if n == 0 {
                        Err("gc must keep at least one commit per branch"@)
                    } else {
                        Ok(CommandV::Run { database: rest[0], ours: OursV::Gc { keep: n as u64 } })
                    },
                    _ => Err("gc wants a number of commits, got "@ + rest[1]),
                }
            }
        } else {
            Err("gc takes a database and how many commits to keep"@)
        }
    } else if c == "help"@ {
        Err(""@)
    } else {
        Err("unknown command "@ + c)
    }
}

fn nope(message: &str) -> (r: core::result::Result<Command, Failure>)
    ensures
        r matches Err(Failure::Usage(m)) && m@ == message@,
{
    Err(Failure::Usage(owned(message)))
}

/// Whether a result is what was asked for.
pub open spec fn is_asked(r: core::result::Result<Command, Failure>, v: AskedV) -> bool {
    match r {
        Ok(c) => v == Ok::<CommandV, Seq<char>>(c@),
        Err(e) => e matches Failure::Usage(m) && v == Err::<CommandV, Seq<char>>(m@),
    }
}

/// What the positional arguments and the flags ask for.
pub fn dispatch(positional: &Vec<String>, flags: &Flags) -> (r: core::result::Result<
    Command,
    Failure,
>)
    ensures
        is_asked(r, asked(texts(positional@), flags@)),
{
    if flags.elchi {
        return Ok(Command::Heart);
    }
    if positional.len() == 0 {
        return nope("no command given");
    }
    let command = positional[0].as_str();
    let rest: usize = positional.len() - 1;
    let ghost r = texts(positional@).skip(1);
    proof {
        assert(texts(positional@)[0] == command@);
        assert(rest >= 1 ==> r[0] == positional@[1]@);
        assert(rest >= 2 ==> r[1] == positional@[2]@);
    }
    if same_text(command, "create") {
        if rest == 1 {
            Ok(Command::Create { database: owned(positional[1].as_str()) })
        } else {
            nope("create takes a database")
        }
    } else if same_text(command, "import") {
        if rest == 2 {
            Ok(
                Command::Import {
                    source: owned(positional[1].as_str()),
                    target: owned(positional[2].as_str()),
                },
            )
        } else {
            nope("import takes a source and a target")
        }
    } else if same_text(command, "run") {
        if rest == 2 {
            Ok(
                Command::Statement {
                    database: owned(positional[1].as_str()),
                    statement: owned(positional[2].as_str()),
                },
            )
        } else {
            nope("run takes a database and a statement")
        }
    } else if same_text(command, "shell") {
        if rest == 1 {
            Ok(Command::Shell { database: owned(positional[1].as_str()) })
        } else {
            nope("shell takes a database")
        }
    } else if same_text(command, "serve") {
        if rest == 1 {
            Ok(Command::Serve { database: owned(positional[1].as_str()) })
        } else {
            nope("serve takes a database")
        }
    } else if same_text(command, "token") {
        if rest == 1 {
            Ok(Command::Token { label: owned(positional[1].as_str()) })
        } else {
            nope("token takes a label")
        }
    } else if same_text(command, "about") {
        if rest == 0 {
            Ok(Command::About)
        } else {
            nope("about takes nothing")
        }
    } else if same_text(command, "connect") {
        if rest == 1 {
            Ok(Command::Connect { addr: owned(positional[1].as_str()), one: None })
        } else if rest == 2 {
            Ok(
                Command::Connect {
                    addr: owned(positional[1].as_str()),
                    one: Some(owned(positional[2].as_str())),
                },
            )
        } else {
            nope("connect takes an address and an optional statement")
        }
    } else {
        dispatch_database(positional, flags)
    }
}

fn dispatch_database(positional: &Vec<String>, flags: &Flags) -> (r: core::result::Result<
    Command,
    Failure,
>)
    requires
        positional@.len() > 0,
    ensures
        is_asked(
            r,
            asked_of_database(texts(positional@)[0], texts(positional@).skip(1), flags@),
        ),
{
    let command = positional[0].as_str();
    let rest: usize = positional.len() - 1;
    let ghost r = texts(positional@).skip(1);
    proof {
        assert(texts(positional@)[0] == command@);
        assert(rest >= 1 ==> r[0] == positional@[1]@);
        assert(rest >= 2 ==> r[1] == positional@[2]@);
    }
    if same_text(command, "tables") {
        if rest == 1 {
            ours(positional[1].as_str(), Ours::Tables)
        } else {
            nope("tables takes a database")
        }
    } else if same_text(command, "branch") {
        if rest == 2 {
            ours(
                positional[1].as_str(),
                Ours::Branch { name: owned(positional[2].as_str()), at: flags.at },
            )
        } else {
            nope("branch takes a database and a name")
        }
    } else if same_text(command, "branches") {
        if rest == 1 {
            ours(positional[1].as_str(), Ours::Branches)
        } else {
            nope("branches takes a database")
        }
    } else if same_text(command, "switch") {
        if rest == 2 {
            ours(positional[1].as_str(), Ours::Switch { name: owned(positional[2].as_str()) })
        } else {
            nope("switch takes a database and a branch")
        }
    } else if same_text(command, "merge") {
        if rest == 2 {
            ours(positional[1].as_str(), Ours::Merge { name: owned(positional[2].as_str()) })
        } else {
            nope("merge takes a database and a branch")
        }
    } else if same_text(command, "log") {
        if rest == 1 {
            ours(positional[1].as_str(), Ours::Log)
        } else {
            nope("log takes a database")
        }
    } else if same_text(command, "stats") {
        if rest == 1 {
            ours(positional[1].as_str(), Ours::Stats)
        } else {
            nope("stats takes a database")
        }
    } else if same_text(command, "gc") {
        if rest != 2 {
            return nope("gc takes a database and how many commits to keep");
        }
        let keep = positional[2].as_str();
        if same_text(keep, "blobs") {
            return ours(positional[1].as_str(), Ours::GcBlobs);
        }
        match parse_u64(chars_of(keep).as_slice()) {
            Some(n) => if n == 0 {
                nope("gc must keep at least one commit per branch")
            } else {
                ours(positional[1].as_str(), Ours::Gc { keep: n })
            },
            None => Err(Failure::Usage(join2("gc wants a number of commits, got ", keep))),
        }
    } else if same_text(command, "help") {
        nope("")
    } else {
        Err(Failure::Usage(join2("unknown command ", command)))
    }
}

fn ours(database: &str, what: Ours) -> (r: core::result::Result<Command, Failure>)
    ensures
        r matches Ok(Command::Run { database: d, ours: o }) && d@ == database@ && o@ == what@,
{
    Ok(Command::Run { database: owned(database), ours: what })
}

/// Read a whole command line.
pub fn run(args: &Vec<String>) -> (r: core::result::Result<(Command, Flags), Failure>)
    ensures
        match split(texts(args@), 0, Seq::empty(), no_flags(), None) {
            Err(m) => r matches Err(Failure::Usage(e)) && e@ == m,
            Ok((p, f)) => match asked(p, f) {
                Err(m) => r matches Err(Failure::Usage(e)) && e@ == m,
                Ok(c) => r matches Ok((command, flags)) && command@ == c && flags@ == f,
            },
        },
{
    let (positional, flags) = match split_flags(args) {
        Ok(pair) => pair,
        Err(e) => return Err(e),
    };
    match dispatch(&positional, &flags) {
        Ok(c) => Ok((c, flags)),
        Err(e) => Err(e),
    }
}

// ---------------------------------------------------------------------
// lines in and out
// ---------------------------------------------------------------------

/// The statement on a line of input: nothing on a blank line or a comment.
pub open spec fn on_line(line: Seq<char>) -> Option<Seq<char>> {
    let s = trimmed(line);
    if s.len() == 0 || s[0] == '#' {
        None
    } else {
        Some(s)
    }
}

pub fn statement_on(line: &str) -> (r: Option<String>)
    ensures
        maybe(r) == on_line(line@),
{
    let s = trim(line);
    if s.len() == 0 || s[0] == '#' {
        None
    } else {
        Some(text_of_chars(s.as_slice()))
    }
}

/// How a session of statements ends: any that failed make it a failure,
/// which says how many.
pub fn shell_end(failures: u32) -> (r: core::result::Result<(), Failure>)
    ensures
        failures == 0 ==> r is Ok,
        failures > 0 ==> (r matches Err(Failure::Failed(m)) && m@ == decimal(failures as nat)
            + " statement(s) failed"@),
{
    if failures > 0 {
        Err(Failure::Failed(join2(u64_text(failures as u64).as_str(), " statement(s) failed")))
    } else {
        Ok(())
    }
}

/// Whether a label can stand on a line of the token file: it is one word.
pub fn label_is_one_word(label: &str) -> (r: bool)
    ensures
        r == (words(label@).len() == 1),
{
    let list = split_words(chars_of(label).as_slice());
    proof {
        assert(texts(list@).len() == list@.len());
    }
    list.len() == 1
}

/// What is printed for a fresh token.
pub fn token_lines(token: &str, line: &str) -> (r: Vec<String>)
    ensures
        texts(r@) == seq![
            "token "@ + token@,
            "line  "@ + line@,
            ""@,
            "give the token to its owner and append the line to --tokens."@,
            "the token is not stored anywhere; losing it means minting another."@,
        ],
{
    let mut out: Vec<String> = Vec::new();
    out.push(join2("token ", token));
    out.push(join2("line  ", line));
    out.push(owned(""));
    out.push(owned("give the token to its owner and append the line to --tokens."));
    out.push(owned("the token is not stored anywhere; losing it means minting another."));
    proof {
        assert(texts(out@) =~= seq![
            "token "@ + token@,
            "line  "@ + line@,
            ""@,
            "give the token to its owner and append the line to --tokens."@,
            "the token is not stored anywhere; losing it means minting another."@,
        ]);
    }
    out
}

/// At least this many crates make up the project.
pub const CRATES: usize = 14;

/// At least this many test functions exist.
pub const TESTS: usize = 500;

/// At least this many decision records exist.
pub const DECISIONS: usize = 36;

/// Exactly this many packages that are not part of the project.
pub const FOREIGN_DEPENDENCIES: usize = 0;

/// What this is, who made it, and what it does not depend on.
pub open spec fn about_says(version: Seq<char>) -> Seq<Seq<char>> {
    seq![
        "quanty "@ + version,
        "one database that reshapes itself into whatever you need"@,
        ""@,
        "  dependencies   "@ + decimal(FOREIGN_DEPENDENCIES as nat)
            + ", and that is the whole list"@,
        "  people         1"@,
        "  funding        none"@,
        "  crates         "@ + decimal(CRATES as nat) + ", all of them in this repository"@,
        "  tests          "@ + decimal(TESTS as nat) + "+ functions, run on every push"@,
        "  decisions      "@ + decimal(DECISIONS as nat) + "+ written down, with their costs"@,
        ""@,
        "The checksum, the locks, the epoll layer, sha256 and the wire"@,
        "protocol are written out here rather than pulled in. Every one of"@,
        "those choices is argued in docs/DECISIONS.md, cost included."@,
        ""@,
        "  source   https://github.com/QuantyRoot/QuantyDatabase"@,
        "  licence  MIT"@,
        "  history  HUNDRED.md, for the bugs and the ideas that lost"@,
    ]
}

pub fn about(version: &str) -> (r: Vec<String>)
    ensures
        texts(r@) == about_says(version@),
{
    let mut out: Vec<String> = Vec::new();
    out.push(join2("quanty ", version));
    out.push(owned("one database that reshapes itself into whatever you need"));
    out.push(owned(""));
    out.push(
        join3(
            "  dependencies   ",
            u64_text(FOREIGN_DEPENDENCIES as u64).as_str(),
            ", and that is the whole list",
        ),
    );
    out.push(owned("  people         1"));
    out.push(owned("  funding        none"));
    out.push(
        join3(
            "  crates         ",
            u64_text(CRATES as u64).as_str(),
            ", all of them in this repository",
        ),
    );
    out.push(
        join3(
            "  tests          ",
            u64_text(TESTS as u64).as_str(),
            "+ functions, run on every push",
        ),
    );
    out.push(
        join3(
            "  decisions      ",
            u64_text(DECISIONS as u64).as_str(),
            "+ written down, with their costs",
        ),
    );
    out.push(owned(""));
    out.push(owned("The checksum, the locks, the epoll layer, sha256 and the wire"));
    out.push(owned("protocol are written out here rather than pulled in. Every one of"));
    out.push(owned("those choices is argued in docs/DECISIONS.md, cost included."));
    out.push(owned(""));
    out.push(owned("  source   https://github.com/QuantyRoot/QuantyDatabase"));
    out.push(owned("  licence  MIT"));
    out.push(owned("  history  HUNDRED.md, for the bugs and the ideas that lost"));
    proof {
        assert(texts(out@) =~= about_says(version@));
    }
    out
}

} // verus!
