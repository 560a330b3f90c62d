//! The pure part of the timing harness: the workloads in both languages,
//! the figure that is reported, and how a load generator is asked for and
//! paced. Running the engines and holding the stopwatch is the caller's
//! part.

use vstd::prelude::*;

use crate::strings::{
    chars_of, decimal, join2, join3, join_all, joined, owned, same_text, texts, u64_text,
};
use crate::words::{number, parse_u64};

verus! {

pub const ROWS: usize = 5_000;

pub const BATCH: usize = 100;

pub const LOOKUPS: usize = 5_000;

pub const SCANS: usize = 20;

/// Runs per workload; the median is reported, so one unlucky run does not
/// decide anything.
pub const REPEATS: usize = 3;

/// Whose language a script is in.
#[derive(Clone, Copy, Debug, PartialEq, Eq, Structural)]
pub enum Engine {
    Quanty,
    Sqlite,
}

#[derive(Clone, Copy, Debug, PartialEq, Eq, Structural)]
pub enum Mode {
    /// Every statement is its own transaction and reaches the disk.
    Durable,
    /// One transaction around the whole workload.
    Bulk,
}

impl Mode {
    pub fn label(self) -> (r: &'static str)
        ensures
            r@ == (match self {
                Mode::Durable => "durable"@,
                Mode::Bulk => "bulk"@,
            }),
    {
        match self {
            Mode::Durable => "durable",
            Mode::Bulk => "bulk",
        }
    }
}

// ---------------------------------------------------------------------
// rows
// ---------------------------------------------------------------------

/// A number with zeros in front until it has six digits.
pub open spec fn six(n: nat) -> Seq<char> {
    let d = decimal(n);
    Seq::new(
        if d.len() >= 6 {
            0
        } else {
            (6 - d.len()) as nat
        },
        |i: int| '0',
    ) + d
}

/// The name of row `i`, the same on both sides.
pub open spec fn name_at(i: nat) -> Seq<char> {
    "name-"@ + six(i)
}

pub open spec fn score_at(i: nat) -> nat {
    (i * 7919) % 100_000
}

/// The key lookup `n` asks for, spread across the table rather than
/// clustered.
pub open spec fn key_at(n: nat) -> nat {
    (n * 6151) % (ROWS as nat)
}

pub fn name_of(i: u32) -> (r: String)
    ensures
        r@ == name_at(i as nat),
{
    let d = u64_text(i as u64);
    let mut out = owned("name-");
    let len: usize = d.as_str().unicode_len();
    let mut n: usize = len;
    let ghost zeros = Seq::new(
        if len >= 6 {
            0
        } else {
            (6 - len) as nat
        },
        |i: int| '0',
    );
    proof {
        assert(out@ =~= "name-"@ + zeros.take(0));
    }
    while n < 6
        invariant
            len <= n,
            len < 6 ==> n <= 6,
            len >= 6 ==> n == len,
            len == d@.len(),
            zeros.len() == (if len >= 6 {
                0
            } else {
                6 - len
            }),
            forall|k: int| 0 <= k < zeros.len() ==> zeros[k] == '0',
            out@ == "name-"@ + zeros.take(n - len),
        decreases 6 - n,
    {
        out.push('0');
        proof {
            assert(zeros.take(n - len + 1) =~= zeros.take(n - len).push('0'));
            assert(out@ =~= "name-"@ + zeros.take(n - len + 1));
        }
        n = n + 1;
    }
    proof {
        assert(zeros.take(n - len) =~= zeros);
    }
    out.append(d.as_str());
    proof {
        assert(out@ =~= name_at(i as nat));
    }
    out
}

pub fn score_of(i: u32) -> (r: u64)
    ensures
        r == score_at(i as nat),
{
    (i as u64 * 7919) % 100_000
}

pub fn lookup_key(n: u32) -> (r: u32)
    ensures
        r == key_at(n as nat),
        r < ROWS,
{
    ((n as u64 * 6151) % (ROWS as u64)) as u32
}

// ---------------------------------------------------------------------
// scripts
// ---------------------------------------------------------------------

/// One row of an insert.
pub open spec fn row_text(e: Engine, i: nat) -> Seq<char> {
    match e {
        Engine::Quanty => "{ id: "@ + decimal(i) + (", name: \""@ + name_at(i) + ("\", score: "@
            + decimal(score_at(i)) + " }"@)),
        Engine::Sqlite => "("@ + decimal(i) + (", '"@ + name_at(i) + ("', "@ + decimal(score_at(i))
            + ")"@)),
    }
}

/// Insert number `b`, of one batch.
pub open spec fn batch_text(e: Engine, b: nat) -> Seq<char> {
    let rows = joined(Seq::new(BATCH as nat, |k: int| row_text(e, (b * BATCH + k) as nat)), ", "@);
    match e {
        Engine::Quanty => "put bench "@ + rows + "\n"@,
        Engine::Sqlite => "insert into bench (id, name, score) values "@ + rows + ";\n"@,
    }
}

pub open spec fn batches_text(e: Engine, n: nat) -> Seq<char>
    decreases n,
{
    if n == 0 {
        Seq::empty()
    } else {
        batches_text(e, (n - 1) as nat) + batch_text(e, (n - 1) as nat)
    }
}

pub open spec fn table_text(e: Engine) -> Seq<char> {
    match e {
        Engine::Quanty => "table bench { id: int @key, name: text @index, score: int }\n"@,
        Engine::Sqlite => "create table bench (id integer primary key, name text not null, score integer not null);\ncreate index bench_name on bench (name);\n"@,
    }
}

/// The insert workload.
pub open spec fn insert_text(e: Engine, m: Mode) -> Seq<char> {
    let body = batches_text(e, (ROWS / BATCH) as nat);
    match m {
        Mode::Durable => table_text(e) + body,
        Mode::Bulk => match e {
            Engine::Quanty => table_text(e) + "begin\n"@ + body + "commit\n"@,
            Engine::Sqlite => table_text(e) + "begin;\n"@ + body + "commit;\n"@,
        },
    }
}

fn write_row(e: Engine, i: u32) -> (r: String)
    ensures
        r@ == row_text(e, i as nat),
{
    let id = u64_text(i as u64);
    let name = name_of(i);
    let score = u64_text(score_of(i));
    match e {
        Engine::Quanty => {
            let third = join3("\", score: ", score.as_str(), " }");
            let second = join3(", name: \"", name.as_str(), third.as_str());
            join3("{ id: ", id.as_str(), second.as_str())
        },
        Engine::Sqlite => {
            let third = join3("', ", score.as_str(), ")");
            let second = join3(", '", name.as_str(), third.as_str());
            join3("(", id.as_str(), second.as_str())
        },
    }
}

fn write_batch(e: Engine, b: u32) -> (r: String)
    requires
        b < ROWS / BATCH,
    ensures
        r@ == batch_text(e, b as nat),
{
    let mut rows: Vec<String> = Vec::new();
    for k in 0..100u32
        invariant
            b < 50,
            rows@.len() == k,
            forall|j: int|
                0 <= j < k ==> (#[trigger] rows@[j])@ == row_text(e, (b * BATCH + j) as nat),
    {
        rows.push(write_row(e, b * 100 + k));
    }
    proof {
        assert(texts(rows@) =~= Seq::new(
            BATCH as nat,
            |k: int| row_text(e, (b * BATCH + k) as nat),
        ));
    }
    let list = join_all(&rows, ", ");
    match e {
        Engine::Quanty => join3("put bench ", list.as_str(), "\n"),
        Engine::Sqlite => join3(
            "insert into bench (id, name, score) values ",
            list.as_str(),
            ";\n",
        ),
    }
}

/// Write the insert workload: the table, then the rows in batches.
pub fn insert(e: Engine, mode: Mode) -> (r: String)
    ensures
        r@ == insert_text(e, mode),
{
    let mut out = match e {
        Engine::Quanty => owned("table bench { id: int @key, name: text @index, score: int }\n"),
        Engine::Sqlite => owned(
            "create table bench (id integer primary key, name text not null, score integer not null);\ncreate index bench_name on bench (name);\n",
        ),
    };
    if mode == Mode::Bulk {
        match e {
            Engine::Quanty => out.append("begin\n"),
            Engine::Sqlite => out.append("begin;\n"),
        }
    }
    let ghost head = out@;
    proof {
        assert(out@ =~= head + batches_text(e, 0));
    }
    for b in 0..50u32
        invariant
            out@ == head + batches_text(e, b as nat),
    {
        out.append(write_batch(e, b).as_str());
        proof {
            assert(out@ =~= head + batches_text(e, (b + 1) as nat));
        }
    }
    if mode == Mode::Bulk {
        match e {
            Engine::Quanty => out.append("commit\n"),
            Engine::Sqlite => out.append("commit;\n"),
        }
    }
    out
}

/// Which read a script repeats.
#[derive(Clone, Copy, Debug, PartialEq, Eq, Structural)]
pub enum Read {
    Lookup,
    Scan,
    Indexed,
}

/// One read.
pub open spec fn read_line(e: Engine, what: Read, n: nat) -> Seq<char> {
    match (e, what) {
        (Engine::Quanty, Read::Lookup) => "get bench { name, score } where id = "@ + decimal(
            key_at(n),
        ) + "\n"@,
        (Engine::Sqlite, Read::Lookup) => "select name, score from bench where id = "@ + decimal(
            key_at(n),
        ) + ";\n"@,
        (Engine::Quanty, Read::Scan) => "get bench { id, name, score }\n"@,
        (Engine::Sqlite, Read::Scan) => "select id, name, score from bench;\n"@,
        (Engine::Quanty, Read::Indexed) => "get bench { id, score } where name = \""@ + name_at(
            key_at(n),
        ) + "\"\n"@,
        (Engine::Sqlite, Read::Indexed) => "select id, score from bench where name = '"@ + name_at(
            key_at(n),
        ) + "';\n"@,
    }
}

pub open spec fn reads_text(e: Engine, what: Read, n: nat) -> Seq<char>
    decreases n,
{
    if n == 0 {
        Seq::empty()
    } else {
        reads_text(e, what, (n - 1) as nat) + read_line(e, what, (n - 1) as nat)
    }
}

/// How many reads a script holds.
pub open spec fn reads_of(what: Read) -> nat {
    match what {
        Read::Scan => SCANS as nat,
        _ => LOOKUPS as nat,
    }
}

fn write_read(e: Engine, what: Read, n: u32) -> (r: String)
    ensures
        r@ == read_line(e, what, n as nat),
{
    let key: u32 = lookup_key(n);
    match (e, what) {
        (Engine::Quanty, Read::Lookup) => join3(
            "get bench { name, score } where id = ",
            u64_text(key as u64).as_str(),
            "\n",
        ),
        (Engine::Sqlite, Read::Lookup) => join3(
            "select name, score from bench where id = ",
            u64_text(key as u64).as_str(),
            ";\n",
        ),
        (Engine::Quanty, Read::Scan) => owned("get bench { id, name, score }\n"),
        (Engine::Sqlite, Read::Scan) => owned("select id, name, score from bench;\n"),
        (Engine::Quanty, Read::Indexed) => join3(
            "get bench { id, score } where name = \"",
            name_of(key).as_str(),
            "\"\n",
        ),
        (Engine::Sqlite, Read::Indexed) => join3(
            "select id, score from bench where name = '",
            name_of(key).as_str(),
            "';\n",
        ),
    }
}

/// Write a read workload. It runs against a database prepared beforehand,
/// so it holds nothing but the reads.
pub fn reads(e: Engine, what: Read) -> (r: String)
    ensures
        r@ == reads_text(e, what, reads_of(what)),
{
    let mut out = String::new();
    let times: u32 = match what {
        Read::Scan => 20,
        _ => 5_000,
    };
    proof {
        assert(out@ =~= reads_text(e, what, 0));
    }
    for n in 0..times
        invariant
            out@ == reads_text(e, what, n as nat),
    {
        out.append(write_read(e, what, n).as_str());
        proof {
            assert(out@ =~= reads_text(e, what, (n + 1) as nat));
        }
    }
    out
}

/// What a workload does.
#[derive(Clone, Copy, Debug, PartialEq, Eq, Structural)]
pub enum Work {
    /// Open a database and do nothing: the floor under every read.
    Nothing,
    /// Timed from an empty database: what writing costs.
    Write(Mode),
    /// Timed against a database prepared beforehand and not timed, so the
    /// reading is what shows rather than the loading that preceded it.
    Read(Read),
}

impl Work {
    /// Whether it is timed as writing, and how, or as reading.
    pub fn label(self) -> (r: &'static str)
        ensures
            r@ == (match self {
                Work::Write(Mode::Durable) => "durable"@,
                Work::Write(Mode::Bulk) => "bulk"@,
                _ => "read"@,
            }),
    {
        match self {
            Work::Write(mode) => mode.label(),
            _ => "read",
        }
    }

    /// The script that does it.
    pub fn script(self, e: Engine) -> (r: String)
        ensures
            r@ == (match self {
                Work::Nothing => Seq::<char>::empty(),
                Work::Write(mode) => insert_text(e, mode),
                Work::Read(what) => reads_text(e, what, reads_of(what)),
            }),
    {
        match self {
            Work::Nothing => String::new(),
            Work::Write(mode) => insert(e, mode),
            Work::Read(what) => reads(e, what),
        }
    }
}

/// One line of the report.
pub struct Workload {
    pub name: String,
    /// What it does, for the table the report prints. Built from the
    /// constants above rather than written out, because a label that says
    /// 50000 while the run does 5000 is how a benchmark starts lying
    /// without anybody deciding to.
    pub what: String,
    pub work: Work,
}

pub struct WorkloadV {
    pub name: Seq<char>,
    pub what: Seq<char>,
    pub work: Work,
}

impl View for Workload {
    type V = WorkloadV;

    open spec fn view(&self) -> WorkloadV {
        WorkloadV { name: self.name@, what: self.what@, work: self.work }
    }
}

/// Every workload, in the order they are run.
pub open spec fn all_workloads() -> Seq<WorkloadV> {
    let rows = decimal(ROWS as nat);
    let batches = rows + " rows in batches of "@ + decimal(BATCH as nat);
    let lookups = decimal(LOOKUPS as nat);
    seq![
        WorkloadV {
            name: "startup"@,
            what: "open a database and do nothing"@,
            work: Work::Nothing,
        },
        WorkloadV {
            name: "insert"@,
            what: batches + ", one commit each"@,
            work: Work::Write(Mode::Durable),
        },
        WorkloadV {
            name: "insert"@,
            what: batches + ", one transaction"@,
            work: Work::Write(Mode::Bulk),
        },
        WorkloadV {
            name: "lookup"@,
            what: lookups + " lookups by key"@,
            work: Work::Read(Read::Lookup),
        },
        WorkloadV {
            name: "scan"@,
            what: decimal(SCANS as nat) + " full scans of "@ + rows + " rows"@,
            work: Work::Read(Read::Scan),
        },
        WorkloadV {
            name: "indexed"@,
            what: lookups + " lookups through a secondary index"@,
            work: Work::Read(Read::Indexed),
        },
    ]
}

fn workload(name: &str, what: String, work: Work) -> (r: Workload)
    ensures
        r@ == (WorkloadV { name: name@, what: what@, work }),
{
    Workload { name: owned(name), what, work }
}

/// Every workload, in the order they are run.
pub fn workloads() -> (r: Vec<Workload>)
    ensures
        r@.len() == all_workloads().len(),
        forall|i: int| 0 <= i < r@.len() ==> (#[trigger] r@[i])@ == all_workloads()[i],
{
    let rows = u64_text(ROWS as u64);
    let lookups = u64_text(LOOKUPS as u64);
    let batches = join3(
        rows.as_str(),
        " rows in batches of ",
        u64_text(BATCH as u64).as_str(),
    );
    let scans = join3(u64_text(SCANS as u64).as_str(), " full scans of ", rows.as_str());
    let mut out: Vec<Workload> = Vec::new();
    out.push(workload("startup", owned("open a database and do nothing"), Work::Nothing));
    out.push(
        workload(
            "insert",
            join2(batches.as_str(), ", one commit each"),
            Work::Write(Mode::Durable),
        ),
    );
    out.push(
        workload(
            "insert",
            join2(batches.as_str(), ", one transaction"),
            Work::Write(Mode::Bulk),
        ),
    );
    out.push(
        workload("lookup", join2(lookups.as_str(), " lookups by key"), Work::Read(Read::Lookup)),
    );
    out.push(workload("scan", join2(scans.as_str(), " rows"), Work::Read(Read::Scan)));
    out.push(
        workload(
            "indexed",
            join2(lookups.as_str(), " lookups through a secondary index"),
            Work::Read(Read::Indexed),
        ),
    );
    out
}

// ---------------------------------------------------------------------
// the figure that is reported
// ---------------------------------------------------------------------

/// Ascending.
pub open spec fn ascending(s: Seq<u64>) -> bool {
    forall|i: int, j: int| 0 <= i < j < s.len() ==> s[i] <= s[j]
}

/// The element in the middle once a list is sorted.
pub open spec fn is_median(s: Seq<u64>, m: u64) -> bool {
    exists|t: Seq<u64>| #[trigger]
        t.to_multiset() == s.to_multiset() && ascending(t) && t.len() == s.len() && m
            == t[s.len() as int / 2]
}

/// The median of some times.
pub fn median(times: &Vec<u64>) -> (r: u64)
    requires
        times@.len() > 0,
    ensures
        is_median(times@, r),
{
    let mut sorted: Vec<u64> = Vec::new();
    let len: usize = times.len();
    proof {
        assert(sorted@ =~= times@.take(0));
    }
    for i in 0..len
        invariant
            len == times@.len(),
            sorted@.len() == i,
            ascending(sorted@),
            sorted@.to_multiset() == times@.take(i as int).to_multiset(),
    {
        let t: u64 = times[i];
        let mut at: usize = i;
        while at > 0 && sorted[at - 1] > t
            invariant
                at <= i,
                sorted@.len() == i,
                ascending(sorted@),
                forall|k: int| at <= k < i ==> #[trigger] sorted@[k] > t,
            decreases at,
        {
            at = at - 1;
        }
        let ghost had = sorted@;
        sorted.insert(at, t);
        proof {
            broadcast use vstd::seq_lib::group_to_multiset_ensures;

            assert(sorted@ == had.insert(at as int, t));
            assert(times@.take(i + 1) =~= times@.take(i as int).push(t));
            assert(sorted@ =~= had.take(at as int).push(t) + had.skip(at as int));
            vstd::seq_lib::lemma_multiset_commutative(had.take(at as int), had.skip(at as int));
            vstd::seq_lib::lemma_multiset_commutative(
                had.take(at as int).push(t),
                had.skip(at as int),
            );
            assert(had =~= had.take(at as int) + had.skip(at as int));
            assert(sorted@.to_multiset() =~= had.to_multiset().insert(t));
        }
    }
    proof {
        assert(times@.take(len as int) =~= times@);
    }
    sorted[len / 2]
}

// ---------------------------------------------------------------------
// the load generator
// ---------------------------------------------------------------------

/// What a load run is asked to do.
pub struct Options {
    pub addr: String,
    pub idle: u64,
    pub active: u64,
    pub qps: u64,
    pub seconds: u64,
    /// What the active connections send. `{n}` becomes a number unique to
    /// each request, so a write load does not fight over one key.
    pub statement: String,
    /// One write in every so many requests, the rest reads. Zero means the
    /// statement above is sent unchanged every time.
    pub write_every: u64,
}

pub struct OptionsV {
    pub addr: Seq<char>,
    pub idle: u64,
    pub active: u64,
    pub qps: u64,
    pub seconds: u64,
    pub statement: Seq<char>,
    pub write_every: u64,
}

impl View for Options {
    type V = OptionsV;

    open spec fn view(&self) -> OptionsV {
        OptionsV {
            addr: self.addr@,
            idle: self.idle,
            active: self.active,
            qps: self.qps,
            seconds: self.seconds,
            statement: self.statement@,
            write_every: self.write_every,
        }
    }
}

/// What a load run does unless it is told otherwise.
pub open spec fn defaults() -> OptionsV {
    OptionsV {
        addr: "127.0.0.1:7878"@,
        idle: 10_000,
        active: 32,
        qps: 1000,
        seconds: 1800,
        statement: "get t"@,
        write_every: 0,
    }
}

/// The number a text says, where it fits.
pub open spec fn fits(s: Seq<char>) -> Option<u64> {
    match number(s) {
        Some(n) if n <= u64::MAX => Some(n as u64),
        _ => None,
    }
}

/// The seconds of a duration: a number and one of the units s, m and h.
pub open spec fn seconds_of(raw: Seq<char>) -> core::result::Result<u64, Seq<char>> {
    let scale = if raw.len() == 0 {
        0int
    } else if raw.last() == 's' {
        1
    } else if raw.last() == 'm' {
        60
    } else if raw.last() == 'h' {
        3600
    } else {
        0
    };
    if scale == 0 {
        Err("duration wants a unit, got "@ + raw)
    } else {
        match fits(raw.drop_last()) {
            Some(n) if n * scale <= u64::MAX => Ok((n * scale) as u64),
            _ => Err("bad duration "@ + raw),
        }
    }
}

pub fn parse_duration(raw: &str) -> (r: core::result::Result<u64, String>)
    ensures
        match r {
            Ok(n) => seconds_of(raw@) == Ok::<u64, Seq<char>>(n),
            Err(e) => seconds_of(raw@) == Err::<u64, Seq<char>>(e@),
        },
{
    let mut chars = chars_of(raw);
    let unit: char = match chars.pop() {
        Some(c) => c,
        None => return Err(join2("duration wants a unit, got ", raw)),
    };
    let scale: u64 = if unit == 's' {
        1
    } else if unit == 'm' {
        60
    } else if unit == 'h' {
        3600
    } else {
        return Err(join2("duration wants a unit, got ", raw));
    };
    match parse_u64(chars.as_slice()) {
        Some(n) => match n.checked_mul(scale) {
            Some(t) => Ok(t),
            None => Err(join2("bad duration ", raw)),
        },
        None => Err(join2("bad duration ", raw)),
    }
}

/// What a load command line asks for: a run, the help text, or an error.
pub enum AskedV {
    Load(OptionsV),
    Help,
    Wrong(Seq<char>),
}

/// Whether a flag takes the next argument as its value.
pub open spec fn takes_value(flag: Seq<char>) -> bool {
    ||| flag == "--addr"@
    ||| flag == "--connections"@
    ||| flag == "--active"@
    ||| flag == "--qps"@
    ||| flag == "--statement"@
    ||| flag == "--write-every"@
    ||| flag == "--duration"@
}

/// The options once a flag got its value.
pub open spec fn with_value(o: OptionsV, flag: Seq<char>, value: Seq<char>) -> core::result::Result<
    OptionsV,
    Seq<char>,
> {
    if flag == "--addr"@ {
        Ok(OptionsV { addr: value, ..o })
    } else if flag == "--statement"@ {
        Ok(OptionsV { statement: value, ..o })
    } else if flag == "--duration"@ {
        match seconds_of(value) {
            Ok(seconds) => Ok(OptionsV { seconds, ..o }),
            Err(e) => Err(e),
        }
    } else if flag == "--connections"@ {
        match fits(value) {
            Some(idle) => Ok(OptionsV { idle, ..o }),
            None => Err("bad --connections"@),
        }
    } else if flag == "--active"@ {
        match fits(value) {
            Some(active) => Ok(OptionsV { active, ..o }),
            None => Err("bad --active"@),
        }
    } else if flag == "--qps"@ {
        match fits(value) {
            Some(qps) => Ok(OptionsV { qps, ..o }),
            None => Err("bad --qps"@),
        }
    } else {
        match fits(value) {
            Some(write_every) => Ok(OptionsV { write_every, ..o }),
            None => Err("bad --write-every"@),
        }
    }
}

/// Reading arguments on from number `i`.
pub open spec fn options_from(args: Seq<Seq<char>>, i: int, o: OptionsV) -> AskedV
    decreases
            (if i >= args.len() {
                0
            } else {
                args.len() - i
            }),
{
    if i < 0 || i >= args.len() {
        AskedV::Load(o)
    } else if takes_value(args[i]) {
        if i + 1 >= args.len() {
            AskedV::Wrong(args[i] + " wants a value"@)
        } else {
            match with_value(o, args[i], args[i + 1]) {
                Ok(p) => options_from(args, i + 2, p),
                Err(e) => AskedV::Wrong(e),
            }
        }
    } else if args[i] == "--writes"@ {
        options_from(args, i + 1, OptionsV { statement: "put t { id: {n}, n: {n} }"@, ..o })
    } else if args[i] == "--mixed"@ {
        options_from(args, i + 1, OptionsV { write_every: 10, ..o })
    } else if args[i] == "--help"@ {
        AskedV::Help
    } else {
        AskedV::Wrong("unknown flag "@ + args[i])
    }
}

/// What a load command line asks for.
pub enum Asked {
    Load(Options),
    Help,
}

fn wants_value(flag: &str) -> (r: bool)
    ensures
        r == takes_value(flag@),
{
    same_text(flag, "--addr") || same_text(flag, "--connections") || same_text(flag, "--active")
        || same_text(flag, "--qps") || same_text(flag, "--statement") || same_text(
        flag,
        "--write-every",
    ) || same_text(flag, "--duration")
}

fn set_value(options: Options, flag: &str, value: &str) -> (r: core::result::Result<
    Options,
    String,
>)
    ensures
        match r {
            Ok(o) => with_value(options@, flag@, value@) == Ok::<OptionsV, Seq<char>>(o@),
            Err(e) => with_value(options@, flag@, value@) == Err::<OptionsV, Seq<char>>(e@),
        },
{
    let mut o = options;
    if same_text(flag, "--addr") {
        o.addr = owned(value);
        return Ok(o);
    }
    if same_text(flag, "--statement") {
        o.statement = owned(value);
        return Ok(o);
    }
    if same_text(flag, "--duration") {
        o.seconds = match parse_duration(value) {
            Ok(n) => n,
            Err(e) => return Err(e),
        };
        return Ok(o);
    }
    let n: Option<u64> = parse_u64(chars_of(value).as_slice());
    if same_text(flag, "--connections") {
        o.idle = match n {
            Some(n) => n,
            None => return Err(owned("bad --connections")),
        };
    } else if same_text(flag, "--active") {
        o.active = match n {
            Some(n) => n,
            None => return Err(owned("bad --active")),
        };
    } else if same_text(flag, "--qps") {
        o.qps = match n {
            Some(n) => n,
            None => return Err(owned("bad --qps")),
        };
    } else {
        o.write_every = match n {
            Some(n) => n,
            None => return Err(owned("bad --write-every")),
        };
    }
    Ok(o)
}

/// Read a load command line.
pub fn parse(args: &Vec<String>) -> (r: core::result::Result<Asked, String>)
    ensures
        match options_from(texts(args@), 0, defaults()) {
            AskedV::Load(o) => r matches Ok(Asked::Load(p)) && p@ == o,
            AskedV::Help => r matches Ok(Asked::Help),
            AskedV::Wrong(m) => r matches Err(e) && e@ == m,
        },
{
    let mut o = Options {
        addr: owned("127.0.0.1:7878"),
        idle: 10_000,
        active: 32,
        qps: 1000,
        seconds: 1800,
        statement: owned("get t"),
        write_every: 0,
    };
    let ghost v = texts(args@);
    let ghost whole = options_from(v, 0, defaults());
    let len: usize = args.len();
    let mut i: usize = 0;
    proof {
        assert(o@ == defaults());
    }
    while i < len
        invariant
            i <= len == args@.len(),
            v == texts(args@),
            v.len() == len,
            whole == options_from(v, 0, defaults()),
            whole == options_from(v, i as int, o@),
        decreases len - i,
    {
        let flag = args[i].as_str();
        proof {
            assert(v[i as int] == flag@);
        }
        if wants_value(flag) {
            if i + 1 >= len {
                return Err(join2(flag, " wants a value"));
            }
            proof {
                assert(v[i + 1] == args@[i + 1]@);
            }
            o = match set_value(o, flag, args[i + 1].as_str()) {
                Ok(o) => o,
                Err(e) => return Err(e),
            };
            i = i + 2;
        } else if same_text(flag, "--writes") {
            o.statement = owned("put t { id: {n}, n: {n} }");
            i = i + 1;
        } else if same_text(flag, "--mixed") {
            o.write_every = 10;
            i = i + 1;
        } else if same_text(flag, "--help") {
            return Ok(Asked::Help);
        } else {
            return Err(join2("unknown flag ", flag));
        }
    }
    Ok(Asked::Load(o))
}

/// The gap between one connection's requests, in nanoseconds, out of the
/// total rate rather than a rate per connection, which would truncate.
pub open spec fn gap(active: u64, qps: u64) -> int {
    let a = if active == 0 {
        1int
    } else {
        active as int
    };
    let q = if qps == 0 {
        1int
    } else {
        qps as int
    };
    let total = if 1_000_000_000 * a > u64::MAX {
        u64::MAX as int
    } else {
        1_000_000_000 * a
    };
    total / q
}

pub fn gap_nanos(active: u64, qps: u64) -> (r: u64)
    ensures
        r == gap(active, qps),
{
    let a: u64 = if active == 0 {
        1
    } else {
        active
    };
    let q: u64 = if qps == 0 {
        1
    } else {
        qps
    };
    let total: u64 = match a.checked_mul(1_000_000_000) {
        Some(t) => t,
        None => u64::MAX,
    };
    total / q
}

/// A template with a number in place of every `{n}`.
pub open spec fn filled(s: Seq<char>, i: int, n: Seq<char>) -> Seq<char>
    decreases
            (if i >= s.len() {
                0
            } else {
                s.len() - i
            }),
{
    if i < 0 || i >= s.len() {
        Seq::empty()
    } else if i + 2 < s.len() && s[i] == '{' && s[i + 1] == 'n' && s[i + 2] == '}' {
        n + filled(s, i + 3, n)
    } else {
        seq![s[i]] + filled(s, i + 1, n)
    }
}

/// What request number `serial` sends, where `unique` is its own number.
pub open spec fn request_text(
    template: Seq<char>,
    write_every: u64,
    serial: u64,
    unique: u64,
) -> Seq<char> {
    if write_every > 0 {
        if serial % write_every == 0 {
            "put t { id: "@ + decimal(unique as nat) + (", n: "@ + decimal(unique as nat) + " }"@)
        } else {
            "get t where id = 1"@
        }
    } else {
        filled(template, 0, decimal(unique as nat))
    }
}

fn fill(template: &str, n: &str) -> (r: String)
    ensures
        r@ == filled(template@, 0, n@),
{
    let s = chars_of(template);
    let len: usize = s.len();
    let mut out = String::new();
    let mut i: usize = 0;
    proof {
        assert(out@ + filled(s@, 0, n@) =~= filled(template@, 0, n@));
    }
    while i < len
        invariant
            i <= len == s@.len(),
            s@ == template@,
            out@ + filled(s@, i as int, n@) == filled(template@, 0, n@),
        decreases len - i,
    {
        let ghost had = out@;
        if len - i > 2 && s[i] == '{' && s[i + 1] == 'n' && s[i + 2] == '}' {
            out.append(n);
            proof {
                assert(out@ + filled(s@, i + 3, n@) =~= had + (n@ + filled(s@, i + 3, n@)));
            }
            i = i + 3;
        } else {
            out.push(s[i]);
            proof {
                assert(out@ + filled(s@, i + 1, n@) =~= had + (seq![s@[i as int]] + filled(
                    s@,
                    i + 1,
                    n@,
                )));
            }
            i = i + 1;
        }
    }
    proof {
        assert(filled(s@, len as int, n@) =~= Seq::empty());
        assert(out@ =~= filled(template@, 0, n@));
    }
    out
}

/// What a connection sends next.
pub fn request(template: &str, write_every: u64, serial: u64, unique: u64) -> (r: String)
    ensures
        r@ == request_text(template@, write_every, serial, unique),
{
    let n = u64_text(unique);
    if write_every > 0 {
        if serial % write_every == 0 {
            let tail = join3(", n: ", n.as_str(), " }");
            join3("put t { id: ", n.as_str(), tail.as_str())
        } else {
            owned("get t where id = 1")
        }
    } else {
        fill(template, n.as_str())
    }
}

/// How the mix is named in the record: a rate means nothing without
/// knowing what was being run at it.
pub fn mix(write_every: u64) -> (r: String)
    ensures
        r@ == (if write_every > 0 {
            "1-write-in-"@ + decimal(write_every as nat)
        } else {
            "single-statement"@
        }),
{
    if write_every > 0 {
        join2("1-write-in-", u64_text(write_every).as_str())
    } else {
        owned("single-statement")
    }
}

} // verus!
