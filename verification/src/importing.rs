//! What an import decides once its plan is made: what is printed, and
//! whether anything is written.

use vstd::prelude::*;

use crate::strings::{chars_of, decimal, join2, join3, owned, text_of_chars, texts, u64_text};
use crate::words::{before_white, is_white};

verus! {

/// What a plan says of itself.
pub struct Plan {
    pub report: String,
    pub tables: usize,
    pub rows: u64,
    pub problems: usize,
    pub runnable: bool,
}

/// What comes after a plan.
#[derive(Debug, PartialEq, Eq)]
pub enum Next {
    /// Nothing is written, and this is why.
    Refuse(String),
    /// Nothing is written, as was asked, and this is said.
    Stop(String),
    /// The plan is carried out.
    Write,
}

pub enum NextV {
    Refuse(Seq<char>),
    Stop(Seq<char>),
    Write,
}

impl View for Next {
    type V = NextV;

    open spec fn view(&self) -> NextV {
        match self {
            Next::Refuse(s) => NextV::Refuse(s@),
            Next::Stop(s) => NextV::Stop(s@),
            Next::Write => NextV::Write,
        }
    }
}

/// A text without the white space at its end.
pub open spec fn end_trimmed(s: Seq<char>) -> Seq<char> {
    s.take(before_white(s, s.len() as int))
}

/// A text without the white space at its end.
pub fn trim_end(s: &str) -> (r: String)
    ensures
        r@ == end_trimmed(s@),
{
    let chars = chars_of(s);
    let len: usize = chars.len();
    let mut end: usize = len;
    while end > 0 && is_white(chars[end - 1])
        invariant
            end <= len == chars@.len(),
            chars@ == s@,
            before_white(s@, len as int) == before_white(s@, end as int),
        decreases end,
    {
        end = end - 1;
    }
    let mut out: Vec<char> = Vec::new();
    for i in 0..end
        invariant
            end <= chars@.len(),
            chars@ == s@,
            out@ == s@.take(i as int),
    {
        out.push(chars[i]);
        proof {
            assert(out@ =~= s@.take(i as int + 1));
        }
    }
    text_of_chars(out.as_slice())
}

/// What is printed of a plan: its own report, then how much there is.
pub fn plan_lines(plan: &Plan) -> (r: Vec<String>)
    ensures
        texts(r@) == seq![
            end_trimmed(plan.report@),
            "\n"@ + decimal(plan.tables as nat) + " tables, "@ + decimal(plan.rows as nat)
                + " rows"@,
        ],
{
    let mut out: Vec<String> = Vec::new();
    out.push(trim_end(plan.report.as_str()));
    let head = join3("\n", u64_text(plan.tables as u64).as_str(), " tables, ");
    out.push(join3(head.as_str(), u64_text(plan.rows).as_str(), " rows"));
    proof {
        assert(texts(out@) =~= seq![
            end_trimmed(plan.report@),
            "\n"@ + decimal(plan.tables as nat) + " tables, "@ + decimal(plan.rows as nat)
                + " rows"@,
        ]);
    }
    out
}

/// Whether a plan is carried out. One with problems is not, a dry run is
/// not, and a target that already exists is not overwritten: an import that
/// silently replaced a database would be a mistake that cannot be undone.
pub fn after_plan(plan: &Plan, dry_run: bool, exists: bool, target: &str) -> (r: Next)
    ensures
        r@ == (if !plan.runnable {
            NextV::Refuse(decimal(plan.problems as nat) + " problem(s), nothing was written"@)
        } else if dry_run {
            NextV::Stop("\ndry run, nothing was written"@)
        } else if exists {
            NextV::Refuse(target@ + " already exists; delete it or pick another name"@)
        } else {
            NextV::Write
        }),
{
    if !plan.runnable {
        return Next::Refuse(
            join2(u64_text(plan.problems as u64).as_str(), " problem(s), nothing was written"),
        );
    }
    if dry_run {
        return Next::Stop(owned("\ndry run, nothing was written"));
    }
    if exists {
        return Next::Refuse(join2(target, " already exists; delete it or pick another name"));
    }
    Next::Write
}

/// What is said of an import that failed while it was writing.
pub fn left_incomplete(error: &str, target: &str) -> (r: String)
    ensures
        r@ == error@ + "\n\n"@ + target@ + " is incomplete and should be deleted"@,
{
    join2(join3(error, "\n\n", target).as_str(), " is incomplete and should be deleted")
}

/// What is said of an import that worked.
pub fn imported(rows: u64, tables: usize, target: &str) -> (r: String)
    ensures
        r@ == "\nimported "@ + decimal(rows as nat) + " rows into "@ + decimal(tables as nat)
            + " tables in "@ + target@,
{
    let head = join3("\nimported ", u64_text(rows).as_str(), " rows into ");
    let count = join3(head.as_str(), u64_text(tables as u64).as_str(), " tables in ");
    join2(count.as_str(), target)
}

} // verus!
