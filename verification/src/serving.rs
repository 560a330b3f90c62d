//! What a server decides before and while it serves: where it listens, how
//! many workers it has, what it says when it starts, and the line it prints
//! about its traffic.

use vstd::prelude::*;

use crate::cli::{Failure, Flags};
use crate::strings::{decimal, join2, join3, join_all, joined, owned, texts, u64_text};
use crate::tokens::{Tokens, TokensError};

verus! {

/// Where a server listens: loopback unless it is told otherwise, because no
/// token file means no authentication.
pub fn address(flags: &Flags) -> (r: String)
    ensures
        r@ == (match flags@.listen {
            Some(at) => at,
            None => "127.0.0.1:7878"@,
        }),
{
    match &flags.listen {
        Some(at) => owned(at.as_str()),
        None => owned("127.0.0.1:7878"),
    }
}

/// How many workers a server has: as many as it is told, or one per core
/// where the machine says how many it has, or one.
pub fn worker_count(flags: &Flags, cores: Option<usize>) -> (r: usize)
    ensures
        r == (match (flags@.workers, cores) {
            (Some(n), _) => n,
            (None, Some(n)) => n,
            (None, None) => 1,
        }),
{
    match flags.workers {
        Some(n) => n,
        None => match cores {
            Some(n) => n,
            None => 1,
        },
    }
}

/// The token file a server holds its clients to.
pub struct Guard {
    /// How many tokens are in force.
    pub count: usize,
    pub path: String,
    /// Whether others can read the file.
    pub permissive: bool,
}

/// The tokens a server holds its clients to, given its token file as it was
/// read; none without a token file. A file that cannot be used is named.
pub fn guard_of(
    path: Option<&str>,
    loaded: Option<core::result::Result<Tokens, TokensError>>,
) -> (r: core::result::Result<Option<Tokens>, Failure>)
    ensures
        match loaded {
            None => r == Ok::<Option<Tokens>, Failure>(None),
            Some(Ok(t)) => r == Ok::<Option<Tokens>, Failure>(Some(t)),
            Some(Err(e)) => r matches Err(Failure::Failed(m)) && m@ == "token file "@ + (match path {
                Some(p) => p@,
                None => ""@,
            }) + (": "@ + e.text()),
        },
{
    match loaded {
        None => Ok(None),
        Some(Ok(t)) => Ok(Some(t)),
        Some(Err(e)) => {
            let name = match path {
                Some(p) => p,
                None => "",
            };
            Err(
                Failure::Failed(
                    join3("token file ", name, join2(": ", e.message().as_str()).as_str()),
                ),
            )
        },
    }
}

/// What a server says of its token file.
pub open spec fn guard_lines(guard: Option<Guard>) -> Seq<Seq<char>> {
    match guard {
        Some(g) => {
            let first = "requiring a token, "@ + decimal(g.count as nat) + " in force from "@
                + g.path@;
            if g.permissive {
                seq![first, "note: the token file is readable by others; chmod 600 it"@]
            } else {
                seq![first]
            }
        },
        None => seq!["no authentication required; keep this on loopback"@],
    }
}

/// What a server says of its token file.
pub fn opening(guard: &Option<Guard>) -> (r: Vec<String>)
    ensures
        texts(r@) == guard_lines(*guard),
{
    let mut out: Vec<String> = Vec::new();
    match guard {
        Some(g) => {
            let head = join3(
                "requiring a token, ",
                u64_text(g.count as u64).as_str(),
                " in force from ",
            );
            out.push(join2(head.as_str(), g.path.as_str()));
            if g.permissive {
                out.push(owned("note: the token file is readable by others; chmod 600 it"));
            }
        },
        None => out.push(owned("no authentication required; keep this on loopback")),
    }
    proof {
        assert(texts(out@) =~= guard_lines(*guard));
    }
    out
}

/// What a server says once its workers are up.
pub fn started(bound: &str, workers: usize, database: &str) -> (r: Vec<String>)
    ensures
        texts(r@) == seq![
            "listening on "@ + bound@ + ", "@ + decimal(workers as nat) + " workers"@,
            "serving "@ + database@,
        ],
{
    let mut out: Vec<String> = Vec::new();
    let head = join3("listening on ", bound, ", ");
    out.push(join3(head.as_str(), u64_text(workers as u64).as_str(), " workers"));
    out.push(join2("serving ", database));
    proof {
        assert(texts(out@) =~= seq![
            "listening on "@ + bound@ + ", "@ + decimal(workers as nat) + " workers"@,
            "serving "@ + database@,
        ]);
    }
    out
}

/// All the numbers together.
pub open spec fn sum(s: Seq<usize>) -> nat
    decreases s.len(),
{
    if s.len() == 0 {
        0
    } else {
        sum(s.drop_last()) + s.last() as nat
    }
}

/// The connections of a server.
pub struct Traffic {
    /// How many connections each worker holds.
    pub live: Vec<usize>,
    /// How many connections were accepted since the start.
    pub accepted: usize,
}

/// Numbers as a list: in brackets, with commas between them.
pub open spec fn list_text(s: Seq<usize>) -> Seq<char> {
    "["@ + joined(Seq::new(s.len(), |i: int| decimal(s[i] as nat)), ", "@) + "]"@
}

impl Traffic {
    /// The traffic of a server that has just started.
    pub fn new(workers: usize) -> (r: Traffic)
        ensures
            r.live@ == Seq::new(workers as nat, |i: int| 0usize),
            r.accepted == 0,
    {
        let mut live: Vec<usize> = Vec::new();
        for i in 0..workers
            invariant
                live@ == Seq::new(i as nat, |k: int| 0usize),
        {
            live.push(0);
            proof {
                assert(live@ =~= Seq::new(i as nat + 1, |k: int| 0usize));
            }
        }
        Traffic { live, accepted: 0 }
    }

    /// Note what one turn of a worker did: how many connections it took on,
    /// and how many it holds now. The count of connections taken on starts
    /// over when it runs out of numbers.
    pub fn turn(&mut self, id: usize, accepted: usize, held: usize)
        requires
            id < old(self).live@.len(),
        ensures
            final(self).live@ == old(self).live@.update(id as int, held),
            final(self).accepted == (old(self).accepted + accepted) % (usize::MAX + 1),
    {
        self.accepted = self.accepted.wrapping_add(accepted);
        self.live.set(id, held);
    }

    /// The line a server prints about its connections every few seconds. The
    /// count of connections held starts over when it runs out of numbers.
    #[verifier::spinoff_prover]
    #[verifier::rlimit(40)]
    pub fn line(&self) -> (r: String)
        ensures
            r@ == "held="@ + decimal(sum(self.live@) % (usize::MAX + 1) as nat) + " accepted="@ + decimal(
                self.accepted as nat,
            ) + " spread="@ + list_text(self.live@),
    {
        let len: usize = self.live.len();
        let mut held: usize = 0;
        let mut parts: Vec<String> = Vec::new();
        let ghost all = self.live@;
        proof {
            assert(all.take(len as int) =~= all);
            assert(all.take(0).len() == 0);
            assert(sum(all.take(0)) == 0);
            assert(0nat % (usize::MAX + 1) as nat == 0);
        }
        for i in 0..len
            invariant
                len == self.live@.len(),
                all == self.live@,
                all.take(len as int) == all,
                held == sum(all.take(i as int)) % (usize::MAX + 1) as nat,
                parts@.len() == i,
                forall|k: int| 0 <= k < i ==> (#[trigger] parts@[k])@ == decimal(all[k] as nat),
        {
            proof {
                let now = all.take(i as int + 1);
                assert(now.drop_last() =~= all.take(i as int));
                lemma_wraps(sum(all.take(i as int)), all[i as int]);
            }
            held = held.wrapping_add(self.live[i]);
            parts.push(u64_text(self.live[i] as u64));
        }
        proof {
            assert(texts(parts@) =~= Seq::new(all.len(), |i: int| decimal(all[i] as nat)));
        }
        let list = join3("[", join_all(&parts, ", ").as_str(), "]");
        let head = join3("held=", u64_text(held as u64).as_str(), " accepted=");
        let count = join3(head.as_str(), u64_text(self.accepted as u64).as_str(), " spread=");
        join2(count.as_str(), list.as_str())
    }
}

/// Adding to a count that started over is adding to the whole of it.
proof fn lemma_wraps(x: nat, y: usize)
    ensures
        (x % (usize::MAX + 1) as nat + y) % (usize::MAX + 1) as int == (x + y) % (usize::MAX
            + 1) as int,
{
    vstd::arithmetic::div_mod::lemma_add_mod_noop(x as int, y as int, usize::MAX + 1);
    vstd::arithmetic::div_mod::lemma_add_mod_noop(
        x as int % (usize::MAX + 1),
        y as int,
        usize::MAX + 1,
    );
    vstd::arithmetic::div_mod::lemma_mod_twice(x as int, usize::MAX + 1);
}

/// Whether a server is done: all of its workers are.
pub fn all_done(finished: &[bool]) -> (r: bool)
    ensures
        r == forall|i: int| 0 <= i < finished@.len() ==> #[trigger] finished@[i],
{
    let len: usize = finished.len();
    for i in 0..len
        invariant
            len == finished@.len(),
            forall|k: int| 0 <= k < i ==> #[trigger] finished@[k],
    {
        if !finished[i] {
            return false;
        }
    }
    true
}

} // verus!
