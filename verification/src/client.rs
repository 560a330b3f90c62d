//! The client's side of a conversation with a server: what a run of
//! messages answers, and what is printed for it.
//!
//! Moving bytes over the socket is the caller's part. What comes in is
//! handed to [`Answering`] one message at a time.

use vstd::prelude::*;

use crate::ast::BinaryOp;
use crate::cli::Failure;
use crate::encoding::Value;
use crate::sorting::{rows_of, Row};
use crate::statement::{answer_shown, row_shown, show_row, Answer};
use crate::strings::{decimal, join2, join3, join_all, joined, owned, texts, u64_text};
use crate::value_ops::{Floats, Shown};

verus! {

/// A message from the server.
pub enum Message {
    Ready,
    Done,
    Count { verb: String, n: u64 },
    Lines(Vec<String>),
    Error { message: String },
    RowsBegin,
    RowBatch { rows: Vec<Vec<Value>> },
    RowsEnd,
}

pub enum MessageV {
    Ready,
    Done,
    Count { verb: Seq<char>, n: nat },
    Lines(Seq<Seq<char>>),
    Error { message: Seq<char> },
    RowsBegin,
    RowBatch { rows: Seq<Row> },
    RowsEnd,
}

impl View for Message {
    type V = MessageV;

    open spec fn view(&self) -> MessageV {
        match self {
            Message::Ready => MessageV::Ready,
            Message::Done => MessageV::Done,
            Message::Count { verb, n } => MessageV::Count { verb: verb@, n: *n as nat },
            Message::Lines(lines) => MessageV::Lines(texts(lines@)),
            Message::Error { message } => MessageV::Error { message: message@ },
            Message::RowsBegin => MessageV::RowsBegin,
            Message::RowBatch { rows } => MessageV::RowBatch { rows: rows_of(rows@) },
            Message::RowsEnd => MessageV::RowsEnd,
        }
    }
}

/// A whole answer.
#[derive(Debug)]
pub enum Reply {
    /// Nothing to print beyond acknowledgement.
    Done,
    /// Something to print, possibly empty.
    Text(String),
    /// Something to complain about, without ending the session.
    Error(String),
}

pub enum ReplyV {
    Done,
    Text(Seq<char>),
    Error(Seq<char>),
}

impl View for Reply {
    type V = ReplyV;

    open spec fn view(&self) -> ReplyV {
        match self {
            Reply::Done => ReplyV::Done,
            Reply::Text(t) => ReplyV::Text(t@),
            Reply::Error(m) => ReplyV::Error(m@),
        }
    }
}

/// What one message does: the answer goes on, is whole, or makes no sense.
pub enum Step {
    More(Option<Seq<Seq<char>>>),
    Whole(ReplyV),
    Wrong(Seq<char>),
}

/// Rows as lines of output.
pub open spec fn rows_shown(rows: Seq<Row>, f: Shown) -> Seq<Seq<char>> {
    Seq::new(rows.len(), |i: int| row_shown(rows[i], f))
}

/// What a message does to the rows that have arrived so far, where any were
/// begun.
pub open spec fn step(held: Option<Seq<Seq<char>>>, m: MessageV, f: Shown) -> Step {
    match m {
        MessageV::Ready => Step::Whole(ReplyV::Done),
        MessageV::Done => Step::Whole(ReplyV::Done),
        MessageV::Count { verb, n } => Step::Whole(ReplyV::Text(verb + " "@ + decimal(n))),
        MessageV::Lines(lines) => Step::Whole(ReplyV::Text(joined(lines, "\n"@))),
        MessageV::Error { message } => Step::Whole(ReplyV::Error(message)),
        MessageV::RowsBegin => Step::More(Some(Seq::empty())),
        MessageV::RowBatch { rows } => match held {
            None => Step::Wrong("the server sent rows without beginning them"@),
            Some(lines) => Step::More(Some(lines + rows_shown(rows, f))),
        },
        MessageV::RowsEnd => match held {
            None => Step::Wrong("the server ended rows it never began"@),
            Some(lines) => Step::Whole(ReplyV::Text(joined(lines, "\n"@))),
        },
    }
}

/// An answer that is arriving.
pub struct Answering {
    rows: Option<Vec<String>>,
}

impl Answering {
    /// The lines of the rows so far, where any were begun.
    pub closed spec fn held(&self) -> Option<Seq<Seq<char>>> {
        match self.rows {
            Some(v) => Some(texts(v@)),
            None => None,
        }
    }

    pub fn new() -> (r: Answering)
        ensures
            r.held() is None,
    {
        Answering { rows: None }
    }

    /// Take one message: the whole answer where this is the last of it.
    pub fn take<M: Fn(BinaryOp, u64, u64) -> u64, T: Fn(u64) -> String>(
        &mut self,
        m: Message,
        floats: &Floats<M, T>,
    ) -> (r: core::result::Result<Option<Reply>, Failure>)
        requires
            floats.ok(),
        ensures
            match step(old(self).held(), m@, floats.shown()) {
                Step::More(held) => r matches Ok(None) && final(self).held() == held,
                Step::Whole(reply) => r matches Ok(Some(whole)) && whole@ == reply,
                Step::Wrong(why) => r matches Err(Failure::Failed(e)) && e@ == why,
            },
    {
        match m {
            Message::Ready => Ok(Some(Reply::Done)),
            Message::Done => Ok(Some(Reply::Done)),
            Message::Count { verb, n } => Ok(
                Some(Reply::Text(join3(verb.as_str(), " ", u64_text(n).as_str()))),
            ),
            Message::Lines(lines) => Ok(Some(Reply::Text(join_all(&lines, "\n")))),
            Message::Error { message } => Ok(Some(Reply::Error(message))),
            Message::RowsBegin => {
                let none: Vec<String> = Vec::new();
                proof {
                    assert(texts(none@) =~= Seq::empty());
                }
                self.rows = Some(none);
                Ok(None)
            },
            Message::RowBatch { rows } => {
                let mut lines = match self.rows.take() {
                    None => return Err(
                        Failure::Failed(owned("the server sent rows without beginning them")),
                    ),
                    Some(lines) => lines,
                };
                let ghost had = texts(lines@);
                let ghost f = floats.shown();
                let ghost all = rows_shown(rows_of(rows@), f);
                let len: usize = rows.len();
                for i in 0..len
                    invariant
                        len == rows@.len(),
                        floats.ok(),
                        f == floats.shown(),
                        all == rows_shown(rows_of(rows@), f),
                        texts(lines@) == had + all.take(i as int),
                {
                    let ghost before = lines@;
                    let line = show_row(&rows[i], floats);
                    lines.push(line);
                    proof {
                        assert(texts(lines@) =~= texts(before).push(line@));
                        assert(all.take(i + 1) =~= all.take(i as int).push(line@));
                        assert(texts(lines@) =~= had + all.take(i + 1));
                    }
                }
                proof {
                    assert(all.take(len as int) =~= all);
                }
                self.rows = Some(lines);
                Ok(None)
            },
            Message::RowsEnd => match self.rows.take() {
                None => Err(Failure::Failed(owned("the server ended rows it never began"))),
                Some(lines) => Ok(Some(Reply::Text(join_all(&lines, "\n")))),
            },
        }
    }
}

/// The whole answer of messages from `i` on, where they make one.
pub open spec fn replied(
    held: Option<Seq<Seq<char>>>,
    ms: Seq<MessageV>,
    i: int,
    f: Shown,
) -> Option<ReplyV>
    decreases ms.len() - i,
{
    if i < 0 || i >= ms.len() {
        None
    } else {
        match step(held, ms[i], f) {
            Step::More(next) => replied(next, ms, i + 1, f),
            Step::Whole(r) => Some(r),
            Step::Wrong(_) => None,
        }
    }
}

/// What is printed for a reply that is no complaint.
pub open spec fn printed(r: ReplyV) -> Option<Seq<char>> {
    match r {
        ReplyV::Done => Some("ok"@),
        ReplyV::Text(t) => Some(t),
        ReplyV::Error(_) => None,
    }
}

/// The rows of some batches, one after the other.
pub open spec fn unbatched(batches: Seq<Seq<Row>>) -> Seq<Row>
    decreases batches.len(),
{
    if batches.len() == 0 {
        Seq::empty()
    } else {
        unbatched(batches.drop_last()) + batches.last()
    }
}

/// The messages that carry rows in batches.
pub open spec fn row_messages(batches: Seq<Seq<Row>>) -> Seq<MessageV> {
    Seq::new(
        batches.len() + 2,
        |i: int|
            if i == 0 {
                MessageV::RowsBegin
            } else if i <= batches.len() {
                MessageV::RowBatch { rows: batches[i - 1] }
            } else {
                MessageV::RowsEnd
            },
    )
}

/// Whether messages carry an answer. Rows may be cut into batches anywhere.
pub open spec fn carries(ms: Seq<MessageV>, a: Answer) -> bool {
    match a {
        Answer::Done => ms == seq![MessageV::Done],
        Answer::Count(verb, n) => ms == seq![MessageV::Count { verb, n }],
        Answer::Lines(lines) => ms == seq![MessageV::Lines(lines)],
        Answer::Rows(rows) => exists|batches: Seq<Seq<Row>>| #[trigger]
            row_messages(batches) == ms && unbatched(batches) == rows,
    }
}

proof fn lemma_batches(batches: Seq<Seq<Row>>, k: int, f: Shown)
    requires
        0 <= k <= batches.len(),
    ensures
        replied(None, row_messages(batches), 0, f) == replied(
            Some(rows_shown(unbatched(batches.take(k)), f)),
            row_messages(batches),
            k + 1,
            f,
        ),
    decreases k,
{
    let ms = row_messages(batches);
    if k == 0 {
        assert(batches.take(0) =~= Seq::empty());
        assert(rows_shown(unbatched(batches.take(0)), f) =~= Seq::empty());
        assert(step(None, ms[0], f) == Step::More(Some(Seq::<Seq<char>>::empty())));
    } else {
        lemma_batches(batches, k - 1, f);
        assert(batches.take(k).drop_last() =~= batches.take(k - 1));
        assert(batches.take(k).last() == batches[k - 1]);
        let before = rows_shown(unbatched(batches.take(k - 1)), f);
        assert(rows_shown(unbatched(batches.take(k)), f) =~= before + rows_shown(
            batches[k - 1],
            f,
        ));
        assert(ms[k] == MessageV::RowBatch { rows: batches[k - 1] });
    }
}

/// Over the wire an answer prints what it prints locally, however its rows
/// were cut into batches.
pub proof fn law_wire_prints_what_the_file_prints(ms: Seq<MessageV>, a: Answer, f: Shown)
    requires
        carries(ms, a),
    ensures
        replied(None, ms, 0, f) matches Some(r) && printed(r) == Some(answer_shown(a, f)),
{
    match a {
        Answer::Rows(rows) => {
            let batches = choose|batches: Seq<Seq<Row>>| #[trigger]
                row_messages(batches) == ms && unbatched(batches) == rows;
            lemma_batches(batches, batches.len() as int, f);
            assert(batches.take(batches.len() as int) =~= batches);
            assert(ms[batches.len() as int + 1] is RowsEnd);
            assert(rows_shown(rows, f) =~= Seq::new(
                rows.len(),
                |i: int| row_shown(rows[i], f),
            ));
        },
        _ => {
            assert(ms[0] == ms[0]);
        },
    }
}

/// What is done about a reply to a statement.
#[derive(Debug)]
pub enum Said {
    /// Printed.
    Print(String),
    /// Nothing to print.
    Quiet,
    /// Told to whoever is watching; the connection is still good.
    Complain(String),
}

/// What to do about a reply to a statement.
pub fn heard(reply: Reply) -> (r: Said)
    ensures
        match reply {
            Reply::Done => r matches Said::Print(t) && t@ == "ok"@,
            Reply::Text(t) => if t@.len() == 0 {
                r is Quiet
            } else {
                r == Said::Print(t)
            },
            Reply::Error(m) => r == Said::Complain(m),
        },
{
    match reply {
        Reply::Done => Said::Print(owned("ok")),
        Reply::Text(t) => if t.as_str().unicode_len() == 0 {
            Said::Quiet
        } else {
            Said::Print(t)
        },
        Reply::Error(m) => Said::Complain(m),
    }
}

/// Whether the reply to the greeting lets the session start.
pub fn greeted(reply: Reply) -> (r: core::result::Result<(), Failure>)
    ensures
        match reply {
            Reply::Done => r is Ok,
            Reply::Error(m) => r matches Err(Failure::Failed(e)) && e@ == m@,
            Reply::Text(_) => r matches Err(Failure::Failed(e)) && e@
                == "the server said something unexpected"@,
        },
{
    match reply {
        Reply::Done => Ok(()),
        Reply::Error(m) => Err(Failure::Failed(m)),
        Reply::Text(_) => Err(Failure::Failed(owned("the server said something unexpected"))),
    }
}

/// Whether the reply to a token lets the session start.
pub fn admitted(reply: Reply) -> (r: core::result::Result<(), Failure>)
    ensures
        match reply {
            Reply::Done => r is Ok,
            Reply::Error(m) => r matches Err(Failure::Failed(e)) && e@ == "token refused: "@ + m@,
            Reply::Text(_) => r matches Err(Failure::Failed(e)) && e@
                == "the server said something unexpected"@,
        },
{
    match reply {
        Reply::Done => Ok(()),
        Reply::Error(m) => Err(Failure::Failed(join2("token refused: ", m.as_str()))),
        Reply::Text(_) => Err(Failure::Failed(owned("the server said something unexpected"))),
    }
}

/// Bytes that arrived and were not asked for yet.
pub struct Inbox {
    buf: Vec<u8>,
}

impl View for Inbox {
    type V = Seq<u8>;

    closed spec fn view(&self) -> Seq<u8> {
        self.buf@
    }
}

impl Inbox {
    pub fn new() -> (r: Inbox)
        ensures
            r@ == Seq::<u8>::empty(),
    {
        Inbox { buf: Vec::new() }
    }

    /// Put what was read behind what is there.
    pub fn push(&mut self, chunk: &[u8])
        ensures
            final(self)@ == old(self)@ + chunk@,
    {
        let len: usize = chunk.len();
        let ghost had = self@;
        for i in 0..len
            invariant
                len == chunk@.len(),
                self@ == had + chunk@.take(i as int),
        {
            self.buf.push(chunk[i]);
            proof {
                assert(self@ =~= had + chunk@.take(i + 1));
            }
        }
        proof {
            assert(chunk@.take(len as int) =~= chunk@);
        }
    }

    /// The next `n` bytes, once so many have arrived.
    pub fn take(&mut self, n: usize) -> (r: Option<Vec<u8>>)
        ensures
            match r {
                Some(b) => old(self)@.len() >= n && b@ == old(self)@.take(n as int)
                    && final(self)@ == old(self)@.skip(n as int),
                None => old(self)@.len() < n && final(self)@ == old(self)@,
            },
    {
        if self.buf.len() < n {
            return None;
        }
        let ghost had = self@;
        let mut out = self.buf.split_off(n);
        core::mem::swap(&mut self.buf, &mut out);
        proof {
            assert(out@ =~= had.take(n as int));
            assert(self@ =~= had.skip(n as int));
        }
        Some(out)
    }
}

} // verus!
