//! The messages that nodes exchange, and the log entries they carry.

use vstd::prelude::*;

use crate::common::{LogIndex, RequestId, ServerId, TermIndex};

verus! {

/// One entry of the replicated log. The command is a byte string that the
/// protocol carries and never looks into.
#[derive(Clone, Debug, PartialEq, Eq)]
pub struct LogEntry {
    pub term: TermIndex,
    pub command: Vec<u8>,
}

/// The mathematical value of a [`LogEntry`].
pub struct LogEntryView {
    pub term: TermIndex,
    pub command: Seq<u8>,
}

impl View for LogEntry {
    type V = LogEntryView;

    open spec fn view(&self) -> LogEntryView {
        LogEntryView { term: self.term, command: self.command@ }
    }
}

/// The values of a sequence of entries, entry by entry.
pub open spec fn entries_view(entries: Seq<LogEntry>) -> Seq<LogEntryView> {
    Seq::new(entries.len(), |i: int| entries[i]@)
}

/// A candidate asks for a vote.
#[derive(Clone, Copy, Debug, PartialEq, Eq, Structural)]
pub struct RequestVote {
    pub request_id: RequestId,
    pub from: ServerId,
    pub to: ServerId,
    pub term: TermIndex,
    pub last_log_index: LogIndex,
    pub last_log_term: TermIndex,
}

/// The answer to a [`RequestVote`].
#[derive(Clone, Copy, Debug, PartialEq, Eq, Structural)]
pub struct Vote {
    pub request_id: RequestId,
    pub from: ServerId,
    pub to: ServerId,
    pub term: TermIndex,
    pub vote_granted: bool,
}

/// A leader replicates entries, or, with no entries, sends a heartbeat.
#[derive(Clone, Debug, PartialEq, Eq)]
pub struct AppendEntries {
    pub request_id: RequestId,
    pub from: ServerId,
    pub to: ServerId,
    pub term: TermIndex,
    pub prev_log_index: LogIndex,
    pub prev_log_term: TermIndex,
    pub entries: Vec<LogEntry>,
    pub leader_commit: LogIndex,
}

/// The mathematical value of an [`AppendEntries`].
pub struct AppendEntriesView {
    pub request_id: RequestId,
    pub from: ServerId,
    pub to: ServerId,
    pub term: TermIndex,
    pub prev_log_index: LogIndex,
    pub prev_log_term: TermIndex,
    pub entries: Seq<LogEntryView>,
    pub leader_commit: LogIndex,
}

impl View for AppendEntries {
    type V = AppendEntriesView;

    open spec fn view(&self) -> AppendEntriesView {
        AppendEntriesView {
            request_id: self.request_id,
            from: self.from,
            to: self.to,
            term: self.term,
            prev_log_index: self.prev_log_index,
            prev_log_term: self.prev_log_term,
            entries: entries_view(self.entries@),
            leader_commit: self.leader_commit,
        }
    }
}

/// The answer to an [`AppendEntries`]. `match_index` is the highest position
/// now known to agree with the leader; it is 0 when `success` is false.
#[derive(Clone, Copy, Debug, PartialEq, Eq, Structural)]
pub struct AppendEntriesReply {
    pub request_id: RequestId,
    pub from: ServerId,
    pub to: ServerId,
    pub term: TermIndex,
    pub success: bool,
    pub match_index: LogIndex,
}

/// The two requests.
#[derive(Clone, Debug, PartialEq, Eq)]
pub enum Request {
    RequestVote(RequestVote),
    AppendEntries(AppendEntries),
}

/// The two replies, named after the request each one answers.
#[derive(Clone, Copy, Debug, PartialEq, Eq, Structural)]
pub enum ReplyTo {
    RequestVote(Vote),
    AppendEntries(AppendEntriesReply),
}

/// Anything that travels between two nodes.
#[derive(Clone, Debug, PartialEq, Eq)]
pub enum RpcMessage {
    Request(Request),
    Reply(ReplyTo),
}

/// The mathematical value of an [`RpcMessage`]: one of the four messages of
/// the protocol.
pub enum Message {
    RequestVote(RequestVote),
    Vote(Vote),
    AppendEntries(AppendEntriesView),
    AppendEntriesReply(AppendEntriesReply),
}

impl Message {
    /// The sender.
    pub open spec fn from(self) -> ServerId {
        match self {
            Message::RequestVote(m) => m.from,
            Message::Vote(m) => m.from,
            Message::AppendEntries(m) => m.from,
            Message::AppendEntriesReply(m) => m.from,
        }
    }

    /// The addressee.
    pub open spec fn to(self) -> ServerId {
        match self {
            Message::RequestVote(m) => m.to,
            Message::Vote(m) => m.to,
            Message::AppendEntries(m) => m.to,
            Message::AppendEntriesReply(m) => m.to,
        }
    }

    /// The sender's term.
    pub open spec fn term(self) -> TermIndex {
        match self {
            Message::RequestVote(m) => m.term,
            Message::Vote(m) => m.term,
            Message::AppendEntries(m) => m.term,
            Message::AppendEntriesReply(m) => m.term,
        }
    }

    /// The token of the exchange this message belongs to.
    pub open spec fn request_id(self) -> RequestId {
        match self {
            Message::RequestVote(m) => m.request_id,
            Message::Vote(m) => m.request_id,
            Message::AppendEntries(m) => m.request_id,
            Message::AppendEntriesReply(m) => m.request_id,
        }
    }
}

impl View for Request {
    type V = Message;

    open spec fn view(&self) -> Message {
        match *self {
            Request::RequestVote(m) => Message::RequestVote(m),
            Request::AppendEntries(m) => Message::AppendEntries(m@),
        }
    }
}

impl View for ReplyTo {
    type V = Message;

    open spec fn view(&self) -> Message {
        match *self {
            ReplyTo::RequestVote(m) => Message::Vote(m),
            ReplyTo::AppendEntries(m) => Message::AppendEntriesReply(m),
        }
    }
}

impl View for RpcMessage {
    type V = Message;

    open spec fn view(&self) -> Message {
        match *self {
            RpcMessage::Request(r) => r@,
            RpcMessage::Reply(r) => r@,
        }
    }
}

impl RpcMessage {
    /// The sender.
    pub fn from(&self) -> (id: ServerId)
        ensures
            id == self@.from(),
    {
        match self {
            RpcMessage::Request(Request::RequestVote(m)) => m.from,
            RpcMessage::Request(Request::AppendEntries(m)) => m.from,
            RpcMessage::Reply(ReplyTo::RequestVote(m)) => m.from,
            RpcMessage::Reply(ReplyTo::AppendEntries(m)) => m.from,
        }
    }

    /// The addressee.
    pub fn to(&self) -> (id: ServerId)
        ensures
            id == self@.to(),
    {
        match self {
            RpcMessage::Request(Request::RequestVote(m)) => m.to,
            RpcMessage::Request(Request::AppendEntries(m)) => m.to,
            RpcMessage::Reply(ReplyTo::RequestVote(m)) => m.to,
            RpcMessage::Reply(ReplyTo::AppendEntries(m)) => m.to,
        }
    }

    /// The sender's term.
    pub fn term(&self) -> (term: TermIndex)
        ensures
            term == self@.term(),
    {
        match self {
            RpcMessage::Request(Request::RequestVote(m)) => m.term,
            RpcMessage::Request(Request::AppendEntries(m)) => m.term,
            RpcMessage::Reply(ReplyTo::RequestVote(m)) => m.term,
            RpcMessage::Reply(ReplyTo::AppendEntries(m)) => m.term,
        }
    }

    /// The token of the exchange this message belongs to.
    pub fn request_id(&self) -> (id: RequestId)
        ensures
            id == self@.request_id(),
    {
        match self {
            RpcMessage::Request(Request::RequestVote(m)) => m.request_id,
            RpcMessage::Request(Request::AppendEntries(m)) => m.request_id,
            RpcMessage::Reply(ReplyTo::RequestVote(m)) => m.request_id,
            RpcMessage::Reply(ReplyTo::AppendEntries(m)) => m.request_id,
        }
    }
}

impl LogEntry {
    /// A copy of the entry.
    pub fn duplicate(&self) -> (copy: LogEntry)
        ensures
            copy@ == self@,
    {
        let command = self.command.clone();
        assert(command@ =~= self.command@);
        LogEntry { term: self.term, command }
    }
}

/// The values of a concatenation are the concatenation of the values.
pub proof fn lemma_entries_view_add(a: Seq<LogEntry>, b: Seq<LogEntry>)
    ensures
        entries_view(a + b) == entries_view(a) + entries_view(b),
{
    assert(entries_view(a + b) =~= entries_view(a) + entries_view(b));
}

/// The values of a slice are the slice of the values.
pub proof fn lemma_entries_view_subrange(a: Seq<LogEntry>, lo: int, hi: int)
    requires
        0 <= lo <= hi <= a.len(),
    ensures
        entries_view(a.subrange(lo, hi)) == entries_view(a).subrange(lo, hi),
{
    assert(entries_view(a.subrange(lo, hi)) =~= entries_view(a).subrange(lo, hi));
}

} // verus!
