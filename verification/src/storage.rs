//! What a node must keep across restarts: its term, its vote and its log.
//!
//! The store here is the in-memory image of that state. Whoever owns the
//! disk writes the image out after every change and reads it back at start.

use vstd::prelude::*;

use crate::common::{LogIndex, LogRange, ServerId, TermIndex};
use crate::rpc_messages::{
    entries_view, lemma_entries_view_add, lemma_entries_view_subrange, LogEntry, LogEntryView,
};

verus! {

/// The mathematical value of a [`PersistentStorage`].
pub struct StorageView {
    pub current_term: TermIndex,
    pub voted_for: Option<(TermIndex, ServerId)>,
    pub log: Seq<LogEntryView>,
}

/// The term of the entry at `index`, and 0 where the log has no entry
/// (position 0, or past the end).
pub open spec fn term_at(log: Seq<LogEntryView>, index: int) -> TermIndex {
    if 1 <= index <= log.len() {
        log[index - 1].term
    } else {
        TermIndex(0)
    }
}

/// The term of the last entry, 0 for an empty log.
pub open spec fn last_term(log: Seq<LogEntryView>) -> TermIndex {
    term_at(log, log.len() as int)
}

/// The entries of `log` at the positions of `range`, as far as the log has
/// them.
pub open spec fn entries_in(log: Seq<LogEntryView>, range: LogRange) -> Seq<LogEntryView> {
    let from = if range.first.0 >= 1 {
        range.first.0 - 1
    } else {
        0
    };
    let to = if range.last.0 <= log.len() {
        range.last.0 as int
    } else {
        log.len() as int
    };
    if from < to {
        log.subrange(from, to)
    } else {
        Seq::empty()
    }
}

impl StorageView {
    /// A recorded vote never belongs to a term that the node has not
    /// reached, and the position after the last entry can be named.
    pub open spec fn wf(self) -> bool {
        &&& self.voted_for matches Some((term, _)) ==> term.0 <= self.current_term.0
        &&& self.log.len() < u64::MAX
    }

    /// The candidate that holds this node's vote of `term`, if one does.
    pub open spec fn vote_in(self, term: TermIndex) -> Option<ServerId> {
        match self.voted_for {
            Some((t, candidate)) if t == term => Some(candidate),
            _ => None,
        }
    }

    /// The store after the node has seen `term`: a higher term is adopted and
    /// the vote is cleared, any other leaves the store as it is.
    pub open spec fn with_term(self, term: TermIndex) -> StorageView {
        if term.0 > self.current_term.0 {
            StorageView { current_term: term, voted_for: None, log: self.log }
        } else {
            self
        }
    }

    /// Whether a vote for `candidate` in `term` can be recorded: the term is
    /// the current one and no other candidate holds the vote of that term.
    pub open spec fn can_vote(self, term: TermIndex, candidate: ServerId) -> bool {
        &&& term == self.current_term
        &&& self.vote_in(term) matches Some(c) ==> c == candidate
    }

    /// The store after `record_vote(term, candidate)`.
    pub open spec fn with_vote(self, term: TermIndex, candidate: ServerId) -> StorageView {
        if self.can_vote(term, candidate) {
            StorageView {
                current_term: self.current_term,
                voted_for: Some((term, candidate)),
                log: self.log,
            }
        } else {
            self
        }
    }

    /// The store with everything from position `from_index` on removed.
    pub open spec fn truncated(self, from_index: LogIndex) -> StorageView
        recommends
            from_index.0 >= 1,
    {
        if from_index.0 <= self.log.len() {
            StorageView {
                current_term: self.current_term,
                voted_for: self.voted_for,
                log: self.log.subrange(0, from_index.0 - 1),
            }
        } else {
            self
        }
    }

    /// The store with `entries` placed at position `from_index` and after,
    /// in place of whatever stood there.
    pub open spec fn appended(self, from_index: LogIndex, entries: Seq<LogEntryView>) -> StorageView
        recommends
            1 <= from_index.0 <= self.log.len() + 1,
    {
        StorageView {
            current_term: self.current_term,
            voted_for: self.voted_for,
            log: self.log.subrange(0, from_index.0 - 1) + entries,
        }
    }
}

/// Why a stored image was turned down at start.
#[derive(Clone, Copy, Debug, PartialEq, Eq, Structural)]
pub enum StorageError {
    /// The recorded vote belongs to a term above the recorded current term.
    VoteAheadOfTerm,
    /// The log has so many entries that the position after the last cannot
    /// be named.
    LogTooLong,
    /// The bytes are not the image of any store.
    Malformed,
}

/// The durable state of one node.
#[derive(Clone, Debug, PartialEq, Eq)]
pub struct PersistentStorage {
    current_term: TermIndex,
    voted_for: Option<(TermIndex, ServerId)>,
    log: Vec<LogEntry>,
}

impl View for PersistentStorage {
    type V = StorageView;

    closed spec fn view(&self) -> StorageView {
        StorageView {
            current_term: self.current_term,
            voted_for: self.voted_for,
            log: entries_view(self.log@),
        }
    }
}

impl PersistentStorage {
    /// The store of a node that has never run: term 0, no vote, empty log.
    pub fn new() -> (s: PersistentStorage)
        ensures
            s@ == (StorageView { current_term: TermIndex(0), voted_for: None, log: Seq::empty() }),
            s@.wf(),
    {
        let s = PersistentStorage { current_term: TermIndex(0), voted_for: None, log: Vec::new() };
        assert(s@.log =~= Seq::empty());
        s
    }

    /// Rebuilds the store from what was read back at start. The image is
    /// turned down when its vote lies in a term above its current term, and
    /// else when its log is too long; any other image is taken as it is.
    pub fn restore(
        current_term: TermIndex,
        voted_for: Option<(TermIndex, ServerId)>,
        log: Vec<LogEntry>,
    ) -> (r: Result<PersistentStorage, StorageError>)
        ensures
            r is Ok <==> (StorageView { current_term, voted_for, log: entries_view(log@) }).wf(),
            r matches Ok(s) ==> s@ == (StorageView {
                current_term,
                voted_for,
                log: entries_view(log@),
            }),
            r matches Err(e) ==> e == (match voted_for {
                Some((term, _)) if term.0 > current_term.0 => StorageError::VoteAheadOfTerm,
                _ => StorageError::LogTooLong,
            }),
    {
        match voted_for {
            Some((term, _)) => {
                if term.0 > current_term.0 {
                    return Err(StorageError::VoteAheadOfTerm);
                }
            },
            None => {},
        }
        if log.len() as u64 == u64::MAX {
            return Err(StorageError::LogTooLong);
        }
        Ok(PersistentStorage { current_term, voted_for, log })
    }

    /// The highest term this node has seen.
    pub fn current_term(&self) -> (term: TermIndex)
        ensures
            term == self@.current_term,
    {
        self.current_term
    }

    /// The vote on record, with the term it was cast in.
    pub fn voted_for(&self) -> (vote: Option<(TermIndex, ServerId)>)
        ensures
            vote == self@.voted_for,
    {
        self.voted_for
    }

    /// The position of the last entry, 0 for an empty log.
    pub fn log_len(&self) -> (len: LogIndex)
        ensures
            len.0 == self@.log.len(),
    {
        LogIndex(self.log.len() as u64)
    }

    /// The entries of the log, first to last.
    pub fn entries(&self) -> (log: &Vec<LogEntry>)
        ensures
            entries_view(log@) == self@.log,
    {
        &self.log
    }

    /// A copy of the entry at `index`; `None` at position 0 and past the end.
    pub fn entry_at(&self, index: LogIndex) -> (entry: Option<LogEntry>)
        ensures
            1 <= index.0 <= self@.log.len() ==> (entry matches Some(e) && e@ == self@.log[index.0
                - 1]),
            !(1 <= index.0 <= self@.log.len()) ==> entry is None,
    {
        if index.0 == 0 || index.0 > self.log.len() as u64 {
            None
        } else {
            Some(self.log[(index.0 - 1) as usize].duplicate())
        }
    }

    /// The term of the entry at `index`, and 0 at position 0.
    pub fn term_at(&self, index: LogIndex) -> (term: TermIndex)
        requires
            index.0 <= self@.log.len(),
        ensures
            term == term_at(self@.log, index.0 as int),
    {
        let len: usize = self.log.len();
        if index.0 == 0 {
            TermIndex(0)
        } else {
            self.log[(index.0 - 1) as usize].term
        }
    }

    /// The term of the last entry, 0 for an empty log.
    pub fn last_log_term(&self) -> (term: TermIndex)
        ensures
            term == last_term(self@.log),
    {
        let n = self.log.len();
        if n == 0 {
            TermIndex(0)
        } else {
            self.log[n - 1].term
        }
    }

    /// Copies of the entries from position `from_index` to the end.
    pub fn entries_from(&self, from_index: LogIndex) -> (suffix: Vec<LogEntry>)
        requires
            1 <= from_index.0 <= self@.log.len() + 1,
        ensures
            entries_view(suffix@) == self@.log.subrange(
                from_index.0 - 1,
                self@.log.len() as int,
            ),
    {
        let start: usize = (from_index.0 - 1) as usize;
        let mut suffix: Vec<LogEntry> = Vec::new();
        let mut i: usize = start;
        while i < self.log.len()
            invariant
                start <= i <= self.log.len(),
                suffix@.len() == i - start,
                forall|k: int| 0 <= k < suffix@.len() ==> suffix@[k]@ == self.log@[start + k]@,
            decreases self.log.len() - i,
        {
            suffix.push(self.log[i].duplicate());
            i += 1;
        }
        assert(entries_view(suffix@) =~= self@.log.subrange(
            from_index.0 - 1,
            self@.log.len() as int,
        ));
        suffix
    }

    /// Copies of the entries at the positions of `range`, lowest first. A
    /// position that the log does not have is passed over.
    pub fn entries_in(&self, range: LogRange) -> (entries: Vec<LogEntry>)
        ensures
            entries_view(entries@) == entries_in(self@.log, range),
    {
        let len: usize = self.log.len();
        let from: usize = if range.first.0 >= 1 {
            if range.first.0 - 1 >= len as u64 {
                len
            } else {
                (range.first.0 - 1) as usize
            }
        } else {
            0
        };
        let to: usize = if range.last.0 <= len as u64 {
            range.last.0 as usize
        } else {
            len
        };
        let mut entries: Vec<LogEntry> = Vec::new();
        let mut i: usize = from;
        while i < to
            invariant
                to <= self.log.len(),
                from <= i,
                i <= to || i == from,
                entries@.len() == i - from,
                forall|k: int| 0 <= k < entries@.len() ==> entries@[k]@ == self.log@[from + k]@,
            decreases to - i,
        {
            entries.push(self.log[i].duplicate());
            i += 1;
        }
        assert(entries_view(entries@) =~= entries_in(self@.log, range));
        entries
    }

    /// Takes note of `term`. A term above the current one becomes the current
    /// term and clears the vote; any other changes nothing, so the current
    /// term never goes down.
    pub fn set_current_term(&mut self, term: TermIndex)
        ensures
            final(self)@ == old(self)@.with_term(term),
    {
        if term.0 > self.current_term.0 {
            self.current_term = term;
            self.voted_for = None;
        }
    }

    /// Records a vote for `candidate` in `term` and tells whether the store
    /// now holds it. The vote is recorded exactly when `term` is the current
    /// term and the vote of that term is still free or already `candidate`'s.
    pub fn record_vote(&mut self, term: TermIndex, candidate: ServerId) -> (recorded: bool)
        ensures
            final(self)@ == old(self)@.with_vote(term, candidate),
            recorded == old(self)@.can_vote(term, candidate),
    {
        if term.0 != self.current_term.0 {
            return false;
        }
        match self.voted_for {
            Some((t, c)) => {
                if t.0 == term.0 && c.0 != candidate.0 {
                    return false;
                }
            },
            None => {},
        }
        self.voted_for = Some((term, candidate));
        true
    }

    /// Removes the entries from position `from_index` to the end.
    pub fn truncate_suffix(&mut self, from_index: LogIndex)
        requires
            from_index.0 >= 1,
        ensures
            final(self)@ == old(self)@.truncated(from_index),
    {
        if from_index.0 <= self.log.len() as u64 {
            let keep: usize = (from_index.0 - 1) as usize;
            proof {
                lemma_entries_view_subrange(self.log@, 0, keep as int);
            }
            self.log.truncate(keep);
        }
    }

    /// Removes the entries from position `from_index` to the end, then
    /// appends `entries`, so that the first of them stands at `from_index`.
    pub fn append_entries(&mut self, from_index: LogIndex, entries: Vec<LogEntry>)
        requires
            1 <= from_index.0 <= old(self)@.log.len() + 1,
        ensures
            final(self)@ == old(self)@.appended(from_index, entries_view(entries@)),
    {
        let keep: usize = (from_index.0 - 1) as usize;
        let mut entries = entries;
        proof {
            lemma_entries_view_subrange(self.log@, 0, keep as int);
            lemma_entries_view_add(self.log@.subrange(0, keep as int), entries@);
        }
        self.log.truncate(keep);
        self.log.append(&mut entries);
    }
}

} // verus!
