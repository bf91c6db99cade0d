//! The image of a store as bytes, for whoever keeps it on disk.
//!
//! An image is the current term, the vote, the number of entries and the
//! entries, one after the other; every number is eight bytes, lowest first.
//! The vote is one byte, 0 for none or 1, followed in the second case by its
//! term and its candidate. An entry is its term, the length of its command
//! and the command. Nothing else is an image: what is cut short, what has
//! bytes left over and what has another byte for the vote is turned down.

use vstd::bytes::{
    lemma_auto_spec_u64_to_from_le_bytes, spec_u64_from_le_bytes, spec_u64_to_le_bytes,
    u64_from_le_bytes, u64_to_le_bytes,
};
use vstd::prelude::*;
use vstd::slice::slice_subrange;

use crate::common::{ServerId, TermIndex};
use crate::rpc_messages::{entries_view, LogEntry, LogEntryView};
use crate::storage::{PersistentStorage, StorageError, StorageView};

verus! {

/// The bytes of an entry.
pub open spec fn entry_image(e: LogEntryView) -> Seq<u8> {
    spec_u64_to_le_bytes(e.term.0) + spec_u64_to_le_bytes(e.command.len() as u64) + e.command
}

/// The bytes of a log: those of its entries, first to last.
pub open spec fn log_image(log: Seq<LogEntryView>) -> Seq<u8>
    decreases log.len(),
{
    if log.len() == 0 {
        Seq::empty()
    } else {
        entry_image(log.first()) + log_image(log.drop_first())
    }
}

/// The bytes of a vote.
pub open spec fn vote_image(vote: Option<(TermIndex, ServerId)>) -> Seq<u8> {
    match vote {
        None => seq![0u8],
        Some((term, candidate)) => seq![1u8] + spec_u64_to_le_bytes(term.0) + spec_u64_to_le_bytes(
            candidate.0,
        ),
    }
}

/// The image of a store.
pub open spec fn image(s: StorageView) -> Seq<u8> {
    spec_u64_to_le_bytes(s.current_term.0) + vote_image(s.voted_for) + spec_u64_to_le_bytes(
        s.log.len() as u64,
    ) + log_image(s.log)
}

/// Whether the lengths in a store fit the eight bytes an image has for each.
/// They do in every store that a machine holds.
pub open spec fn fits(s: StorageView) -> bool {
    &&& s.log.len() <= u64::MAX
    &&& forall|i: int| 0 <= i < s.log.len() ==> (#[trigger] s.log[i]).command.len() <= u64::MAX
}

/// The number that stands at `at` in `b`.
pub open spec fn number_at(b: Seq<u8>, at: int) -> u64 {
    spec_u64_from_le_bytes(b.subrange(at, at + 8))
}

/// The entry that `b` begins with, and how many bytes it takes.
pub open spec fn read_entry(b: Seq<u8>) -> Option<(LogEntryView, int)> {
    if b.len() < 16 || b.len() - 16 < number_at(b, 8) {
        None
    } else {
        Some(
            (
                LogEntryView {
                    term: TermIndex(number_at(b, 0)),
                    command: b.subrange(16, 16 + number_at(b, 8)),
                },
                16 + number_at(b, 8),
            ),
        )
    }
}

/// The `count` entries that `b` consists of.
pub open spec fn read_log(b: Seq<u8>, count: nat) -> Option<Seq<LogEntryView>>
    decreases count,
{
    if count == 0 {
        if b.len() == 0 {
            Some(Seq::empty())
        } else {
            None
        }
    } else {
        match read_entry(b) {
            None => None,
            Some((e, used)) => match read_log(
                b.subrange(used, b.len() as int),
                (count - 1) as nat,
            ) {
                None => None,
                Some(rest) => Some(seq![e] + rest),
            },
        }
    }
}

/// The vote that `b` begins with, and how many bytes it takes.
pub open spec fn read_vote(b: Seq<u8>) -> Option<(Option<(TermIndex, ServerId)>, int)> {
    if b.len() >= 1 && b[0] == 0 {
        Some((None, 1))
    } else if b.len() >= 17 && b[0] == 1 {
        Some((Some((TermIndex(number_at(b, 1)), ServerId(number_at(b, 9)))), 17))
    } else {
        None
    }
}

/// The store that `b` is the image of, if it is one.
pub open spec fn read_image(b: Seq<u8>) -> Option<StorageView> {
    if b.len() < 8 {
        None
    } else {
        match read_vote(b.subrange(8, b.len() as int)) {
            None => None,
            Some((voted_for, used)) => {
                if b.len() < 8 + used + 8 {
                    None
                } else {
                    match read_log(
                        b.subrange(8 + used + 8, b.len() as int),
                        number_at(b, 8 + used) as nat,
                    ) {
                        None => None,
                        Some(log) => Some(
                            StorageView {
                                current_term: TermIndex(number_at(b, 0)),
                                voted_for,
                                log,
                            },
                        ),
                    }
                }
            },
        }
    }
}

/// What is wrong with `b` as the image of a store, if anything is.
pub open spec fn fault(b: Seq<u8>) -> Option<StorageError> {
    match read_image(b) {
        None => Some(StorageError::Malformed),
        Some(s) => match s.voted_for {
            Some((term, _)) if term.0 > s.current_term.0 => Some(StorageError::VoteAheadOfTerm),
            _ => if s.log.len() >= u64::MAX {
                Some(StorageError::LogTooLong)
            } else {
                None
            },
        },
    }
}

/// A number followed by anything reads back as that number.
proof fn lemma_number_first(x: u64, rest: Seq<u8>)
    ensures
        (spec_u64_to_le_bytes(x) + rest).len() == 8 + rest.len(),
        number_at(spec_u64_to_le_bytes(x) + rest, 0) == x,
        (spec_u64_to_le_bytes(x) + rest).subrange(8, 8 + rest.len() as int) == rest,
{
    lemma_auto_spec_u64_to_from_le_bytes();
    let b = spec_u64_to_le_bytes(x) + rest;
    assert(b.subrange(0, 8) =~= spec_u64_to_le_bytes(x));
    assert(b.subrange(8, 8 + rest.len() as int) =~= rest);
}

/// An entry followed by anything reads back as that entry.
proof fn lemma_read_entry(e: LogEntryView, rest: Seq<u8>)
    requires
        e.command.len() <= u64::MAX,
    ensures
        read_entry(entry_image(e) + rest) == Some((e, entry_image(e).len() as int)),
        (entry_image(e) + rest).subrange(
            entry_image(e).len() as int,
            (entry_image(e) + rest).len() as int,
        ) == rest,
{
    lemma_auto_spec_u64_to_from_le_bytes();
    let n = e.command.len() as u64;
    let b = entry_image(e) + rest;
    assert(b.subrange(0, 8) =~= spec_u64_to_le_bytes(e.term.0));
    assert(b.subrange(8, 16) =~= spec_u64_to_le_bytes(n));
    assert(b.subrange(16, 16 + n) =~= e.command);
    assert(b.subrange(entry_image(e).len() as int, b.len() as int) =~= rest);
}

/// The image of a log reads back as that log.
pub proof fn lemma_read_log(log: Seq<LogEntryView>)
    requires
        forall|i: int| 0 <= i < log.len() ==> (#[trigger] log[i]).command.len() <= u64::MAX,
    ensures
        read_log(log_image(log), log.len()) == Some(log),
    decreases log.len(),
{
    if log.len() > 0 {
        let rest = log.drop_first();
        lemma_read_log(rest);
        lemma_read_entry(log.first(), log_image(rest));
        assert(seq![log.first()] + rest =~= log);
    }
}

/// Round trip. The image of a store reads back as that store.
pub proof fn lemma_read_image(s: StorageView)
    requires
        fits(s),
    ensures
        read_image(image(s)) == Some(s),
{
    lemma_auto_spec_u64_to_from_le_bytes();
    let b = image(s);
    let tail = vote_image(s.voted_for) + spec_u64_to_le_bytes(s.log.len() as u64) + log_image(
        s.log,
    );
    assert(b =~= spec_u64_to_le_bytes(s.current_term.0) + tail);
    lemma_number_first(s.current_term.0, tail);
    assert(b.subrange(8, b.len() as int) == tail);
    let body = spec_u64_to_le_bytes(s.log.len() as u64) + log_image(s.log);
    lemma_number_first(s.log.len() as u64, log_image(s.log));
    lemma_read_log(s.log);
    match s.voted_for {
        None => {
            assert(tail =~= seq![0u8] + body);
            assert(tail[0] == 0);
            assert(b.subrange(9, 17) =~= body.subrange(0, 8));
            assert(b.subrange(17, b.len() as int) =~= body.subrange(
                8,
                8 + log_image(s.log).len() as int,
            ));
        },
        Some((term, candidate)) => {
            let vote = seq![1u8] + spec_u64_to_le_bytes(term.0) + spec_u64_to_le_bytes(candidate.0);
            assert(tail =~= vote + body);
            assert(tail[0] == 1);
            assert(tail.subrange(1, 9) =~= spec_u64_to_le_bytes(term.0));
            assert(tail.subrange(9, 17) =~= spec_u64_to_le_bytes(candidate.0));
            assert(b.subrange(25, 33) =~= body.subrange(0, 8));
            assert(b.subrange(33, b.len() as int) =~= body.subrange(
                8,
                8 + log_image(s.log).len() as int,
            ));
        },
    }
}

/// What reads as a log is the image of that log.
pub proof fn lemma_log_image(b: Seq<u8>, count: nat)
    requires
        read_log(b, count) is Some,
    ensures
        log_image(read_log(b, count).unwrap()) == b,
        read_log(b, count).unwrap().len() == count,
        forall|i: int|
            0 <= i < count ==> (#[trigger] read_log(b, count).unwrap()[i]).command.len()
                <= u64::MAX,
    decreases count,
{
    lemma_auto_spec_u64_to_from_le_bytes();
    if count > 0 {
        let (e, used) = read_entry(b).unwrap();
        let tail = b.subrange(used, b.len() as int);
        lemma_log_image(tail, (count - 1) as nat);
        let rest = read_log(tail, (count - 1) as nat).unwrap();
        let log = seq![e] + rest;
        assert(log.first() == e);
        assert(log.drop_first() =~= rest);
        assert(entry_image(e) =~= b.subrange(0, used)) by {
            assert(spec_u64_to_le_bytes(number_at(b, 0)) == b.subrange(0, 8));
            assert(spec_u64_to_le_bytes(number_at(b, 8)) == b.subrange(8, 16));
        }
        assert(b.subrange(0, used) + tail =~= b);
        assert forall|i: int| 0 <= i < count implies (#[trigger] log[i]).command.len()
            <= u64::MAX by {
            if i > 0 {
                assert(log[i] == rest[i - 1]);
            }
        }
    } else {
        assert(b =~= Seq::<u8>::empty());
    }
}

/// What reads as a store is the image of that store.
pub proof fn lemma_image_of_read(b: Seq<u8>)
    requires
        read_image(b) is Some,
    ensures
        image(read_image(b).unwrap()) == b,
        fits(read_image(b).unwrap()),
{
    lemma_auto_spec_u64_to_from_le_bytes();
    let s = read_image(b).unwrap();
    let after = b.subrange(8, b.len() as int);
    let (voted_for, used) = read_vote(after).unwrap();
    let at = 8 + used;
    let count = number_at(b, at);
    let body = b.subrange(at + 8, b.len() as int);
    lemma_log_image(body, count as nat);
    assert(spec_u64_to_le_bytes(number_at(b, 0)) == b.subrange(0, 8));
    assert(spec_u64_to_le_bytes(count) == b.subrange(at, at + 8));
    match voted_for {
        None => {
            assert(vote_image(voted_for) =~= b.subrange(8, 9));
        },
        Some((term, candidate)) => {
            assert(after.subrange(1, 9) =~= b.subrange(9, 17));
            assert(after.subrange(9, 17) =~= b.subrange(17, 25));
            assert(spec_u64_to_le_bytes(term.0) == b.subrange(9, 17));
            assert(spec_u64_to_le_bytes(candidate.0) == b.subrange(17, 25));
            assert(vote_image(voted_for) =~= b.subrange(8, 25));
        },
    }
    assert(image(s) =~= b);
}

/// Two stores with one image are one store.
pub proof fn lemma_image_is_injective(a: StorageView, b: StorageView)
    requires
        fits(a),
        fits(b),
        image(a) == image(b),
    ensures
        a == b,
{
    lemma_read_image(a);
    lemma_read_image(b);
}

/// The image of an extended log is the image of the log extended by that of
/// the new entry.
proof fn lemma_log_image_push(log: Seq<LogEntryView>, e: LogEntryView)
    ensures
        log_image(log.push(e)) == log_image(log) + entry_image(e),
    decreases log.len(),
{
    if log.len() == 0 {
        assert(log.push(e).drop_first() =~= Seq::<LogEntryView>::empty());
        assert(log.push(e).first() == e);
        assert(log_image(log.push(e).drop_first()) =~= Seq::<u8>::empty());
        assert(log_image(log) =~= Seq::<u8>::empty());
        assert(log_image(log.push(e)) =~= log_image(log) + entry_image(e));
    } else {
        lemma_log_image_push(log.drop_first(), e);
        assert(log.push(e).drop_first() =~= log.drop_first().push(e));
        assert(log.push(e).first() == log.first());
        assert(log_image(log.push(e)) =~= log_image(log) + entry_image(e));
    }
}

/// An image cut short is no image: of two byte strings that both read as a
/// log of `count` entries, neither is the beginning of the other unless they
/// are equal.
proof fn lemma_log_prefix(a: Seq<u8>, b: Seq<u8>, count: nat)
    requires
        read_log(a, count) is Some,
        read_log(b, count) is Some,
        a.len() <= b.len(),
        a == b.subrange(0, a.len() as int),
    ensures
        a == b,
    decreases count,
{
    if count == 0 {
        assert(a =~= b);
    } else {
        assert(a.subrange(0, 8) =~= b.subrange(0, 8));
        assert(a.subrange(8, 16) =~= b.subrange(8, 16));
        let (e, used) = read_entry(a).unwrap();
        let ta = a.subrange(used, a.len() as int);
        let tb = b.subrange(used, b.len() as int);
        assert(ta =~= tb.subrange(0, ta.len() as int));
        lemma_log_prefix(ta, tb, (count - 1) as nat);
        assert(a =~= a.subrange(0, used) + ta);
        assert(b =~= b.subrange(0, used) + tb);
        assert(a.subrange(0, used) =~= b.subrange(0, used));
    }
}

/// An image cut short is no image: nothing that is the image of a store is
/// the beginning of a longer image.
pub proof fn lemma_cut_image_is_none(s: StorageView, keep: int)
    requires
        fits(s),
        0 <= keep < image(s).len(),
    ensures
        read_image(image(s).subrange(0, keep)) is None,
{
    let b = image(s);
    let a = b.subrange(0, keep);
    lemma_read_image(s);
    if read_image(a) is Some {
        assert(a.subrange(0, 8) =~= b.subrange(0, 8));
        let aa = a.subrange(8, a.len() as int);
        let ba = b.subrange(8, b.len() as int);
        assert(aa[0] == ba[0]);
        let (va, used) = read_vote(aa).unwrap();
        let at = 8 + used;
        assert(a.subrange(at, at + 8) =~= b.subrange(at, at + 8));
        let la = a.subrange(at + 8, a.len() as int);
        let lb = b.subrange(at + 8, b.len() as int);
        assert(la =~= lb.subrange(0, la.len() as int));
        lemma_log_prefix(la, lb, number_at(a, at) as nat);
        assert(a =~= a.subrange(0, at + 8) + la);
        assert(b =~= b.subrange(0, at + 8) + lb);
        assert(a.subrange(0, at + 8) =~= b.subrange(0, at + 8));
        assert(a.len() == b.len());
    }
}

/// The number that stands at `at`.
fn number(bytes: &[u8], at: usize) -> (x: u64)
    requires
        at + 8 <= bytes@.len(),
    ensures
        x == number_at(bytes@, at as int),
{
    let len: usize = bytes.len();
    u64_from_le_bytes(slice_subrange(bytes, at, at + 8))
}

/// Appends the eight bytes of `x`.
fn put_number(out: &mut Vec<u8>, x: u64)
    ensures
        final(out)@ == old(out)@ + spec_u64_to_le_bytes(x),
{
    let mut b = u64_to_le_bytes(x);
    out.append(&mut b);
}

/// The image of the store: what to write out so that [`decode`] gives the
/// store back.
pub fn encode(storage: &PersistentStorage) -> (bytes: Vec<u8>)
    ensures
        bytes@ == image(storage@),
        read_image(bytes@) == Some(storage@),
        fits(storage@),
        fault(bytes@) is None <==> storage@.wf(),
{
    let mut out: Vec<u8> = Vec::new();
    put_number(&mut out, storage.current_term().0);
    match storage.voted_for() {
        None => {
            out.push(0u8);
        },
        Some((term, candidate)) => {
            out.push(1u8);
            put_number(&mut out, term.0);
            put_number(&mut out, candidate.0);
        },
    }
    let log = storage.entries();
    put_number(&mut out, log.len() as u64);
    let ghost head = out@;
    assert(head =~= spec_u64_to_le_bytes(storage@.current_term.0) + vote_image(
        storage@.voted_for,
    ) + spec_u64_to_le_bytes(storage@.log.len() as u64));
    let mut i: usize = 0;
    assert(storage@.log.take(0) =~= Seq::<LogEntryView>::empty());
    while i < log.len()
        invariant
            i <= log.len(),
            entries_view(log@) == storage@.log,
            out@ == head + log_image(storage@.log.take(i as int)),
            forall|j: int| 0 <= j < i ==> (#[trigger] log@[j]).command@.len() <= u64::MAX,
        decreases log.len() - i,
    {
        let entry = &log[i];
        let ghost before = out@;
        put_number(&mut out, entry.term.0);
        put_number(&mut out, entry.command.len() as u64);
        let mut command = entry.command.clone();
        assert(command@ =~= entry.command@);
        out.append(&mut command);
        proof {
            lemma_log_image_push(storage@.log.take(i as int), storage@.log[i as int]);
            assert(storage@.log.take(i as int + 1) =~= storage@.log.take(i as int).push(
                storage@.log[i as int],
            ));
            assert(out@ =~= before + entry_image(storage@.log[i as int]));
            assert(out@ =~= head + log_image(storage@.log.take(i as int + 1)));
        }
        i += 1;
    }
    proof {
        assert(storage@.log.take(log.len() as int) =~= storage@.log);
        assert(out@ =~= image(storage@));
        assert forall|k: int| 0 <= k < storage@.log.len() implies (
        #[trigger] storage@.log[k]).command.len() <= u64::MAX by {
            assert(storage@.log[k] == log@[k]@);
        }
        lemma_read_image(storage@);
    }
    out
}

/// The parts of the store that `bytes` is the image of.
fn parse(bytes: &[u8]) -> (r: Option<(TermIndex, Option<(TermIndex, ServerId)>, Vec<LogEntry>)>)
    ensures
        match r {
            Some((current_term, voted_for, log)) => read_image(bytes@) == Some(
                StorageView { current_term, voted_for, log: entries_view(log@) },
            ),
            None => read_image(bytes@) is None,
        },
{
    let len: usize = bytes.len();
    if len < 9 {
        return None;
    }
    let term = number(bytes, 0);
    let tag: u8 = bytes[8];
    let ghost after = bytes@.subrange(8, len as int);
    assert(after[0] == tag);
    let mut voted_for: Option<(TermIndex, ServerId)> = None;
    let mut at: usize = 9;
    if tag == 1u8 {
        if len < 25 {
            return None;
        }
        proof {
            assert(after.subrange(1, 9) =~= bytes@.subrange(9, 17));
            assert(after.subrange(9, 17) =~= bytes@.subrange(17, 25));
        }
        voted_for = Some((TermIndex(number(bytes, 9)), ServerId(number(bytes, 17))));
        at = 25;
    } else if tag != 0u8 {
        return None;
    }
    assert(read_vote(after) == Some((voted_for, at - 8)));
    if len - at < 8 {
        return None;
    }
    let count: u64 = number(bytes, at);
    let start: usize = at + 8;
    let ghost body = bytes@.subrange(start as int, len as int);
    let mut pos: usize = start;
    let mut log: Vec<LogEntry> = Vec::new();
    let mut k: u64 = 0;
    proof {
        assert(entries_view(log@) =~= Seq::<LogEntryView>::empty());
        let whole = read_log(body, count as nat);
        if whole is Some {
            assert(entries_view(log@) + whole.unwrap() =~= whole.unwrap());
        }
    }
    while k < count
        invariant
            len == bytes@.len(),
            start <= pos <= len,
            k <= count,
            log@.len() == k,
            body == bytes@.subrange(start as int, len as int),
            read_image(bytes@) == (match read_log(body, count as nat) {
                Some(entries) => Some(
                    StorageView { current_term: TermIndex(term), voted_for, log: entries },
                ),
                None => None,
            }),
            read_log(body, count as nat) == (match read_log(
                bytes@.subrange(pos as int, len as int),
                (count - k) as nat,
            ) {
                Some(rest) => Some(entries_view(log@) + rest),
                None => None,
            }),
        decreases count - k,
    {
        let ghost here = bytes@.subrange(pos as int, len as int);
        if len - pos < 16 {
            return None;
        }
        proof {
            assert(here.subrange(0, 8) =~= bytes@.subrange(pos as int, pos + 8));
            assert(here.subrange(8, 16) =~= bytes@.subrange(pos + 8, pos + 16));
        }
        let entry_term = number(bytes, pos);
        let size: u64 = number(bytes, pos + 8);
        if ((len - pos - 16) as u64) < size {
            return None;
        }
        let size: usize = size as usize;
        let command = vstd::slice::slice_to_vec(slice_subrange(bytes, pos + 16, pos + 16 + size));
        let entry = LogEntry { term: TermIndex(entry_term), command };
        proof {
            assert(here.subrange(16, 16 + size) =~= bytes@.subrange(pos + 16, pos + 16 + size));
            assert(read_entry(here) == Some((entry@, 16 + size as int)));
            assert(here.subrange(16 + size as int, here.len() as int) =~= bytes@.subrange(
                pos + 16 + size,
                len as int,
            ));
            let rest = read_log(
                bytes@.subrange(pos + 16 + size, len as int),
                (count - k - 1) as nat,
            );
            if rest is Some {
                assert(entries_view(log@.push(entry)) + rest.unwrap() =~= entries_view(log@) + (
                seq![entry@] + rest.unwrap()));
            }
        }
        log.push(entry);
        pos = pos + 16 + size;
        k = k + 1;
    }
    if pos != len {
        return None;
    }
    proof {
        assert(bytes@.subrange(pos as int, len as int) =~= Seq::<u8>::empty());
        assert(entries_view(log@) + Seq::<LogEntryView>::empty() =~= entries_view(log@));
    }
    Some((TermIndex(term), voted_for, log))
}

/// The store that `bytes` is the image of. Bytes that are not the image of
/// any store are turned down as malformed, and the image of a store that
/// cannot be is turned down for what is wrong with the store. So every image
/// that [`encode`] makes of a sound store is taken.
pub fn decode(bytes: &[u8]) -> (r: Result<PersistentStorage, StorageError>)
    ensures
        r matches Ok(s) ==> image(s@) == bytes@ && read_image(bytes@) == Some(s@) && s@.wf(),
        r matches Err(e) ==> fault(bytes@) == Some(e),
        r is Ok <==> fault(bytes@) is None,
        r is Err ==> forall|v: StorageView| v.wf() && fits(v) ==> image(v) != bytes@,
{
    proof {
        assert forall|v: StorageView| v.wf() && fits(v) && image(v) == bytes@ implies fault(
            bytes@,
        ) is None by {
            lemma_read_image(v);
        }
        if read_image(bytes@) is Some {
            lemma_image_of_read(bytes@);
        }
    }
    match parse(bytes) {
        None => Err(StorageError::Malformed),
        Some((current_term, voted_for, log)) => PersistentStorage::restore(
            current_term,
            voted_for,
            log,
        ),
    }
}

} // verus!
