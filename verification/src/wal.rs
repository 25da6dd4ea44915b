//! The write-ahead log: how an entry becomes bytes, and which entries a crashed log still holds.
//!
//! A log is a run of frames. A frame is the length of its body and the checksum of its body, four
//! bytes each, then the body: one byte for the operation, eight for the document id, and the
//! payload. Reading stops at the first frame that is cut short, whose checksum does not match, or
//! whose body is too short to hold an entry.
use vstd::prelude::*;
use crate::le::{law_concat_flattens, law_le_rewrite, lemma_le_value_range};
use vstd::slice::{slice_subrange, slice_to_vec};
use crate::le::{get_le, put_bytes, put_le};
use crate::le::{byte_range, concat, le_bytes, le_value};
use crate::le::{law_le_roundtrip, lemma_byte_ranges, lemma_concat_push, lemma_le_bytes_len};

verus! {

pub const OP_INSERT: u8 = 0x01;

pub const OP_DELETE: u8 = 0x02;

pub const OP_CHECKPOINT: u8 = 0xFF;

/// Length and checksum of the body.
pub const HEADER_SIZE: usize = 8;

/// Operation and document id: the shortest body.
pub const ENTRY_PREFIX: usize = 9;

/// An entry of the log.
pub struct LogEntry {
    pub op: u8,
    pub doc_id: u64,
    pub payload: Seq<u8>,
}

/// What an entry read from a log stands for.
pub open spec fn entry_view(e: (u8, u64, Vec<u8>)) -> LogEntry {
    LogEntry { op: e.0, doc_id: e.1, payload: e.2@ }
}

pub open spec fn entries_view(entries: Seq<(u8, u64, Vec<u8>)>) -> Seq<LogEntry> {
    entries.map_values(|e: (u8, u64, Vec<u8>)| entry_view(e))
}

/// The remainder after one more bit, for the reversed polynomial of the CRC-32 (IEEE).
pub open spec fn crc_bit(crc: u32) -> u32 {
    if crc & 1 == 1 {
        (crc >> 1) ^ 0xEDB8_8320
    } else {
        crc >> 1
    }
}

/// The remainder after `n` more bits.
pub open spec fn crc_bits(crc: u32, n: nat) -> u32
    decreases n,
{
    if n == 0 {
        crc
    } else {
        crc_bit(crc_bits(crc, (n - 1) as nat))
    }
}

/// The remainder after the bytes of `data`, bit by bit, starting from all ones.
pub open spec fn crc_bytes(data: Seq<u8>) -> u32
    decreases data.len(),
{
    if data.len() == 0 {
        0xFFFF_FFFF
    } else {
        crc_bits(crc_bytes(data.drop_last()) ^ (data.last() as u32), 8)
    }
}

/// The CRC-32 (IEEE) of `data`.
pub open spec fn crc32(data: Seq<u8>) -> u32 {
    crc_bytes(data) ^ 0xFFFF_FFFF
}

/// Calls `crc32fast::hash`, which computes the CRC-32 (IEEE) of the bytes.
#[verifier::external_body]
fn checksum(data: &[u8]) -> (sum: u32)
    ensures
        sum == crc32(data@),
{
    crc32fast::hash(data)
}

// ---------------------------------------------------------------------------------------------
// Frames
// ---------------------------------------------------------------------------------------------

pub open spec fn body_bytes(e: LogEntry) -> Seq<u8> {
    seq![e.op] + le_bytes(e.doc_id as nat, 8) + e.payload
}

/// A body behind its header. The length is written as a 32-bit number.
pub open spec fn framed(body: Seq<u8>, sum: u32) -> Seq<u8> {
    le_bytes((body.len() % byte_range(4)) as nat, 4) + le_bytes(sum as nat, 4) + body
}

pub open spec fn frame_bytes(e: LogEntry) -> Seq<u8> {
    framed(body_bytes(e), crc32(body_bytes(e)))
}

/// The bytes of a log to which `entries` were appended.
pub open spec fn log_bytes(entries: Seq<LogEntry>) -> Seq<u8> {
    concat(entries.map_values(|e: LogEntry| frame_bytes(e)))
}

/// The length that the header at the front of `s` gives for its body.
pub open spec fn body_len(s: Seq<u8>) -> int {
    le_value(s.subrange(0, 4)) as int
}

/// The checksum that the header at the front of `s` gives for its body.
pub open spec fn header_sum(s: Seq<u8>) -> int {
    le_value(s.subrange(4, 8)) as int
}

/// `s` starts with a header and all the bytes of its body.
pub open spec fn frame_complete(s: Seq<u8>) -> bool {
    HEADER_SIZE <= s.len() && HEADER_SIZE + body_len(s) <= s.len()
}

pub open spec fn frame_body(s: Seq<u8>) -> Seq<u8> {
    s.subrange(HEADER_SIZE as int, HEADER_SIZE + body_len(s))
}

/// `s` starts with a complete frame whose checksum matches.
pub open spec fn frame_intact(s: Seq<u8>) -> bool {
    frame_complete(s) && crc32(frame_body(s)) == header_sum(s)
}

/// The entry that a body of at least [`ENTRY_PREFIX`] bytes holds.
pub open spec fn body_entry(body: Seq<u8>) -> LogEntry {
    LogEntry {
        op: body[0],
        doc_id: le_value(body.subrange(1, 9)) as u64,
        payload: body.skip(ENTRY_PREFIX as int),
    }
}

/// `s` starts with an intact frame that is long enough to hold an entry.
pub open spec fn holds_entry(s: Seq<u8>) -> bool {
    frame_intact(s) && frame_body(s).len() >= ENTRY_PREFIX
}

/// The entries at the front of `s`, up to the first frame that does not hold one.
pub open spec fn readable(s: Seq<u8>) -> Seq<LogEntry>
    decreases s.len(),
{
    if holds_entry(s) {
        seq![body_entry(frame_body(s))] + readable(s.skip(HEADER_SIZE + body_len(s)))
    } else {
        Seq::empty()
    }
}

/// The entries behind the last checkpoint.
pub open spec fn since_checkpoint(entries: Seq<LogEntry>) -> Seq<LogEntry>
    decreases entries.len(),
{
    if entries.len() == 0 || entries.last().op == OP_CHECKPOINT {
        Seq::empty()
    } else {
        since_checkpoint(entries.drop_last()).push(entries.last())
    }
}

/// The body of an entry.
fn encode_body(op: u8, doc_id: u64, payload: &[u8]) -> (body: Vec<u8>)
    ensures
        body@ == body_bytes(LogEntry { op, doc_id, payload: payload@ }),
{
    let mut body: Vec<u8> = Vec::new();
    body.push(op);
    assert(body@ =~= seq![op]);
    put_le(doc_id, 8, &mut body);
    put_bytes(payload, &mut body);
    body
}

/// Puts a body behind its header, given the checksum of the body.
pub fn encode_frame(body: &[u8], sum: u32) -> (frame: Vec<u8>)
    ensures
        frame@ == framed(body@, sum),
{
    let mut frame: Vec<u8> = Vec::new();
    let len: u64 = body.len() as u64 % 0x1_0000_0000;
    proof {
        lemma_byte_ranges();
    }
    put_le(len, 4, &mut frame);
    put_le(sum as u64, 4, &mut frame);
    put_bytes(body, &mut frame);
    assert(frame@ =~= framed(body@, sum));
    frame
}

/// What the body of a complete frame turns out to be.
pub enum Frame {
    /// Its checksum is not the one in the header.
    Corrupt,
    /// Its checksum matches, but it is too short to hold an entry.
    Short,
    /// An entry: operation, document id and payload.
    Entry(u8, u64, Vec<u8>),
}

/// Judges the body of a complete frame, given the checksum in its header and the one it has.
pub fn decode_frame(body: &[u8], expected: u32, actual: u32) -> (frame: Frame)
    ensures
        frame is Corrupt <==> actual != expected,
        frame is Short <==> actual == expected && body@.len() < ENTRY_PREFIX,
        frame matches Frame::Entry(op, doc_id, payload) ==> (LogEntry {
            op,
            doc_id,
            payload: payload@,
        }) == body_entry(body@),
{
    if actual != expected {
        return Frame::Corrupt;
    }
    if body.len() < ENTRY_PREFIX {
        return Frame::Short;
    }
    let payload = slice_to_vec(slice_subrange(body, ENTRY_PREFIX, body.len()));
    assert(payload@ =~= body@.skip(ENTRY_PREFIX as int));
    Frame::Entry(body[0], get_le(body, 1, 8), payload)
}

/// The length of the body of the frame at the front of `data`, where all of it is there.
fn complete_body_len(data: &[u8]) -> (r: Option<usize>)
    ensures
        r is Some <==> frame_complete(data@),
        r matches Some(n) ==> n == body_len(data@),
{
    if data.len() < HEADER_SIZE {
        return None;
    }
    let len: u64 = get_le(data, 0, 4);
    if len > (data.len() - HEADER_SIZE) as u64 {
        return None;
    }
    Some(len as usize)
}

/// Reads the frame at the front of `data`, which is complete and has a body of `len` bytes.
fn read_frame(data: &[u8], len: usize) -> (frame: Frame)
    requires
        frame_complete(data@),
        len == body_len(data@),
    ensures
        frame is Corrupt <==> !frame_intact(data@),
        frame is Short <==> frame_intact(data@) && frame_body(data@).len() < ENTRY_PREFIX,
        frame matches Frame::Entry(op, doc_id, payload) ==> (LogEntry {
            op,
            doc_id,
            payload: payload@,
        }) == body_entry(frame_body(data@)),
{
    assert(HEADER_SIZE + len <= data.len());
    let body = slice_subrange(data, HEADER_SIZE, HEADER_SIZE + len);
    proof {
        lemma_byte_ranges();
    }
    let expected: u64 = get_le(data, 4, 4);
    decode_frame(body, expected as u32, checksum(body))
}

// ---------------------------------------------------------------------------------------------
// The log
// ---------------------------------------------------------------------------------------------

/// The end of a log: the frames that are still to be written, and where in the log they go.
pub struct WriteAheadLog {
    pub written: u64,
    pub pending: Vec<u8>,
}

impl WriteAheadLog {
    /// The end of the log can be told as a 64-bit offset.
    pub open spec fn wf(self) -> bool {
        self.written + self.pending@.len() <= u64::MAX
    }

    /// A log of which `written` bytes exist.
    pub fn new(written: u64) -> (log: Self)
        ensures
            log.wf(),
            log.written == written,
            log.pending@ == Seq::<u8>::empty(),
    {
        WriteAheadLog { written, pending: Vec::new() }
    }

    /// Appends an entry.
    pub fn append(&mut self, op: u8, doc_id: u64, payload: &[u8])
        requires
            old(self).wf(),
            old(self).written + old(self).pending@.len() + HEADER_SIZE + ENTRY_PREFIX
                + payload@.len() <= u64::MAX,
        ensures
            final(self).wf(),
            final(self).written == old(self).written,
            final(self).pending@ == old(self).pending@ + frame_bytes(
                LogEntry { op, doc_id, payload: payload@ },
            ),
    {
        let body = encode_body(op, doc_id, payload);
        let sum: u32 = checksum(body.as_slice());
        let frame = encode_frame(body.as_slice(), sum);
        proof {
            lemma_le_bytes_len(doc_id as nat, 8);
            lemma_le_bytes_len((body@.len() % byte_range(4)) as nat, 4);
            lemma_le_bytes_len(sum as nat, 4);
        }
        put_bytes(frame.as_slice(), &mut self.pending);
    }

    /// Appends a checkpoint: what comes before it is in segment `seg_id`.
    pub fn checkpoint(&mut self, seg_id: u64)
        requires
            old(self).wf(),
            old(self).written + old(self).pending@.len() + HEADER_SIZE + ENTRY_PREFIX + 8
                <= u64::MAX,
        ensures
            final(self).wf(),
            final(self).written == old(self).written,
            final(self).pending@ == old(self).pending@ + frame_bytes(checkpoint_entry(seg_id)),
    {
        let mut payload: Vec<u8> = Vec::new();
        put_le(seg_id, 8, &mut payload);
        proof {
            lemma_le_bytes_len(seg_id as nat, 8);
            assert(payload@ =~= le_bytes(seg_id as nat, 8));
        }
        self.append(OP_CHECKPOINT, 0, payload.as_slice());
    }

    /// Hands out the frames that are still to be written, and counts them as written.
    pub fn take_pending(&mut self) -> (frames: Vec<u8>)
        requires
            old(self).wf(),
        ensures
            final(self).wf(),
            frames@ == old(self).pending@,
            final(self).written == old(self).written + old(self).pending@.len(),
            final(self).pending@ == Seq::<u8>::empty(),
    {
        let mut frames: Vec<u8> = Vec::new();
        std::mem::swap(&mut frames, &mut self.pending);
        self.written = self.written + frames.len() as u64;
        frames
    }

    /// The byte offset at which the next entry starts.
    pub fn current_offset(&self) -> (offset: u64)
        requires
            self.wf(),
        ensures
            offset == self.written + self.pending@.len(),
    {
        self.written + self.pending.len() as u64
    }

    /// Reads a log back: the entries after the last checkpoint, as far as the log can be read.
    pub fn replay(data: &[u8]) -> (entries: Vec<(u8, u64, Vec<u8>)>)
        ensures
            entries_view(entries@) == since_checkpoint(readable(data@)),
    {
        let mut entries: Vec<(u8, u64, Vec<u8>)> = Vec::new();
        let mut pos: usize = 0;
        let ghost mut seen: Seq<LogEntry> = Seq::empty();
        proof {
            assert(data@.skip(0) =~= data@);
            assert(seen + readable(data@) =~= readable(data@));
            assert(entries_view(entries@) =~= since_checkpoint(seen));
        }
        loop
            invariant
                pos <= data.len(),
                readable(data@) == seen + readable(data@.skip(pos as int)),
                entries_view(entries@) == since_checkpoint(seen),
            decreases data.len() - pos,
        {
            let tail = slice_subrange(data, pos, data.len());
            assert(tail@ =~= data@.skip(pos as int));
            let len = match complete_body_len(tail) {
                None => {
                    assert(seen + readable(tail@) =~= seen);
                    return entries;
                },
                Some(len) => len,
            };
            match read_frame(tail, len) {
                Frame::Corrupt => {
                    assert(seen + readable(tail@) =~= seen);
                    return entries;
                },
                Frame::Short => {
                    assert(seen + readable(tail@) =~= seen);
                    return entries;
                },
                Frame::Entry(op, doc_id, payload) => {
                    let ghost e = LogEntry { op, doc_id, payload: payload@ };
                    let ghost before = entries@;
                    proof {
                        assert(seen.push(e).drop_last() =~= seen);
                        let later = readable(tail@.skip(HEADER_SIZE + len));
                        assert(seen + (seq![e] + later) =~= seen.push(e) + later);
                        seen = seen.push(e);
                    }
                    if op == OP_CHECKPOINT {
                        entries = Vec::new();
                        assert(entries_view(entries@) =~= Seq::empty());
                    } else {
                        entries.push((op, doc_id, payload));
                        assert(entries_view(entries@) =~= entries_view(before).push(e));
                    }
                },
            }
            assert(tail@.skip(HEADER_SIZE + len) =~= data@.skip(pos + HEADER_SIZE + len));
            pos += HEADER_SIZE + len;
        }
    }
}

pub open spec fn checkpoint_entry(seg_id: u64) -> LogEntry {
    LogEntry { op: OP_CHECKPOINT, doc_id: 0, payload: le_bytes(seg_id as nat, 8) }
}

// ---------------------------------------------------------------------------------------------
// What is read back is what was appended
// ---------------------------------------------------------------------------------------------

/// The length of the body of `e` fits in the four bytes that the header has for it.
pub open spec fn fits_frame(e: LogEntry) -> bool {
    ENTRY_PREFIX + e.payload.len() < byte_range(4)
}

pub open spec fn all_fit(entries: Seq<LogEntry>) -> bool {
    forall|i: int| 0 <= i < entries.len() ==> fits_frame(#[trigger] entries[i])
}

/// Appending an entry adds its frame to the bytes of the log.
pub proof fn law_log_grows(entries: Seq<LogEntry>, e: LogEntry)
    ensures
        log_bytes(entries.push(e)) == log_bytes(entries) + frame_bytes(e),
{
    let frames = entries.map_values(|e: LogEntry| frame_bytes(e));
    assert(entries.push(e).map_values(|e: LogEntry| frame_bytes(e)) =~= frames.push(
        frame_bytes(e),
    ));
    lemma_concat_push(frames, frame_bytes(e));
}

proof fn lemma_log_front(entries: Seq<LogEntry>)
    requires
        entries.len() > 0,
    ensures
        log_bytes(entries) == frame_bytes(entries[0]) + log_bytes(entries.skip(1)),
    decreases entries.len(),
{
    let front = entries.drop_last();
    law_log_grows(front, entries.last());
    assert(front.push(entries.last()) =~= entries);
    if entries.len() == 1 {
        assert(front =~= Seq::empty());
        assert(entries.skip(1) =~= Seq::empty());
        assert(log_bytes(front) =~= Seq::empty());
        assert(log_bytes(entries) =~= frame_bytes(entries[0]) + log_bytes(entries.skip(1)));
    } else {
        lemma_log_front(front);
        law_log_grows(front.skip(1), entries.last());
        assert(front.skip(1).push(entries.last()) =~= entries.skip(1));
        assert(log_bytes(entries) =~= frame_bytes(entries[0]) + log_bytes(entries.skip(1)));
    }
}

proof fn lemma_frame_len(e: LogEntry)
    ensures
        body_bytes(e).len() == ENTRY_PREFIX + e.payload.len(),
        frame_bytes(e).len() == HEADER_SIZE + ENTRY_PREFIX + e.payload.len(),
{
    lemma_le_bytes_len(e.doc_id as nat, 8);
    lemma_le_bytes_len((body_bytes(e).len() % byte_range(4)) as nat, 4);
    lemma_le_bytes_len(crc32(body_bytes(e)) as nat, 4);
}

/// The header of a frame, whatever is left of its body and whatever follows.
proof fn lemma_header(e: LogEntry, s: Seq<u8>)
    requires
        fits_frame(e),
        s.len() >= HEADER_SIZE,
        s.take(HEADER_SIZE as int) == frame_bytes(e).take(HEADER_SIZE as int),
    ensures
        body_len(s) == body_bytes(e).len(),
        header_sum(s) == crc32(body_bytes(e)),
{
    let body = body_bytes(e);
    let sum = crc32(body);
    lemma_frame_len(e);
    lemma_byte_ranges();
    law_le_roundtrip(body.len(), 4);
    law_le_roundtrip(sum as nat, 4);
    vstd::arithmetic::div_mod::lemma_small_mod(body.len(), byte_range(4));
    let head = s.take(HEADER_SIZE as int);
    assert(s.subrange(0, 4) =~= head.subrange(0, 4));
    assert(s.subrange(4, 8) =~= head.subrange(4, 8));
    assert(head.subrange(0, 4) =~= le_bytes(body.len(), 4));
    assert(head.subrange(4, 8) =~= le_bytes(sum as nat, 4));
}

/// A frame is read back as the entry it was made from.
proof fn lemma_frame_reads_back(e: LogEntry, rest: Seq<u8>)
    requires
        fits_frame(e),
    ensures
        frame_intact(frame_bytes(e) + rest),
        body_entry(frame_body(frame_bytes(e) + rest)) == e,
        frame_body(frame_bytes(e) + rest).len() >= ENTRY_PREFIX,
        (frame_bytes(e) + rest).skip(HEADER_SIZE + body_len(frame_bytes(e) + rest)) == rest,
{
    let s = frame_bytes(e) + rest;
    let body = body_bytes(e);
    lemma_frame_len(e);
    assert(s.take(HEADER_SIZE as int) =~= frame_bytes(e).take(HEADER_SIZE as int));
    lemma_header(e, s);
    assert(frame_body(s) =~= body) by {
        lemma_le_bytes_len((body.len() % byte_range(4)) as nat, 4);
        lemma_le_bytes_len(crc32(body) as nat, 4);
    }
    assert(s.skip(HEADER_SIZE + body_len(s)) =~= rest);
    lemma_byte_ranges();
    law_le_roundtrip(e.doc_id as nat, 8);
    assert(body.subrange(1, 9) =~= le_bytes(e.doc_id as nat, 8));
    assert(body.skip(ENTRY_PREFIX as int) =~= e.payload);
}

/// Every entry that was appended is readable, and where no frame that holds an entry follows them
/// nothing else is: whatever else stands behind them neither loses nor adds an entry.
pub proof fn law_readable(entries: Seq<LogEntry>, tail: Seq<u8>)
    requires
        all_fit(entries),
        !holds_entry(tail),
    ensures
        readable(log_bytes(entries) + tail) == entries,
    decreases entries.len(),
{
    if entries.len() == 0 {
        assert(log_bytes(entries) =~= Seq::empty());
        assert(log_bytes(entries) + tail =~= tail);
        assert(entries =~= Seq::empty());
    } else {
        let later = entries.skip(1);
        let rest = log_bytes(later) + tail;
        lemma_log_front(entries);
        assert(log_bytes(entries) + tail =~= frame_bytes(entries[0]) + rest);
        assert forall|i: int| 0 <= i < later.len() implies fits_frame(#[trigger] later[i]) by {
            assert(later[i] == entries[i + 1]);
        }
        law_readable(later, tail);
        lemma_frame_reads_back(entries[0], rest);
        assert(seq![entries[0]] + later =~= entries);
    }
}

/// Reading a log back gives the entries that were appended to it, and replaying it those that were
/// appended after the last checkpoint.
pub proof fn law_replay_gives_back(entries: Seq<LogEntry>)
    requires
        all_fit(entries),
    ensures
        readable(log_bytes(entries)) == entries,
        since_checkpoint(readable(log_bytes(entries))) == since_checkpoint(entries),
{
    assert(log_bytes(entries) + Seq::<u8>::empty() =~= log_bytes(entries));
    law_readable(entries, Seq::empty());
}

/// A crash in the middle of an append loses that entry and no other: however much of its frame
/// was written, short of all of it, replay gives what it gave before.
pub proof fn law_torn_append(entries: Seq<LogEntry>, e: LogEntry, written: int)
    requires
        all_fit(entries),
        fits_frame(e),
        0 <= written < frame_bytes(e).len(),
    ensures
        readable(log_bytes(entries) + frame_bytes(e).take(written)) == entries,
{
    let torn = frame_bytes(e).take(written);
    lemma_frame_len(e);
    if written >= HEADER_SIZE {
        assert(torn.take(HEADER_SIZE as int) =~= frame_bytes(e).take(HEADER_SIZE as int));
        lemma_header(e, torn);
    }
    law_readable(entries, torn);
}

/// A frame whose checksum does not match ends the replay, whatever follows it.
pub proof fn law_corruption_stops_replay(entries: Seq<LogEntry>, tail: Seq<u8>)
    requires
        all_fit(entries),
        frame_complete(tail),
        crc32(frame_body(tail)) != header_sum(tail),
    ensures
        readable(log_bytes(entries) + tail) == entries,
{
    law_readable(entries, tail);
}

/// A frame that is too short to hold an entry ends the replay, whatever follows it.
pub proof fn law_short_frame_stops_replay(entries: Seq<LogEntry>, tail: Seq<u8>)
    requires
        all_fit(entries),
        frame_complete(tail),
        body_len(tail) < ENTRY_PREFIX,
    ensures
        readable(log_bytes(entries) + tail) == entries,
{
    law_readable(entries, tail);
}

/// Zeros behind the entries, such as a crash may leave, end the replay.
pub proof fn law_zeros_stop_replay(entries: Seq<LogEntry>, tail: Seq<u8>)
    requires
        all_fit(entries),
        forall|i: int| 0 <= i < tail.len() ==> #[trigger] tail[i] == 0,
    ensures
        readable(log_bytes(entries) + tail) == entries,
{
    if tail.len() >= 8 {
        let len = tail.subrange(0, 4);
        assert(len[0] == 0 && len[1] == 0 && len[2] == 0 && len[3] == 0);
        reveal_with_fuel(le_value, 5);
    }
    law_readable(entries, tail);
}

/// The checksum of no bytes is zero.
pub proof fn law_crc_of_nothing()
    ensures
        crc32(Seq::empty()) == 0,
{
    assert(0xFFFF_FFFFu32 ^ 0xFFFF_FFFFu32 == 0) by (bit_vector);
}

/// Behind a checkpoint only what was appended after it is replayed.
pub proof fn law_checkpoint_truncates(before: Seq<LogEntry>, seg_id: u64, after: Seq<LogEntry>)
    requires
        forall|i: int| 0 <= i < after.len() ==> (#[trigger] after[i]).op != OP_CHECKPOINT,
    ensures
        since_checkpoint(before.push(checkpoint_entry(seg_id)) + after) == after,
    decreases after.len(),
{
    let all = before.push(checkpoint_entry(seg_id)) + after;
    if after.len() == 0 {
        assert(all =~= before.push(checkpoint_entry(seg_id)));
        assert(since_checkpoint(all) =~= after);
    } else {
        let front = after.drop_last();
        assert forall|i: int| 0 <= i < front.len() implies (#[trigger] front[i]).op
            != OP_CHECKPOINT by {
            assert(front[i] == after[i]);
        }
        law_checkpoint_truncates(before, seg_id, front);
        assert(all.drop_last() =~= before.push(checkpoint_entry(seg_id)) + front);
        assert(all.last() == after[after.len() - 1]);
        assert(front.push(after.last()) =~= after);
    }
}

/// Without a checkpoint everything is replayed.
pub proof fn law_no_checkpoint_replays_all(entries: Seq<LogEntry>)
    requires
        forall|i: int| 0 <= i < entries.len() ==> (#[trigger] entries[i]).op != OP_CHECKPOINT,
    ensures
        since_checkpoint(entries) == entries,
    decreases entries.len(),
{
    if entries.len() > 0 {
        let front = entries.drop_last();
        assert forall|i: int| 0 <= i < front.len() implies (#[trigger] front[i]).op
            != OP_CHECKPOINT by {
            assert(front[i] == entries[i]);
        }
        law_no_checkpoint_replays_all(front);
        assert(entries.last() == entries[entries.len() - 1]);
        assert(front.push(entries.last()) =~= entries);
    } else {
        assert(since_checkpoint(entries) =~= entries);
    }
}

// ---------------------------------------------------------------------------------------------
// What the bytes of a log mean
// ---------------------------------------------------------------------------------------------

/// The bytes of a body: the operation, eight bytes for the document, and the payload; and they are
/// read as they were written.
pub proof fn law_body(e: LogEntry)
    ensures
        body_bytes(e).len() == 9 + e.payload.len(),
        body_bytes(e)[0] == e.op,
        body_bytes(e).subrange(1, 9) == le_bytes(e.doc_id as nat, 8),
        body_bytes(e).skip(9) == e.payload,
        body_entry(body_bytes(e)).op == e.op,
        body_entry(body_bytes(e)).doc_id == e.doc_id,
        body_entry(body_bytes(e)).payload == e.payload,
{
    lemma_byte_ranges();
    law_le_roundtrip(e.doc_id as nat, 8);
    let body = body_bytes(e);
    assert(body.subrange(1, 9) =~= le_bytes(e.doc_id as nat, 8));
    assert(body.skip(9) =~= e.payload);
}

/// The bytes of a frame: four for the length of the body, four for its checksum, and the body.
pub proof fn law_frame_layout(e: LogEntry)
    requires
        9 + e.payload.len() < 0x1_0000_0000,
    ensures
        frame_bytes(e).len() == 17 + e.payload.len(),
        frame_bytes(e).subrange(0, 4) == le_bytes((9 + e.payload.len()) as nat, 4),
        frame_bytes(e).subrange(4, 8) == le_bytes(crc32(body_bytes(e)) as nat, 4),
        frame_bytes(e).skip(8) == body_bytes(e),
{
    lemma_byte_ranges();
    law_body(e);
    let body = body_bytes(e);
    lemma_le_bytes_len(body.len(), 4);
    lemma_le_bytes_len(crc32(body) as nat, 4);
    assert(body.len() % byte_range(4) == body.len());
    assert(frame_bytes(e).subrange(0, 4) =~= le_bytes(body.len(), 4));
    assert(frame_bytes(e).subrange(4, 8) =~= le_bytes(crc32(body) as nat, 4));
    assert(frame_bytes(e).skip(8) =~= body);
}

/// What counts as a frame: a header of eight bytes and as many bytes behind it as it says. It is
/// intact where it also says the checksum of these, and holds an entry where they are at least nine.
pub proof fn law_frame(s: Seq<u8>, e: LogEntry)
    ensures
        fits_frame(e) <==> 9 + e.payload.len() < 0x1_0000_0000,
        frame_complete(s) <==> 8 <= s.len() && 8 + le_value(s.subrange(0, 4)) <= s.len(),
        frame_complete(s) ==> body_len(s) == le_value(s.subrange(0, 4)),
        frame_complete(s) ==> frame_body(s) == s.skip(8).take(le_value(s.subrange(0, 4)) as int),
        frame_intact(s) <==> frame_complete(s) && crc32(frame_body(s)) == le_value(
            s.subrange(4, 8),
        ),
        holds_entry(s) <==> frame_intact(s) && le_value(s.subrange(0, 4)) >= 9,
{
    lemma_byte_ranges();
    if frame_complete(s) {
        assert(frame_body(s) =~= s.skip(8).take(le_value(s.subrange(0, 4)) as int));
    }
}

/// An entry at the front of a log is read, and then what follows it.
pub proof fn law_entry_is_read(e: LogEntry, rest: Seq<u8>)
    requires
        9 + e.payload.len() < 0x1_0000_0000,
    ensures
        holds_entry(frame_bytes(e) + rest),
        readable(frame_bytes(e) + rest) == seq![e] + readable(rest),
{
    law_frame_layout(e);
    law_body(e);
    lemma_byte_ranges();
    let s = frame_bytes(e) + rest;
    let body = body_bytes(e);
    law_le_roundtrip(body.len(), 4);
    law_le_roundtrip(crc32(body) as nat, 4);
    assert(s.subrange(0, 4) =~= frame_bytes(e).subrange(0, 4));
    assert(s.subrange(4, 8) =~= frame_bytes(e).subrange(4, 8));
    assert(frame_body(s) =~= body) by {
        assert(frame_bytes(e).skip(8) == body);
        assert forall|i: int| 0 <= i < body.len() implies frame_body(s)[i] == body[i] by {
            assert(frame_bytes(e).skip(8)[i] == frame_bytes(e)[8 + i]);
        }
    }
    assert(s.skip(HEADER_SIZE + body_len(s)) =~= rest);
    assert(body_entry(body) == e);
}

/// Where no entry is held nothing is read; and where one is, it is one that could have been written,
/// with other bytes behind it.
pub proof fn law_what_is_read(s: Seq<u8>) -> (r: (LogEntry, Seq<u8>))
    ensures
        !holds_entry(s) ==> readable(s) == Seq::<LogEntry>::empty(),
        holds_entry(s) ==> s == frame_bytes(r.0) + r.1 && 9 + r.0.payload.len() < 0x1_0000_0000,
{
    lemma_byte_ranges();
    let body = frame_body(s);
    let e = body_entry(body);
    let rest = s.skip(HEADER_SIZE + body_len(s));
    if holds_entry(s) {
        lemma_le_value_range(s.subrange(0, 4));
        lemma_le_value_range(s.subrange(4, 8));
        lemma_le_value_range(body.subrange(1, 9));
        law_le_rewrite(s.subrange(0, 4));
        law_le_rewrite(s.subrange(4, 8));
        law_le_rewrite(body.subrange(1, 9));
        assert(body_bytes(e) =~= body) by {
            assert(body.subrange(1, 9) == le_bytes(e.doc_id as nat, 8));
            assert forall|i: int| 0 <= i < body.len() implies body_bytes(e)[i] == body[i] by {
                if 1 <= i < 9 {
                    assert(body.subrange(1, 9)[i - 1] == body[i]);
                }
            }
        }
        law_frame_layout(e);
        assert(frame_bytes(e) + rest =~= s) by {
            assert(frame_bytes(e) =~= s.subrange(0, 4) + s.subrange(4, 8) + body);
        }
    }
    (e, rest)
}

/// The bytes of a log are the frames of its entries, one after the other.
pub proof fn law_log_bytes(entries: Seq<LogEntry>)
    ensures
        log_bytes(entries) == entries.map_values(|e: LogEntry| frame_bytes(e)).flatten(),
{
    law_concat_flattens(entries.map_values(|e: LogEntry| frame_bytes(e)));
}

/// What is replayed is what stands behind the last checkpoint, whatever the checkpoint says and
/// whatever stands before it; without a checkpoint it is everything.
pub proof fn law_behind_the_last_checkpoint(
    before: Seq<LogEntry>,
    checkpoint: LogEntry,
    after: Seq<LogEntry>,
)
    requires
        checkpoint.op == 0xFF,
        forall|i: int| 0 <= i < after.len() ==> (#[trigger] after[i]).op != 0xFF,
    ensures
        since_checkpoint(before.push(checkpoint) + after) == after,
        since_checkpoint(after) == after,
    decreases after.len(),
{
    let all = before.push(checkpoint) + after;
    if after.len() == 0 {
        assert(all.last() == checkpoint);
        assert(since_checkpoint(all) =~= after);
        assert(since_checkpoint(after) =~= after);
    } else {
        let less = after.drop_last();
        assert forall|i: int| 0 <= i < less.len() implies (#[trigger] less[i]).op != 0xFF by {
            assert(less[i] == after[i]);
        }
        law_behind_the_last_checkpoint(before, checkpoint, less);
        assert(all.drop_last() =~= before.push(checkpoint) + less);
        assert(all.last() == after.last());
        assert(after[after.len() - 1] == after.last());
        assert(less.push(after.last()) =~= after);
    }
}

/// Entries that are returned stand for what they hold.
pub proof fn law_entries_view(entries: Seq<(u8, u64, Vec<u8>)>)
    ensures
        entries_view(entries).len() == entries.len(),
        forall|i: int|
            0 <= i < entries.len() ==> {
                let e = #[trigger] entries_view(entries)[i];
                e.op == entries[i].0 && e.doc_id == entries[i].1 && e.payload == entries[i].2@
            },
{
}

/// A checkpoint names its segment.
pub proof fn law_checkpoint_entry(seg_id: u64)
    ensures
        checkpoint_entry(seg_id).op == 0xFF,
        checkpoint_entry(seg_id).doc_id == 0,
        checkpoint_entry(seg_id).payload == le_bytes(seg_id as nat, 8),
{
}

// ---------------------------------------------------------------------------------------------
// What the checksum notices
// ---------------------------------------------------------------------------------------------

proof fn lemma_crc_bit_apart(a: u32, b: u32)
    requires
        a != b,
    ensures
        crc_bit(a) != crc_bit(b),
{
    assert(crc_bit(a) != crc_bit(b)) by (bit_vector)
        requires
            a != b,
    ;
}

proof fn lemma_crc_bits_apart(a: u32, b: u32, n: nat)
    requires
        a != b,
    ensures
        crc_bits(a, n) != crc_bits(b, n),
    decreases n,
{
    if n > 0 {
        lemma_crc_bits_apart(a, b, (n - 1) as nat);
        lemma_crc_bit_apart(crc_bits(a, (n - 1) as nat), crc_bits(b, (n - 1) as nat));
    }
}

proof fn lemma_xor_apart(a: u32, b: u32, c: u32)
    requires
        a != b,
    ensures
        a ^ c != b ^ c,
        c ^ a != c ^ b,
{
    assert(a ^ c != b ^ c && c ^ a != c ^ b) by (bit_vector)
        requires
            a != b,
    ;
}

proof fn lemma_crc_stays_apart(a: Seq<u8>, b: Seq<u8>, tail: Seq<u8>)
    requires
        crc_bytes(a) != crc_bytes(b),
    ensures
        crc_bytes(a + tail) != crc_bytes(b + tail),
    decreases tail.len(),
{
    if tail.len() == 0 {
        assert(a + tail =~= a);
        assert(b + tail =~= b);
    } else {
        let less = tail.drop_last();
        lemma_crc_stays_apart(a, b, less);
        assert((a + tail).drop_last() =~= a + less);
        assert((b + tail).drop_last() =~= b + less);
        let byte = tail.last() as u32;
        lemma_xor_apart(crc_bytes(a + less), crc_bytes(b + less), byte);
        lemma_crc_bits_apart(crc_bytes(a + less) ^ byte, crc_bytes(b + less) ^ byte, 8);
    }
}

/// The checksum notices when one byte is changed, wherever it stands.
pub proof fn law_one_changed_byte_is_noticed(data: Seq<u8>, j: int, byte: u8)
    requires
        0 <= j < data.len(),
        byte != data[j],
    ensures
        crc32(data.update(j, byte)) != crc32(data),
{
    let front = data.take(j);
    let tail = data.skip(j + 1);
    let a = front.push(data[j]);
    let b = front.push(byte);
    assert(a.drop_last() =~= front);
    assert(b.drop_last() =~= front);
    let (x, y) = (data[j] as u32, byte as u32);
    lemma_xor_apart(x, y, crc_bytes(front));
    lemma_crc_bits_apart(crc_bytes(front) ^ x, crc_bytes(front) ^ y, 8);
    lemma_crc_stays_apart(a, b, tail);
    assert(data =~= a + tail);
    assert(data.update(j, byte) =~= b + tail);
    lemma_xor_apart(crc_bytes(a + tail), crc_bytes(b + tail), 0xFFFF_FFFF);
}

/// The checksum goes on from the checksum of what came before: where two texts have the same, they
/// have the same with the same behind them.
pub proof fn law_checksum_goes_on(a: Seq<u8>, b: Seq<u8>, tail: Seq<u8>)
    requires
        crc32(a) == crc32(b),
    ensures
        crc32(a + tail) == crc32(b + tail),
{
    if crc_bytes(a) != crc_bytes(b) {
        lemma_xor_apart(crc_bytes(a), crc_bytes(b), 0xFFFF_FFFF);
    }
    lemma_crc_goes_on(a, b, tail);
}

proof fn lemma_crc_goes_on(a: Seq<u8>, b: Seq<u8>, tail: Seq<u8>)
    requires
        crc_bytes(a) == crc_bytes(b),
    ensures
        crc_bytes(a + tail) == crc_bytes(b + tail),
    decreases tail.len(),
{
    if tail.len() == 0 {
        assert(a + tail =~= a);
        assert(b + tail =~= b);
    } else {
        lemma_crc_goes_on(a, b, tail.drop_last());
        assert((a + tail).drop_last() =~= a + tail.drop_last());
        assert((b + tail).drop_last() =~= b + tail.drop_last());
    }
}

/// A byte of an entry that was changed ends the replay: what was appended before it is read, and
/// neither it nor what follows.
pub proof fn law_changed_entry_ends_replay(
    entries: Seq<LogEntry>,
    e: LogEntry,
    rest: Seq<u8>,
    j: int,
    byte: u8,
)
    requires
        forall|i: int|
            0 <= i < entries.len() ==> 9 + (#[trigger] entries[i]).payload.len() < 0x1_0000_0000,
        9 + e.payload.len() < 0x1_0000_0000,
        8 <= j < frame_bytes(e).len(),
        byte != frame_bytes(e)[j],
    ensures
        readable(log_bytes(entries) + (frame_bytes(e).update(j, byte) + rest)) == entries,
{
    law_frame_layout(e);
    lemma_byte_ranges();
    let body = body_bytes(e);
    let frame = frame_bytes(e).update(j, byte);
    let tail = frame + rest;
    law_body(e);
    law_le_roundtrip(body.len(), 4);
    law_le_roundtrip(crc32(body) as nat, 4);
    assert(tail.subrange(0, 4) =~= frame_bytes(e).subrange(0, 4));
    assert(tail.subrange(4, 8) =~= frame_bytes(e).subrange(4, 8));
    assert(frame_bytes(e).skip(8)[j - 8] == frame_bytes(e)[j]);
    law_one_changed_byte_is_noticed(body, j - 8, byte);
    assert(frame_body(tail) =~= body.update(j - 8, byte)) by {
        assert forall|i: int| 0 <= i < body.len() implies frame_body(tail)[i] == body.update(
            j - 8,
            byte,
        )[i] by {
            assert(frame_bytes(e).skip(8)[i] == frame_bytes(e)[8 + i]);
        }
    }
    assert(all_fit(entries)) by {
        assert forall|i: int| 0 <= i < entries.len() implies fits_frame(#[trigger] entries[i]) by {}
    }
    law_corruption_stops_replay(entries, tail);
}

/// Entries that were appended are read back, whatever their number and whatever they hold.
pub proof fn law_log_is_read_back(entries: Seq<LogEntry>)
    requires
        forall|i: int|
            0 <= i < entries.len() ==> 9 + (#[trigger] entries[i]).payload.len() < 0x1_0000_0000,
    ensures
        readable(entries.map_values(|e: LogEntry| frame_bytes(e)).flatten()) == entries,
{
    lemma_byte_ranges();
    law_log_bytes(entries);
    assert(all_fit(entries)) by {
        assert forall|i: int| 0 <= i < entries.len() implies fits_frame(#[trigger] entries[i]) by {}
    }
    law_replay_gives_back(entries);
}

/// A body behind its header, whatever checksum it is given.
pub proof fn law_framed(body: Seq<u8>, sum: u32)
    ensures
        framed(body, sum).len() == 8 + body.len(),
        framed(body, sum).subrange(0, 4) == le_bytes(
            (body.len() as int % 0x1_0000_0000) as nat,
            4,
        ),
        framed(body, sum).subrange(4, 8) == le_bytes(sum as nat, 4),
        framed(body, sum).skip(8) == body,
{
    lemma_byte_ranges();
    let len = (body.len() as int % 0x1_0000_0000) as nat;
    lemma_le_bytes_len(len, 4);
    lemma_le_bytes_len(sum as nat, 4);
    assert(framed(body, sum).subrange(0, 4) =~= le_bytes(len, 4));
    assert(framed(body, sum).subrange(4, 8) =~= le_bytes(sum as nat, 4));
    assert(framed(body, sum).skip(8) =~= body);
}

/// The entry that a body holds, written again, is the body.
pub proof fn law_body_rewrite(body: Seq<u8>)
    requires
        9 <= body.len(),
    ensures
        body_bytes(body_entry(body)) == body,
{
    lemma_byte_ranges();
    let e = body_entry(body);
    lemma_le_value_range(body.subrange(1, 9));
    law_le_rewrite(body.subrange(1, 9));
    assert(body.subrange(1, 9) == le_bytes(e.doc_id as nat, 8));
    assert forall|i: int| 0 <= i < body.len() implies body_bytes(e)[i] == body[i] by {
        if 1 <= i < 9 {
            assert(body.subrange(1, 9)[i - 1] == body[i]);
        }
    }
    assert(body_bytes(e) =~= body);
}

} // verus!
