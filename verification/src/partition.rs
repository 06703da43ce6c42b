//! The boot partitioner: turns an ordered sequence of decoded frames into
//! batches of contiguous records that share one boot-session id.
//!
//! Pulling the next batch takes the next record as the batch's first record
//! and its boot-session id as the batch's key, then keeps consuming following
//! records for as long as they decode and carry the same id. A frame that is
//! not a well-formed record terminates the stream when it would start a batch,
//! but only ends the current batch when met as lookahead: the batch built so
//! far is emitted, and an error item carrying the id seen so far surfaces on
//! the next pull.

use vstd::prelude::*;
use crate::entry::{BootId, JournalEntry, RecordFields, decode_frame, frame_fields};

verus! {

/// One frame of the raw stream after decoding.
#[derive(Debug)]
pub enum DecodedFrame {
    /// The frame decoded as a record.
    Entry(JournalEntry),
    /// The frame was read, but is not a well-formed record.
    Malformed,
    /// The frame could not be read from the source; carries the cause.
    ReadFailure(String),
}

/// One batch: the contiguous records of one boot session.
#[derive(Debug)]
pub struct JournalBootEntry {
    /// The records of the batch, in stream order.
    pub entries: Vec<JournalEntry>,
    /// The boot-session id shared by every record of the batch.
    pub boot_id: BootId,
    /// Timestamp of the batch's first record; absent if that record carries
    /// none (tolerated, not fatal).
    pub start_timestamp: Option<u128>,
}

/// An error item of the batch stream: a batch boundary that could not be
/// read or decoded.
#[derive(Debug)]
pub struct JournalBootEntryError {
    /// Description of the underlying failure.
    pub cause: String,
    /// The boot-session id known so far, if any.
    pub boot_id: Option<BootId>,
}

/// The record a frame decodes to, if any.
pub open spec fn frame_record(f: DecodedFrame) -> Option<RecordFields> {
    match f {
        DecodedFrame::Entry(e) => Some(e@),
        _ => None,
    }
}

/// The boot-session id a frame carries, if it decodes to a record whose hex
/// id field is present and well formed.
pub open spec fn frame_boot_id(f: DecodedFrame) -> Option<BootId> {
    match f {
        DecodedFrame::Entry(e) => e@.spec_boot_id(),
        _ => None,
    }
}

/// Length of the contiguous run of frames carrying boot-session id `b` that
/// starts at `pos`.
pub open spec fn run_len(frames: Seq<DecodedFrame>, pos: int, b: BootId) -> nat
    decreases frames.len() - pos when 0 <= pos <= frames.len()
{
    if pos >= frames.len() {
        0
    } else if frame_boot_id(frames[pos]) == Some(b) {
        (1 + run_len(frames, pos + 1, b)) as nat
    } else {
        0
    }
}

proof fn lemma_run_len_interval(frames: Seq<DecodedFrame>, pos: int, end: int, b: BootId)
    requires
        0 <= pos <= end <= frames.len(),
        forall|j: int| pos <= j < end ==> frame_boot_id(#[trigger] frames[j]) == Some(b),
        end == frames.len() || frame_boot_id(frames[end]) != Some(b),
    ensures
        run_len(frames, pos, b) == end - pos,
    decreases end - pos,
{
    if pos < end {
        lemma_run_len_interval(frames, pos + 1, end, b);
    }
}

impl JournalBootEntry {
    /// The mathematical content of the batch's records, in order.
    pub open spec fn records(self) -> Seq<RecordFields> {
        self.entries@.map_values(|e: JournalEntry| e@)
    }
}

/// The partitioner: pulls batches out of a decoded frame sequence.
pub struct JournalBootIterator {
    frames: Vec<DecodedFrame>,
    pos: usize,
    pending: Option<JournalBootEntryError>,
    finished: bool,
}

/// What one pull of [`JournalBootIterator::next`] does: relates the states
/// before (`o`) and after (`s`) the call and its result `r`.
pub open spec fn next_spec(
    o: JournalBootIterator,
    s: JournalBootIterator,
    r: Option<Result<JournalBootEntry, JournalBootEntryError>>,
) -> bool {
    let frames = o.frames();
    &&& s.frames() == frames
    &&& match o.pending() {
        // A pending error item surfaces before anything else.
        Some(e) => {
            &&& r == Some(Result::<JournalBootEntry, JournalBootEntryError>::Err(e))
            &&& s.pending() is None
            &&& s.pos() == o.pos()
            &&& s.finished() == o.finished()
        },
        None => {
            if o.finished() || o.pos() >= frames.len() {
                // The stream has terminated, or the frames are exhausted.
                &&& r is None
                &&& s.pending() is None
                &&& s.pos() == o.pos()
                &&& s.finished() == o.finished()
            } else {
                match frames[o.pos() as int] {
                    DecodedFrame::ReadFailure(c) => {
                        // A read failure at a batch boundary is an error item
                        // with no id; the stream goes on.
                        &&& r matches Some(Err(err)) && err.cause@ == c@ && err.boot_id is None
                        &&& s.pos() == o.pos() + 1
                        &&& s.pending() is None
                        &&& s.finished() == o.finished()
                    },
                    DecodedFrame::Malformed => {
                        // A malformed first record gives no way to establish
                        // group identity: the stream terminates.
                        &&& r is None
                        &&& s.pos() == o.pos()
                        &&& s.pending() is None
                        &&& s.finished()
                    },
                    DecodedFrame::Entry(e) => match e@.spec_boot_id() {
                        None => {
                            // No boot-session id on the first record: no way
                            // to establish group identity either.
                            &&& r is None
                            &&& s.pos() == o.pos()
                            &&& s.pending() is None
                            &&& s.finished()
                        },
                        Some(b) => {
                            let k = run_len(frames, o.pos() as int, b) as int;
                            let q = o.pos() + k;
                            &&& r matches Some(Ok(batch))
                                && batch.boot_id == b
                                && batch.start_timestamp == e@.spec_timestamp()
                                && batch.records().len() == k
                                && (forall|j: int| 0 <= j < k
                                    ==> Some(#[trigger] batch.records()[j])
                                        == frame_record(frames[o.pos() + j]))
                            &&& !s.finished()
                            &&& if q == frames.len() || (frames[q] matches DecodedFrame::Entry(e2)
                                    && e2@.spec_boot_id() is Some) {
                                // The run ended at the stream's end or at the
                                // next boot's first record: nothing consumed
                                // beyond the batch.
                                &&& s.pos() == q
                                &&& s.pending() is None
                            } else {
                                // The lookahead frame is unusable: it is
                                // consumed, the batch is emitted now, and an
                                // error item carrying this batch's id comes
                                // on the next pull.
                                &&& s.pos() == q + 1
                                &&& s.pending() matches Some(err)
                                    && err.boot_id == Some(b)
                                    && err.cause@ == (match frames[q] {
                                        DecodedFrame::ReadFailure(c) => c@,
                                        DecodedFrame::Malformed => "malformed frame"@,
                                        DecodedFrame::Entry(_) => "missing boot id"@,
                                    })
                            }
                        },
                    },
                }
            }
        },
    }
}

impl JournalBootIterator {
    pub closed spec fn frames(self) -> Seq<DecodedFrame> {
        self.frames@
    }

    pub closed spec fn pos(self) -> usize {
        self.pos
    }

    pub closed spec fn pending(self) -> Option<JournalBootEntryError> {
        self.pending
    }

    pub closed spec fn finished(self) -> bool {
        self.finished
    }

    pub open spec fn wf(self) -> bool {
        self.pos() <= self.frames().len()
    }

    /// A fresh partitioner over `frames`, positioned at the start.
    pub fn new(frames: Vec<DecodedFrame>) -> (r: JournalBootIterator)
        ensures
            r.wf(),
            r.frames() == frames@,
            r.pos() == 0,
            r.pending() is None,
            !r.finished(),
    {
        JournalBootIterator { frames, pos: 0, pending: None, finished: false }
    }

    /// Pulls the next batch, error item, or end of stream, as [`next_spec`]
    /// states.
    pub fn next(&mut self) -> (r: Option<Result<JournalBootEntry, JournalBootEntryError>>)
        requires
            old(self).wf(),
        ensures
            final(self).wf(),
            next_spec(*old(self), *final(self), r),
    {
        if self.pending.is_some() {
            let mut taken: Option<JournalBootEntryError> = None;
            core::mem::swap(&mut self.pending, &mut taken);
            match taken {
                Some(e) => {
                    return Some(Err(e));
                },
                None => {
                    return None;
                },
            }
        }
        if self.finished {
            return None;
        }
        if self.pos >= self.frames.len() {
            return None;
        }
        let (first, bid) = match &self.frames[self.pos] {
            DecodedFrame::ReadFailure(c) => {
                let cause = c.clone();
                self.pos = self.pos + 1;
                return Some(Err(JournalBootEntryError { cause, boot_id: None }));
            },
            DecodedFrame::Malformed => {
                self.finished = true;
                return None;
            },
            DecodedFrame::Entry(e) => match e.get_boot_id() {
                None => {
                    self.finished = true;
                    return None;
                },
                Some(b) => (e.clone(), b),
            },
        };
        let ghost frames = self.frames@;
        let ghost start_pos = self.pos as int;
        let start_timestamp = first.get_timestamp();
        let mut entries: Vec<JournalEntry> = Vec::new();
        entries.push(first);
        let n = self.frames.len();
        let mut end: usize = self.pos + 1;
        let mut pend: Option<JournalBootEntryError> = None;
        let mut extra: usize = 0;
        loop
            invariant_except_break
                pend is None,
                extra == 0,
            invariant
                self.frames@ == frames,
                n == frames.len(),
                0 <= start_pos < n,
                start_pos + 1 <= end <= n,
                forall|j: int| start_pos <= j < end
                    ==> frame_boot_id(#[trigger] frames[j]) == Some(bid),
                entries@.len() == end - start_pos,
                forall|j: int| 0 <= j < entries@.len()
                    ==> Some(#[trigger] entries@[j]@) == frame_record(frames[start_pos + j]),
            ensures
                end == n || frame_boot_id(frames[end as int]) != Some(bid),
                if end == n || (frames[end as int] matches DecodedFrame::Entry(e2)
                        && e2@.spec_boot_id() is Some) {
                    pend is None && extra == 0
                } else {
                    extra == 1 && (pend matches Some(err)
                        && err.boot_id == Some(bid)
                        && err.cause@ == (match frames[end as int] {
                            DecodedFrame::ReadFailure(c) => c@,
                            DecodedFrame::Malformed => "malformed frame"@,
                            DecodedFrame::Entry(_) => "missing boot id"@,
                        }))
                },
            decreases n - end,
        {
            if end >= n {
                break;
            }
            match &self.frames[end] {
                DecodedFrame::Entry(e2) => {
                    match e2.get_boot_id() {
                        Some(b2) => {
                            if b2 == bid {
                                entries.push(e2.clone());
                                end = end + 1;
                            } else {
                                break;
                            }
                        },
                        None => {
                            pend = Some(JournalBootEntryError {
                                cause: "missing boot id".to_owned(),
                                boot_id: Some(bid),
                            });
                            extra = 1;
                            break;
                        },
                    }
                },
                DecodedFrame::Malformed => {
                    pend = Some(JournalBootEntryError {
                        cause: "malformed frame".to_owned(),
                        boot_id: Some(bid),
                    });
                    extra = 1;
                    break;
                },
                DecodedFrame::ReadFailure(c) => {
                    pend = Some(JournalBootEntryError {
                        cause: c.clone(),
                        boot_id: Some(bid),
                    });
                    extra = 1;
                    break;
                },
            }
        }
        proof {
            lemma_run_len_interval(frames, start_pos, end as int, bid);
        }
        self.pos = end + extra;
        self.pending = pend;
        Some(Ok(JournalBootEntry { entries, boot_id: bid, start_timestamp }))
    }
}

/// Every frame decodes to a record that carries a boot-session id.
pub open spec fn all_frames_identified(frames: Seq<DecodedFrame>) -> bool {
    forall|i: int| 0 <= i < frames.len() ==> frame_boot_id(#[trigger] frames[i]) is Some
}

/// The records the frames decode to, position by position.
pub open spec fn frames_records(frames: Seq<DecodedFrame>) -> Seq<RecordFields> {
    Seq::new(frames.len(), |i: int| frame_record(frames[i]).unwrap())
}

/// The records of a sequence of batches, concatenated in order.
pub open spec fn concat_records(bs: Seq<JournalBootEntry>) -> Seq<RecordFields>
    decreases bs.len(),
{
    if bs.len() == 0 {
        Seq::empty()
    } else {
        concat_records(bs.drop_last()) + bs.last().records()
    }
}

/// A contiguous same-id run covers exactly the positions its length says,
/// and stops at a frame of another id or at the end.
proof fn lemma_run_len_props(frames: Seq<DecodedFrame>, pos: int, b: BootId)
    requires
        0 <= pos <= frames.len(),
    ensures
        pos + run_len(frames, pos, b) <= frames.len(),
        forall|j: int| pos <= j < pos + run_len(frames, pos, b)
            ==> frame_boot_id(#[trigger] frames[j]) == Some(b),
        pos + run_len(frames, pos, b) == frames.len()
            || frame_boot_id(frames[pos + run_len(frames, pos, b)]) != Some(b),
    decreases frames.len() - pos,
{
    if pos < frames.len() && frame_boot_id(frames[pos]) == Some(b) {
        lemma_run_len_props(frames, pos + 1, b);
    }
}

/// Partitions a fully identified frame sequence into boot batches.
///
/// The emitted batches exactly partition the input into its contiguous
/// equal-id runs: their records concatenate to the input's records (no record
/// lost, none duplicated), every batch is a non-empty run of one boot-session
/// id, and adjacent batches carry different ids — so each batch is a maximal
/// such run.
pub fn partition_all(frames: Vec<DecodedFrame>) -> (r: Vec<JournalBootEntry>)
    requires
        all_frames_identified(frames@),
    ensures
        concat_records(r@) == frames_records(frames@),
        forall|i: int| 0 <= i < r@.len() ==> #[trigger] r@[i].records().len() > 0,
        forall|i: int, j: int| 0 <= i < r@.len() && 0 <= j < r@[i].records().len()
            ==> #[trigger] r@[i].records()[j].spec_boot_id() == Some(r@[i].boot_id),
        forall|i: int| 0 <= i < r@.len() - 1
            ==> #[trigger] r@[i].boot_id != r@[i + 1].boot_id,
{
    let ghost gframes = frames@;
    let mut it = JournalBootIterator::new(frames);
    let mut out: Vec<JournalBootEntry> = Vec::new();
    loop
        invariant
            it.wf(),
            it.frames() == gframes,
            all_frames_identified(gframes),
            it.pending() is None,
            !it.finished(),
            concat_records(out@) == frames_records(gframes).take(it.pos() as int),
            forall|i: int| 0 <= i < out@.len() ==> #[trigger] out@[i].records().len() > 0,
            forall|i: int, j: int| 0 <= i < out@.len() && 0 <= j < out@[i].records().len()
                ==> #[trigger] out@[i].records()[j].spec_boot_id() == Some(out@[i].boot_id),
            forall|i: int| 0 <= i < out@.len() - 1
                ==> #[trigger] out@[i].boot_id != out@[i + 1].boot_id,
            out@.len() > 0 && it.pos() < gframes.len()
                ==> frame_boot_id(gframes[it.pos() as int])
                    != Some(out@[out@.len() - 1].boot_id),
        ensures
            it.pos() == gframes.len(),
            concat_records(out@) == frames_records(gframes).take(it.pos() as int),
            forall|i: int| 0 <= i < out@.len() ==> #[trigger] out@[i].records().len() > 0,
            forall|i: int, j: int| 0 <= i < out@.len() && 0 <= j < out@[i].records().len()
                ==> #[trigger] out@[i].records()[j].spec_boot_id() == Some(out@[i].boot_id),
            forall|i: int| 0 <= i < out@.len() - 1
                ==> #[trigger] out@[i].boot_id != out@[i + 1].boot_id,
        decreases gframes.len() - it.pos(),
    {
        let ghost pos0 = it.pos() as int;
        match it.next() {
            None => {
                break;
            },
            Some(Ok(b)) => {
                proof {
                    let bid = b.boot_id;
                    let k = run_len(gframes, pos0, bid) as int;
                    lemma_run_len_props(gframes, pos0, bid);
                    assert(b.records() =~= frames_records(gframes).subrange(pos0, pos0 + k));
                    assert(out@.push(b).drop_last() =~= out@);
                    assert(concat_records(out@.push(b))
                        =~= frames_records(gframes).take(pos0 + k)) by {
                        assert(frames_records(gframes).take(pos0)
                            + frames_records(gframes).subrange(pos0, pos0 + k)
                            =~= frames_records(gframes).take(pos0 + k));
                    }
                }
                out.push(b);
            },
            Some(Err(_)) => {
                proof {
                    assert(false);
                }
                break;
            },
        }
    }
    proof {
        assert(frames_records(gframes).take(gframes.len() as int) =~= frames_records(gframes));
    }
    out
}

/// Decodes raw frames into [`DecodedFrame`]s, one for one: a read failure is
/// kept as such, and each read frame is decoded as a record or marked
/// malformed.
pub fn decode_frames(raw: Vec<Result<Vec<u8>, String>>) -> (r: Vec<DecodedFrame>)
    ensures
        r@.len() == raw@.len(),
        forall|i: int| 0 <= i < raw@.len() ==> (match raw@[i] {
            Ok(bytes) => match frame_fields(bytes@) {
                Some(fields) => #[trigger] frame_record(r@[i]) == Some(fields)
                    && r@[i] is Entry,
                None => r@[i] is Malformed,
            },
            Err(cause) => r@[i] matches DecodedFrame::ReadFailure(c) && c@ == cause@,
        }),
{
    let mut out: Vec<DecodedFrame> = Vec::new();
    let n = raw.len();
    let mut i: usize = 0;
    while i < n
        invariant
            n == raw@.len(),
            0 <= i <= n,
            out@.len() == i,
            forall|j: int| 0 <= j < i ==> (match raw@[j] {
                Ok(bytes) => match frame_fields(bytes@) {
                    Some(fields) => #[trigger] frame_record(out@[j]) == Some(fields)
                        && out@[j] is Entry,
                    None => out@[j] is Malformed,
                },
                Err(cause) => out@[j] matches DecodedFrame::ReadFailure(c) && c@ == cause@,
            }),
        decreases n - i,
    {
        match &raw[i] {
            Ok(bytes) => {
                match decode_frame(bytes.as_slice()) {
                    Some(e) => out.push(DecodedFrame::Entry(e)),
                    None => out.push(DecodedFrame::Malformed),
                }
            },
            Err(cause) => {
                out.push(DecodedFrame::ReadFailure(cause.clone()));
            },
        }
        i = i + 1;
    }
    out
}

} // verus!
