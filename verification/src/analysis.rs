//! The aggregator: builds per-boot summaries out of boot batches.
//!
//! A summary buckets a batch's records by severity, then by source
//! identifier, preserving arrival order within each identifier's bucket.
//! Records whose source identifier is on the ignore list are left out.
//! A boot-session id is summarized at most once: presenting the same id
//! again is a no-op reported as already present.

use vstd::prelude::*;
use crate::entry::{BootId, JournalEntry, RecordFields};
use crate::partition::JournalBootEntry;

verus! {

/// One message held in a summary bucket: its text and its timestamp.
pub struct MessageEntry {
    pub time: u128,
    pub message: String,
}

/// Mathematical content of a [`MessageEntry`].
#[verifier::ext_equal]
pub struct MessageView {
    pub time: u128,
    pub text: Seq<char>,
}

impl View for MessageEntry {
    type V = MessageView;

    open spec fn view(&self) -> MessageView {
        MessageView { time: self.time, text: self.message@ }
    }
}

/// The bucket of one source identifier: its messages in arrival order.
pub struct IdentBucket {
    pub identifier: String,
    pub messages: Vec<MessageEntry>,
}

/// Mathematical content of an [`IdentBucket`].
#[verifier::ext_equal]
pub struct IdentView {
    pub identifier: Seq<char>,
    pub messages: Seq<MessageView>,
}

impl View for IdentBucket {
    type V = IdentView;

    open spec fn view(&self) -> IdentView {
        IdentView {
            identifier: self.identifier@,
            messages: self.messages@.map_values(|m: MessageEntry| m@),
        }
    }
}

/// One boot session's summary: for each of the eight severities, the buckets
/// of the identifiers seen at that severity, in order of first appearance.
pub struct BootData {
    /// Indexed by the severity's numeric value; always eight entries.
    pub by_priority: Vec<Vec<IdentBucket>>,
    /// The boot's start timestamp: the timestamp of the batch's first record.
    pub timestamp: u128,
}

/// Mathematical content of a [`BootData`].
#[verifier::ext_equal]
pub struct BootDataView {
    pub timestamp: u128,
    pub buckets: Seq<Seq<IdentView>>,
}

impl View for BootData {
    type V = BootDataView;

    open spec fn view(&self) -> BootDataView {
        BootDataView {
            timestamp: self.timestamp,
            buckets: self.by_priority@.map_values(
                |row: Vec<IdentBucket>| row@.map_values(|b: IdentBucket| b@),
            ),
        }
    }
}

/// Index of the bucket of `id` in `bs`, or `-1` if there is none.
pub open spec fn find_ident(bs: Seq<IdentView>, id: Seq<char>) -> int
    decreases bs.len(),
{
    if bs.len() == 0 {
        -1
    } else if bs.last().identifier == id {
        bs.len() - 1
    } else {
        find_ident(bs.drop_last(), id)
    }
}

pub proof fn lemma_find_ident_props(bs: Seq<IdentView>, id: Seq<char>)
    ensures
        -1 <= find_ident(bs, id) < bs.len(),
        find_ident(bs, id) >= 0 ==> bs[find_ident(bs, id)].identifier == id,
        find_ident(bs, id) == -1 ==> forall|i: int| 0 <= i < bs.len()
            ==> #[trigger] bs[i].identifier != id,
    decreases bs.len(),
{
    if bs.len() > 0 && bs.last().identifier != id {
        lemma_find_ident_props(bs.drop_last(), id);
        if find_ident(bs, id) == -1 {
            assert forall|i: int| 0 <= i < bs.len() implies #[trigger] bs[i].identifier != id by {
                if i < bs.len() - 1 {
                    assert(bs.drop_last()[i] == bs[i]);
                }
            }
        }
    }
}

proof fn lemma_find_ident_at(bs: Seq<IdentView>, id: Seq<char>, j: int)
    requires
        0 <= j < bs.len(),
        bs[j].identifier == id,
        forall|t: int| j < t < bs.len() ==> #[trigger] bs[t].identifier != id,
    ensures
        find_ident(bs, id) == j,
    decreases bs.len(),
{
    if j < bs.len() - 1 {
        lemma_find_ident_at(bs.drop_last(), id, j);
    }
}

proof fn lemma_find_ident_none(bs: Seq<IdentView>, id: Seq<char>)
    requires
        forall|t: int| 0 <= t < bs.len() ==> #[trigger] bs[t].identifier != id,
    ensures
        find_ident(bs, id) == -1,
    decreases bs.len(),
{
    if bs.len() > 0 {
        lemma_find_ident_none(bs.drop_last(), id);
    }
}

/// Appends `m` to the bucket of `id`, creating that bucket at the end if the
/// identifier is new.
pub open spec fn spec_add_message(bs: Seq<IdentView>, id: Seq<char>, m: MessageView) -> Seq<
    IdentView,
> {
    let i = find_ident(bs, id);
    if i >= 0 {
        bs.update(i, IdentView { identifier: bs[i].identifier, messages: bs[i].messages.push(m) })
    } else {
        bs.push(IdentView { identifier: id, messages: seq![m] })
    }
}

/// A record's fields are sufficient for aggregation: severity, timestamp,
/// identifier and message are all present and well formed.
pub open spec fn record_addable(e: RecordFields) -> bool {
    &&& e.spec_priority() is Some
    &&& e.spec_timestamp() is Some
    &&& e.identifier is Some
    &&& e.message is Some
}

/// Files one record into the summary, under the severity it carries and the
/// bucket of its source identifier.
pub open spec fn spec_add_record(bd: BootDataView, e: RecordFields) -> BootDataView {
    let p = e.spec_priority().unwrap().spec_as_num() as int;
    let m = MessageView { time: e.spec_timestamp().unwrap(), text: e.message.unwrap() };
    BootDataView {
        timestamp: bd.timestamp,
        buckets: bd.buckets.update(p, spec_add_message(bd.buckets[p], e.identifier.unwrap(), m)),
    }
}

/// Whether `id` is on the ignore list.
pub open spec fn in_ignore(ignore: Seq<Seq<char>>, id: Seq<char>) -> bool {
    exists|i: int| 0 <= i < ignore.len() && ignore[i] == id
}

/// Files a batch's records in order, leaving out those whose source
/// identifier is on the ignore list.
pub open spec fn spec_add_records(
    bd: BootDataView,
    ignore: Seq<Seq<char>>,
    rs: Seq<RecordFields>,
) -> BootDataView
    decreases rs.len(),
{
    if rs.len() == 0 {
        bd
    } else {
        let prev = spec_add_records(bd, ignore, rs.drop_last());
        let e = rs.last();
        if in_ignore(ignore, e.identifier.unwrap()) {
            prev
        } else {
            spec_add_record(prev, e)
        }
    }
}

pub open spec fn idents_unique(bs: Seq<IdentView>) -> bool {
    forall|i: int, j: int| 0 <= i < j < bs.len()
        ==> #[trigger] bs[i].identifier != #[trigger] bs[j].identifier
}

/// Well-formedness of a summary: one row per severity, and within each row
/// at most one bucket per identifier.
pub open spec fn bootdata_wf(bd: BootDataView) -> bool {
    &&& bd.buckets.len() == 8
    &&& forall|p: int| 0 <= p < 8 ==> idents_unique(#[trigger] bd.buckets[p])
}

/// No bucket of the summary belongs to an ignored identifier.
pub open spec fn no_ignored(bd: BootDataView, ignore: Seq<Seq<char>>) -> bool {
    forall|p: int, i: int| 0 <= p < bd.buckets.len() && 0 <= i < bd.buckets[p].len()
        ==> !in_ignore(ignore, #[trigger] bd.buckets[p][i].identifier)
}

impl BootData {
    /// An empty summary with the given start timestamp.
    pub fn new(timestamp: u128) -> (r: BootData)
        ensures
            r@ == (BootDataView { timestamp, buckets: Seq::new(8, |i: int| Seq::empty()) }),
            bootdata_wf(r@),
    {
        let mut by_priority: Vec<Vec<IdentBucket>> = Vec::new();
        let mut i: usize = 0;
        while i < 8
            invariant
                0 <= i <= 8,
                by_priority@.len() == i,
                forall|j: int| 0 <= j < i ==> #[trigger] by_priority@[j]@.len() == 0,
            decreases 8 - i,
        {
            by_priority.push(Vec::new());
            i = i + 1;
        }
        let r = BootData { by_priority, timestamp };
        proof {
            assert(r@.buckets =~~= Seq::new(8, |i: int| Seq::<IdentView>::empty()));
        }
        r
    }

    /// Files one record, as [`spec_add_record`] states.
    pub fn add_entry(&mut self, entry: &JournalEntry)
        requires
            record_addable(entry@),
            bootdata_wf(old(self)@),
        ensures
            final(self)@ == spec_add_record(old(self)@, entry@),
            bootdata_wf(final(self)@),
    {
        let pr = entry.get_priority();
        let ts = entry.get_timestamp();
        let ident = entry.get_identifier();
        let msg = entry.get_message();
        if pr.is_none() || ts.is_none() || ident.is_none() || msg.is_none() {
            proof {
                assert(false);
            }
            return ;
        }
        let p: usize = pr.unwrap().as_num() as usize;
        let id: String = ident.unwrap().to_owned();
        let m = MessageEntry { time: ts.unwrap(), message: msg.unwrap().to_owned() };
        let ghost gm = m@;
        let ghost gid = id@;
        proof {
            assert(gm == MessageView {
                time: entry@.spec_timestamp().unwrap(),
                text: entry@.message.unwrap(),
            });
            assert(entry@.identifier == Some(gid));
        }
        let ghost bs0 = self@.buckets[p as int];
        let n = self.by_priority[p].len();
        let mut j: usize = 0;
        while j < n
            invariant
                *self == *old(self),
                bootdata_wf(self@),
                record_addable(entry@),
                n == self.by_priority@[p as int]@.len(),
                p < 8,
                0 <= j <= n,
                bs0 == self@.buckets[p as int],
                idents_unique(bs0),
                m@ == gm,
                id@ == gid,
                entry@.identifier == Some(gid),
                gm == (MessageView {
                    time: entry@.spec_timestamp().unwrap(),
                    text: entry@.message.unwrap(),
                }),
                p as int == entry@.spec_priority().unwrap().spec_as_num() as int,
                forall|t: int| 0 <= t < j ==> #[trigger] bs0[t].identifier != gid,
            decreases n - j,
        {
            if self.by_priority[p][j].identifier == id {
                proof {
                    assert(bs0[j as int].identifier == gid);
                    assert(forall|t: int| j < t < bs0.len()
                        ==> #[trigger] bs0[t].identifier != gid);
                    lemma_find_ident_at(bs0, gid, j as int);
                }
                let ghost old_self = *self;
                self.by_priority[p][j].messages.push(m);
                proof {
                    assert(self@.buckets[p as int][j as int].messages
                        =~= bs0[j as int].messages.push(gm));
                    assert(self@.buckets[p as int] =~~= spec_add_message(bs0, gid, gm));
                    let target = spec_add_record(old_self@, entry@);
                    assert(target.buckets == old_self@.buckets.update(
                        p as int,
                        spec_add_message(bs0, gid, gm),
                    ));
                    assert forall|q: int| 0 <= q < 8
                        implies self@.buckets[q] =~~= target.buckets[q] by {
                        if q != p as int {
                            assert(self.by_priority@[q] == old_self.by_priority@[q]);
                        }
                    }
                    assert(self@.buckets =~~= target.buckets);
                    assert(self@ =~~= target);
                    assert forall|t: int| 0 <= t < self@.buckets[p as int].len()
                        implies #[trigger] self@.buckets[p as int][t].identifier
                            == bs0[t].identifier by {}
                    assert(idents_unique(self@.buckets[p as int]));
                    assert(bootdata_wf(self@));
                }
                return ;
            }
            j = j + 1;
        }
        proof {
            lemma_find_ident_none(bs0, gid);
        }
        let ghost old_self = *self;
        let mut messages: Vec<MessageEntry> = Vec::new();
        messages.push(m);
        self.by_priority[p].push(IdentBucket { identifier: id, messages });
        proof {
            assert(self@.buckets[p as int]
                =~~= bs0.push(IdentView { identifier: gid, messages: seq![gm] }));
            assert(self@.buckets[p as int] =~~= spec_add_message(bs0, gid, gm));
            let target = spec_add_record(old_self@, entry@);
            assert(target.buckets == old_self@.buckets.update(
                p as int,
                spec_add_message(bs0, gid, gm),
            ));
            assert forall|q: int| 0 <= q < 8
                implies self@.buckets[q] =~~= target.buckets[q] by {
                if q != p as int {
                    assert(self.by_priority@[q] == old_self.by_priority@[q]);
                }
            }
            assert(self@.buckets =~~= target.buckets);
            assert(self@ =~~= target);
            assert(idents_unique(self@.buckets[p as int]));
            assert(bootdata_wf(self@));
        }
    }
}

/// Result of presenting one batch to the aggregator.
#[derive(Debug, Clone, Copy, PartialEq, Eq, Structural)]
pub enum AddOutcome {
    /// The batch's boot-session id was new; a summary was built and recorded.
    Added,
    /// The boot-session id was already summarized; nothing changed.
    AlreadyPresent,
}

/// The analysis state: one summary per boot-session id seen so far, plus the
/// ignore list in force.
pub struct Analysis {
    /// Summaries in the order their boots were first presented.
    pub by_boot: Vec<(BootId, BootData)>,
    /// Source identifiers whose records are left out of every summary.
    pub ignore: Vec<String>,
}

/// Mathematical content of an [`Analysis`].
#[verifier::ext_equal]
pub struct AnalysisView {
    pub boots: Seq<(BootId, BootDataView)>,
    pub ignore: Seq<Seq<char>>,
}

impl View for Analysis {
    type V = AnalysisView;

    open spec fn view(&self) -> AnalysisView {
        AnalysisView {
            boots: self.by_boot@.map_values(|e: (BootId, BootData)| (e.0, e.1@)),
            ignore: self.ignore@.map_values(|s: String| s@),
        }
    }
}

/// Index of the summary of boot-session `b`, or `-1` if there is none.
pub open spec fn find_boot(boots: Seq<(BootId, BootDataView)>, b: BootId) -> int
    decreases boots.len(),
{
    if boots.len() == 0 {
        -1
    } else if boots.last().0 == b {
        boots.len() - 1
    } else {
        find_boot(boots.drop_last(), b)
    }
}

/// Whether boot-session `b` already has a summary.
pub open spec fn has_boot(a: AnalysisView, b: BootId) -> bool {
    find_boot(a.boots, b) >= 0
}

pub proof fn lemma_find_boot_props(boots: Seq<(BootId, BootDataView)>, b: BootId)
    ensures
        -1 <= find_boot(boots, b) < boots.len(),
        find_boot(boots, b) >= 0 ==> boots[find_boot(boots, b)].0 == b,
        find_boot(boots, b) == -1 ==> forall|i: int| 0 <= i < boots.len()
            ==> (#[trigger] boots[i]).0 != b,
    decreases boots.len(),
{
    if boots.len() > 0 && boots.last().0 != b {
        lemma_find_boot_props(boots.drop_last(), b);
        if find_boot(boots, b) == -1 {
            assert forall|i: int| 0 <= i < boots.len() implies (#[trigger] boots[i]).0 != b by {
                if i < boots.len() - 1 {
                    assert(boots.drop_last()[i] == boots[i]);
                }
            }
        }
    }
}

proof fn lemma_find_boot_at(boots: Seq<(BootId, BootDataView)>, b: BootId, j: int)
    requires
        0 <= j < boots.len(),
        boots[j].0 == b,
        forall|t: int| j < t < boots.len() ==> (#[trigger] boots[t]).0 != b,
    ensures
        find_boot(boots, b) == j,
    decreases boots.len(),
{
    if j < boots.len() - 1 {
        lemma_find_boot_at(boots.drop_last(), b, j);
    }
}

proof fn lemma_find_boot_none(boots: Seq<(BootId, BootDataView)>, b: BootId)
    requires
        forall|t: int| 0 <= t < boots.len() ==> (#[trigger] boots[t]).0 != b,
    ensures
        find_boot(boots, b) == -1,
    decreases boots.len(),
{
    if boots.len() > 0 {
        lemma_find_boot_none(boots.drop_last(), b);
    }
}

/// A batch's records allow aggregation under the given ignore list: every
/// record names its source, and every record that is not ignored carries the
/// fields a summary needs.
pub open spec fn batch_records_addable(ignore: Seq<Seq<char>>, rs: Seq<RecordFields>) -> bool {
    forall|i: int| 0 <= i < rs.len() ==> (#[trigger] rs[i]).identifier is Some
        && (!in_ignore(ignore, rs[i].identifier.unwrap()) ==> record_addable(rs[i]))
}

/// The empty summary a batch starts from.
pub open spec fn empty_boot_data(ts: u128) -> BootDataView {
    BootDataView { timestamp: ts, buckets: Seq::new(8, |i: int| Seq::empty()) }
}

/// What presenting one batch does to the analysis state, and what it reports:
/// an already-present boot-session id changes nothing, a batch without a
/// start timestamp is not recorded, and any other batch is summarized and
/// appended.
pub open spec fn spec_add_batch(
    a: AnalysisView,
    boot_id: BootId,
    start_timestamp: Option<u128>,
    rs: Seq<RecordFields>,
) -> (AnalysisView, Option<AddOutcome>) {
    if has_boot(a, boot_id) {
        (a, Some(AddOutcome::AlreadyPresent))
    } else {
        match start_timestamp {
            None => (a, None),
            Some(ts) => {
                let bd = spec_add_records(empty_boot_data(ts), a.ignore, rs);
                (
                    AnalysisView { boots: a.boots.push((boot_id, bd)), ignore: a.ignore },
                    Some(AddOutcome::Added),
                )
            },
        }
    }
}

/// Well-formedness of the analysis state: at most one summary per
/// boot-session id, and every summary well formed with no ignored
/// identifier in any bucket.
pub open spec fn analysis_wf(a: AnalysisView) -> bool {
    &&& forall|i: int, j: int| 0 <= i < j < a.boots.len()
        ==> (#[trigger] a.boots[i]).0 != (#[trigger] a.boots[j]).0
    &&& forall|i: int| 0 <= i < a.boots.len()
        ==> bootdata_wf((#[trigger] a.boots[i]).1) && no_ignored(a.boots[i].1, a.ignore)
}

proof fn lemma_add_message_idents(bs: Seq<IdentView>, id: Seq<char>, m: MessageView)
    ensures
        bs.len() <= spec_add_message(bs, id, m).len() <= bs.len() + 1,
        forall|i: int| 0 <= i < spec_add_message(bs, id, m).len()
            ==> (#[trigger] spec_add_message(bs, id, m)[i]).identifier == id
                || (i < bs.len() && spec_add_message(bs, id, m)[i].identifier == bs[i].identifier),
{
    lemma_find_ident_props(bs, id);
}

proof fn lemma_add_record_preserves(bd: BootDataView, ignore: Seq<Seq<char>>, e: RecordFields)
    requires
        bootdata_wf(bd),
        no_ignored(bd, ignore),
        record_addable(e),
        !in_ignore(ignore, e.identifier.unwrap()),
    ensures
        bootdata_wf(spec_add_record(bd, e)),
        no_ignored(spec_add_record(bd, e), ignore),
{
    let p = e.spec_priority().unwrap().spec_as_num() as int;
    let id = e.identifier.unwrap();
    let m = MessageView { time: e.spec_timestamp().unwrap(), text: e.message.unwrap() };
    let new_row = spec_add_message(bd.buckets[p], id, m);
    lemma_add_message_idents(bd.buckets[p], id, m);
    lemma_find_ident_props(bd.buckets[p], id);
    assert(idents_unique(new_row)) by {
        if find_ident(bd.buckets[p], id) == -1 {
            assert forall|i: int, j: int| 0 <= i < j < new_row.len()
                implies (#[trigger] new_row[i]).identifier
                    != (#[trigger] new_row[j]).identifier by {
                if j < bd.buckets[p].len() {
                    assert(idents_unique(bd.buckets[p]));
                } else {
                    assert(new_row[j].identifier == id);
                    assert(bd.buckets[p][i].identifier != id);
                }
            }
        }
    }
}

/// Records whose source identifier is on the ignore list never appear in any
/// summary bucket: filing a batch's records keeps every bucket's identifier
/// off the ignore list, and the summary well formed.
pub proof fn lemma_ignored_never_bucketed(
    bd: BootDataView,
    ignore: Seq<Seq<char>>,
    rs: Seq<RecordFields>,
)
    requires
        bootdata_wf(bd),
        no_ignored(bd, ignore),
        batch_records_addable(ignore, rs),
    ensures
        bootdata_wf(spec_add_records(bd, ignore, rs)),
        no_ignored(spec_add_records(bd, ignore, rs), ignore),
    decreases rs.len(),
{
    if rs.len() > 0 {
        assert(batch_records_addable(ignore, rs.drop_last())) by {
            assert forall|i: int| 0 <= i < rs.drop_last().len()
                implies (#[trigger] rs.drop_last()[i]).identifier is Some
                    && (!in_ignore(ignore, rs.drop_last()[i].identifier.unwrap())
                        ==> record_addable(rs.drop_last()[i])) by {
                assert(rs.drop_last()[i] == rs[i]);
            }
        }
        lemma_ignored_never_bucketed(bd, ignore, rs.drop_last());
        let prev = spec_add_records(bd, ignore, rs.drop_last());
        let e = rs.last();
        assert(rs[rs.len() - 1] == e);
        if !in_ignore(ignore, e.identifier.unwrap()) {
            lemma_add_record_preserves(prev, ignore, e);
        }
    }
}

/// Presenting the same boot-session id twice: the first call reports `Added`,
/// the second `AlreadyPresent`, and the second call leaves the state — and so
/// the summary's content — unchanged.
pub proof fn lemma_add_batch_twice(
    a: AnalysisView,
    boot_id: BootId,
    start_timestamp: Option<u128>,
    rs: Seq<RecordFields>,
)
    ensures
        spec_add_batch(spec_add_batch(a, boot_id, start_timestamp, rs).0, boot_id,
            start_timestamp, rs).0 == spec_add_batch(a, boot_id, start_timestamp, rs).0,
        !has_boot(a, boot_id) && start_timestamp is Some ==> {
            &&& spec_add_batch(a, boot_id, start_timestamp, rs).1 == Some(AddOutcome::Added)
            &&& spec_add_batch(spec_add_batch(a, boot_id, start_timestamp, rs).0, boot_id,
                start_timestamp, rs).1 == Some(AddOutcome::AlreadyPresent)
        },
{
    let a1 = spec_add_batch(a, boot_id, start_timestamp, rs).0;
    if !has_boot(a, boot_id) && start_timestamp is Some {
        assert(a1.boots.last().0 == boot_id);
        assert(find_boot(a1.boots, boot_id) == a1.boots.len() - 1);
    }
}

impl Analysis {
    /// The empty analysis state, ignoring the `sudo` identifier: failed
    /// authentication attempts are not system issues.
    pub fn new() -> (r: Analysis)
        ensures
            r@.boots.len() == 0,
            r@.ignore == seq!["sudo"@],
            analysis_wf(r@),
    {
        let mut ignore: Vec<String> = Vec::new();
        ignore.push("sudo".to_owned());
        let r = Analysis { by_boot: Vec::new(), ignore };
        proof {
            assert(r@.ignore =~= seq!["sudo"@]);
        }
        r
    }

    /// The empty analysis state with a caller-chosen ignore list.
    pub fn with_ignore_list(ignore: Vec<String>) -> (r: Analysis)
        ensures
            r@.boots.len() == 0,
            r@.ignore == ignore@.map_values(|s: String| s@),
            analysis_wf(r@),
    {
        Analysis { by_boot: Vec::new(), ignore }
    }

    /// Whether records from `id` are suppressed.
    pub fn is_ignored(&self, id: &String) -> (r: bool)
        ensures
            r == in_ignore(self@.ignore, id@),
    {
        let n = self.ignore.len();
        let mut j: usize = 0;
        while j < n
            invariant
                n == self.ignore@.len(),
                0 <= j <= n,
                forall|t: int| 0 <= t < j ==> #[trigger] self@.ignore[t] != id@,
            decreases n - j,
        {
            if self.ignore[j] == *id {
                proof {
                    assert(self@.ignore[j as int] == id@);
                }
                return true;
            }
            j = j + 1;
        }
        false
    }

    /// Whether boot-session `b` already has a summary.
    pub fn contains_boot(&self, b: BootId) -> (r: bool)
        requires
            analysis_wf(self@),
        ensures
            r == has_boot(self@, b),
    {
        let n = self.by_boot.len();
        let mut j: usize = 0;
        while j < n
            invariant
                analysis_wf(self@),
                n == self.by_boot@.len(),
                0 <= j <= n,
                forall|t: int| 0 <= t < j ==> (#[trigger] self@.boots[t]).0 != b,
            decreases n - j,
        {
            if self.by_boot[j].0 == b {
                proof {
                    assert(self@.boots[j as int].0 == b);
                    assert(forall|t: int| j < t < self@.boots.len()
                        ==> (#[trigger] self@.boots[t]).0 != b);
                    lemma_find_boot_at(self@.boots, b, j as int);
                }
                return true;
            }
            j = j + 1;
        }
        proof {
            lemma_find_boot_none(self@.boots, b);
        }
        false
    }

    /// Presents one batch, as [`spec_add_batch`] states: a no-op reported as
    /// `AlreadyPresent` for a boot-session id already summarized, `None` for
    /// a batch without a start timestamp, and otherwise a fresh summary of
    /// the batch's non-ignored records, reported as `Added`.
    pub fn add_boot_entry(&mut self, entry: &JournalBootEntry) -> (r: Option<AddOutcome>)
        requires
            analysis_wf(old(self)@),
            has_boot(old(self)@, entry.boot_id) || entry.start_timestamp is None
                || batch_records_addable(old(self)@.ignore, entry.records()),
        ensures
            analysis_wf(final(self)@),
            final(self)@ == spec_add_batch(old(self)@, entry.boot_id, entry.start_timestamp,
                entry.records()).0,
            r == spec_add_batch(old(self)@, entry.boot_id, entry.start_timestamp,
                entry.records()).1,
    {
        if self.contains_boot(entry.boot_id) {
            return Some(AddOutcome::AlreadyPresent);
        }
        let ts: u128 = match entry.start_timestamp {
            Some(t) => t,
            None => {
                return None;
            },
        };
        let mut bd = BootData::new(ts);
        proof {
            assert(bd@ == empty_boot_data(ts));
            assert(no_ignored(bd@, self@.ignore));
        }
        let n = entry.entries.len();
        let mut i: usize = 0;
        while i < n
            invariant
                *self == *old(self),
                analysis_wf(self@),
                !has_boot(self@, entry.boot_id),
                batch_records_addable(self@.ignore, entry.records()),
                entry.start_timestamp == Some(ts),
                n == entry.entries@.len(),
                0 <= i <= n,
                bd@ == spec_add_records(empty_boot_data(ts), self@.ignore,
                    entry.records().take(i as int)),
                bootdata_wf(bd@),
                no_ignored(bd@, self@.ignore),
            decreases n - i,
        {
            let ghost prev = bd@;
            let e = &entry.entries[i];
            proof {
                assert(entry.records()[i as int] == e@);
            }
            let idento = e.get_identifier();
            if idento.is_none() {
                proof {
                    assert(false);
                }
                return None;
            }
            let id: String = idento.unwrap().to_owned();
            if !self.is_ignored(&id) {
                bd.add_entry(e);
                proof {
                    lemma_add_record_preserves(prev, self@.ignore, e@);
                }
            }
            proof {
                assert(entry.records().take(i + 1).drop_last() =~= entry.records().take(i as int));
                assert(entry.records().take(i + 1).last() == e@);
            }
            i = i + 1;
        }
        proof {
            assert(entry.records().take(n as int) =~= entry.records());
        }
        let ghost old_view = self@;
        let ghost gbd = bd@;
        self.by_boot.push((entry.boot_id, bd));
        proof {
            assert(self@.boots =~= old_view.boots.push((entry.boot_id, gbd)));
            assert(self@.ignore =~= old_view.ignore);
            assert(self@ =~~= spec_add_batch(old_view, entry.boot_id, entry.start_timestamp,
                entry.records()).0);
            lemma_find_boot_props(old_view.boots, entry.boot_id);
            assert(analysis_wf(self@)) by {
                assert forall|x: int, y: int| 0 <= x < y < self@.boots.len()
                    implies (#[trigger] self@.boots[x]).0 != (#[trigger] self@.boots[y]).0 by {
                    if y == self@.boots.len() - 1 {
                        assert(self@.boots[x] == old_view.boots[x]);
                    }
                }
            }
        }
        Some(AddOutcome::Added)
    }
}

} // verus!
