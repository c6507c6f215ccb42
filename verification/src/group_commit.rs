//! Group commit: several commits share one sync of the log.
//!
//! Each commit puts its record into a buffer and gets a number. One of the committers leads: it
//! takes the buffer, writes its records to the log and syncs the log once for all of them. The
//! others wait until their number is durable.
//!
//! The state here decides who leads and when. A host with several threads keeps it under a lock,
//! asks `commit_step` what to do, and waits where it is told to.

use crate::codec::{append_bytes, copy_range, get_u32, le32, le32_at, lemma_le_fixed, put_u32};
use crate::disk::{Disk, FileId, Files};
use crate::error::{corruption, invalid_argument, Error, ErrorView};
use crate::text::text_of;
use crate::wal::{append_place, append_plan, append_refusal, clean_log, durable_before, log_end,
    law_synced_log_survives, with_groups, WalConfig, WalRecord, WalWriter};
use vstd::prelude::*;

verus! {

/// Settings of group commit.
#[derive(Debug, Clone, Copy)]
pub struct GroupCommitConfig {
    /// How long a batch may wait, in nanoseconds.
    pub max_batch_wait_ns: u64,
    /// How many commits a batch may have.
    pub max_batch_size: u64,
    /// From how many commits on a batch does not wait.
    pub min_batch_for_delay: u64,
}

impl Default for GroupCommitConfig {
    fn default() -> (r: Self)
        ensures
            r.max_batch_wait_ns == 1_000_000,
            r.max_batch_size == 1000,
            r.min_batch_for_delay == 2,
    {
        GroupCommitConfig {
            max_batch_wait_ns: 1_000_000,
            max_batch_size: 1000,
            min_batch_for_delay: 2,
        }
    }
}

/// Counts of commits and syncs.
#[derive(Debug, Clone, Copy)]
pub struct GroupCommitStats {
    /// Commits so far.
    pub total_commits: u64,
    /// Syncs so far.
    pub total_fsyncs: u64,
}

impl Default for GroupCommitStats {
    fn default() -> (r: Self)
        ensures
            r.total_commits == 0,
            r.total_fsyncs == 0,
    {
        GroupCommitStats { total_commits: 0, total_fsyncs: 0 }
    }
}

impl GroupCommitStats {
    /// Sets the counts to zero.
    pub fn reset(&mut self)
        ensures
            final(self).total_commits == 0,
            final(self).total_fsyncs == 0,
    {
        self.total_commits = 0;
        self.total_fsyncs = 0;
    }
}

/// A count after one more; the largest number stays.
pub open spec fn counted(n: u64) -> u64 {
    if n < u64::MAX {
        (n + 1) as u64
    } else {
        n
    }
}

/// Records, each with its length before it.
pub open spec fn framed(rs: Seq<Seq<u8>>) -> Seq<u8>
    decreases rs.len(),
{
    if rs.len() == 0 {
        Seq::<u8>::empty()
    } else {
        framed(rs.drop_last()) + le32(rs.last().len() as u32) + rs.last()
    }
}

/// The records in a buffer from a place on, and what is wrong with the rest, if anything.
pub open spec fn frames_from(b: Seq<u8>, off: nat) -> (Seq<Seq<u8>>, Option<ErrorView>)
    decreases b.len() - off,
{
    if off >= b.len() {
        (Seq::empty(), None)
    } else if off + 4 > b.len() {
        (Seq::empty(), Some(ErrorView::Corruption("truncated batch buffer"@)))
    } else {
        let n = le32_at(b, off as int);
        let start = off + 4;
        if start + n > b.len() {
            (Seq::empty(), Some(ErrorView::Corruption("truncated record in batch buffer"@)))
        } else {
            let rest = frames_from(b, start + n);
            (seq![b.subrange(start as int, (start + n) as int)] + rest.0, rest.1)
        }
    }
}

/// Tells whether the lengths of records fit four bytes.
pub open spec fn short_records(rs: Seq<Seq<u8>>) -> bool {
    forall|i: int| 0 <= i < rs.len() ==> (#[trigger] rs[i]).len() <= u32::MAX
}

proof fn lemma_framed_prefix(rs: Seq<Seq<u8>>, i: int)
    requires
        0 <= i <= rs.len(),
    ensures
        framed(rs.take(i)).len() <= framed(rs).len(),
        framed(rs).take(framed(rs.take(i)).len() as int) == framed(rs.take(i)),
    decreases rs.len(),
{
    let x = framed(rs.take(i));
    if i == rs.len() {
        assert(rs.take(i) =~= rs);
        assert(x.take(x.len() as int) =~= x);
    } else {
        assert(rs.drop_last().take(i) =~= rs.take(i));
        lemma_framed_prefix(rs.drop_last(), i);
        let y = framed(rs.drop_last());
        assert(framed(rs).take(x.len() as int) =~= y.take(x.len() as int));
    }
}

#[verifier::rlimit(40)]
proof fn lemma_frames_read_back(rs: Seq<Seq<u8>>, i: int)
    requires
        0 <= i <= rs.len(),
        short_records(rs),
    ensures
        frames_from(framed(rs), framed(rs.take(i)).len()) == (rs.skip(i), None::<ErrorView>),
    decreases rs.len() - i,
{
    let b = framed(rs);
    let x = framed(rs.take(i));
    if i == rs.len() {
        assert(rs.take(i) =~= rs);
        assert(rs.skip(i) =~= Seq::<Seq<u8>>::empty());
    } else {
        let r = rs[i];
        let next = rs.take(i + 1);
        assert(next.drop_last() =~= rs.take(i));
        let y = framed(next);
        let n = r.len() as u32;
        lemma_le_fixed(n, 0);
        lemma_framed_prefix(rs, i);
        lemma_framed_prefix(rs, i + 1);
        let l = x.len() as int;
        assert(y == x + le32(n) + r);
        assert(b.take(y.len() as int) == y);
        assert(b.subrange(l, l + 4) =~= y.subrange(l, l + 4));
        assert(y.subrange(l, l + 4) =~= le32(n));
        assert(b.subrange(l + 4, l + 4 + n) =~= y.subrange(l + 4, l + 4 + n));
        assert(y.subrange(l + 4, l + 4 + n) =~= r);
        lemma_frames_read_back(rs, i + 1);
        assert(rs.skip(i) =~= seq![r] + rs.skip(i + 1));
    }
}

/// The files and the segment in use after the first `n` records are appended to the log.
pub open spec fn appended(live: Files, size: u64, seg: u64, rs: Seq<Seq<u8>>, n: nat) -> (
    Files,
    u64,
)
    decreases n,
{
    if n == 0 {
        (live, seg)
    } else {
        let (l, s) = appended(live, size, seg, rs, (n - 1) as nat);
        let plan = append_plan(size, l[FileId::Wal(s)].len(), rs[n - 1]);
        (with_groups(l, s, plan), (s + plan.len() - 1) as u64)
    }
}

/// Tells whether the first `n` records can be appended to the log.
pub open spec fn can_append(live: Files, size: u64, seg: u64, rs: Seq<Seq<u8>>, n: nat) -> bool
    decreases n,
{
    n == 0 || {
        &&& can_append(live, size, seg, rs, (n - 1) as nat)
        &&& append_refusal(
            size,
            appended(live, size, seg, rs, (n - 1) as nat).1,
            rs[n - 1].len(),
        ) is None
    }
}

/// Tells whether two sets of files differ in nothing but the log.
pub open spec fn same_but_log(a: Files, b: Files) -> bool {
    forall|id: FileId| !(id is Wal) ==> (#[trigger] b.contains_key(id) == a.contains_key(id)) && (
    a.contains_key(id) ==> b[id] == a[id])
}

/// Tells whether a segment size lets records be written and read back.
pub open spec fn good_segment_size(size: u64) -> bool {
    9 < size <= 0x1_0000_0000
}

/// What a committer has to do.
#[derive(Debug, Clone, Copy, PartialEq, Eq, Structural)]
pub enum CommitStep {
    /// Nothing: its record is durable.
    Durable,
    /// Lead: write and sync the batch.
    Lead,
    /// Wait until a batch is durable, and ask again.
    Wait,
}

/// A batch that is being made durable.
pub struct Batch {
    buffer: Vec<u8>,
    max_seq: u64,
    count: u64,
    records: Ghost<Seq<Seq<u8>>>,
}

impl Batch {
    /// The records.
    pub closed spec fn spec_records(&self) -> Seq<Seq<u8>> {
        self.records@
    }

    /// The largest number of a commit.
    pub closed spec fn spec_max_seq(&self) -> u64 {
        self.max_seq
    }

    /// The number of commits.
    pub closed spec fn spec_count(&self) -> u64 {
        self.count
    }

    /// Tells whether the buffer holds the records.
    pub closed spec fn wf(&self) -> bool {
        &&& self.buffer@ == framed(self.records@)
        &&& short_records(self.records@)
    }
}

/// Makes commits durable in groups.
pub struct GroupCommitter {
    wal: WalWriter,
    config: GroupCommitConfig,
    stats: GroupCommitStats,
    next_seq: u64,
    durable_seq: u64,
    pending_buffer: Vec<u8>,
    pending_count: u64,
    pending_max_seq: u64,
    fsync_in_progress: bool,
    batch_start_time: Option<u64>,
    waiter_count: u64,
    pending: Ghost<Seq<Seq<u8>>>,
}

/// The state of a group committer, but for its log writer.
pub struct CommitView {
    pub stats: GroupCommitStats,
    pub next_seq: u64,
    pub durable_seq: u64,
    pub pending: Seq<Seq<u8>>,
    pub pending_count: u64,
    pub pending_max_seq: u64,
    pub fsync_in_progress: bool,
    pub batch_start_time: Option<u64>,
    pub waiter_count: u64,
}

/// Tells whether a batch does not wait for more commits.
pub open spec fn batch_due(config: GroupCommitConfig, s: CommitView, now: u64) -> bool {
    ||| s.pending_count >= config.max_batch_size
    ||| s.pending_count == 1 && s.waiter_count == 0
    ||| (s.batch_start_time matches Some(start) && (if now >= start {
        now - start
    } else {
        0
    }) >= config.max_batch_wait_ns)
    ||| s.pending_count >= config.min_batch_for_delay
}

/// What a committer with a number has to do.
pub open spec fn step_of(config: GroupCommitConfig, s: CommitView, seq: u64, now: u64) -> CommitStep {
    if s.durable_seq >= seq {
        CommitStep::Durable
    } else if !s.fsync_in_progress && s.pending_count > 0 && batch_due(config, s, now) {
        CommitStep::Lead
    } else {
        CommitStep::Wait
    }
}

/// The state of a group committer that has committed nothing.
pub open spec fn fresh_commits() -> CommitView {
    CommitView {
        stats: GroupCommitStats { total_commits: 0, total_fsyncs: 0 },
        next_seq: 1,
        durable_seq: 0,
        pending: Seq::empty(),
        pending_count: 0,
        pending_max_seq: 0,
        fsync_in_progress: false,
        batch_start_time: None,
        waiter_count: 0,
    }
}

/// The state of a group committer with a record more in its batch.
pub open spec fn buffered(s: CommitView, record: Seq<u8>, now: u64) -> CommitView {
    CommitView {
        next_seq: (s.next_seq + 1) as u64,
        pending: s.pending.push(record),
        pending_count: (s.pending_count + 1) as u64,
        pending_max_seq: if s.pending_max_seq >= s.next_seq {
            s.pending_max_seq
        } else {
            s.next_seq
        },
        batch_start_time: if s.batch_start_time is Some {
            s.batch_start_time
        } else {
            Some(now)
        },
        ..s
    }
}

/// The state of a group committer after its batch was written, or could not be.
pub open spec fn led_state(s: CommitView, ok: bool) -> CommitView {
    ended(
        (CommitView {
            pending: Seq::empty(),
            pending_count: 0,
            pending_max_seq: 0,
            batch_start_time: None,
            fsync_in_progress: true,
            ..s
        }),
        s.pending_max_seq,
        s.pending_count,
        ok,
    )
}

/// The state of a group committer after it refused to commit a record: a commit number is used up
/// where the log refused it.
pub open spec fn refused_commit(s: CommitView, record: Seq<u8>) -> CommitView {
    if record.len() > u32::MAX || s.next_seq == u64::MAX {
        s
    } else {
        led_state(buffered(s, record, 0), false)
    }
}

/// Tells whether no commit is under way.
pub open spec fn idle(s: CommitView) -> bool {
    &&& s.pending.len() == 0
    &&& s.pending_count == 0
    &&& s.pending_max_seq == 0
    &&& !s.fsync_in_progress
    &&& s.waiter_count == 0
    &&& s.batch_start_time is None
    &&& s.durable_seq < s.next_seq
}

impl GroupCommitter {
    /// The state, but for the log writer.
    pub closed spec fn state(&self) -> CommitView {
        CommitView {
            stats: self.stats,
            next_seq: self.next_seq,
            durable_seq: self.durable_seq,
            pending: self.pending@,
            pending_count: self.pending_count,
            pending_max_seq: self.pending_max_seq,
            fsync_in_progress: self.fsync_in_progress,
            batch_start_time: self.batch_start_time,
            waiter_count: self.waiter_count,
        }
    }

    /// The settings.
    pub closed spec fn spec_config(&self) -> GroupCommitConfig {
        self.config
    }

    /// The settings of the log.
    pub closed spec fn wal_config(&self) -> WalConfig {
        self.wal.spec_config()
    }

    /// The segment of the log in use.
    pub closed spec fn wal_segment(&self) -> u64 {
        self.wal.spec_segment()
    }

    /// The place in the segment in use.
    pub closed spec fn wal_offset(&self) -> nat {
        self.wal.spec_offset()
    }

    /// Tells whether the buffer holds the pending records.
    pub closed spec fn buffer_wf(&self) -> bool {
        &&& self.pending_buffer@ == framed(self.pending@)
        &&& short_records(self.pending@)
        &&& self.pending_count == self.pending@.len()
    }

    /// Tells whether the log writer stands at the end of the log and the buffer holds the pending
    /// records.
    pub open spec fn wf(&self, live: Files) -> bool {
        &&& log_end(live, self.wal_segment(), self.wal_offset())
        &&& self.buffer_wf()
    }

    /// Starts with nothing pending.
    pub fn new(wal: WalWriter, config: GroupCommitConfig) -> (r: GroupCommitter)
        ensures
            r.buffer_wf(),
            idle(r.state()),
            r.state().next_seq == 1,
            r.state().durable_seq == 0,
            r.state().stats.total_commits == 0,
            r.state().stats.total_fsyncs == 0,
            r.spec_config() == config,
            r.wal_config() == wal.spec_config(),
            r.wal_segment() == wal.spec_segment(),
            r.wal_offset() == wal.spec_offset(),
    {
        let r = GroupCommitter {
            wal,
            config,
            stats: GroupCommitStats::default(),
            next_seq: 1,
            durable_seq: 0,
            pending_buffer: Vec::new(),
            pending_count: 0,
            pending_max_seq: 0,
            fsync_in_progress: false,
            batch_start_time: None,
            waiter_count: 0,
            pending: Ghost(Seq::empty()),
        };
        assert(r.pending_buffer@ =~= framed(r.pending@));
        r
    }

    /// Puts a record into the buffer and gives its commit a number. `now` is the time in
    /// nanoseconds.
    pub fn append_to_buffer(&mut self, record: &[u8], now: u64) -> (r: Result<u64, Error>)
        requires
            old(self).buffer_wf(),
        ensures
            final(self).buffer_wf(),
            final(self).spec_config() == old(self).spec_config(),
            final(self).wal_config() == old(self).wal_config(),
            final(self).wal_segment() == old(self).wal_segment(),
            final(self).wal_offset() == old(self).wal_offset(),
            ({
                let s = old(self).state();
                match r {
                    Ok(seq) => {
                        &&& record@.len() <= u32::MAX
                        &&& s.next_seq < u64::MAX
                        &&& seq == s.next_seq
                        &&& final(self).state() == buffered(s, record@, now)
                    },
                    Err(e) => {
                        &&& *final(self) == *old(self)
                        &&& if record@.len() > u32::MAX {
                            e@ == ErrorView::InvalidArgument("record too large"@)
                        } else {
                            s.next_seq == u64::MAX && e@ == ErrorView::Io(
                                "no commit numbers are left"@,
                            )
                        }
                    },
                }
            }),
    {
        if record.len() as u64 > u32::MAX as u64 {
            return Err(invalid_argument("record too large"));
        }
        if self.next_seq == u64::MAX {
            return Err(Error::Io(text_of("no commit numbers are left")));
        }
        let seq = self.next_seq;
        self.next_seq = seq + 1;
        if self.batch_start_time.is_none() {
            self.batch_start_time = Some(now);
        }
        let ghost rs = self.pending@;
        let ghost rs2 = rs.push(record@);
        let ghost before = self.pending_buffer@;
        put_u32(&mut self.pending_buffer, record.len() as u32);
        append_bytes(&mut self.pending_buffer, record);
        let n = self.pending_buffer.len();
        self.pending = Ghost(rs2);
        proof {
            assert(rs2.drop_last() =~= rs);
            lemma_framed_len(rs);
            lemma_framed_len(rs2);
            assert(self.pending_buffer@ =~= framed(rs2));
        }
        self.pending_count = self.pending_count + 1;
        if self.pending_max_seq < seq {
            self.pending_max_seq = seq;
        }
        Ok(seq)
    }

    /// Tells whether the batch does not wait for more commits.
    pub fn should_flush_batch(&self, now: u64) -> (r: bool)
        ensures
            r == batch_due(self.spec_config(), self.state(), now),
    {
        if self.pending_count >= self.config.max_batch_size {
            return true;
        }
        if self.pending_count == 1 && self.waiter_count == 0 {
            return true;
        }
        if let Some(start) = self.batch_start_time {
            let elapsed: u64 = if now >= start {
                now - start
            } else {
                0
            };
            if elapsed >= self.config.max_batch_wait_ns {
                return true;
            }
        }
        self.pending_count >= self.config.min_batch_for_delay
    }

    /// What a committer with a number has to do now.
    pub fn commit_step(&self, seq: u64, now: u64) -> (r: CommitStep)
        ensures
            r == step_of(self.spec_config(), self.state(), seq, now),
    {
        if self.durable_seq >= seq {
            return CommitStep::Durable;
        }
        if !self.fsync_in_progress && self.pending_count > 0 && self.should_flush_batch(now) {
            return CommitStep::Lead;
        }
        CommitStep::Wait
    }

    /// Counts a committer that starts to wait.
    pub fn begin_wait(&mut self)
        requires
            old(self).state().waiter_count < u64::MAX,
        ensures
            final(self).state() == (CommitView {
                waiter_count: (old(self).state().waiter_count + 1) as u64,
                ..old(self).state()
            }),
            final(self).buffer_wf() == old(self).buffer_wf(),
            final(self).spec_config() == old(self).spec_config(),
            final(self).wal_config() == old(self).wal_config(),
            final(self).wal_segment() == old(self).wal_segment(),
            final(self).wal_offset() == old(self).wal_offset(),
    {
        self.waiter_count = self.waiter_count + 1;
    }

    /// Counts a committer that no longer waits.
    pub fn end_wait(&mut self)
        requires
            old(self).state().waiter_count > 0,
        ensures
            final(self).state() == (CommitView {
                waiter_count: (old(self).state().waiter_count - 1) as u64,
                ..old(self).state()
            }),
            final(self).buffer_wf() == old(self).buffer_wf(),
            final(self).spec_config() == old(self).spec_config(),
            final(self).wal_config() == old(self).wal_config(),
            final(self).wal_segment() == old(self).wal_segment(),
            final(self).wal_offset() == old(self).wal_offset(),
    {
        self.waiter_count = self.waiter_count - 1;
    }

    /// Takes the batch out of the buffer, to be made durable.
    pub fn begin_fsync(&mut self) -> (b: Batch)
        requires
            old(self).buffer_wf(),
        ensures
            b.wf(),
            b.spec_records() == old(self).state().pending,
            b.spec_max_seq() == old(self).state().pending_max_seq,
            b.spec_count() == old(self).state().pending_count,
            final(self).buffer_wf(),
            final(self).state() == (CommitView {
                pending: Seq::empty(),
                pending_count: 0,
                pending_max_seq: 0,
                batch_start_time: None,
                fsync_in_progress: true,
                ..old(self).state()
            }),
            final(self).spec_config() == old(self).spec_config(),
            final(self).wal_config() == old(self).wal_config(),
            final(self).wal_segment() == old(self).wal_segment(),
            final(self).wal_offset() == old(self).wal_offset(),
    {
        let mut buffer: Vec<u8> = Vec::new();
        std::mem::swap(&mut buffer, &mut self.pending_buffer);
        let ghost rs = self.pending@;
        let b = Batch {
            buffer,
            max_seq: self.pending_max_seq,
            count: self.pending_count,
            records: Ghost(rs),
        };
        self.fsync_in_progress = true;
        self.pending_count = 0;
        self.pending_max_seq = 0;
        self.batch_start_time = None;
        self.pending = Ghost(Seq::empty());
        assert(self.pending_buffer@ =~= framed(self.pending@));
        b
    }

    /// Writes the records of a batch to the log, in order.
    pub fn write_batch(&mut self, disk: &mut Disk, batch: &Batch) -> (r: Result<(), Error>)
        requires
            old(disk).wf(),
            old(self).wf(old(disk).live()),
            batch.wf(),
        ensures
            final(disk).taken() == old(disk).taken(),
            final(disk).wf(),
            final(self).wf(final(disk).live()),
            final(self).state() == old(self).state(),
            final(self).spec_config() == old(self).spec_config(),
            final(self).wal_config() == old(self).wal_config(),
            wrote_records(
                old(disk).live(),
                old(disk).durable(),
                old(self).wal_segment(),
                old(self).wal_config().segment_size,
                batch.spec_records(),
                final(disk).live(),
                final(disk).durable(),
                final(self).wal_segment(),
                refusal_of(r),
            ),
    {
        let ghost rs = batch.records@;
        proof {
            lemma_frames_read_back(rs, 0);
            assert(rs.take(0) =~= Seq::<Seq<u8>>::empty());
            assert(rs.skip(0) =~= rs);
        }
        write_batch_to_wal(&mut self.wal, disk, &batch.buffer)
    }

    /// Makes the segment in use durable.
    pub fn sync(&mut self, disk: &mut Disk)
        requires
            old(disk).wf(),
            old(self).wf(old(disk).live()),
        ensures
            final(disk).taken() == old(disk).taken(),
            final(disk).wf(),
            *final(self) == *old(self),
            final(disk).live() == old(disk).live(),
            final(disk).durable() == old(disk).durable().insert(
                FileId::Wal(old(self).wal_segment()),
                old(disk).live()[FileId::Wal(old(self).wal_segment())],
            ),
    {
        self.wal.sync(disk);
    }

    /// Notes that a batch is durable, or that it could not be made so.
    pub fn end_fsync(&mut self, batch: Batch, durable: bool)
        ensures
            final(self).state() == ended(
                old(self).state(),
                batch.spec_max_seq(),
                batch.spec_count(),
                durable,
            ),
            final(self).buffer_wf() == old(self).buffer_wf(),
            final(self).spec_config() == old(self).spec_config(),
            final(self).wal_config() == old(self).wal_config(),
            final(self).wal_segment() == old(self).wal_segment(),
            final(self).wal_offset() == old(self).wal_offset(),
    {
        self.fsync_in_progress = false;
        if durable {
            if batch.count > 0 && self.stats.total_fsyncs < u64::MAX {
                self.stats.total_fsyncs = self.stats.total_fsyncs + 1;
            }
            self.durable_seq = batch.max_seq;
        }
    }

    /// Counts a commit.
    pub fn count_commit(&mut self)
        ensures
            final(self).state() == with_commit(old(self).state()),
            final(self).buffer_wf() == old(self).buffer_wf(),
            final(self).spec_config() == old(self).spec_config(),
            final(self).wal_config() == old(self).wal_config(),
            final(self).wal_segment() == old(self).wal_segment(),
            final(self).wal_offset() == old(self).wal_offset(),
    {
        if self.stats.total_commits < u64::MAX {
            self.stats.total_commits = self.stats.total_commits + 1;
        }
    }

    /// Leads: takes the batch, writes its records to the log and syncs the log. A batch that could
    /// not be written does not block those after it.
    pub fn perform_fsync_as_leader(&mut self, disk: &mut Disk) -> (r: Result<(), Error>)
        requires
            old(disk).wf(),
            old(self).wf(old(disk).live()),
        ensures
            final(disk).taken() == old(disk).taken(),
            final(disk).wf(),
            final(self).wf(final(disk).live()),
            final(self).spec_config() == old(self).spec_config(),
            final(self).wal_config() == old(self).wal_config(),
            led(
                old(disk).live(),
                old(disk).durable(),
                old(self).wal_segment(),
                old(self).wal_config().segment_size,
                old(self).state().pending,
                final(disk).live(),
                final(disk).durable(),
                final(self).wal_segment(),
                refusal_of(r),
            ),
            final(self).state() == led_state(old(self).state(), r is Ok),
    {
        let batch = self.begin_fsync();
        let r = self.write_batch(disk, &batch);
        match r {
            Ok(_) => {
                let ghost d = disk.durable();
                assert(wrote_records(
                    old(disk).live(),
                    old(disk).durable(),
                    old(self).wal_segment(),
                    old(self).wal_config().segment_size,
                    old(self).state().pending,
                    disk.live(),
                    d,
                    self.wal_segment(),
                    None,
                ));
                self.sync(disk);
                self.end_fsync(batch, true);
                Ok(())
            },
            Err(e) => {
                self.end_fsync(batch, false);
                Err(e)
            },
        }
    }

    /// Commits a record while no other commit is under way: when it returns, the record is in the
    /// log and durable.
    pub fn commit_batch(&mut self, disk: &mut Disk, record: &[u8]) -> (r: Result<u64, Error>)
        requires
            old(disk).wf(),
            old(self).wf(old(disk).live()),
            idle(old(self).state()),
        ensures
            final(disk).taken() == old(disk).taken(),
            final(disk).wf(),
            final(self).wf(final(disk).live()),
            idle(final(self).state()),
            final(self).spec_config() == old(self).spec_config(),
            final(self).wal_config() == old(self).wal_config(),
            commit_refusal(
                old(self).state(),
                old(self).wal_config(),
                old(self).wal_segment(),
                record@.len(),
            ) is Some == r is Err,
            match r {
                Ok(seq) => {
                    let s = old(self).state();
                    &&& seq == s.next_seq
                    &&& led(
                        old(disk).live(),
                        old(disk).durable(),
                        old(self).wal_segment(),
                        old(self).wal_config().segment_size,
                        seq![record@],
                        final(disk).live(),
                        final(disk).durable(),
                        final(self).wal_segment(),
                        None,
                    )
                    &&& final(self).state() == (CommitView {
                        next_seq: (s.next_seq + 1) as u64,
                        durable_seq: seq,
                        stats: GroupCommitStats {
                            total_commits: counted(s.stats.total_commits),
                            total_fsyncs: counted(s.stats.total_fsyncs),
                        },
                        ..s
                    })
                },
                Err(e) => {
                    &&& e@ == commit_refusal(
                        old(self).state(),
                        old(self).wal_config(),
                        old(self).wal_segment(),
                        record@.len(),
                    )->0
                    &&& final(disk).live() == old(disk).live()
                    &&& final(disk).durable() == old(disk).durable()
                    &&& final(self).wal_segment() == old(self).wal_segment()
                    &&& final(self).state() == refused_commit(old(self).state(), record@)
                },
            },
    {
        let seq = match self.append_to_buffer(record, 0) {
            Ok(seq) => seq,
            Err(e) => {
                return Err(e);
            },
        };
        let ghost rs = self.state().pending;
        assert(rs =~= seq![record@]);
        assert(old(self).state().pending =~= Seq::<Seq<u8>>::empty());
        let ghost live = disk.live();
        let ghost seg = self.wal_segment();
        let ghost size = self.wal_config().segment_size;
        proof {
            assert(appended(live, size, seg, rs, 0) == (live, seg));
            assert(can_append(live, size, seg, rs, 0));
            assert(can_append(live, size, seg, rs, 1) == (append_refusal(
                size,
                seg,
                record@.len(),
            ) is None));
        }
        match self.perform_fsync_as_leader(disk) {
            Ok(_) => {
                self.count_commit();
                Ok(seq)
            },
            Err(e) => Err(e),
        }
    }

    /// Makes what is pending durable, together with an empty record; nothing where nothing is
    /// pending.
    pub fn flush(&mut self, disk: &mut Disk, now: u64) -> (r: Result<(), Error>)
        requires
            old(disk).wf(),
            old(self).wf(old(disk).live()),
        ensures
            final(disk).taken() == old(disk).taken(),
            final(disk).wf(),
            final(self).wf(final(disk).live()),
            final(self).wal_config() == old(self).wal_config(),
            old(self).state().pending_count == 0 ==> {
                &&& r is Ok
                &&& *final(self) == *old(self)
                &&& final(disk).live() == old(disk).live()
                &&& final(disk).durable() == old(disk).durable()
            },
            old(self).state().pending_count > 0 && old(self).state().next_seq < u64::MAX ==> led(
                old(disk).live(),
                old(disk).durable(),
                old(self).wal_segment(),
                old(self).wal_config().segment_size,
                old(self).state().pending.push(Seq::empty()),
                final(disk).live(),
                final(disk).durable(),
                final(self).wal_segment(),
                refusal_of(r),
            ),
            old(self).state().pending_count > 0 && old(self).state().next_seq < u64::MAX
                ==> final(self).state() == led_state(
                buffered(old(self).state(), Seq::empty(), now),
                r is Ok,
            ),
            old(self).state().pending_count > 0 && old(self).state().next_seq == u64::MAX ==> {
                &&& r is Err
                &&& r->Err_0@ == ErrorView::Io("no commit numbers are left"@)
                &&& *final(self) == *old(self)
                &&& final(disk).live() == old(disk).live()
                &&& final(disk).durable() == old(disk).durable()
            },
    {
        if self.pending_count == 0 {
            return Ok(());
        }
        let none: Vec<u8> = Vec::new();
        assert(none@ =~= Seq::<u8>::empty());
        match self.append_to_buffer(&none, now) {
            Ok(_) => self.perform_fsync_as_leader(disk),
            Err(e) => Err(e),
        }
    }

    /// Appends a record to the log, past the buffer, and syncs the log.
    pub fn append_and_sync(&mut self, disk: &mut Disk, record: Vec<u8>) -> (r: Result<(), Error>)
        requires
            old(disk).wf(),
            old(self).wf(old(disk).live()),
        ensures
            final(disk).taken() == old(disk).taken(),
            final(disk).wf(),
            final(self).wf(final(disk).live()),
            final(self).state() == old(self).state(),
            final(self).spec_config() == old(self).spec_config(),
            final(self).wal_config() == old(self).wal_config(),
            led(
                old(disk).live(),
                old(disk).durable(),
                old(self).wal_segment(),
                old(self).wal_config().segment_size,
                seq![record@],
                final(disk).live(),
                final(disk).durable(),
                final(self).wal_segment(),
                refusal_of(r),
            ),
    {
        match self.append_raw(disk, record) {
            Ok(_) => {
                self.sync(disk);
                Ok(())
            },
            Err(e) => Err(e),
        }
    }

    /// Appends a record to the log, past the buffer. It gives the place of the record.
    pub fn append_raw(&mut self, disk: &mut Disk, record: Vec<u8>) -> (r: Result<(u64, u64), Error>)
        requires
            old(disk).wf(),
            old(self).wf(old(disk).live()),
        ensures
            final(disk).taken() == old(disk).taken(),
            final(disk).wf(),
            final(self).wf(final(disk).live()),
            final(self).state() == old(self).state(),
            final(self).spec_config() == old(self).spec_config(),
            final(self).wal_config() == old(self).wal_config(),
            wrote_records(
                old(disk).live(),
                old(disk).durable(),
                old(self).wal_segment(),
                old(self).wal_config().segment_size,
                seq![record@],
                final(disk).live(),
                final(disk).durable(),
                final(self).wal_segment(),
                refusal_of(r),
            ),
            r matches Ok(at) ==> at == append_place(
                old(self).wal_config().segment_size,
                old(self).wal_segment(),
                old(self).wal_offset(),
            ),
    {
        let ghost rs = seq![record@];
        let ghost live = disk.live();
        let ghost durable = disk.durable();
        let ghost seg = self.wal.spec_segment();
        let ghost size = self.wal.spec_config().segment_size;
        let rec = WalRecord::new(record);
        let r = self.wal.append(disk, &rec);
        proof {
            lemma_one_record(live, size, seg, rs);
            let done: int = if r is Ok {
                1
            } else {
                0
            };
            assert(rs.take(1) =~= rs);
            assert(rs.take(0) =~= Seq::<Seq<u8>>::empty());
            assert forall|olds: Seq<Seq<u8>>| #[trigger]
                clean_log(live, olds) && good_segment_size(size) implies clean_log(
                disk.live(),
                olds + rs.take(done),
            ) by {
                if r is Ok {
                    assert(olds + rs.take(1) =~= olds.push(record@));
                } else {
                    assert(olds + rs.take(0) =~= olds);
                }
            }
            assert(same_but_log(live, disk.live()));
            assert(same_but_log(durable, disk.durable()));
            assert(grew(live, durable, seg, size, rs, done, disk.live(), disk.durable(),
                self.wal.spec_segment()));
        }
        r
    }

    /// The largest number of a commit that is durable.
    pub fn durable_seq(&self) -> (r: u64)
        ensures
            r == self.state().durable_seq,
    {
        self.durable_seq
    }

    /// The counts.
    pub fn stats(&self) -> (r: &GroupCommitStats)
        ensures
            *r == self.state().stats,
    {
        &self.stats
    }

    /// The end of the log.
    pub fn wal_position(&self) -> (r: (u64, u64))
        ensures
            r == (self.wal_segment(), self.wal_offset() as u64),
    {
        (self.wal.current_segment(), self.wal.current_offset())
    }
}

/// Why a commit is refused, if it is.
pub open spec fn commit_refusal(s: CommitView, config: WalConfig, seg: u64, len: nat) -> Option<
    ErrorView,
> {
    if len > u32::MAX {
        Some(ErrorView::InvalidArgument("record too large"@))
    } else if s.next_seq == u64::MAX {
        Some(ErrorView::Io("no commit numbers are left"@))
    } else {
        append_refusal(config.segment_size, seg, len)
    }
}

/// The state after a batch was made durable, or could not be.
pub open spec fn ended(s: CommitView, max_seq: u64, count: u64, durable: bool) -> CommitView {
    if durable {
        CommitView {
            fsync_in_progress: false,
            durable_seq: max_seq,
            stats: GroupCommitStats {
                total_fsyncs: if count > 0 {
                    counted(s.stats.total_fsyncs)
                } else {
                    s.stats.total_fsyncs
                },
                ..s.stats
            },
            ..s
        }
    } else {
        CommitView { fsync_in_progress: false, ..s }
    }
}

/// The state after one more commit.
pub open spec fn with_commit(s: CommitView) -> CommitView {
    CommitView {
        stats: GroupCommitStats { total_commits: counted(s.stats.total_commits), ..s.stats },
        ..s
    }
}

/// What appending the first `n` records does to the files: the log has these records more, and
/// nothing else changes.
pub open spec fn grew(
    live: Files,
    durable: Files,
    seg: u64,
    size: u64,
    rs: Seq<Seq<u8>>,
    n: int,
    live_after: Files,
    durable_after: Files,
    seg_after: u64,
) -> bool {
    &&& 0 <= n <= rs.len()
    &&& (live_after, seg_after) == appended(live, size, seg, rs, n as nat)
    &&& same_but_log(live, live_after)
    &&& same_but_log(durable, durable_after)
    &&& n == 0 ==> durable_after == durable
    &&& good_segment_size(size) ==> forall|olds: Seq<Seq<u8>>| #[trigger]
        clean_log(live, olds) ==> clean_log(live_after, olds + rs.take(n))
    &&& durable_before(live, durable, seg) ==> durable_before(live_after, durable_after, seg_after)
}

/// Why something was refused, if it was.
pub open spec fn refusal_of<T>(r: Result<T, Error>) -> Option<ErrorView> {
    match r {
        Ok(_) => None,
        Err(e) => Some(e@),
    }
}

/// What writing records to the log does: all are written, or those before the first that is
/// refused.
pub open spec fn wrote_records(
    live: Files,
    durable: Files,
    seg: u64,
    size: u64,
    rs: Seq<Seq<u8>>,
    live_after: Files,
    durable_after: Files,
    seg_after: u64,
    refused: Option<ErrorView>,
) -> bool {
    match refused {
        None => {
            &&& can_append(live, size, seg, rs, rs.len())
            &&& grew(
                live,
                durable,
                seg,
                size,
                rs,
                rs.len() as int,
                live_after,
                durable_after,
                seg_after,
            )
        },
        Some(e) => exists|n: int|
            {
                &&& 0 <= n < rs.len()
                &&& can_append(live, size, seg, rs, n as nat)
                &&& append_refusal(size, seg_after, rs[n].len()) == Some(e)
                &&& #[trigger] grew(
                    live,
                    durable,
                    seg,
                    size,
                    rs,
                    n,
                    live_after,
                    durable_after,
                    seg_after,
                )
            },
    }
}

/// What leading does: as writing the records, and where all are written the log is synced.
pub open spec fn led(
    live: Files,
    durable: Files,
    seg: u64,
    size: u64,
    rs: Seq<Seq<u8>>,
    live_after: Files,
    durable_after: Files,
    seg_after: u64,
    refused: Option<ErrorView>,
) -> bool {
    match refused {
        None => exists|d: Files|
            {
                &&& #[trigger] wrote_records(
                    live,
                    durable,
                    seg,
                    size,
                    rs,
                    live_after,
                    d,
                    seg_after,
                    refused,
                )
                &&& durable_after == d.insert(
                    FileId::Wal(seg_after),
                    live_after[FileId::Wal(seg_after)],
                )
            },
        Some(_) => wrote_records(
            live,
            durable,
            seg,
            size,
            rs,
            live_after,
            durable_after,
            seg_after,
            refused,
        ),
    }
}

proof fn lemma_framed_len(rs: Seq<Seq<u8>>)
    ensures
        framed(rs).len() >= 4 * rs.len(),
    decreases rs.len(),
{
    if rs.len() > 0 {
        lemma_framed_len(rs.drop_last());
        lemma_le_fixed(rs.last().len() as u32, 0);
    }
}

proof fn lemma_one_record(live: Files, size: u64, seg: u64, rs: Seq<Seq<u8>>)
    requires
        rs.len() == 1,
    ensures
        appended(live, size, seg, rs, 0) == (live, seg),
        ({
            let plan = append_plan(size, live[FileId::Wal(seg)].len(), rs[0]);
            appended(live, size, seg, rs, 1) == (
                with_groups(live, seg, plan),
                (seg + plan.len() - 1) as u64,
            )
        }),
        can_append(live, size, seg, rs, 0),
        can_append(live, size, seg, rs, 1) == (append_refusal(size, seg, rs[0].len()) is None),
{
    reveal_with_fuel(appended, 2);
    reveal_with_fuel(can_append, 2);
}

/// Writes the records in a buffer to the log, in order.
fn write_batch_to_wal(wal: &mut WalWriter, disk: &mut Disk, buffer: &[u8]) -> (r: Result<
    (),
    Error,
>)
    requires
        old(disk).wf(),
        old(wal).wf(old(disk).live()),
        frames_from(buffer@, 0).1 is None,
    ensures
        final(disk).taken() == old(disk).taken(),
        final(disk).wf(),
        final(wal).wf(final(disk).live()),
        final(wal).spec_config() == old(wal).spec_config(),
        wrote_records(
            old(disk).live(),
            old(disk).durable(),
            old(wal).spec_segment(),
            old(wal).spec_config().segment_size,
            frames_from(buffer@, 0).0,
            final(disk).live(),
            final(disk).durable(),
            final(wal).spec_segment(),
            refusal_of(r),
        ),
{
    let ghost live = disk.live();
    let ghost durable = disk.durable();
    let ghost seg = wal.spec_segment();
    let ghost size = wal.spec_config().segment_size;
    let ghost rs = frames_from(buffer@, 0).0;
    let ghost mut n: int = 0;
    let len = buffer.len();
    let mut off: usize = 0;
    proof {
        assert(rs.skip(0) =~= rs);
        assert forall|olds: Seq<Seq<u8>>| #[trigger] clean_log(live, olds) implies clean_log(
            live,
            olds + rs.take(0),
        ) by {
            assert(olds + rs.take(0) =~= olds);
        }
        assert(grew(live, durable, seg, size, rs, 0, live, durable, seg));
    }
    while off < len
        invariant
            disk.taken() == old(disk).taken(),
            len == buffer@.len(),
            off <= len,
            0 <= n <= rs.len(),
            disk.wf(),
            wal.wf(disk.live()),
            wal.spec_config() == old(wal).spec_config(),
            size == wal.spec_config().segment_size,
            live == old(disk).live(),
            durable == old(disk).durable(),
            seg == old(wal).spec_segment(),
            rs == frames_from(buffer@, 0).0,
            frames_from(buffer@, off as nat) == (rs.skip(n), None::<ErrorView>),
            can_append(live, size, seg, rs, n as nat),
            grew(
                live,
                durable,
                seg,
                size,
                rs,
                n,
                disk.live(),
                disk.durable(),
                wal.spec_segment(),
            ),
        decreases len - off,
    {
        let ghost rest = rs.skip(n);
        if len - off < 4 {
            return Err(corruption("truncated batch buffer"));
        }
        let size_here = get_u32(buffer, off) as usize;
        let start = off + 4;
        if len - start < size_here {
            return Err(corruption("truncated record in batch buffer"));
        }
        let record = WalRecord::new(copy_range(buffer, start, start + size_here));
        let ghost d = record.data@;
        let ghost next = frames_from(buffer@, (start + size_here) as nat);
        proof {
            assert(rest == seq![d] + next.0);
            assert(rest[0] == d);
            assert(rs[n] == d);
            assert(next.0 =~= rs.skip(n + 1)) by {
                assert(rest.skip(1) =~= next.0);
                assert(rest.skip(1) =~= rs.skip(n + 1));
            }
        }
        let ghost live0 = disk.live();
        let ghost durable0 = disk.durable();
        let ghost seg0 = wal.spec_segment();
        match wal.append(disk, &record) {
            Ok(_) => {},
            Err(e) => {
                return Err(e);
            },
        }
        proof {
            assert(appended(live, size, seg, rs, n as nat) == (live0, seg0));
            assert((disk.live(), wal.spec_segment()) == appended(
                live,
                size,
                seg,
                rs,
                (n + 1) as nat,
            ));
            if good_segment_size(size) {
                assert forall|olds: Seq<Seq<u8>>| #[trigger] clean_log(live, olds) implies clean_log(
                    disk.live(),
                    olds + rs.take(n + 1),
                ) by {
                    assert(clean_log(live0, olds + rs.take(n)));
                    assert(olds + rs.take(n + 1) =~= (olds + rs.take(n)).push(d));
                }
            }
            lemma_same_but_log(live, live0, disk.live());
            lemma_same_but_log(durable, durable0, disk.durable());
            n = n + 1;
        }
        off = start + size_here;
    }
    assert(rs.skip(n).len() == 0);
    Ok(())
}

proof fn lemma_same_but_log(a: Files, b: Files, c: Files)
    requires
        same_but_log(a, b),
        same_but_log(b, c),
    ensures
        same_but_log(a, c),
{
    assert forall|id: FileId| !(id is Wal) implies (#[trigger] c.contains_key(id)
        == a.contains_key(id)) && (a.contains_key(id) ==> c[id] == a[id]) by {
        assert(b.contains_key(id) == a.contains_key(id));
    }
}

/// What was committed is in the durable log: a log without a fault, whose segments before the one
/// in use were durable, has the committed records more after a crash.
pub proof fn law_committed_is_durable(
    live: Files,
    durable: Files,
    seg: u64,
    size: u64,
    rs: Seq<Seq<u8>>,
    live_after: Files,
    durable_after: Files,
    seg_after: u64,
    off_after: nat,
    olds: Seq<Seq<u8>>,
)
    requires
        led(
            live,
            durable,
            seg,
            size,
            rs,
            live_after,
            durable_after,
            seg_after,
            None,
        ),
        good_segment_size(size),
        clean_log(live, olds),
        durable_before(live, durable, seg),
        log_end(live_after, seg_after, off_after),
        live_after.dom() == durable_after.dom(),
    ensures
        clean_log(live_after, olds + rs),
        clean_log(durable_after, olds + rs),
        durable_before(live_after, durable_after, seg_after),
{
    let d = choose|d: Files|
        {
            &&& #[trigger] wrote_records(
                live,
                durable,
                seg,
                size,
                rs,
                live_after,
                d,
                seg_after,
                None,
            )
            &&& durable_after == d.insert(
                FileId::Wal(seg_after),
                live_after[FileId::Wal(seg_after)],
            )
        };
    assert(rs.take(rs.len() as int) =~= rs);
    assert(clean_log(live_after, olds + rs));
    assert(durable_before(live_after, d, seg_after));
    assert(durable_before(live_after, durable_after, seg_after)) by {
        assert forall|n: u64|
            n < seg_after && #[trigger] live_after.contains_key(FileId::Wal(n)) implies
            durable_after[FileId::Wal(n)] == live_after[FileId::Wal(n)] by {}
    }
    law_synced_log_survives(live_after, durable_after, seg_after, off_after, olds + rs);
    assert(durable_after.insert(FileId::Wal(seg_after), live_after[FileId::Wal(seg_after)])
        =~= durable_after);
}

/// The records of a batch are read back from its buffer, all of them and in order.
pub proof fn law_frames_read_back(rs: Seq<Seq<u8>>)
    requires
        short_records(rs),
    ensures
        frames_from(framed(rs), 0) == (rs, None::<ErrorView>),
{
    lemma_frames_read_back(rs, 0);
    assert(rs.take(0) =~= Seq::<Seq<u8>>::empty());
    assert(rs.skip(0) =~= rs);
}

/// A record that joins a batch comes behind the others, under a number that no commit had before,
/// and is not durable by that.
pub proof fn law_buffered_waits(
    config: GroupCommitConfig,
    s: CommitView,
    record: Seq<u8>,
    now: u64,
    later: u64,
)
    requires
        s.durable_seq < s.next_seq < u64::MAX,
    ensures
        ({
            let t = buffered(s, record, now);
            &&& t.pending == s.pending + seq![record]
            &&& t.pending_max_seq >= s.next_seq
            &&& t.next_seq > s.next_seq
            &&& t.durable_seq == s.durable_seq
            &&& !(step_of(config, t, s.next_seq, later) is Durable)
            &&& t.batch_start_time is Some
            &&& s.batch_start_time is Some ==> t.batch_start_time == s.batch_start_time
        }),
{
    assert(s.pending.push(record) =~= s.pending + seq![record]);
}

/// Once a batch is led to the end every commit of it is durable, and there is one sync for all of
/// them. Where it could not be written, none that was not durable is. Either way the batch is
/// gone, and another can be led.
pub proof fn law_led_settles(config: GroupCommitConfig, s: CommitView, seq: u64, now: u64)
    requires
        0 < s.pending_count,
    ensures
        seq <= s.pending_max_seq ==> step_of(config, led_state(s, true), seq, now) is Durable,
        seq > s.pending_max_seq ==> !(step_of(config, led_state(s, true), seq, now) is Durable),
        s.stats.total_fsyncs < u64::MAX ==> led_state(s, true).stats.total_fsyncs
            == s.stats.total_fsyncs + 1,
        led_state(s, false).stats == s.stats,
        led_state(s, false).durable_seq == s.durable_seq,
        forall|ok: bool|
            (#[trigger] led_state(s, ok)).pending.len() == 0 && led_state(s, ok).pending_count == 0
                && !led_state(s, ok).fsync_in_progress && led_state(s, ok).batch_start_time is None
                && led_state(s, ok).next_seq == s.next_seq && led_state(s, ok).stats.total_commits
                == s.stats.total_commits,
{
}

/// When a commit that is not durable leads: never while a batch is being synced, and never without
/// one; at once where it is alone or the batch is full; and no later than the longest wait.
pub proof fn law_who_leads(config: GroupCommitConfig, s: CommitView, seq: u64, now: u64)
    requires
        s.durable_seq < seq,
    ensures
        step_of(config, s, seq, now) is Lead ==> !s.fsync_in_progress && s.pending_count > 0,
        !(step_of(config, s, seq, now) is Durable),
        !s.fsync_in_progress && s.pending_count > 0 ==> {
            &&& s.pending_count == 1 && s.waiter_count == 0 ==> step_of(config, s, seq, now) is Lead
            &&& s.pending_count >= config.max_batch_size ==> step_of(config, s, seq, now) is Lead
            &&& s.pending_count >= config.min_batch_for_delay ==> step_of(config, s, seq, now)
                is Lead
            &&& s.batch_start_time is Some && s.batch_start_time->0 + config.max_batch_wait_ns
                <= now ==> step_of(config, s, seq, now) is Lead
        },
        step_of(config, s, seq, now) is Lead && s.pending_count < config.max_batch_size
            && s.pending_count < config.min_batch_for_delay && (s.pending_count > 1
            || s.waiter_count > 0) && config.max_batch_wait_ns > 0 ==> s.batch_start_time is Some
            && s.batch_start_time->0 + config.max_batch_wait_ns <= now,
{
}

/// A commit is counted once, and nothing else changes by that.
pub proof fn law_commit_counted(s: CommitView)
    requires
        s.stats.total_commits < u64::MAX,
    ensures
        with_commit(s).stats.total_commits == s.stats.total_commits + 1,
        with_commit(s).stats.total_fsyncs == s.stats.total_fsyncs,
        with_commit(s).next_seq == s.next_seq,
        with_commit(s).durable_seq == s.durable_seq,
        with_commit(s).pending == s.pending,
{
}

} // verus!
