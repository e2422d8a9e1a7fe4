//! The ingest engine: every line goes to the write-ahead log first and to the
//! active tier second; a full active tier is frozen into the snapshot tier
//! and handed to the partition worker; the log segment that backs a snapshot
//! is dropped once the worker has acknowledged its partition.
//!
//! The engine decides and keeps the books. What it decides on files it
//! hands out as actions, to be carried out in their order. With the worker
//! it talks over two channels: requests for partitions go one way, the
//! worker's reports come back the other.
//!
//! `Engine::ingest` does all of it for one line. Who holds the files calls
//! its steps in turn, and acts between them: `log_line`, then the append to
//! the segment; `gather_line`, then the handing on of a tier that was
//! frozen; `ask_partition`, then the roll and the unlinking of segments. The
//! worker likewise: `write_snapshot`, then the journal is carried out, then
//! `conclude`.

use vstd::prelude::*;
use vstd::string::*;
use vstd::utf8::*;
use vstd::slice::*;
use std::sync::Arc;
use crossbeam::channel::{Receiver, Sender};
use crate::partition::dir::DirOp;
use crate::partition::manager::{rolls, ManagerView, PartitionManager};
use crate::partition::meta::PartitionError;
use crate::protocol::{find, free_of, index_of, lemma_index_of_is, parse_line, Line, LineParts};
use crate::storage::{
    counted, entries_wf, insert_points, lemma_insert_points_concat, lemma_insert_points_wf,
    lemma_lookup_insert_points, lemma_snapshot_moves_points, lemma_sorted_by_time, lookup,
    merge_entries, named, pair_views, sorted_by_time, DataPoint, MetricsData, PointView,
    SnaphotableStorage, StorageSnapshot,
};
use crate::text::{lemma_text_of_bytes, str_eq};
use crate::wal::{
    block_views, frame, good_prefix, lemma_good_prefix_after_frames, lemma_good_prefix_steps,
    lemma_replay_after_frames, lemma_replay_append, log_of, pending_name, read_blocks, replay,
    settled, Wal, WalError, WalRoll, WalWrite, MAX_DIRTY_BYTES,
};

verus! {

/// A snapshot is due once the active tier has taken more points than this.
pub const SNAPSHOT_THRESHOLD: usize = 100;

/// What the partition worker reports for one request.
#[derive(Clone, Copy, Debug, PartialEq, Eq, Structural)]
pub enum Ack {
    /// The partition is committed; the pending segment of `position` can go.
    Committed { position: usize },
    /// The partition was not committed; the pending segment stays.
    Failed,
}

/// The series key of a field of a measurement.
pub open spec fn series_key(name: Seq<char>, field: Seq<char>) -> Seq<char> {
    name + ":"@ + field
}

/// The pairs as text.
pub open spec fn text_pairs(pairs: Seq<(Seq<u8>, Seq<u8>)>) -> Seq<(Seq<char>, Seq<char>)> {
    pairs.map_values(|p: (Seq<u8>, Seq<u8>)| (decode_utf8(p.0), decode_utf8(p.1)))
}

/// The numeric value of the field at `i`, if it has one.
pub open spec fn value_at(values: Seq<Option<u64>>, i: int) -> Option<u64> {
    if 0 <= i < values.len() {
        values[i]
    } else {
        None
    }
}

/// The points of the first `n` fields of a line: one for each field with a
/// numeric value, in the order of the fields.
pub open spec fn field_points(parts: LineParts, values: Seq<Option<u64>>, n: nat) -> Seq<PointView>
    decreases n,
{
    if n == 0 {
        Seq::empty()
    } else {
        let before = field_points(parts, values, (n - 1) as nat);
        match value_at(values, n - 1) {
            Some(value) => before.push(
                PointView {
                    name: series_key(decode_utf8(parts.name), decode_utf8(parts.fields[n - 1].0)),
                    timestamp: parts.timestamp,
                    value,
                    tags: text_pairs(parts.tags),
                },
            ),
            None => before,
        }
    }
}

/// The points that a line gives, where `values` holds the numeric value of
/// each of its fields, or `None` for a field that is not numeric. Bytes
/// that are no line give no point.
pub open spec fn line_points(line: Seq<u8>, values: Seq<Option<u64>>) -> Seq<PointView> {
    if valid_utf8(line) && parse_line(line) is Some {
        let parts = parse_line(line).unwrap();
        field_points(parts, values, parts.fields.len())
    } else {
        Seq::empty()
    }
}

/// Why the engine cannot take a line.
#[derive(Clone, Copy, Debug, PartialEq, Eq, Structural)]
pub enum IngestError {
    /// The write-ahead log cannot take the line.
    Wal(WalError),
    /// The request for a partition cannot be sent: the worker is gone, and
    /// with it the way to make points durable. On a channel with a limit, as
    /// `SnapshotProgress::new` may be given one, a full channel counts the
    /// same: the engine does not wait for room.
    ChannelClosed,
}

/// The sending half of a crossbeam channel. Nothing of its inside is known.
#[verifier::external_type_specification]
#[verifier::external_body]
#[verifier::reject_recursive_types(T)]
pub struct ExSender<T>(crossbeam::channel::Sender<T>);

/// The receiving half of a crossbeam channel. Nothing of its inside is known.
#[verifier::external_type_specification]
#[verifier::external_body]
#[verifier::reject_recursive_types(T)]
pub struct ExReceiver<T>(crossbeam::channel::Receiver<T>);

/// Calls `crossbeam::channel::unbounded`, which makes a channel that takes
/// any number of messages. Nothing is claimed of the two halves.
#[verifier::external_body]
fn unbounded_channel<T>() -> (ends: (Sender<T>, Receiver<T>)) {
    crossbeam::channel::unbounded()
}

/// Calls `Sender::try_send`, which does not wait on any channel: it puts the
/// message into the channel, or fails when the channel is full or all
/// receivers are gone. On a channel without limit, as `Engine::new` makes
/// them, it fails only when the receivers are gone. Whether it fails is for
/// the other side to decide: nothing is claimed of the result.
#[verifier::external_body]
fn send_on<T>(outbox: &Sender<T>, message: T) -> (sent: bool) {
    outbox.try_send(message).is_ok()
}

/// Calls `Receiver::try_recv`, which does not wait: it returns a message
/// that lies in the channel, and an error when none does. Which of the two
/// is for the other side to decide: nothing is claimed of the result.
#[verifier::external_body]
fn take_from<T>(inbox: &Receiver<T>) -> (message: Option<T>) {
    inbox.try_recv().ok()
}

/// Calls `Receiver::recv`, which waits until a message lies in the channel or
/// all senders are gone: it returns the message, and an error once the
/// channel is empty and closed. Which of the two is for the other side to
/// decide: nothing is claimed of the result.
#[verifier::external_body]
fn wait_from<T>(inbox: &Receiver<T>) -> (message: Option<T>) {
    inbox.recv().ok()
}

/// What a report of the worker does to the request that is under way, and
/// the position of the segment that it frees.
pub open spec fn settled_by(pending: bool, acked: Option<Ack>) -> (bool, Option<usize>) {
    (
        pending && acked is None,
        match acked {
            Some(Ack::Committed { position }) => Some(position),
            _ => None::<usize>,
        },
    )
}

/// The engine's end of the two channels to the worker, and whether a request
/// for a partition is under way.
pub struct SnapshotProgress {
    inbox: Receiver<Ack>,
    outbox: Sender<usize>,
    pending: bool,
}

impl SnapshotProgress {
    /// True while a request for a partition is under way.
    pub closed spec fn pending(&self) -> bool {
        self.pending
    }

    /// The engine's end of the two channels: reports come in on `inbox`,
    /// requests go out on `outbox`. No request is under way.
    pub fn new(inbox: Receiver<Ack>, outbox: Sender<usize>) -> (progress: Self)
        ensures
            !progress.pending(),
            progress.inbox() == inbox,
            progress.outbox() == outbox,
    {
        SnapshotProgress { inbox, outbox, pending: false }
    }

    /// Freezes the active tier and sends the request for its partition,
    /// unless a request is under way. Returns whether it did; fails when the
    /// request cannot be sent.
    pub fn persist_snapshot(
        &mut self,
        wall_log_position: usize,
        storage: &mut SnaphotableStorage,
    ) -> (requested: Result<bool, IngestError>)
        requires
            old(storage).wf(),
        ensures
            final(storage).wf(),
            final(self).inbox() == old(self).inbox(),
            final(self).outbox() == old(self).outbox(),
            old(self).pending() ==> {
                &&& requested == Ok::<bool, IngestError>(false)
                &&& final(self).pending()
                &&& final(storage).active() == old(storage).active()
                &&& final(storage).active_count() == old(storage).active_count()
                &&& final(storage).snapshot() == old(storage).snapshot()
            },
            !old(self).pending() ==> {
                &&& final(storage).active() == Seq::<(Seq<char>, Seq<PointView>)>::empty()
                &&& final(storage).active_count() == 0
                &&& final(storage).snapshot() == merge_entries(
                    old(storage).snapshot(),
                    old(storage).active(),
                )
                &&& requested == Ok::<bool, IngestError>(true) || requested == Err::<
                    bool,
                    IngestError,
                >(IngestError::ChannelClosed)
                &&& final(self).pending() == (requested is Ok)
            },
    {
        if self.pending {
            Ok(false)
        } else {
            storage.make_snapshot();
            self.request(wall_log_position)
        }
    }

    /// Whether a request for a partition is under way.
    pub fn is_pending(&self) -> (pending: bool)
        ensures
            pending == self.pending(),
    {
        self.pending
    }

    /// Sends the request for the partition of the segment
    /// `wall_log_position`. The request is under way once it is sent; it is
    /// an error when it cannot be sent.
    pub fn request(&mut self, wall_log_position: usize) -> (requested: Result<bool, IngestError>)
        ensures
            final(self).inbox() == old(self).inbox(),
            final(self).outbox() == old(self).outbox(),
            requested == Ok::<bool, IngestError>(true) || requested == Err::<bool, IngestError>(
                IngestError::ChannelClosed,
            ),
            requested is Ok ==> final(self).pending(),
            requested is Err ==> final(self).pending() == old(self).pending(),
    {
        let sent: bool = send_on(&self.outbox, wall_log_position);
        self.requested(sent)
    }

    /// Takes note of how the sending of a request went: a request that was
    /// sent is under way; one that was not is an error.
    pub fn requested(&mut self, sent: bool) -> (requested: Result<bool, IngestError>)
        ensures
            final(self).inbox() == old(self).inbox(),
            final(self).outbox() == old(self).outbox(),
            sent ==> requested == Ok::<bool, IngestError>(true) && final(self).pending(),
            !sent ==> requested == Err::<bool, IngestError>(IngestError::ChannelClosed) && final(self).pending() == old(self).pending(),
    {
        if sent {
            self.pending = true;
            Ok(true)
        } else {
            Err(IngestError::ChannelClosed)
        }
    }

    /// Looks for a report of the worker, without waiting, and takes it; see
    /// `settle`.
    pub fn can_truncate_wal(&mut self) -> (position: Option<usize>)
        ensures
            final(self).inbox() == old(self).inbox(),
            final(self).outbox() == old(self).outbox(),
            exists|acked: Option<Ack>|
                #[trigger] settled_by(old(self).pending(), acked) == (
                    final(self).pending(),
                    position,
                ),
    {
        let acked: Option<Ack> = take_from(&self.inbox);
        let position: Option<usize> = self.settle(acked);
        assert(settled_by(old(self).pending(), acked) == (self.pending(), position));
        position
    }

    /// Takes what the worker has reported, if anything: the request is no
    /// longer under way, and a committed partition frees its segment.
    pub fn settle(&mut self, acked: Option<Ack>) -> (position: Option<usize>)
        ensures
            final(self).inbox() == old(self).inbox(),
            final(self).outbox() == old(self).outbox(),
            (final(self).pending(), position) == settled_by(old(self).pending(), acked),
    {
        match acked {
            Some(Ack::Committed { position }) => {
                self.pending = false;
                Some(position)
            },
            Some(Ack::Failed) => {
                self.pending = false;
                None
            },
            None => None,
        }
    }

    /// The half of the channel on which the worker's reports come in.
    pub closed spec fn inbox(&self) -> Receiver<Ack> {
        self.inbox
    }

    /// The half of the channel on which the requests go out.
    pub closed spec fn outbox(&self) -> Sender<usize> {
        self.outbox
    }
}

/// What `Engine::ingest` asks of whoever holds the files, in this order:
/// append `frame` to the live segment, and sync it if `sync`; carry out
/// `roll`; unlink `drop_pending`. `snapshot` is the request that was sent to
/// the worker, if one was.
pub struct IngestActions {
    pub frame: Vec<u8>,
    pub sync: bool,
    pub roll: Option<WalRoll>,
    pub snapshot: Option<usize>,
    pub drop_pending: Option<String>,
}

/// What the actions say.
pub struct ActionsView {
    pub frame: Seq<u8>,
    pub sync: bool,
    /// The name that the rolled segment gets, and the offset at which the
    /// new live segment starts.
    pub roll: Option<(Seq<char>, u64)>,
    pub snapshot: Option<usize>,
    pub drop_pending: Option<Seq<char>>,
}

impl View for IngestActions {
    type V = ActionsView;

    open spec fn view(&self) -> ActionsView {
        ActionsView {
            frame: self.frame@,
            sync: self.sync,
            roll: match self.roll {
                Some(roll) => Some((roll.pending@, roll.position)),
                None => None,
            },
            snapshot: self.snapshot,
            drop_pending: match self.drop_pending {
                Some(name) => Some(name@),
                None => None,
            },
        }
    }
}

/// What an engine holds.
pub struct EngineView {
    pub active: Seq<(Seq<char>, Seq<PointView>)>,
    pub active_count: nat,
    pub snapshot: Seq<(Seq<char>, Seq<PointView>)>,
    pub wal_path: Seq<char>,
    pub wal_position: nat,
    pub wal_dirty: nat,
    pub pending: bool,
    pub snapshot_wal_position: usize,
}

/// True when the log cannot take the line.
pub open spec fn too_large(e: EngineView, line: Seq<u8>) -> bool {
    line.len() + 12 > usize::MAX || e.wal_position + 12 + line.len() > u64::MAX
}

/// The engine after the line was framed for the log.
pub open spec fn logged(e: EngineView, line: Seq<u8>) -> EngineView {
    let size = 12 + line.len();
    EngineView {
        active: e.active,
        active_count: e.active_count,
        snapshot: e.snapshot,
        wal_path: e.wal_path,
        wal_position: e.wal_position + size,
        wal_dirty: if e.wal_dirty + size > MAX_DIRTY_BYTES {
            0
        } else {
            e.wal_dirty + size
        },
        pending: e.pending,
        snapshot_wal_position: e.snapshot_wal_position,
    }
}

/// The engine after the points of the line were stored.
pub open spec fn kept(e: EngineView, line: Seq<u8>, values: Seq<Option<u64>>) -> EngineView {
    let points = line_points(line, values);
    EngineView {
        active: insert_points(e.active, points),
        active_count: counted(e.active_count, points.len()),
        snapshot: e.snapshot,
        wal_path: e.wal_path,
        wal_position: e.wal_position,
        wal_dirty: e.wal_dirty,
        pending: e.pending,
        snapshot_wal_position: e.snapshot_wal_position,
    }
}

/// The engine after the line was framed for the log and its points were
/// stored.
pub open spec fn stored_line(e: EngineView, line: Seq<u8>, values: Seq<Option<u64>>) -> EngineView {
    kept(logged(e, line), line, values)
}

/// True when the active tier has grown beyond the threshold and no request
/// is under way.
pub open spec fn snapshot_due(e: EngineView) -> bool {
    e.active_count > SNAPSHOT_THRESHOLD && !e.pending
}

/// The engine after the active tier was frozen into the snapshot tier.
pub open spec fn frozen(e: EngineView) -> EngineView {
    EngineView {
        active: Seq::empty(),
        active_count: 0,
        snapshot: merge_entries(e.snapshot, e.active),
        wal_path: e.wal_path,
        wal_position: e.wal_position,
        wal_dirty: e.wal_dirty,
        pending: e.pending,
        snapshot_wal_position: e.snapshot_wal_position,
    }
}

/// The engine after the request for a partition was sent and the segment
/// was rolled.
pub open spec fn rolled(e: EngineView) -> EngineView {
    EngineView {
        active: e.active,
        active_count: e.active_count,
        snapshot: e.snapshot,
        wal_path: e.wal_path,
        wal_position: 0,
        wal_dirty: 0,
        pending: true,
        snapshot_wal_position: 0,
    }
}

/// The engine after it has taken what the worker has reported.
pub open spec fn acknowledged(e: EngineView, acked: Option<Ack>) -> EngineView {
    EngineView {
        active: e.active,
        active_count: e.active_count,
        snapshot: e.snapshot,
        wal_path: e.wal_path,
        wal_position: e.wal_position,
        wal_dirty: e.wal_dirty,
        pending: settled_by(e.pending, acked).0,
        snapshot_wal_position: e.snapshot_wal_position,
    }
}

/// The engine after a line was ingested, and the actions that it hands out
/// or the error. `sent` says whether a request for a partition, should one
/// be due, reaches the worker; `acked` is what the worker has reported.
pub open spec fn ingested(
    e: EngineView,
    line: Seq<u8>,
    values: Seq<Option<u64>>,
    sent: bool,
    acked: Option<Ack>,
) -> (EngineView, Result<ActionsView, IngestError>) {
    if too_large(e, line) {
        (e, Err(IngestError::Wal(WalError::TooLarge)))
    } else {
        let stored = stored_line(e, line, values);
        let due = snapshot_due(stored);
        if due && !sent {
            (frozen(stored), Err(IngestError::ChannelClosed))
        } else {
            let after = if due {
                rolled(frozen(stored))
            } else {
                stored
            };
            (
                acknowledged(after, acked),
                Ok(
                    ActionsView {
                        frame: frame(line),
                        sync: e.wal_dirty + 12 + line.len() > MAX_DIRTY_BYTES,
                        roll: if due {
                            Some((pending_name(e.wal_path, e.snapshot_wal_position as nat), 0u64))
                        } else {
                            None
                        },
                        snapshot: if due {
                            Some(e.snapshot_wal_position)
                        } else {
                            None
                        },
                        drop_pending: match settled_by(after.pending, acked).1 {
                            Some(position) => Some(pending_name(e.wal_path, position as nat)),
                            None => None,
                        },
                    },
                ),
            )
        }
    }
}

/// The engine after the points of the line were stored and the active tier
/// was frozen where that was due.
pub open spec fn gathered(e: EngineView, line: Seq<u8>, values: Seq<Option<u64>>) -> EngineView {
    let held = kept(e, line, values);
    if snapshot_due(held) {
        frozen(held)
    } else {
        held
    }
}

/// The engine after the request for the partition of a frozen tier was
/// made, where one was `due`, and the worker's report was taken; and the
/// actions that are left, or the error. `sent` and `acked` are as in
/// `ingested`.
pub open spec fn asked(e: EngineView, due: bool, sent: bool, acked: Option<Ack>) -> (
    EngineView,
    Result<ActionsView, IngestError>,
) {
    if due && !sent {
        (e, Err(IngestError::ChannelClosed))
    } else {
        let after = if due {
            rolled(e)
        } else {
            e
        };
        (
            acknowledged(after, acked),
            Ok(
                ActionsView {
                    frame: Seq::empty(),
                    sync: false,
                    roll: if due {
                        Some((pending_name(e.wal_path, e.snapshot_wal_position as nat), 0u64))
                    } else {
                        None
                    },
                    snapshot: if due {
                        Some(e.snapshot_wal_position)
                    } else {
                        None
                    },
                    drop_pending: match settled_by(after.pending, acked).1 {
                        Some(position) => Some(pending_name(e.wal_path, position as nat)),
                        None => None,
                    },
                },
            ),
        )
    }
}

/// The engine after the points of a line that lies in the log were stored,
/// and the actions that are left, or the error: what `ingested` says of a
/// line once it is framed, with nothing more to append. `sent` and `acked`
/// are as in `ingested`.
pub open spec fn stored(
    e: EngineView,
    line: Seq<u8>,
    values: Seq<Option<u64>>,
    sent: bool,
    acked: Option<Ack>,
) -> (EngineView, Result<ActionsView, IngestError>) {
    let held = kept(e, line, values);
    let due = snapshot_due(held);
    if due && !sent {
        (frozen(held), Err(IngestError::ChannelClosed))
    } else {
        let after = if due {
            rolled(frozen(held))
        } else {
            held
        };
        (
            acknowledged(after, acked),
            Ok(
                ActionsView {
                    frame: Seq::empty(),
                    sync: false,
                    roll: if due {
                        Some((pending_name(e.wal_path, e.snapshot_wal_position as nat), 0u64))
                    } else {
                        None
                    },
                    snapshot: if due {
                        Some(e.snapshot_wal_position)
                    } else {
                        None
                    },
                    drop_pending: match settled_by(after.pending, acked).1 {
                        Some(position) => Some(pending_name(e.wal_path, position as nat)),
                        None => None,
                    },
                },
            ),
        )
    }
}

/// What `ingest` returns, as the actions say it.
pub open spec fn outcome_view(done: Result<IngestActions, IngestError>) -> Result<
    ActionsView,
    IngestError,
> {
    match done {
        Ok(actions) => Ok(actions@),
        Err(e) => Err(e),
    }
}

/// The series keys after `key` was interned: it joins them when it is new.
pub open spec fn interned(keys: Seq<Seq<char>>, key: Seq<char>) -> Seq<Seq<char>> {
    if keys.contains(key) {
        keys
    } else {
        keys.push(key)
    }
}

/// The series keys after the names of `points` were interned, in the order
/// of the points.
pub open spec fn interned_all(keys: Seq<Seq<char>>, points: Seq<PointView>) -> Seq<Seq<char>>
    decreases points.len(),
{
    if points.len() == 0 {
        keys
    } else {
        interned(interned_all(keys, points.drop_last()), points.last().name)
    }
}

/// What a run of shared strings holds.
pub open spec fn key_views(keys: Seq<Arc<String>>) -> Seq<Seq<char>> {
    keys.map_values(|key: Arc<String>| key@)
}

/// Sequences the log, the store and the requests for partitions. It holds
/// each series key once, as a string that all points of the series share.
pub struct Engine {
    storage: SnaphotableStorage,
    metrics_cache: Vec<Arc<String>>,
    wal: Wal,
    snapshot_progress: SnapshotProgress,
    snapshot_wal_position: usize,
}

impl View for Engine {
    type V = EngineView;

    closed spec fn view(&self) -> EngineView {
        EngineView {
            active: self.storage.active(),
            active_count: self.storage.active_count(),
            snapshot: self.storage.snapshot(),
            wal_path: self.wal.path(),
            wal_position: self.wal.position(),
            wal_dirty: self.wal.dirty(),
            pending: self.snapshot_progress.pending(),
            snapshot_wal_position: self.snapshot_wal_position,
        }
    }
}

impl Engine {
    /// What holds of every value that the functions of the type hand out.
    pub closed spec fn wf(&self) -> bool {
        self.storage.wf() && self.wal.wf() && key_views(self.metrics_cache@).no_duplicates()
    }

    /// The series keys that the engine has interned, in the order in which
    /// they first came.
    pub closed spec fn keys(&self) -> Seq<Seq<char>> {
        key_views(self.metrics_cache@)
    }

    /// No key is interned twice.
    pub proof fn lemma_keys_differ(&self)
        requires
            self.wf(),
        ensures
            self.keys().no_duplicates(),
    {
    }

    /// The shared string of the series key `key`: the one that the engine
    /// holds for it, or, for a key that is new, one that it holds from now
    /// on.
    pub fn intern(&mut self, key: String) -> (shared: Arc<String>)
        requires
            old(self).wf(),
        ensures
            final(self).wf(),
            shared@ == key@,
            final(self).keys() == interned(old(self).keys(), key@),
            final(self)@ == old(self)@,
            final(self).inbox() == old(self).inbox(),
            final(self).outbox() == old(self).outbox(),
    {
        let ghost keys = key_views(self.metrics_cache@);
        let mut at: usize = 0;
        while at < self.metrics_cache.len() && !str_eq(
            self.metrics_cache[at].as_str(),
            key.as_str(),
        )
            invariant
                at <= self.metrics_cache@.len(),
                *self == *old(self),
                keys == key_views(self.metrics_cache@),
                forall|j: int| 0 <= j < at ==> #[trigger] keys[j] != key@,
            decreases self.metrics_cache@.len() - at,
        {
            at = at + 1;
        }
        if at < self.metrics_cache.len() {
            proof {
                assert(keys[at as int] == key@);
            }
            self.metrics_cache[at].clone()
        } else {
            let shared: Arc<String> = Arc::new(key);
            self.metrics_cache.push(shared.clone());
            proof {
                assert(!keys.contains(key@));
                assert(key_views(self.metrics_cache@) =~= keys.push(key@));
                assert forall|i: int, j: int|
                    0 <= i < j < keys.push(key@).len() implies keys.push(key@)[i] != keys.push(
                    key@,
                )[j] by {
                    if j < keys.len() {
                        assert(keys[i] != keys[j]);
                    }
                }
            }
            shared
        }
    }

    /// The half of the channel on which the worker's reports come in.
    pub closed spec fn inbox(&self) -> Receiver<Ack> {
        self.snapshot_progress.inbox()
    }

    /// The half of the channel on which the requests go out.
    pub closed spec fn outbox(&self) -> Sender<usize> {
        self.snapshot_progress.outbox()
    }

    /// An engine over `storage` whose live segment at `wal_path` is empty,
    /// and the worker that rolls its partitions with `partition_manager`.
    /// The two are joined by a channel for the requests and a channel for
    /// the reports.
    pub fn new(storage: SnaphotableStorage, wal_path: &str, partition_manager: PartitionManager) -> (made:
        (Self, PartitionWorker))
        requires
            storage.wf(),
        ensures
            made.0.wf(),
            made.0@ == (EngineView {
                active: storage.active(),
                active_count: storage.active_count(),
                snapshot: storage.snapshot(),
                wal_path: wal_path@,
                wal_position: 0,
                wal_dirty: 0,
                pending: false,
                snapshot_wal_position: 0,
            }),
            made.0.keys() == Seq::<Seq<char>>::empty(),
            made.1.manager() == partition_manager@,
            made.1.wf() == partition_manager.wf(),
    {
        let (tasks_sender, tasks_receiver) = unbounded_channel::<usize>();
        let (results_sender, results_receiver) = unbounded_channel::<Ack>();
        let worker = PartitionWorker::new(tasks_receiver, results_sender, partition_manager);
        let engine = Engine {
            storage,
            metrics_cache: Vec::new(),
            wal: Wal::new(wal_path),
            snapshot_progress: SnapshotProgress::new(results_receiver, tasks_sender),
            snapshot_wal_position: 0usize,
        };
        (engine, worker)
    }

    /// The store.
    pub fn storage(&self) -> (storage: &SnaphotableStorage)
        ensures
            self.wf() ==> storage.wf(),
            storage.active() == self@.active,
            storage.active_count() == self@.active_count,
            storage.snapshot() == self@.snapshot,
    {
        &self.storage
    }

    /// The snapshot tier: to be handed on to who merges the frozen tiers, or
    /// to be written out as a partition and cleared.
    pub fn snapshot_mut(&mut self) -> (tier: &mut StorageSnapshot)
        ensures
            final(self).inbox() == old(self).inbox(),
            final(self).outbox() == old(self).outbox(),
            final(self).keys() == old(self).keys(),
            tier.entries() == old(self)@.snapshot,
            old(self).wf() && final(tier).wf() ==> final(self).wf(),
            final(self)@ == (EngineView {
                active: old(self)@.active,
                active_count: old(self)@.active_count,
                snapshot: final(tier).entries(),
                wal_path: old(self)@.wal_path,
                wal_position: old(self)@.wal_position,
                wal_dirty: old(self)@.wal_dirty,
                pending: old(self)@.pending,
                snapshot_wal_position: old(self)@.snapshot_wal_position,
            }),
    {
        self.storage.snapshot_mut()
    }

    /// The length of the live segment.
    pub fn wal_position(&self) -> (position: u64)
        ensures
            position == self@.wal_position,
    {
        self.wal.position_now()
    }

    /// Freezes the active tier, whatever its size.
    pub fn time_tick(&mut self)
        requires
            old(self).wf(),
        ensures
            final(self).wf(),
            final(self).inbox() == old(self).inbox(),
            final(self).outbox() == old(self).outbox(),
            final(self).keys() == old(self).keys(),
            final(self)@ == (EngineView {
                active: Seq::empty(),
                active_count: 0,
                snapshot: merge_entries(old(self)@.snapshot, old(self)@.active),
                wal_path: old(self)@.wal_path,
                wal_position: old(self)@.wal_position,
                wal_dirty: old(self)@.wal_dirty,
                pending: old(self)@.pending,
                snapshot_wal_position: old(self)@.snapshot_wal_position,
            }),
    {
        self.storage.make_snapshot();
    }

    /// Takes one line: frames it for the log, stores its points, freezes the
    /// active tier and requests its partition when the tier has grown beyond
    /// the threshold and no request is under way, and takes what the worker
    /// has reported. `values` holds, for each field of the line, the bits of
    /// its numeric value, or `None` for a field that is not numeric. Fails,
    /// and changes nothing, when the log cannot take the line; fails with
    /// the active tier frozen when the request cannot be sent. It is
    /// `log_line` and then `store_line`: who has to append the frame before
    /// the points are stored calls the two in turn.
    pub fn ingest(&mut self, line_str: &str, values: &Vec<Option<u64>>) -> (done: Result<
        IngestActions,
        IngestError,
    >)
        requires
            old(self).wf(),
        ensures
            final(self).wf(),
            final(self).inbox() == old(self).inbox(),
            final(self).outbox() == old(self).outbox(),
            final(self).keys() == if too_large(old(self)@, line_str.spec_bytes()) {
                old(self).keys()
            } else {
                interned_all(old(self).keys(), line_points(line_str.spec_bytes(), values@))
            },
            exists|sent: bool, acked: Option<Ack>|
                #[trigger] ingested(old(self)@, line_str.spec_bytes(), values@, sent, acked) == (
                    final(self)@,
                    outcome_view(done),
                ),
            too_large(old(self)@, line_str.spec_bytes()) <==> done matches Err(IngestError::Wal(_)),
            !too_large(old(self)@, line_str.spec_bytes()) && !snapshot_due(
                stored_line(old(self)@, line_str.spec_bytes(), values@),
            ) ==> done is Ok,
    {
        let ghost line = line_str.spec_bytes();
        let written = match self.log_line(line_str) {
            Ok(written) => written,
            Err(e) => {
                proof {
                    assert(ingested(old(self)@, line, values@, true, None) == (
                        self@,
                        Err::<ActionsView, IngestError>(e),
                    ));
                }
                return Err(e);
            },
        };
        let ghost framed = self@;
        let done = self.store_line(line_str, values);
        let ghost how = choose|sent: bool, acked: Option<Ack>|
            #[trigger] stored(framed, line, values@, sent, acked) == (self@, outcome_view(done));
        match done {
            Ok(rest) => {
                let actions = IngestActions {
                    frame: written.frame,
                    sync: written.sync,
                    roll: rest.roll,
                    snapshot: rest.snapshot,
                    drop_pending: rest.drop_pending,
                };
                proof {
                    assert(ingested(old(self)@, line, values@, how.0, how.1) == (
                        self@,
                        Ok::<ActionsView, IngestError>(actions@),
                    ));
                }
                Ok(actions)
            },
            Err(e) => {
                proof {
                    assert(ingested(old(self)@, line, values@, how.0, how.1) == (
                        self@,
                        Err::<ActionsView, IngestError>(e),
                    ));
                }
                Err(e)
            },
        }
    }

    /// Frames one line for the log: the frame is to be appended to the live
    /// segment, and synced where `sync` says so, before the points of the
    /// line are stored. Fails, and changes nothing, when the log cannot take
    /// the line.
    pub fn log_line(&mut self, line_str: &str) -> (written: Result<WalWrite, IngestError>)
        requires
            old(self).wf(),
        ensures
            final(self).wf(),
            final(self).inbox() == old(self).inbox(),
            final(self).outbox() == old(self).outbox(),
            final(self).keys() == old(self).keys(),
            written is Err <==> too_large(old(self)@, line_str.spec_bytes()),
            written matches Err(e) ==> e == IngestError::Wal(WalError::TooLarge) && final(self)@
                == old(self)@,
            written matches Ok(w) ==> {
                &&& w.frame@ == frame(line_str.spec_bytes())
                &&& w.sync == (old(self)@.wal_dirty + 12 + line_str.spec_bytes().len()
                    > MAX_DIRTY_BYTES)
                &&& final(self)@ == logged(old(self)@, line_str.spec_bytes())
            },
    {
        match self.wal.write(line_str.as_bytes()) {
            Ok(written) => Ok(written),
            Err(e) => Err(IngestError::Wal(e)),
        }
    }

    /// Stores the points of a line that lies in the log, freezes the active
    /// tier and requests its partition when the tier has grown beyond the
    /// threshold and no request is under way, and takes what the worker has
    /// reported. The actions hold what is left to do: nothing to append.
    /// Fails with the active tier frozen when the request cannot be sent.
    /// It is `gather_line` and then `ask_partition`.
    pub fn store_line(&mut self, line_str: &str, values: &Vec<Option<u64>>) -> (done: Result<
        IngestActions,
        IngestError,
    >)
        requires
            old(self).wf(),
        ensures
            final(self).wf(),
            final(self).inbox() == old(self).inbox(),
            final(self).outbox() == old(self).outbox(),
            final(self).keys() == interned_all(
                old(self).keys(),
                line_points(line_str.spec_bytes(), values@),
            ),
            exists|sent: bool, acked: Option<Ack>|
                #[trigger] stored(old(self)@, line_str.spec_bytes(), values@, sent, acked) == (
                    final(self)@,
                    outcome_view(done),
                ),
            !snapshot_due(kept(old(self)@, line_str.spec_bytes(), values@)) ==> done is Ok,
            done matches Err(e) ==> e == IngestError::ChannelClosed,
    {
        let ghost line = line_str.spec_bytes();
        let due: bool = self.gather_line(line_str, values);
        let ghost held = self@;
        let done = self.ask_partition(due);
        proof {
            let how = choose|sent: bool, acked: Option<Ack>|
                #[trigger] asked(held, due, sent, acked) == (self@, outcome_view(done));
            assert(stored(old(self)@, line, values@, how.0, how.1) == (self@, outcome_view(done)));
        }
        done
    }

    /// Stores the points of a line that lies in the log, and freezes the
    /// active tier when it has grown beyond the threshold and no request is
    /// under way. Returns whether it froze the tier: the request for its
    /// partition is then due, see `ask_partition`.
    pub fn gather_line(&mut self, line_str: &str, values: &Vec<Option<u64>>) -> (due: bool)
        requires
            old(self).wf(),
        ensures
            final(self).wf(),
            final(self).inbox() == old(self).inbox(),
            final(self).outbox() == old(self).outbox(),
            final(self).keys() == interned_all(
                old(self).keys(),
                line_points(line_str.spec_bytes(), values@),
            ),
            due == snapshot_due(kept(old(self)@, line_str.spec_bytes(), values@)),
            final(self)@ == gathered(old(self)@, line_str.spec_bytes(), values@),
    {
        self.save_to_storage(line_str.as_bytes(), values);
        proof {
            self.storage.lemma_count_bound();
        }
        if self.storage.active_set_size() > SNAPSHOT_THRESHOLD && !self.snapshot_progress.is_pending() {
            self.storage.make_snapshot();
            true
        } else {
            false
        }
    }

    /// Sends the request for the partition of the tier that was frozen,
    /// where one is `due`, and rolls the segment of the log; then takes what
    /// the worker has reported. Fails, and changes nothing, when the request
    /// cannot be sent.
    pub fn ask_partition(&mut self, due: bool) -> (done: Result<IngestActions, IngestError>)
        requires
            old(self).wf(),
        ensures
            final(self).wf(),
            final(self).inbox() == old(self).inbox(),
            final(self).outbox() == old(self).outbox(),
            final(self).keys() == old(self).keys(),
            exists|sent: bool, acked: Option<Ack>|
                #[trigger] asked(old(self)@, due, sent, acked) == (final(self)@, outcome_view(done)),
            !due ==> done is Ok,
            done matches Err(e) ==> e == IngestError::ChannelClosed,
    {
        let mut roll: Option<WalRoll> = None;
        let mut snapshot: Option<usize> = None;
        if due {
            let position: usize = self.snapshot_wal_position;
            match self.snapshot_progress.request(position) {
                Ok(_) => {
                    let rolled: WalRoll = self.wal.roll_new_segment(position as u64);
                    self.snapshot_wal_position = rolled.position as usize;
                    roll = Some(rolled);
                    snapshot = Some(position);
                },
                Err(e) => {
                    proof {
                        assert(asked(old(self)@, due, false, None) == (
                            self@,
                            Err::<ActionsView, IngestError>(IngestError::ChannelClosed),
                        ));
                    }
                    return Err(e);
                },
            }
        }
        let ghost after = self@;
        let freed: Option<usize> = self.snapshot_progress.can_truncate_wal();
        let drop_pending: Option<String> = match freed {
            Some(position) => Some(self.wal.drop_pending(position as u64)),
            None => None,
        };
        let actions = IngestActions { frame: Vec::new(), sync: false, roll, snapshot, drop_pending };
        proof {
            let acked = choose|acked: Option<Ack>|
                #[trigger] settled_by(after.pending, acked) == (self@.pending, freed);
            assert(actions@.frame =~= Seq::<u8>::empty());
            assert(asked(old(self)@, due, true, acked) == (
                self@,
                Ok::<ActionsView, IngestError>(actions@),
            ));
        }
        Ok(actions)
    }

    /// An engine whose store holds what the segment `log` holds: its blocks
    /// are replayed, each block is split into lines, and the points of each
    /// line are stored. `values` holds, for each line in the order of
    /// `wal_lines`, the numeric values of its fields. The live segment is to
    /// be cut behind the last good block, where the engine's log goes on.
    pub fn restore_from_wal(
        storage: SnaphotableStorage,
        wal_path: &str,
        partition_manager: PartitionManager,
        log: Vec<u8>,
        values: &Vec<Vec<Option<u64>>>,
    ) -> (made: (Self, PartitionWorker))
        requires
            storage.wf(),
        ensures
            made.1.manager() == partition_manager@,
            made.1.wf() == partition_manager.wf(),
            made.0.wf(),
            made.0.keys() == interned_all(
                Seq::empty(),
                restore_points(wal_lines(log@), value_views(values@)),
            ),
            made.0@ == (EngineView {
                active: insert_points(
                    storage.active(),
                    restore_points(wal_lines(log@), value_views(values@)),
                ),
                active_count: counted(
                    storage.active_count(),
                    restore_points(wal_lines(log@), value_views(values@)).len(),
                ),
                snapshot: storage.snapshot(),
                wal_path: wal_path@,
                wal_position: good_prefix(log@),
                wal_dirty: 0,
                pending: false,
                snapshot_wal_position: 0,
            }),
    {
        let (mut engine, worker) = Engine::new(storage, wal_path, partition_manager);
        let position: u64 = engine.replay_segment(log, values);
        engine.truncate_wal(position);
        (engine, worker)
    }

    /// Takes note that the live segment was cut to `position` bytes.
    pub fn truncate_wal(&mut self, position: u64)
        requires
            old(self).wf(),
        ensures
            final(self).wf(),
            final(self).inbox() == old(self).inbox(),
            final(self).outbox() == old(self).outbox(),
            final(self).keys() == old(self).keys(),
            final(self)@ == (EngineView {
                active: old(self)@.active,
                active_count: old(self)@.active_count,
                snapshot: old(self)@.snapshot,
                wal_path: old(self)@.wal_path,
                wal_position: position as nat,
                wal_dirty: old(self)@.wal_dirty,
                pending: old(self)@.pending,
                snapshot_wal_position: old(self)@.snapshot_wal_position,
            }),
    {
        self.wal.truncate(position);
    }

    /// Stores what one segment holds, a pending one or the live one: its
    /// blocks are replayed, each block is split into lines, and the points
    /// of each line are stored. `values` holds, for each line in the order of
    /// `wal_lines`, the numeric values of its fields. Returns the offset
    /// behind the last good block of the segment.
    pub fn replay_segment(&mut self, log: Vec<u8>, values: &Vec<Vec<Option<u64>>>) -> (good: u64)
        requires
            old(self).wf(),
        ensures
            final(self).wf(),
            final(self).inbox() == old(self).inbox(),
            final(self).outbox() == old(self).outbox(),
            final(self).keys() == interned_all(
                old(self).keys(),
                restore_points(wal_lines(log@), value_views(values@)),
            ),
            good == good_prefix(log@),
            final(self)@ == (EngineView {
                active: insert_points(
                    old(self)@.active,
                    restore_points(wal_lines(log@), value_views(values@)),
                ),
                active_count: counted(
                    old(self)@.active_count,
                    restore_points(wal_lines(log@), value_views(values@)).len(),
                ),
                snapshot: old(self)@.snapshot,
                wal_path: old(self)@.wal_path,
                wal_position: old(self)@.wal_position,
                wal_dirty: old(self)@.wal_dirty,
                pending: old(self)@.pending,
                snapshot_wal_position: old(self)@.snapshot_wal_position,
            }),
    {
        let (lines, position) = replay_lines(log);
        let ghost all = byte_views(lines@);
        let ghost given = value_views(values@);
        let none: Vec<Option<u64>> = Vec::new();
        let mut n: usize = 0;
        proof {
            self.storage.lemma_count_bound();
            assert(all.take(0) =~= Seq::empty());
        }
        while n < lines.len()
            invariant
                n <= lines@.len(),
                all == byte_views(lines@),
                given == value_views(values@),
                none@.len() == 0,
                self.wf(),
                self.inbox() == old(self).inbox(),
                self.outbox() == old(self).outbox(),
                self.keys() == interned_all(
                    old(self).keys(),
                    restore_points(all.take(n as int), given),
                ),
                old(self)@.active_count <= usize::MAX,
                self@ == (EngineView {
                    active: insert_points(
                        old(self)@.active,
                        restore_points(all.take(n as int), given),
                    ),
                    active_count: counted(
                        old(self)@.active_count,
                        restore_points(all.take(n as int), given).len(),
                    ),
                    snapshot: old(self)@.snapshot,
                    wal_path: old(self)@.wal_path,
                    wal_position: old(self)@.wal_position,
                    wal_dirty: old(self)@.wal_dirty,
                    pending: old(self)@.pending,
                    snapshot_wal_position: old(self)@.snapshot_wal_position,
                }),
            decreases lines@.len() - n,
        {
            proof {
                let before = restore_points(all.take(n as int), given);
                let more = line_points(all[n as int], values_at(given, n as int));
                assert(all.take(n + 1).drop_last() == all.take(n as int));
                assert(all.take(n + 1).last() == lines@[n as int]@);
                lemma_insert_points_concat(old(self)@.active, before, more);
                lemma_interned_concat(old(self).keys(), before, more);
                if n < values@.len() {
                    assert(values_at(given, n as int) == values@[n as int]@);
                } else {
                    assert(values_at(given, n as int) =~= none@);
                }
            }
            if n < values.len() {
                self.save_to_storage(lines[n].as_slice(), &values[n]);
            } else {
                self.save_to_storage(lines[n].as_slice(), &none);
            }
            n = n + 1;
        }
        proof {
            assert(all.take(all.len() as int) == all);
        }
        position
    }

    /// Stores the points of one line; bytes that are no line are passed
    /// over, and so is a field without a numeric value.
    pub fn save_to_storage(&mut self, line: &[u8], values: &Vec<Option<u64>>)
        requires
            old(self).wf(),
        ensures
            final(self).wf(),
            final(self).inbox() == old(self).inbox(),
            final(self).outbox() == old(self).outbox(),
            final(self).keys() == interned_all(old(self).keys(), line_points(line@, values@)),
            final(self)@ == (EngineView {
                active: insert_points(old(self)@.active, line_points(line@, values@)),
                active_count: counted(
                    old(self)@.active_count,
                    line_points(line@, values@).len(),
                ),
                snapshot: old(self)@.snapshot,
                wal_path: old(self)@.wal_path,
                wal_position: old(self)@.wal_position,
                wal_dirty: old(self)@.wal_dirty,
                pending: old(self)@.pending,
                snapshot_wal_position: old(self)@.snapshot_wal_position,
            }),
    {
        let parsed: Option<Line> = Line::parse(line);
        proof {
            self.storage.lemma_count_bound();
        }
        match parsed {
            None => {},
            Some(parsed_line) => {
                let tags: Vec<(&str, &str)> = parsed_line.tags();
                let name: &str = parsed_line.timeseries_name();
                let timestamp: u64 = parsed_line.timestamp();
                let ghost parts = parsed_line.parts();
                proof {
                    assert(pair_views(tags@) =~= text_pairs(parts.tags)) by {
                        assert(tags@.len() == parts.tags.len());
                        assert forall|k: int| 0 <= k < tags@.len() implies pair_views(tags@)[k]
                            == text_pairs(parts.tags)[k] by {
                            lemma_text_of_bytes(tags@[k].0);
                            lemma_text_of_bytes(tags@[k].1);
                            assert(crate::protocol::pairs_bytes(tags@)[k] == parts.tags[k]);
                        }
                    }
                }
                let mut fields = parsed_line.fields_iter();
                let mut i: usize = 0;
                loop
                    invariant
                        self.wf(),
                        self.inbox() == old(self).inbox(),
                        self.outbox() == old(self).outbox(),
                        self.keys() == interned_all(
                            old(self).keys(),
                            field_points(parts, values@, i as nat),
                        ),
                        fields.wf(),
                        fields.line() == parsed_line,
                        fields.index() == i,
                        parts == parsed_line.parts(),
                        i <= parts.fields.len(),
                        name@ == decode_utf8(parts.name),
                        timestamp == parts.timestamp,
                        pair_views(tags@) == text_pairs(parts.tags),
                        self@.active == insert_points(
                            old(self)@.active,
                            field_points(parts, values@, i as nat),
                        ),
                        self@.active_count == counted(
                            old(self)@.active_count,
                            field_points(parts, values@, i as nat).len(),
                        ),
                        self@.snapshot == old(self)@.snapshot,
                        self@.wal_path == old(self)@.wal_path,
                        self@.wal_position == old(self)@.wal_position,
                        self@.wal_dirty == old(self)@.wal_dirty,
                        self@.pending == old(self)@.pending,
                        self@.snapshot_wal_position == old(self)@.snapshot_wal_position,
                    ensures
                        i == parts.fields.len(),
                    decreases parts.fields.len() - i,
                {
                    match fields.next() {
                        None => {
                            break;
                        },
                        Some((field_name, _field_value)) => {
                            proof {
                                lemma_text_of_bytes(field_name);
                            }
                            if i < values.len() {
                                match values[i] {
                                    Some(value) => {
                                        let mut key: String = String::from_str(name);
                                        key.append(":");
                                        key.append(field_name);
                                        let shared: Arc<String> = self.intern(key);
                                        let mut data_point: DataPoint = DataPoint::new(
                                            shared,
                                            timestamp,
                                            value,
                                        );
                                        data_point.set_tags(&tags);
                                        proof {
                                            let before = field_points(parts, values@, i as nat);
                                            assert(field_points(parts, values@, (i + 1) as nat)
                                                == before.push(data_point@));
                                            assert(before.push(data_point@).drop_last() == before);
                                        }
                                        self.storage.add(data_point);
                                    },
                                    None => {},
                                }
                            }
                            i = i + 1;
                        },
                    }
                }
            },
        }
    }
}


/// The line feed that parts the lines of a block.
pub const NEWLINE: u8 = 10;

/// The lines of a block: the pieces between its line feeds.
pub open spec fn chunks(block: Seq<u8>) -> Seq<Seq<u8>>
    decreases block.len(),
{
    let n = index_of(block, NEWLINE);
    if n >= block.len() {
        seq![block]
    } else {
        seq![block.take(n as int)] + chunks(block.skip(n + 1 as int))
    }
}

/// The lines of the blocks, in their order.
pub open spec fn lines_of(blocks: Seq<Seq<u8>>) -> Seq<Seq<u8>>
    decreases blocks.len(),
{
    if blocks.len() == 0 {
        Seq::empty()
    } else {
        lines_of(blocks.drop_last()) + chunks(blocks.last())
    }
}

/// The lines that a replay of the segment `log` delivers.
pub open spec fn wal_lines(log: Seq<u8>) -> Seq<Seq<u8>> {
    lines_of(replay(log))
}

/// The numeric values given for the line at `i`; none where nothing is
/// given.
pub open spec fn values_at(values: Seq<Seq<Option<u64>>>, i: int) -> Seq<Option<u64>> {
    if 0 <= i < values.len() {
        values[i]
    } else {
        Seq::empty()
    }
}

/// The points of the lines, in their order.
pub open spec fn restore_points(lines: Seq<Seq<u8>>, values: Seq<Seq<Option<u64>>>) -> Seq<
    PointView,
>
    decreases lines.len(),
{
    if lines.len() == 0 {
        Seq::empty()
    } else {
        restore_points(lines.drop_last(), values) + line_points(
            lines.last(),
            values_at(values, lines.len() - 1),
        )
    }
}

/// What a run of byte vectors holds.
pub open spec fn byte_views(lines: Seq<Vec<u8>>) -> Seq<Seq<u8>> {
    lines.map_values(|line: Vec<u8>| line@)
}

/// What a run of value vectors holds.
pub open spec fn value_views(values: Seq<Vec<Option<u64>>>) -> Seq<Seq<Option<u64>>> {
    values.map_values(|line: Vec<Option<u64>>| line@)
}

/// Appends the lines of `block` to `lines`.
pub fn split_lines(block: &[u8], lines: &mut Vec<Vec<u8>>)
    ensures
        byte_views(final(lines)@) == byte_views(old(lines)@) + chunks(block@),
{
    let size: usize = block.len();
    let ghost before = byte_views(lines@);
    let ghost mut got: Seq<Seq<u8>> = Seq::empty();
    let mut from: usize = 0;
    proof {
        assert(before + got == before);
        assert(block@.skip(0) == block@);
    }
    loop
        invariant
            from <= size == block@.len(),
            before == byte_views(old(lines)@),
            byte_views(lines@) == before + got,
            chunks(block@) == got + chunks(block@.skip(from as int)),
        decreases size - from,
    {
        let ghost rest = block@.skip(from as int);
        let end: usize = find(block, from, size, NEWLINE);
        let chunk: Vec<u8> = slice_to_vec(slice_subrange(block, from, end));
        let ghost held = lines@;
        lines.push(chunk);
        proof {
            assert(rest == block@.subrange(from as int, size as int));
            assert(chunk@ == rest.take(end - from));
            assert(byte_views(lines@) =~= byte_views(held).push(chunk@));
            assert(before + got.push(chunk@) == (before + got).push(chunk@));
        }
        if end >= size {
            proof {
                assert(rest.take(rest.len() as int) == rest);
                assert(got + seq![rest] == got.push(rest));
            }
            return;
        }
        proof {
            assert(rest.skip(end - from + 1) == block@.skip(end + 1));
            assert(got + (seq![chunk@] + chunks(block@.skip(end + 1))) == got.push(chunk@) + chunks(
                block@.skip(end + 1),
            ));
            got = got.push(chunk@);
        }
        from = end + 1;
    }
}

/// The lines that a replay of the segment delivers, and the offset behind
/// its last good block.
pub fn replay_lines(log: Vec<u8>) -> (replayed: (Vec<Vec<u8>>, u64))
    ensures
        byte_views(replayed.0@) == wal_lines(log@),
        replayed.1 == good_prefix(log@),
{
    let (blocks, position) = read_blocks(log);
    let ghost all = block_views(blocks@);
    let mut lines: Vec<Vec<u8>> = Vec::new();
    let mut i: usize = 0;
    proof {
        assert(all.take(0) =~= Seq::empty());
        assert(byte_views(lines@) =~= lines_of(all.take(0)));
    }
    while i < blocks.len()
        invariant
            i <= blocks@.len(),
            all == block_views(blocks@),
            byte_views(lines@) == lines_of(all.take(i as int)),
        decreases blocks@.len() - i,
    {
        proof {
            assert(all.take(i + 1).drop_last() == all.take(i as int));
            assert(all.take(i + 1).last() == blocks@[i as int]@);
        }
        split_lines(blocks[i].as_slice(), &mut lines);
        i = i + 1;
    }
    proof {
        assert(all.take(all.len() as int) == all);
    }
    (lines, position)
}

/// Carries out the requests for partitions: writes the snapshot tier as a
/// partition, empties the tier once the partition is committed, and reports
/// to the engine.
pub struct PartitionWorker {
    inbox: Receiver<usize>,
    outbox: Sender<Ack>,
    partition_manager: PartitionManager,
}

/// What a request does to the worker's partition manager and to the
/// snapshot tier, when the roll ends with `result`: a committed partition
/// empties the tier, a failed roll leaves it.
pub open spec fn served(
    before: ManagerView,
    held: Seq<(Seq<char>, Seq<PointView>)>,
    after: ManagerView,
    left: Seq<(Seq<char>, Seq<PointView>)>,
    result: Result<(), PartitionError>,
) -> bool {
    &&& rolls(before, held, after, result)
    &&& left == if result is Ok {
        Seq::<(Seq<char>, Seq<PointView>)>::empty()
    } else {
        held
    }
}

impl PartitionWorker {
    /// What the worker's partition manager holds.
    pub closed spec fn manager(&self) -> ManagerView {
        self.partition_manager@
    }

    /// What holds of every value that the functions of the type hand out.
    pub closed spec fn wf(&self) -> bool {
        self.partition_manager.wf()
    }

    /// A worker that takes requests from `inbox`, rolls partitions with
    /// `partition_manager`, and reports to `outbox`.
    pub fn new(inbox: Receiver<usize>, outbox: Sender<Ack>, partition_manager: PartitionManager) -> (worker:
        Self)
        ensures
            worker.manager() == partition_manager@,
            worker.wf() == partition_manager.wf(),
            worker.inbox() == inbox,
            worker.outbox() == outbox,
    {
        PartitionWorker { inbox, outbox, partition_manager }
    }

    /// Waits for a request, carries it out, and reports. Returns `false`,
    /// with nothing done, once the channel of requests is closed and empty:
    /// the engine is gone. What is done for a request is `serve_request`.
    pub fn tick(&mut self, snapshot: &mut StorageSnapshot) -> (ticked: bool)
        requires
            old(self).wf(),
            old(snapshot).wf(),
        ensures
            final(self).wf(),
            final(snapshot).wf(),
            final(self).inbox() == old(self).inbox(),
            final(self).outbox() == old(self).outbox(),
            !ticked ==> final(self).manager() == old(self).manager() && final(snapshot).entries()
                == old(snapshot).entries(),
            ticked ==> exists|result: Result<(), PartitionError>|
                #[trigger] served(
                    old(self).manager(),
                    old(snapshot).entries(),
                    final(self).manager(),
                    final(snapshot).entries(),
                    result,
                ),
    {
        let request: Option<usize> = wait_from(&self.inbox);
        self.serve_request(request, snapshot)
    }

    /// The channel on which the requests arrive, for who waits for them: the
    /// worker's own receiving half.
    pub fn requests(&self) -> (inbox: &Receiver<usize>)
        ensures
            *inbox == self.inbox(),
    {
        &self.inbox
    }

    /// Sends a report to the engine, without waiting. Returns whether it
    /// could be sent.
    pub fn report(&self, ack: Ack) -> (sent: bool) {
        send_on(&self.outbox, ack)
    }

    /// Carries out the request for the segment `position` and returns what
    /// is to be reported: the position when the partition is committed, and
    /// the failure when it is not. Like `roll_partition`, it is for a
    /// directory that is held in memory.
    pub fn roll_request(&mut self, position: usize, snapshot: &mut StorageSnapshot) -> (ack: Ack)
        requires
            old(self).wf(),
            old(snapshot).wf(),
        ensures
            final(self).wf(),
            final(snapshot).wf(),
            final(self).inbox() == old(self).inbox(),
            final(self).outbox() == old(self).outbox(),
            ack is Failed || ack == (Ack::Committed { position }),
            exists|result: Result<(), PartitionError>|
                result is Err == ack is Failed && #[trigger] served(
                    old(self).manager(),
                    old(snapshot).entries(),
                    final(self).manager(),
                    final(snapshot).entries(),
                    result,
                ),
    {
        match self.roll_partition(snapshot) {
            Ok(_) => {
                proof {
                    assert(served(
                        old(self).manager(),
                        old(snapshot).entries(),
                        self.manager(),
                        snapshot.entries(),
                        Ok(()),
                    ));
                }
                Ack::Committed { position }
            },
            Err(e) => {
                proof {
                    assert(served(
                        old(self).manager(),
                        old(snapshot).entries(),
                        self.manager(),
                        snapshot.entries(),
                        Err(e),
                    ));
                }
                Ack::Failed
            },
        }
    }

    /// Arms a fail point of the worker's partition manager, or disarms it
    /// with `None`.
    pub fn set_failpoint(&mut self, failpoint: Option<crate::partition::manager::FailPoint>)
        ensures
            final(self).wf() == old(self).wf(),
            final(self).inbox() == old(self).inbox(),
            final(self).outbox() == old(self).outbox(),
            final(self).manager() == (ManagerView {
                partitions_dir: old(self).manager().partitions_dir,
                last_partition_id: old(self).manager().last_partition_id,
                partitions: old(self).manager().partitions,
                files: old(self).manager().files,
                journal: old(self).manager().journal,
                failpoint,
            }),
    {
        self.partition_manager.set_failpoint(failpoint);
    }

    /// Puts another partition manager in the place of the worker's, as after
    /// the directory was read anew.
    pub fn replace_manager(&mut self, partition_manager: PartitionManager)
        ensures
            final(self).manager() == partition_manager@,
            final(self).wf() == partition_manager.wf(),
            final(self).inbox() == old(self).inbox(),
            final(self).outbox() == old(self).outbox(),
    {
        self.partition_manager = partition_manager;
    }

    /// Writes the snapshot tier as the next partition: the partition enters
    /// what the manager holds, and the manager's journal says what is to be
    /// done to the directory. The tier stays as it is: `conclude` empties
    /// it, once the journal was carried out.
    pub fn write_snapshot(&mut self, snapshot: &MetricsData) -> (rolled: Result<
        (),
        PartitionError,
    >)
        requires
            old(self).wf(),
            snapshot.wf(),
        ensures
            final(self).wf(),
            final(self).inbox() == old(self).inbox(),
            final(self).outbox() == old(self).outbox(),
            rolls(old(self).manager(), snapshot.entries(), final(self).manager(), rolled),
    {
        match self.partition_manager.roll_new_partition(snapshot) {
            Ok(_) => Ok(()),
            Err(e) => Err(e),
        }
    }

    /// Concludes the request for the segment `position`, whose partition
    /// `write_snapshot` has written. `applied` says whether the journal was
    /// carried out, so that the partition lies in the directory. If it was,
    /// the tier is emptied and the position is to be reported; if not, the
    /// tier keeps its points and the failure is to be reported.
    pub fn conclude(&self, position: usize, applied: bool, snapshot: &mut StorageSnapshot) -> (ack:
        Ack)
        requires
            old(snapshot).wf(),
        ensures
            final(snapshot).wf(),
            applied ==> ack == (Ack::Committed { position }) && final(snapshot).entries() == Seq::<
                (Seq<char>, Seq<PointView>),
            >::empty(),
            !applied ==> ack == Ack::Failed && final(snapshot).entries() == old(snapshot).entries(),
    {
        if applied {
            snapshot.clear();
            Ack::Committed { position }
        } else {
            Ack::Failed
        }
    }

    /// Writes the snapshot tier as the next partition, and empties the tier
    /// when the partition is committed: `write_snapshot` and `conclude` in
    /// one, for a directory that is held in memory, where the journal has
    /// nothing left to fail on.
    pub fn roll_partition(&mut self, snapshot: &mut StorageSnapshot) -> (rolled: Result<
        (),
        PartitionError,
    >)
        requires
            old(self).wf(),
            old(snapshot).wf(),
        ensures
            final(self).wf(),
            final(snapshot).wf(),
            final(self).inbox() == old(self).inbox(),
            final(self).outbox() == old(self).outbox(),
            rolls(old(self).manager(), old(snapshot).entries(), final(self).manager(), rolled),
            rolled is Ok ==> final(snapshot).entries() == Seq::<(Seq<char>, Seq<PointView>)>::empty(),
            rolled is Err ==> final(snapshot).entries() == old(snapshot).entries(),
    {
        match self.write_snapshot(snapshot.data()) {
            Ok(_) => {
                snapshot.clear();
                Ok(())
            },
            Err(e) => Err(e),
        }
    }

    /// Hands out the changes to the partitions directory that are to be
    /// carried out.
    pub fn take_journal(&mut self) -> (ops: Vec<DirOp>)
        requires
            old(self).wf(),
        ensures
            final(self).wf(),
            final(self).inbox() == old(self).inbox(),
            final(self).outbox() == old(self).outbox(),
            crate::partition::dir::op_views(ops@) == old(self).manager().journal,
            final(self).manager() == (ManagerView {
                partitions_dir: old(self).manager().partitions_dir,
                last_partition_id: old(self).manager().last_partition_id,
                partitions: old(self).manager().partitions,
                files: old(self).manager().files,
                journal: Seq::empty(),
                failpoint: old(self).manager().failpoint,
            }),
    {
        self.partition_manager.take_journal()
    }

    /// The partition manager.
    pub fn partition_manager(&self) -> (manager: &PartitionManager)
        ensures
            manager@ == self.manager(),
            manager.wf() == self.wf(),
    {
        &self.partition_manager
    }

    /// Gives the partition manager back.
    pub fn into_manager(self) -> (manager: PartitionManager)
        ensures
            manager@ == self.manager(),
            manager.wf() == self.wf(),
    {
        self.partition_manager
    }

    /// Carries out what was taken from the channel of requests: nothing
    /// where nothing was taken; else the request is carried out and its
    /// outcome is reported to the engine. Returns whether there was a
    /// request.
    pub fn serve_request(&mut self, request: Option<usize>, snapshot: &mut StorageSnapshot) -> (ticked:
        bool)
        requires
            old(self).wf(),
            old(snapshot).wf(),
        ensures
            final(self).wf(),
            final(snapshot).wf(),
            final(self).inbox() == old(self).inbox(),
            final(self).outbox() == old(self).outbox(),
            ticked == request is Some,
            request is None ==> final(self).manager() == old(self).manager() && final(snapshot).entries() == old(snapshot).entries(),
            request is Some ==> exists|result: Result<(), PartitionError>|
                #[trigger] served(
                    old(self).manager(),
                    old(snapshot).entries(),
                    final(self).manager(),
                    final(snapshot).entries(),
                    result,
                ),
    {
        match request {
            Some(position) => {
                let ack: Ack = self.roll_request(position, snapshot);
                let _ = self.report(ack);
                true
            },
            None => false,
        }
    }

    /// The half of the channel on which the requests arrive.
    pub closed spec fn inbox(&self) -> Receiver<usize> {
        self.inbox
    }

    /// The half of the channel on which the reports go out.
    pub closed spec fn outbox(&self) -> Sender<Ack> {
        self.outbox
    }
}

/// A block without a line feed is one line.
pub proof fn lemma_chunks_of_line(line: Seq<u8>)
    requires
        free_of(line, NEWLINE),
    ensures
        chunks(line) == seq![line],
{
    lemma_index_of_is(line, NEWLINE, line.len() as int);
}

/// Values given for lines that are not there change nothing.
pub proof fn lemma_restore_points_more_values(
    lines: Seq<Seq<u8>>,
    values: Seq<Seq<Option<u64>>>,
    more: Seq<Option<u64>>,
)
    requires
        lines.len() <= values.len(),
    ensures
        restore_points(lines, values.push(more)) == restore_points(lines, values),
    decreases lines.len(),
{
    if lines.len() > 0 {
        lemma_restore_points_more_values(lines.drop_last(), values, more);
        assert(values_at(values.push(more), lines.len() - 1) == values_at(values, lines.len() - 1));
    }
}

/// Durability: a line that `ingest` has framed into the live segment is in
/// the store again after a restart. When the frame of a line without line
/// feed is appended to a segment of whole frames, a replay of the segment
/// delivers the lines that it delivered before and then that line; and the
/// active tier that `restore_from_wal` fills from the longer segment is the
/// one that it fills from the shorter, with the points added that `ingest`
/// stored for the line.
pub proof fn lemma_restore_after_ingest(
    start: Seq<(Seq<char>, Seq<PointView>)>,
    log: Seq<u8>,
    line: Seq<u8>,
    values: Seq<Seq<Option<u64>>>,
    line_values: Seq<Option<u64>>,
)
    requires
        settled(log),
        line.len() <= u64::MAX,
        free_of(line, NEWLINE),
        values.len() == wal_lines(log).len(),
    ensures
        settled(log + frame(line)),
        wal_lines(log + frame(line)) == wal_lines(log).push(line),
        restore_points(wal_lines(log + frame(line)), values.push(line_values)) == restore_points(
            wal_lines(log),
            values,
        ) + line_points(line, line_values),
        insert_points(
            start,
            restore_points(wal_lines(log + frame(line)), values.push(line_values)),
        ) == insert_points(
            insert_points(start, restore_points(wal_lines(log), values)),
            line_points(line, line_values),
        ),
{
    lemma_replay_append(log, line);
    lemma_chunks_of_line(line);
    let blocks = replay(log);
    assert(blocks.push(line).drop_last() == blocks);
    assert(lines_of(blocks) + seq![line] == lines_of(blocks).push(line));
    let lines = wal_lines(log);
    assert(lines.push(line).drop_last() == lines);
    lemma_restore_points_more_values(lines, values, line_values);
    lemma_insert_points_concat(
        start,
        restore_points(lines, values),
        line_points(line, line_values),
    );
}

/// Interning the names of two runs of points one after the other is
/// interning them as one run.
pub proof fn lemma_interned_concat(
    keys: Seq<Seq<char>>,
    first: Seq<PointView>,
    second: Seq<PointView>,
)
    ensures
        interned_all(keys, first + second) == interned_all(interned_all(keys, first), second),
    decreases second.len(),
{
    if second.len() == 0 {
        assert(first + second == first);
    } else {
        lemma_interned_concat(keys, first, second.drop_last());
        assert((first + second).drop_last() == first + second.drop_last());
    }
}

/// Blocks without a line feed are their own lines.
pub proof fn lemma_lines_of_lines(lines: Seq<Seq<u8>>)
    requires
        forall|k: int| 0 <= k < lines.len() ==> free_of(#[trigger] lines[k], NEWLINE),
    ensures
        lines_of(lines) == lines,
    decreases lines.len(),
{
    if lines.len() > 0 {
        let front = lines.drop_last();
        assert forall|k: int| 0 <= k < front.len() implies free_of(#[trigger] front[k], NEWLINE) by {
            assert(front[k] == lines[k]);
        }
        lemma_lines_of_lines(front);
        lemma_chunks_of_line(lines.last());
        assert(front + seq![lines.last()] == lines);
    }
}

/// Durability over a whole segment. Let the live segment hold the frames
/// that `ingest` has made of `lines`, none of them with a line feed, and
/// behind them a torn `tail`, from which a replay delivers nothing. Then a
/// replay delivers exactly `lines`, and the segment is cut behind their
/// frames. And when `restore_from_wal` has filled a store that held `active`
/// and `snapshot`, and the active tier is frozen, the series `name` of the
/// snapshot holds what the store held of it and the points of the lines that
/// carry the name: each as often as the lines give it, and no other.
pub proof fn lemma_restore_whole_segment(
    active: Seq<(Seq<char>, Seq<PointView>)>,
    snapshot: Seq<(Seq<char>, Seq<PointView>)>,
    lines: Seq<Seq<u8>>,
    values: Seq<Seq<Option<u64>>>,
    tail: Seq<u8>,
    name: Seq<char>,
)
    requires
        entries_wf(active),
        entries_wf(snapshot),
        forall|k: int|
            0 <= k < lines.len() ==> (#[trigger] lines[k]).len() <= u64::MAX && free_of(
                lines[k],
                NEWLINE,
            ),
        replay(tail).len() == 0,
    ensures
        wal_lines(log_of(lines) + tail) == lines,
        good_prefix(log_of(lines) + tail) == log_of(lines).len(),
        ({
            let points = restore_points(wal_lines(log_of(lines) + tail), values);
            let restored = insert_points(active, points);
            let frozen = merge_entries(snapshot, restored);
            sorted_by_time(lookup(frozen, name)).to_multiset() == lookup(
                snapshot,
                name,
            ).to_multiset().add(lookup(active, name).to_multiset()).add(
                named(points, name).to_multiset(),
            )
        }),
{
    lemma_replay_after_frames(lines, tail);
    assert(lines + replay(tail) == lines);
    lemma_lines_of_lines(lines);
    lemma_good_prefix_after_frames(lines, tail);
    lemma_good_prefix_steps(tail);
    let points = restore_points(lines, values);
    let restored = insert_points(active, points);
    let frozen = merge_entries(snapshot, restored);
    lemma_insert_points_wf(active, points);
    lemma_snapshot_moves_points(snapshot, restored, name);
    lemma_lookup_insert_points(active, points, name);
    lemma_sorted_by_time(lookup(frozen, name));
    vstd::seq_lib::lemma_multiset_commutative(lookup(active, name), named(points, name));
    assert(lookup(snapshot, name).to_multiset().add(
        lookup(active, name).to_multiset().add(named(points, name).to_multiset()),
    ) =~= lookup(snapshot, name).to_multiset().add(lookup(active, name).to_multiset()).add(
        named(points, name).to_multiset(),
    ));
}

} // verus!
