//! The write-ahead log: framing of blocks, replay that steps over frames whose
//! checksum does not match, and the bookkeeping of the live segment.
//!
//! A segment is a run of frames. Each frame is the payload's length as a
//! little-endian `u64`, the payload's CRC-32 as a little-endian `u32`, and the
//! payload itself.

use vstd::prelude::*;
use vstd::bytes::*;
use vstd::slice::*;
use vstd::string::*;
use crate::text::{decimal, decimal_string};

verus! {

/// Bytes that precede the payload in every frame.
pub const BLOCK_HEADER_SIZE: usize = 12;

/// Once more than this many bytes were appended without a sync, a sync is due.
pub const MAX_DIRTY_BYTES: usize = 1048576;

/// The CRC-32 (IEEE) checksum of `block`: what `crc32fast::hash` returns for it.
pub uninterp spec fn crc32_of(block: Seq<u8>) -> u32;

/// Calls `crc32fast::hash`, which feeds the whole slice to a fresh hasher and
/// finalizes it. The checksum depends on the bytes alone, so the contract
/// equates it with `crc32_of` of the slice; nothing else is claimed.
#[verifier::external_body]
fn crc32(block: &[u8]) -> (sum: u32)
    ensures
        sum == crc32_of(block@),
{
    crc32fast::hash(block)
}

/// A frame as it lies in a segment, with whatever checksum is stored in it.
pub open spec fn stored_frame(payload: Seq<u8>, crc: u32) -> Seq<u8> {
    spec_u64_to_le_bytes(payload.len() as u64) + spec_u32_to_le_bytes(crc) + payload
}

/// The frame that `Wal::write` produces for `payload`.
pub open spec fn frame(payload: Seq<u8>) -> Seq<u8> {
    stored_frame(payload, crc32_of(payload))
}

/// What a reader finds at the start of a run of bytes.
pub enum Head {
    /// Fewer bytes than a header: the segment ends here.
    End,
    /// The header declares more payload than there are bytes left.
    Corrupt,
    /// A whole frame of `size` bytes whose checksum does not match.
    Skip { size: nat },
    /// A whole frame whose checksum matches.
    Block { payload: Seq<u8> },
}

/// What a reader finds at the start of `log`.
pub open spec fn head(log: Seq<u8>) -> Head {
    if log.len() < 12 {
        Head::End
    } else {
        let len = spec_u64_from_le_bytes(log.subrange(0, 8)) as nat;
        let crc = spec_u32_from_le_bytes(log.subrange(8, 12));
        if len > log.len() - 12 {
            Head::Corrupt
        } else {
            let payload = log.subrange(12, 12 + len as int);
            if crc32_of(payload) == crc {
                Head::Block { payload }
            } else {
                Head::Skip { size: 12 + len }
            }
        }
    }
}

/// The payloads that a replay of `log` delivers, in order. Frames with a wrong
/// checksum are stepped over; a short or corrupt header ends the replay.
pub open spec fn replay(log: Seq<u8>) -> Seq<Seq<u8>>
    decreases log.len(),
{
    match head(log) {
        Head::End => seq![],
        Head::Corrupt => seq![],
        Head::Skip { size } => replay(log.skip(size as int)),
        Head::Block { payload } => seq![payload] + replay(log.skip(12 + payload.len() as int)),
    }
}

/// The offset just behind the first block that a replay of `log` delivers, or
/// 0 when it delivers none.
pub open spec fn first_end(log: Seq<u8>) -> nat
    decreases log.len(),
{
    match head(log) {
        Head::End => 0,
        Head::Corrupt => 0,
        Head::Skip { size } => {
            let rest = first_end(log.skip(size as int));
            if rest > 0 {
                size + rest
            } else {
                0
            }
        },
        Head::Block { payload } => 12 + payload.len(),
    }
}

/// The offset just behind the last block that a replay of `log` delivers, or
/// 0 when it delivers none.
pub open spec fn good_prefix(log: Seq<u8>) -> nat
    decreases log.len(),
{
    match head(log) {
        Head::End => 0,
        Head::Corrupt => 0,
        Head::Skip { size } => {
            let rest = good_prefix(log.skip(size as int));
            if rest > 0 {
                size + rest
            } else {
                0
            }
        },
        Head::Block { payload } => 12 + payload.len() + good_prefix(
            log.skip(12 + payload.len() as int),
        ),
    }
}

/// True when a reader that delivers nothing from `log` stops at a corrupt
/// header rather than at the end of the bytes.
pub open spec fn blocked(log: Seq<u8>) -> bool
    decreases log.len(),
{
    match head(log) {
        Head::End => false,
        Head::Corrupt => true,
        Head::Skip { size } => blocked(log.skip(size as int)),
        Head::Block { payload } => false,
    }
}

/// True when `log` is a run of whole frames and nothing else.
pub open spec fn settled(log: Seq<u8>) -> bool
    decreases log.len(),
{
    match head(log) {
        Head::End => log.len() == 0,
        Head::Corrupt => false,
        Head::Skip { size } => settled(log.skip(size as int)),
        Head::Block { payload } => settled(log.skip(12 + payload.len() as int)),
    }
}


/// Why a log operation cannot go on.
#[derive(Clone, Copy, Debug, PartialEq, Eq, Structural)]
pub enum WalError {
    /// A frame header declares more payload than the segment has left.
    CorruptHeader,
    /// The block, or the segment with it, would outgrow the machine's sizes.
    TooLarge,
}

/// A segment's bytes and the offset up to which they were read.
pub struct WalBlockReader {
    buf: Vec<u8>,
    position: usize,
}

impl WalBlockReader {
    /// The bytes of the segment.
    pub closed spec fn log(&self) -> Seq<u8> {
        self.buf@
    }

    /// The offset up to which the segment was read.
    pub closed spec fn offset(&self) -> nat {
        self.position as nat
    }

    /// Takes the bytes of one segment, to be read from its start.
    pub fn read(log: Vec<u8>) -> (reader: WalBlockReader)
        ensures
            reader.log() == log@,
            reader.offset() == 0,
    {
        WalBlockReader { buf: log, position: 0 }
    }

    /// An iterator over the blocks of the segment, from where the reader
    /// stands.
    pub fn into_iter(self) -> (iter: WalBlockIterator)
        requires
            self.offset() <= self.log().len(),
        ensures
            iter.wf(),
            iter.log() == self.log(),
            iter.position() == self.offset(),
            iter.current() is None,
            !iter.failed(),
            iter.last_good() == 0,
    {
        WalBlockIterator {
            link: self,
            status: ReadStatus::Idle,
            last_successfull_read_position: 0u64,
        }
    }

    fn file_size(&self) -> (size: usize)
        ensures
            size == self.buf@.len(),
    {
        self.buf.len()
    }

    fn log_position(&self) -> (position: usize)
        ensures
            position == self.position,
    {
        self.position
    }
}

/// What the last call of `consume_next` left behind.
#[derive(Clone, Copy, Debug, PartialEq, Eq, Structural)]
pub enum ReadStatus {
    /// No block is held: nothing was read yet, or the segment has ended.
    Idle,
    /// The payload of the block last delivered lies at `start..start + size`.
    Block { start: usize, size: usize },
    /// Reading stopped for good.
    Failed(WalError),
}

/// Walks the frames of a segment and hands out the payloads whose checksum
/// matches.
pub struct WalBlockIterator {
    link: WalBlockReader,
    status: ReadStatus,
    last_successfull_read_position: u64,
}

/// What one step does to a reader, and whether it delivers a block. A reader
/// that has failed stays as it is. Any other delivers the first block that a
/// replay of the bytes before it delivers, and then stands behind that
/// block; or, where there is none, delivers nothing, stays where it stands,
/// and has failed if a corrupt header stopped it.
pub open spec fn stepped(before: WalBlockIterator, after: WalBlockIterator, delivered: bool) -> bool {
    &&& after.log() == before.log()
    &&& before.failed() ==> !delivered && after == before
    &&& !before.failed() ==> {
        let rest = before.remaining();
        &&& delivered == (replay(rest).len() > 0)
        &&& delivered ==> {
            &&& after.current() == Some(replay(rest)[0])
            &&& after.position() == before.position() + first_end(rest)
            &&& after.last_good() == after.position()
            &&& !after.failed()
            &&& replay(after.remaining()) == replay(rest).drop_first()
        }
        &&& !delivered ==> {
            &&& after.current() is None
            &&& after.position() == before.position()
            &&& after.last_good() == before.last_good()
            &&& after.failed() == blocked(rest)
        }
    }
}

impl WalBlockIterator {
    /// The bytes of the segment.
    pub closed spec fn log(&self) -> Seq<u8> {
        self.link.buf@
    }

    /// The offset behind the block last delivered, where the next call goes on.
    pub closed spec fn position(&self) -> nat {
        self.link.position as nat
    }

    /// The bytes that were not read yet.
    pub open spec fn remaining(&self) -> Seq<u8> {
        self.log().skip(self.position() as int)
    }

    /// The payload that `get` hands out.
    pub closed spec fn current(&self) -> Option<Seq<u8>> {
        match self.status {
            ReadStatus::Block { start, size } => Some(
                self.link.buf@.subrange(start as int, start + size),
            ),
            _ => None,
        }
    }

    /// True once a corrupt header has stopped the reader.
    pub closed spec fn failed(&self) -> bool {
        self.status is Failed
    }

    /// The offset behind the last block whose checksum matched.
    pub closed spec fn last_good(&self) -> nat {
        self.last_successfull_read_position as nat
    }

    /// What holds of every value that the functions of the type hand out.
    pub closed spec fn wf(&self) -> bool {
        &&& self.link.position <= self.link.buf.len()
        &&& self.last_successfull_read_position <= self.link.position
        &&& match self.status {
            ReadStatus::Block { start, size } => start + size <= self.link.buf.len(),
            ReadStatus::Failed(e) => e == WalError::CorruptHeader,
            ReadStatus::Idle => true,
        }
    }

    /// Reads on to the next block whose checksum matches and reports whether
    /// there was one. Frames with a wrong checksum are stepped over whole. A
    /// reader that has failed stays as it is.
    pub fn consume_next(&mut self) -> (delivered: bool)
        requires
            old(self).wf(),
        ensures
            final(self).wf(),
            stepped(*old(self), *final(self), delivered),
    {
        self._consume_next()
    }

    fn _consume_next(&mut self) -> (delivered: bool)
        requires
            old(self).wf(),
        ensures
            final(self).wf(),
            stepped(*old(self), *final(self), delivered),
    {
        if let ReadStatus::Failed(_) = self.status {
            return false;
        }
        let total: usize = self.link.file_size();
        let begin: usize = self.link.log_position();
        let mut cursor: usize = begin;
        let ghost log = self.link.buf@;
        let ghost rest = log.skip(begin as int);
        loop
            invariant
                self.link.buf@ == log,
                self.link.position == begin,
                self.last_successfull_read_position == old(self).last_successfull_read_position,
                old(self).wf(),
                !(old(self).status is Failed),
                old(self).link.buf@ == log,
                old(self).link.position == begin,
                total == log.len(),
                begin <= cursor <= total,
                rest == log.skip(begin as int),
                replay(rest) == replay(log.skip(cursor as int)),
                blocked(rest) == blocked(log.skip(cursor as int)),
                first_end(rest) == if first_end(log.skip(cursor as int)) > 0 {
                    (cursor - begin) + first_end(log.skip(cursor as int))
                } else {
                    0
                },
            decreases total - cursor,
        {
            let ghost here = log.skip(cursor as int);
            if total - cursor < BLOCK_HEADER_SIZE {
                self.status = ReadStatus::Idle;
                return false;
            }
            let block_size: u64 = u64_from_le_bytes(
                slice_subrange(self.link.buf.as_slice(), cursor, cursor + 8),
            );
            let expected_crc32: u32 = u32_from_le_bytes(
                slice_subrange(self.link.buf.as_slice(), cursor + 8, cursor + 12),
            );
            proof {
                assert(here.subrange(0, 8) == log.subrange(cursor as int, cursor + 8));
                assert(here.subrange(8, 12) == log.subrange(cursor + 8, cursor + 12));
            }
            let left: usize = total - cursor - BLOCK_HEADER_SIZE;
            if block_size > left as u64 {
                self.status = ReadStatus::Failed(WalError::CorruptHeader);
                return false;
            }
            let size: usize = block_size as usize;
            let start: usize = cursor + BLOCK_HEADER_SIZE;
            let end: usize = start + size;
            let block_crc32: u32 = crc32(slice_subrange(self.link.buf.as_slice(), start, end));
            proof {
                assert(here.subrange(12, 12 + size) == log.subrange(start as int, end as int));
                assert(here.skip(12 + size) == log.skip(end as int));
            }
            if block_crc32 != expected_crc32 {
                cursor = end;
                continue;
            }
            proof {
                assert(first_end(here) == 12 + size);
                assert(replay(here) == seq![log.subrange(start as int, end as int)] + replay(
                    log.skip(end as int),
                ));
                assert(replay(here).drop_first() == replay(log.skip(end as int)));
            }
            self.link.position = end;
            self.last_successfull_read_position = end as u64;
            self.status = ReadStatus::Block { start, size };
            return true;
        }
    }

    /// Moves to the next block, if there is one.
    pub fn advance(&mut self)
        requires
            old(self).wf(),
        ensures
            final(self).wf(),
            stepped(
                *old(self),
                *final(self),
                !old(self).failed() && replay(old(self).remaining()).len() > 0,
            ),
    {
        let _ = self.consume_next();
    }

    /// The payload of the block that the last call delivered.
    pub fn get(&self) -> (block: Option<&[u8]>)
        requires
            self.wf(),
        ensures
            match block {
                Some(bytes) => self.current() == Some(bytes@),
                None => self.current() is None,
            },
    {
        match self.status {
            ReadStatus::Block { start, size } => Some(
                slice_subrange(self.link.buf.as_slice(), start, start + size),
            ),
            _ => None,
        }
    }

    /// The error that stopped the reader, if one did.
    pub fn error(&self) -> (error: Option<WalError>)
        requires
            self.wf(),
        ensures
            error == if self.failed() {
                Some(WalError::CorruptHeader)
            } else {
                None
            },
    {
        match self.status {
            ReadStatus::Failed(e) => Some(e),
            _ => None,
        }
    }

    /// The offset behind the last block whose checksum matched, to which the segment is cut after a replay.
    pub fn last_successfull_read_position(&self) -> (position: u64)
        ensures
            position == self.last_good(),
    {
        self.last_successfull_read_position
    }
}


/// What `Wal::write` asks of whoever holds the segment file.
pub struct WalWrite {
    /// The bytes to append to the live segment.
    pub frame: Vec<u8>,
    /// True when the segment is to be flushed and synced after the append.
    pub sync: bool,
}

/// What `Wal::roll_new_segment` asks of whoever holds the segment file: sync
/// the live segment, rename it to `pending`, and open an empty live segment.
pub struct WalRoll {
    /// The file name that the rolled segment gets.
    pub pending: String,
    /// The offset at which the new live segment starts.
    pub position: u64,
}

/// The name under which a rolled segment waits for its partition.
pub open spec fn pending_name(path: Seq<char>, position: nat) -> Seq<char> {
    path + ".pending_"@ + decimal(position)
}

/// The bookkeeping of the live segment: where it lies, how long it is, and how
/// many of its bytes were appended since the last sync.
pub struct Wal {
    file_name: String,
    position: u64,
    dirty_bytes: usize,
}

impl Wal {
    /// The path of the live segment.
    pub closed spec fn path(&self) -> Seq<char> {
        self.file_name@
    }

    /// The length of the live segment.
    pub closed spec fn position(&self) -> nat {
        self.position as nat
    }

    /// The bytes appended since the last sync.
    pub closed spec fn dirty(&self) -> nat {
        self.dirty_bytes as nat
    }

    /// What holds of every value that the functions of the type hand out.
    pub open spec fn wf(&self) -> bool {
        self.dirty() <= MAX_DIRTY_BYTES
    }

    /// A log whose live segment at `path` is empty.
    pub fn new(path: &str) -> (wal: Wal)
        ensures
            wal.wf(),
            wal.path() == path@,
            wal.position() == 0,
            wal.dirty() == 0,
    {
        Wal { file_name: String::from_str(path), position: 0, dirty_bytes: 0 }
    }

    /// A log whose live segment at `path` holds `position` bytes.
    pub fn from_position(path: &str, position: u64) -> (wal: Wal)
        ensures
            wal.wf(),
            wal.path() == path@,
            wal.position() == position,
            wal.dirty() == 0,
    {
        Wal { file_name: String::from_str(path), position, dirty_bytes: 0 }
    }

    /// The length of the live segment.
    pub fn position_now(&self) -> (position: u64)
        ensures
            position == self.position(),
    {
        self.position
    }

    /// Records that the live segment was flushed and synced.
    pub fn flush_and_sync(&mut self)
        ensures
            final(self).wf(),
            final(self).dirty() == 0,
            final(self).position() == old(self).position(),
            final(self).path() == old(self).path(),
    {
        self.dirty_bytes = 0;
    }

    /// Frames `block` for the live segment. The frame is to be appended to
    /// the segment; a sync is due once more than `MAX_DIRTY_BYTES` bytes have
    /// gathered since the last one.
    pub fn write(&mut self, block: &[u8]) -> (written: Result<WalWrite, WalError>)
        requires
            old(self).wf(),
        ensures
            final(self).wf(),
            final(self).path() == old(self).path(),
            written is Ok <==> block@.len() + 12 <= usize::MAX && old(self).position() + 12
                + block@.len() <= u64::MAX,
            written matches Ok(w) ==> {
                &&& w.frame@ == frame(block@)
                &&& w.frame@.len() == 12 + block@.len()
                &&& final(self).position() == old(self).position() + 12 + block@.len()
                &&& w.sync == (old(self).dirty() + 12 + block@.len() > MAX_DIRTY_BYTES)
                &&& final(self).dirty() == if w.sync {
                    0
                } else {
                    old(self).dirty() + 12 + block@.len()
                }
            },
            written matches Err(e) ==> e == WalError::TooLarge && *final(self) == *old(self),
    {
        let size: usize = block.len();
        if size > usize::MAX - BLOCK_HEADER_SIZE {
            return Err(WalError::TooLarge);
        }
        let framed: usize = size + BLOCK_HEADER_SIZE;
        if framed as u64 > u64::MAX - self.position {
            return Err(WalError::TooLarge);
        }
        let sum: u32 = crc32(block);
        let mut frame: Vec<u8> = u64_to_le_bytes(size as u64);
        let mut crc_bytes: Vec<u8> = u32_to_le_bytes(sum);
        frame.append(&mut crc_bytes);
        let mut payload: Vec<u8> = slice_to_vec(block);
        frame.append(&mut payload);
        self.position = self.position + framed as u64;
        let sync: bool = framed > MAX_DIRTY_BYTES - self.dirty_bytes;
        if sync {
            self.dirty_bytes = 0;
        } else {
            self.dirty_bytes = self.dirty_bytes + framed;
        }
        Ok(WalWrite { frame, sync })
    }

    /// Records that the live segment was cut to `position` bytes and synced.
    pub fn truncate(&mut self, position: u64)
        ensures
            final(self).position() == position,
            final(self).dirty() == old(self).dirty(),
            final(self).path() == old(self).path(),
    {
        self.position = position;
    }

    /// The length of the live segment, which is to be flushed and synced
    /// before the length is relied on.
    pub fn log_position(&mut self) -> (position: u64)
        ensures
            position == old(self).position(),
            final(self).wf(),
            final(self).dirty() == 0,
            final(self).position() == old(self).position(),
            final(self).path() == old(self).path(),
    {
        self.flush_and_sync();
        self.position
    }

    /// Ends the live segment: it is to be synced and renamed to the pending
    /// name of `expected_position`, and a new, empty live segment opened in
    /// its place.
    pub fn roll_new_segment(&mut self, expected_position: u64) -> (roll: WalRoll)
        ensures
            roll.pending@ == pending_name(old(self).path(), expected_position as nat),
            roll.position == 0,
            final(self).wf(),
            final(self).position() == 0,
            final(self).dirty() == 0,
            final(self).path() == old(self).path(),
    {
        let pending: String = self.pending_file(expected_position);
        self.position = 0;
        self.dirty_bytes = 0;
        WalRoll { pending, position: 0 }
    }

    /// The pending segment that is to be unlinked once the partition for
    /// `position` is durable. Unlinking a file that is gone already is no
    /// error.
    pub fn drop_pending(&self, position: u64) -> (pending: String)
        ensures
            pending@ == pending_name(self.path(), position as nat),
    {
        self.pending_file(position)
    }

    fn pending_file(&self, position: u64) -> (name: String)
        ensures
            name@ == pending_name(self.path(), position as nat),
    {
        let mut name: String = self.file_name.clone();
        name.append(".pending_");
        let digits: String = decimal_string(position);
        name.append(digits.as_str());
        name
    }
}

/// What a run of byte vectors holds.
pub open spec fn block_views(blocks: Seq<Vec<u8>>) -> Seq<Seq<u8>> {
    blocks.map_values(|block: Vec<u8>| block@)
}

/// Reads a segment to its end: the blocks that the reader delivers, in
/// their order, and the offset behind the last of them. These are the blocks
/// of a replay: every block whose checksum matches, each once, and no block
/// whose checksum does not.
pub fn read_blocks(log: Vec<u8>) -> (read: (Vec<Vec<u8>>, u64))
    ensures
        block_views(read.0@) == replay(log@),
        read.1 == good_prefix(log@),
{
    let ghost bytes = log@;
    let mut iter: WalBlockIterator = WalBlockReader::read(log).into_iter();
    let mut blocks: Vec<Vec<u8>> = Vec::new();
    proof {
        assert(bytes.skip(0) == bytes);
        assert(block_views(blocks@) =~= Seq::empty());
        assert(block_views(blocks@) + replay(bytes) == replay(bytes));
    }
    loop
        invariant_except_break
            !iter.failed(),
            iter.position() <= bytes.len(),
            iter.last_good() == iter.position(),
            block_views(blocks@) + replay(iter.remaining()) == replay(bytes),
            good_prefix(bytes) == iter.position() + good_prefix(iter.remaining()),
        invariant
            iter.wf(),
            iter.log() == bytes,
        ensures
            block_views(blocks@) == replay(bytes),
            iter.last_good() == good_prefix(bytes),
        decreases bytes.len() - iter.position(),
    {
        let ghost rest = iter.remaining();
        let ghost at = iter.position();
        let ghost done = block_views(blocks@);
        proof {
            lemma_good_prefix_steps(rest);
        }
        if !iter.consume_next() {
            proof {
                assert(done + replay(rest) == done);
            }
            break;
        }
        proof {
            assert(bytes.skip(at as int).skip(first_end(rest) as int) == bytes.skip(
                (at + first_end(rest)) as int,
            ));
            assert(done.push(replay(rest)[0]) + replay(rest).drop_first() == done + replay(rest));
        }
        match iter.get() {
            Some(block) => {
                blocks.push(slice_to_vec(block));
                proof {
                    assert(block_views(blocks@) =~= done.push(replay(rest)[0]));
                }
            },
            None => {},
        }
    }
    (blocks, iter.last_successfull_read_position())
}

/// The segment that holds the frames of `blocks`, one behind the other.
pub open spec fn log_of(blocks: Seq<Seq<u8>>) -> Seq<u8>
    decreases blocks.len(),
{
    if blocks.len() == 0 {
        seq![]
    } else {
        frame(blocks[0]) + log_of(blocks.drop_first())
    }
}

/// A reader at the start of a stored frame finds that frame: a block when the
/// stored checksum is the payload's, and a frame to step over when it is not.
pub proof fn lemma_head_of_frame(payload: Seq<u8>, crc: u32, rest: Seq<u8>)
    requires
        payload.len() <= u64::MAX,
    ensures
        stored_frame(payload, crc).len() == 12 + payload.len(),
        head(stored_frame(payload, crc) + rest) == (if crc32_of(payload) == crc {
            Head::Block { payload }
        } else {
            Head::Skip { size: 12 + payload.len() }
        }),
        (stored_frame(payload, crc) + rest).skip(12 + payload.len() as int) == rest,
{
    lemma_auto_spec_u64_to_from_le_bytes();
    lemma_auto_spec_u32_to_from_le_bytes();
    let log = stored_frame(payload, crc) + rest;
    assert(log.subrange(0, 8) == spec_u64_to_le_bytes(payload.len() as u64));
    assert(log.subrange(8, 12) == spec_u32_to_le_bytes(crc));
    assert(log.subrange(12, 12 + payload.len() as int) == payload);
    assert(log.skip(12 + payload.len() as int) == rest);
}

/// Bytes behind a whole frame do not change what a reader finds at its start.
pub proof fn lemma_head_extend(log: Seq<u8>, extra: Seq<u8>)
    requires
        head(log) is Skip || head(log) is Block,
    ensures
        head(log + extra) == head(log),
        head(log) matches Head::Skip { size } ==> size <= log.len() && (log + extra).skip(
            size as int,
        ) == log.skip(size as int) + extra,
        head(log) matches Head::Block { payload } ==> 12 + payload.len() <= log.len() && (log
            + extra).skip(12 + payload.len() as int) == log.skip(12 + payload.len() as int)
            + extra,
{
    let both = log + extra;
    assert(both.subrange(0, 8) == log.subrange(0, 8));
    assert(both.subrange(8, 12) == log.subrange(8, 12));
    let len = spec_u64_from_le_bytes(log.subrange(0, 8)) as nat;
    assert(both.subrange(12, 12 + len as int) == log.subrange(12, 12 + len as int));
    assert(both.skip(12 + len as int) == log.skip(12 + len as int) + extra);
}

/// Replay delivers the blocks of whole frames, then goes on with what follows.
pub proof fn lemma_replay_after_frames(blocks: Seq<Seq<u8>>, rest: Seq<u8>)
    requires
        forall|i: int| 0 <= i < blocks.len() ==> (#[trigger] blocks[i]).len() <= u64::MAX,
    ensures
        replay(log_of(blocks) + rest) == blocks + replay(rest),
    decreases blocks.len(),
{
    if blocks.len() == 0 {
        assert(log_of(blocks) + rest == rest);
        assert(blocks + replay(rest) == replay(rest));
    } else {
        let tail = blocks.drop_first();
        let after = log_of(tail) + rest;
        assert(log_of(blocks) + rest == frame(blocks[0]) + after);
        lemma_head_of_frame(blocks[0], crc32_of(blocks[0]), after);
        lemma_replay_after_frames(tail, rest);
        assert(blocks + replay(rest) == seq![blocks[0]] + (tail + replay(rest)));
    }
}

/// Round trip: replaying the frames of any sequence of blocks delivers that
/// sequence.
pub proof fn lemma_replay_round_trip(blocks: Seq<Seq<u8>>)
    requires
        forall|i: int| 0 <= i < blocks.len() ==> (#[trigger] blocks[i]).len() <= u64::MAX,
    ensures
        replay(log_of(blocks)) == blocks,
{
    lemma_replay_after_frames(blocks, seq![]);
    assert(log_of(blocks) + Seq::<u8>::empty() == log_of(blocks));
    assert(replay(Seq::<u8>::empty()) == Seq::<Seq<u8>>::empty());
    assert(blocks + Seq::<Seq<u8>>::empty() == blocks);
}

/// A torn frame delivers nothing: from the first `n` bytes of a frame, fewer
/// than the frame has, a replay delivers no block.
pub proof fn lemma_torn_frame(payload: Seq<u8>, crc: u32, n: int)
    requires
        payload.len() <= u64::MAX,
        0 <= n < stored_frame(payload, crc).len(),
    ensures
        replay(stored_frame(payload, crc).take(n)).len() == 0,
        good_prefix(stored_frame(payload, crc).take(n)) == 0,
{
    lemma_auto_spec_u64_to_from_le_bytes();
    lemma_head_of_frame(payload, crc, seq![]);
    let whole = stored_frame(payload, crc);
    let torn = whole.take(n);
    if n >= 12 {
        assert(spec_u64_to_le_bytes(payload.len() as u64).len() == 8);
        assert(torn.subrange(0, 8) == spec_u64_to_le_bytes(payload.len() as u64));
        assert(head(torn) is Corrupt);
    } else {
        assert(head(torn) is End);
    }
}

/// Behind whole frames the last good block is looked for in what follows
/// them: the frames themselves are all good.
pub proof fn lemma_good_prefix_after_frames(blocks: Seq<Seq<u8>>, rest: Seq<u8>)
    requires
        forall|i: int| 0 <= i < blocks.len() ==> (#[trigger] blocks[i]).len() <= u64::MAX,
    ensures
        good_prefix(log_of(blocks) + rest) == log_of(blocks).len() + good_prefix(rest),
    decreases blocks.len(),
{
    if blocks.len() == 0 {
        assert(log_of(blocks) + rest == rest);
    } else {
        let tail = blocks.drop_first();
        let after = log_of(tail) + rest;
        assert forall|i: int| 0 <= i < tail.len() implies (#[trigger] tail[i]).len() <= u64::MAX by {
            assert(tail[i] == blocks[i + 1]);
        }
        lemma_good_prefix_after_frames(tail, rest);
        lemma_head_of_frame(blocks[0], crc32_of(blocks[0]), after);
        assert(log_of(blocks) + rest == frame(blocks[0]) + after);
        assert(log_of(blocks).len() == frame(blocks[0]).len() + log_of(tail).len());
    }
}

/// Checksum skip: when the frame of block `i` is replaced by a frame whose
/// stored checksum is not that of its payload, replay delivers all other
/// blocks in order.
pub proof fn lemma_replay_skips_mutated(
    blocks: Seq<Seq<u8>>,
    i: int,
    payload: Seq<u8>,
    crc: u32,
)
    requires
        forall|k: int| 0 <= k < blocks.len() ==> (#[trigger] blocks[k]).len() <= u64::MAX,
        0 <= i < blocks.len(),
        payload.len() <= u64::MAX,
        crc32_of(payload) != crc,
    ensures
        replay(log_of(blocks.take(i)) + stored_frame(payload, crc) + log_of(blocks.skip(i + 1)))
            == blocks.remove(i),
{
    let before = blocks.take(i);
    let after = blocks.skip(i + 1);
    let tail = stored_frame(payload, crc) + log_of(after);
    assert(log_of(before) + stored_frame(payload, crc) + log_of(after) == log_of(before) + tail);
    lemma_replay_after_frames(before, tail);
    lemma_head_of_frame(payload, crc, log_of(after));
    lemma_replay_round_trip(after);
    assert(blocks.remove(i) == before + after);
}

/// The segment that holds the given frames, each with the payload and the
/// checksum that are stored in it.
pub open spec fn stored_log(frames: Seq<(Seq<u8>, u32)>) -> Seq<u8>
    decreases frames.len(),
{
    if frames.len() == 0 {
        seq![]
    } else {
        stored_frame(frames[0].0, frames[0].1) + stored_log(frames.drop_first())
    }
}

/// The payloads of the frames whose stored checksum is that of their payload,
/// in their order.
pub open spec fn intact(frames: Seq<(Seq<u8>, u32)>) -> Seq<Seq<u8>>
    decreases frames.len(),
{
    if frames.len() == 0 {
        seq![]
    } else if crc32_of(frames[0].0) == frames[0].1 {
        seq![frames[0].0] + intact(frames.drop_first())
    } else {
        intact(frames.drop_first())
    }
}

/// Replay delivers the payloads of the frames whose checksum matches, in
/// their order, and steps over all others, however many there are.
pub proof fn lemma_replay_ignores_mutated(frames: Seq<(Seq<u8>, u32)>)
    requires
        forall|i: int| 0 <= i < frames.len() ==> (#[trigger] frames[i]).0.len() <= u64::MAX,
    ensures
        replay(stored_log(frames)) == intact(frames),
        settled(stored_log(frames)),
    decreases frames.len(),
{
    if frames.len() > 0 {
        let rest = frames.drop_first();
        assert forall|i: int| 0 <= i < rest.len() implies (#[trigger] rest[i]).0.len()
            <= u64::MAX by {
            assert(rest[i] == frames[i + 1]);
        }
        lemma_head_of_frame(frames[0].0, frames[0].1, stored_log(rest));
        lemma_replay_ignores_mutated(rest);
    }
}

/// A segment of whole frames stays one when a frame is appended, and its
/// replay then ends with the appended block.
pub proof fn lemma_replay_append(log: Seq<u8>, block: Seq<u8>)
    requires
        settled(log),
        block.len() <= u64::MAX,
    ensures
        settled(log + frame(block)),
        replay(log + frame(block)) == replay(log).push(block),
    decreases log.len(),
{
    let extended = log + frame(block);
    match head(log) {
        Head::End => {
            assert(extended == frame(block) + Seq::<u8>::empty());
            lemma_head_of_frame(block, crc32_of(block), seq![]);
            assert(replay(Seq::<u8>::empty()) == Seq::<Seq<u8>>::empty());
            assert(seq![block] + Seq::<Seq<u8>>::empty() == Seq::<Seq<u8>>::empty().push(block));
            assert(log == Seq::<u8>::empty());
            assert(extended.skip(12 + block.len() as int) == Seq::<u8>::empty());
            assert(settled(Seq::<u8>::empty()));
            assert(settled(extended));
        },
        Head::Corrupt => {},
        Head::Skip { size } => {
            lemma_head_extend(log, frame(block));
            lemma_replay_append(log.skip(size as int), block);
            assert(settled(extended));
        },
        Head::Block { payload } => {
            lemma_head_extend(log, frame(block));
            let rest = log.skip(12 + payload.len() as int);
            lemma_replay_append(rest, block);
            assert(seq![payload] + replay(rest).push(block) == (seq![payload] + replay(
                rest,
            )).push(block));
            assert(settled(extended));
        },
    }
}

/// Cutting a segment behind the last block that replay delivers leaves whole
/// frames only, and the same replay.
pub proof fn lemma_truncate_to_good_prefix(log: Seq<u8>)
    ensures
        good_prefix(log) <= log.len(),
        settled(log.take(good_prefix(log) as int)),
        replay(log.take(good_prefix(log) as int)) == replay(log),
        good_prefix(log) == 0 <==> replay(log).len() == 0,
    decreases log.len(),
{
    let cut = log.take(good_prefix(log) as int);
    match head(log) {
        Head::End => {},
        Head::Corrupt => {},
        Head::Skip { size } => {
            let rest = log.skip(size as int);
            lemma_truncate_to_good_prefix(rest);
            let r = good_prefix(rest);
            if r > 0 {
                assert(cut.subrange(0, 8) == log.subrange(0, 8));
                assert(cut.subrange(8, 12) == log.subrange(8, 12));
                assert(cut.subrange(12, size as int) == log.subrange(12, size as int));
                assert(cut.skip(size as int) == rest.take(r as int));
            } else {
                assert(rest.take(0) == Seq::<u8>::empty());
            }
        },
        Head::Block { payload } => {
            let size = 12 + payload.len();
            let rest = log.skip(size as int);
            lemma_truncate_to_good_prefix(rest);
            let r = good_prefix(rest);
            assert(cut.subrange(0, 8) == log.subrange(0, 8));
            assert(cut.subrange(8, 12) == log.subrange(8, 12));
            assert(cut.subrange(12, size as int) == log.subrange(12, size as int));
            assert(cut.skip(size as int) == rest.take(r as int));
        },
    }
}

/// A reader that goes from block to block ends behind the last good block:
/// the first block's end plus the good prefix of what follows it.
pub proof fn lemma_good_prefix_steps(log: Seq<u8>)
    ensures
        first_end(log) <= log.len(),
        first_end(log) > 0 <==> replay(log).len() > 0,
        replay(log).len() > 0 ==> {
            &&& replay(log.skip(first_end(log) as int)) == replay(log).drop_first()
            &&& good_prefix(log) == first_end(log) + good_prefix(log.skip(first_end(log) as int))
        },
        replay(log).len() == 0 ==> good_prefix(log) == 0,
    decreases log.len(),
{
    match head(log) {
        Head::End => {},
        Head::Corrupt => {},
        Head::Skip { size } => {
            let rest = log.skip(size as int);
            lemma_good_prefix_steps(rest);
            lemma_truncate_to_good_prefix(rest);
            if first_end(rest) > 0 {
                assert(log.skip((size + first_end(rest)) as int) == rest.skip(first_end(rest) as int));
            }
        },
        Head::Block { payload } => {
            let rest = log.skip(12 + payload.len() as int);
            assert(replay(log).drop_first() == replay(rest));
        },
    }
}

} // verus!
