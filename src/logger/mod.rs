pub mod logger_iterator;

use vstd::prelude::*;
use crate::file_manager::block::BlockId;
use crate::file_manager::page::{
    bytes_at, encode_bytes, overwrite, u64_at, u64_be_bytes, u64_from_be, Page,
};
pub use crate::file_manager::page::U64_BYTES;
use crate::logger::logger_iterator::LogIterator;

verus! {

/// Why a log operation was refused.
#[derive(Debug, Clone, Copy, PartialEq, Eq, Structural)]
pub enum LogError {
    /// A block is too small to hold its boundary field.
    BlockTooSmall,
    /// A block's boundary field points past the block's end.
    CorruptBlock,
    /// The record would not fit even in an empty block.
    RecordTooLarge,
    /// The record does not fit in the current block: flush it, start a new
    /// block and append again.
    BlockFull,
}

/// The records of a log block stored from `pos` on, in the order they lie in
/// the block (newest first). Reading stops at the end of the block, or at
/// the first record that does not fit.
pub open spec fn records_from(buf: Seq<u8>, pos: int) -> Seq<Seq<u8>>
    decreases buf.len() - pos,
{
    if pos < 0 || pos >= buf.len() {
        Seq::empty()
    } else {
        match bytes_at(buf, pos) {
            Some(r) => seq![r] + records_from(buf, pos + 8 + r.len()),
            None => Seq::empty(),
        }
    }
}

/// The boundary stored in the first eight bytes of a log block.
pub open spec fn boundary_of(buf: Seq<u8>) -> int {
    u64_from_be(buf.subrange(0, 8)) as int
}

/// A log block whose boundary does not pass its end. A boundary below the
/// header, as in a block left all zero when an append was cut short, marks a
/// block with no room and no records.
pub open spec fn valid_log_block(buf: Seq<u8>) -> bool {
    &&& buf.len() >= 8
    &&& boundary_of(buf) <= buf.len()
}

/// Where the records of a log block begin: at its boundary, or at its end
/// (none) when the boundary lies below the header.
pub open spec fn start_of_records(buf: Seq<u8>) -> int {
    if boundary_of(buf) < 8 {
        buf.len() as int
    } else {
        boundary_of(buf)
    }
}

/// The records of a log block, newest first.
pub open spec fn block_records(buf: Seq<u8>) -> Seq<Seq<u8>> {
    records_from(buf, start_of_records(buf))
}

/// A log block after `record` is placed just below its boundary and the
/// boundary is moved down to it.
pub open spec fn place_record(buf: Seq<u8>, record: Seq<u8>) -> Seq<u8> {
    let pos = boundary_of(buf) - 8 - record.len();
    overwrite(overwrite(buf, pos, encode_bytes(record)), 0, u64_be_bytes(pos as u64))
}

/// Whether `record` fits below the boundary of `buf` without reaching its header.
pub open spec fn record_fits(buf: Seq<u8>, record_len: nat) -> bool {
    boundary_of(buf) >= 8 + record_len + 8
}

/// What lies in a block from `pos` on depends on those bytes alone.
pub proof fn lemma_records_from_suffix(b1: Seq<u8>, b2: Seq<u8>, pos: int)
    requires
        b1.len() == b2.len(),
        forall|k: int| pos <= k < b1.len() ==> b1[k] == b2[k],
    ensures
        records_from(b1, pos) == records_from(b2, pos),
    decreases b1.len() - pos,
{
    if pos < 0 || pos >= b1.len() {
    } else {
        if pos + 8 <= b1.len() {
            assert(b1.subrange(pos, pos + 8) =~= b2.subrange(pos, pos + 8));
        }
        match bytes_at(b1, pos) {
            Some(r) => {
                assert(b1.subrange(pos + 8, pos + 8 + r.len()) =~= b2.subrange(
                    pos + 8,
                    pos + 8 + r.len(),
                ));
                lemma_records_from_suffix(b1, b2, pos + 8 + r.len());
            },
            None => {},
        }
    }
}

/// Placing a record in a log block where it fits puts it in front of the
/// records already there: the block then yields the newest record first and
/// the older ones after it, in the order they had.
pub proof fn lemma_place_record_newest_first(buf: Seq<u8>, record: Seq<u8>)
    requires
        valid_log_block(buf),
        record_fits(buf, record.len()),
    ensures
        valid_log_block(place_record(buf, record)),
        boundary_of(place_record(buf, record)) == boundary_of(buf) - 8 - record.len(),
        place_record(buf, record).len() == buf.len(),
        block_records(place_record(buf, record)) == seq![record] + block_records(buf),
{
    let b = boundary_of(buf);
    let pos = b - 8 - record.len();
    let nb = place_record(buf, record);
    crate::file_manager::page::lemma_u64_be_round_trip(pos as u64);
    crate::file_manager::page::lemma_u64_be_round_trip(record.len() as u64);
    assert(nb.subrange(0, 8) =~= u64_be_bytes(pos as u64));
    assert(nb.subrange(pos, pos + 8) =~= u64_be_bytes(record.len() as u64));
    assert(nb.subrange(pos + 8, pos + 8 + record.len()) =~= record);
    assert(u64_at(nb, pos) == Some(record.len() as u64));
    assert(bytes_at(nb, pos) == Some(record));
    assert forall|k: int| b <= k < nb.len() implies nb[k] == buf[k] by {}
    lemma_records_from_suffix(nb, buf, b);
    assert(records_from(nb, pos) == seq![record] + records_from(nb, pos + 8 + record.len()));
}

/// Placing a record writes only the header and the bytes just below the
/// boundary, so the record lies whole between the header and the old
/// boundary, in one block.
pub proof fn lemma_place_record_in_place(buf: Seq<u8>, record: Seq<u8>)
    requires
        valid_log_block(buf),
        record_fits(buf, record.len()),
    ensures
        forall|k: int|
            8 <= k < boundary_of(buf) - 8 - record.len() || boundary_of(buf) <= k < buf.len()
                ==> #[trigger] place_record(buf, record)[k] == buf[k],
        bytes_at(place_record(buf, record), boundary_of(buf) - 8 - record.len()) == Some(record),
{
    let pos = boundary_of(buf) - 8 - record.len();
    let nb = place_record(buf, record);
    crate::file_manager::page::lemma_u64_be_round_trip(record.len() as u64);
    assert(nb.subrange(pos, pos + 8) =~= u64_be_bytes(record.len() as u64));
    assert(nb.subrange(pos + 8, pos + 8 + record.len()) =~= record);
    assert(u64_at(nb, pos) == Some(record.len() as u64));
}

/// `buf` after each of `records` is placed in it, in order.
pub open spec fn place_all(buf: Seq<u8>, records: Seq<Seq<u8>>) -> Seq<u8>
    decreases records.len(),
{
    if records.len() == 0 {
        buf
    } else {
        place_record(place_all(buf, records.drop_last()), records.last())
    }
}

/// Bytes that `records` take once stored, length prefixes included.
pub open spec fn packed_size(records: Seq<Seq<u8>>) -> int
    decreases records.len(),
{
    if records.len() == 0 {
        0
    } else {
        packed_size(records.drop_last()) + 8 + records.last().len()
    }
}

/// Records appended one after another to a log block where they all fit are
/// read back in the reverse order, newest first, ahead of what the block
/// held before.
pub proof fn lemma_appends_read_back_newest_first(buf: Seq<u8>, records: Seq<Seq<u8>>)
    requires
        valid_log_block(buf),
        boundary_of(buf) >= packed_size(records) + 8,
    ensures
        valid_log_block(place_all(buf, records)),
        place_all(buf, records).len() == buf.len(),
        boundary_of(place_all(buf, records)) == boundary_of(buf) - packed_size(records),
        block_records(place_all(buf, records)) == records.reverse() + block_records(buf),
    decreases records.len(),
{
    if records.len() == 0 {
        assert(records.reverse() =~= Seq::<Seq<u8>>::empty());
        assert(records.reverse() + block_records(buf) =~= block_records(buf));
    } else {
        let init = records.drop_last();
        let x = records.last();
        lemma_packed_size_nonneg(init);
        lemma_appends_read_back_newest_first(buf, init);
        let mid = place_all(buf, init);
        let older = block_records(buf);
        assert(packed_size(records) == packed_size(init) + 8 + x.len());
        assert(record_fits(mid, x.len()));
        lemma_place_record_newest_first(mid, x);
        assert(place_all(buf, records) == place_record(mid, x));
        assert(block_records(mid) == init.reverse() + older);
        assert(records.reverse() =~= seq![x] + init.reverse());
        assert(seq![x] + (init.reverse() + older) =~= records.reverse() + older);
    }
}

proof fn lemma_packed_size_nonneg(records: Seq<Seq<u8>>)
    ensures
        packed_size(records) >= 0,
    decreases records.len(),
{
    if records.len() > 0 {
        lemma_packed_size_nonneg(records.drop_last());
    }
}

/// A log block made empty by moving its boundary to its end, as a new tail
/// block is started.
pub open spec fn reset_block(buf: Seq<u8>) -> Seq<u8> {
    overwrite(buf, 0, u64_be_bytes(buf.len() as u64))
}

/// Every block of a log is valid and `block_size` bytes long.
pub open spec fn valid_log(blocks: Seq<Seq<u8>>, block_size: nat) -> bool {
    &&& blocks.len() > 0
    &&& forall|i: int|
        0 <= i < blocks.len() ==> #[trigger] blocks[i].len() == block_size && valid_log_block(
            blocks[i],
        )
}

/// The records of a whole log, newest first: the last block's, then those of
/// each block before it, down to block 0.
pub open spec fn log_records(blocks: Seq<Seq<u8>>) -> Seq<Seq<u8>>
    decreases blocks.len(),
{
    if blocks.len() == 0 {
        Seq::empty()
    } else {
        block_records(blocks.last()) + log_records(blocks.drop_last())
    }
}

/// A log after `record` is appended: placed in the last block where it fits,
/// else in a new block started after it.
pub open spec fn log_append(blocks: Seq<Seq<u8>>, record: Seq<u8>) -> Seq<Seq<u8>> {
    let last = blocks.last();
    if record_fits(last, record.len()) {
        blocks.update(blocks.len() - 1, place_record(last, record))
    } else {
        blocks.push(place_record(reset_block(last), record))
    }
}

/// A log after each of `records` is appended, in order.
pub open spec fn log_append_all(blocks: Seq<Seq<u8>>, records: Seq<Seq<u8>>) -> Seq<Seq<u8>>
    decreases records.len(),
{
    if records.len() == 0 {
        blocks
    } else {
        log_append(log_append_all(blocks, records.drop_last()), records.last())
    }
}

proof fn lemma_reset_block_empty(buf: Seq<u8>)
    requires
        8 <= buf.len() <= u64::MAX,
    ensures
        valid_log_block(reset_block(buf)),
        reset_block(buf).len() == buf.len(),
        boundary_of(reset_block(buf)) == buf.len(),
        block_records(reset_block(buf)) == Seq::<Seq<u8>>::empty(),
{
    assert(reset_block(buf).subrange(0, 8) =~= u64_be_bytes(buf.len() as u64));
    crate::file_manager::page::lemma_u64_be_round_trip(buf.len() as u64);
}

/// Appending one record to a log puts it in front of all the records the
/// log held, whether or not a new block had to be started for it.
pub proof fn lemma_log_append_newest_first(blocks: Seq<Seq<u8>>, block_size: nat, record: Seq<u8>)
    requires
        valid_log(blocks, block_size),
        block_size <= u64::MAX,
        8 + record.len() + 8 <= block_size,
    ensures
        valid_log(log_append(blocks, record), block_size),
        log_records(log_append(blocks, record)) == seq![record] + log_records(blocks),
{
    let n = blocks.len() - 1;
    let last = blocks.last();
    assert(blocks[n].len() == block_size && valid_log_block(blocks[n]));
    let nb = log_append(blocks, record);
    if record_fits(last, record.len()) {
        lemma_place_record_newest_first(last, record);
        assert(nb.drop_last() =~= blocks.drop_last());
        assert forall|i: int| 0 <= i < nb.len() implies #[trigger] nb[i].len() == block_size
            && valid_log_block(nb[i]) by {
            if i < n {
                assert(nb[i] == blocks[i]);
            }
        }
    } else {
        lemma_reset_block_empty(last);
        lemma_place_record_newest_first(reset_block(last), record);
        assert(nb.drop_last() =~= blocks);
        assert forall|i: int| 0 <= i < nb.len() implies #[trigger] nb[i].len() == block_size
            && valid_log_block(nb[i]) by {
            if i < blocks.len() {
                assert(nb[i] == blocks[i]);
            }
        }
        assert(seq![record] + Seq::<Seq<u8>>::empty() =~= seq![record]);
    }
    assert(log_records(nb) =~= seq![record] + log_records(blocks));
}

/// Records appended one after another to a log are read back in the reverse
/// order, newest first, ahead of what the log held, however many blocks
/// they fill.
pub proof fn lemma_log_appends_read_back_newest_first(
    blocks: Seq<Seq<u8>>,
    block_size: nat,
    records: Seq<Seq<u8>>,
)
    requires
        valid_log(blocks, block_size),
        block_size <= u64::MAX,
        forall|i: int| 0 <= i < records.len() ==> 8 + #[trigger] records[i].len() + 8 <= block_size,
    ensures
        valid_log(log_append_all(blocks, records), block_size),
        log_records(log_append_all(blocks, records)) == records.reverse() + log_records(blocks),
    decreases records.len(),
{
    if records.len() == 0 {
        assert(records.reverse() + log_records(blocks) =~= log_records(blocks));
    } else {
        let init = records.drop_last();
        let x = records.last();
        assert forall|i: int| 0 <= i < init.len() implies 8 + #[trigger] init[i].len() + 8
            <= block_size by {
            assert(init[i] == records[i]);
        }
        lemma_log_appends_read_back_newest_first(blocks, block_size, init);
        assert(8 + records[records.len() - 1].len() + 8 <= block_size);
        lemma_log_append_newest_first(log_append_all(blocks, init), block_size, x);
        assert(records.reverse() =~= seq![x] + init.reverse());
        assert(seq![x] + (init.reverse() + log_records(blocks)) =~= records.reverse()
            + log_records(blocks));
    }
}

/// A single-writer append-only log over one file, kept as its tail block in
/// memory. Records grow backward from the end of each block; the block's
/// first eight bytes hold the boundary, the lowest offset in use.
pub struct Logger {
    log_file: String,
    block_size: u64,
    log_page: Page,
    current_block: BlockId,
    latest_sequence_number: u64,
    last_saved_sequence_number: u64,
}

impl Logger {
    /// Name of the log file.
    pub closed spec fn log_file(&self) -> Seq<char> {
        self.log_file@
    }

    /// Bytes of the tail block as held in memory.
    pub closed spec fn page(&self) -> Seq<u8> {
        self.log_page@
    }

    /// The tail block's identifier.
    pub closed spec fn block(&self) -> (Seq<char>, u64) {
        self.current_block@
    }

    pub closed spec fn latest(&self) -> u64 {
        self.latest_sequence_number
    }

    pub closed spec fn saved(&self) -> u64 {
        self.last_saved_sequence_number
    }

    pub closed spec fn block_size(&self) -> nat {
        self.block_size as nat
    }

    /// The records of the tail block, newest first.
    pub open spec fn records(&self) -> Seq<Seq<u8>> {
        block_records(self.page())
    }

    pub open spec fn boundary(&self) -> int {
        boundary_of(self.page())
    }

    pub open spec fn wf(&self) -> bool {
        &&& self.page().len() == self.block_size()
        &&& valid_log_block(self.page())
        &&& self.block().0 == self.log_file()
    }

    /// A log whose file is empty, started on `block`, the block just appended
    /// to it: an empty block whose boundary is `block_size`.
    pub fn fresh(block: BlockId, block_size: u64) -> (r: Result<Logger, LogError>)
        ensures
            block_size < 8 || block_size > usize::MAX <==> r is Err,
            r is Err ==> r == Err::<Logger, LogError>(LogError::BlockTooSmall),
            r matches Ok(l) ==> {
                &&& l.wf()
                &&& l.block() == block@
                &&& l.block_size() == block_size
                &&& l.boundary() == block_size
                &&& l.records() == Seq::<Seq<u8>>::empty()
                &&& l.latest() == 0
                &&& l.saved() == 0
            },
    {
        if block_size < 8 || block_size > usize::MAX as u64 {
            return Err(LogError::BlockTooSmall);
        }
        let mut log_page = Page::new_as_size(block_size as usize);
        let _ = log_page.set_u64(0, block_size);
        proof {
            crate::file_manager::page::lemma_u64_round_trip(
                Seq::new(block_size as nat, |i: int| 0u8),
                0,
                block_size,
            );
            assert(log_page@.subrange(0, 8) =~= u64_be_bytes(block_size));
            crate::file_manager::page::lemma_u64_be_round_trip(block_size);
        }
        let log_file = block.get_filename().to_owned();
        Ok(
            Logger {
                log_file,
                block_size,
                log_page,
                current_block: block,
                latest_sequence_number: 0,
                last_saved_sequence_number: 0,
            },
        )
    }

    /// The block to resume a log from, given how many blocks its file has:
    /// the last one, or none for an empty file (start it with `fresh`).
    pub fn last_block(log_file: &str, block_count: u64) -> (r: Option<BlockId>)
        ensures
            block_count == 0 <==> r is None,
            r matches Some(b) ==> b@ == (log_file@, (block_count - 1) as u64),
    {
        if block_count == 0 {
            None
        } else {
            Some(BlockId::new(log_file, block_count - 1))
        }
    }

    /// A log resumed on `block`, the last block of its file, whose bytes are `page`.
    pub fn resume(block: BlockId, page: Page) -> (r: Result<Logger, LogError>)
        ensures
            page@.len() < 8 ==> r == Err::<Logger, LogError>(LogError::BlockTooSmall),
            page@.len() >= 8 ==> (r is Ok <==> valid_log_block(page@)),
            page@.len() >= 8 && !valid_log_block(page@) ==> r == Err::<Logger, LogError>(
                LogError::CorruptBlock,
            ),
            page@.len() >= 8 && boundary_of(page@) < 8 ==> (r matches Ok(l) && l.records()
                == Seq::<Seq<u8>>::empty() && !record_fits(l.page(), 0)),
            r matches Ok(l) ==> {
                &&& l.wf()
                &&& l.block() == block@
                &&& l.page() == page@
                &&& l.block_size() == page@.len()
                &&& l.latest() == 0
                &&& l.saved() == 0
            },
    {
        let size = page.size();
        if size < 8 {
            return Err(LogError::BlockTooSmall);
        }
        let boundary = match page.get_u64(0) {
            Ok(v) => v,
            Err(_) => {
                return Err(LogError::CorruptBlock);
            },
        };
        if boundary > size as u64 {
            return Err(LogError::CorruptBlock);
        }
        let log_file = block.get_filename().to_owned();
        Ok(
            Logger {
                log_file,
                block_size: size as u64,
                log_page: page,
                current_block: block,
                latest_sequence_number: 0,
                last_saved_sequence_number: 0,
            },
        )
    }

    /// Places `record` in the tail block, just below its boundary, and counts it.
    /// A record that does not fit is refused whole, never split: `BlockFull`
    /// asks the caller to flush, start a new block and append again.
    pub fn append(&mut self, record: &[u8]) -> (r: Result<(), LogError>)
        requires
            old(self).wf(),
            old(self).latest() < u64::MAX,
        ensures
            final(self).wf(),
            final(self).block_size() == old(self).block_size(),
            final(self).block() == old(self).block(),
            final(self).saved() == old(self).saved(),
            old(self).block_size() < 8 + record@.len() + 8 ==> r == Err::<(), LogError>(
                LogError::RecordTooLarge,
            ),
            old(self).block_size() >= 8 + record@.len() + 8 && !record_fits(
                old(self).page(),
                record@.len(),
            ) ==> r == Err::<(), LogError>(LogError::BlockFull),
            r is Ok <==> record_fits(old(self).page(), record@.len()),
            r is Err ==> *final(self) == *old(self),
            r is Ok ==> {
                &&& final(self).page() == place_record(old(self).page(), record@)
                &&& final(self).boundary() == old(self).boundary() - 8 - record@.len()
                &&& final(self).records() == seq![record@] + old(self).records()
                &&& final(self).latest() == old(self).latest() + 1
                &&& 8 <= final(self).boundary()
                &&& final(self).boundary() + 8 + record@.len() == old(self).boundary()
                &&& old(self).boundary() <= old(self).block_size()
                &&& bytes_at(final(self).page(), final(self).boundary()) == Some(record@)
                &&& forall|k: int|
                    8 <= k < final(self).boundary() || old(self).boundary() <= k
                        < old(self).block_size() ==> #[trigger] final(self).page()[k]
                        == old(self).page()[k]
            },
    {
        let ghost old_page = self.log_page@;
        let boundary = match self.log_page.get_u64(0) {
            Ok(v) => v,
            Err(_) => {
                return Err(LogError::CorruptBlock);
            },
        };
        proof {
            assert(u64_at(old_page, 0) == Some(u64_from_be(old_page.subrange(0, 8))));
        }
        let len = record.len();
        let size = self.log_page.size();
        if size < 16 || size - 16 < len {
            return Err(LogError::RecordTooLarge);
        }
        let need = 8 + len as u64;
        if boundary < need + 8 {
            return Err(LogError::BlockFull);
        }
        let pos = boundary - need;
        assert(pos < size);
        let _ = self.log_page.set_bytes(pos as usize, record);
        let _ = self.log_page.set_u64(0, pos);
        self.latest_sequence_number = self.latest_sequence_number + 1;
        proof {
            lemma_place_record_newest_first(old_page, record@);
            lemma_place_record_in_place(old_page, record@);
        }
        Ok(())
    }

    /// Starts block number `block_number` of the log file as the new, empty
    /// tail block. Its bytes still need writing to the file.
    pub fn start_block(&mut self, block_number: u64)
        requires
            old(self).wf(),
        ensures
            final(self).wf(),
            final(self).block() == (old(self).log_file(), block_number),
            final(self).boundary() == old(self).block_size(),
            final(self).records() == Seq::<Seq<u8>>::empty(),
            final(self).page() == reset_block(old(self).page()),
            final(self).block_size() == old(self).block_size(),
            final(self).log_file() == old(self).log_file(),
            final(self).latest() == old(self).latest(),
            final(self).saved() == old(self).saved(),
    {
        let ghost old_page = self.log_page@;
        let _ = self.log_page.set_u64(0, self.block_size);
        proof {
            assert(self.log_page@.subrange(0, 8) =~= u64_be_bytes(self.block_size));
            crate::file_manager::page::lemma_u64_be_round_trip(self.block_size);
        }
        self.current_block = BlockId::new(self.log_file.as_str(), block_number);
    }

    /// Whether making the log durable through sequence number `n` takes a
    /// write: only when `n` is past what was last saved.
    pub fn needs_flush(&self, n: u64) -> (r: bool)
        ensures
            r == (n > self.saved()),
    {
        n > self.last_saved_sequence_number
    }

    /// Records that the log is durable through sequence number `n`, whether or
    /// not a write was needed for it.
    pub fn mark_saved(&mut self, n: u64)
        ensures
            final(self).saved() == n,
            final(self).page() == old(self).page(),
            final(self).block() == old(self).block(),
            final(self).block_size() == old(self).block_size(),
            final(self).log_file() == old(self).log_file(),
            final(self).latest() == old(self).latest(),
    {
        self.last_saved_sequence_number = n;
    }

    pub fn get_latest_sequence_number(&self) -> (r: u64)
        ensures
            r == self.latest(),
    {
        self.latest_sequence_number
    }

    pub fn get_latest_saved_sequence_number(&self) -> (r: u64)
        ensures
            r == self.saved(),
    {
        self.last_saved_sequence_number
    }

    /// The tail block's bytes, as a flush writes them.
    pub fn log_page(&self) -> (r: &Page)
        ensures
            r@ == self.page(),
    {
        &self.log_page
    }

    /// The tail block, where a flush writes.
    pub fn current_block(&self) -> (r: &BlockId)
        ensures
            r@ == self.block(),
    {
        &self.current_block
    }

    /// An iterator over the log, newest record first, starting on the tail
    /// block as held in memory. Flush first, so that the older blocks it reads
    /// from the file are current.
    pub fn iter(&self) -> (r: Result<LogIterator, LogError>)
        requires
            self.wf(),
        ensures
            r matches Ok(it) && it.wf() && it.block() == self.block() && it.page() == self.page()
                && it.block_size() == self.block_size() && !it.done() && it.remaining()
                == self.records(),
    {
        let page = Page::new_as_bytes(self.log_page.bytes());
        LogIterator::new(BlockId::new(self.current_block.get_filename(), self.current_block.get_block_number()), page)
    }

    pub fn get_block_size(&self) -> (r: u64)
        ensures
            r == self.block_size(),
    {
        self.block_size
    }
}

} // verus!
