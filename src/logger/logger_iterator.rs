use vstd::prelude::*;
use crate::file_manager::block::BlockId;
use crate::file_manager::page::{bytes_at, u64_at, u64_from_be, Page};
use crate::logger::{
    block_records, boundary_of, records_from, start_of_records, valid_log_block, LogError,
};

verus! {

/// What the iterator does next.
#[derive(Debug)]
pub enum LogStep {
    /// The next record, newest first.
    Record(Vec<u8>),
    /// The current block is used up: read this block, the one before it, and
    /// hand its bytes to `move_to_block`.
    Load(BlockId),
    /// No records are left.
    End,
}

/// Walks a log newest first: through the records of one block from its
/// boundary up, then on to the block numbered one less, down to block 0.
pub struct LogIterator {
    block: BlockId,
    page: Page,
    current_pos: u64,
    boundary: u64,
    block_size: u64,
    done: bool,
}

impl LogIterator {
    pub closed spec fn block(&self) -> (Seq<char>, u64) {
        self.block@
    }

    pub closed spec fn page(&self) -> Seq<u8> {
        self.page@
    }

    /// Offset of the next record in the current block.
    pub closed spec fn pos(&self) -> int {
        self.current_pos as int
    }

    pub closed spec fn block_size(&self) -> nat {
        self.block_size as nat
    }

    /// Whether iteration was cut short by a block that could not be read.
    pub closed spec fn done(&self) -> bool {
        self.done
    }

    /// The boundary kept beside the page is the one stored in it.
    pub closed spec fn boundary_cached(&self) -> bool {
        self.boundary as int == boundary_of(self.page@)
    }

    pub open spec fn wf(&self) -> bool {
        &&& self.page().len() == self.block_size()
        &&& 8 <= self.pos() <= self.block_size()
        &&& self.boundary_cached()
    }

    /// The records of the current block not yet produced, newest first.
    pub open spec fn remaining(&self) -> Seq<Seq<u8>> {
        if self.done() {
            Seq::empty()
        } else {
            records_from(self.page(), self.pos())
        }
    }

    /// An iterator that starts on `block`, whose bytes are `page`.
    pub fn new(block: BlockId, page: Page) -> (r: Result<LogIterator, LogError>)
        ensures
            page@.len() < 8 ==> r == Err::<LogIterator, LogError>(LogError::BlockTooSmall),
            page@.len() >= 8 ==> (r is Ok <==> valid_log_block(page@)),
            page@.len() >= 8 && !valid_log_block(page@) ==> r == Err::<LogIterator, LogError>(
                LogError::CorruptBlock,
            ),
            r matches Ok(it) ==> {
                &&& it.wf()
                &&& it.block() == block@
                &&& it.page() == page@
                &&& it.block_size() == page@.len()
                &&& !it.done()
                &&& it.pos() == start_of_records(page@)
                &&& it.remaining() == block_records(page@)
            },
    {
        let size = page.size();
        if size < 8 {
            return Err(LogError::BlockTooSmall);
        }
        let boundary = match page.get_u64(0) {
            Ok(v) => v,
            Err(_) => {
                return Err(LogError::CorruptBlock);
            },
        };
        proof {
            assert(u64_at(page@, 0) == Some(u64_from_be(page@.subrange(0, 8))));
        }
        if boundary > size as u64 {
            return Err(LogError::CorruptBlock);
        }
        let start = if boundary < 8 {
            size as u64
        } else {
            boundary
        };
        Ok(
            LogIterator {
                block,
                page,
                current_pos: start,
                boundary,
                block_size: size as u64,
                done: false,
            },
        )
    }

    /// Whether records may remain: in this block, or in an older one.
    pub fn has_next(&self) -> (r: bool)
        requires
            self.wf(),
        ensures
            r == (!self.done() && (self.pos() < self.block_size() || self.block().1 > 0)),
    {
        !self.done && (self.current_pos < self.block_size || self.block.get_block_number() > 0)
    }

    /// Produces the next record of the current block, asks for the block
    /// before it once this one is used up, or ends. A record that cannot be
    /// decoded ends the iteration.
    pub fn step(&mut self) -> (r: LogStep)
        requires
            old(self).wf(),
        ensures
            final(self).wf(),
            final(self).block() == old(self).block(),
            final(self).page() == old(self).page(),
            final(self).block_size() == old(self).block_size(),
            r is Record <==> old(self).remaining().len() > 0,
            r matches LogStep::Record(v) ==> {
                &&& v@ == old(self).remaining()[0]
                &&& final(self).remaining() == old(self).remaining().drop_first()
            },
            r is Load <==> (!old(self).done() && old(self).pos() == old(self).block_size()
                && old(self).block().1 > 0),
            r matches LogStep::Load(b) ==> {
                &&& b@ == (old(self).block().0, (old(self).block().1 - 1) as u64)
                &&& *final(self) == *old(self)
            },
            r is End ==> final(self).remaining().len() == 0 && !final(self).has_next_spec(),
    {
        if self.done {
            return LogStep::End;
        }
        if self.current_pos >= self.block_size {
            let n = self.block.get_block_number();
            if n > 0 {
                return LogStep::Load(BlockId::new(self.block.get_filename(), n - 1));
            }
            self.done = true;
            return LogStep::End;
        }
        let ghost old_pos = self.current_pos as int;
        let size = self.page.size();
        assert(self.current_pos < size);
        match self.page.get_bytes(self.current_pos as usize) {
            Ok(rec) => {
                let len = rec.len();
                let v = vstd::slice::slice_to_vec(rec);
                proof {
                    assert(bytes_at(self.page@, old_pos) == Some(rec@));
                }
                self.current_pos = self.current_pos + 8 + len as u64;
                LogStep::Record(v)
            },
            Err(_) => {
                self.done = true;
                LogStep::End
            },
        }
    }

    /// Whether `has_next` holds.
    pub open spec fn has_next_spec(&self) -> bool {
        !self.done() && (self.pos() < self.block_size() || self.block().1 > 0)
    }

    /// Moves to `block`, the one that `step` asked for, whose bytes are
    /// `page`, and starts on its newest record. A block of another size, or
    /// with a boundary past its end, ends the iteration. A block whose boundary
    /// lies below its header holds no records.
    pub fn move_to_block(&mut self, block: BlockId, page: Page) -> (r: Result<(), LogError>)
        requires
            old(self).wf(),
            !old(self).done(),
        ensures
            final(self).wf(),
            r is Ok <==> (page@.len() == old(self).block_size() && valid_log_block(page@)),
            r is Err ==> r == Err::<(), LogError>(LogError::CorruptBlock) && final(self).done()
                && final(self).block() == old(self).block(),
            r is Ok ==> {
                &&& final(self).block() == block@
                &&& final(self).page() == page@
                &&& final(self).block_size() == old(self).block_size()
                &&& !final(self).done()
                &&& final(self).pos() == start_of_records(page@)
                &&& final(self).remaining() == block_records(page@)
            },
    {
        if page.size() as u64 != self.block_size {
            self.done = true;
            return Err(LogError::CorruptBlock);
        }
        let boundary = match page.get_u64(0) {
            Ok(v) => v,
            Err(_) => {
                self.done = true;
                return Err(LogError::CorruptBlock);
            },
        };
        proof {
            assert(u64_at(page@, 0) == Some(u64_from_be(page@.subrange(0, 8))));
        }
        if boundary > self.block_size {
            self.done = true;
            return Err(LogError::CorruptBlock);
        }
        self.block = block;
        self.page = page;
        self.boundary = boundary;
        self.current_pos = if boundary < 8 {
            self.block_size
        } else {
            boundary
        };
        Ok(())
    }
}

} // verus!
