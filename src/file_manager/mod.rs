pub mod block;
pub mod page;

use vstd::prelude::*;
use vstd::utf8::encode_utf8;
use crate::file_manager::block::BlockId;

verus! {

/// UTF-8 bytes of the reserved prefix `temp` that marks files deleted at startup.
pub open spec fn temp_prefix() -> Seq<u8> {
    seq![116u8, 101u8, 109u8, 112u8]
}

/// Whether a file name begins with the reserved temporary prefix.
pub open spec fn is_temp_name(name: Seq<char>) -> bool {
    let b = encode_utf8(name);
    b.len() >= 4 && b.subrange(0, 4) == temp_prefix()
}

/// Whether a file named `name` is a leftover temporary file, to be removed
/// when a storage directory is opened.
pub fn is_temp_file(name: &str) -> (r: bool)
    ensures
        r == is_temp_name(name@),
{
    let b = name.as_bytes();
    if b.len() < 4 {
        return false;
    }
    let r = b[0] == 116u8 && b[1] == 101u8 && b[2] == 109u8 && b[3] == 112u8;
    assert(r ==> b@.subrange(0, 4) =~= temp_prefix());
    r
}

/// Byte offset in its file at which a block starts, when it fits in a `u64`.
pub fn block_offset(block: &BlockId, block_size: u64) -> (r: Option<u64>)
    ensures
        r == (if block@.1 * block_size <= u64::MAX {
            Some((block@.1 * block_size) as u64)
        } else {
            None
        }),
{
    block.get_block_number().checked_mul(block_size)
}

/// Number of whole blocks in a file of `file_len` bytes.
pub fn block_count(file_len: u64, block_size: u64) -> (r: u64)
    requires
        block_size > 0,
    ensures
        r == file_len / block_size,
{
    file_len / block_size
}

/// The block that appending to a file of `file_len` bytes allocates: the
/// first one past its whole blocks.
pub fn next_block(filename: &str, file_len: u64, block_size: u64) -> (r: BlockId)
    requires
        block_size > 0,
    ensures
        r@ == (filename@, file_len / block_size),
{
    BlockId::new(filename, block_count(file_len, block_size))
}

/// Length of a file of `file_len` bytes once a block of zeros has been
/// written at the offset of `next_block`.
pub open spec fn length_after_append(file_len: nat, block_size: nat) -> nat
    recommends
        block_size > 0,
{
    let end = (file_len / block_size + 1) * block_size;
    if file_len > end {
        file_len
    } else {
        end
    }
}

/// Appending numbers blocks densely: on a file whose length is a whole number
/// of blocks, the block appended is numbered by the current count, and the
/// count afterwards is one more, again a whole number of blocks.
pub proof fn lemma_append_numbers_blocks_densely(file_len: nat, block_size: nat)
    requires
        block_size > 0,
        file_len % block_size == 0,
    ensures
        length_after_append(file_len, block_size) == file_len + block_size,
        length_after_append(file_len, block_size) % block_size == 0,
        length_after_append(file_len, block_size) / block_size == file_len / block_size + 1,
{
    let n = file_len / block_size;
    assert(file_len == n * block_size) by (nonlinear_arith)
        requires
            n == file_len / block_size,
            file_len % block_size == 0,
            block_size > 0,
    ;
    assert((n + 1) * block_size == n * block_size + block_size) by (nonlinear_arith);
    assert((n + 1) * block_size == block_size * (n + 1)) by (nonlinear_arith);
    vstd::arithmetic::div_mod::lemma_mod_multiples_basic((n + 1) as int, block_size as int);
    vstd::arithmetic::div_mod::lemma_div_multiples_vanish((n + 1) as int, block_size as int);
}

} // verus!
