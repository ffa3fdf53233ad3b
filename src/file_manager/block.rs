use vstd::prelude::*;

verus! {

/// What the standard library's default hasher yields for a block's fields.
pub uninterp spec fn block_hash(filename: Seq<char>, block_number: u64) -> u64;

/// Names a fixed-size slot of a managed file: the file's name and the slot's
/// number, counted from 0.
#[derive(Debug, Hash, Clone)]
pub struct BlockId {
    filename: String,
    block_number: u64,
}

impl View for BlockId {
    type V = (Seq<char>, u64);

    closed spec fn view(&self) -> (Seq<char>, u64) {
        (self.filename@, self.block_number)
    }
}

/// Relies on `std::hash::DefaultHasher` made by `new` (unseeded): its digest
/// depends only on what is fed to it, here the name and then the number, as a
/// derived `Hash` of the block feeds them.
#[verifier::external_body]
fn default_hash(filename: &str, block_number: u64) -> (r: u64)
    ensures
        r == block_hash(filename@, block_number),
{
    let mut s = std::hash::DefaultHasher::new();
    std::hash::Hash::hash(filename, &mut s);
    std::hash::Hash::hash(&block_number, &mut s);
    std::hash::Hasher::finish(&s)
}

impl BlockId {
    pub fn new(filename: &str, block_number: u64) -> (r: BlockId)
        ensures
            r@ == (filename@, block_number),
    {
        BlockId { filename: filename.to_owned(), block_number }
    }

    pub fn get_block_number(&self) -> (r: u64)
        ensures
            r == self@.1,
    {
        self.block_number
    }

    pub fn get_filename(&self) -> (r: &str)
        ensures
            r@ == self@.0,
    {
        self.filename.as_str()
    }

    /// Structural equality over both fields.
    pub fn equal(&self, other: &Self) -> (r: bool)
        ensures
            r == (self@ == other@),
    {
        self.filename == other.filename && self.block_number == other.block_number
    }

    pub fn get_hash_code(&self) -> (r: u64)
        ensures
            r == block_hash(self@.0, self@.1),
    {
        default_hash(self.filename.as_str(), self.block_number)
    }
}

} // verus!
