use vstd::prelude::*;
use vstd::utf8::{decode_utf8, encode_utf8, encode_utf8_decode_utf8, valid_utf8};

verus! {

/// Why a codec operation on a page failed.
#[derive(Debug, Clone, Copy, PartialEq, Eq, Structural)]
pub enum PageError {
    /// The encoded value does not fit between the offset and the end of the buffer.
    OutOfBounds,
    /// A string payload is not valid UTF-8.
    InvalidUtf8,
}

/// Number of bytes of an encoded `u64`, and of a byte string's length prefix.
pub const U64_BYTES: usize = 8;

/// Big-endian encoding of `v`.
pub open spec fn u64_be_bytes(v: u64) -> Seq<u8> {
    seq![
        (v >> 56u64) as u8,
        (v >> 48u64) as u8,
        (v >> 40u64) as u8,
        (v >> 32u64) as u8,
        (v >> 24u64) as u8,
        (v >> 16u64) as u8,
        (v >> 8u64) as u8,
        v as u8,
    ]
}

/// The `u64` whose big-endian encoding is the first eight bytes of `b`.
pub open spec fn u64_from_be(b: Seq<u8>) -> u64
    recommends
        b.len() >= 8,
{
    ((b[0] as u64) << 56u64) | ((b[1] as u64) << 48u64) | ((b[2] as u64) << 40u64) | ((
    b[3] as u64) << 32u64) | ((b[4] as u64) << 24u64) | ((b[5] as u64) << 16u64) | ((
    b[6] as u64) << 8u64) | (b[7] as u64)
}

/// A byte string as stored: its length, big-endian, then its bytes.
pub open spec fn encode_bytes(b: Seq<u8>) -> Seq<u8> {
    u64_be_bytes(b.len() as u64) + b
}

/// `buf` with the bytes from `offset` on replaced by `data`.
pub open spec fn overwrite(buf: Seq<u8>, offset: int, data: Seq<u8>) -> Seq<u8> {
    buf.subrange(0, offset) + data + buf.subrange(offset + data.len(), buf.len() as int)
}

/// Whether `n` bytes fit in `buf` from `offset` on.
pub open spec fn fits(buf: Seq<u8>, offset: int, n: nat) -> bool {
    0 <= offset && offset + n <= buf.len()
}

/// The `u64` stored at `offset`, when its eight bytes lie inside `buf`.
pub open spec fn u64_at(buf: Seq<u8>, offset: int) -> Option<u64> {
    if fits(buf, offset, 8) {
        Some(u64_from_be(buf.subrange(offset, offset + 8)))
    } else {
        None
    }
}

/// The byte string stored at `offset`, when its prefix and payload lie inside `buf`.
pub open spec fn bytes_at(buf: Seq<u8>, offset: int) -> Option<Seq<u8>> {
    match u64_at(buf, offset) {
        Some(n) => if fits(buf, offset + 8, n as nat) {
            Some(buf.subrange(offset + 8, offset + 8 + n))
        } else {
            None
        },
        None => None,
    }
}

/// Decoding the big-endian encoding of a `u64` gives it back.
pub proof fn lemma_u64_be_round_trip(v: u64)
    ensures
        u64_from_be(u64_be_bytes(v)) == v,
{
    assert(((((v >> 56u64) as u8) as u64) << 56u64) | ((((v >> 48u64) as u8) as u64) << 48u64)
        | ((((v >> 40u64) as u8) as u64) << 40u64) | ((((v >> 32u64) as u8) as u64) << 32u64)
        | ((((v >> 24u64) as u8) as u64) << 24u64) | ((((v >> 16u64) as u8) as u64) << 16u64)
        | ((((v >> 8u64) as u8) as u64) << 8u64) | ((v as u8) as u64) == v) by (bit_vector);
}

/// Writing a `u64` at an offset in bounds and reading it back gives the same value.
pub proof fn lemma_u64_round_trip(buf: Seq<u8>, offset: int, v: u64)
    requires
        fits(buf, offset, 8),
    ensures
        u64_at(overwrite(buf, offset, u64_be_bytes(v)), offset) == Some(v),
        overwrite(buf, offset, u64_be_bytes(v)).len() == buf.len(),
{
    let nb = overwrite(buf, offset, u64_be_bytes(v));
    assert(nb.subrange(offset, offset + 8) =~= u64_be_bytes(v));
    lemma_u64_be_round_trip(v);
}

/// Writing a byte string at an offset where it fits and reading it back gives
/// the same bytes.
pub proof fn lemma_bytes_round_trip(buf: Seq<u8>, offset: int, b: Seq<u8>)
    requires
        fits(buf, offset, 8 + b.len()),
        b.len() <= u64::MAX,
    ensures
        bytes_at(overwrite(buf, offset, encode_bytes(b)), offset) == Some(b),
        overwrite(buf, offset, encode_bytes(b)).len() == buf.len(),
{
    let nb = overwrite(buf, offset, encode_bytes(b));
    assert(nb.subrange(offset, offset + 8) =~= u64_be_bytes(b.len() as u64));
    assert(nb.subrange(offset + 8, offset + 8 + b.len()) =~= b);
    lemma_u64_be_round_trip(b.len() as u64);
}

/// Writing a string at an offset where its encoding fits and reading it back
/// gives the same characters.
pub proof fn lemma_string_round_trip(buf: Seq<u8>, offset: int, s: Seq<char>)
    requires
        fits(buf, offset, 8 + encode_utf8(s).len()),
        encode_utf8(s).len() <= u64::MAX,
    ensures
        bytes_at(overwrite(buf, offset, encode_bytes(encode_utf8(s))), offset) == Some(
            encode_utf8(s),
        ),
        valid_utf8(encode_utf8(s)),
        decode_utf8(encode_utf8(s)) == s,
{
    lemma_bytes_round_trip(buf, offset, encode_utf8(s));
    encode_utf8_decode_utf8(s);
    vstd::utf8::encode_utf8_valid_utf8(s);
}

/// Relies on `std::str::from_utf8`: it accepts exactly the valid UTF-8 byte
/// sequences and then views the same bytes as text.
#[verifier::external_body]
fn str_from_utf8(b: &[u8]) -> (r: Option<&str>)
    ensures
        r.is_some() == valid_utf8(b@),
        r matches Some(s) ==> s@ == decode_utf8(b@),
{
    std::str::from_utf8(b).ok()
}

#[verifier::external_type_specification]
#[verifier::external_body]
#[verifier::reject_recursive_types(T)]
pub struct ExMutex<T: ?Sized>(std::sync::Mutex<T>);

/// Relies on `std::sync::Mutex::new`, which wraps a value in an unlocked mutex.
pub assume_specification<T>[ std::sync::Mutex::<T>::new ](t: T) -> std::sync::Mutex<T>;

/// An owned byte buffer with a codec for big-endian `u64`s, length-prefixed
/// byte strings and UTF-8 strings.
#[derive(Debug)]
pub struct Page {
    buffer: Vec<u8>,
}

impl View for Page {
    type V = Seq<u8>;

    closed spec fn view(&self) -> Seq<u8> {
        self.buffer@
    }
}

impl Page {
    /// A page holding a copy of `bytes`.
    pub fn new_as_bytes(bytes: &[u8]) -> (r: Page)
        ensures
            r@ == bytes@,
    {
        Page { buffer: vstd::slice::slice_to_vec(bytes) }
    }

    /// A page of `size` zero bytes.
    pub fn new_as_size(size: usize) -> (r: Page)
        ensures
            r@ == Seq::new(size as nat, |i: int| 0u8),
    {
        let mut buffer: Vec<u8> = Vec::with_capacity(size);
        let mut i: usize = 0;
        while i < size
            invariant
                i <= size,
                buffer@ == Seq::new(i as nat, |j: int| 0u8),
            decreases size - i,
        {
            buffer.push(0u8);
            i = i + 1;
        }
        Page { buffer }
    }

    /// Wraps the page in a mutex, for callers that share it between threads.
    pub fn to_mutex(self) -> std::sync::Mutex<Page> {
        std::sync::Mutex::new(self)
    }

    /// Number of bytes in the page.
    pub fn size(&self) -> (r: usize)
        ensures
            r == self@.len(),
    {
        self.buffer.len()
    }

    pub fn get_u64(&self, offset: usize) -> (r: Result<u64, PageError>)
        ensures
            r == (match u64_at(self@, offset as int) {
                Some(v) => Ok(v),
                None => Err(PageError::OutOfBounds),
            }),
    {
        let len = self.buffer.len();
        if offset > len || len - offset < 8 {
            return Err(PageError::OutOfBounds);
        }
        let b = &self.buffer;
        let v = ((b[offset] as u64) << 56u64) | ((b[offset + 1] as u64) << 48u64) | ((b[offset
            + 2] as u64) << 40u64) | ((b[offset + 3] as u64) << 32u64) | ((b[offset + 4] as u64)
            << 24u64) | ((b[offset + 5] as u64) << 16u64) | ((b[offset + 6] as u64) << 8u64) | (
        b[offset + 7] as u64);
        let ghost sub = self@.subrange(offset as int, offset + 8);
        assert(sub[0] == b@[offset as int]);
        assert(sub[7] == b@[offset + 7]);
        assert(sub =~= seq![
            b@[offset as int],
            b@[offset + 1],
            b@[offset + 2],
            b@[offset + 3],
            b@[offset + 4],
            b@[offset + 5],
            b@[offset + 6],
            b@[offset + 7],
        ]);
        Ok(v)
    }

    /// Writes `data` at `offset`; the caller has checked that it fits.
    fn write_at(&mut self, offset: usize, data: &[u8])
        requires
            fits(old(self)@, offset as int, data@.len()),
        ensures
            final(self)@ == overwrite(old(self)@, offset as int, data@),
    {
        let mut i: usize = 0;
        while i < data.len()
            invariant
                i <= data@.len(),
                fits(old(self)@, offset as int, data@.len()),
                self@.len() == old(self)@.len(),
                forall|k: int| 0 <= k < offset ==> self@[k] == old(self)@[k],
                forall|k: int| offset <= k < offset + i ==> self@[k] == data@[k - offset],
                forall|k: int| offset + i <= k < self@.len() ==> self@[k] == old(self)@[k],
            decreases data@.len() - i,
        {
            let len = self.buffer.len();
            assert(offset + i < len);
            self.buffer.set(offset + i, data[i]);
            i = i + 1;
        }
        assert(self@ =~= overwrite(old(self)@, offset as int, data@));
    }

    pub fn set_u64(&mut self, offset: usize, val: u64) -> (r: Result<(), PageError>)
        ensures
            r is Ok == fits(old(self)@, offset as int, 8),
            r is Ok ==> final(self)@ == overwrite(old(self)@, offset as int, u64_be_bytes(val)),
            r == Err::<(), PageError>(PageError::OutOfBounds) || r is Ok,
            r is Err ==> final(self)@ == old(self)@,
    {
        let len = self.buffer.len();
        if offset > len || len - offset < 8 {
            return Err(PageError::OutOfBounds);
        }
        let buf: [u8; 8] = [
            (val >> 56u64) as u8,
            (val >> 48u64) as u8,
            (val >> 40u64) as u8,
            (val >> 32u64) as u8,
            (val >> 24u64) as u8,
            (val >> 16u64) as u8,
            (val >> 8u64) as u8,
            val as u8,
        ];
        assert(buf@ =~= u64_be_bytes(val));
        self.write_at(offset, buf.as_slice());
        Ok(())
    }

    /// The byte string stored at `offset`: its length prefix, then that many bytes.
    pub fn get_bytes(&self, offset: usize) -> (r: Result<&[u8], PageError>)
        ensures
            match bytes_at(self@, offset as int) {
                Some(b) => r matches Ok(s) && s@ == b,
                None => r == Err::<&[u8], PageError>(PageError::OutOfBounds),
            },
    {
        let n = self.get_u64(offset)?;
        let len = self.buffer.len();
        let room = len - offset - 8;
        if n > room as u64 {
            return Err(PageError::OutOfBounds);
        }
        let start = offset + 8;
        let end = start + n as usize;
        Ok(vstd::slice::slice_subrange(self.buffer.as_slice(), start, end))
    }

    /// Stores `bytes` at `offset` as a length prefix followed by the bytes.
    pub fn set_bytes(&mut self, offset: usize, bytes: &[u8]) -> (r: Result<(), PageError>)
        ensures
            r is Ok == fits(old(self)@, offset as int, 8 + bytes@.len()),
            r is Ok ==> final(self)@ == overwrite(old(self)@, offset as int, encode_bytes(bytes@)),
            r == Err::<(), PageError>(PageError::OutOfBounds) || r is Ok,
            r is Err ==> final(self)@ == old(self)@,
    {
        let len = self.buffer.len();
        if offset > len || len - offset < 8 || len - offset - 8 < bytes.len() {
            return Err(PageError::OutOfBounds);
        }
        let ghost before = self@;
        let _ = self.set_u64(offset, bytes.len() as u64);
        self.write_at(offset + 8, bytes);
        assert(self@ =~= overwrite(before, offset as int, encode_bytes(bytes@)));
        Ok(())
    }

    /// The UTF-8 string stored at `offset` as a byte string.
    pub fn get_string(&self, offset: usize) -> (r: Result<&str, PageError>)
        ensures
            match bytes_at(self@, offset as int) {
                Some(b) => if valid_utf8(b) {
                    r matches Ok(s) && s@ == decode_utf8(b)
                } else {
                    r == Err::<&str, PageError>(PageError::InvalidUtf8)
                },
                None => r == Err::<&str, PageError>(PageError::OutOfBounds),
            },
    {
        let bytes = self.get_bytes(offset)?;
        match str_from_utf8(bytes) {
            Some(s) => Ok(s),
            None => Err(PageError::InvalidUtf8),
        }
    }

    /// Stores the UTF-8 encoding of `string` at `offset` as a byte string.
    pub fn set_string(&mut self, offset: usize, string: &str) -> (r: Result<(), PageError>)
        ensures
            r is Ok == fits(old(self)@, offset as int, 8 + encode_utf8(string@).len()),
            r is Ok ==> final(self)@ == overwrite(
                old(self)@,
                offset as int,
                encode_bytes(encode_utf8(string@)),
            ),
            r == Err::<(), PageError>(PageError::OutOfBounds) || r is Ok,
            r is Err ==> final(self)@ == old(self)@,
    {
        self.set_bytes(offset, string.as_bytes())
    }

    /// The whole buffer, read-only.
    pub fn bytes(&self) -> (r: &[u8])
        ensures
            r@ == self@,
    {
        self.buffer.as_slice()
    }

    /// The whole buffer, for moving a block's bytes to or from storage.
    pub fn contents(&mut self) -> (r: &mut [u8])
        ensures
            r@ == old(self)@,
            final(r)@ == final(self)@,
    {
        self.buffer.as_mut_slice()
    }

    /// Bytes that `string` takes once stored: the length prefix and its UTF-8 encoding.
    pub fn max_length_for_string(string: &str) -> (r: usize)
        requires
            8 + encode_utf8(string@).len() <= usize::MAX,
        ensures
            r == 8 + encode_utf8(string@).len(),
    {
        8 + string.as_bytes().len()
    }
}

} // verus!
