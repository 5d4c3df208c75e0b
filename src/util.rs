use vstd::prelude::*;
use crate::error::Error;

verus! {

/// The value of two bytes read as a big-endian 16-bit integer.
pub open spec fn be16(hi: u8, lo: u8) -> int {
    hi as int * 256 + lo as int
}

/// An in-memory byte source with a read position.
pub struct ByteReader {
    data: Vec<u8>,
    pos: usize,
}

impl ByteReader {
    #[verifier::type_invariant]
    spec fn inv(&self) -> bool {
        self.pos <= self.data@.len()
    }

    /// All bytes of the source.
    pub closed spec fn bytes(&self) -> Seq<u8> {
        self.data@
    }

    /// How many bytes have been consumed.
    pub closed spec fn pos(&self) -> nat {
        self.pos as nat
    }

    pub open spec fn remaining(&self) -> int {
        self.bytes().len() - self.pos()
    }

    /// A reader positioned at the first byte of `data`.
    pub fn new(data: Vec<u8>) -> (r: ByteReader)
        ensures
            r.bytes() == data@,
            r.pos() == 0,
    {
        ByteReader { data, pos: 0 }
    }

    /// The number of bytes consumed so far.
    pub fn position(&self) -> (r: usize)
        ensures
            r == self.pos(),
            r <= self.bytes().len(),
    {
        proof {
            use_type_invariant(self);
        }
        self.pos
    }

    /// Consumes exactly `n` bytes, or fails without moving when fewer remain.
    pub fn skip(&mut self, n: usize) -> (r: Result<(), Error>)
        ensures
            final(self).bytes() == old(self).bytes(),
            old(self).pos() + n <= old(self).bytes().len() ==> r is Ok && final(self).pos() == old(
                self,
            ).pos() + n,
            old(self).pos() + n > old(self).bytes().len() ==> r == Err::<(), Error>(Error::Io)
                && final(self).pos() == old(self).pos(),
    {
        if self.pos <= self.data.len() && n <= self.data.len() - self.pos {
            self.pos = self.pos + n;
            Ok(())
        } else {
            Err(Error::Io)
        }
    }
}

/// Reads one byte.
pub fn read_u8(reader: &mut ByteReader) -> (r: Result<u8, Error>)
    ensures
        final(reader).bytes() == old(reader).bytes(),
        old(reader).pos() < old(reader).bytes().len() ==> r == Ok::<u8, Error>(
            old(reader).bytes()[old(reader).pos() as int],
        ) && final(reader).pos() == old(reader).pos() + 1,
        old(reader).pos() >= old(reader).bytes().len() ==> r == Err::<u8, Error>(Error::Io)
            && final(reader).pos() == old(reader).pos(),
{
    if reader.pos < reader.data.len() {
        let b = reader.data[reader.pos];
        reader.pos = reader.pos + 1;
        Ok(b)
    } else {
        Err(Error::Io)
    }
}

/// Reads the next `n` bytes.
pub fn read_bytes(reader: &mut ByteReader, n: usize) -> (r: Result<Vec<u8>, Error>)
    ensures
        final(reader).bytes() == old(reader).bytes(),
        old(reader).pos() + n <= old(reader).bytes().len() ==> r is Ok && r->Ok_0@ == old(
            reader,
        ).bytes().subrange(old(reader).pos() as int, old(reader).pos() + n)
            && final(reader).pos() == old(reader).pos() + n,
        old(reader).pos() + n > old(reader).bytes().len() ==> r == Err::<Vec<u8>, Error>(Error::Io)
            && final(reader).pos() == old(reader).pos(),
{
    if reader.pos <= reader.data.len() && n <= reader.data.len() - reader.pos {
        let mut out: Vec<u8> = Vec::new();
        let mut k: usize = 0;
        let len = reader.data.len();
        while k < n
            invariant
                len == reader.data@.len(),
                reader.pos + n <= reader.data@.len(),
                k <= n,
                out@ == reader.data@.subrange(reader.pos as int, reader.pos + k),
            decreases n - k,
        {
            out.push(reader.data[reader.pos + k]);
            k = k + 1;
            assert(out@ == reader.data@.subrange(reader.pos as int, reader.pos + k));
        }
        reader.pos = reader.pos + n;
        Ok(out)
    } else {
        Err(Error::Io)
    }
}

/// Reads two bytes as a big-endian 16-bit integer.
pub fn read_u16_be(reader: &mut ByteReader) -> (r: Result<u16, Error>)
    ensures
        final(reader).bytes() == old(reader).bytes(),
        old(reader).pos() + 2 <= old(reader).bytes().len() ==> r is Ok && r->Ok_0 == be16(
            old(reader).bytes()[old(reader).pos() as int],
            old(reader).bytes()[old(reader).pos() + 1int],
        ) && final(reader).pos() == old(reader).pos() + 2,
        old(reader).pos() + 2 > old(reader).bytes().len() ==> r == Err::<u16, Error>(Error::Io)
            && final(reader).pos() == old(reader).pos(),
{
    if reader.pos < reader.data.len() && reader.data.len() - reader.pos >= 2 {
        let data: [u8; 2] = [reader.data[reader.pos], reader.data[reader.pos + 1]];
        reader.pos = reader.pos + 2;
        Ok(u8s_be_to_u16(&data))
    } else {
        Err(Error::Io)
    }
}

/// The first two bytes of `bytes` as a big-endian integer.
fn u8s_be_to_u16(bytes: &[u8]) -> (r: u16)
    requires
        bytes@.len() >= 2,
    ensures
        r == be16(bytes@[0], bytes@[1]),
{
    let msb = bytes[0] as u16;
    let lsb = bytes[1] as u16;
    assert((msb << 8u16) == msb * 256) by (bit_vector)
        requires
            msb < 256,
    ;
    (msb << 8) + lsb
}

} // verus!
