use vstd::prelude::*;
use crate::error::Error;
use crate::util::{be16, read_u16_be, read_u8, ByteReader};

verus! {

/// A structural boundary in a JPEG stream.
#[derive(Debug, Clone, Copy, PartialEq, Eq)]
pub enum Marker {
    StartOfImage,
    /// Application segment number and declared length.
    ApplicationSegment(u8, u16),
    Comment(u16),
    DefineQuantizationTable(u16),
    /// Encoding-process number and declared length.
    StartOfFrame(u8, u16),
    DefineHuffmanTable(u16),
    StartOfScan(u16),
    EndOfImage,
}

/// Where the scanner finds the next marker code in `d`, starting at `pos`.
/// `after_ff` says whether the byte before `pos` was a 0xFF prefix (or fill) byte.
/// A 0xFF prefix followed by 0x00 is a stuffed byte, not a marker: the search
/// goes on after it.
pub open spec fn code_index(d: Seq<u8>, pos: int, after_ff: bool) -> Option<int>
    decreases d.len() - pos,
{
    if pos < 0 || pos >= d.len() {
        None
    } else if d[pos] == 0xff {
        code_index(d, pos + 1, true)
    } else if !after_ff || d[pos] == 0 {
        code_index(d, pos + 1, false)
    } else {
        Some(pos)
    }
}

/// Marker codes that the scanner recognizes.
pub open spec fn is_known_code(c: u8) -> bool {
    c == 0xd8 || c == 0xd9 || (0xe0 <= c && c <= 0xe9) || c == 0xfe || c == 0xdb || c == 0xc0
        || c == 0xc4 || c == 0xda
}

/// Recognized codes that are followed by a two-byte segment length.
pub open spec fn carries_length(c: u8) -> bool {
    is_known_code(c) && c != 0xd8 && c != 0xd9
}

/// The marker for a recognized code and the segment length read after it.
pub open spec fn marker_of(c: u8, len: u16) -> Marker {
    if c == 0xd8 {
        Marker::StartOfImage
    } else if c == 0xd9 {
        Marker::EndOfImage
    } else if 0xe0 <= c && c <= 0xe9 {
        Marker::ApplicationSegment((c - 0xe0) as u8, len)
    } else if c == 0xfe {
        Marker::Comment(len)
    } else if c == 0xdb {
        Marker::DefineQuantizationTable(len)
    } else if c == 0xc0 {
        Marker::StartOfFrame(0, len)
    } else if c == 0xc4 {
        Marker::DefineHuffmanTable(len)
    } else {
        Marker::StartOfScan(len)
    }
}

/// What reading the next marker from position `pos` of `d` gives, and where it leaves the
/// reader (the position is meaningful on success and on an unsupported code).
pub open spec fn next_marker(d: Seq<u8>, pos: int) -> (Result<Marker, Error>, int) {
    match code_index(d, pos, false) {
        None => (Err(Error::Io), pos),
        Some(i) => {
            let c = d[i];
            if !is_known_code(c) {
                (Err(Error::Unsupported("Unsupported marker")), i + 1)
            } else if !carries_length(c) {
                (Ok(marker_of(c, 0)), i + 1)
            } else if i + 3 <= d.len() {
                (Ok(marker_of(c, be16(d[i + 1], d[i + 2]) as u16)), i + 3)
            } else {
                (Err(Error::Io), pos)
            }
        },
    }
}

impl Marker {
    /// Skips to the next marker and reads it, with its segment length where it has one.
    pub fn from_reader(reader: &mut ByteReader) -> (r: Result<Self, Error>)
        ensures
            final(reader).bytes() == old(reader).bytes(),
            r is Ok <==> next_marker(old(reader).bytes(), old(reader).pos() as int).0 is Ok,
            r is Ok ==> old(reader).pos() < final(reader).pos() <= final(reader).bytes().len(),
            r is Ok ==> r == next_marker(old(reader).bytes(), old(reader).pos() as int).0
                && final(reader).pos() == next_marker(old(reader).bytes(), old(reader).pos() as int).1,
            next_marker(old(reader).bytes(), old(reader).pos() as int).0 matches Err(Error::Io)
                ==> r matches Err(Error::Io),
            next_marker(old(reader).bytes(), old(reader).pos() as int).0 matches Err(
                Error::Unsupported(_),
            ) ==> r matches Err(Error::Unsupported(_)) && final(reader).pos() == next_marker(
                old(reader).bytes(),
                old(reader).pos() as int,
            ).1,
    {
        let ghost d = reader.bytes();
        let ghost start = reader.pos() as int;
        loop
            invariant
                reader.bytes() == d,
                d == old(reader).bytes(),
                start == old(reader).pos(),
                start <= reader.pos() <= d.len() || reader.pos() == start,
                code_index(d, start, false) == code_index(d, reader.pos() as int, false),
            decreases d.len() - reader.pos(),
        {
            let ghost round_start = reader.pos();
            // Extraneous bytes before a marker are tolerated.
            loop
                invariant_except_break
                    code_index(d, start, false) == code_index(d, reader.pos() as int, false),
                invariant
                    round_start <= reader.pos(),
                    reader.bytes() == d,
                    d == old(reader).bytes(),
                    start == old(reader).pos(),
                    start <= reader.pos() <= d.len() || reader.pos() == start,
                ensures
                    round_start < reader.pos(),
                    start < reader.pos() <= d.len(),
                    code_index(d, start, false) == code_index(d, reader.pos() as int, true),
                decreases d.len() - reader.pos(),
            {
                match read_u8(reader) {
                    Ok(b) => {
                        if b == 0xff {
                            assert(code_index(d, reader.pos() - 1, false) == code_index(
                                d,
                                reader.pos() as int,
                                true,
                            ));
                            break;
                        }
                    },
                    Err(e) => {
                        return Err(e);
                    },
                }
            }
            // Any number of 0xFF fill bytes may come before the code.
            let mut byte = match read_u8(reader) {
                Ok(b) => b,
                Err(e) => {
                    assert(code_index(d, reader.pos() as int, true) == None::<int>);
                    return Err(e);
                },
            };
            while byte == 0xff
                invariant
                    reader.bytes() == d,
                    d == old(reader).bytes(),
                    start == old(reader).pos(),
                    start < reader.pos() <= d.len(),
                    round_start < reader.pos(),
                    byte == d[reader.pos() - 1],
                    code_index(d, start, false) == code_index(d, reader.pos() - 1, true),
                decreases d.len() - reader.pos(),
            {
                byte = match read_u8(reader) {
                    Ok(b) => b,
                    Err(e) => {
                        assert(code_index(d, reader.pos() as int, true) == None::<int>);
                        return Err(e);
                    },
                };
            }
            assert(code_index(d, reader.pos() - 1, true) == if byte == 0 {
                code_index(d, reader.pos() as int, false)
            } else {
                Some(reader.pos() - 1)
            });
            if byte != 0x00 {
                return match byte {
                    0xd8 => Ok(Self::StartOfImage),
                    0xe0..=0xe9 => match read_u16_be(reader) {
                        Ok(len) => Ok(Self::ApplicationSegment(byte - 0xe0, len)),
                        Err(e) => Err(e),
                    },
                    0xfe => match read_u16_be(reader) {
                        Ok(len) => Ok(Self::Comment(len)),
                        Err(e) => Err(e),
                    },
                    0xdb => match read_u16_be(reader) {
                        Ok(len) => Ok(Self::DefineQuantizationTable(len)),
                        Err(e) => Err(e),
                    },
                    0xc0 => match read_u16_be(reader) {
                        Ok(len) => Ok(Self::StartOfFrame(0, len)),
                        Err(e) => Err(e),
                    },
                    0xc4 => match read_u16_be(reader) {
                        Ok(len) => Ok(Self::DefineHuffmanTable(len)),
                        Err(e) => Err(e),
                    },
                    0xda => match read_u16_be(reader) {
                        Ok(len) => Ok(Self::StartOfScan(len)),
                        Err(e) => Err(e),
                    },
                    0xd9 => Ok(Self::EndOfImage),
                    _ => Err(Error::Unsupported("Unsupported marker")),
                };
            }
        }
    }
}

} // verus!
