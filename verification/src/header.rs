//! The twelve bytes at the start of an archive: a magic number, the number
//! of lumps, and where the directory begins.

use vstd::prelude::*;

use crate::directory::append_bytes;
use crate::directory::append_i32;
use crate::error::ErrorView;
use crate::error::IoCause;
use crate::error::WadError;
use crate::le::le_bytes_i32;
use crate::le::le_signed;
use crate::le::lemma_le_unsigned_bound;
use crate::le::lemma_pow256_values;
use crate::wad_de::advanced;
use crate::wad_de::WadDeserializer;

verus! {

/// The letters `IWAD`, as bytes.
pub open spec fn iwad() -> Seq<u8> {
    seq![0x49u8, 0x57u8, 0x41u8, 0x44u8]
}

/// The letters `PWAD`, as bytes.
pub open spec fn pwad() -> Seq<u8> {
    seq![0x50u8, 0x57u8, 0x41u8, 0x44u8]
}

/// That four bytes are one of the two magic numbers.
pub open spec fn is_magic(bytes: Seq<u8>) -> bool {
    bytes == iwad() || bytes == pwad()
}

/// What the header of an archive says.
#[derive(Clone, Copy, Debug)]
pub struct WadHeader {
    /// The number of lumps in the archive.
    pub num_lumps: i32,
    /// Where the directory begins, in bytes from the start.
    pub directory_offset: i32,
}

/// The header that the first twelve bytes of `source` hold, or why they
/// hold none.
pub open spec fn header_of(source: Seq<u8>) -> Result<WadHeader, ErrorView> {
    if source.len() < 4 {
        Err(ErrorView::CouldntReadHeader(IoCause::UnexpectedEof))
    } else if !is_magic(source.take(4)) {
        Err(ErrorView::InvalidMagicNumber(source.take(4)))
    } else if source.len() < 12 {
        Err(ErrorView::CouldntReadHeader(IoCause::UnexpectedEof))
    } else {
        Ok(
            WadHeader {
                num_lumps: le_signed(source.subrange(4, 8)) as i32,
                directory_offset: le_signed(source.subrange(8, 12)) as i32,
            },
        )
    }
}

/// The twelve bytes that a header is written as. The magic number is
/// always `PWAD`.
pub open spec fn header_bytes(h: WadHeader) -> Seq<u8> {
    pwad() + le_bytes_i32(h.num_lumps) + le_bytes_i32(h.directory_offset)
}

/// That `m` is `IWAD` or `PWAD`.
fn is_known_magic(m: &[u8; 4]) -> (r: bool)
    ensures
        r == is_magic(m@),
{
    let r = (m[0] == 0x49 || m[0] == 0x50) && m[1] == 0x57 && m[2] == 0x41 && m[3] == 0x44;
    proof {
        if r {
            assert(m@ =~= iwad() || m@ =~= pwad());
        } else {
            assert(iwad()[0] == 0x49 && iwad()[1] == 0x57 && iwad()[2] == 0x41 && iwad()[3]
                == 0x44);
            assert(pwad()[0] == 0x50 && pwad()[1] == 0x57 && pwad()[2] == 0x41 && pwad()[3]
                == 0x44);
        }
    }
    r
}

impl WadHeader {
    /// Reads a header: four bytes that must be a magic number, then the
    /// number of lumps and the place of the directory.
    pub fn new(de: &mut WadDeserializer<'_>) -> (r: Result<Self, WadError>)
        ensures
            match r {
                Ok(h) => header_of(old(de)@) == Ok::<WadHeader, ErrorView>(h) && advanced(
                    old(de)@,
                    final(de)@,
                    12,
                ),
                Err(e) => header_of(old(de)@) == Err::<WadHeader, ErrorView>(e@) && (if e is InvalidMagicNumber {
                    advanced(old(de)@, final(de)@, 4)
                } else {
                    final(de)@.len() == 0
                }),
            },
    {
        let ghost start = de@;
        let identification = match de.read_array::<4>() {
            Ok(m) => m,
            Err(_) => {
                return Err(WadError::CouldntReadHeader(IoCause::UnexpectedEof));
            },
        };
        if !is_known_magic(&identification) {
            return Err(WadError::InvalidMagicNumber(identification));
        }
        let num_lumps = match de.read_i32() {
            Ok(v) => v,
            Err(_) => {
                return Err(WadError::CouldntReadHeader(IoCause::UnexpectedEof));
            },
        };
        let directory_offset = match de.read_i32() {
            Ok(v) => v,
            Err(_) => {
                return Err(WadError::CouldntReadHeader(IoCause::UnexpectedEof));
            },
        };
        proof {
            assert(start.skip(4).take(4) =~= start.subrange(4, 8));
            assert(start.skip(4).skip(4).take(4) =~= start.subrange(8, 12));
            assert(start.skip(4).skip(4).skip(4) =~= start.skip(12));
            lemma_le_unsigned_bound(start.subrange(4, 8));
            lemma_le_unsigned_bound(start.subrange(8, 12));
            lemma_pow256_values();
        }
        Ok(WadHeader { num_lumps, directory_offset })
    }

    /// Writes the header behind `out`, under the magic number `PWAD`.
    pub fn write(&self, out: &mut Vec<u8>)
        ensures
            final(out)@ == old(out)@ + header_bytes(*self),
    {
        let magic: [u8; 4] = [0x50, 0x57, 0x41, 0x44];
        assert(magic@ =~= pwad());
        append_bytes(out, magic.as_slice());
        append_i32(out, self.num_lumps);
        append_i32(out, self.directory_offset);
        assert(out@ =~= old(out)@ + header_bytes(*self));
    }
}

} // verus!
