//! Lumps: the named runs of raw bytes that an archive holds.

use vstd::prelude::*;
use vstd::slice::slice_subrange;
use vstd::slice::slice_to_vec;

use crate::directory::append_bytes;
use crate::directory::DirectoryEntry;
use crate::directory::EntryView;
use crate::error::ErrorView;
use crate::error::IoCause;
use crate::error::WadError;

verus! {

/// A lump as mathematics: its name and its bytes.
pub struct LumpView {
    pub name: Seq<char>,
    pub data: Seq<u8>,
}

/// One lump: the name of its directory entry, and the bytes that the entry
/// addresses.
#[derive(Debug, Clone)]
pub struct Lump {
    pub name: String,
    pub data: Vec<u8>,
}

impl View for Lump {
    type V = LumpView;

    open spec fn view(&self) -> LumpView {
        LumpView { name: self.name@, data: self.data@ }
    }
}

/// The lump that `entry` addresses in `source`, or why there is none. A
/// lump without bytes lies anywhere; any other has to lie within `source`.
pub open spec fn lump_of(source: Seq<u8>, entry: EntryView) -> Result<LumpView, ErrorView> {
    if entry.size < 0 {
        Err(ErrorView::CouldntReadLump(IoCause::InvalidInput))
    } else if entry.size == 0 {
        Ok(LumpView { name: entry.name, data: Seq::empty() })
    } else if entry.offset < 0 || entry.offset + entry.size > source.len() {
        Err(ErrorView::CouldntReadLump(IoCause::UnexpectedEof))
    } else {
        Ok(
            LumpView {
                name: entry.name,
                data: source.subrange(entry.offset as int, entry.offset + entry.size),
            },
        )
    }
}

impl Lump {
    /// Fetches from `source` the bytes that `entry` addresses.
    pub fn new(source: &[u8], entry: &DirectoryEntry) -> (r: Result<Lump, WadError>)
        ensures
            match r {
                Ok(lump) => lump_of(source@, entry@) == Ok::<LumpView, ErrorView>(lump@),
                Err(e) => lump_of(source@, entry@) == Err::<LumpView, ErrorView>(e@),
            },
    {
        if entry.size < 0 {
            return Err(WadError::CouldntReadLump(IoCause::InvalidInput));
        }
        if entry.size == 0 {
            return Ok(Lump { name: entry.name.clone(), data: Vec::new() });
        }
        if entry.offset < 0 {
            return Err(WadError::CouldntReadLump(IoCause::UnexpectedEof));
        }
        let start = entry.offset as usize;
        let size = entry.size as usize;
        if start > source.len() || size > source.len() - start {
            return Err(WadError::CouldntReadLump(IoCause::UnexpectedEof));
        }
        let data = slice_to_vec(slice_subrange(source, start, start + size));
        Ok(Lump { name: entry.name.clone(), data })
    }

    /// Writes the bytes of the lump behind `out`.
    pub fn write(&self, out: &mut Vec<u8>)
        ensures
            final(out)@ == old(out)@ + self.data@,
    {
        append_bytes(out, self.data.as_slice());
    }
}

} // verus!
