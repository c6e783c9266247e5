//! The directory: one entry of sixteen bytes for each lump, in file order.

use std::string::FromUtf8Error;
use vstd::prelude::*;
use vstd::slice::slice_subrange;
use vstd::slice::slice_to_vec;
use vstd::utf8::decode_utf8;
use vstd::utf8::encode_utf8;
use vstd::utf8::valid_utf8;

use crate::error::IoCause;
use crate::error::WadError;
use crate::le::le_bytes_i32;
use crate::le::le_signed;
use crate::le::lemma_le_bytes_i32_signed;
use crate::wad_de::advanced;
use crate::wad_de::Decode;
use crate::wad_de::WadDeserializer;

verus! {

/// The error of `String::from_utf8`. Nothing is read from it.
#[verifier::external_type_specification]
#[verifier::external_body]
pub struct ExFromUtf8Error(FromUtf8Error);

/// `String::from_utf8` turns bytes into a string exactly when they are
/// well-formed UTF-8, and the string then holds the characters they encode.
pub assume_specification[ String::from_utf8 ](vec: Vec<u8>) -> (r: Result<String, FromUtf8Error>)
    ensures
        match r {
            Ok(s) => valid_utf8(vec@) && s@ == decode_utf8(vec@),
            Err(_) => !valid_utf8(vec@),
        },
;

/// `bytes` without the NUL bytes at its end.
pub open spec fn strip_nuls(bytes: Seq<u8>) -> Seq<u8>
    decreases bytes.len(),
{
    if bytes.len() > 0 && bytes.last() == 0 {
        strip_nuls(bytes.drop_last())
    } else {
        bytes
    }
}

/// That a name field holds a name: what is left of it without its trailing
/// NUL bytes is well-formed UTF-8.
pub open spec fn is_name_field(field: Seq<u8>) -> bool {
    valid_utf8(strip_nuls(field))
}

/// The name that a name field holds.
pub open spec fn name_of_field(field: Seq<u8>) -> Seq<char> {
    decode_utf8(strip_nuls(field))
}

/// The name in an eight-byte name field, or `InvalidLumpName` with the field.
pub fn decode_name(field: &[u8; 8]) -> (r: Result<String, WadError>)
    ensures
        match r {
            Ok(name) => is_name_field(field@) && name@ == name_of_field(field@),
            Err(e) => !is_name_field(field@) && e == WadError::InvalidLumpName(*field),
        },
{
    let mut n: usize = 8;
    assert(field@.take(8) =~= field@);
    while n > 0 && field[n - 1] == 0
        invariant
            n <= 8,
            field@.len() == 8,
            strip_nuls(field@) == strip_nuls(field@.take(n as int)),
        decreases n,
    {
        assert(field@.take(n as int).drop_last() =~= field@.take(n - 1));
        n = n - 1;
    }
    let text = slice_to_vec(slice_subrange(field.as_slice(), 0, n));
    assert(text@ =~= field@.take(n as int));
    match String::from_utf8(text) {
        Ok(name) => Ok(name),
        Err(_) => Err(WadError::InvalidLumpName(*field)),
    }
}

/// `byteorder::ByteOrder::write_i32` of `byteorder::LittleEndian`, on a
/// buffer of four bytes: it fills them with `v` in two's complement, the
/// least significant byte first.
#[verifier::external_body]
fn i32_to_le(v: i32) -> (r: [u8; 4])
    ensures
        r@ == le_bytes_i32(v),
{
    let mut buf = [0u8; 4];
    <byteorder::LittleEndian as byteorder::ByteOrder>::write_i32(&mut buf, v);
    buf
}

/// Puts the bytes of `src` behind those of `out`.
pub fn append_bytes(out: &mut Vec<u8>, src: &[u8])
    ensures
        final(out)@ == old(out)@ + src@,
{
    let mut i: usize = 0;
    while i < src.len()
        invariant
            i <= src@.len(),
            out@ == old(out)@ + src@.take(i as int),
        decreases src@.len() - i,
    {
        out.push(src[i]);
        assert(src@.take(i + 1) =~= src@.take(i as int).push(src@[i as int]));
        i = i + 1;
    }
    assert(src@.take(src@.len() as int) =~= src@);
}

/// Puts `v` behind the bytes of `out`, as four little-endian bytes.
pub fn append_i32(out: &mut Vec<u8>, v: i32)
    ensures
        final(out)@ == old(out)@ + le_bytes_i32(v),
{
    let quad = i32_to_le(v);
    append_bytes(out, quad.as_slice());
}

/// `bytes`, filled up with NUL bytes to a length of eight.
pub open spec fn pad_nuls(bytes: Seq<u8>) -> Seq<u8> {
    bytes + Seq::new((8 - bytes.len()) as nat, |i: int| 0u8)
}

/// That a name takes no more than the eight bytes of a name field.
pub open spec fn name_fits(name: Seq<char>) -> bool {
    encode_utf8(name).len() <= 8
}

/// What a directory entry says, as mathematics.
pub struct EntryView {
    pub offset: i32,
    pub size: i32,
    pub name: Seq<char>,
}

/// The entry that sixteen bytes hold: offset, size, name field.
pub open spec fn entry_of(bytes: Seq<u8>) -> EntryView {
    EntryView {
        offset: le_signed(bytes.subrange(0, 4)) as i32,
        size: le_signed(bytes.subrange(4, 8)) as i32,
        name: name_of_field(bytes.subrange(8, 16)),
    }
}

/// The sixteen bytes that an entry is written as, where its name fits.
pub open spec fn entry_bytes(e: EntryView) -> Seq<u8> {
    le_bytes_i32(e.offset) + le_bytes_i32(e.size) + pad_nuls(encode_utf8(e.name))
}

/// Where a lump lies in the archive, how long it is, and its name.
#[derive(Debug)]
pub struct DirectoryEntry {
    pub offset: i32,
    pub size: i32,
    pub name: String,
}

impl View for DirectoryEntry {
    type V = EntryView;

    open spec fn view(&self) -> EntryView {
        EntryView { offset: self.offset, size: self.size, name: self.name@ }
    }
}

impl Decode for DirectoryEntry {
    open spec fn width() -> nat {
        16
    }

    open spec fn holds_record(bytes: Seq<u8>) -> bool {
        is_name_field(bytes.subrange(8, 16))
    }

    open spec fn is_record_of(&self, bytes: Seq<u8>) -> bool {
        self@ == entry_of(bytes)
    }

    open spec fn is_fault_of(e: WadError, bytes: Seq<u8>) -> bool {
        e matches WadError::InvalidLumpName(field) && field@ == bytes.subrange(8, 16)
    }

    fn decode(de: &mut WadDeserializer<'_>) -> (r: Result<Self, WadError>) {
        let ghost start = de@;
        let offset = match de.read_i32() {
            Ok(v) => v,
            Err(e) => {
                return Err(e);
            },
        };
        let size = match de.read_i32() {
            Ok(v) => v,
            Err(e) => {
                return Err(e);
            },
        };
        let field = match de.read_array::<8>() {
            Ok(v) => v,
            Err(e) => {
                return Err(e);
            },
        };
        proof {
            let rec = start.take(16);
            assert(start.take(4) =~= rec.subrange(0, 4));
            assert(start.skip(4).take(4) =~= rec.subrange(4, 8));
            assert(start.skip(4).skip(4).take(8) =~= rec.subrange(8, 16));
            assert(start.skip(4).skip(4).skip(8) =~= start.skip(16));
            crate::le::lemma_le_unsigned_bound(rec.subrange(0, 4));
            crate::le::lemma_le_unsigned_bound(rec.subrange(4, 8));
            crate::le::lemma_pow256_values();
        }
        match decode_name(&field) {
            Ok(name) => Ok(DirectoryEntry { offset, size, name }),
            Err(e) => Err(e),
        }
    }
}

impl DirectoryEntry {
    /// Reads the next entry of a directory. Where the source ends before the
    /// entry does, the entry could not be read.
    pub fn new(de: &mut WadDeserializer<'_>) -> (r: Result<Self, WadError>)
        ensures
            match r {
                Ok(v) => advanced(old(de)@, final(de)@, 16) && Self::holds_record(
                    old(de)@.take(16),
                ) && v@ == entry_of(old(de)@.take(16)),
                Err(e) => if old(de)@.len() < 16 {
                    e == WadError::CouldntReadEntry(IoCause::UnexpectedEof) && final(de)@.len()
                        == 0
                } else {
                    advanced(old(de)@, final(de)@, 16) && !Self::holds_record(
                        old(de)@.take(16),
                    ) && Self::is_fault_of(e, old(de)@.take(16))
                },
            },
    {
        match Self::decode(de) {
            Ok(v) => Ok(v),
            Err(WadError::UnexpectedEof) => Err(WadError::CouldntReadEntry(IoCause::UnexpectedEof)),
            Err(e) => Err(e),
        }
    }

    /// Writes the entry behind `out`: offset, size, then the name in a field
    /// of eight bytes. A name that takes more than eight bytes stops the
    /// write there, with the two numbers already out.
    pub fn write(&self, out: &mut Vec<u8>) -> (r: Result<(), WadError>)
        ensures
            match r {
                Ok(_) => name_fits(self.name@) && final(out)@ == old(out)@ + entry_bytes(self@),
                Err(e) => !name_fits(self.name@) && e == WadError::CouldntWriteEntry(
                    IoCause::WriteZero,
                ) && final(out)@ == old(out)@ + le_bytes_i32(self.offset) + le_bytes_i32(
                    self.size,
                ),
            },
    {
        append_i32(out, self.offset);
        append_i32(out, self.size);
        let text = self.name.as_str().as_bytes();
        if text.len() > 8 {
            return Err(WadError::CouldntWriteEntry(IoCause::WriteZero));
        }
        let ghost before = out@;
        append_bytes(out, text);
        let mut n: usize = text.len();
        while n < 8
            invariant
                text@.len() <= n <= 8,
                out@ == before + text@ + Seq::new((n - text@.len()) as nat, |i: int| 0u8),
            decreases 8 - n,
        {
            out.push(0u8);
            assert(Seq::new((n + 1 - text@.len()) as nat, |i: int| 0u8) =~= Seq::new(
                (n - text@.len()) as nat,
                |i: int| 0u8,
            ).push(0u8));
            n = n + 1;
        }
        assert(out@ =~= old(out)@ + entry_bytes(self@));
        Ok(())
    }
}

/// The bytes that a run of entries is written as, one after the other.
pub open spec fn directory_bytes(entries: Seq<EntryView>) -> Seq<u8>
    decreases entries.len(),
{
    if entries.len() == 0 {
        Seq::empty()
    } else {
        directory_bytes(entries.drop_last()) + entry_bytes(entries.last())
    }
}

/// The place of the first entry whose name does not fit its field, or the
/// number of entries where every name fits.
pub open spec fn first_misfit(entries: Seq<EntryView>) -> int
    decreases entries.len(),
{
    if entries.len() == 0 {
        0
    } else {
        let before = first_misfit(entries.drop_last());
        if before < entries.len() - 1 || !name_fits(entries.last().name) {
            before
        } else {
            entries.len() as int
        }
    }
}

/// `first_misfit` is the least place of a name that does not fit.
pub proof fn lemma_first_misfit(entries: Seq<EntryView>)
    ensures
        0 <= first_misfit(entries) <= entries.len(),
        forall|i: int| 0 <= i < first_misfit(entries) ==> name_fits(#[trigger] entries[i].name),
        first_misfit(entries) < entries.len() ==> !name_fits(entries[first_misfit(entries)].name),
    decreases entries.len(),
{
    if entries.len() > 0 {
        lemma_first_misfit(entries.drop_last());
        assert forall|i: int| 0 <= i < first_misfit(entries) implies name_fits(
            #[trigger] entries[i].name,
        ) by {
            if i < entries.len() - 1 {
                assert(entries[i] == entries.drop_last()[i]);
            }
        }
        let before = first_misfit(entries.drop_last());
        if before < entries.len() - 1 {
            assert(entries[before] == entries.drop_last()[before]);
        }
    }
}

/// What each of `entries` says, in their order.
pub open spec fn entry_views(entries: Seq<DirectoryEntry>) -> Seq<EntryView> {
    Seq::new(entries.len(), |i: int| entries[i]@)
}

/// The entries of an archive, in file order. Its view is what they say.
#[derive(Debug)]
pub struct Directory(Vec<DirectoryEntry>);

impl View for Directory {
    type V = Seq<EntryView>;

    closed spec fn view(&self) -> Seq<EntryView> {
        entry_views(self.0@)
    }
}

/// A walk through a directory, front to back. Its view is what the entries
/// still to come say.
pub struct DirectoryIter<'a> {
    entries: &'a Vec<DirectoryEntry>,
    at: usize,
}

impl<'a> View for DirectoryIter<'a> {
    type V = Seq<EntryView>;

    closed spec fn view(&self) -> Seq<EntryView> {
        if self.at <= self.entries@.len() {
            entry_views(self.entries@).skip(self.at as int)
        } else {
            Seq::empty()
        }
    }
}

impl<'a> DirectoryIter<'a> {
    /// The next entry, or `None` once all have been handed out.
    pub fn next(&mut self) -> (r: Option<&'a DirectoryEntry>)
        ensures
            match r {
                Some(e) => old(self)@.len() > 0 && e@ == old(self)@[0] && final(self)@ == old(
                    self,
                )@.skip(1),
                None => old(self)@.len() == 0 && final(self)@ == old(self)@,
            },
    {
        if self.at < self.entries.len() {
            let e = &self.entries[self.at];
            proof {
                let all = entry_views(self.entries@);
                assert(all.skip(self.at as int).skip(1) =~= all.skip(self.at + 1));
            }
            self.at = self.at + 1;
            Some(e)
        } else {
            None
        }
    }
}

impl Directory {
    /// A directory of the given entries, in their order.
    pub fn from_entries(entries: Vec<DirectoryEntry>) -> (r: Self)
        ensures
            r@ == entry_views(entries@),
    {
        Directory(entries)
    }

    /// The number of entries.
    pub fn len(&self) -> (n: usize)
        ensures
            n == self@.len(),
    {
        self.0.len()
    }

    /// The entry at place `i`.
    pub fn get(&self, i: usize) -> (r: Option<&DirectoryEntry>)
        ensures
            match r {
                Some(e) => i < self@.len() && e@ == self@[i as int],
                None => i >= self@.len(),
            },
    {
        if i < self.0.len() {
            Some(&self.0[i])
        } else {
            None
        }
    }

    /// A walk through all entries, in file order.
    pub fn iter(&self) -> (r: DirectoryIter<'_>)
        ensures
            r@ == self@,
    {
        let r = DirectoryIter { entries: &self.0, at: 0 };
        assert(r@ =~= self@);
        r
    }

    /// Writes the entries behind `out`, in order, each as `DirectoryEntry::write`
    /// does. The first name that does not fit its field ends the write.
    pub fn write(&self, out: &mut Vec<u8>) -> (r: Result<(), WadError>)
        ensures
            match r {
                Ok(_) => first_misfit(self@) == self@.len() && final(out)@ == old(out)@
                    + directory_bytes(self@),
                Err(e) => {
                    let k = first_misfit(self@);
                    &&& k < self@.len()
                    &&& e == WadError::CouldntWriteEntry(IoCause::WriteZero)
                    &&& final(out)@ == old(out)@ + directory_bytes(self@.take(k)) + le_bytes_i32(
                        self@[k].offset,
                    ) + le_bytes_i32(self@[k].size)
                },
            },
    {
        let mut i: usize = 0;
        assert(self@.take(0) =~= Seq::<EntryView>::empty());
        while i < self.0.len()
            invariant
                i <= self.0@.len(),
                self@.len() == self.0@.len(),
                first_misfit(self@.take(i as int)) == i,
                out@ == old(out)@ + directory_bytes(self@.take(i as int)),
            decreases self.0@.len() - i,
        {
            let ghost sofar = out@;
            let entry = &self.0[i];
            proof {
                assert(self@.take(i + 1).drop_last() =~= self@.take(i as int));
                assert(self@.take(i + 1).last() == entry@);
                lemma_first_misfit_prefix(self@, i + 1);
            }
            match entry.write(out) {
                Ok(_) => {
                    assert(out@ =~= old(out)@ + directory_bytes(self@.take(i + 1)));
                },
                Err(e) => {
                    assert(out@ =~= old(out)@ + directory_bytes(self@.take(i as int))
                        + le_bytes_i32(self@[i as int].offset) + le_bytes_i32(
                        self@[i as int].size,
                    ));
                    return Err(e);
                },
            }
            i = i + 1;
        }
        assert(self@.take(i as int) =~= self@);
        Ok(())
    }
}

/// A misfit within the first `n` entries is the first misfit of them all.
pub proof fn lemma_first_misfit_prefix(entries: Seq<EntryView>, n: int)
    requires
        0 <= n <= entries.len(),
    ensures
        first_misfit(entries.take(n)) < n ==> first_misfit(entries) == first_misfit(
            entries.take(n),
        ),
        first_misfit(entries.take(n)) == n ==> first_misfit(entries) >= n,
    decreases entries.len() - n,
{
    if n < entries.len() {
        lemma_first_misfit_prefix(entries, n + 1);
        assert(entries.take(n + 1).drop_last() =~= entries.take(n));
    } else {
        assert(entries.take(n) =~= entries);
    }
}

/// That `bytes` do not end in a NUL byte.
pub open spec fn is_stripped(bytes: Seq<u8>) -> bool {
    bytes.len() == 0 || bytes.last() != 0
}

/// That a name can stand in a name field and be read back from it: it
/// fits, and it does not end in a NUL character.
pub open spec fn is_field_name(name: Seq<char>) -> bool {
    name_fits(name) && is_stripped(encode_utf8(name))
}

/// What `strip_nuls` leaves is no longer than what it took, and does not end
/// in a NUL byte.
pub proof fn lemma_strip_nuls(bytes: Seq<u8>)
    ensures
        strip_nuls(bytes).len() <= bytes.len(),
        is_stripped(strip_nuls(bytes)),
    decreases bytes.len(),
{
    if bytes.len() > 0 && bytes.last() == 0 {
        lemma_strip_nuls(bytes.drop_last());
    }
}

/// NUL bytes put behind bytes that do not end in one are stripped again.
pub proof fn lemma_strip_nuls_behind(bytes: Seq<u8>, m: nat)
    requires
        is_stripped(bytes),
    ensures
        strip_nuls(bytes + Seq::new(m, |i: int| 0u8)) == bytes,
    decreases m,
{
    let padded = bytes + Seq::new(m, |i: int| 0u8);
    if m == 0 {
        assert(padded =~= bytes);
    } else {
        assert(padded.last() == 0);
        assert(padded.drop_last() =~= bytes + Seq::new((m - 1) as nat, |i: int| 0u8));
        lemma_strip_nuls_behind(bytes, (m - 1) as nat);
    }
}

/// The name that a name field holds can stand in a name field again.
pub proof fn lemma_name_of_field(field: Seq<u8>)
    requires
        field.len() == 8,
        is_name_field(field),
    ensures
        is_field_name(name_of_field(field)),
        encode_utf8(name_of_field(field)) == strip_nuls(field),
{
    lemma_strip_nuls(field);
    vstd::utf8::decode_utf8_encode_utf8(strip_nuls(field));
}

/// An entry whose name can stand in a name field is written as sixteen
/// bytes, and these hold the same entry.
pub proof fn lemma_entry_bytes(e: EntryView)
    requires
        is_field_name(e.name),
    ensures
        entry_bytes(e).len() == 16,
        is_name_field(entry_bytes(e).subrange(8, 16)),
        entry_of(entry_bytes(e)) == e,
{
    let text = encode_utf8(e.name);
    let bytes = entry_bytes(e);
    lemma_le_bytes_i32_signed(e.offset);
    lemma_le_bytes_i32_signed(e.size);
    assert(bytes.subrange(0, 4) =~= le_bytes_i32(e.offset));
    assert(bytes.subrange(4, 8) =~= le_bytes_i32(e.size));
    assert(bytes.subrange(8, 16) =~= pad_nuls(text));
    lemma_strip_nuls_behind(text, (8 - text.len()) as nat);
    vstd::utf8::encode_utf8_valid_utf8(e.name);
    vstd::utf8::encode_utf8_decode_utf8(e.name);
}

/// Entries whose names fit are written back to back, sixteen bytes each.
pub proof fn lemma_directory_bytes(entries: Seq<EntryView>, i: int)
    requires
        forall|k: int| 0 <= k < entries.len() ==> name_fits(#[trigger] entries[k].name),
        0 <= i < entries.len(),
    ensures
        directory_bytes(entries).len() == 16 * entries.len(),
        directory_bytes(entries).subrange(16 * i, 16 * i + 16) == entry_bytes(entries[i]),
    decreases entries.len(),
{
    let before = entries.drop_last();
    let last = entries.last();
    assert(entry_bytes(last).len() == 16);
    assert forall|k: int| 0 <= k < before.len() implies name_fits(#[trigger] before[k].name) by {
        assert(before[k] == entries[k]);
    }
    if before.len() > 0 {
        lemma_directory_bytes(before, if i < before.len() { i } else { 0 });
    }
    assert(directory_bytes(before).len() == 16 * before.len());
    if i < before.len() {
        assert(directory_bytes(entries).subrange(16 * i, 16 * i + 16) =~= directory_bytes(
            before,
        ).subrange(16 * i, 16 * i + 16));
        assert(before[i] == entries[i]);
    } else {
        assert(directory_bytes(entries).subrange(16 * i, 16 * i + 16) =~= entry_bytes(last));
    }
}

} // verus!
