//! The archive as a whole: opening one from bytes, finding lumps by name,
//! and writing one out with offsets laid out afresh.

use vstd::hash_map::StringHashMap;
use vstd::prelude::*;
use vstd::slice::slice_subrange;

use crate::directory::directory_bytes;
use crate::directory::entry_bytes;
use crate::directory::entry_of;
use crate::directory::entry_views;
use crate::directory::is_name_field;
use crate::directory::name_fits;
use crate::directory::Directory;
use crate::directory::DirectoryEntry;
use crate::directory::EntryView;
use crate::error::ErrorView;
use crate::error::IoCause;
use crate::error::WadError;
use crate::header::header_bytes;
use crate::header::header_of;
use crate::header::is_magic;
use crate::header::WadHeader;
use crate::lump::lump_of;
use crate::lump::Lump;
use crate::lump::LumpView;
use crate::wad_de::WadDeserializer;

verus! {

/// An archive as mathematics: what its entries say, and its lumps.
pub struct ArchiveView {
    pub directory: Seq<EntryView>,
    pub lumps: Seq<LumpView>,
}

/// What each of `lumps` is, in their order.
pub open spec fn lump_views(lumps: Seq<Lump>) -> Seq<LumpView> {
    Seq::new(lumps.len(), |i: int| lumps[i]@)
}

/// The bytes of `source` from `offset` on. An offset that is no place in
/// `source` leaves nothing to read.
pub open spec fn region_at(source: Seq<u8>, offset: int) -> Seq<u8> {
    if 0 <= offset <= source.len() {
        source.skip(offset)
    } else {
        Seq::empty()
    }
}

/// The first `count` entries that lie back to back in `region`, or the
/// failure of the first one that cannot be read.
pub open spec fn entries_of(region: Seq<u8>, count: nat) -> Result<Seq<EntryView>, ErrorView>
    decreases count,
{
    if count == 0 {
        Ok(Seq::empty())
    } else {
        match entries_of(region, (count - 1) as nat) {
            Err(e) => Err(e),
            Ok(before) => {
                let rest = region.skip(16 * (count - 1));
                if rest.len() < 16 {
                    Err(ErrorView::CouldntReadEntry(IoCause::UnexpectedEof))
                } else if !is_name_field(rest.subrange(8, 16)) {
                    Err(ErrorView::InvalidLumpName(rest.subrange(8, 16)))
                } else {
                    Ok(before.push(entry_of(rest.take(16))))
                }
            },
        }
    }
}

/// The lumps that `entries` address in `source`, or the failure of the
/// first one that cannot be read.
pub open spec fn lumps_of(source: Seq<u8>, entries: Seq<EntryView>) -> Result<
    Seq<LumpView>,
    ErrorView,
>
    decreases entries.len(),
{
    if entries.len() == 0 {
        Ok(Seq::empty())
    } else {
        match lumps_of(source, entries.drop_last()) {
            Err(e) => Err(e),
            Ok(before) => match lump_of(source, entries.last()) {
                Err(e) => Err(e),
                Ok(lump) => Ok(before.push(lump)),
            },
        }
    }
}

/// The archive that `source` holds, or the first failure on the way: the
/// header, then the whole directory, then the lumps in directory order.
pub open spec fn archive_of(source: Seq<u8>) -> Result<ArchiveView, ErrorView> {
    match header_of(source) {
        Err(e) => Err(e),
        Ok(h) => if h.num_lumps < 0 {
            Err(ErrorView::CouldntReadHeader(IoCause::InvalidInput))
        } else {
            match entries_of(region_at(source, h.directory_offset as int), h.num_lumps as nat) {
                Err(e) => Err(e),
                Ok(directory) => match lumps_of(source, directory) {
                    Err(e) => Err(e),
                    Ok(lumps) => Ok(ArchiveView { directory, lumps }),
                },
            }
        },
    }
}

/// The index that comes of entering each name with its place, in directory
/// order: a later entry of the same name takes the place of an earlier one.
pub open spec fn name_index(entries: Seq<EntryView>) -> Map<Seq<char>, usize>
    decreases entries.len(),
{
    if entries.len() == 0 {
        Map::empty()
    } else {
        name_index(entries.drop_last()).insert(
            entries.last().name,
            (entries.len() - 1) as usize,
        )
    }
}

/// The place of the last entry called `name`, if there is one.
pub open spec fn last_named(entries: Seq<EntryView>, name: Seq<char>) -> Option<int>
    decreases entries.len(),
{
    if entries.len() == 0 {
        None
    } else if entries.last().name == name {
        Some(entries.len() - 1)
    } else {
        last_named(entries.drop_last(), name)
    }
}

/// An archive: its directory, its lumps in the same order, and for each
/// name the place of the last lump that bears it.
pub struct Wad {
    pub directory: Directory,
    pub lumps: Vec<Lump>,
    pub lump_index: StringHashMap<usize>,
}

impl View for Wad {
    type V = ArchiveView;

    open spec fn view(&self) -> ArchiveView {
        ArchiveView { directory: self.directory@, lumps: lump_views(self.lumps@) }
    }
}

/// Lumps that were read for a directory match it: as many, under the same
/// names, each as long as its entry says.
pub proof fn lemma_lumps_of_shape(source: Seq<u8>, entries: Seq<EntryView>)
    requires
        lumps_of(source, entries) is Ok,
    ensures
        lumps_of(source, entries)->Ok_0.len() == entries.len(),
        forall|i: int|
            0 <= i < entries.len() ==> {
                &&& (#[trigger] lumps_of(source, entries)->Ok_0[i]).name == entries[i].name
                &&& lumps_of(source, entries)->Ok_0[i].data.len() == entries[i].size
            },
    decreases entries.len(),
{
    if entries.len() > 0 {
        lemma_lumps_of_shape(source, entries.drop_last());
    }
}

/// What the index holds for a name is the place of the last entry of that
/// name, and it holds nothing for a name that no entry bears.
pub proof fn lemma_name_index(entries: Seq<EntryView>, name: Seq<char>)
    requires
        entries.len() <= usize::MAX,
    ensures
        name_index(entries).contains_key(name) <==> last_named(entries, name) is Some,
        name_index(entries).contains_key(name) ==> last_named(entries, name) == Some(
            name_index(entries)[name] as int,
        ),
    decreases entries.len(),
{
    if entries.len() > 0 {
        lemma_name_index(entries.drop_last(), name);
    }
}

/// The last entry of a name bears that name, and none behind it does; where
/// there is no last entry of a name, no entry bears it.
pub proof fn lemma_last_named(entries: Seq<EntryView>, name: Seq<char>)
    ensures
        match last_named(entries, name) {
            Some(i) => 0 <= i < entries.len() && entries[i].name == name && forall|k: int|
                i < k < entries.len() ==> (#[trigger] entries[k]).name != name,
            None => forall|k: int| 0 <= k < entries.len() ==> (#[trigger] entries[k]).name != name,
        },
    decreases entries.len(),
{
    if entries.len() > 0 {
        lemma_last_named(entries.drop_last(), name);
        if entries.last().name != name {
            match last_named(entries, name) {
                Some(i) => {
                    assert(entries[i] == entries.drop_last()[i]);
                    assert forall|k: int| i < k < entries.len() implies (
                    #[trigger] entries[k]).name != name by {
                        if k < entries.len() - 1 {
                            assert(entries[k] == entries.drop_last()[k]);
                        }
                    }
                },
                None => {
                    assert forall|k: int| 0 <= k < entries.len() implies (
                    #[trigger] entries[k]).name != name by {
                        if k < entries.len() - 1 {
                            assert(entries[k] == entries.drop_last()[k]);
                        }
                    }
                },
            }
        }
    }
}

/// Reads `count` entries that lie back to back in `source` from the byte
/// at `at` on. The first entry that cannot be read ends it, and no part of
/// a directory is returned.
pub fn parse_directory(source: &[u8], at: i32, count: usize) -> (r: Result<Directory, WadError>)
    ensures
        match r {
            Ok(d) => entries_of(region_at(source@, at as int), count as nat) == Ok::<
                Seq<EntryView>,
                ErrorView,
            >(d@),
            Err(e) => entries_of(region_at(source@, at as int), count as nat) == Err::<
                Seq<EntryView>,
                ErrorView,
            >(e@),
        },
{
    let table = if at >= 0 && at as usize <= source.len() {
        slice_subrange(source, at as usize, source.len())
    } else {
        slice_subrange(source, 0, 0)
    };
    let ghost region = region_at(source@, at as int);
    assert(table@ =~= region);
    let mut de = WadDeserializer::from_bytes(table);
    let mut directory: Vec<DirectoryEntry> = Vec::new();
    let mut i: usize = 0;
    assert(entry_views(directory@) =~= Seq::<EntryView>::empty());
    while i < count
        invariant
            i <= count,
            region == region_at(source@, at as int),
            directory@.len() == i,
            entries_of(region, i as nat) == Ok::<Seq<EntryView>, ErrorView>(
                entry_views(directory@),
            ),
            region.len() >= 16 * i,
            de@ == region.skip(16 * i),
        decreases count - i,
    {
        let ghost rest = de@;
        let ghost before = entry_views(directory@);
        proof {
            if rest.len() >= 16 {
                assert(rest.take(16).subrange(8, 16) =~= rest.subrange(8, 16));
            }
        }
        match DirectoryEntry::new(&mut de) {
            Ok(entry) => {
                directory.push(entry);
                proof {
                    assert(entry_views(directory@) =~= before.push(entry@));
                    assert(region.skip(16 * i).skip(16) =~= region.skip(16 * (i + 1)));
                }
            },
            Err(e) => {
                proof {
                    assert(entries_of(region, (i + 1) as nat) == Err::<
                        Seq<EntryView>,
                        ErrorView,
                    >(e@));
                    lemma_entries_of_fails(region, (i + 1) as nat, count as nat);
                }
                return Err(e);
            },
        }
        i = i + 1;
    }
    Ok(Directory::from_entries(directory))
}

/// Fetches from `source` the lump of each entry, in directory order. The
/// first lump that cannot be read ends it.
pub fn materialize_lumps(source: &[u8], directory: &Directory) -> (r: Result<Vec<Lump>, WadError>)
    ensures
        match r {
            Ok(lumps) => lumps_of(source@, directory@) == Ok::<Seq<LumpView>, ErrorView>(
                lump_views(lumps@),
            ),
            Err(e) => lumps_of(source@, directory@) == Err::<Seq<LumpView>, ErrorView>(e@),
        },
{
    let ghost entries = directory@;
    let mut lumps: Vec<Lump> = Vec::new();
    let mut entries_left = directory.iter();
    let ghost mut j: int = 0;
    assert(entries.take(0) =~= Seq::<EntryView>::empty());
    assert(lump_views(lumps@) =~= Seq::<LumpView>::empty());
    assert(entries.skip(0) =~= entries);
    loop
        invariant
            0 <= j <= entries.len(),
            entries == directory@,
            entries_left@ == entries.skip(j),
            lumps_of(source@, entries.take(j)) == Ok::<Seq<LumpView>, ErrorView>(
                lump_views(lumps@),
            ),
        ensures
            j == entries.len(),
        decreases entries.len() - j,
    {
        let entry = match entries_left.next() {
            Some(entry) => entry,
            None => {
                break ;
            },
        };
        let ghost before = lump_views(lumps@);
        proof {
            assert(entries.take(j + 1).drop_last() =~= entries.take(j));
            assert(entries.take(j + 1).last() == entry@);
            assert(entries.skip(j).skip(1) =~= entries.skip(j + 1));
        }
        match Lump::new(source, entry) {
            Ok(lump) => {
                lumps.push(lump);
                assert(lump_views(lumps@) =~= before.push(lump@));
            },
            Err(e) => {
                proof {
                    lemma_lumps_of_fails(source@, entries, j + 1);
                }
                return Err(e);
            },
        }
        proof {
            j = j + 1;
        }
    }
    assert(entries.take(j) =~= entries);
    Ok(lumps)
}

/// Enters each name of the directory with its place, first entry first, so
/// that a later entry of the same name takes the place of an earlier one.
pub fn build_name_index(directory: &Directory) -> (r: StringHashMap<usize>)
    ensures
        r@ == name_index(directory@),
{
    let ghost entries = directory@;
    let mut index: StringHashMap<usize> = StringHashMap::new();
    let mut j: usize = 0;
    assert(entries.take(0) =~= Seq::<EntryView>::empty());
    while j < directory.len()
        invariant
            j <= entries.len(),
            entries == directory@,
            index@ == name_index(entries.take(j as int)),
        decreases entries.len() - j,
    {
        match directory.get(j) {
            Some(entry) => {
                proof {
                    assert(entries.take(j + 1).drop_last() =~= entries.take(j as int));
                    assert(entries.take(j + 1).last() == entry@);
                }
                index.insert(entry.name.clone(), j);
            },
            None => {},
        }
        j = j + 1;
    }
    assert(entries.take(j as int) =~= entries);
    index
}

impl Wad {
    /// That the three parts belong together: one lump for each entry, under
    /// the entry's name and of the entry's size, and an index made of the
    /// directory.
    pub open spec fn wf(&self) -> bool {
        &&& self@.lumps.len() == self@.directory.len()
        &&& forall|i: int|
            0 <= i < self@.directory.len() ==> {
                &&& (#[trigger] self@.lumps[i]).name == self@.directory[i].name
                &&& self@.lumps[i].data.len() == self@.directory[i].size
            }
        &&& self.lump_index@ == name_index(self@.directory)
    }

    /// Opens the archive that `source` holds: the header, then the
    /// directory where the header says it lies, then the lumps that the
    /// entries address. The first failure ends it, and nothing is returned
    /// of an archive that is not whole.
    pub fn new(source: &[u8]) -> (r: Result<Wad, WadError>)
        ensures
            match r {
                Ok(wad) => wad.wf() && archive_of(source@) == Ok::<ArchiveView, ErrorView>(wad@),
                Err(e) => archive_of(source@) == Err::<ArchiveView, ErrorView>(e@),
            },
    {
        let mut head = WadDeserializer::from_bytes(source);
        let header = match WadHeader::new(&mut head) {
            Ok(h) => h,
            Err(e) => {
                return Err(e);
            },
        };
        if header.num_lumps < 0 {
            return Err(WadError::CouldntReadHeader(IoCause::InvalidInput));
        }
        let directory = match parse_directory(
            source,
            header.directory_offset,
            header.num_lumps as usize,
        ) {
            Ok(d) => d,
            Err(e) => {
                return Err(e);
            },
        };
        let lumps = match materialize_lumps(source, &directory) {
            Ok(l) => l,
            Err(e) => {
                return Err(e);
            },
        };
        let lump_index = build_name_index(&directory);
        proof {
            lemma_lumps_of_shape(source@, directory@);
        }
        Ok(Wad { directory, lumps, lump_index })
    }

    /// The place of the lump called `name`: that of the last entry of that
    /// name, as the index has it.
    pub fn lookup(&self, name: &str) -> (r: Option<usize>)
        ensures
            r == (if self.lump_index@.contains_key(name@) {
                Some(self.lump_index@[name@])
            } else {
                None
            }),
            self.wf() ==> match r {
                Some(i) => last_named(self@.directory, name@) == Some(i as int),
                None => last_named(self@.directory, name@) is None,
            },
    {
        proof {
            if self.wf() {
                assert(self.lumps.len() == self.lumps@.len());
                lemma_name_index(self@.directory, name@);
            }
        }
        match self.lump_index.get(name) {
            Some(i) => Some(*i),
            None => None,
        }
    }
}

/// Once an entry cannot be read, no longer run of entries can.
pub proof fn lemma_entries_of_fails(region: Seq<u8>, n: nat, count: nat)
    requires
        n <= count,
        entries_of(region, n) is Err,
    ensures
        entries_of(region, count) == entries_of(region, n),
    decreases count - n,
{
    if n < count {
        lemma_entries_of_fails(region, n, (count - 1) as nat);
    }
}

/// Once a lump cannot be read, the lumps of no longer run of entries can.
pub proof fn lemma_lumps_of_fails(source: Seq<u8>, entries: Seq<EntryView>, n: int)
    requires
        0 <= n <= entries.len(),
        lumps_of(source, entries.take(n)) is Err,
    ensures
        lumps_of(source, entries) == lumps_of(source, entries.take(n)),
    decreases entries.len() - n,
{
    if n < entries.len() {
        assert(entries.take(n + 1).drop_last() =~= entries.take(n));
        lemma_lumps_of_fails(source, entries, n + 1);
    } else {
        assert(entries.take(n) =~= entries);
    }
}

/// The bytes of all `lumps`, one lump after the other.
pub open spec fn payload(lumps: Seq<LumpView>) -> Seq<u8>
    decreases lumps.len(),
{
    if lumps.len() == 0 {
        Seq::empty()
    } else {
        payload(lumps.drop_last()) + lumps.last().data
    }
}

/// Where lump `k` begins in the archive written for `lumps`: behind the
/// header of 12 bytes, the 16 bytes of each entry, and the lumps before it.
pub open spec fn lump_offset(lumps: Seq<LumpView>, k: int) -> int {
    (12 + 16 * lumps.len() + payload(lumps.take(k)).len()) as int
}

/// The entry that is written for lump `k`.
pub open spec fn written_entry(lumps: Seq<LumpView>, k: int) -> EntryView {
    EntryView {
        offset: lump_offset(lumps, k) as i32,
        size: lumps[k].data.len() as i32,
        name: lumps[k].name,
    }
}

/// The directory that is written for `lumps`.
pub open spec fn written_directory(lumps: Seq<LumpView>) -> Seq<EntryView> {
    Seq::new(lumps.len(), |k: int| written_entry(lumps, k))
}

/// Why the entry of lump `k` cannot be written, if it cannot: its offset or
/// its size is more than 32 signed bits hold, or else its name is too long
/// for a name field.
pub open spec fn entry_fault(lumps: Seq<LumpView>, k: int) -> Option<IoCause> {
    if lump_offset(lumps, k) > i32::MAX || lumps[k].data.len() > i32::MAX {
        Some(IoCause::InvalidInput)
    } else if !name_fits(lumps[k].name) {
        Some(IoCause::WriteZero)
    } else {
        None
    }
}

/// The place of the first among the first `n` lumps whose entry cannot be
/// written, or `n` where each of them can.
pub open spec fn first_fault(lumps: Seq<LumpView>, n: nat) -> int
    decreases n,
{
    if n == 0 {
        0
    } else {
        let before = first_fault(lumps, (n - 1) as nat);
        if before < n - 1 || entry_fault(lumps, n - 1) is Some {
            before
        } else {
            n as int
        }
    }
}

/// That an archive can be written for `lumps`: every entry can.
pub open spec fn writable(lumps: Seq<LumpView>) -> bool {
    first_fault(lumps, lumps.len()) == lumps.len()
}

/// The archive that is written for `lumps`: the header, the directory, and
/// the lumps in the order of the directory.
pub open spec fn written(lumps: Seq<LumpView>) -> Seq<u8> {
    header_bytes(WadHeader { num_lumps: lumps.len() as i32, directory_offset: 12 })
        + directory_bytes(written_directory(lumps)) + payload(lumps)
}

/// `first_fault` is the least place of an entry that cannot be written.
pub proof fn lemma_first_fault(lumps: Seq<LumpView>, n: nat)
    ensures
        0 <= first_fault(lumps, n) <= n,
        forall|k: int| 0 <= k < first_fault(lumps, n) ==> (#[trigger] entry_fault(lumps, k)) is None,
        first_fault(lumps, n) < n ==> entry_fault(lumps, first_fault(lumps, n)) is Some,
    decreases n,
{
    if n > 0 {
        lemma_first_fault(lumps, (n - 1) as nat);
    }
}

/// A fault among the first `n` lumps is the first fault of any longer run.
pub proof fn lemma_first_fault_stays(lumps: Seq<LumpView>, n: nat, m: nat)
    requires
        n <= m,
        first_fault(lumps, n) < n,
    ensures
        first_fault(lumps, m) == first_fault(lumps, n),
    decreases m - n,
{
    if n < m {
        lemma_first_fault_stays(lumps, n, (m - 1) as nat);
    }
}

/// Lump `k + 1` begins where lump `k` ends.
pub proof fn lemma_lump_offset_next(lumps: Seq<LumpView>, k: int)
    requires
        0 <= k < lumps.len(),
    ensures
        lump_offset(lumps, 0) == 12 + 16 * lumps.len(),
        lump_offset(lumps, k + 1) == lump_offset(lumps, k) + lumps[k].data.len(),
        payload(lumps.take(k + 1)) == payload(lumps.take(k)) + lumps[k].data,
{
    assert(lumps.take(0) =~= Seq::<LumpView>::empty());
    assert(lumps.take(k + 1).drop_last() =~= lumps.take(k));
}

/// The first `k + 1` entries are written as the first `k`, then entry `k`.
pub proof fn lemma_directory_bytes_next(entries: Seq<EntryView>, k: int)
    requires
        0 <= k < entries.len(),
    ensures
        directory_bytes(entries.take(k + 1)) == directory_bytes(entries.take(k)) + entry_bytes(
            entries[k],
        ),
{
    assert(entries.take(k + 1).drop_last() =~= entries.take(k));
}

/// Where the first `k` entries can be written, entry `k` decides: with a
/// fault it is the first fault of all, without one the first `k + 1` can.
pub proof fn lemma_first_fault_next(lumps: Seq<LumpView>, k: nat, n: nat)
    requires
        k < n,
        first_fault(lumps, k) == k,
    ensures
        entry_fault(lumps, k as int) is Some ==> first_fault(lumps, n) == k,
        entry_fault(lumps, k as int) is None ==> first_fault(lumps, k + 1) == k + 1,
{
    if entry_fault(lumps, k as int) is Some {
        lemma_first_fault_stays(lumps, k + 1, n);
    }
}

/// Writes behind `out` the entry of each lump, with the offset at which
/// its bytes will lie in an archive of these lumps alone.
fn write_entries(lumps: &Vec<Lump>, out: &mut Vec<u8>) -> (r: Result<(), WadError>)
    requires
        lumps@.len() <= 134_217_727,
    ensures
        match r {
            Ok(_) => writable(lump_views(lumps@)) && final(out)@ == old(out)@ + directory_bytes(
                written_directory(lump_views(lumps@)),
            ),
            Err(e) => {
                let k = first_fault(lump_views(lumps@), lumps@.len());
                &&& k < lumps@.len()
                &&& entry_fault(lump_views(lumps@), k) is Some
                &&& e@ == ErrorView::CouldntWriteEntry(entry_fault(lump_views(lumps@), k)->Some_0)
            },
        },
{
    let ghost views = lump_views(lumps@);
    let ghost entries = written_directory(views);
    let n = lumps.len();
    let mut offset: u64 = 12 + 16 * (n as u64);
    let mut k: usize = 0;
    proof {
        assert(views.take(0) =~= Seq::<LumpView>::empty());
        assert(entries.take(0) =~= Seq::<EntryView>::empty());
    }
    while k < n
        invariant
            k <= n,
            n == lumps@.len(),
            n <= 134_217_727,
            views == lump_views(lumps@),
            entries == written_directory(views),
            offset == lump_offset(views, k as int),
            offset <= 0x1_0000_0000,
            first_fault(views, k as nat) == k,
            out@ == old(out)@ + directory_bytes(entries.take(k as int)),
        decreases n - k,
    {
        let lump = &lumps[k];
        proof {
            assert(views[k as int] == lump@);
            assert(entries[k as int] == written_entry(views, k as int));
            lemma_lump_offset_next(views, k as int);
            lemma_directory_bytes_next(entries, k as int);
            lemma_first_fault_next(views, k as nat, n as nat);
        }
        if offset > 0x7fff_ffff || lump.data.len() > 0x7fff_ffff {
            return Err(WadError::CouldntWriteEntry(IoCause::InvalidInput));
        }
        let entry = DirectoryEntry {
            offset: offset as i32,
            size: lump.data.len() as i32,
            name: lump.name.clone(),
        };
        assert(entry@ == written_entry(views, k as int));
        match entry.write(out) {
            Ok(_) => {},
            Err(e) => {
                return Err(e);
            },
        }
        assert(out@ =~= old(out)@ + directory_bytes(entries.take(k + 1)));
        offset = offset + lump.data.len() as u64;
        k = k + 1;
    }
    assert(entries.take(n as int) =~= entries);
    Ok(())
}

/// Writes behind `out` the bytes of each lump, in order.
fn write_lumps(lumps: &Vec<Lump>, out: &mut Vec<u8>)
    ensures
        final(out)@ == old(out)@ + payload(lump_views(lumps@)),
{
    let ghost views = lump_views(lumps@);
    let mut j: usize = 0;
    proof {
        assert(views.take(0) =~= Seq::<LumpView>::empty());
        assert(out@ =~= old(out)@ + payload(views.take(0)));
    }
    while j < lumps.len()
        invariant
            j <= lumps@.len(),
            views == lump_views(lumps@),
            out@ == old(out)@ + payload(views.take(j as int)),
        decreases lumps@.len() - j,
    {
        proof {
            assert(views[j as int] == lumps@[j as int]@);
            lemma_lump_offset_next(views, j as int);
        }
        lumps[j].write(out);
        assert(out@ =~= old(out)@ + payload(views.take(j + 1)));
        j = j + 1;
    }
    assert(views.take(lumps@.len() as int) =~= views);
}

/// Writes an archive of `lumps`, in their order: the header under `PWAD`
/// with the directory at 12, an entry for each lump with the offset at
/// which its bytes will lie, then the bytes of each lump. The first entry
/// that cannot be written ends it.
pub fn serialize(lumps: &Vec<Lump>) -> (r: Result<Vec<u8>, WadError>)
    ensures
        match r {
            Ok(bytes) => writable(lump_views(lumps@)) && bytes@ == written(lump_views(lumps@)),
            Err(e) => {
                let k = first_fault(lump_views(lumps@), lumps@.len());
                &&& k < lumps@.len()
                &&& entry_fault(lump_views(lumps@), k) is Some
                &&& e@ == ErrorView::CouldntWriteEntry(entry_fault(lump_views(lumps@), k)->Some_0)
            },
        },
{
    let ghost views = lump_views(lumps@);
    let n = lumps.len();
    if n > 134_217_727 {
        proof {
            assert(first_fault(views, 0) == 0);
            lemma_lump_offset_next(views, 0);
            lemma_first_fault_next(views, 0, n as nat);
        }
        return Err(WadError::CouldntWriteEntry(IoCause::InvalidInput));
    }
    let mut out: Vec<u8> = Vec::new();
    let header = WadHeader { num_lumps: n as i32, directory_offset: 12 };
    header.write(&mut out);
    match write_entries(lumps, &mut out) {
        Ok(_) => {},
        Err(e) => {
            return Err(e);
        },
    }
    write_lumps(lumps, &mut out);
    assert(out@ =~= written(views));
    Ok(out)
}

impl Wad {
    /// Writes the archive anew from its lumps, as `serialize` does.
    pub fn write(&self) -> (r: Result<Vec<u8>, WadError>)
        ensures
            match r {
                Ok(bytes) => writable(self@.lumps) && bytes@ == written(self@.lumps),
                Err(e) => {
                    let k = first_fault(self@.lumps, self@.lumps.len());
                    &&& k < self@.lumps.len()
                    &&& entry_fault(self@.lumps, k) is Some
                    &&& e@ == ErrorView::CouldntWriteEntry(entry_fault(self@.lumps, k)->Some_0)
                },
            },
    {
        serialize(&self.lumps)
    }
}

/// A source of four bytes or more whose first four are no magic number is
/// refused for them, whatever follows.
pub proof fn lemma_magic_validation(source: Seq<u8>)
    requires
        source.len() >= 4,
        !is_magic(source.take(4)),
    ensures
        archive_of(source) == Err::<ArchiveView, ErrorView>(
            ErrorView::InvalidMagicNumber(source.take(4)),
        ),
{
}

/// A later entry shadows an earlier one of the same name: the place found
/// for the name of entry `i` is `i` or behind it, and bears that name.
pub proof fn lemma_later_entry_shadows(entries: Seq<EntryView>, i: int)
    requires
        0 <= i < entries.len(),
    ensures
        last_named(entries, entries[i].name) is Some,
        i <= last_named(entries, entries[i].name)->Some_0 < entries.len(),
        entries[last_named(entries, entries[i].name)->Some_0].name == entries[i].name,
{
    lemma_last_named(entries, entries[i].name);
}

} // verus!
