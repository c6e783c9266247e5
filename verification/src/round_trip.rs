//! Laws that tie writing to opening: what is written lies where the
//! directory says, and opens as the archive it was written from.

use vstd::prelude::*;
use vstd::utf8::encode_utf8;

use crate::archive::archive_of;
use crate::archive::entries_of;
use crate::archive::entry_fault;
use crate::archive::lemma_first_fault;
use crate::archive::lemma_lumps_of_shape;
use crate::archive::lump_offset;
use crate::archive::lumps_of;
use crate::archive::payload;
use crate::archive::region_at;
use crate::archive::writable;
use crate::archive::written;
use crate::archive::written_directory;
use crate::archive::written_entry;
use crate::archive::ArchiveView;
use crate::directory::directory_bytes;
use crate::directory::is_field_name;
use crate::directory::is_stripped;
use crate::directory::lemma_directory_bytes;
use crate::directory::lemma_entry_bytes;
use crate::directory::lemma_name_of_field;
use crate::directory::name_fits;
use crate::directory::EntryView;
use crate::error::ErrorView;
use crate::header::header_bytes;
use crate::header::header_of;
use crate::header::pwad;
use crate::header::WadHeader;
use crate::le::le_bytes_i32;
use crate::le::lemma_le_bytes_i32_signed;
use crate::lump::lump_of;
use crate::lump::LumpView;

verus! {

/// The bytes of the first `n` lumps stand at the front of the bytes of all.
pub proof fn lemma_payload_prefix(lumps: Seq<LumpView>, n: int)
    requires
        0 <= n <= lumps.len(),
    ensures
        payload(lumps.take(n)).len() <= payload(lumps).len(),
        payload(lumps).take(payload(lumps.take(n)).len() as int) == payload(lumps.take(n)),
    decreases lumps.len() - n,
{
    if n < lumps.len() {
        lemma_payload_prefix(lumps, n + 1);
        assert(lumps.take(n + 1).drop_last() =~= lumps.take(n));
        let longer = payload(lumps.take(n + 1));
        let shorter = payload(lumps.take(n));
        assert(longer == shorter + lumps[n].data);
        assert(payload(lumps).take(shorter.len() as int) =~= payload(lumps).take(
            longer.len() as int,
        ).take(shorter.len() as int));
        assert(longer.take(shorter.len() as int) =~= shorter);
    } else {
        assert(lumps.take(n) =~= lumps);
        assert(payload(lumps).take(payload(lumps).len() as int) =~= payload(lumps));
    }
}

/// Lump `k` lies in the bytes of all lumps right behind the lumps before it.
pub proof fn lemma_payload_at(lumps: Seq<LumpView>, k: int)
    requires
        0 <= k < lumps.len(),
    ensures
        payload(lumps.take(k + 1)).len() == payload(lumps.take(k)).len() + lumps[k].data.len(),
        payload(lumps.take(k + 1)).len() <= payload(lumps).len(),
        payload(lumps).subrange(
            payload(lumps.take(k)).len() as int,
            payload(lumps.take(k + 1)).len() as int,
        ) == lumps[k].data,
{
    lemma_payload_prefix(lumps, k + 1);
    assert(lumps.take(k + 1).drop_last() =~= lumps.take(k));
    let longer = payload(lumps.take(k + 1));
    let shorter = payload(lumps.take(k));
    assert(longer == shorter + lumps[k].data);
    assert(payload(lumps).subrange(shorter.len() as int, longer.len() as int) =~= payload(
        lumps,
    ).take(longer.len() as int).subrange(shorter.len() as int, longer.len() as int));
    assert(longer.subrange(shorter.len() as int, longer.len() as int) =~= lumps[k].data);
}

/// In a written archive the directory offsets are the places of the lumps:
/// the archive is as long as header, directory and lumps together, and the
/// bytes of each lump stand at the offset of its entry.
pub proof fn lemma_written_layout(lumps: Seq<LumpView>, k: int)
    requires
        writable(lumps),
        0 <= k < lumps.len(),
    ensures
        written(lumps).len() == 12 + 16 * lumps.len() + payload(lumps).len(),
        lump_offset(lumps, 0) == 12 + 16 * lumps.len(),
        lump_offset(lumps, k + 1) == lump_offset(lumps, k) + lumps[k].data.len(),
        written_entry(lumps, k).offset == lump_offset(lumps, k),
        written_entry(lumps, k).size == lumps[k].data.len(),
        written(lumps).subrange(
            lump_offset(lumps, k),
            lump_offset(lumps, k) + lumps[k].data.len(),
        ) == lumps[k].data,
{
    let n = lumps.len();
    let wd = written_directory(lumps);
    let head = header_bytes(WadHeader { num_lumps: n as i32, directory_offset: 12 });
    lemma_first_fault(lumps, n);
    assert forall|i: int| 0 <= i < wd.len() implies name_fits(#[trigger] wd[i].name) by {
        assert(entry_fault(lumps, i) is None);
    }
    lemma_directory_bytes(wd, k);
    lemma_payload_at(lumps, k);
    assert(lumps.take(0) =~= Seq::<LumpView>::empty());
    assert(entry_fault(lumps, k) is None);
    assert(head.len() == 12);
    let at = lump_offset(lumps, k);
    let inner = payload(lumps.take(k)).len() as int;
    assert(written(lumps).subrange(at, at + lumps[k].data.len()) =~= payload(lumps).subrange(
        inner,
        inner + lumps[k].data.len(),
    ));
}

/// The entries of a written directory are read back from it, one by one.
proof fn lemma_entries_read_back(lumps: Seq<LumpView>, i: nat)
    requires
        writable(lumps),
        forall|k: int| 0 <= k < lumps.len() ==> is_stripped(encode_utf8(#[trigger] lumps[k].name)),
        i <= lumps.len(),
    ensures
        entries_of(directory_bytes(written_directory(lumps)) + payload(lumps), i) == Ok::<
            Seq<EntryView>,
            ErrorView,
        >(written_directory(lumps).take(i as int)),
    decreases i,
{
    let wd = written_directory(lumps);
    let region = directory_bytes(wd) + payload(lumps);
    if i == 0 {
        assert(wd.take(0) =~= Seq::<EntryView>::empty());
    } else {
        lemma_entries_read_back(lumps, (i - 1) as nat);
        lemma_first_fault(lumps, lumps.len());
        assert forall|k: int| 0 <= k < wd.len() implies name_fits(#[trigger] wd[k].name) by {
            assert(entry_fault(lumps, k) is None);
        }
        lemma_directory_bytes(wd, i - 1);
        assert(entry_fault(lumps, i - 1) is None);
        lemma_entry_bytes(wd[i - 1]);
        let rest = region.skip(16 * (i - 1));
        assert(rest.take(16) =~= directory_bytes(wd).subrange(16 * (i - 1), 16 * (i - 1) + 16));
        assert(rest.subrange(8, 16) =~= rest.take(16).subrange(8, 16));
        assert(wd.take(i as int) =~= wd.take(i - 1).push(wd[i - 1]));
    }
}

/// The lumps of a written archive are read back from it, one by one.
proof fn lemma_lumps_read_back(lumps: Seq<LumpView>, j: nat)
    requires
        writable(lumps),
        j <= lumps.len(),
    ensures
        lumps_of(written(lumps), written_directory(lumps).take(j as int)) == Ok::<
            Seq<LumpView>,
            ErrorView,
        >(lumps.take(j as int)),
    decreases j,
{
    let wd = written_directory(lumps);
    if j == 0 {
        assert(wd.take(0) =~= Seq::<EntryView>::empty());
        assert(lumps.take(0) =~= Seq::<LumpView>::empty());
    } else {
        lemma_lumps_read_back(lumps, (j - 1) as nat);
        lemma_written_layout(lumps, j - 1);
        let entry = wd[j - 1];
        assert(wd.take(j as int).drop_last() =~= wd.take(j - 1));
        assert(wd.take(j as int).last() == entry);
        assert(entry == written_entry(lumps, j - 1));
        lemma_payload_prefix(lumps, j as int);
        match lump_of(written(lumps), entry) {
            Ok(lump) => {
                assert(lump.data =~= lumps[j - 1].data);
                assert(lump == lumps[j - 1]);
            },
            Err(_) => {
                assert(false);
            },
        }
        assert(lumps.take(j as int) =~= lumps.take(j - 1).push(lumps[j - 1]));
    }
}

/// What is written for lumps whose names can be read back opens as an
/// archive of exactly these lumps, under the directory that was written.
pub proof fn lemma_written_opens(lumps: Seq<LumpView>)
    requires
        writable(lumps),
        forall|k: int| 0 <= k < lumps.len() ==> is_stripped(encode_utf8(#[trigger] lumps[k].name)),
    ensures
        archive_of(written(lumps)) == Ok::<ArchiveView, ErrorView>(
            ArchiveView { directory: written_directory(lumps), lumps },
        ),
{
    let n = lumps.len();
    let wd = written_directory(lumps);
    let h = WadHeader { num_lumps: n as i32, directory_offset: 12 };
    let w = written(lumps);
    lemma_first_fault(lumps, n);
    assert(lumps.take(0) =~= Seq::<LumpView>::empty());
    if n > 0 {
        assert(entry_fault(lumps, 0) is None);
    }
    lemma_le_bytes_i32_signed(h.num_lumps);
    lemma_le_bytes_i32_signed(h.directory_offset);
    assert(header_bytes(h).len() == 12);
    assert(w.take(4) =~= pwad());
    assert(w.subrange(4, 8) =~= le_bytes_i32(h.num_lumps));
    assert(w.subrange(8, 12) =~= le_bytes_i32(h.directory_offset));
    assert(header_of(w) == Ok::<WadHeader, ErrorView>(h));
    assert(region_at(w, 12) =~= directory_bytes(wd) + payload(lumps));
    lemma_entries_read_back(lumps, n);
    assert(wd.take(n as int) =~= wd);
    lemma_lumps_read_back(lumps, n);
    assert(lumps.take(n as int) =~= lumps);
}

/// The names of a directory that was read can each stand in a name field.
pub proof fn lemma_entries_of_names(region: Seq<u8>, count: nat)
    requires
        entries_of(region, count) is Ok,
    ensures
        entries_of(region, count)->Ok_0.len() == count,
        forall|i: int|
            0 <= i < count ==> is_field_name((#[trigger] entries_of(region, count)->Ok_0[i]).name),
    decreases count,
{
    if count > 0 {
        lemma_entries_of_names(region, (count - 1) as nat);
        let rest = region.skip(16 * (count - 1));
        assert(rest.take(16).subrange(8, 16) =~= rest.subrange(8, 16));
        lemma_name_of_field(rest.subrange(8, 16));
    }
}

/// An archive that was opened and can be written opens again, from what is
/// written, with the same lumps under the same names and sizes, in the
/// same order. Offsets are laid out afresh.
pub proof fn lemma_round_trip(source: Seq<u8>)
    requires
        archive_of(source) is Ok,
        writable(archive_of(source)->Ok_0.lumps),
    ensures
        ({
            let first = archive_of(source)->Ok_0;
            let again = archive_of(written(first.lumps));
            &&& again is Ok
            &&& again->Ok_0.lumps == first.lumps
            &&& again->Ok_0.directory.len() == first.directory.len()
            &&& forall|i: int|
                0 <= i < first.directory.len() ==> {
                    &&& (#[trigger] again->Ok_0.directory[i]).name == first.directory[i].name
                    &&& again->Ok_0.directory[i].size == first.directory[i].size
                }
        }),
{
    let first = archive_of(source)->Ok_0;
    let h = header_of(source)->Ok_0;
    let region = region_at(source, h.directory_offset as int);
    lemma_entries_of_names(region, h.num_lumps as nat);
    lemma_lumps_of_shape(source, first.directory);
    assert forall|k: int| 0 <= k < first.lumps.len() implies is_stripped(
        encode_utf8(#[trigger] first.lumps[k].name),
    ) by {
        assert(is_field_name(first.directory[k].name));
    }
    lemma_written_opens(first.lumps);
    lemma_first_fault(first.lumps, first.lumps.len());
    assert forall|i: int| 0 <= i < first.directory.len() implies {
        &&& (#[trigger] written_directory(first.lumps)[i]).name == first.directory[i].name
        &&& written_directory(first.lumps)[i].size == first.directory[i].size
    } by {
        assert(entry_fault(first.lumps, i) is None);
    }
}

} // verus!
