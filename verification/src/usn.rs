//! Parsing of the buffers that the NTFS change journal hands out: the
//! records of a master-file-table enumeration and the records of a journal
//! read.  A buffer starts with an 8-byte position, followed by version-2
//! USN records, each laid out as the 64-byte `USN_RECORD_V2` header followed
//! by the UTF-16 file name at `file_name_offset`.
use vstd::prelude::*;
use crate::text::{first_char_is, from_utf16_lossy, starts_with_char, utf16_lossy};

verus! {

/// Size of a record header: the `USN_RECORD_V2` fields padded to 8-byte alignment.
pub const USN_RECORD_SIZE: usize = 64;

/// Bytes before the first record in a buffer.
pub const BUFFER_HEADER_SIZE: usize = 8;

/// The attribute bit that marks a directory.
pub const FILE_ATTRIBUTE_DIRECTORY: u32 = 0x10;

/// Change reasons that the monitor reports.
pub const USN_REASON_FILE_CREATE: u32 = 0x00000100;
pub const USN_REASON_FILE_DELETE: u32 = 0x00000200;
pub const USN_REASON_RENAME_NEW_NAME: u32 = 0x00002000;

/// Little-endian unsigned integers read from bytes.
pub open spec fn le16(b: Seq<u8>, o: int) -> int {
    b[o] as int + b[o + 1] as int * 0x100
}

pub open spec fn le32(b: Seq<u8>, o: int) -> int {
    le16(b, o) + le16(b, o + 2) * 0x1_0000
}

pub open spec fn le64(b: Seq<u8>, o: int) -> int {
    le32(b, o) + le32(b, o + 4) * 0x1_0000_0000
}

/// The fields of a record header that the parsers use.
#[derive(Debug, Clone, Copy)]
pub struct UsnRecordHeader {
    pub record_length: u32,
    pub file_reference_number: u64,
    pub parent_file_reference_number: u64,
    pub usn: i64,
    pub reason: u32,
    pub file_attributes: u32,
    pub file_name_length: u16,
    pub file_name_offset: u16,
}

/// The header of the record that starts at byte `o`.
pub open spec fn header_at(b: Seq<u8>, o: int) -> UsnRecordHeader {
    UsnRecordHeader {
        record_length: le32(b, o) as u32,
        file_reference_number: le64(b, o + 8) as u64,
        parent_file_reference_number: le64(b, o + 16) as u64,
        usn: le64(b, o + 24) as i64,
        reason: le32(b, o + 40) as u32,
        file_attributes: le32(b, o + 52) as u32,
        file_name_length: le16(b, o + 56) as u16,
        file_name_offset: le16(b, o + 58) as u16,
    }
}

/// The file name of the record at `o` lies inside the buffer.
pub open spec fn name_fits(n: int, o: int, h: UsnRecordHeader) -> bool {
    o + h.file_name_offset + h.file_name_length <= n
}

/// The UTF-16 code units of the file name of the record at `o`: as many
/// whole units as `file_name_length` bytes hold.
pub open spec fn name_units(b: Seq<u8>, o: int, h: UsnRecordHeader) -> Seq<u16> {
    Seq::new(
        (h.file_name_length / 2) as nat,
        |k: int| le16(b, o + h.file_name_offset + 2 * k) as u16,
    )
}

fn read_u16_le(b: &[u8], o: usize) -> (r: u16)
    requires
        o + 2 <= b@.len() <= usize::MAX,
    ensures
        r == le16(b@, o as int),
{
    (b[o] as u16) + (b[o + 1] as u16) * 0x100
}

fn read_u32_le(b: &[u8], o: usize) -> (r: u32)
    requires
        o + 4 <= b@.len() <= usize::MAX,
    ensures
        r == le32(b@, o as int),
{
    (read_u16_le(b, o) as u32) + (read_u16_le(b, o + 2) as u32) * 0x1_0000
}

fn read_u64_le(b: &[u8], o: usize) -> (r: u64)
    requires
        o + 8 <= b@.len() <= usize::MAX,
    ensures
        r == le64(b@, o as int),
{
    (read_u32_le(b, o) as u64) + (read_u32_le(b, o + 4) as u64) * 0x1_0000_0000
}

/// Read the header of the record at byte `o`.
pub fn read_header(b: &[u8], o: usize) -> (h: UsnRecordHeader)
    requires
        o + USN_RECORD_SIZE <= b@.len() <= usize::MAX,
    ensures
        h == header_at(b@, o as int),
{
    let usn_bits = read_u64_le(b, o + 24);
    UsnRecordHeader {
        record_length: read_u32_le(b, o),
        file_reference_number: read_u64_le(b, o + 8),
        parent_file_reference_number: read_u64_le(b, o + 16),
        usn: usn_bits as i64,
        reason: read_u32_le(b, o + 40),
        file_attributes: read_u32_le(b, o + 52),
        file_name_length: read_u16_le(b, o + 56),
        file_name_offset: read_u16_le(b, o + 58),
    }
}

/// Read the UTF-16 units of the file name of the record at `o`.
fn read_name_units(b: &[u8], o: usize, h: &UsnRecordHeader) -> (r: Vec<u16>)
    requires
        name_fits(b@.len() as int, o as int, *h),
        b@.len() <= usize::MAX,
    ensures
        r@ == name_units(b@, o as int, *h),
{
    let start: usize = o + h.file_name_offset as usize;
    let count: usize = (h.file_name_length / 2) as usize;
    let mut units: Vec<u16> = Vec::new();
    let mut k: usize = 0;
    while k < count
        invariant
            start == o + h.file_name_offset,
            count == h.file_name_length / 2,
            start + 2 * count <= b@.len() <= usize::MAX,
            k <= count,
            units@ == name_units(b@, o as int, *h).take(k as int),
        decreases count - k,
    {
        units.push(read_u16_le(b, start + 2 * k));
        assert(units@ =~= name_units(b@, o as int, *h).take(k + 1));
        k = k + 1;
    }
    assert(name_units(b@, o as int, *h).take(count as int) =~= name_units(b@, o as int, *h));
    units
}

/// A distance that never goes below zero, for termination measures.
pub open spec fn remaining(n: int, o: int) -> nat {
    if o <= n {
        (n - o) as nat
    } else {
        0
    }
}

// ---------------------------------------------------------------------------
// Master file table enumeration
// ---------------------------------------------------------------------------

/// A file found by an enumeration of the master file table.
#[derive(Debug)]
pub struct MftRecord {
    pub file_ref: u64,
    pub parent_ref: u64,
    pub name: String,
    pub attributes: u32,
}

impl MftRecord {
    /// The fields as plain values: reference, parent, name, attributes.
    pub open spec fn fields(&self) -> (u64, u64, Seq<char>, u32) {
        (self.file_ref, self.parent_ref, self.name@, self.attributes)
    }
}

/// The record at `o` names a file worth indexing: its name lies inside the
/// buffer, it is not a directory, and its name does not start with `$`
/// (the NTFS metadata files).
pub open spec fn indexable(b: Seq<u8>, o: int, h: UsnRecordHeader) -> bool {
    &&& name_fits(b.len() as int, o, h)
    &&& h.file_attributes & FILE_ATTRIBUTE_DIRECTORY == 0
    &&& !starts_with_char(utf16_lossy(name_units(b, o, h)), '$')
}

/// The files of an enumeration buffer from byte `o` on, and the reference
/// to resume the enumeration from (that of the last record read, or
/// `start` if none is read).  Reading stops at a record of length zero or
/// when fewer than a header's worth of bytes remain.
pub open spec fn mft_batch(b: Seq<u8>, o: int, start: u64) -> (Seq<(u64, u64, Seq<char>, u32)>, u64)
    decreases remaining(b.len() as int, o),
{
    if o < 0 || o + USN_RECORD_SIZE > b.len() {
        (Seq::empty(), start)
    } else {
        let h = header_at(b, o);
        if h.record_length == 0 {
            (Seq::empty(), start)
        } else {
            let rest = mft_batch(b, o + h.record_length, h.file_reference_number);
            if indexable(b, o, h) {
                (
                    seq![(h.file_reference_number, h.parent_file_reference_number, utf16_lossy(name_units(b, o, h)), h.file_attributes)]
                        + rest.0,
                    rest.1,
                )
            } else {
                rest
            }
        }
    }
}

/// The files found in one buffer of a master-file-table enumeration, and
/// the reference from which the next request resumes.
pub struct MftBatch {
    pub records: Vec<MftRecord>,
    pub next_start: u64,
}

/// Parse one buffer returned by a master-file-table enumeration request:
/// `data` holds the bytes the request returned, `start` the reference the
/// request started from.
pub fn parse_mft_batch(data: &[u8], start: u64) -> (r: MftBatch)
    ensures
        r.records@.map_values(|x: MftRecord| x.fields()) == mft_batch(data@, BUFFER_HEADER_SIZE as int, start).0,
        r.next_start == mft_batch(data@, BUFFER_HEADER_SIZE as int, start).1,
{
    let n = data.len();
    let ghost whole = mft_batch(data@, BUFFER_HEADER_SIZE as int, start);
    let mut records: Vec<MftRecord> = Vec::new();
    let mut offset: usize = BUFFER_HEADER_SIZE;
    let mut next_start: u64 = start;
    let mut done = false;
    while !done
        invariant
            n == data@.len(),
            !done ==> whole.0 == records@.map_values(|x: MftRecord| x.fields()) + mft_batch(
                data@,
                offset as int,
                next_start,
            ).0,
            !done ==> whole.1 == mft_batch(data@, offset as int, next_start).1,
            done ==> whole.0 == records@.map_values(|x: MftRecord| x.fields()),
            done ==> whole.1 == next_start,
        decreases remaining(n as int, offset as int) + (if done { 0int } else { 1int }),
    {
        if offset > n || n - offset < USN_RECORD_SIZE {
            assert(records@.map_values(|x: MftRecord| x.fields()) + Seq::empty() =~= records@.map_values(
                |x: MftRecord| x.fields(),
            ));
            done = true;
        } else {
            let h = read_header(data, offset);
            if h.record_length == 0 {
                assert(records@.map_values(|x: MftRecord| x.fields()) + Seq::empty() =~= records@.map_values(
                    |x: MftRecord| x.fields(),
                ));
                done = true;
            } else {
                let ghost rest = mft_batch(data@, offset + h.record_length, h.file_reference_number);
                let ghost before = records@.map_values(|x: MftRecord| x.fields());
                let fits = (h.file_name_offset as usize) <= n - offset && (h.file_name_length as usize)
                    <= n - offset - (h.file_name_offset as usize);
                if fits {
                    let units = read_name_units(data, offset, &h);
                    let name = from_utf16_lossy(units.as_slice());
                    let is_directory = (h.file_attributes & FILE_ATTRIBUTE_DIRECTORY) != 0;
                    if !is_directory && !first_char_is(name.as_str(), '$') {
                        records.push(
                            MftRecord {
                                file_ref: h.file_reference_number,
                                parent_ref: h.parent_file_reference_number,
                                name,
                                attributes: h.file_attributes,
                            },
                        );
                        assert(records@.map_values(|x: MftRecord| x.fields()) =~= before.push(
                            records@[records@.len() - 1].fields(),
                        ));
                    }
                }
                next_start = h.file_reference_number;
                assert(whole.0 == records@.map_values(|x: MftRecord| x.fields()) + rest.0);
                if (h.record_length as usize) > n - offset {
                    assert(mft_batch(data@, offset + h.record_length, h.file_reference_number).0 =~= Seq::<
                        (u64, u64, Seq<char>, u32),
                    >::empty());
                    assert(records@.map_values(|x: MftRecord| x.fields()) + Seq::empty()
                        =~= records@.map_values(|x: MftRecord| x.fields()));
                    done = true;
                } else {
                    offset = offset + h.record_length as usize;
                }
            }
        }
    }
    MftBatch { records, next_start }
}

// ---------------------------------------------------------------------------
// Journal reads
// ---------------------------------------------------------------------------

/// The kind of change a journal record reports.
#[derive(Debug, Clone, Copy, PartialEq, Eq)]
pub enum ChangeKind {
    Created,
    Deleted,
    Renamed,
}

/// The change a reason mask reports: creation first, then deletion, then
/// a rename to a new name.
pub open spec fn change_kind(reason: u32) -> Option<ChangeKind> {
    if reason & USN_REASON_FILE_CREATE != 0 {
        Some(ChangeKind::Created)
    } else if reason & USN_REASON_FILE_DELETE != 0 {
        Some(ChangeKind::Deleted)
    } else if reason & USN_REASON_RENAME_NEW_NAME != 0 {
        Some(ChangeKind::Renamed)
    } else {
        None
    }
}

/// Classify a reason mask.
pub fn classify_reason(reason: u32) -> (r: Option<ChangeKind>)
    ensures
        r == change_kind(reason),
{
    if reason & USN_REASON_FILE_CREATE != 0 {
        Some(ChangeKind::Created)
    } else if reason & USN_REASON_FILE_DELETE != 0 {
        Some(ChangeKind::Deleted)
    } else if reason & USN_REASON_RENAME_NEW_NAME != 0 {
        Some(ChangeKind::Renamed)
    } else {
        None
    }
}

/// A change reported by the journal: its kind, the file name, the file's
/// reference, its parent's reference and its attributes.
#[derive(Debug)]
pub struct UsnChange {
    pub kind: ChangeKind,
    pub name: String,
    pub file_ref: u64,
    pub parent_ref: u64,
    pub attributes: u32,
}

impl UsnChange {
    /// The fields as plain values.
    pub open spec fn fields(&self) -> (ChangeKind, Seq<char>, u64, u64, u32) {
        (self.kind, self.name@, self.file_ref, self.parent_ref, self.attributes)
    }
}

/// The changes reported by a journal buffer from byte `o` on (kind, name,
/// reference, parent reference, attributes), and the
/// position of the last record read (or `next_usn` if none is read).  A
/// record whose name does not lie inside the buffer reports nothing.
pub open spec fn journal_batch(b: Seq<u8>, o: int, next_usn: i64) -> (
    Seq<(ChangeKind, Seq<char>, u64, u64, u32)>,
    i64,
)
    decreases remaining(b.len() as int, o),
{
    if o < 0 || o + USN_RECORD_SIZE > b.len() {
        (Seq::empty(), next_usn)
    } else {
        let h = header_at(b, o);
        if h.record_length == 0 {
            (Seq::empty(), next_usn)
        } else {
            let rest = journal_batch(b, o + h.record_length, h.usn);
            if name_fits(b.len() as int, o, h) && change_kind(h.reason) is Some {
                (
                    seq![
                        (
                            change_kind(h.reason)->0,
                            utf16_lossy(name_units(b, o, h)),
                            h.file_reference_number,
                            h.parent_file_reference_number,
                            h.file_attributes,
                        ),
                    ] + rest.0,
                    rest.1,
                )
            } else {
                rest
            }
        }
    }
}

/// The changes read from one journal buffer, and the journal position to
/// read from next.
pub struct JournalBatch {
    pub changes: Vec<UsnChange>,
    pub next_usn: i64,
}

/// Process the records of one buffer read from the change journal:
/// `data` holds the bytes the read returned, `next_usn` the position the
/// monitor held before.
pub fn process_usn_records(data: &[u8], next_usn: i64) -> (r: JournalBatch)
    ensures
        r.changes@.map_values(|x: UsnChange| x.fields()) == journal_batch(data@, BUFFER_HEADER_SIZE as int, next_usn).0,
        r.next_usn == journal_batch(data@, BUFFER_HEADER_SIZE as int, next_usn).1,
{
    let n = data.len();
    let ghost whole = journal_batch(data@, BUFFER_HEADER_SIZE as int, next_usn);
    let mut changes: Vec<UsnChange> = Vec::new();
    let mut offset: usize = BUFFER_HEADER_SIZE;
    let mut position: i64 = next_usn;
    let mut done = false;
    while !done
        invariant
            n == data@.len(),
            !done ==> whole.0 == changes@.map_values(|x: UsnChange| x.fields()) + journal_batch(
                data@,
                offset as int,
                position,
            ).0,
            !done ==> whole.1 == journal_batch(data@, offset as int, position).1,
            done ==> whole.0 == changes@.map_values(|x: UsnChange| x.fields()),
            done ==> whole.1 == position,
        decreases remaining(n as int, offset as int) + (if done { 0int } else { 1int }),
    {
        if offset > n || n - offset < USN_RECORD_SIZE {
            assert(changes@.map_values(|x: UsnChange| x.fields()) + Seq::empty() =~= changes@.map_values(
                |x: UsnChange| x.fields(),
            ));
            done = true;
        } else {
            let h = read_header(data, offset);
            if h.record_length == 0 {
                assert(changes@.map_values(|x: UsnChange| x.fields()) + Seq::empty() =~= changes@.map_values(
                    |x: UsnChange| x.fields(),
                ));
                done = true;
            } else {
                let ghost rest = journal_batch(data@, offset + h.record_length, h.usn);
                let ghost before = changes@.map_values(|x: UsnChange| x.fields());
                position = h.usn;
                let fits = (h.file_name_offset as usize) <= n - offset && (h.file_name_length as usize)
                    <= n - offset - (h.file_name_offset as usize);
                if fits {
                    let units = read_name_units(data, offset, &h);
                    let name = from_utf16_lossy(units.as_slice());
                    match classify_reason(h.reason) {
                        Some(kind) => {
                            changes.push(
                                UsnChange {
                                    kind,
                                    name,
                                    file_ref: h.file_reference_number,
                                    parent_ref: h.parent_file_reference_number,
                                    attributes: h.file_attributes,
                                },
                            );
                            assert(changes@.map_values(|x: UsnChange| x.fields()) =~= before.push(
                                changes@[changes@.len() - 1].fields(),
                            ));
                        },
                        None => {},
                    }
                }
                assert(whole.0 == changes@.map_values(|x: UsnChange| x.fields()) + rest.0);
                if (h.record_length as usize) > n - offset {
                    assert(journal_batch(data@, offset + h.record_length, h.usn).0 =~= Seq::<
                        (ChangeKind, Seq<char>, u64, u64, u32),
                    >::empty());
                    assert(changes@.map_values(|x: UsnChange| x.fields()) + Seq::empty()
                        =~= changes@.map_values(|x: UsnChange| x.fields()));
                    done = true;
                } else {
                    offset = offset + h.record_length as usize;
                }
            }
        }
    }
    JournalBatch { changes, next_usn: position }
}

// ---------------------------------------------------------------------------
// Laws
// ---------------------------------------------------------------------------

/// A record of an enumeration buffer that is not a directory, whose name lies
/// inside the buffer and does not begin with `$`, is returned first, with
/// its reference, parent, name and attributes, whatever else its name holds;
/// the enumeration then goes on after it.
pub proof fn law_mft_file_is_returned(b: Seq<u8>, o: int, start: u64)
    requires
        0 <= o,
        o + USN_RECORD_SIZE <= b.len(),
        header_at(b, o).record_length != 0,
        o + header_at(b, o).file_name_offset + header_at(b, o).file_name_length <= b.len(),
        header_at(b, o).file_attributes & 0x10 == 0,
        !(utf16_lossy(name_units(b, o, header_at(b, o))).len() > 0 && utf16_lossy(
            name_units(b, o, header_at(b, o)),
        )[0] == '$'),
    ensures
        mft_batch(b, o, start).0.len() >= 1,
        mft_batch(b, o, start).0[0] == (
            header_at(b, o).file_reference_number,
            header_at(b, o).parent_file_reference_number,
            utf16_lossy(name_units(b, o, header_at(b, o))),
            header_at(b, o).file_attributes,
        ),
        mft_batch(b, o, start).0.skip(1) == mft_batch(
            b,
            o + header_at(b, o).record_length,
            header_at(b, o).file_reference_number,
        ).0,
{
    let h = header_at(b, o);
    let rest = mft_batch(b, o + h.record_length, h.file_reference_number);
    assert(mft_batch(b, o, start).0 == seq![
        (h.file_reference_number, h.parent_file_reference_number, utf16_lossy(name_units(b, o, h)), h.file_attributes),
    ] + rest.0);
    assert((seq![
        (h.file_reference_number, h.parent_file_reference_number, utf16_lossy(name_units(b, o, h)), h.file_attributes),
    ] + rest.0).skip(1) =~= rest.0);
}

/// A directory record, or one whose name begins with `$` (the NTFS metadata
/// files), is passed over: the files returned are those after it.
pub proof fn law_mft_skips_directories_and_metadata(b: Seq<u8>, o: int, start: u64)
    requires
        0 <= o,
        o + USN_RECORD_SIZE <= b.len(),
        header_at(b, o).record_length != 0,
        header_at(b, o).file_attributes & 0x10 != 0 || (utf16_lossy(
            name_units(b, o, header_at(b, o)),
        ).len() > 0 && utf16_lossy(name_units(b, o, header_at(b, o)))[0] == '$'),
    ensures
        mft_batch(b, o, start) == mft_batch(
            b,
            o + header_at(b, o).record_length,
            header_at(b, o).file_reference_number,
        ),
{
}

/// A reason mask with the creation bit is a creation; without it, one with
/// the deletion bit is a deletion; without both, one with the rename bit is
/// a rename; a mask with none of the three is not reported.  Other bits
/// (such as the close bit that ends every journal entry) do not matter.
pub proof fn law_reason_classes(reason: u32)
    ensures
        reason & 0x100 != 0 ==> change_kind(reason) == Some(ChangeKind::Created),
        reason & 0x100 == 0 && reason & 0x200 != 0 ==> change_kind(reason) == Some(
            ChangeKind::Deleted,
        ),
        reason & 0x100 == 0 && reason & 0x200 == 0 && reason & 0x2000 != 0 ==> change_kind(reason)
            == Some(ChangeKind::Renamed),
        reason & 0x100 == 0 && reason & 0x200 == 0 && reason & 0x2000 == 0 ==> change_kind(
            reason,
        ) is None,
        change_kind(reason | 0x8000_0000) == change_kind(reason),
{
    assert((reason | 0x8000_0000) & 0x100 == reason & 0x100) by (bit_vector);
    assert((reason | 0x8000_0000) & 0x200 == reason & 0x200) by (bit_vector);
    assert((reason | 0x8000_0000) & 0x2000 == reason & 0x2000) by (bit_vector);
}

/// A journal record whose name lies inside the buffer and whose reason is a
/// creation, deletion or rename is reported first, with its kind, name,
/// reference, parent and attributes, and the position moves to its USN;
/// reading then goes on after it.
pub proof fn law_journal_record_is_reported(b: Seq<u8>, o: int, next_usn: i64)
    requires
        0 <= o,
        o + USN_RECORD_SIZE <= b.len(),
        header_at(b, o).record_length != 0,
        o + header_at(b, o).file_name_offset + header_at(b, o).file_name_length <= b.len(),
        header_at(b, o).reason & 0x300 != 0 || header_at(b, o).reason & 0x2000 != 0,
    ensures
        journal_batch(b, o, next_usn).0.len() >= 1,
        journal_batch(b, o, next_usn).0[0].1 == utf16_lossy(name_units(b, o, header_at(b, o))),
        journal_batch(b, o, next_usn).0[0].2 == header_at(b, o).file_reference_number,
        journal_batch(b, o, next_usn).0[0].3 == header_at(b, o).parent_file_reference_number,
        journal_batch(b, o, next_usn).0[0].4 == header_at(b, o).file_attributes,
        journal_batch(b, o, next_usn).0[0].0 == change_kind(header_at(b, o).reason)->0,
        journal_batch(b, o, next_usn).0.skip(1) == journal_batch(
            b,
            o + header_at(b, o).record_length,
            header_at(b, o).usn,
        ).0,
{
    let h = header_at(b, o);
    let r = h.reason;
    assert(r & 0x300 != 0 ==> r & 0x100 != 0 || r & 0x200 != 0) by (bit_vector);
    law_reason_classes(r);
    let rest = journal_batch(b, o + h.record_length, h.usn);
    let c = (
        change_kind(h.reason)->0,
        utf16_lossy(name_units(b, o, h)),
        h.file_reference_number,
        h.parent_file_reference_number,
        h.file_attributes,
    );
    assert(journal_batch(b, o, next_usn).0 == seq![c] + rest.0);
    assert((seq![c] + rest.0).skip(1) =~= rest.0);
}

} // verus!
