//! ZIP archives: the end-of-central-directory record, central-directory
//! records, local file headers, and the listing of an archive's entries.
//!
//! Reading bytes from the file is left to the caller; everything here works on
//! bytes already read.

use vstd::prelude::*;
use crate::error::ArchiveError;
use crate::list::{
    has_dot_dot, normalized, views, ArchiveList, DirEntry, EntryView,
};
use crate::monitor::Monitor;
use crate::order::{FileType, SEP};

verus! {

/// Length of the end-of-central-directory record.
pub const EOCD_LEN: usize = 22;

/// Length of the fixed part of a central-directory record.
pub const RECORD_LEN: usize = 46;

/// Length of the fixed part of a local file header.
pub const LOCAL_HEADER_LEN: usize = 30;

/// The largest total of uncompressed bytes an archive may hold: 4 GiB less one.
pub const MAX_TOTAL: u64 = 0xffff_ffff;

/// Little-endian 16-bit integer at `i`.
pub open spec fn le16(b: Seq<u8>, i: int) -> int {
    b[i] + 256 * b[i + 1]
}

/// Little-endian 32-bit integer at `i`.
pub open spec fn le32(b: Seq<u8>, i: int) -> int {
    b[i] + 256 * b[i + 1] + 65536 * b[i + 2] + 16777216 * b[i + 3]
}

/// The signature `P K hi lo` at the start of `b`.
pub open spec fn signature(b: Seq<u8>, hi: u8, lo: u8) -> bool {
    b[0] == 0x50 && b[1] == 0x4b && b[2] == hi && b[3] == lo
}

fn read16(b: &[u8], i: usize) -> (r: u16)
    requires
        i + 2 <= b@.len(),
    ensures
        r == le16(b@, i as int),
{
    b[i] as u16 + 256 * b[i + 1] as u16
}

fn read32(b: &[u8], i: usize) -> (r: u32)
    requires
        i + 4 <= b@.len(),
    ensures
        r == le32(b@, i as int),
{
    b[i] as u32 + 256 * b[i + 1] as u32 + 65536 * b[i + 2] as u32 + 16777216 * b[i + 3] as u32
}

fn has_signature(b: &[u8], hi: u8, lo: u8) -> (r: bool)
    requires
        4 <= b@.len(),
    ensures
        r == signature(b@, hi, lo),
{
    b[0] == 0x50 && b[1] == 0x4b && b[2] == hi && b[3] == lo
}

/// Where the central directory lies, from the end-of-central-directory record.
#[derive(Clone, Copy, Debug, PartialEq, Eq, Structural)]
pub struct ZipDirectory {
    pub num_records: usize,
    pub record_size: usize,
    pub record_offset: u64,
}

/// Parses the last 22 bytes of a ZIP file.
pub fn parse_eocd(data: &[u8]) -> (r: Result<ZipDirectory, ArchiveError>)
    ensures
        r == (if data@.len() != 22 || !signature(data@, 5, 6) {
            Err(ArchiveError::InvalidEocd)
        } else if le16(data@, 4) != 0 || le16(data@, 6) != 0 || le16(data@, 8) != le16(data@, 10) {
            Err(ArchiveError::MultipleDisks)
        } else {
            Ok(
                ZipDirectory {
                    num_records: le16(data@, 10) as usize,
                    record_size: le32(data@, 12) as usize,
                    record_offset: le32(data@, 16) as u64,
                },
            )
        }),
{
    if data.len() != EOCD_LEN || !has_signature(data, 5, 6) {
        return Err(ArchiveError::InvalidEocd);
    }
    if read16(data, 4) != 0 || read16(data, 6) != 0 || read16(data, 8) != read16(data, 10) {
        return Err(ArchiveError::MultipleDisks);
    }
    Ok(
        ZipDirectory {
            num_records: read16(data, 10) as usize,
            record_size: read32(data, 12) as usize,
            record_offset: read32(data, 16) as u64,
        },
    )
}

/// One member of the central directory.
pub struct ZipRecord {
    pub time: u16,
    pub date: u16,
    pub crc: u32,
    pub deflate_size: u32,
    pub size: u32,
    pub offset: u32,
    pub attr: FileType,
    /// The member's name, without a trailing separator.
    pub name: Vec<u8>,
}

/// Length of the record at the start of `b`, variable parts included.
pub open spec fn record_len(b: Seq<u8>) -> int {
    46 + le16(b, 28) + le16(b, 30) + le16(b, 32)
}

/// The raw name of the record at the start of `b`.
pub open spec fn raw_name(b: Seq<u8>) -> Seq<u8> {
    b.subrange(46, 46 + le16(b, 28))
}

/// The name without one trailing separator.
pub open spec fn strip_slash(n: Seq<u8>) -> Seq<u8> {
    if n.len() > 0 && n.last() == SEP {
        n.drop_last()
    } else {
        n
    }
}

pub open spec fn all_ascii(n: Seq<u8>) -> bool {
    forall|i: int| 0 <= i < n.len() ==> n[i] < 0x80
}

/// The kind of the record at the start of `b`, from the low byte of its
/// external attributes.
pub open spec fn record_kind(b: Seq<u8>) -> FileType {
    if b[38] == 0x10 {
        FileType::Dir
    } else {
        FileType::File
    }
}

/// The first check that the record at the start of `b` fails, if any.
pub open spec fn record_fault(b: Seq<u8>) -> Option<ArchiveError> {
    if b.len() < 46 {
        Some(ArchiveError::TruncatedRecord)
    } else if !signature(b, 1, 2) {
        Some(ArchiveError::InvalidRecordHeader)
    } else if le16(b, 6) > 0x14 {
        Some(ArchiveError::UnsupportedRecord)
    } else if b[8] != 0 || b[9] != 0 {
        Some(ArchiveError::UnsupportedFlag)
    } else if !((b[10] == 0 || b[10] == 8) && b[11] == 0) {
        Some(ArchiveError::UnsupportedMethod)
    } else if b[34] != 0 || b[35] != 0 {
        Some(ArchiveError::InvalidRecordDisk)
    } else if le16(b, 36) > 1 {
        Some(ArchiveError::UnsupportedInternalAttributes)
    } else if b[38] != 0x10 && b[38] != 0x20 {
        Some(ArchiveError::UnknownFileType)
    } else if b.len() < record_len(b) {
        Some(ArchiveError::TruncatedName)
    } else if !all_ascii(raw_name(b)) {
        Some(ArchiveError::NonAsciiName)
    } else if has_dot_dot(raw_name(b)) {
        Some(ArchiveError::ParentPath)
    } else {
        None
    }
}

/// The fields of a record as read from its bytes.
pub open spec fn record_matches(r: ZipRecord, b: Seq<u8>) -> bool {
    &&& r.time == le16(b, 12)
    &&& r.date == le16(b, 14)
    &&& r.crc == le32(b, 16)
    &&& r.deflate_size == le32(b, 20)
    &&& r.size == le32(b, 24)
    &&& r.offset == le32(b, 42)
    &&& r.attr == record_kind(b)
    &&& r.name@ == strip_slash(raw_name(b))
}

/// A copy of a record's name, checked to be ASCII and to hold no `..`.
fn checked_name(raw: &[u8]) -> (r: Result<Vec<u8>, ArchiveError>)
    ensures
        r == (if !all_ascii(raw@) {
            Err(ArchiveError::NonAsciiName)
        } else if has_dot_dot(raw@) {
            Err(ArchiveError::ParentPath)
        } else {
            Ok(r->Ok_0)
        }),
        r matches Ok(n) ==> n@ == raw@,
{
    let mut i: usize = 0;
    let mut prev_dot = false;
    let mut dot_dot = false;
    let mut name: Vec<u8> = Vec::new();
    while i < raw.len()
        invariant
            i <= raw@.len(),
            name@ == raw@.take(i as int),
            forall|j: int| 0 <= j < i ==> raw@[j] < 0x80,
            prev_dot == (i > 0 && raw@[i - 1] == 0x2e),
            dot_dot == exists|j: int| 0 <= j && j + 1 < i && #[trigger] raw@[j] == 0x2e && raw@[j + 1] == 0x2e,
        decreases raw@.len() - i,
    {
        let c = raw[i];
        if c >= 0x80 {
            return Err(ArchiveError::NonAsciiName);
        }
        proof {
            if prev_dot && c == 0x2e {
                assert(raw@[i - 1] == 0x2e && raw@[(i - 1) + 1] == 0x2e);
            }
        }
        dot_dot = dot_dot || (prev_dot && c == 0x2e);
        prev_dot = c == 0x2e;
        name.push(c);
        proof {
            assert(name@ =~= raw@.take(i + 1));
        }
        i = i + 1;
    }
    proof {
        assert(name@ =~= raw@);
    }
    if dot_dot {
        return Err(ArchiveError::ParentPath);
    }
    Ok(name)
}

/// Parses the central-directory record that starts at `pos`, and gives the
/// position just past it.
pub fn parse_record(buf: &[u8], pos: usize) -> (r: Result<(ZipRecord, usize), ArchiveError>)
    requires
        pos <= buf@.len(),
    ensures
        ({
            let b = buf@.skip(pos as int);
            match r {
                Err(e) => record_fault(b) == Some(e),
                Ok((rec, next)) => {
                    &&& record_fault(b) is None
                    &&& record_matches(rec, b)
                    &&& next == pos + record_len(b)
                },
            }
        }),
{
    let ghost b = buf@.skip(pos as int);
    let d = &buf[pos..buf.len()];
    proof {
        assert(d@ =~= b);
    }
    if d.len() < RECORD_LEN {
        return Err(ArchiveError::TruncatedRecord);
    }
    if !has_signature(d, 1, 2) {
        return Err(ArchiveError::InvalidRecordHeader);
    }
    if read16(d, 6) > 0x14 {
        return Err(ArchiveError::UnsupportedRecord);
    }
    if d[8] != 0 || d[9] != 0 {
        return Err(ArchiveError::UnsupportedFlag);
    }
    if !((d[10] == 0 || d[10] == 8) && d[11] == 0) {
        return Err(ArchiveError::UnsupportedMethod);
    }
    if d[34] != 0 || d[35] != 0 {
        return Err(ArchiveError::InvalidRecordDisk);
    }
    if read16(d, 36) > 1 {
        return Err(ArchiveError::UnsupportedInternalAttributes);
    }
    let attr = if d[38] == 0x10 {
        FileType::Dir
    } else if d[38] == 0x20 {
        FileType::File
    } else {
        return Err(ArchiveError::UnknownFileType);
    };
    let name_len = read16(d, 28) as usize;
    let extra_len = read16(d, 30) as usize;
    let comment_len = read16(d, 32) as usize;
    let len = RECORD_LEN + name_len + extra_len + comment_len;
    if d.len() < len {
        return Err(ArchiveError::TruncatedName);
    }
    let raw = &d[RECORD_LEN..RECORD_LEN + name_len];
    proof {
        assert(raw@ =~= raw_name(b));
    }
    let mut name = match checked_name(raw) {
        Ok(n) => n,
        Err(e) => {
            return Err(e);
        },
    };
    if name.len() > 0 && name[name.len() - 1] == SEP {
        name.pop();
        proof {
            assert(name@ =~= raw@.drop_last());
        }
    }
    let rec = ZipRecord {
        time: read16(d, 12),
        date: read16(d, 14),
        crc: read32(d, 16),
        deflate_size: read32(d, 20),
        size: read32(d, 24),
        offset: read32(d, 42),
        attr,
        name,
    };
    Ok((rec, pos + len))
}

/// `i` is the position of the first separator in `n`.
pub open spec fn first_sep_at(n: Seq<u8>, i: int) -> bool {
    0 <= i < n.len() && n[i] == SEP && forall|j: int| 0 <= j < i ==> n[j] != SEP
}

/// For the first record of an archive whose name holds a separator, the
/// directory of its top segment, which the archive may not list itself.
pub open spec fn root_head(n: Seq<u8>, first: bool) -> Seq<EntryView> {
    if first && exists|i: int| first_sep_at(n, i) {
        let i = choose|i: int| first_sep_at(n, i);
        seq![(normalized(n.take(i)), FileType::Dir)]
    } else {
        Seq::empty()
    }
}

/// The entries that `n` records starting at the front of `b` list, or the
/// first error met: a faulty record, or a running total of uncompressed sizes
/// (starting from `total`) above `MAX_TOTAL`.
pub open spec fn zip_scan(b: Seq<u8>, n: nat, total: int, first: bool) -> Result<Seq<EntryView>, ArchiveError>
    decreases n,
{
    if n == 0 {
        Ok(Seq::empty())
    } else if record_fault(b) is Some {
        Err(record_fault(b)->0)
    } else if total + le32(b, 24) > MAX_TOTAL {
        Err(ArchiveError::TooLarge)
    } else {
        let name = strip_slash(raw_name(b));
        let here = root_head(name, first) + seq![(normalized(name), record_kind(b))];
        match zip_scan(b.skip(record_len(b)), (n - 1) as nat, total + le32(b, 24), false) {
            Ok(rest) => Ok(here + rest),
            Err(e) => Err(e),
        }
    }
}

pub open spec fn after(es: Seq<EntryView>, r: Result<Seq<EntryView>, ArchiveError>) -> Result<Seq<EntryView>, ArchiveError> {
    match r {
        Ok(rest) => Ok(es + rest),
        Err(e) => Err(e),
    }
}

proof fn lemma_no_dot_dot_take(n: Seq<u8>, i: int)
    requires
        !has_dot_dot(n),
        0 <= i <= n.len(),
    ensures
        !has_dot_dot(n.take(i)),
{
    if has_dot_dot(n.take(i)) {
        let j = choose|j: int| 0 <= j && j + 1 < n.take(i).len() && #[trigger] n.take(i)[j] == 0x2e && n.take(i)[j + 1] == 0x2e;
        assert(n[j] == 0x2e && n[j + 1] == 0x2e);
    }
}

/// Position of the first separator in `n`, if any.
fn find_sep(n: &[u8]) -> (r: Option<usize>)
    ensures
        r matches Some(i) ==> first_sep_at(n@, i as int),
        r is None ==> !exists|i: int| first_sep_at(n@, i),
{
    let mut i: usize = 0;
    while i < n.len()
        invariant
            i <= n@.len(),
            forall|j: int| 0 <= j < i ==> n@[j] != SEP,
        decreases n@.len() - i,
    {
        if n[i] == SEP {
            return Some(i);
        }
        i = i + 1;
    }
    proof {
        assert forall|j: int| !first_sep_at(n@, j) by {
            if 0 <= j < n@.len() {
                assert(n@[j] != SEP);
            }
        }
    }
    None
}

/// Lists the entries of the central directory held in `buf`: one per record,
/// plus the top directory of the first record's name. Checks `monitor` before
/// each record, and fails once the declared uncompressed sizes add up to more
/// than `MAX_TOTAL`, before anything is inflated.
pub fn list_records(dir: &ZipDirectory, buf: &[u8], monitor: &Monitor) -> (r: Result<ArchiveList, ArchiveError>)
    ensures
        r matches Ok(l) ==> zip_scan(buf@, dir.num_records as nat, 0, true) matches Ok(es) && {
            &&& l.wf()
            &&& l.offset() == 0
            &&& l.items().to_multiset() == es.to_multiset()
        },
        r matches Err(e) ==> e == ArchiveError::Canceled || zip_scan(buf@, dir.num_records as nat, 0, true) == Err::<Seq<EntryView>, ArchiveError>(e),
        dir.num_records == 0 ==> (r matches Ok(l) && l.items().len() == 0),
{
    let ghost whole = zip_scan(buf@, dir.num_records as nat, 0, true);
    let mut entries: Vec<DirEntry> = Vec::new();
    let mut pos: usize = 0;
    let mut total: u64 = 0;
    let mut first = true;
    let mut k: usize = 0;
    proof {
        assert(buf@.skip(0) =~= buf@);
        assert(views(entries@) + Seq::<EntryView>::empty() =~= Seq::<EntryView>::empty());
        assert(after(views(entries@), whole) == whole) by {
            if whole is Ok {
                assert(views(entries@) + whole->Ok_0 =~= whole->Ok_0);
            }
        }
    }
    while k < dir.num_records
        invariant
            whole == zip_scan(buf@, dir.num_records as nat, 0, true),
            k <= dir.num_records,
            pos <= buf@.len(),
            total <= MAX_TOTAL,
            whole == after(views(entries@), zip_scan(buf@.skip(pos as int), (dir.num_records - k) as nat, total as int, first)),
        decreases dir.num_records - k,
    {
        let ghost b = buf@.skip(pos as int);
        let ghost n = (dir.num_records - k) as nat;
        monitor.stopped()?;
        let (rec, next) = match parse_record(buf, pos) {
            Ok(p) => p,
            Err(e) => {
                return Err(e);
            },
        };
        if total + rec.size as u64 > MAX_TOTAL {
            return Err(ArchiveError::TooLarge);
        }
        let ghost e0 = views(entries@);
        let ghost name = rec.name@;
        proof {
            if raw_name(b).len() > 0 {
                lemma_no_dot_dot_take(raw_name(b), raw_name(b).len() - 1);
                assert(raw_name(b).take(raw_name(b).len() - 1) =~= raw_name(b).drop_last());
            }
        }
        if first {
            match find_sep(rec.name.as_slice()) {
                Some(i) => {
                    let top = &rec.name.as_slice()[0..i];
                    proof {
                        lemma_no_dot_dot_take(name, i as int);
                        assert(top@ =~= name.take(i as int));
                    }
                    entries.push(DirEntry::from_bytes(top, FileType::Dir));
                },
                None => {},
            }
        }
        entries.push(DirEntry::from_bytes(rec.name.as_slice(), rec.attr));
        proof {
            let here = root_head(name, first) + seq![(normalized(name), record_kind(b))];
            if first && exists|i: int| first_sep_at(name, i) {
                let c = choose|i: int| first_sep_at(name, i);
                assert forall|i: int| first_sep_at(name, i) implies i == c by {
                    if i < c {
                        assert(name[i] != SEP);
                    } else if i > c {
                        assert(name[c] != SEP);
                    }
                }
            }
            assert(views(entries@) =~= e0 + here);
            assert(b.skip(record_len(b)) =~= buf@.skip(next as int));
            let tail = zip_scan(buf@.skip(next as int), (n - 1) as nat, total + rec.size, false);
            if tail is Ok {
                assert(e0 + (here + tail->Ok_0) =~= (e0 + here) + tail->Ok_0);
            }
        }
        total = total + rec.size as u64;
        pos = next;
        first = false;
        k = k + 1;
    }
    proof {
        assert(views(entries@) + Seq::<EntryView>::empty() =~= views(entries@));
    }
    Ok(ArchiveList::new(entries))
}

/// The directory of a name's top segment: the bytes before its first
/// separator, when it has one.
pub fn top_segment(name: &[u8]) -> (r: Option<Vec<u8>>)
    ensures
        r matches Some(t) ==> exists|i: int| first_sep_at(name@, i) && t@ == name@.take(i),
        r is None <==> !exists|i: int| first_sep_at(name@, i),
{
    match find_sep(name) {
        Some(i) => {
            let mut t: Vec<u8> = Vec::new();
            let mut j: usize = 0;
            while j < i
                invariant
                    i < name@.len(),
                    j <= i,
                    t@ == name@.take(j as int),
                decreases i - j,
            {
                t.push(name[j]);
                proof {
                    assert(t@ =~= name@.take(j + 1));
                }
                j = j + 1;
            }
            Some(t)
        },
        None => None,
    }
}

/// What extracting one member creates before its contents.
pub struct ExtractStep {
    /// The top directory of the archive, made for its first member.
    pub make_root: Option<Vec<u8>>,
    /// The member is a directory, made instead of a file written.
    pub make_dir: bool,
}

/// The directories that extracting member `rec` creates: for the first
/// member of an archive, the top segment of its name, when it has one; and
/// the member itself when it is a directory.
pub fn extract_step(rec: &ZipRecord, first: bool) -> (r: ExtractStep)
    ensures
        r.make_dir == (rec.attr == FileType::Dir),
        r.make_root is Some <==> first && exists|i: int| first_sep_at(rec.name@, i),
        r.make_root matches Some(t) ==> exists|i: int| first_sep_at(rec.name@, i) && t@ == rec.name@.take(i),
{
    let make_root = if first { top_segment(rec.name.as_slice()) } else { None };
    ExtractStep { make_root, make_dir: rec.attr.is_dir() }
}

/// Adds `len` output bytes to a running total, failing past `MAX_TOTAL`.
pub fn add_to_total(total: u64, len: u64) -> (r: Result<u64, ArchiveError>)
    requires
        total <= MAX_TOTAL,
    ensures
        r == (if total + len > MAX_TOTAL {
            Err(ArchiveError::TooLarge)
        } else {
            Ok((total + len) as u64)
        }),
{
    if len > MAX_TOTAL - total {
        Err(ArchiveError::TooLarge)
    } else {
        Ok(total + len)
    }
}

/// Where a member's payload starts and how it is stored, from its local file
/// header.
#[derive(Clone, Copy, Debug, PartialEq, Eq, Structural)]
pub struct LocalData {
    pub data_offset: u64,
    pub stored: bool,
}

/// Checks the local file header of `rec`, the 30 bytes at its offset.
pub fn check_local_header(rec: &ZipRecord, header: &[u8]) -> (r: Result<LocalData, ArchiveError>)
    ensures
        r == (if header@.len() < 30 {
            Err(ArchiveError::TruncatedData)
        } else if !signature(header@, 3, 4) {
            Err(ArchiveError::InvalidFileHeader)
        } else if le16(header@, 8) != 0 && le16(header@, 8) != 8 {
            Err(ArchiveError::UnsupportedFileMethod)
        } else if le32(header@, 14) != rec.crc {
            Err(ArchiveError::CrcMismatch)
        } else {
            Ok(
                LocalData {
                    data_offset: (rec.offset + 30 + le16(header@, 26) + le16(header@, 28)) as u64,
                    stored: le16(header@, 8) == 0,
                },
            )
        }),
{
    if header.len() < LOCAL_HEADER_LEN {
        return Err(ArchiveError::TruncatedData);
    }
    if !has_signature(header, 3, 4) {
        return Err(ArchiveError::InvalidFileHeader);
    }
    let method = read16(header, 8);
    if method != 0 && method != 8 {
        return Err(ArchiveError::UnsupportedFileMethod);
    }
    if read32(header, 14) != rec.crc {
        return Err(ArchiveError::CrcMismatch);
    }
    let name_len = read16(header, 26) as u64;
    let extra_len = read16(header, 28) as u64;
    Ok(LocalData { data_offset: rec.offset as u64 + 30 + name_len + extra_len, stored: method == 0 })
}

/// What the raw DEFLATE stream `data` inflates to, written into a buffer of
/// `cap` bytes; None when the inflater fails.
pub uninterp spec fn inflated(data: Seq<u8>, cap: nat) -> Option<Seq<u8>>;

#[verifier::external_type_specification]
#[verifier::external_body]
pub struct ExTINFLStatus(miniz_oxide::inflate::TINFLStatus);

/// Relies on miniz_oxide::inflate::decompress_slice_iter_to_slice: inflates a
/// raw DEFLATE stream (no zlib header) into a buffer of `cap` bytes, giving the
/// bytes written or the inflater's status on failure.
#[verifier::external_body]
fn inflate_raw(data: &[u8], cap: usize) -> (r: Result<Vec<u8>, miniz_oxide::inflate::TINFLStatus>)
    ensures
        r is Ok <==> inflated(data@, cap as nat) is Some,
        r matches Ok(v) ==> inflated(data@, cap as nat) == Some(v@) && v@.len() <= cap,
{
    let mut out = vec![0u8; cap];
    match miniz_oxide::inflate::decompress_slice_iter_to_slice(&mut out, core::iter::once(data), false, true) {
        Ok(n) => {
            out.truncate(n);
            Ok(out)
        },
        Err(e) => Err(e),
    }
}

/// Accepts an inflater's output only when it has exactly the declared size.
pub fn check_inflated(size: u32, out: Option<Vec<u8>>) -> (r: Result<Vec<u8>, ArchiveError>)
    ensures
        r == (match out {
            Some(v) => if v@.len() == size {
                Ok(v)
            } else {
                Err(ArchiveError::InflateFailed)
            },
            None => Err(ArchiveError::InflateFailed),
        }),
{
    match out {
        Some(v) => {
            if v.len() == size as usize {
                Ok(v)
            } else {
                Err(ArchiveError::InflateFailed)
            }
        },
        None => Err(ArchiveError::InflateFailed),
    }
}

/// The contents of member `rec` from its payload: the payload itself when
/// stored, else the payload inflated, which must come to `rec.size` bytes.
pub fn unpack(rec: &ZipRecord, stored: bool, data: &[u8]) -> (r: Result<Vec<u8>, ArchiveError>)
    ensures
        data@.len() != rec.deflate_size ==> r == Err::<Vec<u8>, ArchiveError>(ArchiveError::TruncatedData),
        data@.len() == rec.deflate_size && stored ==> (r matches Ok(v) && v@ == data@),
        data@.len() == rec.deflate_size && !stored ==> match inflated(data@, rec.size as nat) {
            Some(v) => if v.len() == rec.size {
                r matches Ok(o) && o@ == v
            } else {
                r == Err::<Vec<u8>, ArchiveError>(ArchiveError::InflateFailed)
            },
            None => r == Err::<Vec<u8>, ArchiveError>(ArchiveError::InflateFailed),
        },
{
    if data.len() != rec.deflate_size as usize {
        return Err(ArchiveError::TruncatedData);
    }
    if stored {
        let mut out: Vec<u8> = Vec::new();
        let mut i: usize = 0;
        while i < data.len()
            invariant
                i <= data@.len(),
                out@ == data@.take(i as int),
            decreases data@.len() - i,
        {
            out.push(data[i]);
            proof {
                assert(out@ =~= data@.take(i + 1));
            }
            i = i + 1;
        }
        proof {
            assert(out@ =~= data@);
        }
        return Ok(out);
    }
    let out = match inflate_raw(data, rec.size as usize) {
        Ok(v) => Some(v),
        Err(_) => None,
    };
    check_inflated(rec.size, out)
}

} // verus!
