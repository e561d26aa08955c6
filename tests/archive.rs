use std::cmp::Ordering;

use modtide::archive::{check_archive, copy_targets, ArchiveView};
use modtide::error::ArchiveError;
use modtide::list::{ArchiveList, DirEntry, Prefix};
use modtide::monitor::Monitor;
use modtide::order::{entry_cmp_, FileType};
use modtide::order::FileType::{Dir, File};
use modtide::zip::{
    add_to_total, check_inflated, check_local_header, extract_step, list_records, parse_eocd, parse_record,
    unpack, MAX_TOTAL,
};

fn cmp(a: &str, ak: FileType, b: &str, bk: FileType) -> Ordering {
    entry_cmp_(a.as_bytes(), ak, b.as_bytes(), bk)
}

fn list_of(items: &[(&str, FileType)]) -> ArchiveList {
    let entries = items.iter().map(|(p, k)| DirEntry::new(p, *k)).collect();
    ArchiveList::new(entries)
}

fn names(list: &ArchiveList) -> Vec<(String, FileType, usize)> {
    list.iter()
        .into_iter()
        .map(|(n, k, d)| (String::from_utf8(n).unwrap(), k, d))
        .collect()
}

#[test]
fn comparator_orders_directories_first() {
    assert_eq!(cmp("a", Dir, "a/b", File), Ordering::Less);
    assert_eq!(cmp("a/b", File, "a", Dir), Ordering::Greater);
    assert_eq!(cmp("a", Dir, "z", File), Ordering::Less);
    assert_eq!(cmp("z", Dir, "a", File), Ordering::Less);
    assert_eq!(cmp("a/z", File, "b", File), Ordering::Less);
    assert_eq!(cmp("A/B", Dir, "a/b", Dir), Ordering::Equal);
    assert_eq!(cmp("a", Dir, "ab", Dir), Ordering::Less);
    assert_eq!(cmp("ab", Dir, "abc", Dir), Ordering::Less);
    assert_eq!(cmp("x", File, "x", Dir), Ordering::Greater);
    assert_eq!(cmp("x", File, "x/y", File), Ordering::Less);
}

#[test]
fn comparator_is_antisymmetric_and_transitive_on_samples() {
    let paths = [
        ("a", Dir), ("a/b", File), ("a/c", Dir), ("a/c/d", File), ("B", File),
        ("b2", Dir), ("b2/x", File), ("mods", Dir), ("Mods/q", File), ("z", File),
    ];
    for &(a, ak) in &paths {
        for &(b, bk) in &paths {
            assert_eq!(cmp(a, ak, b, bk), cmp(b, bk, a, ak).reverse());
            for &(c, ck) in &paths {
                if cmp(a, ak, b, bk) != Ordering::Greater && cmp(b, bk, c, ck) != Ordering::Greater {
                    assert_ne!(cmp(a, ak, c, ck), Ordering::Greater, "{a} {b} {c}");
                }
            }
        }
    }
}

#[test]
fn sorting_sorted_list_changes_nothing() {
    let once = list_of(&[("z", File), ("a/c", File), ("a", Dir), ("a/b", File)]);
    let first = names(&once);
    let again = list_of(&[("a", Dir), ("a/b", File), ("a/c", File), ("z", File)]);
    assert_eq!(first, names(&again));
    assert_eq!(first, vec![
        ("a".to_string(), Dir, 0),
        ("b".to_string(), File, 1),
        ("c".to_string(), File, 1),
        ("z".to_string(), File, 0),
    ]);
}

#[test]
fn directory_listing_returns_children() {
    let list = list_of(&[("a", Dir), ("a/b", File), ("a/c", File), ("z", File)]);
    let sub = list.list("a").unwrap();
    assert_eq!(names(&sub), vec![("b".to_string(), File, 0), ("c".to_string(), File, 0)]);
    assert!(list.list("z").is_none());
    assert!(list.list("q").is_none());
}

#[test]
fn nested_listing_moves_offset() {
    let list = list_of(&[("r", Dir), ("r/s", Dir), ("r/s/t.txt", File), ("r/u.txt", File)]);
    let r = list.list("r").unwrap();
    assert_eq!(r.len(), 3);
    let s = r.list("s").unwrap();
    assert_eq!(names(&s), vec![("t.txt".to_string(), File, 0)]);
    assert!(r.list("u.txt").is_none());
}

#[test]
fn compose_conflict_and_dedup() {
    let dir = list_of(&[("x", Dir)]);
    let file = list_of(&[("x", File)]);
    assert_eq!(ArchiveList::compose(vec![dir, file]).err(), Some(ArchiveError::Conflict));

    let one = list_of(&[("x", Dir)]);
    let two = list_of(&[("x", Dir), ("x/y", File)]);
    let merged = ArchiveList::compose(vec![one, two]).unwrap();
    assert_eq!(names(&merged), vec![("x".to_string(), Dir, 0), ("y".to_string(), File, 1)]);
}

#[test]
fn file_with_children_still_lists() {
    let entries = vec![DirEntry::new("x", FileType::File), DirEntry::new("x/y", FileType::File)];
    let list = ArchiveList::new(entries);
    assert_eq!(names(&list), vec![("y".to_string(), File, 1), ("x".to_string(), File, 0)]);
    let merged = ArchiveList::compose(vec![list_of(&[("x", File)]), list_of(&[("x/y", File)])]).unwrap();
    assert_eq!(merged.len(), 2);
    assert!(merged.list("x").is_none());
}

#[test]
fn compose_finds_distant_kind_conflict() {
    let a = list_of(&[("x", Dir), ("w", File)]);
    let b = list_of(&[("x", File)]);
    assert_eq!(ArchiveList::compose(vec![a, b]).err(), Some(ArchiveError::Conflict));
}

#[test]
fn empty_directory_lists_empty() {
    let list = list_of(&[("a", Dir), ("b", File)]);
    let sub = list.list("a").unwrap();
    assert_eq!(sub.len(), 0);
    assert_eq!(sub.consumed(), 2);
}

#[test]
fn backslashes_normalise() {
    let e = DirEntry::new("a\\b", FileType::File);
    assert_eq!(e.path(), b"a/b");
}

#[test]
fn prefix_routing_to_mods() {
    let mut l = list_of(&[("m", Dir), ("m/m.mod", File)]);
    Prefix::Mods.prepend(&mut l);
    assert_eq!(names(&l), vec![
        ("mods".to_string(), Dir, 0),
        ("m".to_string(), Dir, 1),
        ("m.mod".to_string(), File, 2),
    ]);

    let a = list_of(&[("m", Dir), ("m/m.mod", File)]);
    let b = list_of(&[("binaries", Dir)]);
    let view = ArchiveView::build(vec![a, b], vec![Prefix::Mods, Prefix::Root]).unwrap();
    let top = view.list();
    assert!(top.list("mods").is_some());
    assert!(top.list("binaries").is_some());
    assert!(top.list("m").is_none());
    assert_eq!(names(&top.list("mods").unwrap().list("m").unwrap()), vec![
        ("m.mod".to_string(), File, 0),
    ]);

    let targets = copy_targets(&vec![Prefix::Root, Prefix::Mods, Prefix::Mods]);
    assert!(!targets[0].into_mods && !targets[0].create_mods);
    assert!(targets[1].into_mods && targets[1].create_mods);
    assert!(targets[2].into_mods && !targets[2].create_mods);
}

#[test]
fn view_copies_once() {
    let a = list_of(&[("m", FileType::Dir)]);
    let mut view = ArchiveView::build(vec![a], vec![Prefix::Mods]).unwrap();
    assert!(!view.copied());
    let prefixes = view.begin_copy();
    assert_eq!(prefixes, vec![Prefix::Mods]);
    assert!(view.copied());
}

#[test]
fn canceled_monitor_stops_listing() {
    let monitor = Monitor::new();
    assert!(monitor.stopped().is_ok());
    monitor.cancel();
    assert_eq!(monitor.stopped(), Err(ArchiveError::Canceled));
    let zip = Zip::build(&[("a.txt", Member::Stored(b"hi"))]);
    let dir = parse_eocd(zip.trailer()).unwrap();
    assert_eq!(list_records(&dir, zip.central(&dir), &monitor).err(), Some(ArchiveError::Canceled));
}

enum Member<'a> {
    Dir,
    Stored(&'a [u8]),
    Deflated(&'a [u8]),
}

struct Zip {
    bytes: Vec<u8>,
}

impl Zip {
    fn build(members: &[(&str, Member)]) -> Zip {
        Zip::build_with_sizes(members, None)
    }

    fn build_with_sizes(members: &[(&str, Member)], declared: Option<u32>) -> Zip {
        let mut bytes = Vec::new();
        let mut central = Vec::new();
        for (i, (name, member)) in members.iter().enumerate() {
            let (method, data, size, attr): (u16, Vec<u8>, u32, u8) = match member {
                Member::Dir => (0, Vec::new(), 0, 0x10),
                Member::Stored(d) => (0, d.to_vec(), d.len() as u32, 0x20),
                Member::Deflated(d) => (
                    8,
                    miniz_oxide::deflate::compress_to_vec(d, 6),
                    d.len() as u32,
                    0x20,
                ),
            };
            let size = declared.unwrap_or(size);
            let crc = 0x1234_0000u32 + i as u32;
            let offset = bytes.len() as u32;
            bytes.extend_from_slice(&[0x50, 0x4b, 0x03, 0x04]);
            bytes.extend_from_slice(&20u16.to_le_bytes());
            bytes.extend_from_slice(&0u16.to_le_bytes());
            bytes.extend_from_slice(&method.to_le_bytes());
            bytes.extend_from_slice(&[0; 4]);
            bytes.extend_from_slice(&crc.to_le_bytes());
            bytes.extend_from_slice(&(data.len() as u32).to_le_bytes());
            bytes.extend_from_slice(&size.to_le_bytes());
            bytes.extend_from_slice(&(name.len() as u16).to_le_bytes());
            bytes.extend_from_slice(&0u16.to_le_bytes());
            bytes.extend_from_slice(name.as_bytes());
            bytes.extend_from_slice(&data);

            central.extend_from_slice(&[0x50, 0x4b, 0x01, 0x02]);
            central.extend_from_slice(&20u16.to_le_bytes());
            central.extend_from_slice(&20u16.to_le_bytes());
            central.extend_from_slice(&0u16.to_le_bytes());
            central.extend_from_slice(&method.to_le_bytes());
            central.extend_from_slice(&[0; 4]);
            central.extend_from_slice(&crc.to_le_bytes());
            central.extend_from_slice(&(data.len() as u32).to_le_bytes());
            central.extend_from_slice(&size.to_le_bytes());
            central.extend_from_slice(&(name.len() as u16).to_le_bytes());
            central.extend_from_slice(&0u16.to_le_bytes());
            central.extend_from_slice(&0u16.to_le_bytes());
            central.extend_from_slice(&0u16.to_le_bytes());
            central.extend_from_slice(&0u16.to_le_bytes());
            central.extend_from_slice(&[attr, 0, 0, 0]);
            central.extend_from_slice(&offset.to_le_bytes());
            central.extend_from_slice(name.as_bytes());
        }
        let central_offset = bytes.len() as u32;
        bytes.extend_from_slice(&central);
        bytes.extend_from_slice(&[0x50, 0x4b, 0x05, 0x06]);
        bytes.extend_from_slice(&[0; 4]);
        bytes.extend_from_slice(&(members.len() as u16).to_le_bytes());
        bytes.extend_from_slice(&(members.len() as u16).to_le_bytes());
        bytes.extend_from_slice(&(central.len() as u32).to_le_bytes());
        bytes.extend_from_slice(&central_offset.to_le_bytes());
        bytes.extend_from_slice(&0u16.to_le_bytes());
        Zip { bytes }
    }

    fn trailer(&self) -> &[u8] {
        &self.bytes[self.bytes.len() - 22..]
    }

    fn central(&self, dir: &modtide::zip::ZipDirectory) -> &[u8] {
        let start = dir.record_offset as usize;
        &self.bytes[start..start + dir.record_size]
    }
}

#[test]
fn zip_round_trip() {
    let zip = Zip::build(&[
        ("root/", Member::Dir),
        ("root/a.txt", Member::Stored(b"hi")),
        ("root/sub/b.txt", Member::Deflated(b"world")),
    ]);
    let dir = parse_eocd(zip.trailer()).unwrap();
    assert_eq!(dir.num_records, 3);
    let central = zip.central(&dir);
    let list = list_records(&dir, central, &Monitor::new()).unwrap();
    assert_eq!(names(&list), vec![
        ("root".to_string(), Dir, 0),
        ("b.txt".to_string(), File, 2),
        ("a.txt".to_string(), File, 1),
    ]);

    let mut pos = 0;
    let mut contents = Vec::new();
    for _ in 0..dir.num_records {
        let (rec, next) = parse_record(central, pos).unwrap();
        pos = next;
        if rec.attr.is_dir() {
            continue;
        }
        let start = rec.offset as usize;
        let local = check_local_header(&rec, &zip.bytes[start..start + 30]).unwrap();
        let from = local.data_offset as usize;
        let data = &zip.bytes[from..from + rec.deflate_size as usize];
        let out = unpack(&rec, local.stored, data).unwrap();
        contents.push((String::from_utf8(rec.name.clone()).unwrap(), out));
    }
    assert_eq!(contents, vec![
        ("root/a.txt".to_string(), b"hi".to_vec()),
        ("root/sub/b.txt".to_string(), b"world".to_vec()),
    ]);
}

#[test]
fn zip_synthesises_root_directory() {
    let zip = Zip::build(&[("pkg/a.txt", Member::Stored(b"x"))]);
    let dir = parse_eocd(zip.trailer()).unwrap();
    let list = list_records(&dir, zip.central(&dir), &Monitor::new()).unwrap();
    assert_eq!(names(&list), vec![
        ("pkg".to_string(), FileType::Dir, 0),
        ("a.txt".to_string(), FileType::File, 1),
    ]);
}

#[test]
fn zip_size_ceiling() {
    let zip = Zip::build_with_sizes(
        &[("a", Member::Stored(b"1")), ("b", Member::Stored(b"2"))],
        Some(0x8000_0000),
    );
    let dir = parse_eocd(zip.trailer()).unwrap();
    assert_eq!(
        list_records(&dir, zip.central(&dir), &Monitor::new()).err(),
        Some(ArchiveError::TooLarge)
    );
    assert_eq!(add_to_total(MAX_TOTAL - 1, 1), Ok(MAX_TOTAL));
    assert_eq!(add_to_total(MAX_TOTAL, 1), Err(ArchiveError::TooLarge));
}

#[test]
fn zip_rejects_bad_input() {
    assert_eq!(parse_eocd(&[0; 22]).err(), Some(ArchiveError::InvalidEocd));
    assert_eq!(parse_eocd(&[0x50, 0x4b, 5, 6]).err(), Some(ArchiveError::InvalidEocd));
    let mut multi = vec![0x50, 0x4b, 5, 6, 1, 0];
    multi.resize(22, 0);
    assert_eq!(parse_eocd(&multi).err(), Some(ArchiveError::MultipleDisks));

    let zip = Zip::build(&[("a", Member::Stored(b"1"))]);
    let dir = parse_eocd(zip.trailer()).unwrap();
    let central = zip.central(&dir).to_vec();
    let mut bad = central.clone();
    bad[0] = 0;
    assert_eq!(parse_record(&bad, 0).err(), Some(ArchiveError::InvalidRecordHeader));
    let mut bad = central.clone();
    bad[8] = 1;
    assert_eq!(parse_record(&bad, 0).err(), Some(ArchiveError::UnsupportedFlag));
    let mut bad = central.clone();
    bad[10] = 9;
    assert_eq!(parse_record(&bad, 0).err(), Some(ArchiveError::UnsupportedMethod));
    let mut bad = central.clone();
    bad[6] = 0x3f;
    assert_eq!(parse_record(&bad, 0).err(), Some(ArchiveError::UnsupportedRecord));
    let mut bad = central.clone();
    bad[34] = 1;
    assert_eq!(parse_record(&bad, 0).err(), Some(ArchiveError::InvalidRecordDisk));
    let mut bad = central.clone();
    bad[36] = 2;
    assert_eq!(parse_record(&bad, 0).err(), Some(ArchiveError::UnsupportedInternalAttributes));
    let mut bad = central.clone();
    bad[38] = 0x80;
    assert_eq!(parse_record(&bad, 0).err(), Some(ArchiveError::UnknownFileType));
    let mut bad = central.clone();
    bad[46] = 0xc3;
    assert_eq!(parse_record(&bad, 0).err(), Some(ArchiveError::NonAsciiName));
    assert_eq!(parse_record(&central[..40], 0).err(), Some(ArchiveError::TruncatedRecord));
    assert_eq!(parse_record(&central[..46], 0).err(), Some(ArchiveError::TruncatedName));

    let up = Zip::build(&[("../evil", Member::Stored(b"1"))]);
    let dir = parse_eocd(up.trailer()).unwrap();
    assert_eq!(parse_record(up.central(&dir), 0).err(), Some(ArchiveError::ParentPath));

    let (rec, _) = parse_record(&central, 0).unwrap();
    let mut header = zip.bytes[0..30].to_vec();
    header[14] ^= 1;
    assert_eq!(check_local_header(&rec, &header).err(), Some(ArchiveError::CrcMismatch));
    header[0] = 0;
    assert_eq!(check_local_header(&rec, &header).err(), Some(ArchiveError::InvalidFileHeader));
    assert_eq!(check_local_header(&rec, &zip.bytes[0..10]).err(), Some(ArchiveError::TruncatedData));
    assert_eq!(unpack(&rec, true, b"").err(), Some(ArchiveError::TruncatedData));
    assert_eq!(unpack(&rec, false, b"\xff").err(), Some(ArchiveError::InflateFailed));
    assert_eq!(check_inflated(2, Some(vec![1])).err(), Some(ArchiveError::InflateFailed));
    assert_eq!(check_inflated(1, Some(vec![1])), Ok(vec![1]));
    assert_eq!(check_inflated(1, None).err(), Some(ArchiveError::InflateFailed));
}

#[test]
fn layout_check_routes_sources() {
    let game = list_of(&[("mods", Dir), ("mods/x.txt", File)]);
    assert_eq!(check_archive("game", &game), Ok(Prefix::Root));
    let bins = list_of(&[("binaries", Dir)]);
    assert_eq!(check_archive("bins", &bins), Ok(Prefix::Root));
    let package = list_of(&[("m", Dir), ("m/m.mod", File), ("m/x.lua", File)]);
    assert_eq!(check_archive("m", &package), Ok(Prefix::Mods));
    let other = list_of(&[("m", Dir), ("m/n.mod", File)]);
    assert_eq!(check_archive("other", &other), Err(ArchiveError::UnknownLayout));
    let modfile = list_of(&[("mods", File)]);
    assert_eq!(check_archive("f", &modfile), Err(ArchiveError::UnknownLayout));
}

#[test]
fn view_reports_conflict_between_sources() {
    let a = list_of(&[("x", Dir)]);
    let b = list_of(&[("x", File)]);
    assert_eq!(ArchiveView::build(vec![a, b], vec![Prefix::Root, Prefix::Root]).err().map(|_| ()), Some(()));
    let a = list_of(&[("x", Dir)]);
    let b = list_of(&[("x", File)]);
    assert!(ArchiveView::build(vec![a, b], vec![Prefix::Mods, Prefix::Root]).is_ok());
}

#[test]
fn empty_central_directory_lists_nothing() {
    let zip = Zip::build(&[]);
    let dir = parse_eocd(zip.trailer()).unwrap();
    let list = list_records(&dir, zip.central(&dir), &Monitor::new()).unwrap();
    assert_eq!(list.len(), 0);
}

#[test]
fn deflated_member_inflates_exactly() {
    let zip = Zip::build(&[("a.txt", Member::Deflated(b"hello hello hello"))]);
    let dir = parse_eocd(zip.trailer()).unwrap();
    let (rec, _) = parse_record(zip.central(&dir), 0).unwrap();
    let local = check_local_header(&rec, &zip.bytes[0..30]).unwrap();
    assert!(!local.stored);
    let from = local.data_offset as usize;
    let data = &zip.bytes[from..from + rec.deflate_size as usize];
    assert_eq!(unpack(&rec, false, data).unwrap(), b"hello hello hello".to_vec());
}

#[test]
fn extraction_makes_root_for_first_member_only() {
    let zip = Zip::build(&[("pkg/a.txt", Member::Stored(b"x")), ("pkg/d/", Member::Dir)]);
    let dir = parse_eocd(zip.trailer()).unwrap();
    let central = zip.central(&dir);
    let (first, next) = parse_record(central, 0).unwrap();
    let step = extract_step(&first, true);
    assert_eq!(step.make_root, Some(b"pkg".to_vec()));
    assert!(!step.make_dir);
    let (second, _) = parse_record(central, next).unwrap();
    let step = extract_step(&second, false);
    assert_eq!(step.make_root, None);
    assert!(step.make_dir);
}
