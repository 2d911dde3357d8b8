//! Volumes: table records, enumerations, and the change journal.
use finder::mft::reader::{
    estimated_record_count, parse_segment, read_mft_record_size, scan_with_progress, stream_ranges,
    RangeScan, ScanResult,
};
use finder::mft::record::{apply_fixup, parse_file_record};
use finder::mft::types::{FileKind, IndexEvent, JournalCheckpoint, NtfsDrive};
use finder::mft::watcher::{JournalError, JournalState, SharedRun, UsnWatcher};

const SIZE: usize = 1024;

fn put(b: &mut [u8], at: usize, bytes: &[u8]) {
    b[at..at + bytes.len()].copy_from_slice(bytes);
}

/// A name attribute: its bytes.
fn name_attr(parent: u64, name: &str, namespace: u8) -> Vec<u8> {
    let units: Vec<u16> = name.encode_utf16().collect();
    let value = 66 + units.len() * 2;
    let len = (24 + value + 7) / 8 * 8;
    let mut a = vec![0u8; len];
    put(&mut a, 0, &0x30u32.to_le_bytes());
    put(&mut a, 4, &(len as u32).to_le_bytes());
    put(&mut a, 16, &(value as u32).to_le_bytes());
    put(&mut a, 20, &24u16.to_le_bytes());
    put(&mut a, 24, &parent.to_le_bytes());
    a[24 + 64] = units.len() as u8;
    a[24 + 65] = namespace;
    for (i, u) in units.iter().enumerate() {
        put(&mut a, 24 + 66 + i * 2, &u.to_le_bytes());
    }
    a
}

/// A record in use with these attributes, as it stands on the disk.
fn record(seq: u16, flags: u16, attrs: &[Vec<u8>]) -> Vec<u8> {
    let mut r = vec![0u8; SIZE];
    put(&mut r, 0, b"FILE");
    put(&mut r, 4, &48u16.to_le_bytes());
    put(&mut r, 6, &3u16.to_le_bytes());
    put(&mut r, 0x10, &seq.to_le_bytes());
    put(&mut r, 0x14, &56u16.to_le_bytes());
    put(&mut r, 0x16, &flags.to_le_bytes());
    let mut at = 56;
    for a in attrs {
        put(&mut r, at, a);
        at += a.len();
    }
    put(&mut r, at, &0xffff_ffffu32.to_le_bytes());
    // Sector ends: the true bytes go to the update array.
    put(&mut r, 48, &[0xaa, 0xbb]);
    for i in 1..3 {
        let end = i * 512 - 2;
        let (low, high) = (r[end], r[end + 1]);
        put(&mut r, 48 + i * 2, &[low, high]);
        put(&mut r, end, &[0xaa, 0xbb]);
    }
    r
}

fn name_of(scan: &ScanResult, i: usize) -> String {
    let r = &scan.records[i];
    let at = r.name_off as usize;
    String::from_utf16(&scan.name_data[at..at + r.name_len as usize]).unwrap()
}

#[test]
fn fixup_restores_sector_ends() {
    let plain = {
        let mut r = record(1, 1, &[]);
        put(&mut r, 510, &[7, 8]);
        put(&mut r, 1022, &[9, 10]);
        r
    };
    let mut disk = plain.clone();
    put(&mut disk, 50, &[7, 8]);
    put(&mut disk, 52, &[9, 10]);
    put(&mut disk, 510, &[0xaa, 0xbb]);
    put(&mut disk, 1022, &[0xaa, 0xbb]);
    let mut got = disk.clone();
    assert!(apply_fixup(&mut got, SIZE));
    assert_eq!(&got[510..512], &[7, 8]);
    assert_eq!(&got[1022..1024], &[9, 10]);
    // Nothing else changes.
    for i in 0..SIZE {
        if i % 512 < 510 {
            assert_eq!(got[i], disk[i]);
        }
    }
}

#[test]
fn fixup_refuses_torn_and_foreign_records() {
    let mut torn = record(1, 1, &[]);
    torn[1022] = 0;
    assert!(!apply_fixup(&mut torn, SIZE));
    let mut foreign = record(1, 1, &[]);
    put(&mut foreign, 0, b"BAAD");
    assert!(!apply_fixup(&mut foreign, SIZE));
    let mut none = record(1, 1, &[]);
    put(&mut none, 6, &1u16.to_le_bytes());
    assert!(!apply_fixup(&mut none, SIZE));
    let mut outside = record(1, 1, &[]);
    put(&mut outside, 4, &1022u16.to_le_bytes());
    assert!(!apply_fixup(&mut outside, SIZE));
    assert!(!apply_fixup(&mut vec![0u8; 47], 47));
}

#[test]
fn record_tells_its_best_name() {
    let mut r = record(
        7,
        3,
        &[name_attr(5, "POSIX", 0), name_attr(5, "DOS~1", 2), name_attr(6, "Windows", 1)],
    );
    assert!(apply_fixup(&mut r, SIZE));
    let mut scan = ScanResult::new();
    parse_file_record(&r, 42, &mut scan);
    assert_eq!(scan.records.len(), 1);
    assert_eq!(name_of(&scan, 0), "Windows");
    assert_eq!(scan.records[0].file_ref, 42 | (7 << 48));
    assert_eq!(scan.records[0].parent_ref, 6);
    assert!(scan.records[0].is_dir);
}

#[test]
fn first_of_equal_names_is_kept() {
    let mut r = record(0, 1, &[name_attr(1, "one", 3), name_attr(2, "two", 3)]);
    assert!(apply_fixup(&mut r, SIZE));
    let mut scan = ScanResult::new();
    parse_file_record(&r, 0, &mut scan);
    assert_eq!(name_of(&scan, 0), "one");
    assert!(!scan.records[0].is_dir);
}

#[test]
fn records_out_of_use_or_without_a_name_tell_nothing() {
    let mut scan = ScanResult::new();
    let mut free = record(0, 0, &[name_attr(1, "free", 1)]);
    assert!(apply_fixup(&mut free, SIZE));
    parse_file_record(&free, 0, &mut scan);
    let mut dos = record(0, 1, &[name_attr(1, "DOS~1", 2)]);
    assert!(apply_fixup(&mut dos, SIZE));
    parse_file_record(&dos, 1, &mut scan);
    assert!(scan.records.is_empty());
    assert!(scan.name_data.is_empty());
}

#[test]
fn segment_skips_what_is_no_record() {
    let mut buf = record(1, 1, &[name_attr(5, "a.txt", 1)]);
    buf.extend_from_slice(&[0u8; SIZE]);
    buf.extend_from_slice(&record(2, 3, &[name_attr(5, "dir", 1)]));
    buf.extend_from_slice(&[1, 2, 3]);
    let scan = parse_segment(&buf, SIZE, 100);
    assert_eq!(scan.records.len(), 2);
    assert_eq!(name_of(&scan, 0), "a.txt");
    assert_eq!(name_of(&scan, 1), "dir");
    assert_eq!(scan.records[0].file_ref, 100 | (1 << 48));
    assert_eq!(scan.records[1].file_ref, 102 | (2 << 48));
}

#[test]
fn pieces_of_any_size_give_the_same_scan() {
    let mut table = Vec::new();
    for i in 0..6u16 {
        table.extend_from_slice(&record(i, 1, &[name_attr(5, &format!("file{i}"), 1)]));
    }
    let whole = parse_segment(&table, SIZE, 0);
    for cut in [1, 100, 1024, 1500, 4000] {
        let mut range = RangeScan::new(0, 6, SIZE);
        for piece in table.chunks(cut) {
            assert!(range.read_record_range(piece));
        }
        assert_eq!(range.rec_index, 6);
        assert_eq!(range.scan.records.len(), whole.records.len());
        assert_eq!(range.scan.name_data, whole.name_data);
        for i in 0..6 {
            assert_eq!(range.scan.records[i].name_off, whole.records[i].name_off);
            assert_eq!(range.scan.records[i].file_ref, whole.records[i].file_ref);
        }
    }
}

#[test]
fn range_ends_where_the_next_begins() {
    let mut table = Vec::new();
    for i in 0..4u16 {
        table.extend_from_slice(&record(i, 1, &[name_attr(5, &format!("file{i}"), 1)]));
    }
    let mut range = RangeScan::new(10, 12, SIZE);
    assert!(!range.read_record_range(&table));
    assert_eq!(range.scan.records.len(), 2);
    assert_eq!(range.rec_index, 12);
}

#[test]
fn streams_cover_the_table() {
    assert_eq!(stream_ranges(5), vec![(0, 5)]);
    assert_eq!(stream_ranges(800_001), vec![(0, 400_001), (400_001, 800_001)]);
    let many = stream_ranges(10_000_000);
    assert_eq!(many.len(), 8);
    assert_eq!(many[0], (0, 1_250_000));
    assert_eq!(many[7], (8_750_000, 10_000_000));
}

#[test]
fn boot_sector_tells_the_record_size() {
    let mut boot = vec![0u8; 512];
    put(&mut boot, 3, b"NTFS");
    put(&mut boot, 0x0b, &512u16.to_le_bytes());
    boot[0x0d] = 8;
    boot[0x40] = 0xf6;
    assert_eq!(read_mft_record_size(&boot), Some(1024));
    boot[0x40] = 1;
    assert_eq!(read_mft_record_size(&boot), Some(4096));
    boot[0x40] = 0;
    assert_eq!(read_mft_record_size(&boot), Some(1));
    assert_eq!(read_mft_record_size(&boot[..511]), None);
    boot[3] = b'F';
    assert_eq!(read_mft_record_size(&boot), None);
    assert_eq!(estimated_record_count(10_240, Some(1024)), 10);
    assert_eq!(estimated_record_count(4096, None), 4);
}

/// A journal record: its bytes.
fn usn(file: u64, parent: u64, name: &str, reason: u32, dir: bool) -> Vec<u8> {
    let units: Vec<u16> = name.encode_utf16().collect();
    let len = (60 + units.len() * 2 + 7) / 8 * 8;
    let mut r = vec![0u8; len.max(64)];
    let total = r.len() as u32;
    put(&mut r, 0, &total.to_le_bytes());
    put(&mut r, 8, &file.to_le_bytes());
    put(&mut r, 16, &parent.to_le_bytes());
    put(&mut r, 40, &reason.to_le_bytes());
    put(&mut r, 52, &(if dir { 0x10u32 } else { 0x20 }).to_le_bytes());
    put(&mut r, 56, &(units.len() as u16 * 2).to_le_bytes());
    put(&mut r, 58, &60u16.to_le_bytes());
    for (i, u) in units.iter().enumerate() {
        put(&mut r, 60 + i * 2, &u.to_le_bytes());
    }
    r
}

fn answer(next: i64, records: &[Vec<u8>]) -> Vec<u8> {
    let mut b = next.to_le_bytes().to_vec();
    for r in records {
        b.extend_from_slice(r);
    }
    b
}

#[test]
fn enumeration_answers_add_up() {
    let mut scan = ScanResult::new();
    let first = answer(77, &[usn(1, 5, "Users", 0, true), usn(2, 1, "report.txt", 0, false)]);
    assert_eq!(scan_with_progress(&mut scan, &first), Some(77));
    let second = answer(90, &[usn(3, 1, "é.txt", 0, false)]);
    assert_eq!(scan_with_progress(&mut scan, &second), Some(90));
    assert_eq!(scan_with_progress(&mut scan, &[0; 8]), None);
    assert_eq!(scan.records.len(), 3);
    assert_eq!(name_of(&scan, 0), "Users");
    assert_eq!(name_of(&scan, 1), "report.txt");
    assert_eq!(name_of(&scan, 2), "é.txt");
    assert!(scan.records[0].is_dir);
    assert!(!scan.records[2].is_dir);
    assert_eq!(scan.records[2].parent_ref, 1);
}

#[test]
fn enumeration_stops_at_a_record_that_does_not_fit() {
    let mut bad = usn(2, 1, "bad", 0, false);
    put(&mut bad, 58, &4000u16.to_le_bytes());
    let b = answer(1, &[usn(1, 5, "good", 0, false), bad, usn(3, 5, "late", 0, false)]);
    let mut scan = ScanResult::new();
    assert_eq!(scan_with_progress(&mut scan, &b), Some(1));
    assert_eq!(scan.records.len(), 1);
}

fn drive() -> NtfsDrive {
    NtfsDrive {
        letter: 'C',
        root: "C:\\".to_string(),
        device_path: "\\\\.\\C:".to_string(),
    }
}

fn journal() -> JournalState {
    JournalState { journal_id: 9, first_usn: 100, next_usn: 500 }
}

fn at(next_usn: i64, journal_id: u64) -> Option<JournalCheckpoint> {
    Some(JournalCheckpoint { next_usn, journal_id, drive_letter: 'C' })
}

#[test]
fn journal_is_read_on_from_a_checkpoint_inside_it() {
    assert_eq!(UsnWatcher::new(&drive(), journal()).next_usn, 500);
    let w = UsnWatcher::new_from(&drive(), journal(), at(300, 9)).ok().unwrap();
    assert_eq!(w.checkpoint(), at(300, 9).unwrap());
    assert!(UsnWatcher::new_from(&drive(), journal(), None).is_ok());
    for edge in [100, 500] {
        assert!(UsnWatcher::new_from(&drive(), journal(), at(edge, 9)).is_ok());
    }
    let e = UsnWatcher::new_from(&drive(), journal(), at(300, 8)).err().unwrap();
    assert_eq!(e, JournalError::IdMismatch);
    assert_eq!(e.message(), "Journal ID mismatch — rescan needed");
    for outside in [99, 501] {
        let e = UsnWatcher::new_from(&drive(), journal(), at(outside, 9)).err().unwrap();
        assert_eq!(e, JournalError::OutsideRange);
        assert_eq!(e.message(), "Saved USN outside journal range — rescan needed");
    }
}

#[test]
fn journal_records_become_events() {
    let mut w = UsnWatcher::new(&drive(), journal());
    let b = answer(
        640,
        &[
            usn(1, 5, "new.txt", 0x100, false),
            usn(2, 5, "renamed", 0x2100, true),
            usn(3, 5, "gone.txt", 0x2300, false),
            usn(4, 5, "old name", 0x1000, false),
        ],
    );
    let p = w.poll(&Some(b));
    assert!(p.ok);
    assert_eq!(w.next_usn, 640);
    assert_eq!(p.events.len(), 3);
    match &p.events[0] {
        IndexEvent::Created { drive_letter, record } => {
            assert_eq!(*drive_letter, 'C');
            assert_eq!(record.name, "new.txt");
            assert_eq!((record.file_ref, record.parent_ref), (1, 5));
            assert_eq!(record.kind, FileKind::File);
        }
        _ => panic!("not created"),
    }
    match &p.events[1] {
        IndexEvent::Moved { file_ref, new_parent_ref, name, kind, .. } => {
            assert_eq!((*file_ref, *new_parent_ref), (2, 5));
            assert_eq!(name, "renamed");
            assert_eq!(*kind, FileKind::Directory);
        }
        _ => panic!("not moved"),
    }
    assert!(matches!(p.events[2], IndexEvent::Deleted { file_ref: 3, .. }));
}

#[test]
fn idle_and_failed_reads_leave_the_position() {
    let mut w = UsnWatcher::new(&drive(), journal());
    let idle = w.poll(&Some(vec![0; 8]));
    assert!(idle.ok && idle.events.is_empty());
    let failed = w.poll(&None);
    assert!(!failed.ok && failed.events.is_empty());
    assert_eq!(w.next_usn, 500);
    let (_, again) = w.drain(&Some(answer(-1, &[])));
    assert!(!again);
    let (p, again) = w.drain(&Some(answer(-7, &[usn(1, 5, "x", 0x100, false)])));
    assert!(again);
    assert_eq!(p.events.len(), 1);
    assert_eq!(w.next_usn, -7);
}

#[test]
fn journal_records_with_bad_names_are_passed_over() {
    let mut w = UsnWatcher::new(&drive(), journal());
    let mut long = usn(1, 5, "x", 0x100, false);
    put(&mut long, 56, &500u16.to_le_bytes());
    let mut short = usn(2, 5, "y", 0x100, false);
    put(&mut short, 0, &40u32.to_le_bytes());
    let b = answer(600, &[long, usn(3, 5, "z", 0x100, false), short]);
    assert_eq!(w.poll(&Some(b)).events.len(), 1);
}

#[test]
fn watcher_gives_up_after_eight_failures() {
    let mut w = UsnWatcher::new(&drive(), journal());
    let mut run = SharedRun::new();
    let first = run.run_shared(&mut w, &Some(vec![0; 8]));
    assert!(first.alive && !first.stop);
    assert_eq!(first.position, Some(w.checkpoint()));
    for _ in 0..7 {
        let r = run.run_shared(&mut w, &None);
        assert!(!r.alive && !r.stop);
        assert_eq!(r.position, None);
    }
    assert!(run.run_shared(&mut w, &None).stop);

    let mut run = SharedRun::new();
    for _ in 0..7 {
        run.run_shared(&mut w, &None);
    }
    assert!(run.run_shared(&mut w, &Some(vec![0; 8])).alive);
    assert!(!run.run_shared(&mut w, &None).stop);
    let moved = run.run_shared(&mut w, &Some(answer(777, &[usn(1, 5, "n", 0x100, false)])));
    assert_eq!(moved.events.len(), 1);
    assert_eq!(moved.position.unwrap().next_usn, 777);
}
