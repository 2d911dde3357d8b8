//! The index: scans, journal events and caches.
use finder::index::cache::{load_cache_file, save_cache, CacheData};
use finder::index::search::build_path;
use finder::index::store::{DriveRoot, IndexEntry, IndexStore};
use finder::mft::reader::{CompactRecord, ScanResult};
use finder::mft::types::{FileKind, FileRecord, IndexEvent, JournalCheckpoint, NtfsDrive};
use std::io::Write;


fn ntfs_drive(letter: char) -> NtfsDrive {
    NtfsDrive {
        letter,
        root: format!("{}:\\", letter),
        device_path: format!("\\\\.\\{}:", letter),
    }
}

fn scan_result(records: &[(u64, u64, &str, bool)]) -> ScanResult {
    let mut name_data = Vec::new();
    let mut recs = Vec::new();
    for &(file_ref, parent_ref, name, is_dir) in records {
        let off = name_data.len() as u32;
        let encoded: Vec<u16> = name.encode_utf16().collect();
        name_data.extend_from_slice(&encoded);
        recs.push(CompactRecord {
            file_ref,
            parent_ref,
            name_off: off,
            name_len: encoded.len() as u16,
            is_dir,
        });
    }
    ScanResult {
        records: recs,
        name_data,
    }
}

fn names(store: &IndexStore) -> Vec<String> {
    let mut v: Vec<String> = store.entries.iter().map(|e| store.name(e).to_string()).collect();
    v.sort_unstable();
    v
}

#[test]
fn parallel_populate_drops_junk_and_keeps_chains() {
    let mut store = IndexStore::new();
    store.populate_from_scan(
        scan_result(&[
            (1, 0, "Users", true),
            (10, 1, "Alice", true),
            (11, 10, "report.txt", false),
            (12, 10, "photo.PNG", false),
            (13, 0, "node_modules", true),
            (14, 13, "lodash.js", false),
            (15, 0, "Temp", true),
            (16, 15, "cache.tmp", false),
        ]),
        &ntfs_drive('C'),
    );
    store.finalize();

    // 6 survive: Users, Alice, report.txt, photo.PNG, node_modules, Temp
    assert_eq!(
        names(&store),
        vec!["Alice", "Temp", "Users", "node_modules", "photo.PNG", "report.txt"]
    );
    // parent chains survived the chunked merge
    let report = store
        .entries
        .iter()
        .find(|e| store.name(e) == "report.txt")
        .unwrap();
    let pidx = store.lookup_idx(0, report.parent_ref).unwrap();
    assert_eq!(store.name(&store.entries[pidx as usize]), "Alice");

    // Pruned subtree members are remembered (live journal re-entries are
    // filtered through junk_refs), but surviving junk ROOT dirs are not.
    assert!(store.junk_refs[0].contains(&14)); // lodash.js under node_modules
    assert!(store.junk_refs[0].contains(&16)); // cache.tmp under Temp
    assert!(!store.junk_refs[0].contains(&13)); // node_modules itself kept
}

#[test]
fn populate_stamps_depth_and_user_path() {
    // The scan sweep stamps depth + user-folder metadata in
    // the same ancestor walk that prunes junk, using a root directory
    // record like the real MFT (parent == self), so counts equal the
    // number of separators in the full path.
    let mut store = IndexStore::new();
    store.populate_from_scan(
        scan_result(&[
            (5, 5, "", true),                 // C:\ root
            (1, 5, "Users", true),
            (10, 1, "Alice", true),
            (11, 10, "report.txt", false),
            (20, 5, "dev", true),
            (21, 20, "deep", true),
            (22, 21, "root_like.py", false),
            (30, 50, "orphan.txt", false),    // parent absent from the scan
        ]),
        &ntfs_drive('C'),
    );
    store.finalize();

    fn meta(s: &IndexStore, name: &str) -> (u8, u8) {
        let e = s.entries.iter().find(|e| s.name(e) == name).unwrap();
        (e.depth, e.user_path)
    }
    assert_eq!(meta(&store, "report.txt"), (3, 1));   // Users\Alice
    assert_eq!(meta(&store, "Users"), (1, 1));         // own dir == user marker
    assert_eq!(meta(&store, "root_like.py"), (3, 0)); // dev\deep, no marker
    assert_eq!(meta(&store, "orphan.txt"), (1, 0));   // unresolved parent
}

#[test]
fn cache_roundtrip_parallel_load() {
    let mut store = IndexStore::new();
    store.populate_from_scan(
        scan_result(&[
            (1, 0, "Alpha.TXT", false),
            (2, 1, "beta.md", false),
            (3, 0, "Dir", true),
        ]),
        &ntfs_drive('C'),
    );
    store.finalize();

    let cache = store.to_cache();
    let loaded = IndexStore::from_cache(cache).unwrap();
    assert_eq!(loaded.entries.len(), 3);
    assert_eq!(loaded.junk_refs, store.junk_refs);
    assert_eq!(
        names(&loaded),
        vec!["Alpha.TXT", "Dir", "beta.md"]
    );
    let beta = loaded
        .entries
        .iter()
        .find(|e| loaded.name(e) == "beta.md")
        .unwrap();
    let pidx = loaded.lookup_idx(0, beta.parent_ref).unwrap();
    assert_eq!(loaded.name(&loaded.entries[pidx as usize]), "Alpha.TXT");
}

#[test]
fn apply_events_collapses_create_and_rename_in_one_batch() {
    let mut store = IndexStore::new();
    store.populate_from_scan(
        scan_result(&[(1, 0, "Users", true)]),
        &ntfs_drive('C'),
    );
    store.finalize();

    // One user action (mkdir + rename) bursts CREATE + RENAME records for
    // the same file ref into a single applier batch. Both must collapse to
    // the newest record — never duplicate entries.
    store.apply_events(vec![
        IndexEvent::Created {
            drive_letter: 'C',
            record: FileRecord {
                file_ref: 42,
                parent_ref: 1,
                name: "New Folder".to_string(),
                kind: FileKind::Directory,
            },
        },
        IndexEvent::Moved {
            drive_letter: 'C',
            file_ref: 42,
            new_parent_ref: 1,
            name: "finder-final-name".to_string(),
            kind: FileKind::Directory,
        },
    ]);

    assert_eq!(store.entries.len(), 2); // Users + folder (no duplicate)
    let hits = store.entries.iter().filter(|e| e.file_ref == 42).count();
    assert_eq!(hits, 1);
    let hit = store.entries.iter().find(|e| e.file_ref == 42).unwrap();
    assert_eq!(store.name(hit), "finder-final-name");
}

#[test]
fn apply_events_splices_sorted_and_delta_merges_ref_lookup() {
    // One applier drain mixing a directory and a file born inside it
    // (batch-parent visibility), a rename, a move, and a delete. The
    // entry order must stay name-sorted and every bucket index must
    // resolve back to its own (drive, file_ref) — the splice + shift +
    // ordered-insert bookkeeping in aggregate.
    let mut store = IndexStore::new();
    store.populate_from_scan(
        scan_result(&[
            (1, 0, "Users", true),
            (10, 1, "Alice", true),
            (11, 10, "report.txt", false),
            (12, 10, "photo.PNG", false),
            (13, 0, "node_modules", true),
            (14, 13, "lodash.js", false),
        ]),
        &ntfs_drive('C'),
    );
    store.finalize();
    assert_eq!(store.entries.len(), 5); // node_modules kept, lodash.js pruned

    store.apply_events(vec![
        IndexEvent::Created {
            drive_letter: 'C',
            record: FileRecord {
                file_ref: 20,
                parent_ref: 1,
                name: "zeta".to_string(),
                kind: FileKind::Directory,
            },
        },
        IndexEvent::Created {
            drive_letter: 'C',
            record: FileRecord {
                file_ref: 21,
                parent_ref: 20,
                name: "app.js".to_string(),
                kind: FileKind::File,
            },
        },
        IndexEvent::Renamed {
            drive_letter: 'C',
            old_ref: 10,
            new_record: FileRecord {
                file_ref: 10,
                parent_ref: 1,
                name: "Bob".to_string(),
                kind: FileKind::Directory,
            },
        },
        IndexEvent::Moved {
            drive_letter: 'C',
            file_ref: 11,
            new_parent_ref: 20,
            name: "report.txt".to_string(),
            kind: FileKind::File,
        },
        IndexEvent::Deleted { drive_letter: 'C', file_ref: 12 },
    ]);

    // Post-splice order is exactly the name-sorted one — no late sort.
    let ordered: Vec<String> = store.entries.iter().map(|e| store.name(e).to_string()).collect();
    assert_eq!(
        ordered,
        vec![
            "app.js".to_string(),
            "Bob".to_string(),
            "node_modules".to_string(),
            "report.txt".to_string(),
            "Users".to_string(),
            "zeta".to_string(),
        ]
    );
    for w in store.entries.windows(2) {
        assert!(store.name_lower(&w[0]) <= store.name_lower(&w[1]));
    }
    // Every bucket entry resolves back to its own record; every record
    // is reachable through its drive's bucket.
    for (d, bucket) in store.ref_lookup.iter().enumerate() {
        for &(r, idx) in bucket {
            assert!((idx as usize) < store.entries.len());
            let e = &store.entries[idx as usize];
            assert_eq!(e.drive, d as u8);
            assert_eq!(e.file_ref, r);
        }
    }
    for (i, e) in store.entries.iter().enumerate() {
        assert_eq!(store.lookup_idx(e.drive, e.file_ref), Some(i as u32));
    }
    // depth/user were stamped against the completed batch: app.js and
    // report.txt sit under zeta (created in the same drain) under Users.
    fn meta(s: &IndexStore, name: &str) -> (u8, u8) {
        let e = s.entries.iter().find(|e| s.name(e) == name).unwrap();
        (e.depth, e.user_path)
    }
    assert_eq!(meta(&store, "app.js"), (2, 1));
    assert_eq!(meta(&store, "report.txt"), (2, 1));
    assert_eq!(meta(&store, "Bob"), (1, 1));
    assert!(store.lookup_idx(0, 12).is_none()); // photo.PNG deleted
}

#[test]
fn delete_only_batch_refreshes_lookup_and_dirty_ext_index() {
    // Deletes-only drains skip the splice; they must still re-base the
    // ref buckets and mark ext_index dirty — its stored indices would
    // otherwise dangle past the trimmed entries and OOB an ext search.
    let mut store = IndexStore::new();
    store.populate_from_scan(
        scan_result(&[
            (1, 0, "Users", true),
            (10, 1, "a.txt", false),
            (11, 1, "b.txt", false),
        ]),
        &ntfs_drive('C'),
    );
    store.finalize();
    assert!(!store.ext_dirty);

    store.apply_events(vec![IndexEvent::Deleted { drive_letter: 'C', file_ref: 10 }]);
    assert!(store.ext_dirty);
    assert!(store.lookup_idx(0, 10).is_none());
    assert_eq!(store.lookup_idx(0, 11), Some(0)); // b.txt slides to index 0
    assert_eq!(store.entries.len(), 2);
}

#[test]
fn random_event_batches_keep_index_invariants() {
    // Deterministic LCG — any failure reproduces. Mixed create/delete/
    // rename/move batches on two drives that share file_refs exercise
    // the splice + compression + expansion bookkeeping far harder than
    // any hand-written case.
    let mut rng: u64 = 0x9E37_79B9_7F4A_7C15;
    let mut next = move || {
        rng = rng
            .wrapping_mul(6364136223846793005)
            .wrapping_add(1442695040888963407);
        (rng >> 32) as u32
    };
    let mut store = IndexStore::new();
    store.populate_from_scan(
        scan_result(&[
            (1, 0, "Users", true),
            (2, 0, "dev", true),
            (10, 1, "a.txt", false),
            (11, 1, "b.txt", false),
            (12, 2, "c.bin", false),
        ]),
        &ntfs_drive('C'),
    );
    store.populate_from_scan(
        scan_result(&[
            (1, 0, "Games", true),
            (10, 1, "d.exe", false),
        ]),
        &ntfs_drive('D'),
    );
    store.finalize();

    let names = ["alpha", "beta", "gamma", "delta", "epsilon", "zeta.txt", "iota.pdf"];
    for _ in 0..150 {
        let mut batch = Vec::new();
        let n_ops = 1 + (next() % 5) as usize;
        for _ in 0..n_ops {
            let drive = if next() % 2 == 0 { 'C' } else { 'D' };
            let rec = 1 + (next() % 20) as u64;
            let name = names[(next() as usize) % names.len()].to_string();
            match next() % 4 {
                0 => batch.push(IndexEvent::Created {
                    drive_letter: drive,
                    record: FileRecord {
                        file_ref: rec,
                        parent_ref: 1 + (next() % 2) as u64,
                        name,
                        kind: if next() % 3 == 0 {
                            FileKind::Directory
                        } else {
                            FileKind::File
                        },
                    },
                }),
                1 => batch.push(IndexEvent::Deleted {
                    drive_letter: drive,
                    file_ref: rec,
                }),
                2 => batch.push(IndexEvent::Renamed {
                    drive_letter: drive,
                    old_ref: rec,
                    new_record: FileRecord {
                        file_ref: rec,
                        parent_ref: 1 + (next() % 2) as u64,
                        name,
                        kind: FileKind::File,
                    },
                }),
                _ => batch.push(IndexEvent::Moved {
                    drive_letter: drive,
                    file_ref: rec,
                    new_parent_ref: 1 + (next() % 2) as u64,
                    name,
                    kind: FileKind::File,
                }),
            }
        }
        store.apply_events(batch);

        // Invariants after every batch:
        // 1. entries stay name-sorted by the lowercased key.
        for w in store.entries.windows(2) {
            assert!(store.name_lower(&w[0]) <= store.name_lower(&w[1]), "unsorted");
        }
        // 2. no duplicate (drive, file_ref).
        let mut seen = std::collections::HashSet::new();
        for e in &store.entries {
            assert!(seen.insert((e.drive, e.file_ref)), "duplicate ref");
        }
        // 3. every bucket entry resolves into its own record.
        for (d, bucket) in store.ref_lookup.iter().enumerate() {
            for &(r, idx) in bucket {
                assert!((idx as usize) < store.entries.len(), "dangling idx");
                let e = &store.entries[idx as usize];
                assert_eq!(e.drive, d as u8);
                assert_eq!(e.file_ref, r);
            }
        }
        // 4. every record is reachable through its drive's bucket.
        for (i, e) in store.entries.iter().enumerate() {
            assert_eq!(store.lookup_idx(e.drive, e.file_ref), Some(i as u32));
        }
        // 5. stamped metadata stays in range.
        for e in &store.entries {
            assert!(e.depth >= 1 && e.depth <= 15);
            assert!(e.user_path <= 1);
        }
    }
}

#[test]
fn multi_drive_refs_do_not_collide_and_paths_use_own_root() {
    let mut store = IndexStore::new();
    // Both drives use the same file_refs (1 = root dir, 10 = child) —
    // MFT record numbers are per-volume, so collisions are the norm.
    store.populate_from_scan(
        scan_result(&[
            (1, 0, "Users", true),
            (10, 1, "a.txt", false),
        ]),
        &ntfs_drive('C'),
    );
    store.populate_from_scan(
        scan_result(&[
            (1, 0, "Games", true),
            (10, 1, "b.exe", false),
        ]),
        &ntfs_drive('D'),
    );
    store.finalize();

    assert_eq!(store.drive_roots.len(), 2);
    assert_eq!(store.drive_roots[0].root, "C:\\");
    assert_eq!(store.drive_roots[1].root, "D:\\");

    let a = store.entries.iter().find(|e| store.name(e) == "a.txt").unwrap();
    let b = store.entries.iter().find(|e| store.name(e) == "b.exe").unwrap();
    assert_eq!(a.drive, 0);
    assert_eq!(b.drive, 1);

    // Same file_ref on both drives resolves inside its own volume.
    assert_eq!(store.name(&store.entries[store.lookup_idx(0, 10).unwrap() as usize]), "a.txt");
    assert_eq!(store.name(&store.entries[store.lookup_idx(1, 10).unwrap() as usize]), "b.exe");

    // Paths are built against each volume's own root.
    assert_eq!(
        build_path(a, &store),
        r"C:\Users\a.txt"
    );
    assert_eq!(
        build_path(b, &store),
        r"D:\Games\b.exe"
    );

    // Cache round-trips the per-drive layout.
    let cache = store.to_cache();
    let loaded = IndexStore::from_cache(cache).unwrap();
    assert_eq!(loaded.drive_roots.len(), 2);
    assert_eq!(loaded.junk_refs, store.junk_refs);
    let loaded_b = loaded.entries.iter().find(|e| loaded.name(e) == "b.exe").unwrap();
    assert_eq!(
        build_path(loaded_b, &loaded),
        r"D:\Games\b.exe"
    );
}

#[test]
fn live_events_stay_in_their_drive() {
    let mut store = IndexStore::new();
    store.populate_from_scan(
        scan_result(&[
            (1, 0, "Users", true),
            (10, 1, "old.txt", false),
        ]),
        &ntfs_drive('C'),
    );
    store.populate_from_scan(
        scan_result(&[
            (1, 0, "Games", true),
            (10, 1, "keep.exe", false),
        ]),
        &ntfs_drive('D'),
    );
    store.finalize();

    // Deleting ref 10 on drive C must not touch drive D's ref 10.
    store.apply_events(vec![IndexEvent::Deleted {
        drive_letter: 'C',
        file_ref: 10,
    }]);
    assert!(store.entries.iter().any(|e| e.drive == 1 && store.name(e) == "keep.exe"));
    assert!(!store.entries.iter().any(|e| e.drive == 0 && store.name(e) == "old.txt"));

    // Creating ref 10 on drive D (same ref as deleted C entry) lands on D.
    store.apply_events(vec![IndexEvent::Created {
        drive_letter: 'D',
        record: FileRecord {
            file_ref: 10,
            parent_ref: 1,
            name: "new.txt".to_string(),
            kind: FileKind::File,
        },
    }]);
    let new_entries: Vec<&IndexEntry> =
        store.entries.iter().filter(|e| e.file_ref == 10).collect();
    assert_eq!(new_entries.len(), 1);
    assert_eq!(new_entries[0].drive, 1);
    assert_eq!(store.name(new_entries[0]), "new.txt");
}

#[test]
fn cache_roundtrips_checkpoints_with_drive_letters() {
    let mut store = IndexStore::new();
    store.populate_from_scan(
        scan_result(&[(1, 0, "Alpha.TXT", false)]),
        &ntfs_drive('C'),
    );
    store.finalize();
    store.checkpoints.push(JournalCheckpoint {
        next_usn: 1_234_567,
        journal_id: 0xDEAD_BEEF,
        drive_letter: 'C',
    });
    store.checkpoints.push(JournalCheckpoint {
        next_usn: 99,
        journal_id: 0xCAFE_F00D,
        drive_letter: 'D',
    });

    // Checkpoints must survive the v2 cache round-trip verbatim — the
    // whole startup catch-up mechanism depends on it.
    let loaded = IndexStore::from_cache(store.to_cache()).unwrap();
    assert_eq!(
        loaded.checkpoints,
        vec![
            JournalCheckpoint {
                next_usn: 1_234_567,
                journal_id: 0xDEAD_BEEF,
                drive_letter: 'C',
            },
            JournalCheckpoint {
                next_usn: 99,
                journal_id: 0xCAFE_F00D,
                drive_letter: 'D',
            },
        ]
    );
}

#[test]
fn cache_rejects_foreign_format() {
    let mut store = IndexStore::new();
    store.populate_from_scan(
        scan_result(&[(1, 0, "a.txt", false)]),
        &ntfs_drive('C'),
    );
    store.finalize();

    let mut cache = store.to_cache();
    cache.version = 1;
    assert!(IndexStore::from_cache(cache).is_none());

    let mut cache = store.to_cache();
    cache.magic = *b"OLDC";
    assert!(IndexStore::from_cache(cache).is_none());
}

type EntryRow = (u64, u64, u32, u32, u16, u16, u8, u8, u8, u8);
type CacheRow = (
    [u8; 4],
    u32,
    Vec<EntryRow>,
    Vec<u8>,
    Vec<u8>,
    Vec<(char, String)>,
    Vec<(i64, u64, char)>,
    Vec<Vec<u64>>,
);

fn to_bytes(cache: CacheData) -> Vec<u8> {
    let row: CacheRow = (
        cache.magic,
        cache.version,
        cache
            .entries
            .iter()
            .map(|e| {
                (
                    e.file_ref,
                    e.parent_ref,
                    e.name_off,
                    e.name_lower_off,
                    e.name_len,
                    e.name_lower_len,
                    e.flags,
                    e.depth,
                    e.user_path,
                    e.drive,
                )
            })
            .collect(),
        cache.name_arena,
        cache.name_lower_arena,
        cache.drive_roots.into_iter().map(|d| (d.letter, d.root)).collect(),
        cache
            .checkpoints
            .iter()
            .map(|c| (c.next_usn, c.journal_id, c.drive_letter))
            .collect(),
        cache.junk_refs,
    );
    bincode::serialize(&row).unwrap()
}

fn from_bytes(bytes: &[u8]) -> CacheData {
    let row: CacheRow = bincode::deserialize(bytes).unwrap();
    CacheData {
        magic: row.0,
        version: row.1,
        entries: row
            .2
            .into_iter()
            .map(|e| IndexEntry {
                file_ref: e.0,
                parent_ref: e.1,
                name_off: e.2,
                name_lower_off: e.3,
                name_len: e.4,
                name_lower_len: e.5,
                flags: e.6,
                depth: e.7,
                user_path: e.8,
                drive: e.9,
            })
            .collect(),
        name_arena: row.3,
        name_lower_arena: row.4,
        drive_roots: row.5.into_iter().map(|d| DriveRoot { letter: d.0, root: d.1 }).collect(),
        checkpoints: row
            .6
            .into_iter()
            .map(|c| JournalCheckpoint { next_usn: c.0, journal_id: c.1, drive_letter: c.2 })
            .collect(),
        junk_refs: row.7,
    }
}

#[test]
fn cache_file_v4_zstd_roundtrip_matches_gui_save_and_load() {
    let mut store = IndexStore::new();
    store.populate_from_scan(
        scan_result(&[
            (1, 0, "Users", true),
            (10, 1, "doc.txt", false),
            (11, 1, "photo.png", false),
        ]),
        &ntfs_drive('C'),
    );
    store.finalize();
    let bytes = to_bytes(store.to_cache());

    // The frame of the library, and one that the codec wrote by itself.
    let mut enc = zstd::stream::write::Encoder::new(Vec::new(), 3).unwrap();
    enc.write_all(&bytes).unwrap();
    let direct = enc.finish().unwrap();
    for raw in [save_cache(&bytes).unwrap(), direct] {
        assert_ne!(raw, bytes);
        let loaded = from_bytes(&load_cache_file(&raw).expect("v4 zstd cache must decode"));
        let loaded_store = IndexStore::from_cache(loaded).unwrap();
        assert_eq!(names(&loaded_store), vec!["Users", "doc.txt", "photo.png"]);
    }
}

#[test]
fn cache_file_v3_lz4_roundtrip_is_still_readable() {
    let mut store = IndexStore::new();
    store.populate_from_scan(
        scan_result(&[(1, 0, "Legacy", true), (2, 1, "old.bin", false)]),
        &ntfs_drive('D'),
    );
    store.finalize();
    let bytes = to_bytes(store.to_cache());

    let mut enc = lz4_flex::frame::FrameEncoder::new(Vec::new());
    enc.write_all(&bytes).unwrap();
    let raw = enc.finish().unwrap();

    let loaded = from_bytes(&load_cache_file(&raw).expect("v3 lz4 cache must decode"));
    let loaded_store = IndexStore::from_cache(loaded).unwrap();
    assert_eq!(names(&loaded_store), vec!["Legacy", "old.bin"]);
}

fn file(file_ref: u64, parent_ref: u64, name: &str) -> FileRecord {
    FileRecord { file_ref, parent_ref, name: name.to_string(), kind: FileKind::File }
}

fn create(record: FileRecord) -> IndexEvent {
    IndexEvent::Created { drive_letter: 'C', record }
}

fn delete(file_ref: u64) -> IndexEvent {
    IndexEvent::Deleted { drive_letter: 'C', file_ref }
}

fn move_to(file_ref: u64, new_parent_ref: u64, name: &str) -> IndexEvent {
    IndexEvent::Moved {
        drive_letter: 'C',
        file_ref,
        new_parent_ref,
        name: name.to_string(),
        kind: FileKind::File,
    }
}

fn small_store() -> IndexStore {
    let mut s = IndexStore::new();
    s.populate_from_scan(
        scan_result(&[(1, 0, "Users", true), (2, 0, "node_modules", true), (3, 1, "old.txt", false)]),
        &ntfs_drive('C'),
    );
    s.finalize();
    s
}

#[test]
fn what_a_batch_creates_and_deletes_is_gone() {
    let mut s = IndexStore::new();
    s.populate_from_scan(scan_result(&[(1, 0, "Users", true)]), &ntfs_drive('C'));
    s.finalize();
    s.apply_events(vec![create(file(42, 1, "x.txt")), delete(42)]);
    assert_eq!(s.lookup_idx(0, 42), None);
    assert_eq!(s.entries.len(), 1);
    // It may come back behind the deletion.
    s.apply_events(vec![delete(42), create(file(42, 1, "y.txt"))]);
    assert_eq!(names(&s), vec!["Users", "y.txt"]);
}

#[test]
fn what_a_batch_moves_below_junk_is_gone() {
    let mut s = small_store();
    s.apply_events(vec![
        create(file(7, 1, "a.txt")),
        create(file(8, 1, "b.txt")),
        create(file(9, 1, "c.txt")),
        move_to(7, 2, "a.txt"),
        create(file(3, 2, "old.txt")),
    ]);
    assert_eq!(names(&s), vec!["Users", "b.txt", "c.txt", "node_modules"]);
    assert_eq!(s.lookup_idx(0, 7), None);
    assert!(s.junk_refs[0].contains(&7) && s.junk_refs[0].contains(&3));
}

#[test]
fn a_batch_leaves_the_last_state_of_each_record() {
    let mut s = small_store();
    s.apply_events(vec![
        create(file(7, 1, "a.txt")),
        IndexEvent::Renamed { drive_letter: 'C', old_ref: 3, new_record: file(3, 1, "mid.txt") },
        create(file(7, 1, "b.txt")),
        move_to(3, 0, "last.txt"),
    ]);
    assert_eq!(names(&s), vec!["Users", "b.txt", "last.txt", "node_modules"]);
    for (i, e) in s.entries.iter().enumerate() {
        assert_eq!(s.lookup_idx(e.drive, e.file_ref), Some(i as u32));
    }
}

#[test]
fn the_live_walk_gives_the_stamp_of_the_scan() {
    let mut s = IndexStore::new();
    s.populate_from_scan(
        scan_result(&[
            (1, 0, "Users", true),
            (10, 1, "Alice", true),
            (11, 10, "Documents", true),
            (12, 11, "deep", true),
            (13, 12, "report.txt", false),
            (20, 0, "Tools", true),
            (21, 20, "notes.txt", false),
        ]),
        &ntfs_drive('C'),
    );
    s.finalize();
    assert_eq!(s.entries.len(), 7);
    for e in &s.entries {
        let live = s.path_meta(e.drive, e.parent_ref, s.name_lower(e), e.is_dir());
        assert_eq!(live, (e.depth, e.user_path), "{}", s.name(e));
    }
}
