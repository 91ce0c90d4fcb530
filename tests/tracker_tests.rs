use std::collections::HashMap;

use file_scanner_engine::changes::{
    classify, mft_records, needs_lookup, plan_changes, ACTION_ADD, ACTION_REMOVE, ACTION_UPDATE,
    USN_REASON_CLOSE, USN_REASON_DATA_EXTEND, USN_REASON_FILE_CREATE, USN_REASON_FILE_DELETE,
    USN_REASON_RENAME_NEW_NAME, USN_REASON_RENAME_OLD_NAME,
};
use file_scanner_engine::blob::{decode_dir_cache, encode_dir_cache};
use file_scanner_engine::paths::{dir_cache, dir_paths, reconstruct};
use file_scanner_engine::persist::{accept_blob, header_for, start_action, BlobHeader, StartAction};
use file_scanner_engine::search_index::SearchIndex;
use file_scanner_engine::tracker::{apply_change, file_name, next_enum_start, poll_step, PollStep};
use file_scanner_engine::usn::{buffer_cursor, parse_records, RawRecord};

fn record(file_ref: u64, parent_ref: u64, reason: u32, attributes: u32, name: &str) -> Vec<u8> {
    let units: Vec<u16> = name.encode_utf16().collect();
    let name_len = units.len() * 2;
    let len = 60 + name_len;
    let len = (len + 7) / 8 * 8;
    let mut b = vec![0u8; len];
    b[0..4].copy_from_slice(&(len as u32).to_le_bytes());
    b[4..6].copy_from_slice(&2u16.to_le_bytes());
    b[8..16].copy_from_slice(&(file_ref | (3u64 << 48)).to_le_bytes());
    b[16..24].copy_from_slice(&(parent_ref | (1u64 << 48)).to_le_bytes());
    b[24..32].copy_from_slice(&1234u64.to_le_bytes());
    b[40..44].copy_from_slice(&reason.to_le_bytes());
    b[52..56].copy_from_slice(&attributes.to_le_bytes());
    b[56..58].copy_from_slice(&(name_len as u16).to_le_bytes());
    b[58..60].copy_from_slice(&60u16.to_le_bytes());
    for (i, u) in units.iter().enumerate() {
        b[60 + 2 * i..62 + 2 * i].copy_from_slice(&u.to_le_bytes());
    }
    b
}

fn buffer(cursor: u64, records: &[Vec<u8>]) -> Vec<u8> {
    let mut b = cursor.to_le_bytes().to_vec();
    for r in records {
        b.extend_from_slice(r);
    }
    b
}

#[test]
fn decodes_records_and_masks_references() {
    let b = buffer(99, &[record(40, 5, USN_REASON_FILE_CREATE, 0x20, "new.txt")]);
    assert_eq!(buffer_cursor(&b, b.len()), Some(99));
    assert_eq!(buffer_cursor(&b, 8), None);
    let recs = parse_records(&b, b.len());
    assert_eq!(recs.len(), 1);
    assert_eq!(recs[0].name, "new.txt");
    assert_eq!(recs[0].reason, USN_REASON_FILE_CREATE);
    let mft = mft_records(&recs, false);
    assert_eq!(mft[0].file_ref, 40);
    assert_eq!(mft[0].parent_ref, 5);
    assert!(!mft[0].is_dir);
    assert!(parse_records(&b, 8 + 59).is_empty());
}

#[test]
fn enumeration_drops_reserved_names_and_files_when_asked() {
    let b = buffer(
        0,
        &[
            record(5, 5, 0, 0x10, "."),
            record(9, 5, 0, 0x10, "$Extend"),
            record(30, 5, 0, 0x10, "X"),
            record(31, 30, 0, 0x20, "a.txt"),
        ],
    );
    let recs = parse_records(&b, b.len());
    assert_eq!(recs.len(), 4);
    let all = mft_records(&recs, false);
    assert_eq!(all.iter().map(|r| r.filename.as_str()).collect::<Vec<_>>(), vec!["X", "a.txt"]);
    let dirs = mft_records(&recs, true);
    assert_eq!(dirs.len(), 1);
    assert!(dirs[0].is_dir);
}

#[test]
fn classification_by_reason_bits() {
    assert_eq!(classify(USN_REASON_FILE_DELETE | USN_REASON_CLOSE), Some(ACTION_REMOVE));
    assert_eq!(classify(USN_REASON_RENAME_OLD_NAME), Some(ACTION_REMOVE));
    assert_eq!(classify(USN_REASON_RENAME_NEW_NAME | USN_REASON_CLOSE), Some(ACTION_ADD));
    assert_eq!(classify(USN_REASON_FILE_CREATE), Some(ACTION_ADD));
    assert_eq!(classify(USN_REASON_DATA_EXTEND | USN_REASON_CLOSE), Some(ACTION_UPDATE));
    assert_eq!(classify(USN_REASON_CLOSE), None);
    assert_eq!(classify(USN_REASON_FILE_CREATE | USN_REASON_FILE_DELETE), Some(ACTION_REMOVE));
}

#[test]
fn created_file_is_indexed_after_a_poll() {
    let mut index = SearchIndex::new();
    let mut dirs: HashMap<u64, String> = HashMap::new();
    dirs.insert(30, "C:\\X".to_string());
    let b = buffer(
        200,
        &[
            record(40, 30, USN_REASON_FILE_CREATE, 0x20, "new.txt"),
            record(40, 30, USN_REASON_FILE_CREATE | USN_REASON_CLOSE, 0x20, "new.txt"),
            record(41, 30, USN_REASON_CLOSE, 0x20, "quiet.txt"),
        ],
    );
    let recs = parse_records(&b, b.len());
    let resolved: Vec<Option<String>> = recs.iter().map(|_| None).collect();
    let changes = plan_changes(&recs, &dirs, "C:\\", &resolved);
    assert_eq!(changes.len(), 1);
    assert_eq!(changes[0].action, ACTION_ADD);
    assert_eq!(changes[0].path, "C:\\X\\new.txt");
    assert_eq!(changes[0].is_dir, 0);
    assert!(apply_change(&mut index, &changes[0], Some((512, 1_700_000_000, false))));
    let found = index.search_contains("new", usize::MAX);
    assert_eq!(found.len(), 1);
    assert_eq!(found[0].path, "C:\\X\\new.txt");
    assert!(!found[0].is_dir);
    assert_eq!(found[0].size, 512);
    assert_eq!(found[0].name, "new.txt");
    assert_eq!(found[0].file_ref, 40);
}

#[test]
fn deleted_file_leaves_the_index() {
    let mut index = SearchIndex::new();
    let dirs: HashMap<u64, String> = HashMap::new();
    let b = buffer(
        300,
        &[
            record(40, 30, USN_REASON_FILE_CREATE, 0x20, "new.txt"),
            record(40, 30, USN_REASON_FILE_DELETE | USN_REASON_CLOSE, 0x20, "new.txt"),
        ],
    );
    let recs = parse_records(&b, b.len());
    assert!(needs_lookup(&recs[0], &dirs));
    assert!(!needs_lookup(&recs[1], &dirs));
    let resolved = vec![Some("C:\\X\\new.txt".to_string()), None];
    let changes = plan_changes(&recs, &dirs, "C:\\", &resolved);
    assert_eq!(changes.len(), 2);
    assert_eq!(changes[0].path, "C:\\X\\new.txt");
    assert_eq!(changes[1].action, ACTION_REMOVE);
    assert_eq!(changes[1].path, "C:\\new.txt");
    apply_change(&mut index, &changes[0], Some((1, 1, false)));
    assert_eq!(index.search_contains("new", usize::MAX).len(), 1);
    assert!(index.remove_file_by_path("C:\\X\\new.txt"));
    assert!(index.search_contains("new", usize::MAX).is_empty());
}

#[test]
fn recycle_bin_and_reserved_names_are_ignored() {
    let mut dirs: HashMap<u64, String> = HashMap::new();
    dirs.insert(50, "C:\\$Recycle.Bin\\S-1".to_string());
    let b = buffer(
        1,
        &[
            record(60, 50, USN_REASON_FILE_DELETE, 0x20, "old.doc"),
            record(61, 5, USN_REASON_FILE_CREATE, 0x20, "$tmp"),
            record(62, 5, USN_REASON_FILE_CREATE, 0x10, "Folder"),
        ],
    );
    let recs = parse_records(&b, b.len());
    let resolved = vec![None, None, None];
    let changes = plan_changes(&recs, &dirs, "C:\\", &resolved);
    assert_eq!(changes.len(), 1);
    assert_eq!(changes[0].path, "C:\\Folder");
    assert_eq!(changes[0].is_dir, 1);
}

#[test]
fn rebuild_reconstructs_paths_and_prunes() {
    let b = buffer(
        0,
        &[
            record(30, 5, 0, 0x10, "Users"),
            record(31, 30, 0, 0x10, "me"),
            record(32, 31, 0, 0x20, "Report.pdf"),
            record(33, 31, 0, 0x20, "cache.tmp"),
            record(34, 5, 0, 0x10, "Windows"),
            record(35, 34, 0, 0x20, "kernel.exe"),
            record(36, 34, 0, 0x10, "System32"),
            record(37, 36, 0, 0x20, "deep.txt"),
            record(38, 999, 0, 0x20, "orphan.txt"),
            record(39, 5, 0, 0x10, "node_modules"),
        ],
    );
    let recs = mft_records(&parse_records(&b, b.len()), false);
    let paths = dir_paths(&recs, 'C');
    assert_eq!(paths.get(&31).map(|s| s.as_str()), Some("C:\\Users\\me"));
    assert!(paths.get(&36).is_none());
    let cache = dir_cache(&recs, 'C');
    assert_eq!(cache.get(&34).map(|s| s.as_str()), Some("C:\\Windows"));
    assert_eq!(cache.get(&36).map(|s| s.as_str()), Some("C:\\Windows\\System32"));
    assert_eq!(cache.get(&39).map(|s| s.as_str()), Some("C:\\node_modules"));
    assert_eq!(cache.get(&31).map(|s| s.as_str()), Some("C:\\Users\\me"));
    let items = reconstruct(&recs, 'C');
    let got: Vec<&str> = items.iter().map(|i| i.path.as_str()).collect();
    assert_eq!(got, vec!["C:\\Users", "C:\\Users\\me", "C:\\Users\\me\\Report.pdf"]);
    let mut index = SearchIndex::new();
    index.build(items);
    assert_eq!(index.item_count(), 3);
}

#[test]
fn stale_journal_forces_a_rebuild() {
    let written = header_for(b'C', 1111);
    assert!(accept_blob(&written, b'C', 1111));
    assert!(!accept_blob(&written, b'C', 2222));
    assert!(!accept_blob(&written, b'D', 1111));
    assert!(!accept_blob(&written, b'C', 0));
    let old_version = BlobHeader { version: 2, drive: b'C', journal_id: 1111 };
    assert!(!accept_blob(&old_version, b'C', 1111));
    assert_eq!(start_action(Some(written), b'C', 2222), StartAction::Rebuild);
    assert_eq!(start_action(Some(written), b'C', 1111), StartAction::Load);
    assert_eq!(start_action(None, b'C', 1111), StartAction::Rebuild);
}

#[test]
fn file_names_of_paths() {
    assert_eq!(file_name("C:\\X\\new.txt"), "new.txt");
    assert_eq!(file_name("plain"), "plain");
    let r = RawRecord {
        file_ref: 1,
        parent_ref: 2,
        usn: 3,
        reason: USN_REASON_DATA_EXTEND,
        attributes: 0,
        name: "f".to_string(),
    };
    assert_eq!(r.clone().name, "f");
}

#[test]
fn packed_scan_layout() {
    let b = buffer(0, &[record(30, 5, 0, 0x10, "Users"), record(31, 30, 0, 0x20, "a.TXT"), record(32, 30, 0, 0x20, "x.dll")]);
    let recs = mft_records(&parse_records(&b, b.len()), false);
    let (bytes, count) = file_scanner_engine::pack::pack_scan(&recs, 'C');
    assert_eq!(count, 2);
    let mut want: Vec<u8> = vec![1, 5, 0, 8, 0, 3, 0, 0];
    want.extend([0u8; 16]);
    want.extend(b"Users");
    want.extend(b"C:\\Users");
    want.extend(b"C:\\");
    want.extend([0u8, 5, 0, 14, 0, 8, 0, 4]);
    want.extend([0u8; 16]);
    want.extend(b"a.TXT");
    want.extend(b"C:\\Users\\a.TXT");
    want.extend(b"C:\\Users");
    want.extend(b".txt");
    assert_eq!(bytes, want);
}

#[test]
fn directory_cache_file_round_trip() {
    let h = header_for(b'E', 42);
    let entries = vec![(5u64, "E:\\".to_string()), (30u64, "E:\\Ünïcode dir".to_string())];
    let bytes = encode_dir_cache(&h, &entries);
    let (h2, back) = decode_dir_cache(&bytes).expect("decodes");
    assert_eq!(h2, h);
    assert_eq!(back, entries);
    assert!(decode_dir_cache(&bytes[..bytes.len() - 2]).is_none());
    assert!(accept_blob(&h2, b'E', 42));
}

#[test]
fn enumeration_and_poll_decisions() {
    assert_eq!(next_enum_start(100, Some(7), 3), Some(7));
    assert_eq!(next_enum_start(8, Some(7), 3), None);
    assert_eq!(next_enum_start(100, Some(3), 3), None);
    assert_eq!(next_enum_start(100, None, 3), None);
    assert_eq!(poll_step(1, 2, 10, 20, 5), PollStep::Rebuild);
    assert_eq!(poll_step(1, 1, 20, 20, 0), PollStep::Idle);
    assert_eq!(poll_step(1, 1, 10, 20, 0), PollStep::Idle);
    assert_eq!(poll_step(1, 1, 10, 20, 3), PollStep::Apply);
}
