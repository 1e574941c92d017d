use kvs::{
    encode, BufReaderWithPosition, BufWriterWithPosition, DiskOp, Entry, ErrorKind, KvStore,
    SegmentFile, COMPACTION_MINIMUM,
};

fn open_empty() -> KvStore {
    KvStore::open(Vec::new()).unwrap()
}

/// Applies drained disk operations to an in-memory directory listing, the
/// way the embedding program applies them to the store directory.
fn apply_ops(dir: &mut Vec<SegmentFile>, ops: Vec<DiskOp>) {
    for op in ops {
        match op {
            DiskOp::WriteFile { name, content } => {
                dir.retain(|f| f.name != name);
                dir.push(SegmentFile { name, content });
            }
            DiskOp::RemoveFile { name } => {
                dir.retain(|f| f.name != name);
            }
        }
    }
}

#[test]
fn get_on_fresh_store_is_none() {
    let mut store = open_empty();
    assert_eq!(store.get("missing".to_string()).unwrap(), None);
}

#[test]
fn set_then_get() {
    let mut store = open_empty();
    store.set("name".to_string(), "Caroline".to_string()).unwrap();
    let name = store.get(String::from("name")).unwrap().unwrap();
    assert_eq!(name, String::from("Caroline"));
}

#[test]
fn freshness_with_unrelated_writes() {
    let mut store = open_empty();
    store.set("k".to_string(), "v".to_string()).unwrap();
    store.set("other".to_string(), "1".to_string()).unwrap();
    store.remove("other".to_string()).unwrap();
    store.set("third".to_string(), "2".to_string()).unwrap();
    assert_eq!(store.get("k".to_string()).unwrap(), Some("v".to_string()));
}

#[test]
fn overwrite_takes_the_last_value() {
    let mut store = open_empty();
    store.set("k".to_string(), "first".to_string()).unwrap();
    store.set("k".to_string(), "second".to_string()).unwrap();
    assert_eq!(store.get("k".to_string()).unwrap(), Some("second".to_string()));
}

#[test]
fn tombstone_until_next_set() {
    let mut store = open_empty();
    store.set("k".to_string(), "v".to_string()).unwrap();
    store.remove("k".to_string()).unwrap();
    assert_eq!(store.get("k".to_string()).unwrap(), None);
    store.set("other".to_string(), "1".to_string()).unwrap();
    assert_eq!(store.get("k".to_string()).unwrap(), None);
    store.set("k".to_string(), "back".to_string()).unwrap();
    assert_eq!(store.get("k".to_string()).unwrap(), Some("back".to_string()));
}

#[test]
fn remove_on_missing_key_is_key_not_found() {
    let mut store = open_empty();
    let err = store.remove("missing".to_string()).unwrap_err();
    assert_eq!(err.kind, ErrorKind::KeyNotFound);
    assert_eq!(err.error_message, "Key not found".to_string());
}

#[test]
fn double_remove_is_key_not_found() {
    let mut store = open_empty();
    store.set("k".to_string(), "v".to_string()).unwrap();
    store.remove("k".to_string()).unwrap();
    let err = store.remove("k".to_string()).unwrap_err();
    assert_eq!(err.kind, ErrorKind::KeyNotFound);
}

#[test]
fn scenario_set_get_remove_reopen() {
    let mut store = open_empty();
    store.set("a".to_string(), "1".to_string()).unwrap();
    store.set("b".to_string(), "2".to_string()).unwrap();
    store.set("a".to_string(), "3".to_string()).unwrap();
    assert_eq!(store.get("a".to_string()).unwrap(), Some("3".to_string()));
    assert_eq!(store.get("b".to_string()).unwrap(), Some("2".to_string()));
    store.remove("b".to_string()).unwrap();
    assert_eq!(store.get("b".to_string()).unwrap(), None);
    // close and reopen the same directory
    let files = store.segment_files();
    let mut reopened = KvStore::open(files).unwrap();
    assert_eq!(reopened.get("a".to_string()).unwrap(), Some("3".to_string()));
    assert_eq!(reopened.get("b".to_string()).unwrap(), None);
}

#[test]
fn recovery_after_remove_keeps_the_tombstone() {
    let mut store = open_empty();
    store.set("k".to_string(), "v".to_string()).unwrap();
    store.remove("k".to_string()).unwrap();
    let mut reopened = KvStore::open(store.segment_files()).unwrap();
    assert_eq!(reopened.get("k".to_string()).unwrap(), None);
}

#[test]
fn recovery_through_drained_disk_ops() {
    // the directory mirror built by applying the drained operations holds
    // exactly the store's segment files, and reopens to the same state
    let mut dir: Vec<SegmentFile> = Vec::new();
    let mut store = open_empty();
    store.set("a".to_string(), "1".to_string()).unwrap();
    store.set("b".to_string(), "2".to_string()).unwrap();
    apply_ops(&mut dir, store.take_pending_ops());
    store.remove("a".to_string()).unwrap();
    apply_ops(&mut dir, store.take_pending_ops());

    let mut by_name = dir.clone();
    by_name.sort_by(|x, y| x.name.cmp(&y.name));
    let mut expected = store.segment_files();
    expected.sort_by(|x, y| x.name.cmp(&y.name));
    assert_eq!(by_name, expected);

    let mut reopened = KvStore::open(dir).unwrap();
    assert_eq!(reopened.get("a".to_string()).unwrap(), None);
    assert_eq!(reopened.get("b".to_string()).unwrap(), Some("2".to_string()));
}

#[test]
fn open_replays_in_ascending_id_order_whatever_the_listing_order() {
    let files = vec![
        SegmentFile {
            name: "2.log".to_string(),
            content: encode(&Entry::set("k".to_string(), "new".to_string())),
        },
        SegmentFile {
            name: "0.log".to_string(),
            content: encode(&Entry::set("k".to_string(), "old".to_string())),
        },
        SegmentFile {
            name: "1.log".to_string(),
            content: encode(&Entry::set("other".to_string(), "x".to_string())),
        },
    ];
    let mut store = KvStore::open(files).unwrap();
    assert_eq!(store.get("k".to_string()).unwrap(), Some("new".to_string()));
    assert_eq!(store.get("other".to_string()).unwrap(), Some("x".to_string()));
}

#[test]
fn open_rejects_foreign_file_names() {
    let files = vec![SegmentFile {
        name: "notes.txt".to_string(),
        content: encode(&Entry::rm("k".to_string())),
    }];
    assert_eq!(KvStore::open(files).err().unwrap().kind, ErrorKind::PathFormat);
}

#[test]
fn open_rejects_duplicate_segment_ids() {
    let files = vec![
        SegmentFile {
            name: "7.log".to_string(),
            content: encode(&Entry::set("a".to_string(), "1".to_string())),
        },
        SegmentFile {
            name: "07.log".to_string(),
            content: encode(&Entry::set("a".to_string(), "2".to_string())),
        },
    ];
    assert_eq!(KvStore::open(files).err().unwrap().kind, ErrorKind::PathFormat);
}

#[test]
fn open_rejects_malformed_segment_text() {
    let files = vec![SegmentFile {
        name: "0.log".to_string(),
        content: "not an entry".to_string(),
    }];
    assert_eq!(KvStore::open(files).err().unwrap().kind, ErrorKind::Serialization);
}

#[test]
fn open_rejects_the_reserved_last_id() {
    let files = vec![SegmentFile {
        name: "18446744073709551615.log".to_string(),
        content: encode(&Entry::rm("k".to_string())),
    }];
    assert_eq!(KvStore::open(files).err().unwrap().kind, ErrorKind::PathFormat);
}

#[test]
fn compaction_leaves_one_segment_per_live_key() {
    let mut store = open_empty();
    let rounds = COMPACTION_MINIMUM + 1;
    for i in 0..rounds {
        store.set("hot".to_string(), format!("value-{}", i)).unwrap();
    }
    // the threshold was passed, so compaction ran: one live key, one segment
    assert_eq!(store.segment_files().len(), 1);
    assert_eq!(
        store.get("hot".to_string()).unwrap(),
        Some(format!("value-{}", rounds - 1))
    );
}

#[test]
fn compaction_preserves_every_get() {
    let mut store = open_empty();
    let rounds = COMPACTION_MINIMUM + 1;
    store.set("cold".to_string(), "keep".to_string()).unwrap();
    store.set("gone".to_string(), "drop".to_string()).unwrap();
    store.remove("gone".to_string()).unwrap();
    for i in 0..rounds {
        store.set("hot".to_string(), format!("value-{}", i)).unwrap();
    }
    assert_eq!(store.get("cold".to_string()).unwrap(), Some("keep".to_string()));
    assert_eq!(store.get("gone".to_string()).unwrap(), None);
    assert_eq!(
        store.get("hot".to_string()).unwrap(),
        Some(format!("value-{}", rounds - 1))
    );
    // and the compacted directory still recovers to the same state
    let mut reopened = KvStore::open(store.segment_files()).unwrap();
    assert_eq!(reopened.get("cold".to_string()).unwrap(), Some("keep".to_string()));
    assert_eq!(reopened.get("gone".to_string()).unwrap(), None);
    assert_eq!(
        reopened.get("hot".to_string()).unwrap(),
        Some(format!("value-{}", rounds - 1))
    );
}

#[test]
fn compacted_ops_rebuild_the_directory() {
    let mut dir: Vec<SegmentFile> = Vec::new();
    let mut store = open_empty();
    for i in 0..(COMPACTION_MINIMUM + 1) {
        store.set("hot".to_string(), format!("value-{}", i)).unwrap();
    }
    apply_ops(&mut dir, store.take_pending_ops());
    assert_eq!(dir.len(), 1);
    let mut reopened = KvStore::open(dir).unwrap();
    assert_eq!(
        reopened.get("hot".to_string()).unwrap(),
        Some(format!("value-{}", COMPACTION_MINIMUM))
    );
}

#[test]
fn set_records_exactly_one_write() {
    let mut store = open_empty();
    store.set("a".to_string(), "1".to_string()).unwrap();
    let ops = store.take_pending_ops();
    assert_eq!(
        ops,
        vec![DiskOp::WriteFile { name: "0.log".to_string(), content: "S1:a1:1".to_string() }]
    );
    store.remove("a".to_string()).unwrap();
    let more = store.take_pending_ops();
    assert_eq!(
        more,
        vec![DiskOp::WriteFile { name: "1.log".to_string(), content: "R1:a".to_string() }]
    );
}

#[test]
fn open_computes_the_next_free_segment_id() {
    // ids 3 and 7 on disk: the next three writes land in 8.log, 9.log, 10.log
    let files = vec![
        SegmentFile {
            name: "7.log".to_string(),
            content: encode(&Entry::set("a".to_string(), "1".to_string())),
        },
        SegmentFile {
            name: "3.log".to_string(),
            content: encode(&Entry::set("b".to_string(), "2".to_string())),
        },
    ];
    let mut store = KvStore::open(files).unwrap();
    store.set("c".to_string(), "3".to_string()).unwrap();
    let ops = store.take_pending_ops();
    assert_eq!(
        ops,
        vec![DiskOp::WriteFile { name: "8.log".to_string(), content: "S1:c1:3".to_string() }]
    );
}

#[test]
fn exhausted_id_space_reports_io_errors() {
    // one segment short of the reserved last id: the next id is taken
    let files = vec![SegmentFile {
        name: "18446744073709551614.log".to_string(),
        content: encode(&Entry::set("k".to_string(), "v".to_string())),
    }];
    let mut store = KvStore::open(files).unwrap();
    assert_eq!(store.get("k".to_string()).unwrap(), Some("v".to_string()));
    let set_err = store.set("other".to_string(), "x".to_string()).unwrap_err();
    assert_eq!(set_err.kind, ErrorKind::Io);
    let rm_err = store.remove("k".to_string()).unwrap_err();
    assert_eq!(rm_err.kind, ErrorKind::Io);
    // failed mutations leave the store as it was
    assert_eq!(store.get("k".to_string()).unwrap(), Some("v".to_string()));
    assert_eq!(store.get("other".to_string()).unwrap(), None);
}

#[test]
fn reader_seeks_and_reads_by_character() {
    let mut reader = BufReaderWithPosition::new("hello".to_string()).unwrap();
    reader.seek(1).unwrap();
    assert_eq!(reader.read(3).unwrap(), "ell".to_string());
    assert_eq!(reader.read(1).unwrap(), "o".to_string());
    assert_eq!(reader.read(1).unwrap_err().kind, ErrorKind::Io);
    assert_eq!(reader.seek(6).unwrap_err().kind, ErrorKind::Io);
}

#[test]
fn writer_appends_into_fresh_segments() {
    let mut writer = BufWriterWithPosition::new(5);
    let entry = Entry::set("a".to_string(), "1".to_string());
    let (position, content) = writer.append_to_log(&entry);
    assert_eq!(content, "S1:a1:1".to_string());
    assert_eq!(position.file_index, 5);
    assert_eq!(position.start_position, 0);
    assert_eq!(position.length, 7);
    let (next_position, _) = writer.append_to_log(&Entry::rm("a".to_string()));
    assert_eq!(next_position.file_index, 6);
}
