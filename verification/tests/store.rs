//! End-to-end runs of the store against an in-memory base directory: every
//! file action the engine asks for is applied to plain byte vectors, which
//! stand in for the segment files.

use kvs::AppendEffect;
use kvs::BitcaskEngine;
use kvs::KvStoreErr;
use kvs::SegmentFiles;

/// The base directory: `<id>.log` and `<id>.hint` files as plain bytes,
/// kept in ascending id order.
struct Disk {
    logs: Vec<(u64, Vec<u8>)>,
    hints: Vec<(u64, Vec<u8>)>,
}

impl Disk {
    fn new() -> Disk {
        Disk { logs: Vec::new(), hints: Vec::new() }
    }

    fn log_mut(&mut self, id: u64) -> &mut Vec<u8> {
        for pair in self.logs.iter_mut() {
            if pair.0 == id {
                return &mut pair.1;
            }
        }
        panic!("no such segment");
    }

    fn log(&self, id: u64) -> &Vec<u8> {
        for pair in self.logs.iter() {
            if pair.0 == id {
                return &pair.1;
            }
        }
        panic!("no such segment");
    }

    fn segments(&self) -> Vec<SegmentFiles> {
        let mut segs: Vec<SegmentFiles> = Vec::new();
        for (id, log) in self.logs.iter() {
            let hint = self
                .hints
                .iter()
                .find(|(hid, _)| hid == id)
                .map(|(_, bytes)| bytes.clone());
            segs.push(SegmentFiles { id: *id, log: log.clone(), hint });
        }
        segs.sort_by_key(|sf| sf.id);
        segs
    }
}

fn open_disk(disk: &mut Disk, max_bytes: u64, threshold: u64) -> BitcaskEngine {
    let (engine, eff) =
        BitcaskEngine::open_with_config(disk.segments(), max_bytes, threshold, 4 * 1024 * 1024)
            .unwrap();
    if let Some(id) = eff.create_log {
        disk.logs.push((id, Vec::new()));
    }
    if let Some(n) = eff.truncate_active_to {
        let active = *disk.logs.iter().map(|(id, _)| id).max().unwrap();
        disk.log_mut(active).truncate(n as usize);
    }
    if eff.delete_active_hint {
        let active = *disk.logs.iter().map(|(id, _)| id).max().unwrap();
        disk.hints.retain(|(id, _)| *id != active);
    }
    engine
}

fn apply_append(disk: &mut Disk, eff: &AppendEffect) {
    if let Some(id) = eff.rollover {
        disk.logs.push((id, Vec::new()));
    }
    disk.log_mut(eff.file_id).extend_from_slice(&eff.bytes);
}

fn run_merge(engine: &mut BitcaskEngine, disk: &mut Disk) {
    let ids = engine.list_segments();
    let mut old_logs: Vec<Vec<u8>> = Vec::new();
    for id in ids.iter().take(ids.len() - 1) {
        old_logs.push(disk.log(*id).clone());
    }
    let eff = engine.merge(old_logs).unwrap();
    for id in eff.old_ids.iter() {
        disk.logs.retain(|(lid, _)| lid != id);
        disk.hints.retain(|(hid, _)| hid != id);
    }
    for seg in eff.outputs.iter() {
        disk.logs.push((seg.id, seg.log.clone()));
        disk.hints.push((seg.id, seg.hint.clone()));
    }
    disk.logs.sort_by_key(|(id, _)| *id);
    disk.hints.sort_by_key(|(id, _)| *id);
}

fn put(engine: &mut BitcaskEngine, disk: &mut Disk, key: &str, value: &str) {
    let eff = engine.set(key.to_owned(), value.to_owned()).unwrap();
    let merge_needed = eff.merge_needed;
    apply_append(disk, &eff);
    if merge_needed {
        run_merge(engine, disk);
    }
}

fn del(engine: &mut BitcaskEngine, disk: &mut Disk, key: &str) -> Result<(), KvStoreErr> {
    match engine.remove(key.to_owned()) {
        Ok(eff) => {
            let merge_needed = eff.merge_needed;
            apply_append(disk, &eff);
            if merge_needed {
                run_merge(engine, disk);
            }
            Ok(())
        }
        Err(e) => Err(e),
    }
}

fn lookup(engine: &BitcaskEngine, disk: &Disk, key: &str) -> Option<String> {
    let plan = engine.get(&key.to_owned())?;
    let file = disk.log(plan.file_id);
    let start = plan.offset as usize;
    let end = (plan.offset + plan.len) as usize;
    let bytes = file[start..end].to_vec();
    Some(kvs::decode_value(bytes).unwrap())
}

#[test]
fn segment_names_parse_and_sort() {
    let names = vec![
        "7.log".to_owned(),
        "0.log".to_owned(),
        "3.hint".to_owned(),
        "3.log".to_owned(),
        "3.log".to_owned(),
        "x3.log".to_owned(),
        ".log".to_owned(),
        "10.log.temp".to_owned(),
        "00.log".to_owned(),
        "18446744073709551615.log".to_owned(),
        "18446744073709551616.log".to_owned(),
    ];
    let ids = kvs::sorted_ids_of_names(&names);
    assert_eq!(ids, vec![0, 3, 7, u64::MAX]);
    let empty: Vec<String> = Vec::new();
    assert_eq!(kvs::sorted_ids_of_names(&empty), Vec::<u64>::new());
}

#[test]
fn put_then_lookup_returns_value() {
    let mut disk = Disk::new();
    let mut engine = open_disk(&mut disk, 1 << 30, 1 << 30);
    put(&mut engine, &mut disk, "a", "1");
    put(&mut engine, &mut disk, "b", "22");
    put(&mut engine, &mut disk, "a", "3");
    assert_eq!(lookup(&engine, &disk, "a"), Some("3".to_owned()));
    assert_eq!(lookup(&engine, &disk, "b"), Some("22".to_owned()));
    assert_eq!(lookup(&engine, &disk, "c"), None);
}

#[test]
fn reopen_keeps_state() {
    let mut disk = Disk::new();
    let mut engine = open_disk(&mut disk, 1 << 30, 1 << 30);
    put(&mut engine, &mut disk, "a", "1");
    put(&mut engine, &mut disk, "b", "22");
    put(&mut engine, &mut disk, "a", "3");
    drop(engine);
    let engine = open_disk(&mut disk, 1 << 30, 1 << 30);
    assert_eq!(lookup(&engine, &disk, "a"), Some("3".to_owned()));
    assert_eq!(lookup(&engine, &disk, "b"), Some("22".to_owned()));
}

#[test]
fn remove_then_reopen() {
    let mut disk = Disk::new();
    let mut engine = open_disk(&mut disk, 1 << 30, 1 << 30);
    put(&mut engine, &mut disk, "a", "3");
    put(&mut engine, &mut disk, "b", "22");
    del(&mut engine, &mut disk, "a").unwrap();
    assert_eq!(lookup(&engine, &disk, "a"), None);
    let second = del(&mut engine, &mut disk, "a");
    assert!(matches!(second, Err(KvStoreErr::KeyNotFound(_))));
    drop(engine);
    let engine = open_disk(&mut disk, 1 << 30, 1 << 30);
    assert_eq!(lookup(&engine, &disk, "a"), None);
    assert_eq!(lookup(&engine, &disk, "b"), Some("22".to_owned()));
}

#[test]
fn small_cap_rolls_segments() {
    let mut disk = Disk::new();
    let mut engine = open_disk(&mut disk, 128, 1 << 30);
    for i in 0..32 {
        put(&mut engine, &mut disk, &format!("k{}", i), &format!("v{}", i));
    }
    assert!(engine.list_segments().len() >= 2);
    for i in 0..32 {
        assert_eq!(
            lookup(&engine, &disk, &format!("k{}", i)),
            Some(format!("v{}", i))
        );
    }
}

#[test]
fn rollover_bumps_id_and_keeps_both_segments_readable() {
    let mut disk = Disk::new();
    let mut engine = open_disk(&mut disk, 64, 1 << 30);
    put(&mut engine, &mut disk, "first", "0123456789012345678901234567890123456789");
    let before = engine.active_segment_id();
    let eff = engine.set("second".to_owned(), "0123456789".to_owned()).unwrap();
    assert_eq!(eff.rollover, Some(before + 1));
    apply_append(&mut disk, &eff);
    assert_eq!(engine.active_segment_id(), before + 1);
    assert_eq!(lookup(&engine, &disk, "first"), Some("0123456789012345678901234567890123456789".to_owned()));
    assert_eq!(lookup(&engine, &disk, "second"), Some("0123456789".to_owned()));
}

#[test]
fn merge_triggers_and_preserves_lookups() {
    let mut disk = Disk::new();
    let mut engine = open_disk(&mut disk, 256, 64);
    let mut last = String::new();
    for i in 0..200 {
        last = format!("{}", i % 10);
        put(&mut engine, &mut disk, "k", &last);
    }
    assert_eq!(lookup(&engine, &disk, "k"), Some(last));
    // a merge ran and left hint files beside the compacted segments
    assert!(!disk.hints.is_empty());
    // the segment ids stay strictly ascending, the active one last
    let ids = engine.list_segments();
    for w in ids.windows(2) {
        assert!(w[0] < w[1]);
    }
    assert_eq!(*ids.last().unwrap(), engine.active_segment_id());
}

#[test]
fn reopen_after_merge_uses_hints() {
    let mut disk = Disk::new();
    let mut engine = open_disk(&mut disk, 256, 64);
    for i in 0..200 {
        put(&mut engine, &mut disk, &format!("k{}", i % 7), &format!("value{}", i));
    }
    drop(engine);
    assert!(!disk.hints.is_empty());
    let engine = open_disk(&mut disk, 256, 64);
    for t in 0..7 {
        let expect = (0..200).filter(|i| i % 7 == t).last().unwrap();
        assert_eq!(
            lookup(&engine, &disk, &format!("k{}", t)),
            Some(format!("value{}", expect))
        );
    }
}

#[test]
fn torn_tail_recovers_clean_prefix() {
    let mut disk = Disk::new();
    let mut engine = open_disk(&mut disk, 1 << 30, 1 << 30);
    put(&mut engine, &mut disk, "a", "alpha");
    put(&mut engine, &mut disk, "b", "beta");
    drop(engine);
    // tear the tail of the active log mid-record
    let active = *disk.logs.iter().map(|(id, _)| id).max().unwrap();
    let torn_len = {
        let log = disk.log_mut(active);
        let full = log.len();
        log.truncate(full - 3);
        log.len()
    };
    let mut engine = open_disk(&mut disk, 1 << 30, 1 << 30);
    assert!(disk.log(active).len() < torn_len);
    assert_eq!(lookup(&engine, &disk, "a"), Some("alpha".to_owned()));
    assert_eq!(lookup(&engine, &disk, "b"), None);
    // subsequent puts land at the clean boundary and work
    put(&mut engine, &mut disk, "b", "beta2");
    assert_eq!(lookup(&engine, &disk, "b"), Some("beta2".to_owned()));
    drop(engine);
    let engine = open_disk(&mut disk, 1 << 30, 1 << 30);
    assert_eq!(lookup(&engine, &disk, "a"), Some("alpha".to_owned()));
    assert_eq!(lookup(&engine, &disk, "b"), Some("beta2".to_owned()));
}

#[test]
fn empty_value_is_legal_and_distinct_from_tombstone() {
    let mut disk = Disk::new();
    let mut engine = open_disk(&mut disk, 1 << 30, 1 << 30);
    put(&mut engine, &mut disk, "k", "");
    assert_eq!(lookup(&engine, &disk, "k"), Some(String::new()));
    drop(engine);
    let mut engine = open_disk(&mut disk, 1 << 30, 1 << 30);
    assert_eq!(lookup(&engine, &disk, "k"), Some(String::new()));
    del(&mut engine, &mut disk, "k").unwrap();
    assert_eq!(lookup(&engine, &disk, "k"), None);
    drop(engine);
    let engine = open_disk(&mut disk, 1 << 30, 1 << 30);
    assert_eq!(lookup(&engine, &disk, "k"), None);
}

#[test]
fn useless_bytes_non_decreasing_between_merges() {
    let mut disk = Disk::new();
    let mut engine = open_disk(&mut disk, 1 << 30, 1 << 30);
    let mut prev = engine.useless_bytes();
    for i in 0..50 {
        put(&mut engine, &mut disk, "same", &format!("{}", i));
        let now = engine.useless_bytes();
        assert!(now >= prev);
        prev = now;
    }
    del(&mut engine, &mut disk, "same").unwrap();
    assert!(engine.useless_bytes() >= prev);
}

#[test]
fn interleaved_writers_each_key_reads_latest() {
    let mut disk = Disk::new();
    let mut engine = open_disk(&mut disk, 4096, 1 << 30);
    // eight interleaved writers, round-robin, over distinct keys
    for round in 0..100 {
        for w in 0..8 {
            put(
                &mut engine,
                &mut disk,
                &format!("k{}-{}", w, round % 5),
                &format!("w{}r{}", w, round),
            );
        }
        if round % 10 == 0 {
            for w in 0..8 {
                let got = lookup(&engine, &disk, &format!("k{}-{}", w, round % 5));
                assert_eq!(got, Some(format!("w{}r{}", w, round)));
            }
        }
    }
    drop(engine);
    let engine = open_disk(&mut disk, 4096, 1 << 30);
    for w in 0..8 {
        for slot in 0..5 {
            let latest = (0..100).filter(|r| r % 5 == slot).last().unwrap();
            assert_eq!(
                lookup(&engine, &disk, &format!("k{}-{}", w, slot)),
                Some(format!("w{}r{}", w, latest))
            );
        }
    }
}

#[test]
fn unicode_keys_and_values_round_trip() {
    let mut disk = Disk::new();
    let mut engine = open_disk(&mut disk, 1 << 30, 1 << 30);
    put(&mut engine, &mut disk, "clef", "\u{00e9}l\u{00e8}ve");
    put(&mut engine, &mut disk, "\u{7bb1}", "\u{1f5c3}");
    assert_eq!(lookup(&engine, &disk, "clef"), Some("\u{00e9}l\u{00e8}ve".to_owned()));
    assert_eq!(lookup(&engine, &disk, "\u{7bb1}"), Some("\u{1f5c3}".to_owned()));
    drop(engine);
    let engine = open_disk(&mut disk, 1 << 30, 1 << 30);
    assert_eq!(lookup(&engine, &disk, "\u{7bb1}"), Some("\u{1f5c3}".to_owned()));
}
