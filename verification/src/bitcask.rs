//! The storage engine: an append-only log with an in-memory key directory.
//!
//! The engine never touches the file system itself.  It is opened from the
//! bytes of the segment files found in the base directory, computes every
//! append, lookup and merge over those bytes, and hands the caller the
//! bytes and file actions to apply to durable storage.  What each
//! operation does to the abstract store is stated over the engine's view,
//! a map from each live key to its value bytes.

use vstd::prelude::*;

use dashmap::DashMap;

use vstd::utf8::decode_utf8;
use vstd::utf8::valid_utf8;

use vstd::utf8::encode_utf8;

use crate::entry::spec_hint_record;
use crate::entry::spec_log_record;
use crate::entry::spec_parse_log_record;
use crate::entry::spec_parse_hint_record;
use crate::entry::IndexEntry;
use crate::entry::LogEntry;
use crate::entry::SerializeToBytes;
use crate::entry::DELETED_CODE;
use crate::err::KvStoreErr;
use crate::io::BufReaderWithPos;
use crate::io::BufWriterWithPos;
use crate::keydir::key_dir_contains;
use crate::keydir::key_dir_empty;
use crate::keydir::key_dir_get;
use crate::keydir::key_dir_insert;
use crate::keydir::key_dir_new;
use crate::keydir::key_dir_remove;
use crate::keydir::key_dir_view;
use crate::strings::bytes_to_string;
use crate::strings::string_to_bytes;

verus! {

/// Adds with saturation at the top of the range.
pub open spec fn spec_sat_add(a: u64, b: u64) -> u64 {
    if a + b > u64::MAX {
        u64::MAX
    } else {
        (a + b) as u64
    }
}

/// Subtracts with saturation at zero.
pub open spec fn spec_sat_sub(a: u64, b: u64) -> u64 {
    if a >= b {
        (a - b) as u64
    } else {
        0
    }
}

pub(crate) fn sat_add(a: u64, b: u64) -> (r: u64)
    ensures
        r == spec_sat_add(a, b),
{
    if a > u64::MAX - b {
        u64::MAX
    } else {
        a + b
    }
}

pub(crate) fn sat_sub(a: u64, b: u64) -> (r: u64)
    ensures
        r == spec_sat_sub(a, b),
{
    if a >= b {
        a - b
    } else {
        0
    }
}

/// The records of a log file from `pos` up to the last clean record
/// boundary: key bytes, value bytes, and the offset one past the value.
pub open spec fn spec_log_records(b: Seq<u8>, pos: int) -> Seq<(Seq<u8>, Seq<u8>, int)>
    decreases b.len() - pos,
{
    match spec_parse_log_record(b, pos) {
        None => seq![],
        Some((key, value, end)) => seq![(key, value, end)] + spec_log_records(b, end),
    }
}

/// The offset where a scan of the records of `b` starting at `pos` stops:
/// the last clean record boundary.
pub open spec fn spec_scan_end(b: Seq<u8>, pos: int) -> int
    decreases b.len() - pos,
{
    match spec_parse_log_record(b, pos) {
        None => pos,
        Some((key, value, end)) => spec_scan_end(b, end),
    }
}

/// A log file is clean when its records tile it exactly: a scan from the
/// start consumes every byte.
pub open spec fn spec_log_clean(b: Seq<u8>) -> bool {
    spec_scan_end(b, 0) == b.len()
}

/// One log record applied to the directory being rebuilt: a tombstone
/// removes its key, charging the displaced value and the tombstone's own
/// byte to the superseded count; any other record becomes the key's entry,
/// charging the displaced value.  `None` when the key bytes are not valid
/// UTF-8.
pub open spec fn spec_apply_log_record(
    m: Map<Seq<char>, IndexEntry>,
    useless: u64,
    file_id: u64,
    key: Seq<u8>,
    value: Seq<u8>,
    v_pos: u64,
) -> Option<(Map<Seq<char>, IndexEntry>, u64)> {
    if !valid_utf8(key) {
        None
    } else {
        let k = decode_utf8(key);
        if value == seq![DELETED_CODE] {
            if m.contains_key(k) {
                Some((m.remove(k), spec_sat_add(useless, spec_sat_add(m[k].v_size, 1))))
            } else {
                Some((m, useless))
            }
        } else {
            let e = IndexEntry { file_id, v_pos, v_size: value.len() as u64 };
            if m.contains_key(k) {
                Some((m.insert(k, e), spec_sat_add(useless, m[k].v_size)))
            } else {
                Some((m.insert(k, e), useless))
            }
        }
    }
}

/// A record sequence applied in order to the directory being rebuilt.
pub open spec fn spec_apply_log_records(
    recs: Seq<(Seq<u8>, Seq<u8>, int)>,
    file_id: u64,
    m: Map<Seq<char>, IndexEntry>,
    useless: u64,
) -> Option<(Map<Seq<char>, IndexEntry>, u64)>
    decreases recs.len(),
{
    if recs.len() == 0 {
        Some((m, useless))
    } else {
        match spec_apply_log_record(m, useless, file_id, recs[0].0, recs[0].1, recs[0].2 as u64) {
            None => None,
            Some((m2, u2)) => spec_apply_log_records(recs.drop_first(), file_id, m2, u2),
        }
    }
}

/// What replaying one whole log file does to the directory being rebuilt.
pub open spec fn spec_replay_log(b: Seq<u8>, file_id: u64, m: Map<Seq<char>, IndexEntry>, useless: u64) -> Option<(Map<Seq<char>, IndexEntry>, u64)> {
    spec_apply_log_records(spec_log_records(b, 0), file_id, m, useless)
}

/// The records of a hint file from `pos` up to the last clean record
/// boundary: key bytes, value length, value end offset.
pub open spec fn spec_hint_records(b: Seq<u8>, pos: int) -> Seq<(Seq<u8>, u64, u64)>
    decreases b.len() - pos,
{
    match spec_parse_hint_record(b, pos) {
        None => seq![],
        Some((key, v_size, v_pos, end)) => seq![(key, v_size, v_pos)] + spec_hint_records(b, end),
    }
}

/// A hint record sequence applied in order: each record becomes its key's
/// entry.  `None` when a key is not valid UTF-8 or an entry points outside
/// the paired log file of `log_len` bytes.
pub open spec fn spec_apply_hint_records(
    recs: Seq<(Seq<u8>, u64, u64)>,
    file_id: u64,
    log_len: u64,
    m: Map<Seq<char>, IndexEntry>,
) -> Option<Map<Seq<char>, IndexEntry>>
    decreases recs.len(),
{
    if recs.len() == 0 {
        Some(m)
    } else {
        let (key, v_size, v_pos) = recs[0];
        if !valid_utf8(key) || v_pos > log_len || v_size > v_pos {
            None
        } else {
            spec_apply_hint_records(
                recs.drop_first(),
                file_id,
                log_len,
                m.insert(decode_utf8(key), IndexEntry { file_id, v_pos, v_size }),
            )
        }
    }
}

/// Replays one log file into the directory, applying puts and tombstones
/// in file order and accounting superseded value bytes on top of
/// `useless`; the reader is left at the last clean record boundary, where
/// the next append may go.
pub(crate) fn load_from_log_file(
    file_id: u64,
    reader: &mut BufReaderWithPos,
    index: &mut DashMap<String, IndexEntry>,
    useless: u64,
) -> (r: Result<u64, KvStoreErr>)
    requires
        old(reader).wf(),
    ensures
        final(reader).wf(),
        final(reader)@ == old(reader)@,
        match r {
            Ok(new_useless) => {
                &&& spec_replay_log(old(reader)@, file_id, key_dir_view(*old(index)), useless)
                    == Some((key_dir_view(*final(index)), new_useless))
                &&& final(reader).pos == spec_scan_end(old(reader)@, 0)
                &&& new_useless >= useless
                &&& forall|k: Seq<char>| #[trigger]
                    key_dir_view(*final(index)).contains_key(k) ==> (key_dir_view(
                        *old(index),
                    ).contains_key(k) && key_dir_view(*final(index))[k] == key_dir_view(
                        *old(index),
                    )[k]) || (key_dir_view(*final(index))[k].file_id == file_id && key_dir_view(
                        *final(index),
                    )[k].v_size <= key_dir_view(*final(index))[k].v_pos <= spec_scan_end(
                        old(reader)@,
                        0,
                    ))
            },
            Err(e) => {
                &&& spec_replay_log(old(reader)@, file_id, key_dir_view(*old(index)), useless)
                    is None
                &&& e is SystemErr
            },
        },
{
    reader.seek_start(0);
    proof {
        lemma_scan_end_ge(reader@, 0);
    }
    let mut u: u64 = useless;
    let ghost total = spec_replay_log(reader@, file_id, key_dir_view(*index), useless);
    loop
        invariant
            reader.wf(),
            reader@ == old(reader)@,
            spec_apply_log_records(
                spec_log_records(reader@, reader.pos as int),
                file_id,
                key_dir_view(*index),
                u,
            ) == total,
            spec_scan_end(reader@, reader.pos as int) == spec_scan_end(reader@, 0),
            total == spec_replay_log(old(reader)@, file_id, key_dir_view(*old(index)), useless),
            u >= useless,
            reader.pos <= spec_scan_end(reader@, 0),
            forall|k: Seq<char>| #[trigger]
                key_dir_view(*index).contains_key(k) ==> (key_dir_view(*old(index)).contains_key(k)
                    && key_dir_view(*index)[k] == key_dir_view(*old(index))[k]) || (key_dir_view(
                    *index,
                )[k].file_id == file_id && key_dir_view(*index)[k].v_size <= key_dir_view(
                    *index,
                )[k].v_pos <= reader.pos),
        decreases reader@.len() - reader.pos,
    {
        let ghost pos_before = reader.pos as int;
        let next = crate::entry::read_log_entry(reader);
        match next {
            None => {
                return Ok(u);
            },
            Some((entry, v_pos)) => {
                let ghost rest = spec_log_records(reader@, v_pos as int);
                proof {
                    assert(spec_log_records(reader@, pos_before) =~= seq![
                        (entry.key@, entry.value@, v_pos as int),
                    ] + rest);
                    assert((seq![(entry.key@, entry.value@, v_pos as int)] + rest).drop_first()
                        =~= rest);
                }
                let is_tombstone = entry.value.len() == 1 && entry.value[0] == DELETED_CODE;
                proof {
                    assert(is_tombstone <==> entry.value@ =~= seq![DELETED_CODE]);
                    lemma_scan_end_ge(reader@, reader.pos as int);
                }
                let key = match bytes_to_string(entry.key) {
                    Some(s) => s,
                    None => {
                        return Err(
                            KvStoreErr::SystemErr("log record key is not valid UTF-8".to_owned()),
                        );
                    },
                };
                let ghost m0 = key_dir_view(*index);
                let ghost u0 = u;
                let ghost applied = spec_apply_log_record(
                    m0,
                    u0,
                    file_id,
                    entry.key@,
                    entry.value@,
                    v_pos,
                );
                if is_tombstone {
                    match key_dir_remove(index, &key) {
                        Some(displaced) => {
                            u = sat_add(u, sat_add(displaced.v_size, 1));
                        },
                        None => {
                            proof {
                                assert(key_dir_view(*index) =~= m0);
                            }
                        },
                    }
                } else {
                    let new_entry = IndexEntry { file_id, v_pos, v_size: entry.v_size };
                    if let Some(displaced) = key_dir_insert(index, key, new_entry) {
                        u = sat_add(u, displaced.v_size);
                    }
                }
                proof {
                    assert(applied == Some((key_dir_view(*index), u)));
                    assert(spec_apply_log_records(
                        seq![(entry.key@, entry.value@, v_pos as int)] + rest,
                        file_id,
                        m0,
                        u0,
                    ) == spec_apply_log_records(rest, file_id, key_dir_view(*index), u));
                }
            },
        }
    }
}

/// Replays one hint file into the directory: each record becomes its key's
/// entry, pointing into the paired log file of `log_len` bytes.
pub(crate) fn load_from_hint_file(
    file_id: u64,
    reader: &mut BufReaderWithPos,
    index: &mut DashMap<String, IndexEntry>,
    log_len: u64,
) -> (r: Result<(), KvStoreErr>)
    requires
        old(reader).wf(),
    ensures
        final(reader).wf(),
        final(reader)@ == old(reader)@,
        match r {
            Ok(_) => {
                &&& spec_apply_hint_records(
                    spec_hint_records(old(reader)@, 0),
                    file_id,
                    log_len,
                    key_dir_view(*old(index)),
                ) == Some(key_dir_view(*final(index)))
                &&& forall|k: Seq<char>| #[trigger]
                    key_dir_view(*final(index)).contains_key(k) ==> (key_dir_view(
                        *old(index),
                    ).contains_key(k) && key_dir_view(*final(index))[k] == key_dir_view(
                        *old(index),
                    )[k]) || (key_dir_view(*final(index))[k].file_id == file_id && key_dir_view(
                        *final(index),
                    )[k].v_size <= key_dir_view(*final(index))[k].v_pos <= log_len)
            },
            Err(e) => {
                &&& spec_apply_hint_records(
                    spec_hint_records(old(reader)@, 0),
                    file_id,
                    log_len,
                    key_dir_view(*old(index)),
                ) is None
                &&& (e is SystemErr || e is InnerErr)
            },
        },
{
    reader.seek_start(0);
    let ghost total = spec_apply_hint_records(
        spec_hint_records(reader@, 0),
        file_id,
        log_len,
        key_dir_view(*index),
    );
    loop
        invariant
            reader.wf(),
            reader@ == old(reader)@,
            spec_apply_hint_records(
                spec_hint_records(reader@, reader.pos as int),
                file_id,
                log_len,
                key_dir_view(*index),
            ) == total,
            total == spec_apply_hint_records(
                spec_hint_records(old(reader)@, 0),
                file_id,
                log_len,
                key_dir_view(*old(index)),
            ),
            forall|k: Seq<char>| #[trigger]
                key_dir_view(*index).contains_key(k) ==> (key_dir_view(*old(index)).contains_key(k)
                    && key_dir_view(*index)[k] == key_dir_view(*old(index))[k]) || (key_dir_view(
                    *index,
                )[k].file_id == file_id && key_dir_view(*index)[k].v_size <= key_dir_view(
                    *index,
                )[k].v_pos <= log_len),
        decreases reader@.len() - reader.pos,
    {
        let ghost pos_before = reader.pos as int;
        let next = crate::entry::read_hint_entry(reader);
        match next {
            None => {
                return Ok(());
            },
            Some(entry) => {
                let ghost rest = spec_hint_records(reader@, reader.pos as int);
                proof {
                    assert(spec_hint_records(reader@, pos_before) =~= seq![
                        (entry.key@, entry.v_size, entry.v_pos),
                    ] + rest);
                    assert((seq![(entry.key@, entry.v_size, entry.v_pos)] + rest).drop_first()
                        =~= rest);
                }
                if entry.v_pos > log_len || entry.v_size > entry.v_pos {
                    return Err(
                        KvStoreErr::InnerErr(
                            "hint record points outside its log file".to_owned(),
                        ),
                    );
                }
                let key = match bytes_to_string(entry.key) {
                    Some(s) => s,
                    None => {
                        return Err(
                            KvStoreErr::SystemErr("hint record key is not valid UTF-8".to_owned()),
                        );
                    },
                };
                let new_entry = IndexEntry { file_id, v_pos: entry.v_pos, v_size: entry.v_size };
                key_dir_insert(index, key, new_entry);
            },
        }
    }
}

/// The reference configuration: segments are capped at one gibibyte.
pub const DEFAULT_LOG_FILE_MAX_BYTES: u64 = 1024 * 1024 * 1024;

/// The reference configuration: a merge runs once a gibibyte of value
/// bytes is superseded.
pub const DEFAULT_MERGE_TRIGGER_THRESHOLD: u64 = 1024 * 1024 * 1024;

/// The reference configuration: the active writer is flushed once four
/// mebibytes sit in its buffer.
pub const DEFAULT_WRITE_FLUSH_INTERVAL: u64 = 4 * 1024 * 1024;

/// The files of one segment, as read from the base directory: the id
/// parsed from `<id>.log`, that file's bytes, and the bytes of `<id>.hint`
/// where that file exists.
pub struct SegmentFiles {
    pub id: u64,
    pub log: Vec<u8>,
    pub hint: Option<Vec<u8>>,
}

impl View for SegmentFiles {
    type V = (u64, Seq<u8>, Option<Seq<u8>>);

    open spec fn view(&self) -> (u64, Seq<u8>, Option<Seq<u8>>) {
        (
            self.id,
            self.log@,
            match self.hint {
                Some(ref h) => Some(h@),
                None => None,
            },
        )
    }
}

/// What replaying a sequence of segments does to the directory being
/// rebuilt: a segment with a hint file is loaded from it, any other from
/// its log file, which also accumulates superseded bytes.
pub open spec fn spec_replay_segments(
    segs: Seq<(u64, Seq<u8>, Option<Seq<u8>>)>,
    m: Map<Seq<char>, IndexEntry>,
    useless: u64,
) -> Option<(Map<Seq<char>, IndexEntry>, u64)>
    decreases segs.len(),
{
    if segs.len() == 0 {
        Some((m, useless))
    } else {
        let (id, log, hint) = segs[0];
        match hint {
            Some(h) => match spec_apply_hint_records(
                spec_hint_records(h, 0),
                id,
                log.len() as u64,
                m,
            ) {
                None => None,
                Some(m2) => spec_replay_segments(segs.drop_first(), m2, useless),
            },
            None => match spec_replay_log(log, id, m, useless) {
                None => None,
                Some((m2, u2)) => spec_replay_segments(segs.drop_first(), m2, u2),
            },
        }
    }
}

/// What the caller must do to durable storage after one append: create the
/// fresh log file when the append rolled over, append the bytes to the
/// file they belong to, and run a merge when the threshold was crossed.
/// If applying it fails, the caller must treat the failure like a crash:
/// drop the store and reopen it from the files, which recovers the state
/// the bytes on disk reached.
pub struct AppendEffect {
    /// A new segment was started: create `<id>.log` empty before appending.
    pub rollover: Option<u64>,
    /// The id of the log file the bytes belong to.
    pub file_id: u64,
    /// The bytes to append at the end of that file.
    pub bytes: Vec<u8>,
    /// The superseded-byte count crossed the merge threshold.
    pub merge_needed: bool,
}

/// What the caller must do to durable storage after opening.
pub struct OpenEffect {
    /// The base directory was empty: create this segment's log file, empty.
    pub create_log: Option<u64>,
    /// The active log file ends in a torn record: truncate it to this many
    /// bytes, so the next append lands at a clean boundary.
    pub truncate_active_to: Option<u64>,
    /// A stale hint file sits beside the active log: delete it.
    pub delete_active_hint: bool,
}

/// Ascending order, with no id repeated.
pub open spec fn spec_ids_ascending(ids: Seq<u64>) -> bool {
    forall|i: int, j: int| 0 <= i < j < ids.len() ==> ids[i] < ids[j]
}

/// The storage engine.  All file contents it has seen or produced are
/// carried as a ghost map from segment id to log bytes, so that every
/// contract can say what the bytes it hands out mean.
pub struct BitcaskEngine {
    index: DashMap<String, IndexEntry>,
    active_file_id: u64,
    writer: BufWriterWithPos,
    useless_value_bytes: u64,
    segment_ids: Vec<u64>,
    log_file_max_bytes: u64,
    merge_trigger_threshold: u64,
    write_flush_interval: u64,
    log_files: Ghost<Map<u64, Seq<u8>>>,
}

impl BitcaskEngine {
    /// The key directory: each live key's entry.
    pub closed spec fn dir(&self) -> Map<Seq<char>, IndexEntry> {
        key_dir_view(self.index)
    }

    /// The logical contents of each segment's log file.
    pub closed spec fn files(&self) -> Map<u64, Seq<u8>> {
        self.log_files@
    }

    /// The ids of the segments, ascending; the last one is active.
    pub closed spec fn ids(&self) -> Seq<u64> {
        self.segment_ids@
    }

    /// The id of the active segment, the only one appended to.
    pub closed spec fn active(&self) -> u64 {
        self.active_file_id
    }

    /// The running count of superseded value bytes.
    pub closed spec fn useless(&self) -> u64 {
        self.useless_value_bytes
    }

    /// The size cap of any one segment.
    pub closed spec fn max_bytes(&self) -> u64 {
        self.log_file_max_bytes
    }

    /// The superseded-byte count that triggers a merge.
    pub closed spec fn merge_threshold(&self) -> u64 {
        self.merge_trigger_threshold
    }

    /// The bytes an entry points at.
    pub closed spec fn entry_value(&self, e: IndexEntry) -> Seq<u8> {
        self.files()[e.file_id].subrange(e.v_pos - e.v_size, e.v_pos as int)
    }

    /// An entry points into an existing file, within bounds.
    pub closed spec fn entry_wf(&self, e: IndexEntry) -> bool {
        &&& self.files().dom().contains(e.file_id)
        &&& e.v_size <= e.v_pos <= self.files()[e.file_id].len()
    }

    /// The abstract store: each live key's value bytes.
    pub closed spec fn view(&self) -> Map<Seq<char>, Seq<u8>> {
        Map::new(
            |k: Seq<char>| self.dir().contains_key(k),
            |k: Seq<char>| self.entry_value(self.dir()[k]),
        )
    }

    /// The engine's invariant: one active segment at the end of the
    /// ascending id list, a writer sitting at its end with nothing left
    /// unflushed, an active log whose records tile it exactly, and a
    /// directory whose every entry points at bytes that exist.
    pub closed spec fn wf(&self) -> bool {
        &&& self.ids().len() > 0
        &&& spec_ids_ascending(self.ids())
        &&& self.ids().last() == self.active()
        &&& self.files().dom() =~= self.ids().to_set()
        &&& self.writer.wf()
        &&& self.writer.pos == self.files()[self.active()].len()
        &&& self.writer.flushed == self.writer.pos
        &&& spec_log_clean(self.files()[self.active()])
        &&& forall|k: Seq<char>| #[trigger]
            self.dir().contains_key(k) ==> self.entry_wf(self.dir()[k])
    }
}

/// A scan never moves backwards, and stops within the bytes.
proof fn lemma_scan_end_ge(b: Seq<u8>, pos: int)
    requires
        0 <= pos <= b.len(),
    ensures
        pos <= spec_scan_end(b, pos) <= b.len(),
    decreases b.len() - pos,
{
    match spec_parse_log_record(b, pos) {
        None => {},
        Some((key, value, end)) => {
            lemma_scan_end_ge(b, end);
        },
    }
}

/// Cutting a log at the point where a scan stops keeps every record the
/// scan found and leaves a clean log.
proof fn lemma_log_truncate(b: Seq<u8>, pos: int)
    requires
        0 <= pos <= b.len(),
    ensures
        spec_scan_end(b.subrange(0, spec_scan_end(b, pos)), pos) == spec_scan_end(b, pos),
        spec_log_records(b.subrange(0, spec_scan_end(b, pos)), pos) =~= spec_log_records(b, pos),
    decreases b.len() - pos,
{
    let e = spec_scan_end(b, pos);
    let p = b.subrange(0, e);
    lemma_scan_end_ge(b, pos);
    match spec_parse_log_record(b, pos) {
        None => {
            assert(e == pos);
            assert(spec_parse_log_record(p, pos) is None);
        },
        Some((key, value, end)) => {
            lemma_scan_end_ge(b, end);
            assert(spec_scan_end(b, end) == e);
            crate::entry::lemma_parse_log_record_truncate(b, pos, e);
            lemma_log_truncate(b, end);
            assert(spec_log_records(p, pos) =~= seq![(key, value, end)] + spec_log_records(p, end));
            assert(spec_log_records(b, pos) =~= seq![(key, value, end)] + spec_log_records(b, end));
        },
    }
}

/// Appending one whole record at the end of a log makes it the one record
/// a scan from there finds.
#[verifier::rlimit(50)]
#[verifier::spinoff_prover]
proof fn lemma_log_records_append_base(b: Seq<u8>, key: Seq<u8>, value: Seq<u8>)
    requires
        key.len() <= u64::MAX,
        value.len() <= u64::MAX,
    ensures
        spec_log_records(b + spec_log_record(key, value), b.len() as int) =~= seq![
            (key, value, b.len() as int + 16 + key.len() + value.len()),
        ],
        spec_scan_end(b + spec_log_record(key, value), b.len() as int) == b.len() as int + 16
            + key.len() + value.len(),
{
    let b2 = b + spec_log_record(key, value);
    let pos = b.len() as int;
    let total = pos + 16 + key.len() + value.len();
    crate::entry::lemma_log_record_roundtrip(b, key, value);
    assert(spec_parse_log_record(b2, pos) == Some((key, value, total)));
    assert(b2.len() == total);
    assert(spec_parse_log_record(b2, total) is None);
    assert(spec_log_records(b2, pos) =~= seq![(key, value, total)] + spec_log_records(b2, total));
    assert(spec_log_records(b2, total) =~= Seq::<(Seq<u8>, Seq<u8>, int)>::empty());
    assert(spec_scan_end(b2, pos) == spec_scan_end(b2, total));
}

/// Appending one whole record to a clean log extends its record list by
/// exactly that record and keeps the log clean.
#[verifier::rlimit(100)]
#[verifier::spinoff_prover]
proof fn lemma_log_records_append(b: Seq<u8>, pos: int, key: Seq<u8>, value: Seq<u8>)
    requires
        0 <= pos <= b.len(),
        spec_scan_end(b, pos) == b.len(),
        key.len() <= u64::MAX,
        value.len() <= u64::MAX,
    ensures
        spec_log_records(b + spec_log_record(key, value), pos) =~= spec_log_records(b, pos).push(
            (key, value, b.len() as int + 16 + key.len() + value.len()),
        ),
        spec_scan_end(b + spec_log_record(key, value), pos) == b.len() as int + 16 + key.len()
            + value.len(),
    decreases b.len() - pos,
{
    let b2 = b + spec_log_record(key, value);
    let total = b.len() as int + 16 + key.len() + value.len();
    match spec_parse_log_record(b, pos) {
        None => {
            assert(pos == b.len());
            lemma_log_records_append_base(b, key, value);
            assert(spec_log_records(b, pos) =~= Seq::<(Seq<u8>, Seq<u8>, int)>::empty());
            assert(Seq::<(Seq<u8>, Seq<u8>, int)>::empty().push((key, value, total)) =~= seq![
                (key, value, total),
            ]);
        },
        Some((k0, v0, e0)) => {
            assert(b2.subrange(0, b.len() as int) =~= b);
            crate::entry::lemma_parse_log_record_prefix(b, b2, pos);
            assert(spec_parse_log_record(b2, pos) == Some((k0, v0, e0)));
            lemma_log_records_append(b, e0, key, value);
            assert(spec_log_records(b2, pos) =~= seq![(k0, v0, e0)] + spec_log_records(b2, e0));
            assert(spec_log_records(b, pos) =~= seq![(k0, v0, e0)] + spec_log_records(b, e0));
            assert((seq![(k0, v0, e0)] + spec_log_records(b, e0)).push((key, value, total)) =~= seq![
                (k0, v0, e0),
            ] + spec_log_records(b, e0).push((key, value, total)));
            assert(spec_scan_end(b2, pos) == spec_scan_end(b2, e0));
        },
    }
}

/// Where a key's live value lies: the caller reads `len` bytes at `offset`
/// in `<file_id>.log` and decodes them with `decode_value`.
pub struct ReadPlan {
    pub file_id: u64,
    pub offset: u64,
    pub len: u64,
}

/// Decodes the bytes read from the range a plan names into the stored
/// string value.
pub fn decode_value(bytes: Vec<u8>) -> (r: Result<String, KvStoreErr>)
    ensures
        match r {
            Ok(s) => valid_utf8(bytes@) && s@ == decode_utf8(bytes@),
            Err(e) => !valid_utf8(bytes@) && e is SystemErr,
        },
{
    match bytes_to_string(bytes) {
        Some(s) => Ok(s),
        None => Err(KvStoreErr::SystemErr("stored value is not valid UTF-8".to_owned())),
    }
}

impl BitcaskEngine {
    /// Appends one encoded record to the active log, rolling to a fresh
    /// segment when the cap would be crossed, and flushes at once, so the
    /// bytes are durable before any directory entry names them.  Returns
    /// the segment written to, the offset one past the record, the fresh
    /// segment id if one was started, and the flushed bytes.
    fn write_and_flush(
        &mut self,
        buf: Vec<u8>,
        Ghost(key): Ghost<Seq<u8>>,
        Ghost(value): Ghost<Seq<u8>>,
    ) -> (r: (u64, u64, Option<u64>, Vec<u8>))
        requires
            old(self).wf(),
            old(self).active() < u64::MAX,
            buf@ == spec_log_record(key, value),
            key.len() <= u64::MAX,
            value.len() <= u64::MAX,
            buf@.len() <= u64::MAX,
        ensures
            final(self).wf(),
            final(self).dir() == old(self).dir(),
            final(self).useless() == old(self).useless(),
            final(self).max_bytes() == old(self).max_bytes(),
            final(self).merge_threshold() == old(self).merge_threshold(),
            ({
                let (file_id, v_pos, rollover, out) = r;
                &&& out@ == buf@
                &&& file_id == final(self).active()
                &&& v_pos == final(self).files()[file_id].len()
                &&& spec_log_records(final(self).files()[file_id], 0) =~= spec_log_records(
                    old(self).files()[old(self).active()],
                    0,
                ).push((key, value, v_pos as int)) || (rollover is Some && spec_log_records(
                    final(self).files()[file_id],
                    0,
                ) =~= seq![(key, value, v_pos as int)])
                &&& match rollover {
                    None => {
                        &&& old(self).files()[old(self).active()].len() + buf@.len() <= old(
                            self,
                        ).max_bytes()
                        &&& final(self).active() == old(self).active()
                        &&& final(self).ids() == old(self).ids()
                        &&& final(self).files() == old(self).files().insert(
                            old(self).active(),
                            old(self).files()[old(self).active()] + buf@,
                        )
                        &&& spec_log_records(final(self).files()[file_id], 0)
                            =~= spec_log_records(old(self).files()[old(self).active()], 0).push(
                            (key, value, v_pos as int),
                        )
                    },
                    Some(new_id) => {
                        &&& old(self).files()[old(self).active()].len() + buf@.len() > old(
                            self,
                        ).max_bytes()
                        &&& new_id == old(self).active() + 1
                        &&& final(self).active() == new_id
                        &&& final(self).ids() == old(self).ids().push(new_id)
                        &&& final(self).files() == old(self).files().insert(new_id, buf@)
                        &&& spec_log_records(final(self).files()[file_id], 0) =~= seq![
                            (key, value, v_pos as int),
                        ]
                    },
                }
            }),
    {
        let ghost pre = *self;
        let size = buf.len() as u64;
        let mut rollover: Option<u64> = None;
        if size > self.log_file_max_bytes || self.writer.pos > self.log_file_max_bytes - size {
            let new_id = self.active_file_id + 1;
            let ghost ids_old = self.segment_ids@;
            self.active_file_id = new_id;
            self.writer = BufWriterWithPos::new(0);
            self.segment_ids.push(new_id);
            proof {
                self.log_files@ = self.log_files@.insert(new_id, Seq::empty());
                ids_old.lemma_push_to_set_commute(new_id);
                assert(self.log_files@.dom() =~= self.segment_ids@.to_set());
            }
            rollover = Some(new_id);
        }
        let ghost base = self.log_files@[self.active_file_id];
        proof {
            lemma_log_records_append(base, 0, key, value);
        }
        self.writer.write(&buf);
        let v_pos = self.writer.pos;
        let out = self.writer.flush();
        proof {
            self.log_files@ = self.log_files@.insert(self.active_file_id, base + buf@);
        }
        let file_id = self.active_file_id;
        proof {
            assert(self.log_files@.dom() =~= self.segment_ids@.to_set());
            assert forall|k: Seq<char>| #[trigger]
                self.dir().contains_key(k) implies self.entry_wf(self.dir()[k]) by {
                assert(pre.dir().contains_key(k));
                assert(pre.entry_wf(pre.dir()[k]));
            }
        }
        (file_id, v_pos, rollover, out)
    }

    /// Hands out any bytes still buffered for the active log.  Appends are
    /// flushed before their directory entries are published, so at rest
    /// there is nothing to hand out.
    pub fn flush(&mut self) -> (r: Vec<u8>)
        requires
            old(self).wf(),
        ensures
            final(self).wf(),
            final(self)@ == old(self)@,
            final(self).dir() == old(self).dir(),
            final(self).files() == old(self).files(),
            final(self).ids() == old(self).ids(),
            final(self).active() == old(self).active(),
            final(self).useless() == old(self).useless(),
            final(self).max_bytes() == old(self).max_bytes(),
            final(self).merge_threshold() == old(self).merge_threshold(),
            r@ =~= Seq::<u8>::empty(),
    {
        let out = self.writer.flush();
        proof {
            assert(self@ =~= old(self)@);
        }
        out
    }

    /// Looks the key up in the directory: where its live value lies, or
    /// nothing when the key is absent.
    pub fn get(&self, key: &String) -> (r: Option<ReadPlan>)
        requires
            self.wf(),
        ensures
            match r {
                Some(plan) => {
                    &&& self@.contains_key(key@)
                    &&& self.files().dom().contains(plan.file_id)
                    &&& plan.offset + plan.len <= self.files()[plan.file_id].len()
                    &&& self.files()[plan.file_id].subrange(
                        plan.offset as int,
                        plan.offset + plan.len,
                    ) == self@[key@]
                },
                None => !self@.contains_key(key@),
            },
    {
        match key_dir_get(&self.index, key) {
            Some(e) => {
                proof {
                    assert(self.dir().contains_key(key@));
                    assert(self.entry_wf(e));
                }
                Some(ReadPlan { file_id: e.file_id, offset: e.v_pos - e.v_size, len: e.v_size })
            },
            None => None,
        }
    }

    /// Binds `key` to `value`: encodes a log record, appends it to the
    /// active segment, and only after the bytes are flushed publishes the
    /// key's new directory entry, charging any displaced value to the
    /// superseded count.  Fails only on a record too large for a file
    /// offset, leaving the store unchanged.
    pub fn set(&mut self, key: String, value: String) -> (r: Result<AppendEffect, KvStoreErr>)
        requires
            old(self).wf(),
            old(self).active() < u64::MAX,
        ensures
            final(self).wf(),
            final(self).max_bytes() == old(self).max_bytes(),
            final(self).merge_threshold() == old(self).merge_threshold(),
            match r {
                Ok(eff) => {
                    &&& 16 + encode_utf8(key@).len() + encode_utf8(value@).len() <= u64::MAX
                    &&& final(self)@ == old(self)@.insert(key@, encode_utf8(value@))
                    &&& eff.bytes@ == spec_log_record(encode_utf8(key@), encode_utf8(value@))
                    &&& eff.file_id == final(self).active()
                    &&& match eff.rollover {
                        None => {
                            &&& old(self).files()[old(self).active()].len() + eff.bytes@.len()
                                <= old(self).max_bytes()
                            &&& final(self).active() == old(self).active()
                            &&& final(self).ids() == old(self).ids()
                            &&& final(self).files() == old(self).files().insert(
                                old(self).active(),
                                old(self).files()[old(self).active()] + eff.bytes@,
                            )
                        },
                        Some(new_id) => {
                            &&& old(self).files()[old(self).active()].len() + eff.bytes@.len()
                                > old(self).max_bytes()
                            &&& new_id == old(self).active() + 1
                            &&& final(self).active() == new_id
                            &&& final(self).ids() == old(self).ids().push(new_id)
                            &&& final(self).files() == old(self).files().insert(
                                new_id,
                                eff.bytes@,
                            )
                        },
                    }
                    &&& final(self).useless() == if old(self).dir().contains_key(key@) {
                        spec_sat_add(old(self).useless(), old(self).dir()[key@].v_size)
                    } else {
                        old(self).useless()
                    }
                    &&& final(self).useless() >= old(self).useless()
                    &&& eff.merge_needed == (old(self).dir().contains_key(key@)
                        && final(self).useless() > old(self).merge_threshold())
                    &&& old(self).synced() ==> final(self).synced()
                },
                Err(e) => {
                    &&& 16 + encode_utf8(key@).len() + encode_utf8(value@).len() > u64::MAX
                    &&& e is InnerErr
                    &&& final(self)@ == old(self)@
                    &&& final(self).dir() == old(self).dir()
                    &&& final(self).files() == old(self).files()
                    &&& final(self).ids() == old(self).ids()
                    &&& final(self).active() == old(self).active()
                    &&& final(self).useless() == old(self).useless()
                },
            },
    {
        let key_bytes = string_to_bytes(&key);
        let value_bytes = string_to_bytes(&value);
        let k_size = key_bytes.len() as u64;
        let v_size = value_bytes.len() as u64;
        if k_size > u64::MAX - 16 || v_size > u64::MAX - 16 - k_size {
            return Err(KvStoreErr::InnerErr("record too large for a file offset".to_owned()));
        }
        let log_entry = LogEntry { k_size, v_size, key: key_bytes, value: value_bytes };
        let buf = log_entry.serialize();
        let ghost old_self = *self;
        let (file_id, v_pos, rollover, out) = self.write_and_flush(
            buf,
            Ghost(encode_utf8(key@)),
            Ghost(encode_utf8(value@)),
        );
        let new_entry = IndexEntry { file_id, v_pos, v_size };
        let ghost key_chars = key@;
        let displaced = key_dir_insert(&mut self.index, key, new_entry);
        let mut merge_needed = false;
        if let Some(old_e) = displaced {
            self.useless_value_bytes = sat_add(self.useless_value_bytes, old_e.v_size);
            if self.useless_value_bytes > self.merge_trigger_threshold {
                merge_needed = true;
            }
        }
        proof {
            assert(self.entry_wf(new_entry));
            assert forall|k: Seq<char>| #[trigger]
                self.dir().contains_key(k) implies self.entry_wf(self.dir()[k]) by {
                if k != key_chars {
                    assert(old_self.dir().contains_key(k));
                    assert(old_self.entry_wf(old_self.dir()[k]));
                }
            }
            assert(self@ =~= old_self@.insert(key_chars, encode_utf8(value@))) by {
                assert forall|k: Seq<char>| self@.contains_key(k) implies self@[k] == old_self@
                    .insert(key_chars, encode_utf8(value@))[k] by {
                    if k == key_chars {
                        assert(self.entry_value(new_entry) =~= encode_utf8(value@));
                    } else {
                        assert(old_self.dir().contains_key(k));
                        assert(old_self.entry_wf(old_self.dir()[k]));
                        assert(self.entry_value(self.dir()[k]) =~= old_self.entry_value(
                            old_self.dir()[k],
                        ));
                    }
                }
            }
            if old_self.synced() {
                broadcast use vstd::utf8::encode_utf8_valid_utf8;
                broadcast use vstd::utf8::encode_utf8_decode_utf8;

                crate::strings::lemma_deleted_code_not_utf8();
                assert(encode_utf8(value@) != seq![DELETED_CODE]);
                lemma_append_preserves_synced(
                    old_self,
                    *self,
                    encode_utf8(key@),
                    encode_utf8(value@),
                    rollover,
                    v_pos,
                );
            }
        }
        Ok(AppendEffect { rollover, file_id, bytes: out, merge_needed })
    }

    /// Removes `key`: fails with the key itself when it is absent;
    /// otherwise appends a tombstone record under the same rollover and
    /// flush policy as a put, withdraws the key's directory entry, and
    /// charges the displaced value and the tombstone's own byte to the
    /// superseded count.
    pub fn remove(&mut self, key: String) -> (r: Result<AppendEffect, KvStoreErr>)
        requires
            old(self).wf(),
            old(self).active() < u64::MAX,
        ensures
            final(self).wf(),
            final(self).max_bytes() == old(self).max_bytes(),
            final(self).merge_threshold() == old(self).merge_threshold(),
            match r {
                Ok(eff) => {
                    &&& old(self)@.contains_key(key@)
                    &&& 17 + encode_utf8(key@).len() <= u64::MAX
                    &&& final(self)@ == old(self)@.remove(key@)
                    &&& eff.bytes@ == spec_log_record(encode_utf8(key@), seq![DELETED_CODE])
                    &&& eff.file_id == final(self).active()
                    &&& match eff.rollover {
                        None => {
                            &&& final(self).active() == old(self).active()
                            &&& final(self).ids() == old(self).ids()
                            &&& final(self).files() == old(self).files().insert(
                                old(self).active(),
                                old(self).files()[old(self).active()] + eff.bytes@,
                            )
                        },
                        Some(new_id) => {
                            &&& new_id == old(self).active() + 1
                            &&& final(self).active() == new_id
                            &&& final(self).ids() == old(self).ids().push(new_id)
                            &&& final(self).files() == old(self).files().insert(
                                new_id,
                                eff.bytes@,
                            )
                        },
                    }
                    &&& final(self).useless() == spec_sat_add(
                        old(self).useless(),
                        spec_sat_add(old(self).dir()[key@].v_size, 1),
                    )
                    &&& final(self).useless() >= old(self).useless()
                    &&& eff.merge_needed == (final(self).useless() > old(self).merge_threshold())
                    &&& old(self).synced() ==> final(self).synced()
                },
                Err(e) => {
                    &&& match e {
                        KvStoreErr::KeyNotFound(_) => !old(self)@.contains_key(key@),
                        KvStoreErr::InnerErr(_) => old(self)@.contains_key(key@) && 17
                            + encode_utf8(key@).len() > u64::MAX,
                        _ => false,
                    }
                    &&& final(self)@ == old(self)@
                    &&& final(self).dir() == old(self).dir()
                    &&& final(self).files() == old(self).files()
                    &&& final(self).ids() == old(self).ids()
                    &&& final(self).active() == old(self).active()
                    &&& final(self).useless() == old(self).useless()
                },
            },
    {
        if !key_dir_contains(&self.index, &key) {
            proof {
                assert(!self@.contains_key(key@));
            }
            return Err(KvStoreErr::KeyNotFound(key));
        }
        let key_bytes = string_to_bytes(&key);
        let k_size = key_bytes.len() as u64;
        if k_size > u64::MAX - 17 {
            return Err(KvStoreErr::InnerErr("record too large for a file offset".to_owned()));
        }
        let mut tombstone: Vec<u8> = Vec::new();
        tombstone.push(DELETED_CODE);
        proof {
            assert(tombstone@ =~= seq![DELETED_CODE]);
        }
        let log_entry = LogEntry { k_size, v_size: 1, key: key_bytes, value: tombstone };
        let buf = log_entry.serialize();
        let ghost old_self = *self;
        let ghost tomb_value: Seq<u8> = seq![DELETED_CODE];
        let (file_id, v_pos, rollover, out) = self.write_and_flush(
            buf,
            Ghost(encode_utf8(key@)),
            Ghost(tomb_value),
        );
        let ghost key_chars = key@;
        let displaced = key_dir_remove(&mut self.index, &key);
        let mut merge_needed = false;
        match displaced {
            Some(old_e) => {
                self.useless_value_bytes = sat_add(
                    self.useless_value_bytes,
                    sat_add(old_e.v_size, 1),
                );
                if self.useless_value_bytes > self.merge_trigger_threshold {
                    merge_needed = true;
                }
            },
            None => {
                proof {
                    assert(false);
                }
            },
        }
        proof {
            assert forall|k: Seq<char>| #[trigger]
                self.dir().contains_key(k) implies self.entry_wf(self.dir()[k]) by {
                assert(old_self.dir().contains_key(k));
                assert(old_self.entry_wf(old_self.dir()[k]));
            }
            assert(self@ =~= old_self@.remove(key_chars)) by {
                assert forall|k: Seq<char>| self@.contains_key(k) implies self@[k] == old_self@
                    .remove(key_chars)[k] by {
                    assert(old_self.dir().contains_key(k));
                    assert(old_self.entry_wf(old_self.dir()[k]));
                    assert(self.entry_value(self.dir()[k]) =~= old_self.entry_value(
                        old_self.dir()[k],
                    ));
                }
            }
            if old_self.synced() {
                broadcast use vstd::utf8::encode_utf8_valid_utf8;
                broadcast use vstd::utf8::encode_utf8_decode_utf8;

                lemma_append_preserves_synced(
                    old_self,
                    *self,
                    encode_utf8(key_chars),
                    tomb_value,
                    rollover,
                    v_pos,
                );
            }
        }
        Ok(AppendEffect { rollover, file_id, bytes: out, merge_needed })
    }
}

/// Two positions in an ascending id list compare as the positions do.
proof fn lemma_ids_ascending_at(ids: Seq<u64>, i: int, j: int)
    requires
        spec_ids_ascending(ids),
        0 <= i < j < ids.len(),
    ensures
        ids[i] < ids[j],
{
}

/// The ids of a sequence of segments, in order.
pub open spec fn spec_segment_ids(segs: Seq<SegmentFiles>) -> Seq<u64> {
    segs.map_values(|sf: SegmentFiles| sf.id)
}

/// The plain values of a sequence of segments.
pub open spec fn spec_segments_view(segs: Seq<SegmentFiles>) -> Seq<(u64, Seq<u8>, Option<Seq<u8>>)> {
    segs.map_values(|sf: SegmentFiles| sf@)
}

/// The segments as `open` scans them: the active segment's hint file is
/// set aside, so its log is always scanned and a torn tail found.
pub open spec fn spec_open_scan(segs: Seq<(u64, Seq<u8>, Option<Seq<u8>>)>) -> Seq<
    (u64, Seq<u8>, Option<Seq<u8>>),
> {
    if segs.len() == 0 {
        segs
    } else {
        let (id, log, hint) = segs.last();
        segs.update(segs.len() - 1, (id, log, None))
    }
}

impl BitcaskEngine {
    /// Opens the store from the segments found in the base directory,
    /// handed over in ascending id order, with the given configuration.
    /// Each sealed segment is loaded from its hint file where one exists
    /// and by scanning its log otherwise; the highest segment becomes the
    /// active one, its log always scanned, and a torn tail cut off.  An
    /// empty directory starts the store at a fresh segment.
    ///
    /// Every append is flushed before its directory entry is published, so
    /// a lookup never races an unflushed write; `write_flush_interval` is
    /// kept as configuration and is always met by that policy.
    pub fn open_with_config(
        segments: Vec<SegmentFiles>,
        log_file_max_bytes: u64,
        merge_trigger_threshold: u64,
        write_flush_interval: u64,
    ) -> (r: Result<(BitcaskEngine, OpenEffect), KvStoreErr>)
        requires
            spec_ids_ascending(spec_segment_ids(segments@)),
        ensures
            match r {
                Ok((engine, eff)) => {
                    &&& engine.wf()
                    &&& engine.max_bytes() == log_file_max_bytes
                    &&& engine.merge_threshold() == merge_trigger_threshold
                    &&& segments@.len() == 0 ==> {
                        &&& engine.synced()
                        &&& engine.ids() =~= seq![0u64]
                        &&& engine.active() == 0
                        &&& engine.files()[0] =~= Seq::<u8>::empty()
                        &&& engine.dir() == key_dir_empty()
                        &&& engine@ =~= Map::<Seq<char>, Seq<u8>>::empty()
                        &&& engine.useless() == 0
                        &&& eff.create_log == Some(0u64)
                        &&& eff.truncate_active_to is None
                        &&& !eff.delete_active_hint
                    }
                    &&& segments@.len() > 0 ==> {
                        let active_log = segments@.last().log@;
                        let clean_end = spec_scan_end(active_log, 0);
                        &&& engine.ids() == spec_segment_ids(segments@)
                        &&& engine.active() == segments@.last().id
                        &&& spec_replay_segments(
                            spec_open_scan(spec_segments_view(segments@)),
                            key_dir_empty(),
                            0,
                        ) == Some((engine.dir(), engine.useless()))
                        &&& forall|i: int|
                            0 <= i < segments@.len() - 1 ==> engine.files()[spec_segment_ids(
                                segments@,
                            )[i]] == segments@[i].log@
                        &&& engine.files()[engine.active()] == active_log.subrange(0, clean_end)
                        &&& eff.create_log is None
                        &&& match eff.truncate_active_to {
                            Some(n) => n == clean_end && clean_end < active_log.len(),
                            None => clean_end == active_log.len(),
                        }
                        &&& eff.delete_active_hint == (segments@.last().hint is Some)
                        &&& (forall|i: int|
                            0 <= i < segments@.len() - 1 ==> spec_segment_hint_ok(
                                #[trigger] spec_segments_view(segments@)[i],
                            )) ==> engine.synced()
                    }
                },
                Err(e) => {
                    &&& spec_replay_segments(
                        spec_open_scan(spec_segments_view(segments@)),
                        key_dir_empty(),
                        0,
                    ) is None
                    &&& (e is SystemErr || e is InnerErr)
                },
            },
    {
        let n = segments.len();
        let mut index = key_dir_new();
        if n == 0 {
            let mut ids: Vec<u64> = Vec::new();
            ids.push(0);
            let engine = BitcaskEngine {
                index,
                active_file_id: 0,
                writer: BufWriterWithPos::new(0),
                useless_value_bytes: 0,
                segment_ids: ids,
                log_file_max_bytes,
                merge_trigger_threshold,
                write_flush_interval,
                log_files: Ghost(Map::empty().insert(0u64, Seq::empty())),
            };
            proof {
                assert(engine.ids() =~= Seq::<u64>::empty().push(0u64));
                Seq::<u64>::empty().lemma_push_to_set_commute(0u64);
                assert(Seq::<u64>::empty().to_set() =~= Set::<u64>::empty());
                assert(engine.files().dom() =~= engine.ids().to_set());
                assert(spec_parse_log_record(Seq::<u8>::empty(), 0) is None);
                assert(engine@ =~= Map::<Seq<char>, Seq<u8>>::empty());
                assert(engine.synced()) by {
                    assert(engine.logs_seq().len() == 1);
                    assert(engine.logs_seq()[0] == (0u64, Seq::<u8>::empty()));
                    assert(spec_log_records(Seq::<u8>::empty(), 0) =~= Seq::<
                        (Seq<u8>, Seq<u8>, int),
                    >::empty());
                    assert(spec_apply_log_records_map(
                        spec_log_records(Seq::<u8>::empty(), 0),
                        0u64,
                        key_dir_empty(),
                    ) == Some(key_dir_empty()));
                    assert(spec_replay_logs_map(engine.logs_seq(), 1, key_dir_empty()) == Some(
                        key_dir_empty(),
                    ));
                }
            }
            let eff = OpenEffect {
                create_log: Some(0),
                truncate_active_to: None,
                delete_active_hint: false,
            };
            return Ok((engine, eff));
        }
        let ghost scan_plan = spec_open_scan(spec_segments_view(segments@));
        let ghost total = spec_replay_segments(scan_plan, key_dir_empty(), 0);
        let ghost plain_logs: Seq<(u64, Seq<u8>)> = Seq::new(
            segments@.len(),
            |j: int| (segments@[j].id, segments@[j].log@),
        );
        let mut segs = segments;
        let mut ids: Vec<u64> = Vec::new();
        let mut useless: u64 = 0;
        let mut files_acc: Ghost<Map<u64, Seq<u8>>> = Ghost(Map::empty());
        let mut i: usize = 0;
        proof {
            assert(scan_plan.subrange(0, n as int) =~= scan_plan);
            assert(ids@ =~= Seq::<u64>::empty());
            assert(Seq::<u64>::empty().to_set() =~= Set::<u64>::empty());
            assert(files_acc@.dom() =~= ids@.to_set());
            assert(ids@ =~= spec_segment_ids(segments@).subrange(0, 0));
            assert(segs@ =~= segments@.subrange(0, n as int));
        }
        while i + 1 < n
            invariant
                n == segments@.len(),
                spec_ids_ascending(spec_segment_ids(segments@)),
                spec_segment_ids(segments@).len() == n,
                0 <= i < n,
                segs@ =~= segments@.subrange(i as int, n as int),
                ids@ =~= spec_segment_ids(segments@).subrange(0, i as int),
                files_acc@.dom() =~= ids@.to_set(),
                forall|j: int|
                    0 <= j < i ==> files_acc@[spec_segment_ids(segments@)[j]] == segments@[j].log@,
                scan_plan == spec_open_scan(spec_segments_view(segments@)),
                total == spec_replay_segments(scan_plan, key_dir_empty(), 0),
                spec_replay_segments(
                    scan_plan.subrange(i as int, n as int),
                    key_dir_view(index),
                    useless,
                ) == total,
                forall|k: Seq<char>| #[trigger]
                    key_dir_view(index).contains_key(k) ==> {
                        let e = key_dir_view(index)[k];
                        &&& files_acc@.dom().contains(e.file_id)
                        &&& e.v_size <= e.v_pos <= files_acc@[e.file_id].len()
                    },
                plain_logs == Seq::new(
                    segments@.len(),
                    |j: int| (segments@[j].id, segments@[j].log@),
                ),
                (forall|j: int|
                    0 <= j < i ==> spec_segment_hint_ok(
                        #[trigger] spec_segments_view(segments@)[j],
                    )) ==> spec_replay_logs_map(plain_logs, i as int, key_dir_view(index))
                    == spec_replay_logs_map(plain_logs, 0, key_dir_empty()),
            decreases n - i,
        {
            let sf = segs.remove(0);
            proof {
                assert(sf == segments@[i as int]);
                assert(segs@ =~= segments@.subrange(i as int + 1, n as int));
                assert(scan_plan[i as int] == spec_segments_view(segments@)[i as int]);
                assert(scan_plan.subrange(i as int, n as int)[0] == scan_plan[i as int]);
                assert(scan_plan.subrange(i as int, n as int).drop_first() =~= scan_plan.subrange(
                    i as int + 1,
                    n as int,
                ));
            }
            let ghost pre_dir = key_dir_view(index);
            let ghost pre_files = files_acc@;
            let log_len = sf.log.len() as u64;
            let ghost log_bytes = sf.log@;
            match sf.hint {
                Some(hint) => {
                    let ghost hint_bytes = hint@;
                    let mut reader = BufReaderWithPos::new(hint);
                    match load_from_hint_file(sf.id, &mut reader, &mut index, log_len) {
                        Ok(_) => {
                            proof {
                                if spec_hint_faithful(hint_bytes, log_bytes, sf.id) {
                                    assert(spec_apply_hint_records(
                                        spec_hint_records(hint_bytes, 0),
                                        sf.id,
                                        log_bytes.len() as u64,
                                        pre_dir,
                                    ) == Some(key_dir_view(index)));
                                    assert(spec_apply_log_records_map(
                                        spec_log_records(log_bytes, 0),
                                        sf.id,
                                        pre_dir,
                                    ) == Some(key_dir_view(index)));
                                    assert(plain_logs[i as int] == (sf.id, log_bytes));
                                }
                                assert(spec_segments_view(segments@)[i as int] == (
                                    sf.id,
                                    log_bytes,
                                    Some(hint_bytes),
                                ));
                            }
                        },
                        Err(e) => {
                            proof {
                                assert(total is None);
                            }
                            return Err(e);
                        },
                    }
                },
                None => {
                    let mut reader = BufReaderWithPos::new(sf.log);
                    match load_from_log_file(sf.id, &mut reader, &mut index, useless) {
                        Ok(new_useless) => {
                            proof {
                                lemma_apply_log_records_u_irrelevant(
                                    spec_log_records(log_bytes, 0),
                                    sf.id,
                                    pre_dir,
                                    useless,
                                );
                                assert(plain_logs[i as int] == (sf.id, log_bytes));
                            }
                            useless = new_useless;
                        },
                        Err(e) => {
                            proof {
                                assert(total is None);
                            }
                            return Err(e);
                        },
                    }
                },
            }
            proof {
                files_acc@ = files_acc@.insert(sf.id, log_bytes);
                ids@.lemma_push_to_set_commute(sf.id);
                assert(ids@.push(sf.id) =~= spec_segment_ids(segments@).subrange(
                    0,
                    i as int + 1,
                ));
                assert(spec_segment_ids(segments@)[i as int] == sf.id);
                assert forall|j: int| 0 <= j < i + 1 implies files_acc@[spec_segment_ids(
                    segments@,
                )[j]] == segments@[j].log@ by {
                    let sids = spec_segment_ids(segments@);
                    assert(sids[j] == segments@[j].id);
                    if j < i {
                        lemma_ids_ascending_at(sids, j, i as int);
                    }
                }
                assert forall|k: Seq<char>| #[trigger]
                    key_dir_view(index).contains_key(k) implies {
                    let e = key_dir_view(index)[k];
                    &&& files_acc@.dom().contains(e.file_id)
                    &&& e.v_size <= e.v_pos <= files_acc@[e.file_id].len()
                } by {
                    let e = key_dir_view(index)[k];
                    if pre_dir.contains_key(k) && e == pre_dir[k] {
                        assert(pre_files.dom().contains(e.file_id));
                        assert(e.file_id != sf.id) by {
                            assert(ids@.to_set().contains(e.file_id));
                            assert(ids@.contains(e.file_id));
                            let j = choose|j: int|
                                0 <= j < ids@.len() && (#[trigger] ids@[j]) == e.file_id;
                            assert(spec_segment_ids(segments@)[j] == e.file_id);
                            assert(spec_segment_ids(segments@)[i as int] == sf.id);
                            lemma_ids_ascending_at(spec_segment_ids(segments@), j, i as int);
                        }
                    } else {
                        assert(e.file_id == sf.id);
                        assert(e.v_size <= e.v_pos <= log_len);
                    }
                }
            }
            ids.push(sf.id);
            i = i + 1;
        }
        // the highest segment: always scan its log, so a torn tail is found
        let sf = segs.remove(0);
        proof {
            assert(sf == segments@[i as int]);
            assert(i as int == n - 1);
            assert(scan_plan.subrange(i as int, n as int) =~= seq![
                (sf.id, sf.log@, None::<Seq<u8>>),
            ]);
            assert(scan_plan.subrange(i as int, n as int).drop_first() =~= Seq::<
                (u64, Seq<u8>, Option<Seq<u8>>),
            >::empty());
        }
        let ghost pre_dir = key_dir_view(index);
        let ghost pre_useless = useless;
        let ghost files_pre = files_acc@;
        let ghost active_log_full = sf.log@;
        let delete_active_hint = match sf.hint {
            Some(_) => true,
            None => false,
        };
        let full_len = sf.log.len() as u64;
        let mut reader = BufReaderWithPos::new(sf.log);
        match load_from_log_file(sf.id, &mut reader, &mut index, useless) {
            Ok(new_useless) => {
                useless = new_useless;
            },
            Err(e) => {
                proof {
                    assert(total is None);
                }
                return Err(e);
            },
        }
        proof {
            assert(spec_replay_segments(
                scan_plan.subrange(i as int, n as int),
                pre_dir,
                pre_useless,
            ) == total);
            assert(spec_replay_log(active_log_full, sf.id, pre_dir, pre_useless) == Some(
                (key_dir_view(index), useless),
            ));
            assert(spec_replay_segments(
                Seq::<(u64, Seq<u8>, Option<Seq<u8>>)>::empty(),
                key_dir_view(index),
                useless,
            ) == Some((key_dir_view(index), useless)));
            assert(total == Some((key_dir_view(index), useless)));
            lemma_apply_log_records_u_irrelevant(
                spec_log_records(active_log_full, 0),
                sf.id,
                pre_dir,
                pre_useless,
            );
            assert(plain_logs[i as int] == (sf.id, active_log_full));
        }
        let clean_end = reader.pos;
        let truncate_active_to = if clean_end < full_len {
            Some(clean_end)
        } else {
            None
        };
        proof {
            lemma_log_truncate(active_log_full, 0);
            files_acc@ = files_acc@.insert(sf.id, active_log_full.subrange(0, clean_end as int));
            ids@.lemma_push_to_set_commute(sf.id);
        }
        ids.push(sf.id);
        let engine = BitcaskEngine {
            index,
            active_file_id: sf.id,
            writer: BufWriterWithPos::new(clean_end),
            useless_value_bytes: useless,
            segment_ids: ids,
            log_file_max_bytes,
            merge_trigger_threshold,
            write_flush_interval,
            log_files: Ghost(files_acc@),
        };
        proof {
            assert(engine.ids() =~= spec_segment_ids(segments@));
            assert(engine.files().dom() =~= engine.ids().to_set());
            assert(engine.ids().last() == sf.id);
            assert(spec_log_clean(engine.files()[sf.id]));
            let pids = spec_segment_ids(segments@).subrange(0, n - 1);
            assert(spec_segment_ids(segments@)[n - 1] == sf.id);
            assert forall|j: int| 0 <= j < n - 1 implies engine.files()[spec_segment_ids(
                segments@,
            )[j]] == segments@[j].log@ by {
                lemma_ids_ascending_at(spec_segment_ids(segments@), j, n - 1);
                assert(files_pre[spec_segment_ids(segments@)[j]] == segments@[j].log@);
            }
            assert forall|k: Seq<char>| #[trigger]
                engine.dir().contains_key(k) implies engine.entry_wf(engine.dir()[k]) by {
                let e = engine.dir()[k];
                if pre_dir.contains_key(k) && e == pre_dir[k] {
                    assert(files_pre.dom().contains(e.file_id));
                    assert(pids.to_set().contains(e.file_id));
                    assert(pids.contains(e.file_id));
                    assert(e.file_id != sf.id) by {
                        let j = choose|j: int|
                            0 <= j < pids.len() && (#[trigger] pids[j]) == e.file_id;
                        assert(spec_segment_ids(segments@)[j] == e.file_id);
                        lemma_ids_ascending_at(spec_segment_ids(segments@), j, n - 1);
                    }
                    assert(e.v_size <= e.v_pos <= files_pre[e.file_id].len());
                } else {
                    assert(e.file_id == sf.id);
                    assert(e.v_size <= e.v_pos <= spec_scan_end(active_log_full, 0));
                }
            }
            if forall|j: int|
                0 <= j < n - 1 ==> spec_segment_hint_ok(#[trigger] spec_segments_view(segments@)[j]) {
                assert(spec_replay_logs_map(plain_logs, n as int, key_dir_view(engine.index))
                    == spec_replay_logs_map(plain_logs, 0, key_dir_empty()));
                assert(engine.logs_seq().len() == plain_logs.len());
                assert forall|j: int| 0 <= j < plain_logs.len() implies (#[trigger]
                engine.logs_seq()[j]).0 == (#[trigger] plain_logs[j]).0 && spec_log_records(
                    engine.logs_seq()[j].1,
                    0,
                ) == spec_log_records(plain_logs[j].1, 0) by {
                    assert(engine.ids()[j] == spec_segment_ids(segments@)[j]);
                    if j < n - 1 {
                        assert(engine.files()[engine.ids()[j]] == segments@[j].log@);
                    } else {
                        lemma_log_truncate(active_log_full, 0);
                        assert(engine.files()[engine.ids()[j]] == active_log_full.subrange(
                            0,
                            spec_scan_end(active_log_full, 0),
                        ));
                    }
                }
                lemma_replay_logs_map_agree(
                    engine.logs_seq(),
                    plain_logs,
                    0,
                    key_dir_empty(),
                );
                assert(engine.synced());
            }
        }
        let eff = OpenEffect { create_log: None, truncate_active_to, delete_active_hint };
        Ok((engine, eff))
    }

    /// Opens the store with the reference configuration.
    pub fn open(segments: Vec<SegmentFiles>) -> (r: Result<(BitcaskEngine, OpenEffect), KvStoreErr>)
        requires
            spec_ids_ascending(spec_segment_ids(segments@)),
        ensures
            match r {
                Ok((engine, eff)) => {
                    &&& engine.wf()
                    &&& engine.max_bytes() == DEFAULT_LOG_FILE_MAX_BYTES
                    &&& engine.merge_threshold() == DEFAULT_MERGE_TRIGGER_THRESHOLD
                    &&& segments@.len() == 0 ==> {
                        &&& engine.synced()
                        &&& engine.ids() =~= seq![0u64]
                        &&& engine.active() == 0
                        &&& engine.files()[0] =~= Seq::<u8>::empty()
                        &&& engine.dir() == key_dir_empty()
                        &&& engine@ =~= Map::<Seq<char>, Seq<u8>>::empty()
                        &&& engine.useless() == 0
                        &&& eff.create_log == Some(0u64)
                        &&& eff.truncate_active_to is None
                        &&& !eff.delete_active_hint
                    }
                    &&& segments@.len() > 0 ==> {
                        let active_log = segments@.last().log@;
                        let clean_end = spec_scan_end(active_log, 0);
                        &&& engine.ids() == spec_segment_ids(segments@)
                        &&& engine.active() == segments@.last().id
                        &&& spec_replay_segments(
                            spec_open_scan(spec_segments_view(segments@)),
                            key_dir_empty(),
                            0,
                        ) == Some((engine.dir(), engine.useless()))
                        &&& forall|i: int|
                            0 <= i < segments@.len() - 1 ==> engine.files()[spec_segment_ids(
                                segments@,
                            )[i]] == segments@[i].log@
                        &&& engine.files()[engine.active()] == active_log.subrange(0, clean_end)
                        &&& eff.create_log is None
                        &&& match eff.truncate_active_to {
                            Some(n) => n == clean_end && clean_end < active_log.len(),
                            None => clean_end == active_log.len(),
                        }
                        &&& eff.delete_active_hint == (segments@.last().hint is Some)
                        &&& (forall|i: int|
                            0 <= i < segments@.len() - 1 ==> spec_segment_hint_ok(
                                #[trigger] spec_segments_view(segments@)[i],
                            )) ==> engine.synced()
                    }
                },
                Err(e) => {
                    &&& spec_replay_segments(
                        spec_open_scan(spec_segments_view(segments@)),
                        key_dir_empty(),
                        0,
                    ) is None
                    &&& (e is SystemErr || e is InnerErr)
                },
            },
    {
        BitcaskEngine::open_with_config(
            segments,
            DEFAULT_LOG_FILE_MAX_BYTES,
            DEFAULT_MERGE_TRIGGER_THRESHOLD,
            DEFAULT_WRITE_FLUSH_INTERVAL,
        )
    }
}

/// One log record applied to the directory alone, without the superseded
/// accounting: the map component of `spec_apply_log_record`.
pub open spec fn spec_apply_log_record_map(
    m: Map<Seq<char>, IndexEntry>,
    file_id: u64,
    key: Seq<u8>,
    value: Seq<u8>,
    v_pos: u64,
) -> Option<Map<Seq<char>, IndexEntry>> {
    if !valid_utf8(key) {
        None
    } else {
        let k = decode_utf8(key);
        if value == seq![DELETED_CODE] {
            Some(m.remove(k))
        } else {
            Some(m.insert(k, IndexEntry { file_id, v_pos, v_size: value.len() as u64 }))
        }
    }
}

/// A record sequence applied in order to the directory alone.
pub open spec fn spec_apply_log_records_map(
    recs: Seq<(Seq<u8>, Seq<u8>, int)>,
    file_id: u64,
    m: Map<Seq<char>, IndexEntry>,
) -> Option<Map<Seq<char>, IndexEntry>>
    decreases recs.len(),
{
    if recs.len() == 0 {
        Some(m)
    } else {
        match spec_apply_log_record_map(m, file_id, recs[0].0, recs[0].1, recs[0].2 as u64) {
            None => None,
            Some(m2) => spec_apply_log_records_map(recs.drop_first(), file_id, m2),
        }
    }
}

/// The directory that replaying the given logs in order, each from its
/// start, leaves behind.
pub open spec fn spec_replay_logs_map(
    logs: Seq<(u64, Seq<u8>)>,
    i: int,
    m: Map<Seq<char>, IndexEntry>,
) -> Option<Map<Seq<char>, IndexEntry>>
    decreases logs.len() - i,
{
    if i < 0 || i >= logs.len() {
        Some(m)
    } else {
        match spec_apply_log_records_map(spec_log_records(logs[i].1, 0), logs[i].0, m) {
            None => None,
            Some(m2) => spec_replay_logs_map(logs, i + 1, m2),
        }
    }
}

/// The map a record sequence leaves behind does not depend on the
/// superseded accounting, and fails for the same inputs.
proof fn lemma_apply_log_records_u_irrelevant(
    recs: Seq<(Seq<u8>, Seq<u8>, int)>,
    file_id: u64,
    m: Map<Seq<char>, IndexEntry>,
    useless: u64,
)
    ensures
        match spec_apply_log_records(recs, file_id, m, useless) {
            Some((m2, u2)) => spec_apply_log_records_map(recs, file_id, m) == Some(m2),
            None => spec_apply_log_records_map(recs, file_id, m) is None,
        },
    decreases recs.len(),
{
    if recs.len() == 0 {
    } else {
        match spec_apply_log_record(m, useless, file_id, recs[0].0, recs[0].1, recs[0].2 as u64) {
            None => {},
            Some((m2, u2)) => {
                assert(spec_apply_log_record_map(m, file_id, recs[0].0, recs[0].1, recs[0].2 as u64)
                    == Some(m2)) by {
                    if valid_utf8(recs[0].0) && recs[0].1 != seq![DELETED_CODE]
                        && !m.contains_key(decode_utf8(recs[0].0)) {
                    }
                    if valid_utf8(recs[0].0) && recs[0].1 == seq![DELETED_CODE]
                        && !m.contains_key(decode_utf8(recs[0].0)) {
                        assert(m.remove(decode_utf8(recs[0].0)) =~= m);
                    }
                }
                lemma_apply_log_records_u_irrelevant(recs.drop_first(), file_id, m2, u2);
            },
        }
    }
}

/// Applying records with one more at the end is applying the records and
/// then the last one.
proof fn lemma_apply_log_records_map_snoc(
    recs: Seq<(Seq<u8>, Seq<u8>, int)>,
    r: (Seq<u8>, Seq<u8>, int),
    file_id: u64,
    m: Map<Seq<char>, IndexEntry>,
)
    ensures
        spec_apply_log_records_map(recs.push(r), file_id, m) == match spec_apply_log_records_map(
            recs,
            file_id,
            m,
        ) {
            None => None::<Map<Seq<char>, IndexEntry>>,
            Some(m2) => spec_apply_log_record_map(m2, file_id, r.0, r.1, r.2 as u64),
        },
    decreases recs.len(),
{
    if recs.len() == 0 {
        assert(recs.push(r)[0] == r);
        assert(recs.push(r).drop_first() =~= Seq::<(Seq<u8>, Seq<u8>, int)>::empty());
        match spec_apply_log_record_map(m, file_id, r.0, r.1, r.2 as u64) {
            None => {},
            Some(m2) => {
                assert(spec_apply_log_records_map(recs.push(r).drop_first(), file_id, m2) == Some(
                    m2,
                ));
            },
        }
    } else {
        assert(recs.push(r)[0] == recs[0]);
        assert(recs.push(r).drop_first() =~= recs.drop_first().push(r));
        match spec_apply_log_record_map(m, file_id, recs[0].0, recs[0].1, recs[0].2 as u64) {
            None => {},
            Some(m2) => {
                lemma_apply_log_records_map_snoc(recs.drop_first(), r, file_id, m2);
            },
        }
    }
}

/// Every directory entry a record sequence leaves behind was either there
/// before, untouched, or names the file the records belong to, ending at
/// one of their boundaries.
proof fn lemma_apply_log_records_map_created(
    recs: Seq<(Seq<u8>, Seq<u8>, int)>,
    file_id: u64,
    m: Map<Seq<char>, IndexEntry>,
    mf: Map<Seq<char>, IndexEntry>,
)
    requires
        spec_apply_log_records_map(recs, file_id, m) == Some(mf),
    ensures
        forall|k: Seq<char>| #[trigger]
            mf.contains_key(k) ==> (m.contains_key(k) && mf[k] == m[k]) || mf[k].file_id
                == file_id,
    decreases recs.len(),
{
    if recs.len() == 0 {
    } else {
        let m2 = spec_apply_log_record_map(m, file_id, recs[0].0, recs[0].1, recs[0].2 as u64)->Some_0;
        lemma_apply_log_records_map_created(recs.drop_first(), file_id, m2, mf);
        assert forall|k: Seq<char>| #[trigger]
            mf.contains_key(k) implies (m.contains_key(k) && mf[k] == m[k]) || mf[k].file_id
            == file_id by {
            if m2.contains_key(k) && mf[k] == m2[k] {
                if !(m.contains_key(k) && m2[k] == m[k]) {
                    assert(m2[k].file_id == file_id);
                }
            }
        }
    }
}

/// The same, lifted over the replay of several logs: an entry left behind
/// was there before or names one of the logs replayed.
proof fn lemma_replay_logs_map_created(
    logs: Seq<(u64, Seq<u8>)>,
    i: int,
    m: Map<Seq<char>, IndexEntry>,
    mf: Map<Seq<char>, IndexEntry>,
)
    requires
        spec_replay_logs_map(logs, i, m) == Some(mf),
    ensures
        forall|k: Seq<char>| #[trigger]
            mf.contains_key(k) ==> (m.contains_key(k) && mf[k] == m[k]) || exists|j: int|
                i <= j < logs.len() && mf[k].file_id == (#[trigger] logs[j].0),
    decreases logs.len() - i,
{
    if i < 0 || i >= logs.len() {
    } else {
        let m2 = spec_apply_log_records_map(spec_log_records(logs[i].1, 0), logs[i].0, m)->Some_0;
        lemma_apply_log_records_map_created(spec_log_records(logs[i].1, 0), logs[i].0, m, m2);
        lemma_replay_logs_map_created(logs, i + 1, m2, mf);
        assert forall|k: Seq<char>| #[trigger]
            mf.contains_key(k) implies (m.contains_key(k) && mf[k] == m[k]) || exists|j: int|
            i <= j < logs.len() && mf[k].file_id == (#[trigger] logs[j].0) by {
            if m2.contains_key(k) && mf[k] == m2[k] {
                if !(m.contains_key(k) && m2[k] == m[k]) {
                    assert(m2[k].file_id == logs[i].0);
                    assert(mf[k].file_id == logs[i].0);
                }
            }
        }
    }
}

impl BitcaskEngine {
    /// The segments' log contents, in id order.
    pub closed spec fn logs_seq(&self) -> Seq<(u64, Seq<u8>)> {
        Seq::new(self.ids().len(), |i: int| (self.ids()[i], self.files()[self.ids()[i]]))
    }

    /// The directory is exactly what replaying every log file in id order
    /// from an empty directory leaves behind: the state an honest history
    /// of appends puts on disk.
    pub closed spec fn synced(&self) -> bool {
        spec_replay_logs_map(self.logs_seq(), 0, key_dir_empty()) == Some(self.dir())
    }
}

/// Replaying logs whose last one grew by one record leaves the record
/// applied to what replaying the old logs left.
proof fn lemma_replay_logs_map_extend_last(
    logs: Seq<(u64, Seq<u8>)>,
    logs2: Seq<(u64, Seq<u8>)>,
    i: int,
    m: Map<Seq<char>, IndexEntry>,
    key: Seq<u8>,
    value: Seq<u8>,
)
    requires
        logs.len() > 0,
        logs2.len() == logs.len(),
        0 <= i < logs.len(),
        forall|j: int| 0 <= j < logs.len() - 1 ==> logs2[j] == logs[j],
        logs2.last().0 == logs.last().0,
        logs2.last().1 == logs.last().1 + spec_log_record(key, value),
        spec_log_clean(logs.last().1),
        key.len() <= u64::MAX,
        value.len() <= u64::MAX,
    ensures
        spec_replay_logs_map(logs2, i, m) == match spec_replay_logs_map(logs, i, m) {
            None => None::<Map<Seq<char>, IndexEntry>>,
            Some(m2) => spec_apply_log_record_map(
                m2,
                logs.last().0,
                key,
                value,
                (logs.last().1.len() + 16 + key.len() + value.len()) as u64,
            ),
        },
    decreases logs.len() - i,
{
    if i == logs.len() - 1 {
        let b = logs.last().1;
        let fid = logs.last().0;
        lemma_log_records_append(b, 0, key, value);
        let end = b.len() as int + 16 + key.len() + value.len();
        lemma_apply_log_records_map_snoc(
            spec_log_records(b, 0),
            (key, value, end),
            fid,
            m,
        );
        assert(logs2[i] == logs2.last());
        match spec_apply_log_records_map(spec_log_records(b, 0), fid, m) {
            None => {},
            Some(m2) => {
                assert(spec_replay_logs_map(logs, i + 1, m2) == Some(m2));
                match spec_apply_log_record_map(m2, fid, key, value, end as u64) {
                    None => {},
                    Some(m3) => {
                        assert(spec_replay_logs_map(logs2, i + 1, m3) == Some(m3));
                    },
                }
            },
        }
    } else {
        assert(logs2[i] == logs[i]);
        match spec_apply_log_records_map(spec_log_records(logs[i].1, 0), logs[i].0, m) {
            None => {},
            Some(m2) => {
                lemma_replay_logs_map_extend_last(logs, logs2, i + 1, m2, key, value);
            },
        }
    }
}

/// Replaying logs with one fresh log holding one record at the end leaves
/// the record applied to what replaying the old logs left.
proof fn lemma_replay_logs_map_push(
    logs: Seq<(u64, Seq<u8>)>,
    new_id: u64,
    i: int,
    m: Map<Seq<char>, IndexEntry>,
    key: Seq<u8>,
    value: Seq<u8>,
)
    requires
        0 <= i <= logs.len(),
        key.len() <= u64::MAX,
        value.len() <= u64::MAX,
    ensures
        spec_replay_logs_map(logs.push((new_id, spec_log_record(key, value))), i, m) == match
            spec_replay_logs_map(logs, i, m) {
            None => None::<Map<Seq<char>, IndexEntry>>,
            Some(m2) => spec_apply_log_record_map(
                m2,
                new_id,
                key,
                value,
                (16 + key.len() + value.len()) as u64,
            ),
        },
    decreases logs.len() - i,
{
    let logs2 = logs.push((new_id, spec_log_record(key, value)));
    if i == logs.len() {
        let b = spec_log_record(key, value);
        let end = 16 + key.len() + value.len();
        assert(logs2[i] == (new_id, b));
        assert(spec_scan_end(Seq::<u8>::empty(), 0) == 0);
        lemma_log_records_append(Seq::<u8>::empty(), 0, key, value);
        assert(Seq::<u8>::empty() + b =~= b);
        assert(spec_log_records(b, 0) =~= Seq::<(Seq<u8>, Seq<u8>, int)>::empty().push(
            (key, value, end as int),
        ));
        lemma_apply_log_records_map_snoc(
            Seq::<(Seq<u8>, Seq<u8>, int)>::empty(),
            (key, value, end as int),
            new_id,
            m,
        );
        match spec_apply_log_record_map(m, new_id, key, value, end as u64) {
            None => {},
            Some(m3) => {
                assert(spec_replay_logs_map(logs2, i + 1, m3) == Some(m3));
            },
        }
    } else {
        assert(logs2[i] == logs[i]);
        match spec_apply_log_records_map(spec_log_records(logs[i].1, 0), logs[i].0, m) {
            None => {},
            Some(m2) => {
                lemma_replay_logs_map_push(logs, new_id, i + 1, m2, key, value);
            },
        }
    }
}

/// After an append into the active log, the segments' logs are the same
/// but for the last, which grew by the appended bytes.
proof fn lemma_logs_seq_extend(pre: BitcaskEngine, post: BitcaskEngine, bytes: Seq<u8>)
    requires
        pre.wf(),
        post.ids() == pre.ids(),
        post.active() == pre.active(),
        post.files() == pre.files().insert(pre.active(), pre.files()[pre.active()] + bytes),
    ensures
        post.logs_seq().len() == pre.logs_seq().len(),
        forall|j: int|
            0 <= j < pre.ids().len() - 1 ==> post.logs_seq()[j] == pre.logs_seq()[j],
        post.logs_seq().last() == (pre.active(), pre.files()[pre.active()] + bytes),
{
    assert forall|j: int| 0 <= j < pre.ids().len() - 1 implies post.logs_seq()[j]
        == pre.logs_seq()[j] by {
        lemma_ids_ascending_at(pre.ids(), j, pre.ids().len() - 1);
        assert(pre.ids()[j] != pre.active());
    }
}

/// After a rollover, the segments' logs are the old ones with the fresh
/// log at the end.
proof fn lemma_logs_seq_push(pre: BitcaskEngine, post: BitcaskEngine, new_id: u64, bytes: Seq<u8>)
    requires
        pre.wf(),
        new_id > pre.active(),
        post.ids() == pre.ids().push(new_id),
        post.files() == pre.files().insert(new_id, bytes),
    ensures
        post.logs_seq() =~= pre.logs_seq().push((new_id, bytes)),
{
    assert forall|j: int| 0 <= j < pre.ids().len() implies post.logs_seq()[j]
        == pre.logs_seq()[j] by {
        if j < pre.ids().len() - 1 {
            lemma_ids_ascending_at(pre.ids(), j, pre.ids().len() - 1);
        }
        assert(pre.ids()[j] <= pre.active());
        assert(pre.ids()[j] != new_id);
    }
    assert(post.logs_seq().last() == (new_id, bytes));
}

/// Appending the record of one put or tombstone keeps the directory in
/// step with a replay of the logs.
proof fn lemma_append_preserves_synced(
    pre: BitcaskEngine,
    post: BitcaskEngine,
    key_bytes: Seq<u8>,
    value_bytes: Seq<u8>,
    rollover: Option<u64>,
    v_pos: u64,
)
    requires
        pre.wf(),
        pre.synced(),
        valid_utf8(key_bytes),
        key_bytes.len() <= u64::MAX,
        value_bytes.len() <= u64::MAX,
        post.dir() == if value_bytes == seq![DELETED_CODE] {
            pre.dir().remove(decode_utf8(key_bytes))
        } else {
            pre.dir().insert(
                decode_utf8(key_bytes),
                IndexEntry {
                    file_id: post.active(),
                    v_pos,
                    v_size: value_bytes.len() as u64,
                },
            )
        },
        v_pos == post.files()[post.active()].len(),
        match rollover {
            None => {
                &&& pre.files()[pre.active()].len() + spec_log_record(key_bytes, value_bytes).len()
                    <= u64::MAX
                &&& post.active() == pre.active()
                &&& post.ids() == pre.ids()
                &&& post.files() == pre.files().insert(
                    pre.active(),
                    pre.files()[pre.active()] + spec_log_record(key_bytes, value_bytes),
                )
            },
            Some(new_id) => {
                &&& new_id == pre.active() + 1
                &&& post.active() == new_id
                &&& post.ids() == pre.ids().push(new_id)
                &&& post.files() == pre.files().insert(
                    new_id,
                    spec_log_record(key_bytes, value_bytes),
                )
            },
        },
    ensures
        post.synced(),
{
    let k = decode_utf8(key_bytes);
    match rollover {
        None => {
            lemma_logs_seq_extend(
                pre,
                post,
                spec_log_record(key_bytes, value_bytes),
            );
            assert(pre.logs_seq().last() == (pre.active(), pre.files()[pre.active()]));
            assert(spec_log_clean(pre.logs_seq().last().1));
            lemma_replay_logs_map_extend_last(
                pre.logs_seq(),
                post.logs_seq(),
                0,
                key_dir_empty(),
                key_bytes,
                value_bytes,
            );
            assert(v_pos == pre.files()[pre.active()].len() + 16 + key_bytes.len()
                + value_bytes.len());
            assert(spec_replay_logs_map(post.logs_seq(), 0, key_dir_empty())
                == spec_apply_log_record_map(pre.dir(), pre.active(), key_bytes, value_bytes, v_pos));
        },
        Some(new_id) => {
            lemma_logs_seq_push(pre, post, new_id, spec_log_record(key_bytes, value_bytes));
            lemma_replay_logs_map_push(
                pre.logs_seq(),
                new_id,
                0,
                key_dir_empty(),
                key_bytes,
                value_bytes,
            );
            assert(post.logs_seq() == pre.logs_seq().push(
                (new_id, spec_log_record(key_bytes, value_bytes)),
            ));
            assert(v_pos == 16 + key_bytes.len() + value_bytes.len());
            assert(spec_replay_logs_map(post.logs_seq(), 0, key_dir_empty())
                == spec_apply_log_record_map(pre.dir(), new_id, key_bytes, value_bytes, v_pos));
        },
    }
    if value_bytes == seq![DELETED_CODE] {
        assert(spec_apply_log_record_map(pre.dir(), post.active(), key_bytes, value_bytes, v_pos)
            == Some(pre.dir().remove(k)));
    } else {
        assert(spec_apply_log_record_map(pre.dir(), post.active(), key_bytes, value_bytes, v_pos)
            == Some(
            pre.dir().insert(
                k,
                IndexEntry { file_id: post.active(), v_pos, v_size: value_bytes.len() as u64 },
            ),
        ));
    }
}

/// Replaying logs that hold the same records leaves the same directory.
proof fn lemma_replay_logs_map_agree(
    l1: Seq<(u64, Seq<u8>)>,
    l2: Seq<(u64, Seq<u8>)>,
    i: int,
    m: Map<Seq<char>, IndexEntry>,
)
    requires
        l1.len() == l2.len(),
        forall|j: int|
            0 <= j < l1.len() ==> (#[trigger] l1[j]).0 == (#[trigger] l2[j]).0 && spec_log_records(
                l1[j].1,
                0,
            ) == spec_log_records(l2[j].1, 0),
    ensures
        spec_replay_logs_map(l1, i, m) == spec_replay_logs_map(l2, i, m),
    decreases l1.len() - i,
{
    if i < 0 || i >= l1.len() {
    } else {
        match spec_apply_log_records_map(spec_log_records(l1[i].1, 0), l1[i].0, m) {
            None => {},
            Some(m2) => {
                lemma_replay_logs_map_agree(l1, l2, i + 1, m2);
            },
        }
    }
}

/// Two stores over the same segment files whose directories both replay
/// the logs hold the same keys and values: recovery of a cleanly written
/// store reproduces it.
pub proof fn lemma_recovery_identity(e1: BitcaskEngine, e2: BitcaskEngine)
    requires
        e1.wf(),
        e2.wf(),
        e1.synced(),
        e2.synced(),
        e1.ids() == e2.ids(),
        e1.files() == e2.files(),
    ensures
        e1.dir() == e2.dir(),
        e1@ == e2@,
{
    assert(e1.logs_seq() =~= e2.logs_seq());
    assert(e1.dir() == e2.dir());
    assert(e1@ =~= e2@);
}

/// What holds of each record collected for a merge: it is its key's live
/// record, its key lies in a sealed segment, and its value bytes are the
/// key's live value.
pub open spec fn spec_live_record(e: BitcaskEngine, le: LogEntry) -> bool {
    &&& le.k_size == le.key@.len()
    &&& le.v_size == le.value@.len()
    &&& valid_utf8(le.key@)
    &&& e.dir().contains_key(decode_utf8(le.key@))
    &&& e.dir()[decode_utf8(le.key@)].file_id != e.active()
    &&& e.dir()[decode_utf8(le.key@)].v_size == le.value@.len()
    &&& e@[decode_utf8(le.key@)] == le.value@
    &&& le.value@ != seq![DELETED_CODE]
}

/// Some collected record carries the key.
pub open spec fn spec_live_has(live: Seq<LogEntry>, k: Seq<char>) -> bool {
    exists|j: int| 0 <= j < live.len() && decode_utf8((#[trigger] live[j].key@)) == k
}

/// No two collected records carry the same key.
pub open spec fn spec_live_distinct(live: Seq<LogEntry>) -> bool {
    forall|j1: int, j2: int|
        0 <= j1 < j2 < live.len() ==> decode_utf8((#[trigger] live[j1].key@)) != decode_utf8(
            (#[trigger] live[j2].key@),
        )
}

impl BitcaskEngine {
    /// Scans the sealed segments' logs and collects the one live record of
    /// every key whose directory entry points into them, discounting each
    /// superseded or tombstoned record it passes over from the superseded
    /// count, which it returns.
    fn collect_live(&self, old_logs: Vec<Vec<u8>>) -> (r: (Vec<LogEntry>, u64))
        requires
            self.wf(),
            self.synced(),
            old_logs@.len() + 1 == self.ids().len(),
            forall|i: int|
                0 <= i < old_logs@.len() ==> (#[trigger] old_logs@[i])@ == self.files()[self.ids()[i]],
        ensures
            ({
                let (live, new_useless) = r;
                let scan = spec_scan_logs(self.sealed_logs(), self.dir(), self.useless());
                &&& new_useless <= self.useless()
                &&& spec_live_pairs(live@) == scan.0
                &&& new_useless == scan.1
                &&& forall|j: int|
                    0 <= j < live@.len() ==> spec_live_record(*self, #[trigger] live@[j])
                &&& spec_live_distinct(live@)
                &&& forall|k: Seq<char>| #[trigger]
                    self.dir().contains_key(k) && self.dir()[k].file_id != self.active()
                        ==> spec_live_has(live@, k)
            }),
    {
        let ghost logs = self.logs_seq();
        let ghost given = old_logs@;
        let n_old = old_logs.len();
        let mut remaining = old_logs;
        let mut live: Vec<LogEntry> = Vec::new();
        let mut u = self.useless_value_bytes;
        let mut m_acc: Ghost<Map<Seq<char>, IndexEntry>> = Ghost(key_dir_empty());
        let mut i: usize = 0;
        let ghost sealed = self.sealed_logs();
        let ghost total_scan = spec_scan_logs(sealed, self.dir(), self.useless_value_bytes);
        proof {
            assert(logs.len() == n_old + 1);
            assert(remaining@ =~= given.subrange(0, n_old as int));
            assert(sealed.len() == n_old);
            assert(sealed.subrange(0, n_old as int) =~= sealed);
            assert(spec_live_pairs(live@) =~= Seq::<(Seq<u8>, Seq<u8>)>::empty());
        }
        while i < n_old
            invariant
                self.wf(),
                self.synced(),
                logs == self.logs_seq(),
                given == old_logs@,
                logs.len() == n_old + 1,
                n_old == given.len(),
                n_old + 1 == self.ids().len(),
                0 <= i <= n_old,
                remaining@ =~= given.subrange(i as int, n_old as int),
                forall|j: int|
                    0 <= j < given.len() ==> (#[trigger] given[j])@ == self.files()[self.ids()[j]],
                u <= self.useless(),
                spec_replay_logs_map(logs, i as int, m_acc@) == Some(self.dir()),
                sealed == self.sealed_logs(),
                sealed.len() == n_old,
                forall|j: int| 0 <= j < n_old ==> (#[trigger] sealed[j]) == logs[j],
                total_scan == spec_scan_logs(sealed, self.dir(), self.useless()),
                ({
                    let rem = spec_scan_logs(
                        sealed.subrange(i as int, n_old as int),
                        self.dir(),
                        u,
                    );
                    spec_live_pairs(live@) + rem.0 == total_scan.0 && rem.1 == total_scan.1
                }),
                forall|j: int|
                    0 <= j < live@.len() ==> spec_live_record(*self, #[trigger] live@[j]),
                spec_live_distinct(live@),
                forall|j: int|
                    0 <= j < live@.len() ==> self.dir()[decode_utf8(
                        (#[trigger] live@[j].key@),
                    )].file_id < self.ids()[i as int],
                forall|k: Seq<char>|
                    (#[trigger] m_acc@.contains_key(k)) && self.dir().contains_key(k) && m_acc@[k]
                        == self.dir()[k] ==> spec_live_has(live@, k),
            decreases n_old - i,
        {
            let file_bytes = remaining.remove(0);
            let ghost fb = file_bytes@;
            let cur_id = self.segment_ids[i];
            proof {
                assert(file_bytes == given[i as int]);
                assert(fb == self.files()[self.ids()[i as int]]);
                assert(cur_id == self.ids()[i as int]);
                assert(logs[i as int] == (cur_id, fb));
                assert(remaining@ =~= given.subrange(i as int + 1, n_old as int));
                assert(sealed.subrange(i as int, n_old as int)[0] == (cur_id, fb));
                assert(sealed.subrange(i as int, n_old as int).drop_first() =~= sealed.subrange(
                    i as int + 1,
                    n_old as int,
                ));
            }
            let mut reader = BufReaderWithPos::new(file_bytes);
            loop
                invariant
                    self.wf(),
                    self.synced(),
                    logs == self.logs_seq(),
                    logs.len() == n_old + 1,
                    n_old + 1 == self.ids().len(),
                    0 <= i < n_old,
                    cur_id == self.ids()[i as int],
                    reader.wf(),
                    reader@ == fb,
                    fb == self.files()[cur_id],
                    u <= self.useless(),
                    sealed == self.sealed_logs(),
                    sealed.len() == n_old,
                    total_scan == spec_scan_logs(sealed, self.dir(), self.useless()),
                    ({
                        let r1 = spec_scan_records(
                            spec_log_records(fb, reader.pos as int),
                            cur_id,
                            self.dir(),
                            u,
                        );
                        let r2 = spec_scan_logs(
                            sealed.subrange(i as int + 1, n_old as int),
                            self.dir(),
                            r1.1,
                        );
                        spec_live_pairs(live@) + r1.0 + r2.0 == total_scan.0 && r2.1
                            == total_scan.1
                    }),
                    spec_apply_log_records_map(
                        spec_log_records(fb, reader.pos as int),
                        cur_id,
                        m_acc@,
                    ) is Some,
                    spec_replay_logs_map(
                        logs,
                        i as int + 1,
                        spec_apply_log_records_map(
                            spec_log_records(fb, reader.pos as int),
                            cur_id,
                            m_acc@,
                        )->Some_0,
                    ) == Some(self.dir()),
                    forall|j: int|
                        0 <= j < live@.len() ==> spec_live_record(*self, #[trigger] live@[j]),
                    spec_live_distinct(live@),
                    forall|j: int|
                        0 <= j < live@.len() ==> {
                            let de = self.dir()[decode_utf8((#[trigger] live@[j].key@))];
                            de.file_id < cur_id || (de.file_id == cur_id && de.v_pos
                                <= reader.pos)
                        },
                    forall|k: Seq<char>|
                        (#[trigger] m_acc@.contains_key(k)) && self.dir().contains_key(k)
                            && m_acc@[k] == self.dir()[k] ==> spec_live_has(live@, k),
                ensures
                    spec_parse_log_record(fb, reader.pos as int) is None,
                decreases reader@.len() - reader.pos,
            {
                let ghost pos_before = reader.pos as int;
                let ghost m_pre = m_acc@;
                let ghost live_pre = live@;
                let ghost u_before = u;
                let next = crate::entry::read_log_entry(&mut reader);
                match next {
                    None => {
                        break ;
                    },
                    Some((entry, v_pos)) => {
                        let ghost rest = spec_log_records(fb, v_pos as int);
                        proof {
                            assert(spec_log_records(fb, pos_before) =~= seq![
                                (entry.key@, entry.value@, v_pos as int),
                            ] + rest);
                            assert((seq![(entry.key@, entry.value@, v_pos as int)]
                                + rest).drop_first() =~= rest);
                            assert(spec_apply_log_record_map(
                                m_pre,
                                cur_id,
                                entry.key@,
                                entry.value@,
                                v_pos,
                            ) is Some);
                            assert(valid_utf8(entry.key@));
                            assert(v_pos as int >= pos_before + 16);
                        }
                        let is_tombstone = entry.value.len() == 1 && entry.value[0]
                            == DELETED_CODE;
                        proof {
                            assert(is_tombstone <==> entry.value@ =~= seq![DELETED_CODE]);
                        }
                        if is_tombstone {
                            proof {
                                m_acc@ = m_pre.remove(decode_utf8(entry.key@));
                                assert(spec_apply_log_record_map(
                                    m_pre,
                                    cur_id,
                                    entry.key@,
                                    entry.value@,
                                    v_pos,
                                ) == Some(m_acc@));
                                assert forall|k: Seq<char>|
                                    (#[trigger] m_acc@.contains_key(k))
                                        && self.dir().contains_key(k) && m_acc@[k]
                                        == self.dir()[k] implies spec_live_has(live@, k) by {
                                    assert(m_pre.contains_key(k) && m_pre[k] == m_acc@[k]);
                                }
                            }
                            u = sat_sub(u, 1);
                            proof {
                                assert(spec_scan_records(
                                    spec_log_records(fb, pos_before),
                                    cur_id,
                                    self.dir(),
                                    u_before,
                                ) == spec_scan_records(rest, cur_id, self.dir(), u));
                            }
                        } else {
                            let ghost new_entry_spec = IndexEntry {
                                file_id: cur_id,
                                v_pos,
                                v_size: entry.value@.len() as u64,
                            };
                            let key = match bytes_to_string(
                                vstd::slice::slice_to_vec(entry.key.as_slice()),
                            ) {
                                Some(s) => s,
                                None => {
                                    proof {
                                        assert(false);
                                    }
                                    return (live, u);
                                },
                            };
                            let candidate = IndexEntry {
                                file_id: cur_id,
                                v_pos,
                                v_size: entry.v_size,
                            };
                            proof {
                                m_acc@ = m_pre.insert(key@, new_entry_spec);
                                assert(new_entry_spec == candidate);
                                assert(key@ == decode_utf8(entry.key@));
                                assert(spec_apply_log_record_map(
                                    m_pre,
                                    cur_id,
                                    entry.key@,
                                    entry.value@,
                                    v_pos,
                                ) == Some(m_acc@));
                            }
                            let mut emitted = false;
                            match key_dir_get(&self.index, &key) {
                                Some(dir_entry) => {
                                    if dir_entry == candidate {
                                        proof {
                                            assert(self.dir().contains_key(key@));
                                            assert(self.entry_wf(dir_entry));
                                            assert(self@[key@] =~= entry.value@) by {
                                                assert(self.entry_value(dir_entry) =~= fb
                                                    .subrange(
                                                    v_pos - entry.value@.len(),
                                                    v_pos as int,
                                                ));
                                            }
                                            assert(dir_entry.file_id == cur_id);
                                            assert(cur_id != self.active()) by {
                                                lemma_ids_ascending_at(
                                                    self.ids(),
                                                    i as int,
                                                    self.ids().len() - 1,
                                                );
                                            }
                                            assert(spec_live_record(*self, entry));
                                            assert forall|j: int|
                                                0 <= j < live_pre.len() implies decode_utf8(
                                                (#[trigger] live_pre[j].key@),
                                            ) != key@ by {
                                                if decode_utf8(live_pre[j].key@) == key@ {
                                                    assert(self.dir()[key@].v_pos
                                                        <= pos_before);
                                                }
                                            }
                                        }
                                        live.push(entry);
                                        emitted = true;
                                        proof {
                                            assert(live@ == live_pre.push(entry));
                                            assert(decode_utf8(live@[live_pre.len() as int].key@)
                                                == key@);
                                            assert(spec_live_has(live@, key@));
                                            assert(self.dir()[decode_utf8(entry.key@)]
                                                == IndexEntry {
                                                file_id: cur_id,
                                                v_pos,
                                                v_size: entry.value@.len() as u64,
                                            });
                                            let r_rest = spec_scan_records(
                                                rest,
                                                cur_id,
                                                self.dir(),
                                                u,
                                            );
                                            assert(spec_scan_records(
                                                spec_log_records(fb, pos_before),
                                                cur_id,
                                                self.dir(),
                                                u_before,
                                            ) == (seq![(entry.key@, entry.value@)] + r_rest.0, r_rest.1));
                                            assert(spec_live_pairs(live@) =~= spec_live_pairs(
                                                live_pre,
                                            ).push((entry.key@, entry.value@)));
                                            assert(spec_live_pairs(live_pre).push(
                                                (entry.key@, entry.value@),
                                            ) + r_rest.0 =~= spec_live_pairs(live_pre) + (seq![
                                                (entry.key@, entry.value@),
                                            ] + r_rest.0));
                                        }
                                    } else {
                                        u = sat_sub(u, entry.v_size);
                                        proof {
                                            assert(self.dir().contains_key(
                                                decode_utf8(entry.key@),
                                            ));
                                            assert(self.dir()[decode_utf8(entry.key@)]
                                                != IndexEntry {
                                                file_id: cur_id,
                                                v_pos,
                                                v_size: entry.value@.len() as u64,
                                            });
                                            assert(spec_scan_records(
                                                spec_log_records(fb, pos_before),
                                                cur_id,
                                                self.dir(),
                                                u_before,
                                            ) == spec_scan_records(rest, cur_id, self.dir(), u));
                                        }
                                    }
                                },
                                None => {
                                    u = sat_sub(u, 1);
                                    proof {
                                        assert(!self.dir().contains_key(decode_utf8(entry.key@)));
                                        assert(spec_scan_records(
                                            spec_log_records(fb, pos_before),
                                            cur_id,
                                            self.dir(),
                                            u_before,
                                        ) == spec_scan_records(rest, cur_id, self.dir(), u));
                                    }
                                },
                            }
                            proof {
                                if !emitted {
                                    assert(live@ == live_pre);
                                }
                                assert forall|j: int|
                                    0 <= j < live@.len() implies spec_live_record(
                                    *self,
                                    #[trigger] live@[j],
                                ) by {
                                    if j < live_pre.len() {
                                        assert(live@[j] == live_pre[j]);
                                    }
                                }
                                assert forall|j: int| 0 <= j < live@.len() implies {
                                    let de = self.dir()[decode_utf8(
                                        (#[trigger] live@[j].key@),
                                    )];
                                    de.file_id < cur_id || (de.file_id == cur_id && de.v_pos
                                        <= reader.pos)
                                } by {
                                    if j < live_pre.len() {
                                        assert(live@[j] == live_pre[j]);
                                    }
                                }
                                assert(spec_live_distinct(live@)) by {
                                    assert forall|j1: int, j2: int|
                                        0 <= j1 < j2 < live@.len() implies decode_utf8(
                                        (#[trigger] live@[j1].key@),
                                    ) != decode_utf8((#[trigger] live@[j2].key@)) by {
                                        if j2 < live_pre.len() {
                                            assert(live@[j1] == live_pre[j1]);
                                            assert(live@[j2] == live_pre[j2]);
                                        } else {
                                            assert(live@[j1] == live_pre[j1]);
                                        }
                                    }
                                }
                                assert forall|k: Seq<char>|
                                    (#[trigger] m_acc@.contains_key(k))
                                        && self.dir().contains_key(k) && m_acc@[k]
                                        == self.dir()[k] implies spec_live_has(live@, k) by {
                                    if k == key@ {
                                        assert(m_acc@[k] == candidate);
                                        assert(emitted);
                                    } else {
                                        assert(m_pre.contains_key(k) && m_pre[k] == m_acc@[k]);
                                        assert(spec_live_has(live_pre, k));
                                        let j = choose|j: int|
                                            0 <= j < live_pre.len() && decode_utf8(
                                                (#[trigger] live_pre[j].key@),
                                            ) == k;
                                        assert(live@[j] == live_pre[j]);
                                        assert(spec_live_has(live@, k));
                                    }
                                }
                            }
                        }
                    },
                }
            }
            proof {
                assert(spec_log_records(fb, reader.pos as int) =~= Seq::<
                    (Seq<u8>, Seq<u8>, int),
                >::empty());
                assert(spec_apply_log_records_map(
                    spec_log_records(fb, reader.pos as int),
                    cur_id,
                    m_acc@,
                ) == Some(m_acc@));
                assert(spec_replay_logs_map(logs, i as int + 1, m_acc@) == Some(self.dir()));
                assert(spec_scan_records(
                    spec_log_records(fb, reader.pos as int),
                    cur_id,
                    self.dir(),
                    u,
                ) == (Seq::<(Seq<u8>, Seq<u8>)>::empty(), u));
                assert(spec_live_pairs(live@) + Seq::<(Seq<u8>, Seq<u8>)>::empty()
                    =~= spec_live_pairs(live@));
                assert forall|j: int| 0 <= j < live@.len() implies self.dir()[decode_utf8(
                    (#[trigger] live@[j].key@),
                )].file_id < self.ids()[i as int + 1] by {
                    lemma_ids_ascending_at(self.ids(), i as int, i as int + 1);
                }
            }
            i = i + 1;
        }
        proof {
            let active_recs = spec_log_records(logs[n_old as int].1, 0);
            let m2 = spec_apply_log_records_map(active_recs, logs[n_old as int].0, m_acc@);
            assert(spec_replay_logs_map(logs, n_old as int, m_acc@) == Some(self.dir()));
            assert(m2 is Some);
            assert(spec_replay_logs_map(logs, n_old as int + 1, m2->Some_0) == Some(self.dir()));
            assert(m2->Some_0 == self.dir());
            lemma_apply_log_records_map_created(
                active_recs,
                logs[n_old as int].0,
                m_acc@,
                self.dir(),
            );
            assert(logs[n_old as int].0 == self.active());
            assert forall|k: Seq<char>| #[trigger]
                self.dir().contains_key(k) && self.dir()[k].file_id != self.active()
                    implies spec_live_has(live@, k) by {
                assert(m_acc@.contains_key(k) && m_acc@[k] == self.dir()[k]);
            }
            assert(sealed.subrange(n_old as int, n_old as int) =~= Seq::<
                (u64, Seq<u8>),
            >::empty());
            assert(spec_scan_logs(Seq::<(u64, Seq<u8>)>::empty(), self.dir(), u) == (Seq::<
                (Seq<u8>, Seq<u8>),
            >::empty(), u));
            assert(spec_live_pairs(live@) + Seq::<(Seq<u8>, Seq<u8>)>::empty() =~= spec_live_pairs(
                live@,
            ));
            assert(spec_live_pairs(live@) == total_scan.0);
            assert(u == total_scan.1);
        }
        (live, u)
    }
}

/// The store's view is determined by the directory and the files: each
/// live key's value is the byte range its entry names.
pub proof fn lemma_view_characterization(e: BitcaskEngine)
    ensures
        forall|k: Seq<char>| #[trigger] e@.contains_key(k) <==> e.dir().contains_key(k),
        forall|k: Seq<char>| #[trigger]
            e.dir().contains_key(k) ==> e@[k] == e.files()[e.dir()[k].file_id].subrange(
                e.dir()[k].v_pos - e.dir()[k].v_size,
                e.dir()[k].v_pos as int,
            ),
{
}

/// A well-formed store holds exactly one log per listed segment id.
pub proof fn lemma_files_domain(e: BitcaskEngine)
    requires
        e.wf(),
    ensures
        e.files().dom() =~= e.ids().to_set(),
{
}

/// Two stores with the same directory and the same files read back the
/// same keys and values.
pub proof fn lemma_view_from_model(e1: BitcaskEngine, e2: BitcaskEngine)
    requires
        e1.dir() == e2.dir(),
        e1.files() == e2.files(),
    ensures
        e1@ == e2@,
{
    assert(e1@ =~= e2@);
}

/// Putting a key and then looking it up yields the value that was put:
/// the lookup of `k` after a put of `v` decodes back to `v`, whatever the
/// store held before.
pub proof fn lemma_put_then_lookup(m: Map<Seq<char>, Seq<u8>>, k: Seq<char>, v: Seq<char>)
    ensures
        m.insert(k, encode_utf8(v)).contains_key(k),
        valid_utf8(m.insert(k, encode_utf8(v))[k]),
        decode_utf8(m.insert(k, encode_utf8(v))[k]) == v,
{
    broadcast use vstd::utf8::encode_utf8_valid_utf8;
    broadcast use vstd::utf8::encode_utf8_decode_utf8;

}

/// No stored value is mistaken for a tombstone: a put value of any length,
/// the empty string included, never serializes to the tombstone marker.
pub proof fn lemma_value_never_tombstone(v: Seq<char>)
    ensures
        encode_utf8(v) != seq![DELETED_CODE],
{
    broadcast use vstd::utf8::encode_utf8_valid_utf8;

    crate::strings::lemma_deleted_code_not_utf8();
}

/// Whether a replay of records goes through does not depend on the
/// directory it starts from.
proof fn lemma_apply_records_some_indep(
    recs: Seq<(Seq<u8>, Seq<u8>, int)>,
    file_id: u64,
    m1: Map<Seq<char>, IndexEntry>,
    m2: Map<Seq<char>, IndexEntry>,
)
    requires
        spec_apply_log_records_map(recs, file_id, m1) is Some,
    ensures
        spec_apply_log_records_map(recs, file_id, m2) is Some,
    decreases recs.len(),
{
    if recs.len() == 0 {
    } else {
        let n1 = spec_apply_log_record_map(m1, file_id, recs[0].0, recs[0].1, recs[0].2 as u64)->Some_0;
        let n2 = spec_apply_log_record_map(m2, file_id, recs[0].0, recs[0].1, recs[0].2 as u64)->Some_0;
        lemma_apply_records_some_indep(recs.drop_first(), file_id, n1, n2);
    }
}

/// The offset where a scan of the hint records of `b` starting at `pos`
/// stops.
pub open spec fn spec_hint_scan_end(b: Seq<u8>, pos: int) -> int
    decreases b.len() - pos,
{
    match spec_parse_hint_record(b, pos) {
        None => pos,
        Some((key, v_size, v_pos, end)) => spec_hint_scan_end(b, end),
    }
}

/// Appending one whole hint record at the end of a hint file makes it the
/// one record a scan from there finds.
#[verifier::rlimit(50)]
#[verifier::spinoff_prover]
proof fn lemma_hint_records_append_base(b: Seq<u8>, key: Seq<u8>, v_size: u64, v_pos: u64)
    requires
        key.len() <= u64::MAX,
    ensures
        spec_hint_records(b + spec_hint_record(key, v_size, v_pos), b.len() as int) =~= seq![
            (key, v_size, v_pos),
        ],
        spec_hint_scan_end(b + spec_hint_record(key, v_size, v_pos), b.len() as int) == b.len()
            as int + 24 + key.len(),
{
    let b2 = b + spec_hint_record(key, v_size, v_pos);
    let pos = b.len() as int;
    let total = pos + 24 + key.len();
    crate::entry::lemma_hint_record_roundtrip(b, key, v_size, v_pos);
    assert(spec_parse_hint_record(b2, pos) == Some((key, v_size, v_pos, total)));
    assert(b2.len() == total);
    assert(spec_parse_hint_record(b2, total) is None);
    assert(spec_hint_records(b2, pos) =~= seq![(key, v_size, v_pos)] + spec_hint_records(
        b2,
        total,
    ));
    assert(spec_hint_records(b2, total) =~= Seq::<(Seq<u8>, u64, u64)>::empty());
    assert(spec_hint_scan_end(b2, pos) == spec_hint_scan_end(b2, total));
}

/// Appending one whole hint record to a clean hint file extends its record
/// list by exactly that record and keeps the file clean.
#[verifier::rlimit(100)]
#[verifier::spinoff_prover]
proof fn lemma_hint_records_append(b: Seq<u8>, pos: int, key: Seq<u8>, v_size: u64, v_pos: u64)
    requires
        0 <= pos <= b.len(),
        spec_hint_scan_end(b, pos) == b.len(),
        key.len() <= u64::MAX,
    ensures
        spec_hint_records(b + spec_hint_record(key, v_size, v_pos), pos) =~= spec_hint_records(
            b,
            pos,
        ).push((key, v_size, v_pos)),
        spec_hint_scan_end(b + spec_hint_record(key, v_size, v_pos), pos) == b.len() as int + 24
            + key.len(),
    decreases b.len() - pos,
{
    let b2 = b + spec_hint_record(key, v_size, v_pos);
    let total = b.len() as int + 24 + key.len();
    match spec_parse_hint_record(b, pos) {
        None => {
            assert(pos == b.len());
            lemma_hint_records_append_base(b, key, v_size, v_pos);
            assert(spec_hint_records(b, pos) =~= Seq::<(Seq<u8>, u64, u64)>::empty());
            assert(Seq::<(Seq<u8>, u64, u64)>::empty().push((key, v_size, v_pos)) =~= seq![
                (key, v_size, v_pos),
            ]);
        },
        Some((k0, vs0, vp0, e0)) => {
            assert(b2.subrange(0, b.len() as int) =~= b);
            crate::entry::lemma_parse_hint_record_prefix(b, b2, pos);
            assert(spec_parse_hint_record(b2, pos) == Some((k0, vs0, vp0, e0)));
            lemma_hint_records_append(b, e0, key, v_size, v_pos);
            assert(spec_hint_records(b2, pos) =~= seq![(k0, vs0, vp0)] + spec_hint_records(
                b2,
                e0,
            ));
            assert(spec_hint_records(b, pos) =~= seq![(k0, vs0, vp0)] + spec_hint_records(b, e0));
            assert((seq![(k0, vs0, vp0)] + spec_hint_records(b, e0)).push((key, v_size, v_pos))
                =~= seq![(k0, vs0, vp0)] + spec_hint_records(b, e0).push((key, v_size, v_pos)));
            assert(spec_hint_scan_end(b2, pos) == spec_hint_scan_end(b2, e0));
        },
    }
}

/// A hint file whose records mirror a log's records, key for key and
/// location for location, loads exactly as scanning the log would,
/// whatever directory the load starts from.
pub open spec fn spec_hint_faithful(hint: Seq<u8>, log: Seq<u8>, file_id: u64) -> bool {
    forall|m: Map<Seq<char>, IndexEntry>|
        #![trigger spec_apply_hint_records(spec_hint_records(hint, 0), file_id, log.len() as u64, m)]
        spec_apply_hint_records(spec_hint_records(hint, 0), file_id, log.len() as u64, m)
            == spec_apply_log_records_map(spec_log_records(log, 0), file_id, m)
}

/// A segment either has no hint file or a faithful one.
pub open spec fn spec_segment_hint_ok(seg: (u64, Seq<u8>, Option<Seq<u8>>)) -> bool {
    match seg.2 {
        None => true,
        Some(h) => spec_hint_faithful(h, seg.1, seg.0),
    }
}

/// A hint record mirrors a log record when it carries the same key and
/// names the log record's value region, which lies within the log.
pub open spec fn spec_mirrored(
    lr: (Seq<u8>, Seq<u8>, int),
    hr: (Seq<u8>, u64, u64),
    log_len: u64,
) -> bool {
    &&& valid_utf8(lr.0)
    &&& lr.1 != seq![DELETED_CODE]
    &&& hr.0 == lr.0
    &&& hr.1 == lr.1.len() as u64
    &&& hr.2 == lr.2 as u64
    &&& hr.1 <= hr.2 <= log_len
    &&& 0 <= lr.2 <= u64::MAX
}

/// Loading hint records that mirror log records applies the same inserts
/// as replaying the log records, from any directory.
proof fn lemma_mirrored_records_fold_equal(
    lrecs: Seq<(Seq<u8>, Seq<u8>, int)>,
    hrecs: Seq<(Seq<u8>, u64, u64)>,
    file_id: u64,
    log_len: u64,
    m: Map<Seq<char>, IndexEntry>,
)
    requires
        lrecs.len() == hrecs.len(),
        forall|t: int|
            0 <= t < lrecs.len() ==> #[trigger] spec_mirrored(lrecs[t], hrecs[t], log_len),
    ensures
        spec_apply_hint_records(hrecs, file_id, log_len, m) == spec_apply_log_records_map(
            lrecs,
            file_id,
            m,
        ),
    decreases lrecs.len(),
{
    if lrecs.len() == 0 {
    } else {
        assert(spec_mirrored(lrecs[0], hrecs[0], log_len));
        let m2 = spec_apply_log_record_map(
            m,
            file_id,
            lrecs[0].0,
            lrecs[0].1,
            lrecs[0].2 as u64,
        )->Some_0;
        assert(m2 == m.insert(
            decode_utf8(lrecs[0].0),
            IndexEntry { file_id, v_pos: hrecs[0].2, v_size: hrecs[0].1 },
        ));
        assert forall|t: int| 0 <= t < lrecs.drop_first().len() implies #[trigger] spec_mirrored(
            lrecs.drop_first()[t],
            hrecs.drop_first()[t],
            log_len,
        ) by {
            assert(lrecs.drop_first()[t] == lrecs[t + 1]);
            assert(hrecs.drop_first()[t] == hrecs[t + 1]);
            assert(spec_mirrored(lrecs[t + 1], hrecs[t + 1], log_len));
        }
        lemma_mirrored_records_fold_equal(
            lrecs.drop_first(),
            hrecs.drop_first(),
            file_id,
            log_len,
            m2,
        );
    }
}

/// One replacement segment a merge produced: the caller writes the log
/// bytes to `<id>.log.temp` and the hint bytes to `<id>.hint.temp`, then
/// renames both, dropping the `.temp`.
pub struct MergedSegment {
    pub id: u64,
    pub log: Vec<u8>,
    pub hint: Vec<u8>,
}

/// What the caller must do to durable storage after a merge: write and
/// rename each replacement segment's files and open readers for them, then
/// delete the old segments' files and drop their readers.
pub struct MergeEffect {
    /// The sealed segments that were merged away: delete `<id>.log` and any
    /// `<id>.hint`.
    pub old_ids: Vec<u64>,
    /// The replacement segments, with ids counted up from zero.
    pub outputs: Vec<MergedSegment>,
}

/// What one merge pass over a file's records yields: the live pairs it
/// keeps, in scan order, and the superseded count after its discounts.  A
/// tombstone discounts its own byte; a record whose key's directory entry
/// is exactly this record is live and kept; any other record of a present
/// key discounts its value bytes; a record of an absent key discounts one
/// byte.  All discounts saturate at zero.
pub open spec fn spec_scan_records(
    recs: Seq<(Seq<u8>, Seq<u8>, int)>,
    file_id: u64,
    dir: Map<Seq<char>, IndexEntry>,
    useless: u64,
) -> (Seq<(Seq<u8>, Seq<u8>)>, u64)
    decreases recs.len(),
{
    if recs.len() == 0 {
        (seq![], useless)
    } else {
        let (key, value, end) = recs[0];
        if value == seq![DELETED_CODE] {
            spec_scan_records(recs.drop_first(), file_id, dir, spec_sat_sub(useless, 1))
        } else if valid_utf8(key) && dir.contains_key(decode_utf8(key)) && dir[decode_utf8(key)]
            == (IndexEntry { file_id, v_pos: end as u64, v_size: value.len() as u64 }) {
            let rest = spec_scan_records(recs.drop_first(), file_id, dir, useless);
            (seq![(key, value)] + rest.0, rest.1)
        } else if valid_utf8(key) && dir.contains_key(decode_utf8(key)) {
            spec_scan_records(
                recs.drop_first(),
                file_id,
                dir,
                spec_sat_sub(useless, value.len() as u64),
            )
        } else {
            spec_scan_records(recs.drop_first(), file_id, dir, spec_sat_sub(useless, 1))
        }
    }
}

/// The merge pass over several logs in order: all live pairs and the final
/// superseded count.
pub open spec fn spec_scan_logs(
    logs: Seq<(u64, Seq<u8>)>,
    dir: Map<Seq<char>, IndexEntry>,
    useless: u64,
) -> (Seq<(Seq<u8>, Seq<u8>)>, u64)
    decreases logs.len(),
{
    if logs.len() == 0 {
        (seq![], useless)
    } else {
        let first = spec_scan_records(spec_log_records(logs[0].1, 0), logs[0].0, dir, useless);
        let rest = spec_scan_logs(logs.drop_first(), dir, first.1);
        (first.0 + rest.0, rest.1)
    }
}

/// The key and value bytes of each collected record.
pub open spec fn spec_live_pairs(live: Seq<LogEntry>) -> Seq<(Seq<u8>, Seq<u8>)> {
    live.map_values(|le: LogEntry| (le.key@, le.value@))
}

/// The key and value bytes of each record of a log file.
pub open spec fn spec_records_pairs(b: Seq<u8>) -> Seq<(Seq<u8>, Seq<u8>)> {
    spec_log_records(b, 0).map_values(|r: (Seq<u8>, Seq<u8>, int)| (r.0, r.1))
}

/// The key and value bytes of every record of the given replacement
/// segments, in order.
pub open spec fn spec_outputs_pairs(outs: Seq<MergedSegment>, i: int) -> Seq<(Seq<u8>, Seq<u8>)>
    decreases outs.len() - i,
{
    if i < 0 || i >= outs.len() {
        seq![]
    } else {
        spec_records_pairs(outs[i].log@) + spec_outputs_pairs(outs, i + 1)
    }
}

/// Greedy packing of records into logs capped at `max` bytes: the count of
/// logs used and the bytes in the last one, starting from `count` logs with
/// `buf` bytes open.  A record that does not fit starts a fresh log.
pub open spec fn spec_pack_tail(
    pairs: Seq<(Seq<u8>, Seq<u8>)>,
    max: u64,
    count: int,
    buf: int,
) -> (int, int)
    decreases pairs.len(),
{
    if pairs.len() == 0 {
        (count, buf)
    } else {
        let len = 16 + pairs[0].0.len() + pairs[0].1.len();
        if len > max || buf > max - len {
            spec_pack_tail(pairs.drop_first(), max, count + 1, len as int)
        } else {
            spec_pack_tail(pairs.drop_first(), max, count, buf + len)
        }
    }
}

/// How many logs capped at `max` bytes the records need.
pub open spec fn spec_pack_count(pairs: Seq<(Seq<u8>, Seq<u8>)>, max: u64) -> int {
    spec_pack_tail(pairs, max, 1, 0).0
}

/// Packing never uses fewer logs than were already open.
proof fn lemma_pack_tail_count_ge(pairs: Seq<(Seq<u8>, Seq<u8>)>, max: u64, count: int, buf: int)
    ensures
        spec_pack_tail(pairs, max, count, buf).0 >= count,
    decreases pairs.len(),
{
    if pairs.len() == 0 {
    } else {
        let len = 16 + pairs[0].0.len() + pairs[0].1.len();
        if len > max || buf > max - len {
            lemma_pack_tail_count_ge(pairs.drop_first(), max, count + 1, len as int);
        } else {
            lemma_pack_tail_count_ge(pairs.drop_first(), max, count, buf + len);
        }
    }
}

/// The records of the segments with one more at the end are the records so
/// far followed by the newcomer's.
proof fn lemma_outputs_pairs_push(outs: Seq<MergedSegment>, seg: MergedSegment, i: int)
    requires
        0 <= i <= outs.len(),
    ensures
        spec_outputs_pairs(outs.push(seg), i) =~= spec_outputs_pairs(outs, i)
            + spec_records_pairs(seg.log@),
    decreases outs.len() - i,
{
    let outs2 = outs.push(seg);
    if i == outs.len() {
        assert(outs2[i] == seg);
        assert(spec_outputs_pairs(outs2, i + 1) =~= Seq::<(Seq<u8>, Seq<u8>)>::empty());
        assert(spec_outputs_pairs(outs, i) =~= Seq::<(Seq<u8>, Seq<u8>)>::empty());
    } else {
        assert(outs2[i] == outs[i]);
        lemma_outputs_pairs_push(outs, seg, i + 1);
    }
}

impl BitcaskEngine {
    /// The sealed segments' log contents, in id order: every segment but
    /// the active one.
    pub open spec fn sealed_logs(&self) -> Seq<(u64, Seq<u8>)> {
        Seq::new((self.ids().len() - 1) as nat, |i: int| (self.ids()[i], self.files()[self.ids()[i]]))
    }
}

/// Where a staged entry's value sits while a merge packs records: in a
/// finished output when its file is already closed, else in the open log
/// buffer.
pub open spec fn spec_staged_at(
    outputs: Seq<MergedSegment>,
    log_buf: Seq<u8>,
    merged_id: u64,
    e: IndexEntry,
    value: Seq<u8>,
) -> bool {
    &&& e.v_size == value.len()
    &&& e.v_size <= e.v_pos
    &&& if e.file_id < merged_id {
        &&& e.file_id < outputs.len()
        &&& outputs[e.file_id as int].id == e.file_id
        &&& e.v_pos <= outputs[e.file_id as int].log@.len()
        &&& outputs[e.file_id as int].log@.subrange(e.v_pos - e.v_size, e.v_pos as int) == value
    } else {
        &&& e.file_id == merged_id
        &&& e.v_pos <= log_buf.len()
        &&& log_buf.subrange(e.v_pos - e.v_size, e.v_pos as int) == value
    }
}

impl BitcaskEngine {
    /// The id of the active segment.
    pub fn active_segment_id(&self) -> (r: u64)
        ensures
            r == self.active(),
    {
        self.active_file_id
    }

    /// The running count of superseded value bytes.
    pub fn useless_bytes(&self) -> (r: u64)
        ensures
            r == self.useless(),
    {
        self.useless_value_bytes
    }

    /// The ids of the segments, ascending; the last one is active.
    pub fn list_segments(&self) -> (r: Vec<u64>)
        ensures
            r@ == self.ids(),
    {
        self.segment_ids.clone()
    }

    /// Rewrites every sealed segment into compacted replacements, keeping
    /// exactly the one live record of each key and pairing every
    /// replacement log with a faithful hint file; the directory is
    /// repointed at the replacements and the superseded count discounted,
    /// record by record, to what the scan leaves.  The caller hands in the
    /// sealed segments' log bytes and afterwards applies the returned
    /// effect to the base directory.  Lookups are unchanged: the store
    /// holds the same keys and values after the merge as before.  The one
    /// failure, which leaves the store untouched, comes exactly when the
    /// live records cannot be packed into fewer replacement segments than
    /// the active id under the size cap.
    #[verifier::rlimit(100)]
    pub fn merge(&mut self, old_logs: Vec<Vec<u8>>) -> (r: Result<MergeEffect, KvStoreErr>)
        requires
            old(self).wf(),
            old(self).synced(),
            old_logs@.len() + 1 == old(self).ids().len(),
            forall|i: int|
                0 <= i < old_logs@.len() ==> (#[trigger] old_logs@[i])@ == old(self).files()[old(
                    self,
                ).ids()[i]],
        ensures
            final(self).wf(),
            final(self).synced(),
            final(self).max_bytes() == old(self).max_bytes(),
            final(self).merge_threshold() == old(self).merge_threshold(),
            final(self).active() == old(self).active(),
            final(self)@ == old(self)@,
            match r {
                Ok(eff) => {
                    let scan = spec_scan_logs(
                        old(self).sealed_logs(),
                        old(self).dir(),
                        old(self).useless(),
                    );
                    &&& final(self).useless() <= old(self).useless()
                    &&& final(self).useless() == scan.1
                    &&& final(self).files()[final(self).active()] == old(self).files()[old(
                        self,
                    ).active()]
                    &&& eff.old_ids@ == old(self).ids().take(old(self).ids().len() - 1)
                    &&& old(self).ids().len() == 1 ==> {
                        &&& eff.outputs@.len() == 0
                        &&& final(self).ids() == old(self).ids()
                        &&& final(self).files() == old(self).files()
                        &&& final(self).useless() == old(self).useless()
                    }
                    &&& old(self).ids().len() > 1 ==> {
                        &&& eff.outputs@.len() >= 1
                        &&& final(self).ids() =~= Seq::new(
                            eff.outputs@.len() as nat,
                            |j: int| j as u64,
                        ).push(old(self).active())
                        &&& forall|j: int|
                            0 <= j < eff.outputs@.len() ==> (#[trigger] eff.outputs@[j]).id == j
                                && final(self).files()[j as u64] == eff.outputs@[j].log@
                                && spec_hint_faithful(
                                eff.outputs@[j].hint@,
                                eff.outputs@[j].log@,
                                j as u64,
                            )
                        &&& spec_outputs_pairs(eff.outputs@, 0) == scan.0
                        &&& eff.outputs@.len() == spec_pack_count(scan.0, old(self).max_bytes())
                        &&& spec_pack_count(scan.0, old(self).max_bytes()) <= old(
                            self,
                        ).active() as int
                        &&& forall|j: int|
                            0 <= j < eff.outputs@.len() ==> (#[trigger] eff.outputs@[j]).log@.len()
                                <= old(self).max_bytes() || spec_log_records(
                                eff.outputs@[j].log@,
                                0,
                            ).len() == 1
                        &&& forall|t: int|
                            0 <= t < scan.0.len() ==> valid_utf8((#[trigger] scan.0[t]).0)
                                && scan.0[t].1 != seq![DELETED_CODE] && old(
                                self,
                            ).dir().contains_key(decode_utf8(scan.0[t].0)) && old(self).dir()[
                                decode_utf8(scan.0[t].0)
                            ].file_id != old(self).active() && old(self)@[decode_utf8(scan.0[t].0)]
                                == scan.0[t].1
                        &&& forall|t1: int, t2: int|
                            0 <= t1 < t2 < scan.0.len() ==> decode_utf8((#[trigger] scan.0[t1]).0)
                                != decode_utf8((#[trigger] scan.0[t2]).0)
                        &&& forall|k: Seq<char>| #[trigger]
                            old(self).dir().contains_key(k) && old(self).dir()[k].file_id != old(
                                self,
                            ).active() ==> exists|t: int|
                                0 <= t < scan.0.len() && decode_utf8((#[trigger] scan.0[t]).0) == k
                    }
                },
                Err(e) => {
                    &&& e is InnerErr
                    &&& old(self).ids().len() > 1
                    &&& spec_pack_count(
                        spec_scan_logs(
                            old(self).sealed_logs(),
                            old(self).dir(),
                            old(self).useless(),
                        ).0,
                        old(self).max_bytes(),
                    ) > old(self).active() as int
                    &&& final(self).ids() == old(self).ids()
                    &&& final(self).files() == old(self).files()
                    &&& final(self).dir() == old(self).dir()
                    &&& final(self).useless() == old(self).useless()
                },
            },
    {
        let ghost pre = *self;
        let n = self.segment_ids.len();
        if n == 1 {
            let eff = MergeEffect { old_ids: Vec::new(), outputs: Vec::new() };
            proof {
                assert(eff.old_ids@ =~= pre.ids().take(pre.ids().len() - 1));
                assert(pre.sealed_logs() =~= Seq::<(u64, Seq<u8>)>::empty());
                assert(spec_scan_logs(pre.sealed_logs(), pre.dir(), pre.useless()) == (Seq::<
                    (Seq<u8>, Seq<u8>),
                >::empty(), pre.useless()));
            }
            return Ok(eff);
        }
        let mut old_ids: Vec<u64> = Vec::new();
        let mut t: usize = 0;
        while t < n - 1
            invariant
                0 <= t <= n - 1,
                n == self.segment_ids@.len(),
                *self == pre,
                old_ids@ =~= self.segment_ids@.subrange(0, t as int),
            decreases n - 1 - t,
        {
            let id = self.segment_ids[t];
            old_ids.push(id);
            t = t + 1;
        }
        let active = self.active_file_id;
        let max_bytes = self.log_file_max_bytes;
        proof {
            lemma_ids_ascending_at(pre.ids(), 0, pre.ids().len() - 1);
            assert(active > 0);
        }
        let (live, new_useless) = self.collect_live(old_logs);
        let ghost live_view = live@;
        let ghost live_pairs = spec_live_pairs(live_view);
        let ghost scan_total = spec_scan_logs(pre.sealed_logs(), pre.dir(), pre.useless());
        let mut remaining = live;
        let mut outputs: Vec<MergedSegment> = Vec::new();
        let mut staged: Vec<(String, IndexEntry)> = Vec::new();
        let mut log_buf: Vec<u8> = Vec::new();
        let mut hint_buf: Vec<u8> = Vec::new();
        let mut merged_id: u64 = 0;
        let mut j: usize = 0;
        let n_live = remaining.len();
        let ghost first_packed: Seq<(u64, Seq<u8>)> = seq![(0u64, Seq::<u8>::empty())];
        let mut packed: Ghost<Seq<(u64, Seq<u8>)>> = Ghost(first_packed);
        let mut sm_pack: Ghost<Map<Seq<char>, IndexEntry>> = Ghost(key_dir_empty());
        proof {
            assert(spec_parse_log_record(Seq::<u8>::empty(), 0) is None);
            assert(spec_log_records(Seq::<u8>::empty(), 0) =~= Seq::<
                (Seq<u8>, Seq<u8>, int),
            >::empty());
            assert(spec_apply_log_records_map(
                spec_log_records(Seq::<u8>::empty(), 0),
                0u64,
                key_dir_empty(),
            ) == Some(key_dir_empty()));
            assert(spec_replay_logs_map(packed@, 1, key_dir_empty()) == Some(key_dir_empty()));
            assert(spec_replay_logs_map(packed@, 0, key_dir_empty()) == Some(sm_pack@));
            assert(live_pairs == scan_total.0);
            assert(new_useless == scan_total.1);
            assert(spec_outputs_pairs(outputs@, 0) =~= Seq::<(Seq<u8>, Seq<u8>)>::empty());
            assert(spec_records_pairs(Seq::<u8>::empty()) =~= Seq::<(Seq<u8>, Seq<u8>)>::empty());
            assert(live_view.take(0) =~= Seq::<LogEntry>::empty());
            assert(spec_live_pairs(live_view.take(0)) =~= Seq::<(Seq<u8>, Seq<u8>)>::empty());
            assert(live_pairs.skip(0) =~= live_pairs);
        }
        while j < n_live
            invariant
                pre.wf(),
                pre.synced(),
                *self == pre,
                active == pre.active(),
                max_bytes == pre.max_bytes(),
                n_live == live_view.len(),
                0 <= j <= n_live,
                remaining@ =~= live_view.subrange(j as int, n_live as int),
                forall|t2: int|
                    0 <= t2 < live_view.len() ==> spec_live_record(pre, #[trigger] live_view[t2]),
                spec_live_distinct(live_view),
                merged_id < active,
                merged_id == outputs@.len(),
                forall|t2: int|
                    0 <= t2 < outputs@.len() ==> (#[trigger] outputs@[t2]).id == t2,
                staged@.len() == j,
                forall|t2: int|
                    0 <= t2 < j ==> (#[trigger] staged@[t2]).0@ == decode_utf8(
                        live_view[t2].key@,
                    ),
                forall|t2: int|
                    0 <= t2 < j ==> spec_staged_at(
                        outputs@,
                        log_buf@,
                        merged_id,
                        (#[trigger] staged@[t2]).1,
                        live_view[t2].value@,
                    ),
                packed@.len() == merged_id + 1,
                forall|t2: int| 0 <= t2 < packed@.len() ==> (#[trigger] packed@[t2]).0 == t2 as u64,
                forall|t2: int|
                    0 <= t2 < merged_id ==> (#[trigger] packed@[t2]).1 == outputs@[t2].log@,
                packed@.last().1 == log_buf@,
                spec_log_clean(log_buf@),
                spec_hint_scan_end(hint_buf@, 0) == hint_buf@.len(),
                spec_log_records(log_buf@, 0).len() == spec_hint_records(hint_buf@, 0).len(),
                forall|t2: int|
                    0 <= t2 < spec_log_records(log_buf@, 0).len() ==> #[trigger] spec_mirrored(
                        spec_log_records(log_buf@, 0)[t2],
                        spec_hint_records(hint_buf@, 0)[t2],
                        log_buf@.len() as u64,
                    ),
                forall|t2: int|
                    0 <= t2 < outputs@.len() ==> spec_hint_faithful(
                        (#[trigger] outputs@[t2]).hint@,
                        outputs@[t2].log@,
                        t2 as u64,
                    ),
                live_pairs == spec_live_pairs(live_view),
                live_pairs == scan_total.0,
                scan_total == spec_scan_logs(pre.sealed_logs(), pre.dir(), pre.useless()),
                spec_outputs_pairs(outputs@, 0) + spec_records_pairs(log_buf@) == spec_live_pairs(
                    live_view.take(j as int),
                ),
                spec_pack_tail(
                    live_pairs.skip(j as int),
                    max_bytes,
                    merged_id as int + 1,
                    log_buf@.len() as int,
                ) == spec_pack_tail(live_pairs, max_bytes, 1, 0),
                log_buf@.len() <= max_bytes || spec_log_records(log_buf@, 0).len() == 1,
                forall|t2: int|
                    0 <= t2 < outputs@.len() ==> (#[trigger] outputs@[t2]).log@.len() <= max_bytes
                        || spec_log_records(outputs@[t2].log@, 0).len() == 1,
                spec_replay_logs_map(packed@, 0, key_dir_empty()) == Some(sm_pack@),
                forall|t2: int|
                    0 <= t2 < j ==> sm_pack@.contains_key((#[trigger] staged@[t2]).0@)
                        && sm_pack@[staged@[t2].0@] == staged@[t2].1,
                forall|k: Seq<char>| #[trigger]
                    sm_pack@.contains_key(k) ==> exists|t2: int|
                        0 <= t2 < j && (#[trigger] staged@[t2]).0@ == k,
            decreases n_live - j,
        {
            let entry = remaining.remove(0);
            let ghost pair = (live_view[j as int].key@, live_view[j as int].value@);
            let ghost spec_len: int = 16 + pair.0.len() as int + pair.1.len() as int;
            proof {
                assert(entry == live_view[j as int]);
                assert(remaining@ =~= live_view.subrange(j as int + 1, n_live as int));
                assert(spec_live_record(pre, entry));
                assert(live_pairs[j as int] == pair);
                assert(live_pairs.skip(j as int)[0] == pair);
                assert(live_pairs.skip(j as int).drop_first() =~= live_pairs.skip(j as int + 1));
            }
            let rec = entry.serialize();
            let rec_len = rec.len() as u64;
            let buf_len = log_buf.len() as u64;
            let ghost c0: int = merged_id as int + 1;
            let ghost b0: int = log_buf@.len() as int;
            proof {
                assert(rec@.len() == spec_len);
                assert((rec_len > max_bytes || buf_len > max_bytes - rec_len) <==> (spec_len
                    > max_bytes || b0 > max_bytes - spec_len));
            }
            if rec_len > max_bytes || buf_len > max_bytes - rec_len {
                if merged_id >= active - 1 {
                    proof {
                        assert(spec_pack_tail(
                            live_pairs.skip(j as int),
                            max_bytes,
                            merged_id as int + 1,
                            log_buf@.len() as int,
                        ) == spec_pack_tail(
                            live_pairs.skip(j as int + 1),
                            max_bytes,
                            merged_id as int + 2,
                            spec_len,
                        ));
                        lemma_pack_tail_count_ge(
                            live_pairs.skip(j as int + 1),
                            max_bytes,
                            merged_id as int + 2,
                            spec_len,
                        );
                        assert(spec_pack_count(live_pairs, max_bytes) >= merged_id as int + 2);
                        assert(spec_pack_count(scan_total.0, max_bytes) > active as int);
                    }
                    return Err(
                        KvStoreErr::InnerErr(
                            "merge would produce as many segments as there were".to_owned(),
                        ),
                    );
                }
                let ghost outputs_pre = outputs@;
                let ghost packed_pre = packed@;
                let finished_log = log_buf;
                let finished_hint = hint_buf;
                outputs.push(
                    MergedSegment { id: merged_id, log: finished_log, hint: finished_hint },
                );
                log_buf = Vec::new();
                hint_buf = Vec::new();
                merged_id = merged_id + 1;
                proof {
                    packed@ = packed_pre.push((merged_id, Seq::<u8>::empty()));
                    lemma_replay_logs_map_push_file(
                        packed_pre,
                        (merged_id, Seq::<u8>::empty()),
                        0,
                        key_dir_empty(),
                    );
                    assert(spec_parse_log_record(Seq::<u8>::empty(), 0) is None);
                    assert(spec_log_records(Seq::<u8>::empty(), 0) =~= Seq::<
                        (Seq<u8>, Seq<u8>, int),
                    >::empty());
                    assert(spec_replay_logs_map(packed@, 0, key_dir_empty()) == Some(sm_pack@));
                    assert(spec_parse_hint_record(Seq::<u8>::empty(), 0) is None);
                    assert(spec_hint_records(Seq::<u8>::empty(), 0) =~= Seq::<
                        (Seq<u8>, u64, u64),
                    >::empty());
                    let finished = outputs@[merged_id - 1];
                    assert(spec_hint_faithful(finished.hint@, finished.log@, (merged_id - 1) as u64))
                        by {
                        assert forall|m: Map<Seq<char>, IndexEntry>|
                            #![trigger spec_apply_hint_records(spec_hint_records(finished.hint@, 0), (merged_id - 1) as u64, finished.log@.len() as u64, m)]
                            spec_apply_hint_records(
                                spec_hint_records(finished.hint@, 0),
                                (merged_id - 1) as u64,
                                finished.log@.len() as u64,
                                m,
                            ) == spec_apply_log_records_map(
                                spec_log_records(finished.log@, 0),
                                (merged_id - 1) as u64,
                                m,
                            ) by {
                            lemma_mirrored_records_fold_equal(
                                spec_log_records(finished.log@, 0),
                                spec_hint_records(finished.hint@, 0),
                                (merged_id - 1) as u64,
                                finished.log@.len() as u64,
                                m,
                            );
                        }
                    }
                    assert forall|t2: int| 0 <= t2 < outputs@.len() implies spec_hint_faithful(
                        (#[trigger] outputs@[t2]).hint@,
                        outputs@[t2].log@,
                        t2 as u64,
                    ) by {
                        if t2 < merged_id - 1 {
                            assert(outputs@[t2] == outputs_pre[t2]);
                        }
                    }
                }
                proof {
                    assert forall|t2: int| 0 <= t2 < j implies spec_staged_at(
                        outputs@,
                        log_buf@,
                        merged_id,
                        (#[trigger] staged@[t2]).1,
                        live_view[t2].value@,
                    ) by {
                        assert(spec_staged_at(
                            outputs_pre,
                            outputs@[merged_id - 1].log@,
                            (merged_id - 1) as u64,
                            staged@[t2].1,
                            live_view[t2].value@,
                        ));
                        if staged@[t2].1.file_id < merged_id - 1 {
                            let fid = staged@[t2].1.file_id as int;
                            assert(outputs@[fid] == outputs_pre[fid]);
                        }
                    }
                    let finished_seg = outputs@[merged_id - 1];
                    lemma_outputs_pairs_push(outputs_pre, finished_seg, 0);
                    assert(spec_outputs_pairs(outputs@, 0) =~= spec_outputs_pairs(outputs_pre, 0)
                        + spec_records_pairs(finished_seg.log@));
                    assert(spec_records_pairs(Seq::<u8>::empty()) =~= Seq::<
                        (Seq<u8>, Seq<u8>),
                    >::empty());
                    assert(spec_outputs_pairs(outputs@, 0) + spec_records_pairs(log_buf@)
                        =~= spec_outputs_pairs(outputs_pre, 0) + spec_records_pairs(
                        finished_seg.log@,
                    ));
                    assert forall|t2: int|
                        0 <= t2 < outputs@.len() implies (#[trigger] outputs@[t2]).log@.len()
                        <= max_bytes || spec_log_records(outputs@[t2].log@, 0).len() == 1 by {
                        if t2 < merged_id - 1 {
                            assert(outputs@[t2] == outputs_pre[t2]);
                        }
                    }
                }
            }
            let ghost buf_before = log_buf@;
            log_buf.extend_from_slice(rec.as_slice());
            let v_pos = log_buf.len() as u64;
            let new_entry = IndexEntry { file_id: merged_id, v_pos, v_size: entry.v_size };
            let hint_entry = crate::entry::HintEntry {
                k_size: entry.k_size,
                v_size: entry.v_size,
                v_pos,
                key: entry.key,
            };
            let hint_bytes = hint_entry.serialize();
            let ghost hint_before = hint_buf@;
            hint_buf.extend_from_slice(hint_bytes.as_slice());
            let key = match bytes_to_string(vstd::slice::slice_to_vec(hint_entry.key.as_slice())) {
                Some(s) => s,
                None => {
                    proof {
                        assert(false);
                    }
                    return Err(KvStoreErr::InnerErr("merge read a key that is not UTF-8".to_owned()));
                },
            };
            let ghost sm_before = sm_pack@;
            let ghost staged_before = staged@;
            proof {
                assert(rec@ == spec_log_record(entry.key@, entry.value@));
                assert(log_buf@ == buf_before + rec@);
                assert(log_buf@.subrange(v_pos - entry.value@.len(), v_pos as int)
                    =~= entry.value@);
                assert(hint_bytes@ == spec_hint_record(entry.key@, entry.v_size, v_pos));
                assert(hint_buf@ == hint_before + hint_bytes@);
                lemma_hint_records_append(hint_before, 0, entry.key@, entry.v_size, v_pos);
                assert(spec_hint_records(hint_buf@, 0) =~= spec_hint_records(
                    hint_before,
                    0,
                ).push((entry.key@, entry.v_size, v_pos)));
                let ghost packed_pre = packed@;
                let ghost sm_pre = sm_pack@;
                packed@ = packed_pre.update(
                    packed_pre.len() - 1,
                    (merged_id, log_buf@),
                );
                lemma_log_records_append(buf_before, 0, entry.key@, entry.value@);
                lemma_replay_logs_map_extend_last(
                    packed_pre,
                    packed@,
                    0,
                    key_dir_empty(),
                    entry.key@,
                    entry.value@,
                );
                assert(packed@.last().1 == buf_before + spec_log_record(entry.key@, entry.value@));
                sm_pack@ = sm_pre.insert(decode_utf8(entry.key@), new_entry);
                assert(spec_apply_log_record_map(
                    sm_pre,
                    merged_id,
                    entry.key@,
                    entry.value@,
                    v_pos,
                ) == Some(sm_pack@));
                assert(spec_replay_logs_map(packed@, 0, key_dir_empty()) == Some(sm_pack@));
                assert(spec_staged_at(
                    outputs@,
                    log_buf@,
                    merged_id,
                    new_entry,
                    live_view[j as int].value@,
                ));
                assert forall|t2: int| 0 <= t2 < j implies spec_staged_at(
                    outputs@,
                    log_buf@,
                    merged_id,
                    (#[trigger] staged@[t2]).1,
                    live_view[t2].value@,
                ) by {
                    if staged@[t2].1.file_id == merged_id {
                        assert(log_buf@.subrange(
                            staged@[t2].1.v_pos - staged@[t2].1.v_size,
                            staged@[t2].1.v_pos as int,
                        ) =~= buf_before.subrange(
                            staged@[t2].1.v_pos - staged@[t2].1.v_size,
                            staged@[t2].1.v_pos as int,
                        ));
                    }
                }
            }
            staged.push((key, new_entry));
            proof {
                assert(staged@ == staged_before.push((key, new_entry)));
                assert(staged@[j as int].0@ == decode_utf8(entry.key@));
                assert forall|t2: int| 0 <= t2 < j + 1 implies sm_pack@.contains_key(
                    (#[trigger] staged@[t2]).0@,
                ) && sm_pack@[staged@[t2].0@] == staged@[t2].1 by {
                    if t2 < j {
                        assert(staged@[t2] == staged_before[t2]);
                        assert(staged@[t2].0@ == decode_utf8(live_view[t2].key@));
                        assert(decode_utf8(live_view[t2].key@) != decode_utf8(
                            live_view[j as int].key@,
                        ));
                    }
                }
                assert forall|k: Seq<char>| #[trigger] sm_pack@.contains_key(k) implies exists|
                    t2: int,
                |
                    0 <= t2 < j + 1 && (#[trigger] staged@[t2]).0@ == k by {
                    if k != decode_utf8(entry.key@) {
                        assert(sm_before.contains_key(k));
                        let t2 = choose|t2: int|
                            0 <= t2 < j && (#[trigger] staged_before[t2]).0@ == k;
                        assert(staged@[t2].0@ == k);
                    } else {
                        assert(staged@[j as int].0@ == k);
                    }
                }
                let lrecs_new = spec_log_records(log_buf@, 0);
                let hrecs_new = spec_hint_records(hint_buf@, 0);
                let lrecs_old = spec_log_records(buf_before, 0);
                let hrecs_old = spec_hint_records(hint_before, 0);
                assert(lrecs_new == lrecs_old.push((entry.key@, entry.value@, v_pos as int)));
                assert(hrecs_new == hrecs_old.push((entry.key@, entry.v_size, v_pos)));
                assert forall|t2: int| 0 <= t2 < lrecs_new.len() implies #[trigger] spec_mirrored(
                    lrecs_new[t2],
                    hrecs_new[t2],
                    log_buf@.len() as u64,
                ) by {
                    if t2 < lrecs_old.len() {
                        assert(lrecs_new[t2] == lrecs_old[t2]);
                        assert(hrecs_new[t2] == hrecs_old[t2]);
                        assert(spec_mirrored(lrecs_old[t2], hrecs_old[t2], buf_before.len() as u64));
                    } else {
                        assert(lrecs_new[t2] == (entry.key@, entry.value@, v_pos as int));
                        assert(hrecs_new[t2] == (entry.key@, entry.v_size, v_pos));
                        assert(entry.value@ != seq![DELETED_CODE]);
                        assert(valid_utf8(entry.key@));
                    }
                }
                assert(spec_records_pairs(log_buf@) =~= spec_records_pairs(buf_before).push(
                    pair,
                ));
                assert(live_view.take(j as int + 1) =~= live_view.take(j as int).push(entry));
                assert(spec_live_pairs(live_view.take(j as int + 1)) =~= spec_live_pairs(
                    live_view.take(j as int),
                ).push(pair));
                assert((spec_outputs_pairs(outputs@, 0) + spec_records_pairs(buf_before)).push(
                    pair,
                ) =~= spec_outputs_pairs(outputs@, 0) + spec_records_pairs(buf_before).push(pair));
                assert(spec_pack_tail(live_pairs.skip(j as int), max_bytes, c0, b0)
                    == spec_pack_tail(
                    live_pairs.skip(j as int + 1),
                    max_bytes,
                    merged_id as int + 1,
                    log_buf@.len() as int,
                ));
                if log_buf@.len() > max_bytes {
                    assert(spec_log_records(log_buf@, 0).len() == 1);
                }
            }
            j = j + 1;
        }
        let last_log = log_buf;
        let last_hint = hint_buf;
        let ghost outputs_pre = outputs@;
        outputs.push(MergedSegment { id: merged_id, log: last_log, hint: last_hint });
        proof {
            assert(packed@.last().1 == outputs@[merged_id as int].log@);
            assert forall|t2: int| 0 <= t2 < packed@.len() implies (#[trigger] packed@[t2]).1
                == outputs@[t2].log@ by {
                if t2 < merged_id {
                    assert(outputs@[t2] == outputs_pre[t2]);
                }
            }
            let last_pair = outputs@[merged_id as int];
            assert(spec_hint_faithful(last_pair.hint@, last_pair.log@, merged_id)) by {
                assert forall|m: Map<Seq<char>, IndexEntry>|
                    #![trigger spec_apply_hint_records(spec_hint_records(last_pair.hint@, 0), merged_id, last_pair.log@.len() as u64, m)]
                    spec_apply_hint_records(
                        spec_hint_records(last_pair.hint@, 0),
                        merged_id,
                        last_pair.log@.len() as u64,
                        m,
                    ) == spec_apply_log_records_map(
                        spec_log_records(last_pair.log@, 0),
                        merged_id,
                        m,
                    ) by {
                    lemma_mirrored_records_fold_equal(
                        spec_log_records(last_pair.log@, 0),
                        spec_hint_records(last_pair.hint@, 0),
                        merged_id,
                        last_pair.log@.len() as u64,
                        m,
                    );
                }
            }
            assert forall|t2: int| 0 <= t2 < outputs@.len() implies spec_hint_faithful(
                (#[trigger] outputs@[t2]).hint@,
                outputs@[t2].log@,
                t2 as u64,
            ) by {
                if t2 < merged_id {
                    assert(outputs@[t2] == outputs_pre[t2]);
                }
            }
            let last_seg = outputs@[merged_id as int];
            lemma_outputs_pairs_push(outputs_pre, last_seg, 0);
            assert(live_view.take(n_live as int) =~= live_view);
            assert(spec_outputs_pairs(outputs@, 0) =~= spec_outputs_pairs(outputs_pre, 0)
                + spec_records_pairs(last_seg.log@));
            assert(spec_outputs_pairs(outputs@, 0) == spec_live_pairs(live_view));
            assert(live_pairs.skip(n_live as int) =~= Seq::<(Seq<u8>, Seq<u8>)>::empty());
            assert(spec_pack_tail(live_pairs, max_bytes, 1, 0).0 == merged_id as int + 1);
            assert(spec_pack_count(live_pairs, max_bytes) == merged_id as int + 1);
            assert forall|t2: int|
                0 <= t2 < outputs@.len() implies (#[trigger] outputs@[t2]).log@.len() <= max_bytes
                || spec_log_records(outputs@[t2].log@, 0).len() == 1 by {
                if t2 < merged_id {
                    assert(outputs@[t2] == outputs_pre[t2]);
                }
            }
            assert forall|t2: int| 0 <= t2 < staged@.len() implies spec_staged_at(
                outputs@,
                Seq::<u8>::empty(),
                (merged_id + 1) as u64,
                (#[trigger] staged@[t2]).1,
                live_view[t2].value@,
            ) by {
                if staged@[t2].1.file_id < merged_id {
                    assert(outputs@[staged@[t2].1.file_id as int] == outputs_pre[staged@[t2].1.file_id as int]);
                } else {
                    assert(outputs@[merged_id as int].log@ == outputs@[merged_id as int].log@);
                }
            }
        }
        // commit: repoint the directory at the replacements
        let out_count = outputs.len();
        let ghost dir_old = key_dir_view(self.index);
        let mut sm: Ghost<Map<Seq<char>, IndexEntry>> = Ghost(Map::empty());
        let mut staged_rest = staged;
        let mut t: usize = 0;
        let n_staged = staged_rest.len();
        let ghost staged_view = staged_rest@;
        proof {
            assert(dir_old == pre.dir());
            assert(dir_old.union_prefer_right(sm@) =~= dir_old);
            assert forall|t2: int, t3: int|
                0 <= t2 < t3 < staged_view.len() implies (#[trigger] staged_view[t2]).0@ != (
            #[trigger] staged_view[t3]).0@ by {
                assert(staged_view[t2].0@ == decode_utf8(live_view[t2].key@));
                assert(staged_view[t3].0@ == decode_utf8(live_view[t3].key@));
            }
        }
        while t < n_staged
            invariant
                0 <= t <= n_staged,
                n_staged == staged_view.len(),
                staged_rest@ =~= staged_view.subrange(t as int, n_staged as int),
                key_dir_view(self.index) == dir_old.union_prefer_right(sm@),
                forall|t2: int|
                    0 <= t2 < t ==> sm@.contains_key((#[trigger] staged_view[t2]).0@)
                        && sm@[staged_view[t2].0@] == staged_view[t2].1,
                forall|k: Seq<char>| #[trigger]
                    sm@.contains_key(k) ==> exists|t2: int|
                        0 <= t2 < t && (#[trigger] staged_view[t2]).0@ == k && sm@[k]
                            == staged_view[t2].1,
                self.active_file_id == pre.active_file_id,
                self.writer == pre.writer,
                self.segment_ids == pre.segment_ids,
                self.log_files == pre.log_files,
                self.useless_value_bytes == pre.useless_value_bytes,
                self.log_file_max_bytes == pre.log_file_max_bytes,
                self.merge_trigger_threshold == pre.merge_trigger_threshold,
                self.write_flush_interval == pre.write_flush_interval,
                forall|t2: int, t3: int|
                    0 <= t2 < t3 < staged_view.len() ==> (#[trigger] staged_view[t2]).0@ != (
                    #[trigger] staged_view[t3]).0@,
            decreases n_staged - t,
        {
            let (key, entry) = staged_rest.remove(0);
            proof {
                assert((key, entry) == staged_view[t as int]);
                assert(staged_rest@ =~= staged_view.subrange(t as int + 1, n_staged as int));
            }
            let ghost sm_pre = sm@;
            key_dir_insert(&mut self.index, key, entry);
            proof {
                sm@ = sm_pre.insert(staged_view[t as int].0@, entry);
                assert(dir_old.union_prefer_right(sm_pre).insert(staged_view[t as int].0@, entry)
                    =~= dir_old.union_prefer_right(sm@));
            }
            t = t + 1;
        }
        // swap the ghost file map and the segment list to the replacements
        let ghost new_files = Map::new(
            |id: u64| id < out_count || id == active,
            |id: u64|
                if id == active {
                    pre.files()[active]
                } else {
                    outputs@[id as int].log@
                },
        );
        let mut new_ids: Vec<u64> = Vec::new();
        let mut w: usize = 0;
        while w < out_count
            invariant
                0 <= w <= out_count,
                new_ids@ =~= Seq::new(w as nat, |x: int| x as u64),
            decreases out_count - w,
        {
            new_ids.push(w as u64);
            w = w + 1;
        }
        new_ids.push(active);
        self.segment_ids = new_ids;
        self.useless_value_bytes = new_useless;
        proof {
            self.log_files@ = new_files;
        }
        let eff = MergeEffect { old_ids, outputs };
        proof {
            assert(out_count == merged_id + 1);
            assert(merged_id < active);
            assert(self.active() == active);
            assert(self.ids() =~= Seq::new(out_count as nat, |x: int| x as u64).push(active));
            assert(spec_ids_ascending(self.ids()));
            assert(self.ids().last() == active);
            assert(self.files().dom() =~= self.ids().to_set()) by {
                assert forall|id: u64| self.files().dom().contains(id) implies self.ids()
                    .to_set().contains(id) by {
                    if id == active {
                        assert(self.ids()[out_count as int] == active);
                    } else {
                        assert(self.ids()[id as int] == id);
                    }
                    assert(self.ids().contains(id));
                }
                assert forall|id: u64| self.ids().to_set().contains(id) implies self.files()
                    .dom().contains(id) by {
                    assert(self.ids().contains(id));
                    let idx = choose|idx: int|
                        0 <= idx < self.ids().len() && (#[trigger] self.ids()[idx]) == id;
                    if idx < out_count {
                        assert(id == idx as u64);
                    } else {
                        assert(id == active);
                    }
                }
            }
            assert(self.files()[active] == pre.files()[active]);
            assert(spec_log_clean(self.files()[active]));
            assert(self.writer.pos == self.files()[active].len());
            // every directory entry points at bytes that exist, and the
            // store reads back unchanged
            assert forall|k: Seq<char>| #[trigger]
                self.dir().contains_key(k) implies self.entry_wf(self.dir()[k]) && pre
                .dir().contains_key(k) && self.entry_value(self.dir()[k]) == pre.entry_value(
                pre.dir()[k],
            ) by {
                if sm@.contains_key(k) {
                    let t2 = choose|t2: int|
                        0 <= t2 < staged_view.len() && (#[trigger] staged_view[t2]).0@ == k && sm@[k]
                            == staged_view[t2].1;
                    let e = staged_view[t2].1;
                    assert(spec_staged_at(
                        outputs@,
                        Seq::<u8>::empty(),
                        (merged_id + 1) as u64,
                        e,
                        live_view[t2].value@,
                    ));
                    assert(e.file_id < out_count);
                    assert(self.files()[e.file_id] == outputs@[e.file_id as int].log@);
                    assert(spec_live_record(pre, live_view[t2]));
                    assert(decode_utf8(live_view[t2].key@) == k);
                    assert(self.entry_value(e) == live_view[t2].value@);
                    assert(pre@[k] == live_view[t2].value@);
                    assert(pre.entry_wf(pre.dir()[k]));
                    assert(self.entry_value(self.dir()[k]) == pre.entry_value(pre.dir()[k]));
                } else {
                    assert(self.dir()[k] == dir_old[k]);
                    assert(pre.dir().contains_key(k));
                    assert(pre.entry_wf(pre.dir()[k]));
                    assert(pre.dir()[k].file_id == active) by {
                        if pre.dir()[k].file_id != active {
                            assert(spec_live_has(live_view, k));
                            let t2 = choose|t2: int|
                                0 <= t2 < live_view.len() && decode_utf8(
                                    (#[trigger] live_view[t2].key@),
                                ) == k;
                            assert(staged_view[t2].0@ == k);
                            assert(sm@.contains_key(k));
                        }
                    }
                    assert(self.files()[active] == pre.files()[active]);
                    assert(self.entry_value(self.dir()[k]) == pre.entry_value(pre.dir()[k]));
                }
            }
            assert(self@ =~= pre@) by {
                assert forall|k: Seq<char>| #[trigger] pre.dir().contains_key(k) implies self
                    .dir().contains_key(k) by {
                    if !sm@.contains_key(k) {
                        assert(self.dir()[k] == dir_old[k]);
                    }
                }
                assert forall|k: Seq<char>| self@.contains_key(k) implies self@[k] == pre@[k] by {
                    assert(self.entry_value(self.dir()[k]) == pre.entry_value(pre.dir()[k]));
                }
            }
            assert(self.synced()) by {
                // the committed directory patch is exactly what the packed
                // files replay to
                assert(n_staged == live_view.len());
                assert(sm@ =~= sm_pack@) by {
                    assert forall|k: Seq<char>| #[trigger] sm@.contains_key(k) implies sm_pack@
                        .contains_key(k) && sm_pack@[k] == sm@[k] by {
                        let t2 = choose|t2: int|
                            0 <= t2 < n_staged && (#[trigger] staged_view[t2]).0@ == k && sm@[k]
                                == staged_view[t2].1;
                        assert(sm_pack@.contains_key(staged_view[t2].0@));
                        assert(sm_pack@[staged_view[t2].0@] == staged_view[t2].1);
                    }
                    assert forall|k: Seq<char>| #[trigger] sm_pack@.contains_key(k) implies sm@
                        .contains_key(k) by {
                        let t2 = choose|t2: int|
                            0 <= t2 < n_staged && (#[trigger] staged_view[t2]).0@ == k;
                        assert(sm@.contains_key(staged_view[t2].0@));
                    }
                }
                // the new logs are the packed files plus the untouched
                // active log
                let af = (active, pre.files()[active]);
                assert(self.logs_seq() =~= packed@.push(af)) by {
                    assert forall|t2: int| 0 <= t2 < self.logs_seq().len() implies (#[trigger]
                    self.logs_seq()[t2]) == packed@.push(af)[t2] by {
                        if t2 < out_count {
                            assert(self.ids()[t2] == t2 as u64);
                            assert(self.files()[t2 as u64] == outputs@[t2].log@);
                        } else {
                            assert(self.ids()[t2] == active);
                        }
                    }
                }
                lemma_replay_logs_map_push_file(packed@, af, 0, key_dir_empty());
                // split the old replay at the active log
                let old_seq = pre.logs_seq();
                let sealed = old_seq.drop_last();
                assert(old_seq =~= sealed.push(old_seq.last()));
                assert(old_seq.last() == af);
                lemma_replay_logs_map_push_file(sealed, af, 0, key_dir_empty());
                assert(spec_replay_logs_map(old_seq, 0, key_dir_empty()) == Some(pre.dir()));
                let m_old_opt = spec_replay_logs_map(sealed, 0, key_dir_empty());
                assert(m_old_opt is Some);
                let m_old = m_old_opt->Some_0;
                let active_recs = spec_log_records(pre.files()[active], 0);
                assert(spec_apply_log_records_map(active_recs, active, m_old) == Some(pre.dir()));
                lemma_replay_logs_map_created(sealed, 0, key_dir_empty(), m_old);
                lemma_apply_records_some_indep(active_recs, active, m_old, sm_pack@);
                let mf2 = spec_apply_log_records_map(active_recs, active, sm_pack@)->Some_0;
                assert forall|k: Seq<char>|
                    (#[trigger] mf2.contains_key(k)) == self.dir().contains_key(k) && (
                    mf2.contains_key(k) ==> mf2[k] == self.dir()[k]) by {
                    if spec_recs_touch(active_recs, k) {
                        lemma_apply_records_touched_same(
                            active_recs,
                            active,
                            m_old,
                            sm_pack@,
                            pre.dir(),
                            mf2,
                            k,
                        );
                        if sm@.contains_key(k) {
                            let t2 = choose|t2: int|
                                0 <= t2 < n_staged && (#[trigger] staged_view[t2]).0@ == k && sm@[k]
                                    == staged_view[t2].1;
                            assert(spec_live_record(pre, live_view[t2]));
                            assert(pre.dir().contains_key(k) && pre.dir()[k].file_id != active);
                            lemma_apply_records_touched_owned(
                                active_recs,
                                active,
                                m_old,
                                pre.dir(),
                                k,
                            );
                            assert(false);
                        }
                    } else {
                        lemma_apply_records_untouched(active_recs, active, sm_pack@, mf2, k);
                        lemma_apply_records_untouched(active_recs, active, m_old, pre.dir(), k);
                        if !sm@.contains_key(k) {
                            if m_old.contains_key(k) {
                                assert(pre.dir().contains_key(k) && pre.dir()[k] == m_old[k]);
                                let jj = choose|jj: int|
                                    0 <= jj < sealed.len() && m_old[k].file_id == (
                                    #[trigger] sealed[jj].0);
                                assert(sealed[jj].0 == pre.ids()[jj]);
                                lemma_ids_ascending_at(pre.ids(), jj, pre.ids().len() - 1);
                                assert(pre.dir()[k].file_id != pre.active());
                                assert(spec_live_has(live_view, k));
                                let t2 = choose|t2: int|
                                    0 <= t2 < live_view.len() && decode_utf8(
                                        (#[trigger] live_view[t2].key@),
                                    ) == k;
                                assert(staged_view[t2].0@ == k);
                                assert(sm@.contains_key(staged_view[t2].0@));
                                assert(false);
                            }
                        }
                    }
                }
                assert(mf2 =~= self.dir());
                assert(spec_replay_logs_map(self.logs_seq(), 0, key_dir_empty()) == Some(
                    self.dir(),
                ));
            }
            assert(eff.old_ids@ =~= pre.ids().take(pre.ids().len() - 1));
            assert(spec_outputs_pairs(eff.outputs@, 0) == scan_total.0);
            assert(eff.outputs@.len() == spec_pack_count(scan_total.0, pre.max_bytes()));
            assert(spec_pack_count(scan_total.0, pre.max_bytes()) <= pre.active() as int);
            assert forall|t: int| 0 <= t < scan_total.0.len() implies valid_utf8((#[trigger]
            scan_total.0[t]).0) && scan_total.0[t].1 != seq![DELETED_CODE] && pre
                .dir().contains_key(decode_utf8(scan_total.0[t].0)) && pre.dir()[decode_utf8(
                scan_total.0[t].0,
            )].file_id != pre.active() && pre@[decode_utf8(scan_total.0[t].0)]
                == scan_total.0[t].1 by {
                assert(scan_total.0[t] == (live_view[t].key@, live_view[t].value@));
                assert(spec_live_record(pre, live_view[t]));
            }
            assert forall|t1: int, t2: int| 0 <= t1 < t2 < scan_total.0.len() implies decode_utf8(
                (#[trigger] scan_total.0[t1]).0,
            ) != decode_utf8((#[trigger] scan_total.0[t2]).0) by {
                assert(scan_total.0[t1] == (live_view[t1].key@, live_view[t1].value@));
                assert(scan_total.0[t2] == (live_view[t2].key@, live_view[t2].value@));
            }
            assert forall|k: Seq<char>| #[trigger]
                pre.dir().contains_key(k) && pre.dir()[k].file_id != pre.active() implies exists|
                t: int,
            |
                0 <= t < scan_total.0.len() && decode_utf8((#[trigger] scan_total.0[t]).0)
                    == k by {
                assert(spec_live_has(live_view, k));
                let t = choose|t: int|
                    0 <= t < live_view.len() && decode_utf8((#[trigger] live_view[t].key@)) == k;
                assert(scan_total.0[t] == (live_view[t].key@, live_view[t].value@));
                assert(decode_utf8(scan_total.0[t].0) == k);
            }
        }
        Ok(eff)
    }
}

/// Some record in the sequence carries the key.
pub open spec fn spec_recs_touch(recs: Seq<(Seq<u8>, Seq<u8>, int)>, k: Seq<char>) -> bool
    decreases recs.len(),
{
    if recs.len() == 0 {
        false
    } else {
        (valid_utf8(recs[0].0) && decode_utf8(recs[0].0) == k) || spec_recs_touch(
            recs.drop_first(),
            k,
        )
    }
}

/// A key no record carries passes through a replay untouched.
proof fn lemma_apply_records_untouched(
    recs: Seq<(Seq<u8>, Seq<u8>, int)>,
    file_id: u64,
    m: Map<Seq<char>, IndexEntry>,
    mf: Map<Seq<char>, IndexEntry>,
    k: Seq<char>,
)
    requires
        spec_apply_log_records_map(recs, file_id, m) == Some(mf),
        !spec_recs_touch(recs, k),
    ensures
        mf.contains_key(k) == m.contains_key(k),
        m.contains_key(k) ==> mf[k] == m[k],
    decreases recs.len(),
{
    if recs.len() == 0 {
    } else {
        let m2 = spec_apply_log_record_map(m, file_id, recs[0].0, recs[0].1, recs[0].2 as u64)->Some_0;
        lemma_apply_records_untouched(recs.drop_first(), file_id, m2, mf, k);
    }
}

/// Two replays of the same records from directories that agree at a key
/// still agree at it.
proof fn lemma_apply_records_agree(
    recs: Seq<(Seq<u8>, Seq<u8>, int)>,
    file_id: u64,
    m1: Map<Seq<char>, IndexEntry>,
    m2: Map<Seq<char>, IndexEntry>,
    mf1: Map<Seq<char>, IndexEntry>,
    mf2: Map<Seq<char>, IndexEntry>,
    k: Seq<char>,
)
    requires
        spec_apply_log_records_map(recs, file_id, m1) == Some(mf1),
        spec_apply_log_records_map(recs, file_id, m2) == Some(mf2),
        m1.contains_key(k) == m2.contains_key(k),
        m1.contains_key(k) ==> m1[k] == m2[k],
    ensures
        mf1.contains_key(k) == mf2.contains_key(k),
        mf1.contains_key(k) ==> mf1[k] == mf2[k],
    decreases recs.len(),
{
    if recs.len() == 0 {
    } else {
        let n1 = spec_apply_log_record_map(m1, file_id, recs[0].0, recs[0].1, recs[0].2 as u64)->Some_0;
        let n2 = spec_apply_log_record_map(m2, file_id, recs[0].0, recs[0].1, recs[0].2 as u64)->Some_0;
        lemma_apply_records_agree(recs.drop_first(), file_id, n1, n2, mf1, mf2, k);
    }
}

/// What a replay leaves at a key its records carry does not depend on the
/// directory it started from.
proof fn lemma_apply_records_touched_same(
    recs: Seq<(Seq<u8>, Seq<u8>, int)>,
    file_id: u64,
    m1: Map<Seq<char>, IndexEntry>,
    m2: Map<Seq<char>, IndexEntry>,
    mf1: Map<Seq<char>, IndexEntry>,
    mf2: Map<Seq<char>, IndexEntry>,
    k: Seq<char>,
)
    requires
        spec_apply_log_records_map(recs, file_id, m1) == Some(mf1),
        spec_apply_log_records_map(recs, file_id, m2) == Some(mf2),
        spec_recs_touch(recs, k),
    ensures
        mf1.contains_key(k) == mf2.contains_key(k),
        mf1.contains_key(k) ==> mf1[k] == mf2[k],
    decreases recs.len(),
{
    let n1 = spec_apply_log_record_map(m1, file_id, recs[0].0, recs[0].1, recs[0].2 as u64)->Some_0;
    let n2 = spec_apply_log_record_map(m2, file_id, recs[0].0, recs[0].1, recs[0].2 as u64)->Some_0;
    if valid_utf8(recs[0].0) && decode_utf8(recs[0].0) == k {
        assert(n1.contains_key(k) == n2.contains_key(k));
        assert(n1.contains_key(k) ==> n1[k] == n2[k]);
        lemma_apply_records_agree(recs.drop_first(), file_id, n1, n2, mf1, mf2, k);
    } else {
        lemma_apply_records_touched_same(recs.drop_first(), file_id, n1, n2, mf1, mf2, k);
    }
}

/// A key a replay's records carry ends up either absent or pointing into
/// the replayed file.
proof fn lemma_apply_records_touched_owned(
    recs: Seq<(Seq<u8>, Seq<u8>, int)>,
    file_id: u64,
    m: Map<Seq<char>, IndexEntry>,
    mf: Map<Seq<char>, IndexEntry>,
    k: Seq<char>,
)
    requires
        spec_apply_log_records_map(recs, file_id, m) == Some(mf),
        spec_recs_touch(recs, k),
    ensures
        mf.contains_key(k) ==> mf[k].file_id == file_id,
    decreases recs.len(),
{
    let m2 = spec_apply_log_record_map(m, file_id, recs[0].0, recs[0].1, recs[0].2 as u64)->Some_0;
    if spec_recs_touch(recs.drop_first(), k) {
        lemma_apply_records_touched_owned(recs.drop_first(), file_id, m2, mf, k);
    } else {
        lemma_apply_records_untouched(recs.drop_first(), file_id, m2, mf, k);
        assert(valid_utf8(recs[0].0) && decode_utf8(recs[0].0) == k);
    }
}

/// Replaying logs with one more log at the end is replaying the logs and
/// then the last log.
proof fn lemma_replay_logs_map_push_file(
    logs: Seq<(u64, Seq<u8>)>,
    l: (u64, Seq<u8>),
    i: int,
    m: Map<Seq<char>, IndexEntry>,
)
    requires
        0 <= i <= logs.len(),
    ensures
        spec_replay_logs_map(logs.push(l), i, m) == match spec_replay_logs_map(logs, i, m) {
            None => None::<Map<Seq<char>, IndexEntry>>,
            Some(m2) => spec_apply_log_records_map(spec_log_records(l.1, 0), l.0, m2),
        },
    decreases logs.len() - i,
{
    let logs2 = logs.push(l);
    if i == logs.len() {
        assert(logs2[i] == l);
        match spec_apply_log_records_map(spec_log_records(l.1, 0), l.0, m) {
            None => {},
            Some(m3) => {
                assert(spec_replay_logs_map(logs2, i + 1, m3) == Some(m3));
            },
        }
    } else {
        assert(logs2[i] == logs[i]);
        match spec_apply_log_records_map(spec_log_records(logs[i].1, 0), logs[i].0, m) {
            None => {},
            Some(m2) => {
                lemma_replay_logs_map_push_file(logs, l, i + 1, m2);
            },
        }
    }
}

} // verus!
