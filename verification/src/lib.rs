//! A persistent, crash-tolerant, embedded key-value store built on an
//! append-only log: records are appended to numbered segment files, an
//! in-memory key directory maps each live key to the byte range of its
//! latest value, and a merge procedure compacts sealed segments and emits
//! hint files for fast startup.
//!
//! The store itself never touches the file system: every operation either
//! computes over bytes handed in by the caller or returns the bytes and
//! file actions the caller must apply to durable storage.

use vstd::prelude::*;

mod bitcask;
mod entry;
mod err;
mod io;
mod keydir;
mod names;
mod protocol;
mod strings;

pub use bitcask::decode_value;
pub use bitcask::spec_apply_hint_records;
pub use bitcask::spec_apply_log_record;
pub use bitcask::spec_apply_log_record_map;
pub use bitcask::spec_apply_log_records;
pub use bitcask::spec_apply_log_records_map;
pub use bitcask::spec_hint_faithful;
pub use bitcask::spec_hint_records;
pub use bitcask::spec_hint_scan_end;
pub use bitcask::spec_ids_ascending;
pub use bitcask::spec_log_clean;
pub use bitcask::spec_log_records;
pub use bitcask::spec_open_scan;
pub use bitcask::spec_replay_log;
pub use bitcask::spec_replay_logs_map;
pub use bitcask::spec_replay_segments;
pub use bitcask::spec_sat_add;
pub use bitcask::spec_sat_sub;
pub use bitcask::spec_scan_end;
pub use bitcask::spec_scan_logs;
pub use bitcask::spec_scan_records;
pub use bitcask::spec_pack_count;
pub use bitcask::spec_pack_tail;
pub use bitcask::spec_outputs_pairs;
pub use bitcask::spec_records_pairs;
pub use bitcask::spec_live_pairs;
pub use bitcask::spec_segment_hint_ok;
pub use bitcask::spec_segment_ids;
pub use bitcask::spec_segments_view;
pub use bitcask::lemma_put_then_lookup;
pub use bitcask::lemma_files_domain;
pub use bitcask::lemma_view_characterization;
pub use bitcask::lemma_view_from_model;
pub use bitcask::lemma_recovery_identity;
pub use bitcask::lemma_value_never_tombstone;
pub use bitcask::AppendEffect;
pub use bitcask::BitcaskEngine;
pub use bitcask::MergeEffect;
pub use bitcask::MergedSegment;
pub use bitcask::OpenEffect;
pub use bitcask::ReadPlan;
pub use bitcask::SegmentFiles;
pub use bitcask::DEFAULT_LOG_FILE_MAX_BYTES;
pub use bitcask::DEFAULT_MERGE_TRIGGER_THRESHOLD;
pub use bitcask::DEFAULT_WRITE_FLUSH_INTERVAL;
pub use entry::lemma_hint_record_exact;
pub use entry::lemma_hint_record_roundtrip;
pub use entry::lemma_log_record_exact;
pub use entry::lemma_log_record_roundtrip;
pub use entry::spec_hint_record;
pub use entry::spec_log_record;
pub use entry::spec_parse_hint_record;
pub use entry::spec_parse_log_record;
pub use entry::read_hint_entry;
pub use entry::read_log_entry;
pub use entry::DELETED_CODE;
pub use entry::HintEntry;
pub use entry::IndexEntry;
pub use entry::LogEntry;
pub use entry::SerializeToBytes;
pub use err::KvStoreErr;
pub use names::sorted_ids_of_names;
pub use names::spec_all_digits;
pub use names::spec_digits_val;
pub use names::spec_log_name_id;
pub use names::spec_log_suffix;
pub use names::DOT_BYTE;
pub use keydir::key_dir_empty;
pub use keydir::key_dir_view;
pub use protocol::get_u8;
pub use protocol::get_until_target_char;
pub use protocol::lemma_frame_roundtrip;
pub use protocol::spec_find;
pub use protocol::spec_no_byte;
pub use protocol::Frame;
pub use protocol::FrameModel;
pub use protocol::FrameParseErr;
pub use protocol::FRAME_SEP;
pub use protocol::KV_SEP;
pub use strings::lemma_deleted_code_not_utf8;
pub use strings::string_to_bytes;

pub use io::lemma_u64_be_bytes_injective;
pub use io::lemma_u64_be_bytes_roundtrip;
pub use io::push_u64_be;
pub use io::spec_u64_from_be_bytes;
pub use io::spec_u64_to_be_bytes;
pub use io::u8_arr_to_u64;
pub use io::BufReaderWithPos;
pub use io::BufWriterWithPos;
