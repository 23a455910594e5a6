//! What a log gives back of what was appended to it.
use super::error::ChangeStreamError;
use super::load;
use super::load::{LogView, RecordView};
use super::log;
use super::log::Header;
use super::operations;
use super::record;
use super::record_laws;
use super::recover;
use super::stream::StreamView;
use super::types::BatchView;
use crate::bytes;
use crate::checksum;
use crate::ids::{LsmCommitSeq, TxnId};
use vstd::prelude::*;

verus! {

broadcast use crate::bytes::group_le_len;

/// The log of a stream that was just enabled holds its header and no records.
pub proof fn law_fresh_log(header: Header, recover: bool, refused: Set<Seq<u8>>)
    requires
        log::header_valid(header),
    ensures
        load::log_of(
            log::header_bytes(header),
            recover,
            refused,
        ) == Ok::<LogView, ChangeStreamError>(
            LogView {
                header,
                records: Seq::empty(),
                file_bytes: log::header_size(header.version),
            },
        ),
{
    let s = log::header_bytes(header);
    log::law_header_round_trip(header);
    log::lemma_header_pieces(header, s);
    assert(s.subrange(0, log::header_size(header.version)) =~= s);
}

/// Recovering the log of a stream that was just enabled gives that stream.
pub proof fn law_fresh_log_recovers(header: Header)
    requires
        log::header_valid(header),
        header.version == log::CHANGE_LOG_FORMAT_VERSION,
        header.earliest == header.current,
        header.next_sequence == 1,
    ensures
        recover::recovered(recover::scanned(Seq::empty(), header, log::V2_HEADER_SIZE as u64, 0))
            == Ok::<StreamView, ChangeStreamError>(operations::fresh_stream(header)),
{
}

/// What follows a whole log is read after all of it.
proof fn lemma_entries_prefix(
    s: Seq<u8>,
    tail: Seq<u8>,
    at: int,
    header: Header,
    records: Seq<RecordView>,
    recover: bool,
    found: Seq<RecordView>,
    refused: Set<Seq<u8>>,
)
    requires
        0 <= at <= s.len(),
        load::entries_from(s, at, header, records, recover, refused) == Ok::<
            (Seq<RecordView>, int),
            ChangeStreamError,
        >((found, s.len() as int)),
    ensures
        load::entries_from(s + tail, at, header, records, recover, refused) == load::entries_from(
            s + tail,
            s.len() as int,
            header,
            found,
            recover,
            refused,
        ),
    decreases s.len() - at,
{
    if at < s.len() {
        let t = s + tail;
        let length = bytes::u32_at(s, at);
        let end = at + 4 + length;
        assert(at + 4 <= s.len());
        bytes::lemma_at_prefix(s, tail, at);
        assert(end + 4 <= s.len());
        bytes::lemma_at_prefix(s, tail, end);
        assert(t.subrange(at + 4, end) =~= s.subrange(at + 4, end));
        let next = load::entry_applied(
            records,
            s.subrange(at + 4, end),
            header,
            (8 + length) as u64,
            refused,
        )->Ok_0;
        lemma_entries_prefix(s, tail, end + 4, header, next, recover, found, refused);
    }
}

proof fn lemma_front_prefix(s: Seq<u8>, tail: Seq<u8>)
    requires
        load::front_of(s) is Ok,
    ensures
        load::front_of(s + tail) == load::front_of(s),
        log::header_size(load::front_of(s)->Ok_0.version) <= s.len(),
{
    let version = bytes::u16_at(s, 4);
    let size = log::header_size(version);
    bytes::lemma_at_prefix(s, tail, 4);
    assert((s + tail).subrange(0, 4) =~= s.subrange(0, 4));
    assert((s + tail).subrange(0, size) =~= s.subrange(0, size));
    let front = s.subrange(0, size);
    bytes::lemma_at_prefix(front, s.subrange(size, s.len() as int), 4);
    assert(front + s.subrange(size, s.len() as int) =~= s);
}

/// A frame that is read back where it stands.
proof fn lemma_frame(s: Seq<u8>, payload: Seq<u8>, rest: Seq<u8>)
    requires
        0 < payload.len() <= log::CHANGE_LOG_MAX_RECORD_BYTES,
    ensures
        ({
            let t = s + record::framed(payload) + rest;
            let at = s.len() as int;
            &&& t.len() == s.len() + payload.len() + 8 + rest.len()
            &&& bytes::u32_at(t, at) == payload.len()
            &&& t.subrange(at + 4, at + 4 + payload.len()) == payload
            &&& bytes::u32_at(t, at + 4 + payload.len()) == checksum::crc32c_of(payload)
        }),
{
    let t = s + record::framed(payload) + rest;
    let at = s.len() as int;
    let p1 = bytes::u32_le(payload.len() as u32);
    let p2 = p1 + payload;
    let check = bytes::u32_le(checksum::crc32c_of(payload));
    assert(t.subrange(at, at + (p2 + check).len()) =~= p2 + check);
    bytes::lemma_split_at(t, at, p2, check);
    bytes::lemma_split_at(t, at, p1, payload);
    bytes::lemma_u32_at(t, at, payload.len() as u32);
    bytes::lemma_u32_at(t, at + 4 + payload.len(), checksum::crc32c_of(payload));
}

/// Whether a log is whole: nothing in it is left out.
pub open spec fn whole_log(s: Seq<u8>, recover: bool, refused: Set<Seq<u8>>) -> bool {
    load::log_of(
        s,
        recover,
        refused,
    ) matches Ok(found) && found.header.active && found.file_bytes == s.len()
}

/// A log with one more frame is read as the log, and then the frame's payload.
proof fn lemma_log_with_frame(s: Seq<u8>, payload: Seq<u8>, recover: bool, refused: Set<Seq<u8>>)
    requires
        whole_log(s, recover, refused),
        0 < payload.len() <= log::CHANGE_LOG_MAX_RECORD_BYTES,
    ensures
        ({
            let found = load::log_of(s, recover, refused)->Ok_0;
            let size = (8 + payload.len()) as u64;
            load::log_of(
                s + record::framed(payload),
                recover,
                refused,
            ) == match load::entry_applied(
                found.records,
                payload,
                found.header,
                size,
                refused,
            ) {
                Err(error) => Err::<LogView, ChangeStreamError>(error),
                Ok(records) => Ok(
                    LogView {
                        header: found.header,
                        records,
                        file_bytes: (s + record::framed(payload)).len() as int,
                    },
                ),
            }
        }),
{
    let found = load::log_of(s, recover, refused)->Ok_0;
    let header = found.header;
    let tail = record::framed(payload);
    let t = s + tail;
    lemma_front_prefix(s, tail);
    lemma_entries_prefix(
        s,
        tail,
        log::header_size(header.version),
        header,
        Seq::empty(),
        recover,
        found.records,
        refused,
    );
    lemma_frame(s, payload, Seq::empty());
    assert(s + tail + Seq::<u8>::empty() =~= t);
    let at = s.len() as int;
    match load::entry_applied(found.records, payload, header, (8 + payload.len()) as u64, refused) {
        Err(_) => {},
        Ok(next) => {
            assert(load::entries_from(t, t.len() as int, header, next, recover, refused) == Ok::<
                (Seq<RecordView>, int),
                ChangeStreamError,
            >((next, t.len() as int)));
        },
    }
}

/// Appending a prepared batch to a whole log adds its record, and nothing else
/// changes.
pub proof fn law_appended_batch_is_read_back(
    s: Seq<u8>,
    batch: BatchView,
    recover: bool,
    refused: Set<Seq<u8>>,
)
    requires
        whole_log(s, recover, refused),
        record::record_error(batch) is None,
        record_laws::batch_belongs(batch, load::log_of(s, recover, refused)->Ok_0.header),
        record_laws::rows_taken(batch.mutations, refused),
    ensures
        ({
            let found = load::log_of(s, recover, refused)->Ok_0;
            let bytes = record::framed(record::record_payload(batch));
            load::log_of(s + bytes, recover, refused) == Ok::<LogView, ChangeStreamError>(
                LogView {
                    records: found.records.push(load::loaded_record(batch, bytes.len() as u64)),
                    file_bytes: (s + bytes).len() as int,
                    ..found
                },
            )
        }),
{
    let found = load::log_of(s, recover, refused)->Ok_0;
    let payload = record::record_payload(batch);
    record_laws::law_record_round_trip(batch, found.header, refused);
    record_laws::lemma_record_pieces(batch, payload);
    lemma_log_with_frame(s, payload, recover, refused);
}

/// Appending the finalize marker of a prepared batch to a whole log finalizes
/// its record, and nothing else changes.
pub proof fn law_appended_marker_is_read_back(
    s: Seq<u8>,
    txn_id: TxnId,
    commit: Option<LsmCommitSeq>,
    recover: bool,
    refused: Set<Seq<u8>>,
)
    requires
        whole_log(s, recover, refused),
        txn_id.0 != 0,
        commit != Some(LsmCommitSeq(0)),
        load::record_position(load::log_of(
            s,
            recover,
            refused,
        )->Ok_0.records, txn_id) matches Some(position)
            && !load::log_of(s, recover, refused)->Ok_0.records[position].finalized,
    ensures
        ({
            let found = load::log_of(s, recover, refused)->Ok_0;
            let position = load::record_position(found.records, txn_id)->0;
            let bytes = record::finalize_bytes(txn_id, commit);
            load::log_of(s + bytes, recover, refused) == Ok::<LogView, ChangeStreamError>(
                LogView {
                    records: found.records.update(
                        position,
                        load::finalized_record(found.records[position], commit, 32),
                    ),
                    file_bytes: (s + bytes).len() as int,
                    ..found
                },
            )
        }),
{
    let found = load::log_of(s, recover, refused)->Ok_0;
    let payload = record::finalize_payload(txn_id, commit);
    let position = load::record_position(found.records, txn_id)->0;
    record_laws::law_finalize_round_trip(txn_id, commit);
    assert(payload.len() == 24);
    assert(payload[0] == log::FINALIZE_TAG);
    recover::lemma_log_sized(s, recover, refused);
    load::lemma_record_position(found.records, txn_id);
    assert(recover::sizes_loaded(found.records[position]));
    lemma_log_with_frame(s, payload, recover, refused);
}

/// A whole entry with a wrong check value is refused where it stands.
pub proof fn lemma_bad_check_value(
    s: Seq<u8>,
    payload: Seq<u8>,
    check: u32,
    rest: Seq<u8>,
    recover: bool,
    refused: Set<Seq<u8>>,
)
    requires
        whole_log(s, recover, refused),
        0 < payload.len() <= log::CHANGE_LOG_MAX_RECORD_BYTES,
        check != checksum::crc32c_of(payload),
    ensures
        load::log_of(
            s + (bytes::u32_le(payload.len() as u32) + payload + bytes::u32_le(check)) + rest,
            recover,
            refused,
        ) == Err::<LogView, ChangeStreamError>(
            ChangeStreamError::ChecksumMismatch { offset: s.len() as u64 },
        ),
{
    let found = load::log_of(s, recover, refused)->Ok_0;
    let header = found.header;
    let p1 = bytes::u32_le(payload.len() as u32);
    let p2 = p1 + payload;
    let entry = p2 + bytes::u32_le(check);
    let tail = entry + rest;
    let t = s + entry + rest;
    let at = s.len() as int;
    assert(t =~= s + tail);
    lemma_front_prefix(s, tail);
    lemma_entries_prefix(
        s,
        tail,
        log::header_size(header.version),
        header,
        Seq::empty(),
        recover,
        found.records,
        refused,
    );
    assert(t.subrange(at, at + entry.len()) =~= entry);
    bytes::lemma_split_at(t, at, p2, bytes::u32_le(check));
    bytes::lemma_split_at(t, at, p1, payload);
    bytes::lemma_u32_at(t, at, payload.len() as u32);
    bytes::lemma_u32_at(t, at + 4 + payload.len(), check);
}

/// A crash in the middle of appending an entry loses nothing that was in the
/// log: recovery reads the log as it was before, and tells where it ends.
pub proof fn law_torn_append_is_left_out(
    s: Seq<u8>,
    payload: Seq<u8>,
    written: int,
    refused: Set<Seq<u8>>,
)
    requires
        whole_log(s, true, refused),
        0 < payload.len() <= log::CHANGE_LOG_MAX_RECORD_BYTES,
        0 <= written < record::framed(payload).len(),
    ensures
        load::log_of(s + record::framed(payload).take(written), true, refused) == Ok::<
            LogView,
            ChangeStreamError,
        >(load::log_of(s, true, refused)->Ok_0),
{
    let found = load::log_of(s, true, refused)->Ok_0;
    let header = found.header;
    let entry = record::framed(payload);
    let torn = entry.take(written);
    let t = s + torn;
    lemma_front_prefix(s, torn);
    lemma_entries_prefix(
        s,
        torn,
        log::header_size(header.version),
        header,
        Seq::empty(),
        true,
        found.records,
        refused,
    );
    let at = s.len() as int;
    if written >= 4 {
        lemma_frame(s, payload, Seq::empty());
        let whole = s + entry + Seq::<u8>::empty();
        let rest = entry.subrange(written, entry.len() as int);
        assert(t + rest =~= whole);
        bytes::lemma_at_prefix(t, rest, at);
        assert(bytes::u32_at(t, at) == payload.len());
    }
}

/// Without recovery a torn log is refused, at the offset of the torn entry.
pub proof fn law_torn_append_is_refused_without_recovery(
    s: Seq<u8>,
    payload: Seq<u8>,
    written: int,
    refused: Set<Seq<u8>>,
)
    requires
        whole_log(s, false, refused),
        0 < payload.len() <= log::CHANGE_LOG_MAX_RECORD_BYTES,
        0 < written < record::framed(payload).len(),
    ensures
        load::log_of(s + record::framed(payload).take(written), false, refused) == Err::<
            LogView,
            ChangeStreamError,
        >(ChangeStreamError::Truncated { offset: s.len() as u64 }),
{
    let found = load::log_of(s, false, refused)->Ok_0;
    let header = found.header;
    let entry = record::framed(payload);
    let torn = entry.take(written);
    let t = s + torn;
    lemma_front_prefix(s, torn);
    lemma_entries_prefix(
        s,
        torn,
        log::header_size(header.version),
        header,
        Seq::empty(),
        false,
        found.records,
        refused,
    );
    let at = s.len() as int;
    if written >= 4 {
        lemma_frame(s, payload, Seq::empty());
        let whole = s + entry + Seq::<u8>::empty();
        let rest = entry.subrange(written, entry.len() as int);
        assert(t + rest =~= whole);
        bytes::lemma_at_prefix(t, rest, at);
        assert(bytes::u32_at(t, at) == payload.len());
    }
}

} // verus!
