//! The row images in a change log. Which of them are no canonical rows of the
//! table is for the owner of the table to say.
use super::load;
use super::log;
use super::log::{
    Header, CHANGE_LOG_MAX_MUTATIONS, CHANGE_LOG_MAX_RECORD_BYTES, PREPARED_TAG, RECORD_FIXED,
    V1_HEADER_SIZE, V2_HEADER_SIZE,
};
use super::record;
use super::types;
use super::types::{ChangeStorageKind, StorageChange, StoredChange};
use crate::bytes;
use crate::checksum;
use crate::ids::StorageId;
use vstd::prelude::*;

verus! {

/// The row image of a change, if it has one.
pub open spec fn image_of<R>(change: StorageChange<R>) -> Option<R> {
    match change {
        StorageChange::Insert { after, .. } => Some(after),
        StorageChange::Update { after, .. } => Some(after),
        StorageChange::Delete { .. } => None,
    }
}

/// The row images of the first `n` changes in `s` from `at`, up to the first
/// change that cannot be read.
pub open spec fn images_at(
    s: Seq<u8>,
    at: int,
    n: nat,
    storage_id: StorageId,
    kind: ChangeStorageKind,
) -> Seq<Seq<u8>>
    decreases n,
{
    if n == 0 {
        Seq::empty()
    } else {
        let front = images_at(s, at, (n - 1) as nat, storage_id, kind);
        match record::mutations_at(s, at, (n - 1) as nat, storage_id, kind, Set::empty()) {
            Err(_) => front,
            Ok((_, next)) => match record::mutation_at(s, next, storage_id, Set::empty()) {
                Err(_) => front,
                Ok((change, _)) => match image_of(change) {
                    Some(row) => front.push(row),
                    None => front,
                },
            },
        }
    }
}

/// The row images in a payload of the log with this header.
pub open spec fn record_images(s: Seq<u8>, header: Header) -> Seq<Seq<u8>> {
    let count = bytes::u32_at(s, 96);
    if s.len() < RECORD_FIXED || s[0] != PREPARED_TAG || count > CHANGE_LOG_MAX_MUTATIONS {
        Seq::empty()
    } else {
        images_at(s, RECORD_FIXED as int, count as nat, header.storage_id, header.kind)
    }
}

/// The row images in the log `s` from `at` on, up to the first entry that is not
/// whole.
pub open spec fn entry_images(s: Seq<u8>, at: int, header: Header) -> Seq<Seq<u8>>
    decreases s.len() - at,
{
    let length = bytes::u32_at(s, at);
    let end = at + 4 + length;
    let payload = s.subrange(at + 4, end);
    if at + 4 > s.len() || length == 0 || length > CHANGE_LOG_MAX_RECORD_BYTES || end + 4 > s.len()
        || checksum::crc32c_of(payload) != bytes::u32_at(s, end) {
        Seq::empty()
    } else {
        record_images(payload, header) + entry_images(s, end + 4, header)
    }
}

/// The row images in a log.
pub open spec fn images_of(s: Seq<u8>) -> Seq<Seq<u8>> {
    match load::front_of(s) {
        Err(_) => Seq::empty(),
        Ok(header) => if header.active {
            entry_images(s, log::header_size(header.version), header)
        } else {
            Seq::empty()
        },
    }
}

/// What row images say.
pub open spec fn images_view(images: Seq<Vec<u8>>) -> Seq<Seq<u8>> {
    images.map_values(|row: Vec<u8>| row@)
}

proof fn lemma_none_refused(none: Seq<Vec<u8>>)
    requires
        none.len() == 0,
    ensures
        record::refused_rows(none) == Set::<Seq<u8>>::empty(),
{
    assert(record::refused_rows(none) =~= Set::empty());
}

/// Past a change that cannot be read there are no more row images.
proof fn lemma_images_stop(
    s: Seq<u8>,
    at: int,
    n: nat,
    m: nat,
    storage_id: StorageId,
    kind: ChangeStorageKind,
)
    requires
        n <= m,
        record::mutations_at(s, at, n, storage_id, kind, Set::empty()) is Err,
    ensures
        images_at(s, at, m, storage_id, kind) == images_at(s, at, n, storage_id, kind),
        record::mutations_at(s, at, m, storage_id, kind, Set::empty()) is Err,
    decreases m,
{
    if n < m {
        lemma_images_stop(s, at, n, (m - 1) as nat, storage_id, kind);
    }
}

fn record_rows(payload: &[u8], header: &Header, images: &mut Vec<Vec<u8>>)
    ensures
        images_view(final(images)@) == images_view(old(images)@) + record_images(payload@, *header),
{
    let ghost before = images_view(images@);
    if payload.len() < RECORD_FIXED || payload[0] != PREPARED_TAG {
        assert(before + Seq::empty() =~= before);
        return ;
    }
    let count: u32 = bytes::u32_from(payload, 96);
    if count > CHANGE_LOG_MAX_MUTATIONS {
        assert(before + Seq::empty() =~= before);
        return ;
    }
    let storage_id: StorageId = header.storage_id;
    let kind: ChangeStorageKind = header.kind;
    let none: Vec<Vec<u8>> = Vec::new();
    let ghost from = RECORD_FIXED as int;
    let mut offset: usize = RECORD_FIXED;
    let mut i: u32 = 0;
    proof {
        lemma_none_refused(none@);
    }
    assert(before + images_at(payload@, from, 0, storage_id, kind) =~= before);
    while i < count
        invariant_except_break
            record::mutations_at(
                payload@,
                from,
                i as nat,
                storage_id,
                kind,
                Set::empty(),
            ) matches Ok((_, next)) && next == offset,
            images_view(images@) == before + images_at(
                payload@,
                from,
                i as nat,
                storage_id,
                kind,
            ),
        invariant
            i <= count,
            from == RECORD_FIXED,
            count <= CHANGE_LOG_MAX_MUTATIONS,
            record::refused_rows(none@) == Set::<Seq<u8>>::empty(),
            count == bytes::u32_at(payload@, 96),
            payload@.len() >= RECORD_FIXED,
            payload@[0] == PREPARED_TAG,
            storage_id == header.storage_id,
            kind == header.kind,
        ensures
            images_view(images@) == before + images_at(
                payload@,
                from,
                count as nat,
                storage_id,
                kind,
            ),
        decreases count - i,
    {
        let ghost held = images_view(images@);
        let ghost front = images_at(payload@, from, i as nat, storage_id, kind);
        let change: StoredChange = match record::decode_mutation(
            payload,
            &mut offset,
            storage_id,
            none.as_slice(),
        ) {
            Ok(change) => change,
            Err(_) => {
                proof {
                    lemma_images_stop(
                        payload@,
                        from,
                        (i + 1) as nat,
                        count as nat,
                        storage_id,
                        kind,
                    );
                }
                break ;
            },
        };
        let fit: bool = record::validate_pending_mutation(&change, kind).is_ok();
        proof {
            assert(record::pending_error(change, kind) == record::pending_error(
                types::change_view(change),
                kind,
            ));
        }
        match change {
            StorageChange::Insert { after, .. } => {
                let ghost row = after@;
                images.push(after);
                assert(images_view(images@) =~= held.push(row));
                assert(held.push(row) =~= before + front.push(row));
            },
            StorageChange::Update { after, .. } => {
                let ghost row = after@;
                images.push(after);
                assert(images_view(images@) =~= held.push(row));
                assert(held.push(row) =~= before + front.push(row));
            },
            StorageChange::Delete { .. } => {},
        }
        if !fit {
            proof {
                lemma_images_stop(
                    payload@,
                    from,
                    (i + 1) as nat,
                    count as nat,
                    storage_id,
                    kind,
                );
            }
            break ;
        }
        i = i + 1;
    }
}

/// Lists the row images in a log.
pub fn row_images(input: &[u8]) -> (images: Vec<Vec<u8>>)
    ensures
        images_view(images@) == images_of(input@),
{
    let mut images: Vec<Vec<u8>> = Vec::new();
    assert(images_view(images@) =~= Seq::empty());
    let header: Header = match load::read_front(input) {
        Ok(header) => header,
        Err(_) => {
            return images;
        },
    };
    if !header.active {
        return images;
    }
    proof {
        load::lemma_front_version(input@);
    }
    let mut offset: usize = if header.version == 1 {
        V1_HEADER_SIZE
    } else {
        V2_HEADER_SIZE
    };
    let ghost whole = images_of(input@);
    assert(images_view(images@) + entry_images(input@, offset as int, header) =~= whole);
    while offset < input.len()
        invariant
            offset <= input@.len(),
            images_view(images@) + entry_images(input@, offset as int, header) == whole,
        ensures
            images_view(images@) == whole,
        decreases input@.len() - offset,
    {
        let left: usize = input.len() - offset;
        let ghost held = images_view(images@);
        let ghost rest = entry_images(input@, offset as int, header);
        assert(rest.len() == 0 ==> held + rest =~= held);
        if left < 4 {
            break ;
        }
        let length: u32 = bytes::u32_from(input, offset);
        if length == 0 || length > CHANGE_LOG_MAX_RECORD_BYTES || left - 4 < length as usize + 4 {
            break ;
        }
        let end: usize = offset + 4 + length as usize;
        let payload = &input[offset + 4..end];
        if checksum::crc32c(payload) != bytes::u32_from(input, end) {
            break ;
        }
        record_rows(payload, &header, &mut images);
        proof {
            let found = record_images(payload@, header);
            let further = entry_images(input@, end + 4, header);
            assert(held + (found + further) =~= (held + found) + further);
        }
        offset = end + 4;
    }
    images
}

// ---------------------------------------------------------------------------
// Laws
// ---------------------------------------------------------------------------
/// Whether two sets of refused row images hold the same ones of some.
pub open spec fn agree(left: Set<Seq<u8>>, right: Set<Seq<u8>>, images: Seq<Seq<u8>>) -> bool {
    forall|i: int|
        0 <= i < images.len() ==> (left.contains(#[trigger] images[i]) <==> right.contains(
            images[i],
        ))
}

proof fn lemma_mutations_unrefused(
    s: Seq<u8>,
    at: int,
    n: nat,
    storage_id: StorageId,
    kind: ChangeStorageKind,
    refused: Set<Seq<u8>>,
)
    requires
        record::mutations_at(s, at, n, storage_id, kind, refused) is Ok,
    ensures
        record::mutations_at(s, at, n, storage_id, kind, Set::empty()) == record::mutations_at(
            s,
            at,
            n,
            storage_id,
            kind,
            refused,
        ),
    decreases n,
{
    if n > 0 {
        lemma_mutations_unrefused(s, at, (n - 1) as nat, storage_id, kind, refused);
    }
}

proof fn lemma_mutations_agree(
    s: Seq<u8>,
    at: int,
    n: nat,
    storage_id: StorageId,
    kind: ChangeStorageKind,
    left: Set<Seq<u8>>,
    right: Set<Seq<u8>>,
)
    requires
        agree(left, right, images_at(s, at, n, storage_id, kind)),
    ensures
        record::mutations_at(s, at, n, storage_id, kind, left) == record::mutations_at(
            s,
            at,
            n,
            storage_id,
            kind,
            right,
        ),
    decreases n,
{
    if n > 0 {
        let m = (n - 1) as nat;
        let images = images_at(s, at, n, storage_id, kind);
        let front = images_at(s, at, m, storage_id, kind);
        assert forall|i: int| 0 <= i < front.len() implies (left.contains(#[trigger] front[i])
            <==> right.contains(front[i])) by {
            assert(images[i] == front[i]);
        }
        lemma_mutations_agree(s, at, m, storage_id, kind, left, right);
        if record::mutations_at(s, at, m, storage_id, kind, left) is Ok {
            lemma_mutations_unrefused(s, at, m, storage_id, kind, left);
            let (_, next) = record::mutations_at(s, at, m, storage_id, kind, left)->Ok_0;
            if let Ok((change, _)) = record::mutation_at(s, next, storage_id, Set::empty()) {
                if let Some(row) = image_of(change) {
                    assert(images[front.len() as int] == row);
                }
            }
            assert(record::mutation_at(s, next, storage_id, left) == record::mutation_at(
                s,
                next,
                storage_id,
                right,
            ));
        }
    }
}

proof fn lemma_entries_agree(
    s: Seq<u8>,
    at: int,
    header: Header,
    records: Seq<load::RecordView>,
    recover: bool,
    left: Set<Seq<u8>>,
    right: Set<Seq<u8>>,
)
    requires
        0 <= at,
        agree(left, right, entry_images(s, at, header)),
    ensures
        load::entries_from(s, at, header, records, recover, left) == load::entries_from(
            s,
            at,
            header,
            records,
            recover,
            right,
        ),
    decreases s.len() - at,
{
    let length = bytes::u32_at(s, at);
    let end = at + 4 + length;
    let payload = s.subrange(at + 4, end);
    if at + 4 <= s.len() && 0 < length <= CHANGE_LOG_MAX_RECORD_BYTES && end + 4 <= s.len()
        && checksum::crc32c_of(payload) == bytes::u32_at(s, end) {
        let images = entry_images(s, at, header);
        let found = record_images(payload, header);
        let further = entry_images(s, end + 4, header);
        assert forall|i: int| 0 <= i < found.len() implies (left.contains(#[trigger] found[i])
            <==> right.contains(found[i])) by {
            assert(images[i] == found[i]);
        }
        assert forall|i: int| 0 <= i < further.len() implies (left.contains(#[trigger] further[i])
            <==> right.contains(further[i])) by {
            assert(images[found.len() + i] == further[i]);
        }
        let count = bytes::u32_at(payload, 96);
        if payload.len() >= RECORD_FIXED && payload[0] == PREPARED_TAG && count
            <= CHANGE_LOG_MAX_MUTATIONS {
            lemma_mutations_agree(
                payload,
                RECORD_FIXED as int,
                count as nat,
                header.storage_id,
                header.kind,
                left,
                right,
            );
        }
        assert(record::record_of(payload, header, left) == record::record_of(
            payload,
            header,
            right,
        ));
        let size = (8 + length) as u64;
        if let Ok(next) = load::entry_applied(records, payload, header, size, left) {
            lemma_entries_agree(s, end + 4, header, next, recover, left, right);
        }
    }
}

/// What is read of a log, and why a log is refused, depends on the refused row
/// images only as far as they are among the row images in the log: so it is
/// enough to judge those.
pub proof fn law_only_row_images_are_judged(
    s: Seq<u8>,
    recover: bool,
    left: Set<Seq<u8>>,
    right: Set<Seq<u8>>,
)
    requires
        agree(left, right, images_of(s)),
    ensures
        load::log_of(s, recover, left) == load::log_of(s, recover, right),
{
    if let Ok(header) = load::front_of(s) {
        if header.active {
            lemma_entries_agree(
                s,
                log::header_size(header.version),
                header,
                Seq::empty(),
                recover,
                left,
                right,
            );
        }
    }
}

} // verus!
