//! The dispatch queue's core: the binary record codec and the persisted
//! state with its transactional operations — enqueue, claim, drop and
//! requeue — under strict sequence-number and byte accounting.
use vstd::prelude::*;
use vstd::string::StringSliceAdditionalSpecFns;
use vstd::utf8::{
    decode_utf8, encode_utf8, encode_utf8_decode_utf8, encode_utf8_valid_utf8, valid_utf8,
};

use crate::bytevec::{
    append_bytes, be32, be32_val, be64, be64_val, copy_range, lemma_be32_roundtrip,
    lemma_be64_roundtrip, lemma_i64_u64_roundtrip, push_be32, push_be64, read_be32, read_be64,
};
use crate::error::{
    AppError, STATUS_INTERNAL_SERVER_ERROR, STATUS_PAYLOAD_TOO_LARGE, STATUS_SERVICE_UNAVAILABLE,
};

verus! {

/// A record is dropped once its attempt count reaches this bound.
pub const MAX_ATTEMPTS: u32 = 5;

/// Delay before a failed record becomes ready again, in milliseconds.
pub const RETRY_DELAY_MS: i64 = 500;

/// How long an idle worker sleeps between claim scans, in milliseconds.
pub const IDLE_SLEEP_MS: u64 = 50;

/// One enqueued delivery: the target subscription, the envelope bytes to
/// push, the instant (wall-clock milliseconds) before which it must not
/// be sent, and how many sends have failed so far.
#[derive(Debug)]
pub struct QueueRecord {
    pub uuid: String,
    pub payload: Vec<u8>,
    pub send_after_ms: i64,
    pub attempts: u32,
}

/// The ghost image of a record.
pub struct QueueRecordV {
    pub uuid: Seq<char>,
    pub payload: Seq<u8>,
    pub send_after_ms: i64,
    pub attempts: u32,
}

impl View for QueueRecord {
    type V = QueueRecordV;

    open spec fn view(&self) -> QueueRecordV {
        QueueRecordV {
            uuid: self.uuid@,
            payload: self.payload@,
            send_after_ms: self.send_after_ms,
            attempts: self.attempts,
        }
    }
}

/// A record the fixed-prefix binary encoding can carry: the UUID is at
/// most 255 bytes of UTF-8 and the payload length fits 32 bits.
pub open spec fn encodable(r: QueueRecordV) -> bool {
    encode_utf8(r.uuid).len() <= 255 && r.payload.len() <= u32::MAX
}

/// The binary record format: UUID length (1 byte), UUID bytes, send-after
/// (8 bytes, big-endian, signed), attempts (4 bytes, big-endian), payload
/// length (4 bytes, big-endian), payload.
pub open spec fn record_bytes(r: QueueRecordV) -> Seq<u8>
    recommends
        encodable(r),
{
    let ub = encode_utf8(r.uuid);
    seq![ub.len() as u8] + ub + be64(r.send_after_ms as u64) + be32(r.attempts) + be32(
        r.payload.len() as u32,
    ) + r.payload
}

/// What decoding yields on arbitrary bytes: the record read from the
/// fixed prefix, or nothing when the bytes are too short, the UUID is not
/// UTF-8, or the payload length overruns the data. Trailing bytes beyond
/// the payload are ignored.
pub open spec fn spec_decode_record(data: Seq<u8>) -> Option<QueueRecordV> {
    if data.len() < 17 {
        None
    } else {
        let ul = data[0] as int;
        if data.len() < 1 + ul + 16 {
            None
        } else {
            let ub = data.subrange(1, 1 + ul);
            if !valid_utf8(ub) {
                None
            } else {
                let sa = be64_val(data.subrange(1 + ul, 1 + ul + 8)) as i64;
                let at = be32_val(data.subrange(1 + ul + 8, 1 + ul + 12));
                let pl = be32_val(data.subrange(1 + ul + 12, 1 + ul + 16)) as int;
                if data.len() < 1 + ul + 16 + pl {
                    None
                } else {
                    Some(
                        QueueRecordV {
                            uuid: decode_utf8(ub),
                            payload: data.subrange(1 + ul + 16, 1 + ul + 16 + pl),
                            send_after_ms: sa,
                            attempts: at,
                        },
                    )
                }
            }
        }
    }
}

/// Decoding inverts encoding on every encodable record.
pub proof fn lemma_record_roundtrip(r: QueueRecordV)
    requires
        encodable(r),
    ensures
        spec_decode_record(record_bytes(r)) == Some(r),
{
    broadcast use encode_utf8_valid_utf8, encode_utf8_decode_utf8;

    let ub = encode_utf8(r.uuid);
    let ul = ub.len() as int;
    let data = record_bytes(r);
    assert(data.len() == 17 + ul + r.payload.len());
    assert(data[0] == ul as u8);
    assert(data.subrange(1, 1 + ul) =~= ub);
    assert(data.subrange(1 + ul, 1 + ul + 8) =~= be64(r.send_after_ms as u64));
    assert(data.subrange(1 + ul + 8, 1 + ul + 12) =~= be32(r.attempts));
    assert(data.subrange(1 + ul + 12, 1 + ul + 16) =~= be32(r.payload.len() as u32));
    lemma_be64_roundtrip(r.send_after_ms as u64);
    lemma_i64_u64_roundtrip(r.send_after_ms);
    lemma_be32_roundtrip(r.attempts);
    lemma_be32_roundtrip(r.payload.len() as u32);
    assert(data.subrange(1 + ul + 16, 1 + ul + 16 + r.payload.len()) =~= r.payload);
    assert(spec_decode_record(data) == Some(r));
}

/// Relies on `String::from_utf8`: yields the string carried by the bytes
/// when they are valid UTF-8, and an error otherwise.
#[verifier::external_body]
fn string_from_utf8(v: Vec<u8>) -> (r: Option<String>)
    ensures
        match r {
            Some(s) => encode_utf8(s@) == v@,
            None => !valid_utf8(v@),
        },
{
    match String::from_utf8(v) {
        Ok(s) => Some(s),
        Err(_) => None,
    }
}

/// Serialize a record; fails when the UUID or the payload is too large
/// for the fixed-width prefix.
pub fn encode_record(record: &QueueRecord) -> (r: Result<Vec<u8>, AppError>)
    ensures
        match r {
            Ok(v) => encodable(record@) && v@ == record_bytes(record@),
            Err(e) => (encode_utf8(record@.uuid).len() > 255 && e.status
                == STATUS_INTERNAL_SERVER_ERROR && e.message@ == ("uuid too long")@) || (
            encode_utf8(record@.uuid).len() <= 255 && record@.payload.len() > u32::MAX && e.status
                == STATUS_PAYLOAD_TOO_LARGE && e.message@ == ("queue payload too large")@),
        },
{
    let uuid_bytes = record.uuid.as_str().as_bytes();
    let ulen = uuid_bytes.len();
    if ulen > 255 {
        return Err(AppError::new(STATUS_INTERNAL_SERVER_ERROR, "uuid too long"));
    }
    let plen = record.payload.len();
    if plen > u32::MAX as usize {
        return Err(AppError::new(STATUS_PAYLOAD_TOO_LARGE, "queue payload too large"));
    }
    let mut out: Vec<u8> = Vec::new();
    out.push(ulen as u8);
    append_bytes(&mut out, uuid_bytes);
    push_be64(&mut out, record.send_after_ms as u64);
    push_be32(&mut out, record.attempts);
    push_be32(&mut out, plen as u32);
    append_bytes(&mut out, record.payload.as_slice());
    proof {
        assert(out@ =~= record_bytes(record@));
    }
    Ok(out)
}

/// Parse a record back from its binary form; any malformed input is
/// reported as a corrupt record.
pub fn decode_record(data: &[u8]) -> (r: Result<QueueRecord, AppError>)
    ensures
        match r {
            Ok(rec) => spec_decode_record(data@) == Some(rec@),
            Err(e) => spec_decode_record(data@) is None && e.status == STATUS_INTERNAL_SERVER_ERROR
                && e.message@ == ("queue record corrupt")@,
        },
{
    let n = data.len();
    if n < 17 {
        return Err(AppError::new(STATUS_INTERNAL_SERVER_ERROR, "queue record corrupt"));
    }
    let ulen = (*vstd::slice::slice_index_get(data, 0)) as usize;
    if n - 17 < ulen {
        return Err(AppError::new(STATUS_INTERNAL_SERVER_ERROR, "queue record corrupt"));
    }
    let uuid_vec = copy_range(data, 1, 1 + ulen);
    let uuid = match string_from_utf8(uuid_vec) {
        Some(s) => s,
        None => {
            return Err(AppError::new(STATUS_INTERNAL_SERVER_ERROR, "queue record corrupt"));
        },
    };
    let send_after_u = read_be64(data, 1 + ulen);
    let send_after_ms = send_after_u as i64;
    let attempts = read_be32(data, 1 + ulen + 8);
    let payload_len = read_be32(data, 1 + ulen + 12) as usize;
    if n - 17 - ulen < payload_len {
        return Err(AppError::new(STATUS_INTERNAL_SERVER_ERROR, "queue record corrupt"));
    }
    let payload = copy_range(data, 1 + ulen + 16, 1 + ulen + 16 + payload_len);
    let rec = QueueRecord { uuid, payload, send_after_ms, attempts };
    proof {
        broadcast use encode_utf8_decode_utf8, encode_utf8_valid_utf8;

        let ul = ulen as int;
        let ub = data@.subrange(1, 1 + ul);
        assert(valid_utf8(ub));
        assert(rec.uuid@ == decode_utf8(ub));
        assert(rec@.send_after_ms == be64_val(data@.subrange(1 + ul, 1 + ul + 8)) as i64);
        assert(rec@.attempts == be32_val(data@.subrange(1 + ul + 8, 1 + ul + 12)));
        assert(payload_len as int == be32_val(data@.subrange(1 + ul + 12, 1 + ul + 16)) as int);
        assert(rec@.payload == data@.subrange(1 + ul + 16, 1 + ul + 16 + payload_len as int));
        assert(spec_decode_record(data@) == Some(rec@));
    }
    Ok(rec)
}

/// The views of stored entries: sequence number and record bytes.
pub open spec fn entries_v(v: Seq<(u64, Vec<u8>)>) -> Seq<(u64, Seq<u8>)> {
    v.map_values(|p: (u64, Vec<u8>)| (p.0, p.1@))
}

/// Total record bytes held by a list of entries.
pub open spec fn entries_bytes(s: Seq<(u64, Seq<u8>)>) -> int
    decreases s.len(),
{
    if s.len() == 0 {
        0
    } else {
        entries_bytes(s.drop_last()) + s.last().1.len()
    }
}

pub proof fn lemma_entries_bytes_push(s: Seq<(u64, Seq<u8>)>, e: (u64, Seq<u8>))
    ensures
        entries_bytes(s.push(e)) == entries_bytes(s) + e.1.len(),
{
    assert(s.push(e).drop_last() =~= s);
    assert(s.push(e).last() == e);
}

pub proof fn lemma_entries_bytes_nonneg(s: Seq<(u64, Seq<u8>)>)
    ensures
        entries_bytes(s) >= 0,
    decreases s.len(),
{
    if s.len() > 0 {
        lemma_entries_bytes_nonneg(s.drop_last());
    }
}

pub proof fn lemma_entries_bytes_remove(s: Seq<(u64, Seq<u8>)>, i: int)
    requires
        0 <= i < s.len(),
    ensures
        entries_bytes(s.remove(i)) == entries_bytes(s) - s[i].1.len(),
    decreases s.len(),
{
    if i == s.len() - 1 {
        assert(s.remove(i) =~= s.drop_last());
    } else {
        assert(s.remove(i).drop_last() =~= s.drop_last().remove(i));
        assert(s.remove(i).last() == s.last());
        lemma_entries_bytes_remove(s.drop_last(), i);
        assert(s.drop_last()[i] == s[i]);
    }
}

/// Whether the record carried by `bytes` is due at `now_ms`; bytes that
/// do not decode are treated as ready, so that a corrupt record surfaces
/// to a worker instead of blocking the scan.
pub open spec fn record_ready(bytes: Seq<u8>, now_ms: i64) -> bool {
    match spec_decode_record(bytes) {
        Some(r) => r.send_after_ms <= now_ms,
        None => true,
    }
}

/// The queue's persisted state as the transaction logic sees it: the
/// pending records in ascending sequence order, the records claimed by
/// workers but not yet resolved, the next sequence number, and the byte
/// total of everything held.
pub struct QueueState {
    pending: Vec<(u64, Vec<u8>)>,
    inflight: Vec<(u64, Vec<u8>)>,
    next_seq: u64,
    queue_bytes: u64,
}

impl QueueState {
    pub closed spec fn pending_v(self) -> Seq<(u64, Seq<u8>)> {
        entries_v(self.pending@)
    }

    pub closed spec fn inflight_v(self) -> Seq<(u64, Seq<u8>)> {
        entries_v(self.inflight@)
    }

    pub closed spec fn next_seq_v(self) -> u64 {
        self.next_seq
    }

    pub closed spec fn queue_bytes_v(self) -> u64 {
        self.queue_bytes
    }

    /// The queue invariant: pending is strictly ordered by sequence
    /// number, every stored sequence number is below the next to be
    /// assigned, no sequence number is held twice, and the byte counter
    /// equals the total bytes of pending and inflight records.
    pub open spec fn wf(self) -> bool {
        &&& forall|i: int, j: int|
            0 <= i < j < self.pending_v().len() ==> (#[trigger] self.pending_v()[i]).0 < (
            #[trigger] self.pending_v()[j]).0
        &&& forall|i: int|
            0 <= i < self.pending_v().len() ==> (#[trigger] self.pending_v()[i]).0
                < self.next_seq_v()
        &&& forall|i: int|
            0 <= i < self.inflight_v().len() ==> (#[trigger] self.inflight_v()[i]).0
                < self.next_seq_v()
        &&& forall|i: int, j: int|
            0 <= i < j < self.inflight_v().len() ==> (#[trigger] self.inflight_v()[i]).0 != (
            #[trigger] self.inflight_v()[j]).0
        &&& forall|i: int, j: int|
            0 <= i < self.pending_v().len() && 0 <= j < self.inflight_v().len() ==> (
            #[trigger] self.pending_v()[i]).0 != (#[trigger] self.inflight_v()[j]).0
        &&& self.queue_bytes_v() == entries_bytes(self.pending_v()) + entries_bytes(
            self.inflight_v(),
        )
    }

    /// A fresh, empty queue.
    pub fn new() -> (q: QueueState)
        ensures
            q.wf(),
            q.pending_v() == Seq::<(u64, Seq<u8>)>::empty(),
            q.inflight_v() == Seq::<(u64, Seq<u8>)>::empty(),
            q.next_seq_v() == 0,
            q.queue_bytes_v() == 0,
    {
        let q = QueueState { pending: Vec::new(), inflight: Vec::new(), next_seq: 0, queue_bytes: 0 };
        proof {
            assert(q.pending_v() =~= Seq::<(u64, Seq<u8>)>::empty());
            assert(q.inflight_v() =~= Seq::<(u64, Seq<u8>)>::empty());
        }
        q
    }

    /// Admit a record if the byte budget allows, assigning it the next
    /// sequence number; a full queue rejects it with service-unavailable.
    pub fn enqueue(&mut self, record_bytes: Vec<u8>, max_bytes: u64) -> (r: Result<u64, AppError>)
        requires
            old(self).wf(),
            old(self).next_seq_v() < u64::MAX,
        ensures
            final(self).wf(),
            match r {
                Err(e) => {
                    &&& *final(self) == *old(self)
                    &&& e.status == STATUS_SERVICE_UNAVAILABLE
                    &&& e.message@ == ("queue full")@
                    &&& old(self).queue_bytes_v() + record_bytes@.len() > max_bytes
                },
                Ok(seq) => {
                    &&& old(self).queue_bytes_v() + record_bytes@.len() <= max_bytes
                    &&& seq == old(self).next_seq_v()
                    &&& final(self).next_seq_v() == old(self).next_seq_v() + 1
                    &&& final(self).pending_v() == old(self).pending_v().push(
                        (seq, record_bytes@),
                    )
                    &&& final(self).inflight_v() == old(self).inflight_v()
                    &&& final(self).queue_bytes_v() == old(self).queue_bytes_v()
                        + record_bytes@.len()
                },
            },
    {
        let len = record_bytes.len() as u64;
        proof {
            lemma_entries_bytes_nonneg(self.pending_v());
            lemma_entries_bytes_nonneg(self.inflight_v());
        }
        if len > max_bytes || self.queue_bytes > max_bytes - len {
            return Err(AppError::new(STATUS_SERVICE_UNAVAILABLE, "queue full"));
        }
        let seq = self.next_seq;
        let ghost prev = *self;
        let ghost rbv = record_bytes@;
        self.pending.push((seq, record_bytes));
        self.next_seq = seq + 1;
        self.queue_bytes = self.queue_bytes + len;
        proof {
            assert(self.pending_v() =~= prev.pending_v().push((seq, rbv)));
            lemma_entries_bytes_push(prev.pending_v(), (seq, rbv));
            assert(forall|i: int|
                0 <= i < prev.pending_v().len() ==> #[trigger] self.pending_v()[i]
                    == prev.pending_v()[i]);
        }
        Ok(seq)
    }

    /// Claim the first pending record that is ready at `now_ms`, moving it
    /// from pending to inflight; bytes that do not decode count as ready.
    pub fn claim_next(&mut self, now_ms: i64) -> (r: Option<(u64, Vec<u8>)>)
        requires
            old(self).wf(),
        ensures
            final(self).wf(),
            final(self).next_seq_v() == old(self).next_seq_v(),
            final(self).queue_bytes_v() == old(self).queue_bytes_v(),
            match r {
                None => {
                    &&& *final(self) == *old(self)
                    &&& forall|i: int|
                        0 <= i < old(self).pending_v().len() ==> !record_ready(
                            (#[trigger] old(self).pending_v()[i]).1,
                            now_ms,
                        )
                },
                Some((seq, bytes)) => exists|i: int|
                    {
                        &&& 0 <= i < old(self).pending_v().len()
                        &&& #[trigger] old(self).pending_v()[i] == (seq, bytes@)
                        &&& record_ready(bytes@, now_ms)
                        &&& forall|j: int|
                            0 <= j < i ==> !record_ready(
                                (#[trigger] old(self).pending_v()[j]).1,
                                now_ms,
                            )
                        &&& final(self).pending_v() == old(self).pending_v().remove(i)
                        &&& final(self).inflight_v() == old(self).inflight_v().push((seq, bytes@))
                    },
            },
    {
        let n = self.pending.len();
        let mut idx: usize = 0;
        let ghost entry = *self;
        while idx < n
            invariant
                *self == entry,
                entry == *old(self),
                self.wf(),
                n == self.pending@.len(),
                idx <= n,
                forall|j: int|
                    0 <= j < idx ==> !record_ready((#[trigger] self.pending_v()[j]).1, now_ms),
            decreases n - idx,
        {
            let ready = {
                let e = &self.pending[idx];
                match decode_record(e.1.as_slice()) {
                    Ok(rec) => rec.send_after_ms <= now_ms,
                    Err(_) => true,
                }
            };
            proof {
                assert(self.pending_v()[idx as int].1 == self.pending@[idx as int].1@);
            }
            if ready {
                let ghost prev = *self;
                let (seq, bytes) = self.pending.remove(idx);
                let bytes_copy = copy_range(bytes.as_slice(), 0, bytes.len());
                let ghost bv = bytes@;
                self.inflight.push((seq, bytes_copy));
                proof {
                    assert(prev.pending_v()[idx as int] == (seq, bv));
                    assert(bytes_copy@ =~= bv);
                    assert(self.pending_v() =~= prev.pending_v().remove(idx as int));
                    assert(self.inflight_v() =~= prev.inflight_v().push((seq, bv)));
                    lemma_entries_bytes_remove(prev.pending_v(), idx as int);
                    lemma_entries_bytes_push(prev.inflight_v(), (seq, bv));
                    prev.pending_v().remove_ensures(idx as int);
                    assert forall|a: int, b: int|
                        0 <= a < b < self.pending_v().len() implies (
                    #[trigger] self.pending_v()[a]).0 < (#[trigger] self.pending_v()[b]).0 by {
                        if a < idx as int {
                            assert(self.pending_v()[a] == prev.pending_v()[a]);
                        } else {
                            assert(self.pending_v()[a] == prev.pending_v()[a + 1]);
                        }
                        if b < idx as int {
                            assert(self.pending_v()[b] == prev.pending_v()[b]);
                        } else {
                            assert(self.pending_v()[b] == prev.pending_v()[b + 1]);
                        }
                    }
                    assert forall|a: int|
                        0 <= a < self.pending_v().len() implies (#[trigger] self.pending_v()[a]).0
                        < self.next_seq_v() by {
                        if a < idx as int {
                            assert(self.pending_v()[a] == prev.pending_v()[a]);
                        } else {
                            assert(self.pending_v()[a] == prev.pending_v()[a + 1]);
                        }
                    }
                    assert forall|a: int, b: int|
                        0 <= a < self.pending_v().len() && 0 <= b
                        < self.inflight_v().len() implies (#[trigger] self.pending_v()[a]).0 != (
                    #[trigger] self.inflight_v()[b]).0 by {
                        let pa = if a < idx as int {
                            a
                        } else {
                            a + 1
                        };
                        assert(self.pending_v()[a] == prev.pending_v()[pa]);
                        if b < prev.inflight_v().len() {
                            assert(self.inflight_v()[b] == prev.inflight_v()[b]);
                        } else {
                            assert(self.inflight_v()[b] == (seq, bv));
                            assert(prev.pending_v()[pa].0 != seq);
                        }
                    }
                    assert forall|a: int, b: int|
                        0 <= a < b < self.inflight_v().len() implies (
                    #[trigger] self.inflight_v()[a]).0 != (#[trigger] self.inflight_v()[b]).0 by {
                        assert(self.inflight_v()[a] == prev.inflight_v()[a]);
                        if b < prev.inflight_v().len() {
                            assert(self.inflight_v()[b] == prev.inflight_v()[b]);
                        } else {
                            assert(self.inflight_v()[b] == (seq, bv));
                        }
                    }
                }
                return Some((seq, bytes));
            }
            idx = idx + 1;
        }
        None
    }

    /// Resolve a claimed record: remove it from inflight and release its
    /// bytes from the accounting. Unknown sequence numbers are ignored.
    pub fn drop_inflight(&mut self, seq: u64)
        requires
            old(self).wf(),
        ensures
            final(self).wf(),
            final(self).next_seq_v() == old(self).next_seq_v(),
            final(self).pending_v() == old(self).pending_v(),
            if exists|i: int|
                0 <= i < old(self).inflight_v().len() && (#[trigger] old(self).inflight_v()[i]).0
                    == seq {
                exists|i: int|
                    {
                        &&& 0 <= i < old(self).inflight_v().len()
                        &&& (#[trigger] old(self).inflight_v()[i]).0 == seq
                        &&& final(self).inflight_v() == old(self).inflight_v().remove(i)
                        &&& final(self).queue_bytes_v() == old(self).queue_bytes_v() - old(
                            self,
                        ).inflight_v()[i].1.len()
                    }
            } else {
                *final(self) == *old(self)
            },
    {
        let n = self.inflight.len();
        let mut idx: usize = 0;
        let ghost entry = *self;
        while idx < n
            invariant
                *self == entry,
                entry == *old(self),
                self.wf(),
                n == self.inflight@.len(),
                idx <= n,
                forall|j: int| 0 <= j < idx ==> (#[trigger] self.inflight_v()[j]).0 != seq,
            decreases n - idx,
        {
            if self.inflight[idx].0 == seq {
                let ghost prev = *self;
                let (_, bytes) = self.inflight.remove(idx);
                proof {
                    lemma_entries_bytes_remove(prev.inflight_v(), idx as int);
                    lemma_entries_bytes_nonneg(prev.inflight_v().remove(idx as int));
                    lemma_entries_bytes_nonneg(prev.pending_v());
                    assert(prev.inflight_v()[idx as int].1 == bytes@);
                }
                self.queue_bytes = self.queue_bytes - bytes.len() as u64;
                proof {
                    assert(self.inflight_v() =~= prev.inflight_v().remove(idx as int));
                    prev.inflight_v().remove_ensures(idx as int);
                    assert forall|a: int|
                        0 <= a < self.inflight_v().len() implies (#[trigger] self.inflight_v()[
                    a]).0 < self.next_seq_v() by {
                        if a < idx as int {
                            assert(self.inflight_v()[a] == prev.inflight_v()[a]);
                        } else {
                            assert(self.inflight_v()[a] == prev.inflight_v()[a + 1]);
                        }
                    }
                    assert forall|a: int, b: int|
                        0 <= a < b < self.inflight_v().len() implies (
                    #[trigger] self.inflight_v()[a]).0 != (#[trigger] self.inflight_v()[b]).0 by {
                        let ia = if a < idx as int {
                            a
                        } else {
                            a + 1
                        };
                        let ib = if b < idx as int {
                            b
                        } else {
                            b + 1
                        };
                        assert(self.inflight_v()[a] == prev.inflight_v()[ia]);
                        assert(self.inflight_v()[b] == prev.inflight_v()[ib]);
                    }
                    assert forall|a: int, b: int|
                        0 <= a < self.pending_v().len() && 0 <= b
                        < self.inflight_v().len() implies (#[trigger] self.pending_v()[a]).0 != (
                    #[trigger] self.inflight_v()[b]).0 by {
                        let ib = if b < idx as int {
                            b
                        } else {
                            b + 1
                        };
                        assert(self.inflight_v()[b] == prev.inflight_v()[ib]);
                    }
                }
                return ;
            }
            idx = idx + 1;
        }
    }

    /// Put a retried record back on the queue under a fresh sequence
    /// number, retiring its claimed predecessor; the byte counter moves by
    /// exactly the size difference between the two encodings.
    pub fn requeue_inflight(&mut self, seq: u64, record_bytes: Vec<u8>) -> (r: u64)
        requires
            old(self).wf(),
            old(self).next_seq_v() < u64::MAX,
            old(self).queue_bytes_v() + record_bytes@.len() <= u64::MAX,
        ensures
            final(self).wf(),
            r == old(self).next_seq_v(),
            final(self).next_seq_v() == old(self).next_seq_v() + 1,
            if exists|i: int|
                0 <= i < old(self).inflight_v().len() && (#[trigger] old(self).inflight_v()[i]).0
                    == seq {
                exists|i: int|
                    {
                        &&& 0 <= i < old(self).inflight_v().len()
                        &&& (#[trigger] old(self).inflight_v()[i]).0 == seq
                        &&& final(self).inflight_v() == old(self).inflight_v().remove(i)
                        &&& final(self).pending_v() == old(self).pending_v().push(
                            (r, record_bytes@),
                        )
                        &&& final(self).queue_bytes_v() == old(self).queue_bytes_v() - old(
                            self,
                        ).inflight_v()[i].1.len() + record_bytes@.len()
                    }
            } else {
                final(self).inflight_v() == old(self).inflight_v() && final(self).pending_v()
                    == old(self).pending_v().push((r, record_bytes@))
                    && final(self).queue_bytes_v() == old(self).queue_bytes_v()
                    + record_bytes@.len()
            },
    {
        let ghost entry = *self;
        self.drop_inflight(seq);
        let ghost mid = *self;
        let new_seq = self.next_seq;
        let ghost prev = *self;
        let ghost rbv = record_bytes@;
        let len = record_bytes.len() as u64;
        proof {
            lemma_entries_bytes_nonneg(self.pending_v());
            lemma_entries_bytes_nonneg(self.inflight_v());
        }
        self.pending.push((new_seq, record_bytes));
        self.next_seq = new_seq + 1;
        self.queue_bytes = self.queue_bytes + len;
        proof {
            assert(self.pending_v() =~= prev.pending_v().push((new_seq, rbv)));
            lemma_entries_bytes_push(prev.pending_v(), (new_seq, rbv));
            assert(forall|i: int|
                0 <= i < prev.pending_v().len() ==> #[trigger] self.pending_v()[i]
                    == prev.pending_v()[i]);
        }
        new_seq
    }

    pub fn queue_bytes_value(&self) -> (r: u64)
        ensures
            r == self.queue_bytes_v(),
    {
        self.queue_bytes
    }

    pub fn next_seq_value(&self) -> (r: u64)
        ensures
            r == self.next_seq_v(),
    {
        self.next_seq
    }

    /// Rebuild the queue state from persisted tables: the pending entries
    /// in ascending key order, the inflight entries, and the stored next
    /// sequence number. The byte counter is recomputed by a scan. Data
    /// that breaks the queue invariant is rejected.
    pub fn from_parts(pending: Vec<(u64, Vec<u8>)>, inflight: Vec<(u64, Vec<u8>)>, next_seq: u64)
        -> (r: Option<QueueState>)
        ensures
            match r {
                Some(q) => {
                    &&& q.wf()
                    &&& q.pending_v() == entries_v(pending@)
                    &&& q.inflight_v() == entries_v(inflight@)
                    &&& q.next_seq_v() == next_seq
                },
                None => !parts_ok(entries_v(pending@), entries_v(inflight@), next_seq),
            },
            parts_ok(entries_v(pending@), entries_v(inflight@), next_seq) ==> r is Some,
    {
        let ghost pv = entries_v(pending@);
        let ghost iv = entries_v(inflight@);
        let np = pending.len();
        let ni = inflight.len();
        let mut i: usize = 0;
        while i + 1 < np
            invariant
                np == pending@.len(),
                pv == entries_v(pending@),
                iv == entries_v(inflight@),
                i <= np,
                np == 0 || i < np,
                forall|k: int| 0 <= k < i ==> (#[trigger] pv[k]).0 < pv[k + 1].0,
            decreases np - i,
        {
            if pending[i].0 >= pending[i + 1].0 {
                proof {
                    lemma_entries_v_index(pending@, i as int);
                    lemma_entries_v_index(pending@, i as int + 1);
                    assert(pv[i as int].0 >= pv[i as int + 1].0);
                    assert(!parts_ok(pv, iv, next_seq));
                }
                return None;
            }
            proof {
                lemma_entries_v_index(pending@, i as int);
                lemma_entries_v_index(pending@, i as int + 1);
            }
            i = i + 1;
        }
        proof {
            lemma_adjacent_sorted(pv);
        }
        let mut i: usize = 0;
        while i < np
            invariant
                np == pending@.len(),
                pv == entries_v(pending@),
                iv == entries_v(inflight@),
                i <= np,
                forall|k: int| 0 <= k < i ==> (#[trigger] pv[k]).0 < next_seq,
            decreases np - i,
        {
            if pending[i].0 >= next_seq {
                proof {
                    lemma_entries_v_index(pending@, i as int);
                    assert(pv[i as int].0 >= next_seq);
                    assert(!parts_ok(pv, iv, next_seq));
                }
                return None;
            }
            proof {
                lemma_entries_v_index(pending@, i as int);
            }
            i = i + 1;
        }
        let mut i: usize = 0;
        while i < ni
            invariant
                ni == inflight@.len(),
                pv == entries_v(pending@),
                iv == entries_v(inflight@),
                i <= ni,
                forall|k: int| 0 <= k < i ==> (#[trigger] iv[k]).0 < next_seq,
                forall|a: int, b: int|
                    0 <= a < b < i ==> (#[trigger] iv[a]).0 != (#[trigger] iv[b]).0,
            decreases ni - i,
        {
            if inflight[i].0 >= next_seq {
                proof {
                    lemma_entries_v_index(inflight@, i as int);
                    assert(iv[i as int].0 >= next_seq);
                    assert(!parts_ok(pv, iv, next_seq));
                }
                return None;
            }
            proof {
                lemma_entries_v_index(inflight@, i as int);
            }
            let mut j: usize = 0;
            while j < i
                invariant
                    ni == inflight@.len(),
                    pv == entries_v(pending@),
                    iv == entries_v(inflight@),
                    j <= i < ni,
                    forall|k: int| 0 <= k < j ==> (#[trigger] iv[k]).0 != iv[i as int].0,
                decreases i - j,
            {
                if inflight[j].0 == inflight[i].0 {
                    proof {
                        lemma_entries_v_index(inflight@, j as int);
                        lemma_entries_v_index(inflight@, i as int);
                        assert(iv[j as int].0 == iv[i as int].0);
                        assert(!parts_ok(pv, iv, next_seq));
                    }
                    return None;
                }
                proof {
                    lemma_entries_v_index(inflight@, j as int);
                }
                j = j + 1;
            }
            i = i + 1;
        }
        let mut i: usize = 0;
        while i < np
            invariant
                np == pending@.len(),
                ni == inflight@.len(),
                pv == entries_v(pending@),
                iv == entries_v(inflight@),
                i <= np,
                forall|a: int, b: int|
                    0 <= a < i && 0 <= b < ni ==> (#[trigger] pv[a]).0 != (#[trigger] iv[b]).0,
            decreases np - i,
        {
            let mut j: usize = 0;
            while j < ni
                invariant
                    np == pending@.len(),
                    ni == inflight@.len(),
                    pv == entries_v(pending@),
                    iv == entries_v(inflight@),
                    i < np,
                    j <= ni,
                    forall|b: int| 0 <= b < j ==> (#[trigger] iv[b]).0 != pv[i as int].0,
                decreases ni - j,
            {
                if pending[i].0 == inflight[j].0 {
                    proof {
                        lemma_entries_v_index(pending@, i as int);
                        lemma_entries_v_index(inflight@, j as int);
                        assert(pv[i as int].0 == iv[j as int].0);
                        assert(!parts_ok(pv, iv, next_seq));
                    }
                    return None;
                }
                proof {
                    lemma_entries_v_index(inflight@, j as int);
                }
                j = j + 1;
            }
            i = i + 1;
        }
        let mut total: u64 = 0;
        let mut i: usize = 0;
        while i < np
            invariant
                np == pending@.len(),
                pv == entries_v(pending@),
                iv == entries_v(inflight@),
                i <= np,
                total == entries_bytes(pv.take(i as int)),
            decreases np - i,
        {
            let len = pending[i].1.len() as u64;
            proof {
                lemma_entries_v_index(pending@, i as int);
                lemma_entries_bytes_take_push(pv, i as int);
                lemma_entries_bytes_nonneg(pv.take(i as int));
            }
            if total > u64::MAX - len {
                proof {
                    lemma_entries_bytes_prefix_le(pv, i as int + 1);
                    lemma_entries_bytes_nonneg(iv);
                    assert(!parts_ok(pv, iv, next_seq));
                }
                return None;
            }
            total = total + len;
            i = i + 1;
        }
        proof {
            assert(pv.take(np as int) =~= pv);
        }
        let mut i: usize = 0;
        while i < ni
            invariant
                ni == inflight@.len(),
                pv == entries_v(pending@),
                iv == entries_v(inflight@),
                i <= ni,
                total == entries_bytes(pv) + entries_bytes(iv.take(i as int)),
            decreases ni - i,
        {
            let len = inflight[i].1.len() as u64;
            proof {
                lemma_entries_v_index(inflight@, i as int);
                lemma_entries_bytes_take_push(iv, i as int);
                lemma_entries_bytes_nonneg(iv.take(i as int));
                lemma_entries_bytes_nonneg(pv);
            }
            if total > u64::MAX - len {
                proof {
                    lemma_entries_bytes_prefix_le(iv, i as int + 1);
                    assert(!parts_ok(pv, iv, next_seq));
                }
                return None;
            }
            total = total + len;
            i = i + 1;
        }
        proof {
            assert(iv.take(ni as int) =~= iv);
        }
        Some(QueueState { pending, inflight, next_seq, queue_bytes: total })
    }
}

/// Persisted tables that satisfy the queue invariant and whose byte total
/// fits the counter.
pub open spec fn parts_ok(
    pv: Seq<(u64, Seq<u8>)>,
    iv: Seq<(u64, Seq<u8>)>,
    next_seq: u64,
) -> bool {
    &&& forall|i: int, j: int|
        0 <= i < j < pv.len() ==> (#[trigger] pv[i]).0 < (#[trigger] pv[j]).0
    &&& forall|i: int| 0 <= i < pv.len() ==> (#[trigger] pv[i]).0 < next_seq
    &&& forall|i: int| 0 <= i < iv.len() ==> (#[trigger] iv[i]).0 < next_seq
    &&& forall|i: int, j: int|
        0 <= i < j < iv.len() ==> (#[trigger] iv[i]).0 != (#[trigger] iv[j]).0
    &&& forall|i: int, j: int|
        0 <= i < pv.len() && 0 <= j < iv.len() ==> (#[trigger] pv[i]).0 != (#[trigger] iv[j]).0
    &&& entries_bytes(pv) + entries_bytes(iv) <= u64::MAX
}

/// What one entry of the view is.
proof fn lemma_entries_v_index(v: Seq<(u64, Vec<u8>)>, i: int)
    requires
        0 <= i < v.len(),
    ensures
        entries_v(v)[i] == (v[i].0, v[i].1@),
{
}

/// Entries whose adjacent sequence numbers increase are sorted outright.
proof fn lemma_adjacent_sorted(s: Seq<(u64, Seq<u8>)>)
    requires
        forall|k: int| 0 <= k < s.len() - 1 ==> (#[trigger] s[k]).0 < s[k + 1].0,
    ensures
        forall|i: int, j: int| 0 <= i < j < s.len() ==> (#[trigger] s[i]).0 < (#[trigger] s[j]).0,
{
    assert forall|i: int, j: int| 0 <= i < j < s.len() implies (#[trigger] s[i]).0 < (
    #[trigger] s[j]).0 by {
        lemma_sorted_between(s, i, j);
    }
}

proof fn lemma_sorted_between(s: Seq<(u64, Seq<u8>)>, i: int, j: int)
    requires
        forall|k: int| 0 <= k < s.len() - 1 ==> (#[trigger] s[k]).0 < s[k + 1].0,
        0 <= i < j < s.len(),
    ensures
        s[i].0 < s[j].0,
    decreases j - i,
{
    if j == i + 1 {
        assert(s[i].0 < s[i + 1].0);
    } else {
        lemma_sorted_between(s, i, j - 1);
        assert(s[j - 1].0 < s[j].0);
    }
}

/// A prefix extended by one entry accounts for that entry's bytes.
proof fn lemma_entries_bytes_take_push(s: Seq<(u64, Seq<u8>)>, i: int)
    requires
        0 <= i < s.len(),
    ensures
        entries_bytes(s.take(i + 1)) == entries_bytes(s.take(i)) + s[i].1.len(),
{
    assert(s.take(i + 1).drop_last() =~= s.take(i));
    assert(s.take(i + 1).last() == s[i]);
}

/// A prefix never holds more bytes than the whole.
proof fn lemma_entries_bytes_prefix_le(s: Seq<(u64, Seq<u8>)>, i: int)
    requires
        0 <= i <= s.len(),
    ensures
        entries_bytes(s.take(i)) <= entries_bytes(s),
    decreases s.len() - i,
{
    if i == s.len() {
        assert(s.take(i) =~= s);
    } else {
        lemma_entries_bytes_take_push(s, i);
        lemma_entries_bytes_prefix_le(s, i + 1);
    }
}

} // verus!
