//! Framing and chunk sizing: the framed byte stream, the ceiling on
//! envelope sizes, and the resolution of a single chunk size that keeps
//! every envelope of a request under that ceiling.
use vstd::prelude::*;
use vstd::arithmetic::div_mod::{
    lemma_div_is_ordered, lemma_fundamental_div_mod, lemma_fundamental_div_mod_converse,
};

use crate::b64::{b64_encode, b64_len, b64_std_of};
use crate::bytevec::{append_bytes, be32, push_be32};
use crate::digits::{dec_len, lemma_dec_len_mono, lemma_dec_len_succ, lemma_dec_rep_digits};
use crate::envelope::{
    envelope_json_size, envelope_overhead_bytes, lemma_envelope_json_size, plain_ascii,
    MAX_ENVELOPE_BYTES,
};
use crate::models::ChunkEnvelope;
use crate::error::{AppError, STATUS_PAYLOAD_TOO_LARGE};

verus! {

/// The four magic bytes `WHP1` that open the framed stream.
pub open spec fn magic_bytes() -> Seq<u8> {
    seq![87u8, 72u8, 80u8, 49u8]
}

/// The framed byte stream of one request: magic, 4-byte big-endian
/// metadata length, metadata, then the raw body.
pub open spec fn framing(meta: Seq<u8>, body: Seq<u8>) -> Seq<u8>
    recommends
        meta.len() <= u32::MAX,
{
    magic_bytes() + be32(meta.len() as u32) + meta + body
}

/// Build the framed prefix (everything before the body) for `meta`.
pub fn frame_prefix(meta: &[u8]) -> (r: Vec<u8>)
    requires
        meta@.len() <= u32::MAX,
    ensures
        r@ == framing(meta@, Seq::<u8>::empty()),
        r@.len() == 8 + meta@.len(),
{
    let mut out: Vec<u8> = Vec::new();
    out.push(87u8);
    out.push(72u8);
    out.push(80u8);
    out.push(49u8);
    let n = meta.len();
    push_be32(&mut out, n as u32);
    append_bytes(&mut out, meta);
    proof {
        assert(out@ =~= framing(meta@, Seq::<u8>::empty()));
    }
    out
}

/// `ceil(n / d)`.
pub open spec fn ceil_div(n: int, d: int) -> int
    recommends
        n >= 0,
        d >= 1,
{
    (n + d - 1) / d
}

/// Ceiling division, computed without risking overflow in `n + d - 1`.
pub fn ceil_div_usize(n: usize, d: usize) -> (r: usize)
    requires
        d >= 1,
    ensures
        r == ceil_div(n as int, d as int),
{
    let q = n / d;
    let rem = n % d;
    proof {
        lemma_fundamental_div_mod(n as int, d as int);
        if rem == 0 {
            lemma_fundamental_div_mod_converse(
                n as int + d as int - 1,
                d as int,
                q as int,
                d as int - 1,
            );
        } else {
            assert((q as int + 1) * d as int == q as int * d as int + d as int)
                by (nonlinear_arith);
            assert(q as int <= q as int * d as int) by (nonlinear_arith)
                requires
                    d as int >= 1,
                    q as int >= 0,
            ;
            lemma_fundamental_div_mod_converse(
                n as int + d as int - 1,
                d as int,
                q as int + 1,
                rem as int - 1,
            );
        }
    }
    if rem == 0 {
        q
    } else {
        q + 1
    }
}

/// The split of `bytes` into chunks of `cs` bytes; the last chunk is
/// whatever remains, and an empty input still yields one (empty) chunk.
pub open spec fn chunk_seq(bytes: Seq<u8>, cs: nat) -> Seq<Seq<u8>>
    recommends
        cs >= 1,
    decreases bytes.len(),
{
    if bytes.len() <= cs || cs == 0 {
        seq![bytes]
    } else {
        seq![bytes.take(cs as int)] + chunk_seq(bytes.skip(cs as int), cs)
    }
}

/// How many chunks the split has.
pub proof fn lemma_chunk_seq_len(bytes: Seq<u8>, cs: nat)
    requires
        cs >= 1,
    ensures
        chunk_seq(bytes, cs).len() == if bytes.len() == 0 {
            1int
        } else {
            ceil_div(bytes.len() as int, cs as int)
        },
    decreases bytes.len(),
{
    let n = bytes.len() as int;
    let d = cs as int;
    if bytes.len() <= cs {
        if bytes.len() > 0 {
            lemma_fundamental_div_mod_converse(n + d - 1, d, 1, n - 1);
        }
    } else {
        lemma_chunk_seq_len(bytes.skip(d), cs);
        let rn = n - d;
        lemma_fundamental_div_mod(rn + d - 1, d);
        let qq = (rn + d - 1) / d;
        assert((qq + 1) * d == qq * d + d) by (nonlinear_arith);
        assert(qq * d == d * qq) by (nonlinear_arith);
        lemma_fundamental_div_mod_converse(n + d - 1, d, qq + 1, (rn + d - 1) % d);
    }
}

/// Every chunk fits in `cs` bytes, and every chunk but the last is full.
pub proof fn lemma_chunk_seq_sizes(bytes: Seq<u8>, cs: nat)
    requires
        cs >= 1,
    ensures
        chunk_seq(bytes, cs).len() >= 1,
        forall|i: int|
            0 <= i < chunk_seq(bytes, cs).len() ==> #[trigger] chunk_seq(bytes, cs)[i].len() <= cs,
        forall|i: int|
            0 <= i < chunk_seq(bytes, cs).len() - 1 ==> #[trigger] chunk_seq(bytes, cs)[i].len()
                == cs,
    decreases bytes.len(),
{
    if bytes.len() > cs {
        lemma_chunk_seq_sizes(bytes.skip(cs as int), cs);
        let s = chunk_seq(bytes, cs);
        let rest = chunk_seq(bytes.skip(cs as int), cs);
        assert(forall|i: int| 1 <= i < s.len() ==> s[i] == #[trigger] rest[i - 1]);
    }
}

/// Concatenating the chunks of a split gives back the input.
pub proof fn lemma_chunk_seq_flatten(bytes: Seq<u8>, cs: nat)
    requires
        cs >= 1,
    ensures
        chunk_seq(bytes, cs).flatten() == bytes,
    decreases bytes.len(),
{
    let s = chunk_seq(bytes, cs);
    if bytes.len() <= cs {
        assert(s.flatten() =~= s.first().add(s.drop_first().flatten()));
        assert(s.drop_first() =~= Seq::<Seq<u8>>::empty());
        assert(s.flatten() =~= bytes);
    } else {
        lemma_chunk_seq_flatten(bytes.skip(cs as int), cs);
        let rest = chunk_seq(bytes.skip(cs as int), cs);
        assert(s.first() == bytes.take(cs as int));
        assert(s.drop_first() =~= rest);
        assert(s.flatten() =~= s.first().add(s.drop_first().flatten()));
        assert(bytes.take(cs as int) + bytes.skip(cs as int) =~= bytes);
    }
}

/// Split `bytes` into chunks of `chunk_size` bytes; an empty input yields
/// one empty chunk, and every chunk but the last is full.
pub fn chunk_bytes(bytes: &[u8], chunk_size: usize) -> (r: Vec<Vec<u8>>)
    requires
        chunk_size >= 1,
    ensures
        r.deep_view() == chunk_seq(bytes@, chunk_size as nat),
{
    let n = bytes.len();
    let cs = chunk_size;
    let mut r: Vec<Vec<u8>> = Vec::new();
    let mut pos: usize = 0;
    proof {
        assert(bytes@.skip(0) =~= bytes@);
    }
    loop
        invariant_except_break
            1 <= cs,
            n == bytes@.len(),
            pos <= n,
            chunk_seq(bytes@, cs as nat) =~~= r.deep_view() + chunk_seq(
                bytes@.skip(pos as int),
                cs as nat,
            ),
        ensures
            r.deep_view() =~~= chunk_seq(bytes@, cs as nat),
        decreases n - pos,
    {
        let ghost prev = r.deep_view();
        let ghost rem = bytes@.skip(pos as int);
        if n - pos > cs {
            let chunk = crate::bytevec::copy_range(bytes, pos, pos + cs);
            proof {
                assert(chunk_seq(rem, cs as nat) == seq![rem.take(cs as int)] + chunk_seq(
                    rem.skip(cs as int),
                    cs as nat,
                ));
                assert(rem.take(cs as int) =~= bytes@.subrange(pos as int, pos as int + cs));
                assert(rem.skip(cs as int) =~= bytes@.skip(pos as int + cs));
            }
            r.push(chunk);
            pos = pos + cs;
            proof {
                assert(r.deep_view() =~~= prev.push(chunk@));
                assert(prev.push(chunk@) =~~= prev + seq![chunk@]);
                assert(chunk_seq(bytes@, cs as nat) =~~= r.deep_view() + chunk_seq(
                    bytes@.skip(pos as int),
                    cs as nat,
                ));
            }
        } else {
            let chunk = crate::bytevec::copy_range(bytes, pos, n);
            proof {
                assert(chunk_seq(rem, cs as nat) == seq![rem]);
                assert(rem =~= bytes@.subrange(pos as int, n as int));
            }
            r.push(chunk);
            proof {
                assert(r.deep_view() =~~= prev.push(chunk@));
                assert(prev.push(chunk@) =~~= prev + seq![chunk@]);
                assert(r.deep_view() =~~= chunk_seq(bytes@, cs as nat));
            }
            break;
        }
    }
    r
}

/// The base64 length grows with the input length.
pub proof fn lemma_b64_len_mono(m: nat, n: nat)
    requires
        m <= n,
    ensures
        b64_len(m) <= b64_len(n),
{
    lemma_div_is_ordered(m as int + 2, n as int + 2, 3);
}

/// The chunk size selected for a configured payload size and a fixed
/// per-envelope overhead: the configured size, capped at the largest raw
/// size whose base64 expansion fits in what the ceiling leaves.
pub open spec fn spec_chunk_size(configured: nat, overhead: nat) -> nat
    recommends
        overhead < MAX_ENVELOPE_BYTES,
{
    let raw = 3 * (((MAX_ENVELOPE_BYTES - overhead) as nat) / 4);
    if configured <= raw {
        configured
    } else {
        raw
    }
}

/// Any chunk no larger than the selected size expands under base64 to fit
/// beside the overhead.
pub proof fn lemma_chunk_size_b64(cs: nat, overhead: nat)
    requires
        overhead < MAX_ENVELOPE_BYTES,
        cs <= 3 * (((MAX_ENVELOPE_BYTES - overhead) as nat) / 4),
    ensures
        overhead + b64_len(cs) <= MAX_ENVELOPE_BYTES,
{
    let av = MAX_ENVELOPE_BYTES as int - overhead;
    let q = av / 4;
    assert(q * 3 == 3 * q) by (nonlinear_arith);
    lemma_fundamental_div_mod_converse(3 * q + 2, 3, q, 2);
    lemma_div_is_ordered(cs as int + 2, 3 * q + 2, 3);
    lemma_fundamental_div_mod(av, 4);
}

/// Compute the maximum raw payload per chunk after base64 and envelope
/// overhead, capped at the configured chunk size.
pub fn max_chunk_data_bytes(configured: usize, overhead: usize) -> (r: Result<usize, AppError>)
    ensures
        match r {
            Ok(cs) => overhead < MAX_ENVELOPE_BYTES && cs == spec_chunk_size(
                configured as nat,
                overhead as nat,
            ) && 1 <= cs <= configured && overhead + b64_len(cs as nat) <= MAX_ENVELOPE_BYTES,
            Err(e) => e.status == STATUS_PAYLOAD_TOO_LARGE && ((overhead >= MAX_ENVELOPE_BYTES
                && e.message@ == ("chunk overhead exceeds push limit")@) || (overhead
                < MAX_ENVELOPE_BYTES && spec_chunk_size(configured as nat, overhead as nat) == 0
                && e.message@ == ("chunk size too small")@)),
        },
{
    if overhead >= MAX_ENVELOPE_BYTES {
        return Err(AppError::new(STATUS_PAYLOAD_TOO_LARGE, "chunk overhead exceeds push limit"));
    }
    let available = MAX_ENVELOPE_BYTES - overhead;
    let max_raw = (available / 4) * 3;
    let chunk_size = if configured < max_raw {
        configured
    } else {
        max_raw
    };
    if chunk_size == 0 {
        return Err(AppError::new(STATUS_PAYLOAD_TOO_LARGE, "chunk size too small"));
    }
    proof {
        lemma_chunk_size_b64(chunk_size as nat, overhead as nat);
    }
    Ok(chunk_size)
}

/// The serialized overhead assumed for every envelope of a request: the
/// last envelope's fixed fields with both numbers at the worst index.
pub open spec fn worst_overhead(rid: Seq<char>, maxi: nat) -> nat {
    73 + rid.len() + 2 * dec_len(maxi)
}

/// A chunk size small enough that every envelope of the request fits the
/// ceiling: the worst-case overhead plus one full chunk's base64 expansion.
pub open spec fn chunk_size_fits(rid: Seq<char>, cs: nat, maxi: nat) -> bool {
    worst_overhead(rid, maxi) + b64_len(cs) <= MAX_ENVELOPE_BYTES
}

/// Resolve the single chunk size used for a whole request, from the
/// configured chunk size and a safe over-estimate of the total framed
/// bytes; fails when even an empty chunk cannot fit the ceiling.
pub fn resolve_chunk_size(request_id: &str, configured: usize, max_total_bytes: usize) -> (r:
    Result<usize, AppError>)
    requires
        plain_ascii(request_id@),
    ensures
        ({
            let maxi = if max_total_bytes == 0 {
                1nat
            } else {
                max_total_bytes as nat
            };
            match r {
                Ok(cs) => 1 <= cs && cs <= configured && cs == spec_chunk_size(
                    configured as nat,
                    worst_overhead(request_id@, maxi),
                ) && chunk_size_fits(request_id@, cs as nat, maxi),
                Err(e) => e.status == STATUS_PAYLOAD_TOO_LARGE && (worst_overhead(
                    request_id@,
                    maxi,
                ) >= MAX_ENVELOPE_BYTES || spec_chunk_size(
                    configured as nat,
                    worst_overhead(request_id@, maxi),
                ) == 0),
            }
        }),
{
    let worst_index = if max_total_bytes == 0 {
        1
    } else {
        max_total_bytes
    };
    let overhead = envelope_overhead_bytes(request_id, worst_index, Some(worst_index), true);
    proof {
        lemma_envelope_json_size(
            request_id@,
            worst_index as nat,
            Some(worst_index as nat),
            true,
            Seq::<char>::empty(),
        );
    }
    max_chunk_data_bytes(configured, overhead)
}

/// A non-last envelope built from a full chunk fits the ceiling.
pub proof fn lemma_nonlast_env_fits(e: ChunkEnvelope, maxi: nat, cs: nat, n: nat)
    requires
        plain_ascii(e.request_id@),
        plain_ascii(e.data@),
        chunk_size_fits(e.request_id@, cs, maxi),
        !e.is_last,
        e.total_chunks is None,
        1 <= e.chunk_index,
        e.chunk_index as nat <= maxi,
        e.data@.len() == b64_len(n),
        n <= cs,
    ensures
        envelope_json_size(e) <= MAX_ENVELOPE_BYTES,
{
    lemma_envelope_json_size(e.request_id@, e.chunk_index as nat, None, false, e.data@);
    lemma_dec_len_mono(e.chunk_index as nat, maxi);
    lemma_b64_len_mono(n, cs);
    lemma_dec_rep_digits(maxi);
}

/// The last envelope fits the ceiling: either its index stays within the
/// worst index the overhead was sized for, or (one past it, possible only
/// when the chunk size is one) it carries no data at all.
pub proof fn lemma_last_env_fits(e: ChunkEnvelope, maxi: nat, cs: nat, n: nat)
    requires
        plain_ascii(e.request_id@),
        plain_ascii(e.data@),
        chunk_size_fits(e.request_id@, cs, maxi),
        cs >= 1,
        e.is_last,
        e.total_chunks == Some(e.chunk_index),
        1 <= e.chunk_index,
        e.data@.len() == b64_len(n),
        n <= cs,
        e.chunk_index as nat <= maxi || (e.chunk_index as nat <= maxi + 1 && n == 0),
    ensures
        envelope_json_size(e) <= MAX_ENVELOPE_BYTES,
{
    let ci = e.chunk_index as nat;
    lemma_envelope_json_size(e.request_id@, ci, Some(ci), true, e.data@);
    if ci <= maxi {
        lemma_dec_len_mono(ci, maxi);
        lemma_b64_len_mono(n, cs);
    } else {
        lemma_dec_len_mono(ci, (maxi + 1) as nat);
        lemma_dec_len_succ(maxi);
        lemma_div_is_ordered(3, cs as int + 2, 3);
        assert(b64_len(cs) >= 4);
        assert(b64_len(n) == 0);
    }
}

/// An envelope as every non-final chunk of a request carries it.
pub open spec fn nonlast_env(e: ChunkEnvelope, rid: Seq<char>, index: nat, chunk: Seq<u8>) -> bool {
    e.request_id@ == rid && e.chunk_index as nat == index && e.total_chunks is None && !e.is_last
        && e.data@ == b64_std_of(chunk)
}

/// The envelope of the final chunk: it alone is marked last and carries
/// the chunk total, which equals its own index.
pub open spec fn last_env(e: ChunkEnvelope, rid: Seq<char>, index: nat, chunk: Seq<u8>) -> bool {
    e.request_id@ == rid && e.chunk_index as nat == index && e.total_chunks == Some(e.chunk_index)
        && e.is_last && e.data@ == b64_std_of(chunk)
}

/// Streaming chunker for one request: seeded with the framed prefix, fed
/// the body as it arrives, and finished once the body ends. Emits the
/// request's envelopes in index order; every one of them fits the
/// envelope ceiling, and the chunks they carry concatenate back to
/// exactly the bytes consumed.
pub struct Chunker {
    request_id: String,
    chunk_size: usize,
    max_body_bytes: usize,
    body_seen: usize,
    buffer: Vec<u8>,
    next_index: usize,
    finished: bool,
    chunks: Ghost<Seq<Seq<u8>>>,
    consumed: Ghost<Seq<u8>>,
    prefix_len: Ghost<nat>,
}

impl Chunker {
    /// The raw bytes of the chunks emitted so far (after `finish`, of the
    /// whole request).
    pub closed spec fn chunks(self) -> Seq<Seq<u8>> {
        self.chunks@
    }

    /// Every byte accepted so far: the framed prefix plus the body fed in.
    pub closed spec fn consumed(self) -> Seq<u8> {
        self.consumed@
    }

    /// Bytes accepted but not yet carried by an emitted envelope.
    pub closed spec fn pending(self) -> Seq<u8> {
        self.buffer@
    }

    pub closed spec fn request_id_v(self) -> Seq<char> {
        self.request_id@
    }

    pub closed spec fn chunk_size_v(self) -> nat {
        self.chunk_size as nat
    }

    pub closed spec fn body_seen_v(self) -> nat {
        self.body_seen as nat
    }

    pub closed spec fn max_body_bytes_v(self) -> nat {
        self.max_body_bytes as nat
    }

    pub closed spec fn done(self) -> bool {
        self.finished
    }

    /// The worst chunk index the chunk size was resolved against.
    pub closed spec fn max_index(self) -> nat {
        let t = self.prefix_len@ + self.max_body_bytes;
        if t == 0 {
            1nat
        } else {
            t as nat
        }
    }

    pub closed spec fn wf(self) -> bool {
        &&& plain_ascii(self.request_id@)
        &&& self.chunk_size >= 1
        &&& chunk_size_fits(self.request_id@, self.chunk_size as nat, self.max_index())
        &&& self.prefix_len@ + self.max_body_bytes < usize::MAX
        &&& self.body_seen <= self.max_body_bytes
        &&& self.next_index == self.chunks@.len() + 1
        &&& self.consumed@ =~= self.chunks@.flatten() + self.buffer@
        &&& self.consumed@.len() == self.chunks@.len() * self.chunk_size + self.buffer@.len()
        &&& self.consumed@.len() == self.prefix_len@ + self.body_seen
        &&& forall|i: int|
            0 <= i < self.chunks@.len() ==> (#[trigger] self.chunks@[i]).len()
                == self.chunk_size
    }

    /// Start a request: the buffer is seeded with the framed prefix, and
    /// the body budget is what the payload limit leaves beside the prefix.
    pub fn new(request_id: String, prefix: Vec<u8>, chunk_size: usize, max_body_bytes: usize)
        -> (c: Chunker)
        requires
            plain_ascii(request_id@),
            chunk_size >= 1,
            prefix@.len() + max_body_bytes < usize::MAX,
            chunk_size_fits(
                request_id@,
                chunk_size as nat,
                if prefix@.len() + max_body_bytes == 0 {
                    1nat
                } else {
                    (prefix@.len() + max_body_bytes) as nat
                },
            ),
        ensures
            c.wf(),
            !c.done(),
            c.request_id_v() == request_id@,
            c.chunk_size_v() == chunk_size,
            c.max_body_bytes_v() == max_body_bytes,
            c.body_seen_v() == 0,
            c.chunks() == Seq::<Seq<u8>>::empty(),
            c.consumed() == prefix@,
            c.pending() == prefix@,
    {
        let ghost pl = prefix@.len();
        let c = Chunker {
            request_id,
            chunk_size,
            max_body_bytes,
            body_seen: 0,
            buffer: prefix,
            next_index: 1,
            finished: false,
            chunks: Ghost(Seq::empty()),
            consumed: Ghost(prefix@),
            prefix_len: Ghost(pl),
        };
        proof {
            assert(Seq::<Seq<u8>>::empty().flatten() =~= Seq::<u8>::empty());
            assert(c.consumed@ =~= c.chunks@.flatten() + c.buffer@);
        }
        c
    }

    /// Drain every full chunk in the buffer into non-last envelopes.
    fn drain(&mut self) -> (r: Vec<ChunkEnvelope>)
        requires
            old(self).wf(),
        ensures
            final(self).wf(),
            final(self).finished == old(self).finished,
            final(self).request_id_v() == old(self).request_id_v(),
            final(self).chunk_size_v() == old(self).chunk_size_v(),
            final(self).max_body_bytes_v() == old(self).max_body_bytes_v(),
            final(self).body_seen_v() == old(self).body_seen_v(),
            final(self).max_index() == old(self).max_index(),
            final(self).consumed() == old(self).consumed(),
            final(self).pending().len() < old(self).chunk_size_v(),
            final(self).chunks().len() == old(self).chunks().len() + r@.len(),
            forall|i: int|
                0 <= i < old(self).chunks().len() ==> #[trigger] final(self).chunks()[i] == old(
                    self,
                ).chunks()[i],
            forall|i: int|
                0 <= i < r@.len() ==> nonlast_env(
                    #[trigger] r@[i],
                    old(self).request_id_v(),
                    (old(self).chunks().len() + i + 1) as nat,
                    final(self).chunks()[old(self).chunks().len() + i],
                ),
            forall|i: int|
                0 <= i < r@.len() ==> envelope_json_size(#[trigger] r@[i]) <= MAX_ENVELOPE_BYTES,
            forall|i: int|
                0 <= i < final(self).chunks().len() ==> (#[trigger] final(self).chunks()[
                i]).len() == old(self).chunk_size_v(),
    {
        let mut out: Vec<ChunkEnvelope> = Vec::new();
        let cs = self.chunk_size;
        let ghost base = self.chunks@.len();
        while self.buffer.len() >= cs
            invariant
                self.wf(),
                cs == self.chunk_size,
                self.finished == old(self).finished,
                self.request_id@ == old(self).request_id@,
                self.chunk_size == old(self).chunk_size,
                self.max_body_bytes == old(self).max_body_bytes,
                self.body_seen == old(self).body_seen,
                self.prefix_len@ == old(self).prefix_len@,
                self.consumed@ == old(self).consumed@,
                base == old(self).chunks@.len(),
                self.chunks@.len() == base + out@.len(),
                forall|i: int|
                    0 <= i < base ==> #[trigger] self.chunks@[i] == old(self).chunks@[i],
                forall|i: int|
                    0 <= i < out@.len() ==> nonlast_env(
                        #[trigger] out@[i],
                        old(self).request_id@,
                        (base + i + 1) as nat,
                        self.chunks@[base + i],
                    ),
                forall|i: int|
                    0 <= i < out@.len() ==> envelope_json_size(#[trigger] out@[i])
                        <= MAX_ENVELOPE_BYTES,
            decreases self.buffer.len(),
        {
            let ghost prev = *self;
            let chunk = copy_range_vec(&self.buffer, 0, cs);
            let rest = copy_range_vec(&self.buffer, cs, self.buffer.len());
            self.buffer = rest;
            let index = self.next_index;
            proof {
                assert((prev.chunks@.len() + 1) * cs == prev.chunks@.len() * cs + cs)
                    by (nonlinear_arith);
                assert(prev.chunks@.len() + 1 <= (prev.chunks@.len() + 1) * cs)
                    by (nonlinear_arith)
                    requires
                        cs >= 1,
                        prev.chunks@.len() >= 0,
                ;
            }
            self.next_index = index + 1;
            proof {
                self.chunks@ = prev.chunks@.push(chunk@);
                prev.chunks@.lemma_flatten_push(chunk@);
                assert(prev.chunks@.flatten() + prev.buffer@ =~= (prev.chunks@.flatten()
                    + chunk@) + self.buffer@);
                assert((prev.chunks@.len() + 1) * cs == prev.chunks@.len() * cs + cs)
                    by (nonlinear_arith);
                assert(self.consumed@ =~= self.chunks@.flatten() + self.buffer@);
                assert(self.chunks@.len() <= self.chunks@.len() * cs) by (nonlinear_arith)
                    requires
                        cs >= 1,
                        self.chunks@.len() >= 0,
                ;
            }
            let data = b64_encode(chunk.as_slice());
            let env = ChunkEnvelope {
                request_id: clone_string(&self.request_id),
                chunk_index: index,
                total_chunks: None,
                is_last: false,
                data,
            };
            proof {
                lemma_b64_plain(env.data@);
                lemma_nonlast_env_fits(
                    env,
                    self.max_index(),
                    cs as nat,
                    cs as nat,
                );
            }
            out.push(env);
        }
        out
    }

    /// Accept more body bytes; rejects the request the moment the body
    /// budget is exceeded, and otherwise emits the envelopes of every
    /// chunk the new bytes complete.
    pub fn push(&mut self, bytes: &[u8]) -> (r: Result<Vec<ChunkEnvelope>, AppError>)
        requires
            old(self).wf(),
            !old(self).done(),
        ensures
            match r {
                Err(e) => {
                    &&& *final(self) == *old(self)
                    &&& e.status == STATUS_PAYLOAD_TOO_LARGE
                    &&& e.message@ == ("payload exceeds limit")@
                    &&& old(self).body_seen_v() + bytes@.len() > old(self).max_body_bytes_v()
                },
                Ok(v) => {
                    &&& old(self).body_seen_v() + bytes@.len() <= old(self).max_body_bytes_v()
                    &&& final(self).wf()
                    &&& !final(self).done()
                    &&& final(self).request_id_v() == old(self).request_id_v()
                    &&& final(self).chunk_size_v() == old(self).chunk_size_v()
                    &&& final(self).max_body_bytes_v() == old(self).max_body_bytes_v()
                    &&& final(self).body_seen_v() == old(self).body_seen_v() + bytes@.len()
                    &&& final(self).consumed() == old(self).consumed() + bytes@
                    &&& final(self).pending().len() < old(self).chunk_size_v()
                    &&& final(self).chunks().len() == old(self).chunks().len() + v@.len()
                    &&& forall|i: int|
                        0 <= i < old(self).chunks().len() ==> #[trigger] final(self).chunks()[i]
                            == old(self).chunks()[i]
                    &&& forall|i: int|
                        0 <= i < v@.len() ==> nonlast_env(
                            #[trigger] v@[i],
                            old(self).request_id_v(),
                            (old(self).chunks().len() + i + 1) as nat,
                            final(self).chunks()[old(self).chunks().len() + i],
                        )
                    &&& forall|i: int|
                        0 <= i < v@.len() ==> envelope_json_size(#[trigger] v@[i])
                            <= MAX_ENVELOPE_BYTES
                    &&& forall|i: int|
                        0 <= i < final(self).chunks().len() ==> (#[trigger] final(self).chunks()[
                        i]).len() == old(self).chunk_size_v()
                },
            },
    {
        if bytes.len() > self.max_body_bytes - self.body_seen {
            return Err(AppError::new(STATUS_PAYLOAD_TOO_LARGE, "payload exceeds limit"));
        }
        self.body_seen = self.body_seen + bytes.len();
        append_bytes(&mut self.buffer, bytes);
        proof {
            assert(self.consumed@ + bytes@ =~= self.chunks@.flatten() + self.buffer@);
            self.consumed@ = self.consumed@ + bytes@;
        }
        let out = self.drain();
        Ok(out)
    }

    /// End the body: every remaining full chunk is emitted, then the rest
    /// of the buffer (possibly empty) as the one final envelope. The
    /// chunks carried by all envelopes of the request concatenate to
    /// exactly the bytes consumed, and the final envelope alone is last,
    /// with the largest index, which is the chunk total.
    pub fn finish(&mut self) -> (r: Vec<ChunkEnvelope>)
        requires
            old(self).wf(),
            !old(self).done(),
        ensures
            final(self).done(),
            final(self).consumed() == old(self).consumed(),
            final(self).request_id_v() == old(self).request_id_v(),
            final(self).chunks().len() == old(self).chunks().len() + r@.len(),
            r@.len() >= 1,
            r@.len() == old(self).pending().len() / old(self).chunk_size_v() + 1,
            forall|i: int|
                0 <= i < old(self).chunks().len() ==> #[trigger] final(self).chunks()[i] == old(
                    self,
                ).chunks()[i],
            forall|i: int|
                0 <= i < r@.len() - 1 ==> nonlast_env(
                    #[trigger] r@[i],
                    old(self).request_id_v(),
                    (old(self).chunks().len() + i + 1) as nat,
                    final(self).chunks()[old(self).chunks().len() + i],
                ),
            last_env(
                r@.last(),
                old(self).request_id_v(),
                final(self).chunks().len() as nat,
                final(self).chunks().last(),
            ),
            forall|i: int|
                0 <= i < r@.len() ==> envelope_json_size(#[trigger] r@[i]) <= MAX_ENVELOPE_BYTES,
            forall|i: int|
                0 <= i < final(self).chunks().len() - 1 ==> (#[trigger] final(self).chunks()[
                i]).len() == old(self).chunk_size_v(),
            final(self).chunks().last().len() < old(self).chunk_size_v(),
            final(self).chunks().flatten() == final(self).consumed(),
    {
        let ghost entry = *self;
        let mut out = self.drain();
        let ghost mid = *self;
        let cs = self.chunk_size;
        proof {
            assert(out@.len() == entry.pending().len() / entry.chunk_size_v()) by {
                assert(mid.chunks@.len() * cs + self.buffer@.len() == entry.chunks@.len() * cs
                    + entry.buffer@.len());
                assert((mid.chunks@.len() - entry.chunks@.len()) * cs as int == mid.chunks@.len()
                    * cs as int - entry.chunks@.len() * cs as int) by (nonlinear_arith);
                assert(entry.buffer@.len() == (mid.chunks@.len() - entry.chunks@.len()) * (
                cs as int) + self.buffer@.len());
                assert((mid.chunks@.len() - entry.chunks@.len()) * (cs as int) == (cs as int) * (
                mid.chunks@.len() - entry.chunks@.len())) by (nonlinear_arith);
                lemma_fundamental_div_mod_converse(
                    entry.buffer@.len() as int,
                    cs as int,
                    mid.chunks@.len() - entry.chunks@.len(),
                    self.buffer@.len() as int,
                );
            }
        }
        let last_chunk = copy_range_vec(&self.buffer, 0, self.buffer.len());
        let empty: Vec<u8> = Vec::new();
        let ghost prev = *self;
        self.buffer = empty;
        let index = self.next_index;
        self.finished = true;
        proof {
            self.chunks@ = prev.chunks@.push(last_chunk@);
            prev.chunks@.lemma_flatten_push(last_chunk@);
            assert(self.chunks@.flatten() =~= prev.chunks@.flatten() + last_chunk@);
            assert(self.chunks@.flatten() =~= self.consumed@);
            assert(prev.chunks@.len() <= prev.chunks@.len() * cs) by (nonlinear_arith)
                requires
                    cs >= 1,
                    prev.chunks@.len() >= 0,
            ;
        }
        let data = b64_encode(last_chunk.as_slice());
        let env = ChunkEnvelope {
            request_id: clone_string(&self.request_id),
            chunk_index: index,
            total_chunks: Some(index),
            is_last: true,
            data,
        };
        proof {
            lemma_b64_plain(env.data@);
            if index as nat <= self.max_index() {
                lemma_last_env_fits(
                    env,
                    self.max_index(),
                    cs as nat,
                    prev.buffer@.len() as nat,
                );
            } else {
                assert(prev.chunks@.len() >= 1);
                assert(prev.chunks@.len() + 1 > self.max_index());
                assert(prev.chunks@.len() * cs <= self.consumed@.len());
                assert(self.consumed@.len() <= self.prefix_len@ + self.max_body_bytes);
                assert(prev.chunks@.len() <= prev.chunks@.len() * cs) by (nonlinear_arith)
                    requires
                        cs >= 1,
                        prev.chunks@.len() >= 0,
                ;
                if cs >= 2 {
                    assert(prev.chunks@.len() + 1 <= prev.chunks@.len() * cs) by (nonlinear_arith)
                        requires
                            cs >= 2,
                            prev.chunks@.len() >= 1,
                    ;
                    assert(false);
                }
                assert(cs == 1);
                assert(prev.buffer@.len() == 0);
                lemma_last_env_fits(
                    env,
                    self.max_index(),
                    cs as nat,
                    0,
                );
            }
        }
        out.push(env);
        out
    }
}

/// The standard base64 alphabet needs no JSON escaping and is ASCII.
pub proof fn lemma_b64_plain(s: Seq<char>)
    requires
        forall|i: int| 0 <= i < s.len() ==> crate::b64::b64_std_char(#[trigger] s[i]),
    ensures
        plain_ascii(s),
{
    assert forall|i: int| 0 <= i < s.len() implies crate::json::json_plain_char(#[trigger] s[i])
        && '\0' <= s[i] <= '\u{7f}' by {
        assert(crate::b64::b64_std_char(s[i]));
    }
}

/// Copy `v[i..j]` into a fresh vector.
fn copy_range_vec(v: &Vec<u8>, i: usize, j: usize) -> (r: Vec<u8>)
    requires
        i <= j <= v@.len(),
    ensures
        r@ == v@.subrange(i as int, j as int),
{
    crate::bytevec::copy_range(v.as_slice(), i, j)
}

/// Clone a string, keeping its view.
fn clone_string(s: &String) -> (r: String)
    ensures
        r@ == s@,
{
    s.clone()
}

/// A chunk count never exceeds the byte count (nor one, when empty).
proof fn lemma_ceil_le(n: int, d: int)
    requires
        n >= 0,
        d >= 1,
    ensures
        ceil_div(n, d) <= if n == 0 {
            1int
        } else {
            n
        },
        ceil_div(n, d) >= 0,
{
    vstd::arithmetic::div_mod::lemma_div_pos_is_pos(n + d - 1, d);
    if n == 0 {
        lemma_fundamental_div_mod_converse(d - 1, d, 0, d - 1);
    } else {
        assert(n <= n * d) by (nonlinear_arith)
            requires
                n >= 1,
                d >= 1,
        ;
        assert(n * d == d * n) by (nonlinear_arith);
        lemma_fundamental_div_mod_converse(n * d + d - 1, d, n, d - 1);
        lemma_div_is_ordered(n + d - 1, n * d + d - 1, d);
    }
}

/// When the configured chunk size itself fits beside the overhead, it is
/// the size the resolution selects.
proof fn lemma_b64_fit_implies_conf(configured: nat, overhead: nat)
    requires
        configured >= 1,
        overhead + b64_len(configured) <= MAX_ENVELOPE_BYTES,
    ensures
        overhead < MAX_ENVELOPE_BYTES,
        spec_chunk_size(configured, overhead) == configured,
{
    lemma_div_is_ordered(3, configured as int + 2, 3);
    assert(b64_len(configured) >= 4);
    let av = MAX_ENVELOPE_BYTES as int - overhead;
    let k = (configured as int + 2) / 3;
    lemma_fundamental_div_mod(configured as int + 2, 3);
    assert(4 * k <= av);
    vstd::arithmetic::div_mod::lemma_div_multiples_vanish(k, 4);
    lemma_div_is_ordered(4 * k, av, 4);
    assert(configured as int <= 3 * k);
}

/// Resolve the chunk size and chunk count for a payload already in hand,
/// iterating until the pair is a fixed point of the envelope overhead;
/// the iteration is cut off after a fixed number of rounds by falling
/// back to the pessimistic single-pass resolution.
pub fn resolve_chunking(payload: &[u8], request_id: &str, configured: usize) -> (r: Result<
    (usize, usize),
    AppError,
>)
    requires
        plain_ascii(request_id@),
    ensures
        match r {
            Ok((cs, total)) => 1 <= cs && cs <= configured && total as int == ceil_div(
                payload@.len() as int,
                cs as int,
            ) && chunk_size_fits(request_id@, cs as nat, total as nat),
            Err(e) => e.status == STATUS_PAYLOAD_TOO_LARGE,
        },
        (configured >= 1 && chunk_size_fits(
            request_id@,
            configured as nat,
            if payload@.len() == 0 {
                1nat
            } else {
                payload@.len() as nat
            },
        )) ==> r is Ok,
{
    let n = payload.len();
    let ghost rid = request_id@;
    let ghost nmax: nat = if n == 0 {
        1nat
    } else {
        n as nat
    };
    let ghost good = configured >= 1 && chunk_size_fits(rid, configured as nat, nmax);
    let oh1 = envelope_overhead_bytes(request_id, 1, Some(1), true);
    proof {
        lemma_envelope_json_size(rid, 1, Some(1nat), true, Seq::<char>::empty());
        if good {
            lemma_dec_len_mono(1, nmax);
            lemma_b64_fit_implies_conf(configured as nat, worst_overhead(rid, 1));
        }
    }
    let mut cs = match max_chunk_data_bytes(configured, oh1) {
        Ok(c) => c,
        Err(e) => {
            proof {
                assert(!good);
            }
            return Err(e);
        },
    };
    let mut total = ceil_div_usize(n, cs);
    let mut rounds: usize = 0;
    loop
        invariant
            n == payload@.len(),
            rid == request_id@,
            plain_ascii(rid),
            nmax == if n == 0 {
                1nat
            } else {
                n as nat
            },
            good == (configured >= 1 && chunk_size_fits(rid, configured as nat, nmax)),
            1 <= cs <= configured,
            total as int == ceil_div(n as int, cs as int),
            rounds <= 32,
            good ==> cs == configured,
        decreases 33 - rounds,
    {
        proof {
            lemma_ceil_le(n as int, cs as int);
        }
        let oh = envelope_overhead_bytes(request_id, total, Some(total), true);
        proof {
            lemma_envelope_json_size(rid, total as nat, Some(total as nat), true, Seq::<char>::empty());
            if good {
                lemma_dec_len_mono(total as nat, nmax);
                lemma_b64_fit_implies_conf(configured as nat, worst_overhead(rid, total as nat));
            }
        }
        let next_cs = match max_chunk_data_bytes(configured, oh) {
            Ok(c) => c,
            Err(e) => {
                proof {
                    assert(!good);
                }
                return Err(e);
            },
        };
        let next_total = ceil_div_usize(n, next_cs);
        if next_cs == cs && next_total == total {
            return Ok((cs, total));
        }
        if rounds >= 32 {
            let pcs = match resolve_chunk_size(request_id, configured, n) {
                Ok(c) => c,
                Err(e) => {
                    proof {
                        if good {
                            lemma_b64_fit_implies_conf(
                                configured as nat,
                                worst_overhead(rid, nmax),
                            );
                        }
                        assert(!good);
                    }
                    return Err(e);
                },
            };
            let ptotal = ceil_div_usize(n, pcs);
            proof {
                lemma_ceil_le(n as int, pcs as int);
                lemma_dec_len_mono(ptotal as nat, nmax);
            }
            return Ok((pcs, ptotal));
        }
        cs = next_cs;
        total = next_total;
        rounds = rounds + 1;
    }
}

} // verus!
