//! The chunk-envelope JSON codec: a canonical serializer whose exact size
//! the chunk sizer reasons about.
use vstd::prelude::*;
use vstd::string::StringSliceAdditionalSpecFns;
use vstd::utf8::{encode_utf8, is_ascii_chars, is_ascii_chars_concat, is_ascii_chars_encode_utf8};

use crate::digits::{dec_len, dec_rep, lemma_dec_rep_ascii, usize_to_dec};
use crate::json::{append_json_escaped, json_escape, json_plain, lemma_json_escape_plain};
use crate::models::ChunkEnvelope;

verus! {

/// Absolute ceiling on the serialized size of one envelope, in bytes.
pub const MAX_ENVELOPE_BYTES: usize = 3000;

pub open spec fn opt_nat(o: Option<usize>) -> Option<nat> {
    match o {
        Some(t) => Some(t as nat),
        None => None,
    }
}

/// The canonical JSON serialization of an envelope, over the views of its
/// fields; `total_chunks` is omitted when absent.
pub open spec fn envelope_json_v(
    rid: Seq<char>,
    chunk_index: nat,
    total_chunks: Option<nat>,
    is_last: bool,
    data: Seq<char>,
) -> Seq<char> {
    ("{\"request_id\":\"")@ + json_escape(rid) + ("\",\"chunk_index\":")@ + dec_rep(chunk_index)
        + (match total_chunks {
        Some(t) => (",\"total_chunks\":")@ + dec_rep(t),
        None => Seq::<char>::empty(),
    }) + (",\"is_last\":")@ + (if is_last {
        ("true")@
    } else {
        ("false")@
    }) + (",\"data\":\"")@ + json_escape(data) + ("\"}")@
}

/// The canonical JSON serialization of an envelope value.
pub open spec fn envelope_json(e: ChunkEnvelope) -> Seq<char> {
    envelope_json_v(e.request_id@, e.chunk_index as nat, opt_nat(e.total_chunks), e.is_last, e.data@)
}

/// Serialized size of an envelope in bytes.
pub open spec fn envelope_json_size(e: ChunkEnvelope) -> nat {
    encode_utf8(envelope_json(e)).len()
}

/// A well-formed envelope: indices start at one, and the chunk total rides
/// exactly on the last chunk.
pub open spec fn wf_envelope(e: ChunkEnvelope) -> bool {
    1 <= e.chunk_index && (e.is_last <==> e.total_chunks is Some)
}

/// Strings that pass through the serializer unescaped and one byte per
/// character: ASCII free of JSON-special characters, as UUID strings and
/// base64 are.
pub open spec fn plain_ascii(s: Seq<char>) -> bool {
    json_plain(s) && is_ascii_chars(s)
}

/// Exact serialized size of an envelope whose strings are plain ASCII:
/// 53 fixed characters, the two strings verbatim, the decimal widths of the
/// numbers (plus 16 more fixed characters when the total is present), and
/// 4 or 5 characters for the boolean.
pub proof fn lemma_envelope_json_size(
    rid: Seq<char>,
    chunk_index: nat,
    total_chunks: Option<nat>,
    is_last: bool,
    data: Seq<char>,
)
    requires
        plain_ascii(rid),
        plain_ascii(data),
    ensures
        envelope_json_v(rid, chunk_index, total_chunks, is_last, data).len() == 53 + rid.len()
            + dec_len(chunk_index) + (match total_chunks {
            Some(t) => 16 + dec_len(t),
            None => 0nat,
        }) + (if is_last {
            4nat
        } else {
            5nat
        }) + data.len(),
        encode_utf8(envelope_json_v(rid, chunk_index, total_chunks, is_last, data)).len()
            == envelope_json_v(rid, chunk_index, total_chunks, is_last, data).len(),
{
    reveal_strlit("{\"request_id\":\"");
    reveal_strlit("\",\"chunk_index\":");
    reveal_strlit(",\"total_chunks\":");
    reveal_strlit(",\"is_last\":");
    reveal_strlit("true");
    reveal_strlit("false");
    reveal_strlit(",\"data\":\"");
    reveal_strlit("\"}");
    lemma_json_escape_plain(rid);
    lemma_json_escape_plain(data);
    lemma_dec_rep_ascii(chunk_index);
    let j = envelope_json_v(rid, chunk_index, total_chunks, is_last, data);
    let mid = match total_chunks {
        Some(t) => (",\"total_chunks\":")@ + dec_rep(t),
        None => Seq::<char>::empty(),
    };
    let boolpart = if is_last {
        ("true")@
    } else {
        ("false")@
    };
    assert(("{\"request_id\":\"")@.len() == 15);
    assert(("\",\"chunk_index\":")@.len() == 16);
    assert((",\"total_chunks\":")@.len() == 16);
    assert((",\"is_last\":")@.len() == 11);
    assert((",\"data\":\"")@.len() == 9);
    assert(("\"}")@.len() == 2);
    match total_chunks {
        Some(t) => {
            lemma_dec_rep_ascii(t);
            assert(mid.len() == 16 + dec_len(t));
        },
        None => {
            assert(mid.len() == 0);
        },
    }
    assert(is_ascii_chars(("{\"request_id\":\"")@));
    assert(is_ascii_chars(("\",\"chunk_index\":")@));
    assert(is_ascii_chars((",\"total_chunks\":")@));
    assert(is_ascii_chars((",\"is_last\":")@));
    assert(is_ascii_chars(("true")@));
    assert(is_ascii_chars(("false")@));
    assert(is_ascii_chars((",\"data\":\"")@));
    assert(is_ascii_chars(("\"}")@));
    assert(is_ascii_chars(mid));
    assert(is_ascii_chars(boolpart));
    let p1 = ("{\"request_id\":\"")@ + rid;
    let p2 = p1 + ("\",\"chunk_index\":")@;
    let p3 = p2 + dec_rep(chunk_index);
    let p4 = p3 + mid;
    let p5 = p4 + (",\"is_last\":")@;
    let p6 = p5 + boolpart;
    let p7 = p6 + (",\"data\":\"")@;
    let p8 = p7 + data;
    let p9 = p8 + ("\"}")@;
    assert(j =~= p9);
    is_ascii_chars_concat(p1, ("{\"request_id\":\"")@, rid);
    is_ascii_chars_concat(p2, p1, ("\",\"chunk_index\":")@);
    is_ascii_chars_concat(p3, p2, dec_rep(chunk_index));
    is_ascii_chars_concat(p4, p3, mid);
    is_ascii_chars_concat(p5, p4, (",\"is_last\":")@);
    is_ascii_chars_concat(p6, p5, boolpart);
    is_ascii_chars_concat(p7, p6, (",\"data\":\"")@);
    is_ascii_chars_concat(p8, p7, data);
    is_ascii_chars_concat(p9, p8, ("\"}")@);
    assert(is_ascii_chars(j));
    is_ascii_chars_encode_utf8(j);
}

/// Serialize an envelope to its canonical JSON form.
pub fn encode_envelope(e: &ChunkEnvelope) -> (s: String)
    ensures
        s@ == envelope_json(*e),
{
    let mut out = String::new();
    out.append("{\"request_id\":\"");
    append_json_escaped(&mut out, e.request_id.as_str());
    out.append("\",\"chunk_index\":");
    let ci = usize_to_dec(e.chunk_index);
    out.append(ci.as_str());
    match e.total_chunks {
        Some(t) => {
            out.append(",\"total_chunks\":");
            let ts = usize_to_dec(t);
            out.append(ts.as_str());
        },
        None => {},
    }
    out.append(",\"is_last\":");
    if e.is_last {
        out.append("true");
    } else {
        out.append("false");
    }
    out.append(",\"data\":\"");
    append_json_escaped(&mut out, e.data.as_str());
    out.append("\"}");
    proof {
        assert(out@ =~= envelope_json(*e));
    }
    out
}

/// Serialized size of an envelope with the given fields and empty `data`:
/// the fixed cost every chunk of a request pays before its payload.
pub fn envelope_overhead_bytes(
    request_id: &str,
    chunk_index: usize,
    total_chunks: Option<usize>,
    is_last: bool,
) -> (n: usize)
    ensures
        n == encode_utf8(
            envelope_json_v(
                request_id@,
                chunk_index as nat,
                opt_nat(total_chunks),
                is_last,
                Seq::<char>::empty(),
            ),
        ).len(),
{
    let e = ChunkEnvelope {
        request_id: request_id.to_owned(),
        chunk_index,
        total_chunks,
        is_last,
        data: String::new(),
    };
    let s = encode_envelope(&e);
    proof {
        assert(e.data@ =~= Seq::<char>::empty());
        assert(s@ == envelope_json_v(
            request_id@,
            chunk_index as nat,
            opt_nat(total_chunks),
            is_last,
            Seq::<char>::empty(),
        ));
    }
    let b = s.as_str().as_bytes();
    proof {
        assert(b@ == encode_utf8(s@));
    }
    b.len()
}

} // verus!
