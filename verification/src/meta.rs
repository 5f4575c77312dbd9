//! Serialization of hook metadata: the JSON object that rides at the
//! front of the framed payload, ahead of the raw body.
use vstd::prelude::*;

use crate::json::{append_json_escaped, json_escape};
use crate::models::HookMeta;

verus! {

/// One header as a JSON member.
pub open spec fn header_item_json(h: (Seq<char>, Seq<char>)) -> Seq<char> {
    ("\"")@ + json_escape(h.0) + ("\":\"")@ + json_escape(h.1) + ("\"")@
}

/// The members of the header object, comma-separated, in list order.
pub open spec fn headers_json(hs: Seq<(Seq<char>, Seq<char>)>) -> Seq<char>
    decreases hs.len(),
{
    if hs.len() == 0 {
        Seq::<char>::empty()
    } else if hs.len() == 1 {
        header_item_json(hs[0])
    } else {
        headers_json(hs.drop_last()) + (",")@ + header_item_json(hs.last())
    }
}

/// The views of a header list.
pub open spec fn header_views(hs: Seq<(String, String)>) -> Seq<(Seq<char>, Seq<char>)> {
    hs.map_values(|p: (String, String)| (p.0@, p.1@))
}

/// The metadata object serialized canonically, field by field.
pub open spec fn meta_json(m: HookMeta) -> Seq<char> {
    ("{\"timestamp\":\"")@ + json_escape(m.timestamp@) + ("\",\"method\":\"")@ + json_escape(
        m.method@,
    ) + ("\",\"path\":\"")@ + json_escape(m.path@) + ("\",\"query_string\":\"")@ + json_escape(
        m.query_string@,
    ) + ("\",\"headers\":{")@ + headers_json(header_views(m.headers@)) + ("},\"source_ip\":\"")@
        + json_escape(m.source_ip@) + ("\"}")@
}

/// Serialize hook metadata to its canonical JSON form.
pub fn encode_hook_meta(meta: &HookMeta) -> (s: String)
    ensures
        s@ == meta_json(*meta),
{
    let mut out = String::new();
    out.append("{\"timestamp\":\"");
    append_json_escaped(&mut out, meta.timestamp.as_str());
    out.append("\",\"method\":\"");
    append_json_escaped(&mut out, meta.method.as_str());
    out.append("\",\"path\":\"");
    append_json_escaped(&mut out, meta.path.as_str());
    out.append("\",\"query_string\":\"");
    append_json_escaped(&mut out, meta.query_string.as_str());
    out.append("\",\"headers\":{");
    let ghost hv = header_views(meta.headers@);
    let n = meta.headers.len();
    let ghost base = out@;
    let mut i: usize = 0;
    while i < n
        invariant
            n == meta.headers@.len(),
            hv == header_views(meta.headers@),
            i <= n,
            out@ == base + headers_json(hv.take(i as int)),
        decreases n - i,
    {
        proof {
            assert(hv[i as int] == (meta.headers@[i as int].0@, meta.headers@[i as int].1@));
            assert(hv.take(i as int + 1).drop_last() =~= hv.take(i as int));
            assert(hv.take(i as int + 1).last() == hv[i as int]);
        }
        if i > 0 {
            out.append(",");
        }
        out.append("\"");
        let h = &meta.headers[i];
        append_json_escaped(&mut out, h.0.as_str());
        out.append("\":\"");
        append_json_escaped(&mut out, h.1.as_str());
        out.append("\"");
        proof {
            if i == 0 {
                assert(headers_json(hv.take(1)) == header_item_json(hv[0]));
                assert(out@ =~= base + headers_json(hv.take(1)));
            } else {
                assert(headers_json(hv.take(i as int + 1)) == headers_json(hv.take(i as int)) + (
                ",")@ + header_item_json(hv[i as int]));
                assert(out@ =~= base + headers_json(hv.take(i as int + 1)));
            }
        }
        i = i + 1;
    }
    proof {
        assert(hv.take(n as int) =~= hv);
    }
    out.append("},\"source_ip\":\"");
    append_json_escaped(&mut out, meta.source_ip.as_str());
    out.append("\"}");
    proof {
        assert(out@ =~= meta_json(*meta));
    }
    out
}

} // verus!
