//! Decoding of canonically serialized envelopes: a strict parser for the
//! exact JSON form the encoder emits (strings that need no escaping),
//! inverting the encoder on every such envelope.
use vstd::prelude::*;
use vstd::string::{StrSliceExecFns, StringExecFns};

use crate::digits::{
    dec_len, dec_rep, digit_char, is_digit_char, lemma_dec_rep_digits,
    lemma_dec_rep_no_leading_zero,
};
use crate::envelope::{envelope_json, opt_nat};
use crate::json::{json_escape, json_plain, json_plain_char, lemma_json_escape_plain};
use crate::models::ChunkEnvelope;

verus! {

/// The numeric value of a digit string, most significant digit first.
pub open spec fn dec_val(s: Seq<char>) -> nat
    decreases s.len(),
{
    if s.len() == 0 {
        0
    } else {
        dec_val(s.drop_last()) * 10 + digit_val(s.last())
    }
}

pub open spec fn digit_val(c: char) -> nat {
    if c == '0' {
        0
    } else if c == '1' {
        1
    } else if c == '2' {
        2
    } else if c == '3' {
        3
    } else if c == '4' {
        4
    } else if c == '5' {
        5
    } else if c == '6' {
        6
    } else if c == '7' {
        7
    } else if c == '8' {
        8
    } else {
        9
    }
}

/// Reading back the decimal representation gives the number.
pub proof fn lemma_dec_val_rep(n: nat)
    ensures
        dec_val(dec_rep(n)) == n,
    decreases n,
{
    if n < 10 {
        let d = dec_rep(n);
        assert(d == seq![digit_char(n)]);
        assert(d.len() == 1);
        assert(d.last() == digit_char(n));
        assert(d.drop_last() =~= Seq::<char>::empty());
        assert(dec_val(Seq::<char>::empty()) == 0);
        assert(dec_val(d) == dec_val(d.drop_last()) * 10 + digit_val(d.last()));
        assert(digit_val(digit_char(n)) == n);
    } else {
        lemma_dec_val_rep(n / 10);
        assert(dec_rep(n).drop_last() =~= dec_rep(n / 10));
        assert(dec_rep(n).last() == digit_char(n % 10));
        assert(digit_val(digit_char(n % 10)) == n % 10);
        vstd::arithmetic::div_mod::lemma_fundamental_div_mod(n as int, 10);
    }
}

/// Match `lit` at `pos`, returning the position just past it.
fn expect_lit(s: &str, pos: usize, lit: &str) -> (r: Option<usize>)
    ensures
        match r {
            Some(p) => {
                &&& pos + lit@.len() <= s@.len()
                &&& p == pos + lit@.len()
                &&& s@.subrange(pos as int, p as int) == lit@
            },
            None => !(pos + lit@.len() <= s@.len() && s@.subrange(
                pos as int,
                pos as int + lit@.len(),
            ) =~= lit@),
        },
{
    let n = s.unicode_len();
    let m = lit.unicode_len();
    if n < m || pos > n - m {
        return None;
    }
    let mut i: usize = 0;
    while i < m
        invariant
            n == s@.len(),
            m == lit@.len(),
            pos + m <= n,
            i <= m,
            forall|j: int| 0 <= j < i ==> s@[pos + j] == #[trigger] lit@[j],
        decreases m - i,
    {
        if s.get_char(pos + i) != lit.get_char(i) {
            proof {
                assert(s@.subrange(pos as int, pos as int + m)[i as int] != lit@[i as int]);
            }
            return None;
        }
        i = i + 1;
    }
    proof {
        assert(s@.subrange(pos as int, (pos + m) as int) =~= lit@);
    }
    Some(pos + m)
}

/// Scan a JSON-plain string body from `pos` to its closing quote.
fn scan_plain(s: &str, pos: usize) -> (r: Option<usize>)
    requires
        pos <= s@.len(),
    ensures
        match r {
            Some(end) => {
                &&& pos <= end < s@.len()
                &&& s@[end as int] == '"'
                &&& forall|j: int|
                    pos <= j < end ==> json_plain_char(#[trigger] s@[j]) && s@[j] != '"'
            },
            None => !(exists|end: int|
                pos <= end < s@.len() && s@[end] == '"' && forall|j: int|
                    pos <= j < end ==> json_plain_char(#[trigger] s@[j]) && s@[j] != '"'),
        },
{
    let n = s.unicode_len();
    let mut i: usize = pos;
    while i < n
        invariant
            n == s@.len(),
            pos <= i <= n,
            forall|j: int| pos <= j < i ==> json_plain_char(#[trigger] s@[j]) && s@[j] != '"',
        decreases n - i,
    {
        let c = s.get_char(i);
        if c == '"' {
            return Some(i);
        }
        if c == '\\' || (c as u32) < 0x20 {
            proof {
                assert(!json_plain_char(s@[i as int]));
                assert forall|end: int|
                    pos <= end < s@.len() && s@[end] == '"' implies !(forall|j: int|
                    pos <= j < end ==> json_plain_char(#[trigger] s@[j]) && s@[j] != '"') by {
                    if end <= i {
                        assert(s@[end] == '"');
                        assert(pos <= end < i ==> s@[end] != '"');
                    } else {
                        assert(pos <= i < end);
                        assert(!json_plain_char(s@[i as int]));
                    }
                }
            }
            return None;
        }
        i = i + 1;
    }
    proof {
        assert forall|end: int|
            pos <= end < s@.len() && s@[end] == '"' implies !(forall|j: int|
            pos <= j < end ==> json_plain_char(#[trigger] s@[j]) && s@[j] != '"') by {
            assert(s@[end] != '"');
        }
    }
    None
}

/// A digit run's value only grows as the run extends.
proof fn lemma_dec_val_prefix(s: Seq<char>, a: int, b: int)
    requires
        0 <= a <= b <= s.len(),
    ensures
        dec_val(s.subrange(0, a)) <= dec_val(s.subrange(0, b)),
    decreases b - a,
{
    if a < b {
        lemma_dec_val_prefix(s, a, b - 1);
        let u = s.subrange(0, b - 1);
        let w = s.subrange(0, b);
        assert(w.drop_last() =~= u);
        assert(dec_val(w) == dec_val(u) * 10 + digit_val(w.last()));
        assert(dec_val(u) * 10 >= dec_val(u)) by (nonlinear_arith);
    }
}

/// Scan a decimal number at `pos`: its value and the position after the
/// maximal digit run. Fails when there is no digit, or the value cannot
/// fit the machine.
fn scan_number(s: &str, pos: usize) -> (r: Option<(usize, usize)>)
    requires
        pos <= s@.len(),
    ensures
        match r {
            Some(p) => {
                &&& pos < p.1 <= s@.len()
                &&& forall|j: int| pos <= j < p.1 ==> is_digit_char(#[trigger] s@[j])
                &&& (p.1 < s@.len() ==> !is_digit_char(s@[p.1 as int]))
                &&& p.0 == dec_val(s@.subrange(pos as int, p.1 as int))
            },
            None => !(exists|end: int|
                {
                    &&& pos < end <= s@.len()
                    &&& (forall|j: int| pos <= j < end ==> is_digit_char(#[trigger] s@[j]))
                    &&& (end < s@.len() ==> !is_digit_char(s@[end]))
                    &&& dec_val(s@.subrange(pos as int, end)) <= usize::MAX
                }),
        },
{
    let n = s.unicode_len();
    let mut i: usize = pos;
    let mut acc: usize = 0;
    while i < n
        invariant_except_break
            n == s@.len(),
            pos <= i <= n,
            forall|j: int| pos <= j < i ==> is_digit_char(#[trigger] s@[j]),
            acc == dec_val(s@.subrange(pos as int, i as int)),
        ensures
            n == s@.len(),
            pos <= i <= n,
            forall|j: int| pos <= j < i ==> is_digit_char(#[trigger] s@[j]),
            acc == dec_val(s@.subrange(pos as int, i as int)),
            i < n ==> !is_digit_char(s@[i as int]),
        decreases n - i,
    {
        let c = s.get_char(i);
        let d: usize = if c == '0' {
            0
        } else if c == '1' {
            1
        } else if c == '2' {
            2
        } else if c == '3' {
            3
        } else if c == '4' {
            4
        } else if c == '5' {
            5
        } else if c == '6' {
            6
        } else if c == '7' {
            7
        } else if c == '8' {
            8
        } else if c == '9' {
            9
        } else {
            break ;
        };
        proof {
            assert(is_digit_char(s@[i as int]));
            assert(d == digit_val(s@[i as int]));
            assert(s@.subrange(pos as int, i as int + 1).drop_last() =~= s@.subrange(
                pos as int,
                i as int,
            ));
        }
        if acc > (usize::MAX - d) / 10 {
            proof {
                vstd::arithmetic::div_mod::lemma_fundamental_div_mod(
                    (usize::MAX - d) as int,
                    10,
                );
                assert(acc as int * 10 > usize::MAX as int - d) by (nonlinear_arith)
                    requires
                        acc as int >= (usize::MAX as int - d) / 10 + 1,
                        usize::MAX as int - d == 10 * ((usize::MAX as int - d) / 10) + (
                        usize::MAX as int - d) % 10,
                        (usize::MAX as int - d) % 10 < 10,
                ;
                let over = s@.subrange(pos as int, i as int + 1);
                assert(dec_val(over) == acc * 10 + d);
                assert(dec_val(over) > usize::MAX);
                assert forall|end: int|
                    #![trigger dec_val(s@.subrange(pos as int, end))]
                    {
                        &&& pos < end <= s@.len()
                        &&& (forall|j: int| pos <= j < end ==> is_digit_char(#[trigger] s@[j]))
                        &&& (end < s@.len() ==> !is_digit_char(s@[end]))
                    } implies dec_val(s@.subrange(pos as int, end)) > usize::MAX by {
                    if end <= i {
                        assert(end < s@.len());
                        assert(is_digit_char(s@[end]));
                        assert(false);
                    }
                    assert(end > i);
                    let w = s@.subrange(pos as int, end);
                    let prefix_len = i + 1 - pos;
                    assert(w.subrange(0, prefix_len) =~= over);
                    assert(w.subrange(0, w.len() as int) =~= w);
                    lemma_dec_val_prefix(w, prefix_len, w.len() as int);
                }
                assert(!(exists|end: int|
                    {
                        &&& pos < end <= s@.len()
                        &&& (forall|j: int| pos <= j < end ==> is_digit_char(#[trigger] s@[j]))
                        &&& (end < s@.len() ==> !is_digit_char(s@[end]))
                        &&& dec_val(s@.subrange(pos as int, end)) <= usize::MAX
                    }));
            }
            return None;
        }
        proof {
            assert(acc as int * 10 + d <= usize::MAX as int) by (nonlinear_arith)
                requires
                    acc as int <= (usize::MAX as int - d) / 10,
                    usize::MAX as int - d == 10 * ((usize::MAX as int - d) / 10) + (usize::MAX
                        as int - d) % 10,
                    0 <= (usize::MAX as int - d) % 10,
            ;
        }
        acc = acc * 10 + d;
        i = i + 1;
    }
    if i == pos {
        proof {
            if i < n {
                assert(!is_digit_char(s@[pos as int]));
            }
        }
        return None;
    }
    Some((acc, i))
}

/// A digit character is recovered from its value.
proof fn lemma_digit_char_val(c: char)
    requires
        is_digit_char(c),
    ensures
        digit_char(digit_val(c)) == c,
{
}

/// A non-empty digit run without a leading zero has a positive value.
proof fn lemma_no_leading_zero_pos(u: Seq<char>)
    requires
        u.len() >= 1,
        forall|j: int| 0 <= j < u.len() ==> is_digit_char(#[trigger] u[j]),
        u[0] != '0',
    ensures
        dec_val(u) >= 1,
    decreases u.len(),
{
    if u.len() == 1 {
        assert(is_digit_char(u[0]));
        assert(digit_val(u.last()) >= 1);
    } else {
        lemma_no_leading_zero_pos(u.drop_last());
        assert(dec_val(u.drop_last()) * 10 >= 10) by (nonlinear_arith)
            requires
                dec_val(u.drop_last()) >= 1,
        ;
    }
}

/// A digit run without a leading zero is the decimal representation of
/// its own value.
proof fn lemma_rep_val(u: Seq<char>)
    requires
        u.len() >= 1,
        forall|j: int| 0 <= j < u.len() ==> is_digit_char(#[trigger] u[j]),
        u.len() > 1 ==> u[0] != '0',
    ensures
        dec_rep(dec_val(u)) == u,
    decreases u.len(),
{
    let v = u.drop_last();
    let d = u.last();
    lemma_digit_char_val(d);
    if u.len() == 1 {
        assert(v =~= Seq::<char>::empty());
        assert(dec_val(v) == 0);
        assert(dec_val(u) == digit_val(d));
        assert(digit_val(d) < 10);
        assert(dec_rep(dec_val(u)) == seq![digit_char(digit_val(d))]);
        assert(dec_rep(dec_val(u)) =~= u);
    } else {
        assert(v[0] == u[0]);
        lemma_no_leading_zero_pos(v);
        lemma_rep_val(v);
        let value = dec_val(u);
        assert(value == dec_val(v) * 10 + digit_val(d));
        assert(dec_val(v) * 10 >= 10) by (nonlinear_arith)
            requires
                dec_val(v) >= 1,
        ;
        assert(digit_val(d) < 10);
        vstd::arithmetic::div_mod::lemma_fundamental_div_mod_converse(
            value as int,
            10,
            dec_val(v) as int,
            digit_val(d) as int,
        );
        assert(value / 10 == dec_val(v));
        assert(value % 10 == digit_val(d));
        assert(dec_rep(value) == dec_rep(dec_val(v)).push(digit_char(digit_val(d))));
        assert(dec_rep(value) =~= u);
    }
}


/// Everything decoding needs to know about a string that is the
/// canonical serialization of `e`: what stands at each position, the
/// numbers' values, and the exact total length.
#[verifier::rlimit(100)]
#[verifier::spinoff_prover]
pub proof fn lemma_decodable_facts(s: Seq<char>, e: ChunkEnvelope)
    requires
        decodable_as(s, e),
    ensures
        s.len() == data_end_pos(e) + 2,
        dec_len(e.chunk_index as nat) >= 1,
        (e.total_chunks matches Some(t) ==> dec_len(t as nat) >= 1),
        s.subrange(0, 15) == ("{\"request_id\":\"")@,
        15 <= rid_end_pos(e) < s.len(),
        forall|k: int|
            15 <= k < rid_end_pos(e) ==> json_plain_char(#[trigger] s[k]) && s[k] != '"',
        s.subrange(15, rid_end_pos(e)) == e.request_id@,
        s[rid_end_pos(e)] == '"',
        s.subrange(rid_end_pos(e), num_pos(e)) == ("\",\"chunk_index\":")@,
        forall|k: int| num_pos(e) <= k < num_end_pos(e) ==> is_digit_char(#[trigger] s[k]),
        s.subrange(num_pos(e), num_end_pos(e)) == dec_rep(e.chunk_index as nat),
        dec_val(s.subrange(num_pos(e), num_end_pos(e))) == e.chunk_index,
        dec_len(e.chunk_index as nat) > 1 ==> s[num_pos(e)] != '0',
        num_end_pos(e) < s.len(),
        s[num_end_pos(e)] == ',',
        !is_digit_char(s[num_end_pos(e)]),
        s[num_end_pos(e) + 2] == (if e.total_chunks is Some {
            't'
        } else {
            'i'
        }),
        (e.total_chunks matches Some(t) ==> {
            &&& s.subrange(num_end_pos(e), num_end_pos(e) + 16) == (",\"total_chunks\":")@
            &&& forall|k: int|
                num_end_pos(e) + 16 <= k < islast_pos(e) ==> is_digit_char(#[trigger] s[k])
            &&& s.subrange(num_end_pos(e) + 16, islast_pos(e)) == dec_rep(t as nat)
            &&& dec_val(s.subrange(num_end_pos(e) + 16, islast_pos(e))) == t
            &&& (dec_len(t as nat) > 1 ==> s[num_end_pos(e) + 16] != '0')
            &&& islast_pos(e) < s.len()
            &&& s[islast_pos(e)] == ','
            &&& !is_digit_char(s[islast_pos(e)])
        }),
        s.subrange(islast_pos(e), islast_pos(e) + 11) == (",\"is_last\":")@,
        e.is_last ==> s.subrange(islast_pos(e) + 11, islast_pos(e) + 15) == ("true")@,
        !e.is_last ==> s.subrange(islast_pos(e) + 11, islast_pos(e) + 16) == ("false")@,
        s[islast_pos(e) + 11] == (if e.is_last {
            't'
        } else {
            'f'
        }),
        s.subrange(bool_end_pos(e), data_pos(e)) == (",\"data\":\"")@,
        data_pos(e) <= data_end_pos(e) < s.len(),
        forall|k: int|
            data_pos(e) <= k < data_end_pos(e) ==> json_plain_char(#[trigger] s[k]) && s[k]
                != '"',
        s.subrange(data_pos(e), data_end_pos(e)) == e.data@,
        s[data_end_pos(e)] == '"',
        s.subrange(data_end_pos(e), data_end_pos(e) + 2) == ("\"}")@,
{
    lemma_env_regions(e);
    lemma_dec_val_rep(e.chunk_index as nat);
    lemma_dec_rep_no_leading_zero(e.chunk_index as nat);
    reveal_strlit(",\"is_last\":");
    reveal_strlit(",\"total_chunks\":");
    let j = envelope_json(e);
    assert(s == j);
    if e.is_last {
        assert(j.subrange(islast_pos(e) + 11, bool_end_pos(e)) == ("true")@);
    } else {
        assert(j.subrange(islast_pos(e) + 11, bool_end_pos(e)) == ("false")@);
    }
    match e.total_chunks {
        Some(t) => {
            lemma_dec_val_rep(t as nat);
            lemma_dec_rep_no_leading_zero(t as nat);
            assert(s[num_end_pos(e) + 16] == dec_rep(t as nat)[0]);
        },
        None => {},
    }
    assert(s[num_pos(e)] == dec_rep(e.chunk_index as nat)[0]);
    assert(j.subrange(data_end_pos(e), j.len() as int) == ("\"}")@);
}

/// Parse the front of a canonical envelope serialization: the opening
/// literal, the request id, the chunk index, and the total when present.
/// Returns the id's closing-quote position, the index, its end, the
/// total, and the position where the `is_last` member must begin.
#[verifier::rlimit(100)]
#[verifier::spinoff_prover]
fn decode_head(s: &str) -> (r: Option<(usize, usize, usize, Option<usize>, usize)>)
    ensures
        match r {
            Some(h) => {
                let (rid_end, ci, p3, total, p5) = h;
                &&& 15 <= rid_end
                &&& rid_end + 16 < p3
                &&& p3 <= p5 <= s@.len()
                &&& s@.subrange(0, 15) == ("{\"request_id\":\"")@
                &&& forall|k: int|
                    15 <= k < rid_end ==> json_plain_char(#[trigger] s@[k]) && s@[k] != '"'
                &&& s@.subrange(rid_end as int, rid_end as int + 16) == ("\",\"chunk_index\":")@
                &&& s@.subrange(rid_end as int + 16, p3 as int) == dec_rep(ci as nat)
                &&& match total {
                    Some(t) => p3 + 16 < p5 && s@.subrange(p3 as int, p3 as int + 16) == (
                    ",\"total_chunks\":")@ && s@.subrange(p3 as int + 16, p5 as int) == dec_rep(
                        t as nat,
                    ),
                    None => p5 == p3,
                }
                &&& forall|e: ChunkEnvelope|
                    #[trigger] decodable_as(s@, e) ==> rid_end == rid_end_pos(e) && ci
                        == e.chunk_index && p3 == num_end_pos(e) && total == e.total_chunks && p5
                        == islast_pos(e)
            },
            None => forall|e: ChunkEnvelope| !(#[trigger] decodable_as(s@, e)),
        },
{
    proof {
        reveal_strlit("{\"request_id\":\"");
        reveal_strlit("\",\"chunk_index\":");
        reveal_strlit(",\"total_chunks\":");
        reveal_strlit(",\"is_last\":");
    }
    let p1 = match expect_lit(s, 0, "{\"request_id\":\"") {
        Some(p) => p,
        None => {
            proof {
                assert forall|e: ChunkEnvelope| !decodable_as(s@, e) by {
                    if decodable_as(s@, e) {
                        lemma_decodable_facts(s@, e);
                        assert(s@.subrange(0, 15) == ("{\"request_id\":\"")@);
                        assert(15 <= s@.len());
                    }
                }
            }
            return None;
        },
    };
    let rid_end = match scan_plain(s, p1) {
        Some(e) => e,
        None => {
            proof {
                assert forall|e: ChunkEnvelope| !decodable_as(s@, e) by {
                    if decodable_as(s@, e) {
                        lemma_decodable_facts(s@, e);
                        let end = rid_end_pos(e);
                        assert(15 <= end < s@.len());
                        assert(s@[end] == '"');
                        assert(forall|k: int|
                            15 <= k < end ==> json_plain_char(#[trigger] s@[k]) && s@[k] != '"');
                    }
                }
            }
            return None;
        },
    };
    proof {
        assert forall|e: ChunkEnvelope| #[trigger] decodable_as(s@, e) implies rid_end
            == rid_end_pos(e) by {
            lemma_decodable_facts(s@, e);
            let end = rid_end_pos(e);
            if rid_end < end {
                assert(s@[rid_end as int] != '"');
            }
            if rid_end > end {
                assert(s@[end] == '"');
                assert(s@[end] != '"');
            }
        }
    }
    let p2 = match expect_lit(s, rid_end, "\",\"chunk_index\":") {
        Some(p) => p,
        None => {
            proof {
                assert forall|e: ChunkEnvelope| !decodable_as(s@, e) by {
                    if decodable_as(s@, e) {
                        lemma_decodable_facts(s@, e);
                        assert(s@.subrange(rid_end as int, rid_end as int + 16) == (
                        "\",\"chunk_index\":")@);
                        assert(rid_end + 16 <= s@.len());
                    }
                }
            }
            return None;
        },
    };
    let (ci, p3) = match scan_number(s, p2) {
        Some(x) => x,
        None => {
            proof {
                assert forall|e: ChunkEnvelope| !decodable_as(s@, e) by {
                    if decodable_as(s@, e) {
                        lemma_decodable_facts(s@, e);
                        let end = num_end_pos(e);
                        assert(p2 == num_pos(e));
                        assert(p2 < end <= s@.len());
                        assert(forall|k: int| p2 <= k < end ==> is_digit_char(#[trigger] s@[k]));
                        assert(!is_digit_char(s@[end]));
                        assert(dec_val(s@.subrange(p2 as int, end)) <= usize::MAX);
                    }
                }
            }
            return None;
        },
    };
    proof {
        assert forall|e: ChunkEnvelope| #[trigger] decodable_as(s@, e) implies p3 == num_end_pos(e)
            && ci == e.chunk_index by {
            lemma_decodable_facts(s@, e);
            let end = num_end_pos(e);
            if p3 < end {
                assert(is_digit_char(s@[p3 as int]));
            }
            if p3 > end {
                assert(is_digit_char(s@[end]));
            }
            assert(s@.subrange(p2 as int, p3 as int) == dec_rep(e.chunk_index as nat));
        }
    }
    if p3 - p2 > 1 && char_is(s, p2, '0') {
        proof {
            assert forall|e: ChunkEnvelope| !decodable_as(s@, e) by {
                if decodable_as(s@, e) {
                    lemma_decodable_facts(s@, e);
                    assert(s@[p2 as int] == dec_rep(e.chunk_index as nat)[0]);
                }
            }
        }
        return None;
    }
    proof {
        lemma_rep_val(s@.subrange(p2 as int, p3 as int));
    }
    match expect_lit(s, p3, ",\"total_chunks\":") {
        Some(p4) => {
            proof {
                assert forall|e: ChunkEnvelope| #[trigger] decodable_as(s@, e) implies e
                    .total_chunks is Some by {
                    lemma_decodable_facts(s@, e);
                    if e.total_chunks is None {
                        assert(s@[p3 as int + 2] == 'i');
                        assert(s@.subrange(p3 as int, p3 as int + 16)[2] == 't');
                    }
                }
            }
            let (tv, p5) = match scan_number(s, p4) {
                Some(x) => x,
                None => {
                    proof {
                        assert forall|e: ChunkEnvelope| !decodable_as(s@, e) by {
                            if decodable_as(s@, e) {
                                lemma_decodable_facts(s@, e);
                                let t = e.total_chunks->0;
                                let end = islast_pos(e);
                                assert(p4 == num_end_pos(e) + 16);
                                assert(p4 < end <= s@.len());
                                assert(forall|k: int|
                                    p4 <= k < end ==> is_digit_char(#[trigger] s@[k]));
                                assert(!is_digit_char(s@[end]));
                                assert(dec_val(s@.subrange(p4 as int, end)) <= usize::MAX);
                            }
                        }
                    }
                    return None;
                },
            };
            proof {
                assert forall|e: ChunkEnvelope| #[trigger] decodable_as(s@, e) implies p5
                    == islast_pos(e) && Some(tv) == e.total_chunks by {
                    lemma_decodable_facts(s@, e);
                    let t = e.total_chunks->0;
                    let end = islast_pos(e);
                    if p5 < end {
                        assert(is_digit_char(s@[p5 as int]));
                    }
                    if p5 > end {
                        assert(is_digit_char(s@[end]));
                    }
                    assert(s@.subrange(p4 as int, p5 as int) == dec_rep(t as nat));
                }
            }
            if p5 - p4 > 1 && char_is(s, p4, '0') {
                proof {
                    assert forall|e: ChunkEnvelope| !decodable_as(s@, e) by {
                        if decodable_as(s@, e) {
                            lemma_decodable_facts(s@, e);
                            let t = e.total_chunks->0;
                            assert(s@[p4 as int] == dec_rep(t as nat)[0]);
                        }
                    }
                }
                return None;
            }
            proof {
                lemma_rep_val(s@.subrange(p4 as int, p5 as int));
            }
            Some((rid_end, ci, p3, Some(tv), p5))
        },
        None => {
            proof {
                assert forall|e: ChunkEnvelope| #[trigger] decodable_as(s@, e) implies e
                    .total_chunks is None by {
                    lemma_decodable_facts(s@, e);
                    if e.total_chunks is Some {
                        assert(s@.subrange(p3 as int, p3 as int + 16) == (",\"total_chunks\":")@);
                        assert(p3 + 16 <= s@.len());
                    }
                }
            }
            Some((rid_end, ci, p3, None, p3))
        },
    }
}

/// Decode a canonically serialized envelope: the exact strings the
/// encoder produces for envelopes whose `request_id` and `data` need no
/// JSON escaping. Whenever it yields an envelope, re-encoding that
/// envelope gives back the input unchanged; and it yields one on every
/// string that is such a serialization.
#[verifier::rlimit(100)]
#[verifier::spinoff_prover]
pub fn decode_envelope(s: &str) -> (r: Option<ChunkEnvelope>)
    ensures
        r matches Some(e) ==> {
            &&& json_plain(e.request_id@)
            &&& json_plain(e.data@)
            &&& envelope_json(e) == s@
        },
        forall|e: ChunkEnvelope| #[trigger] decodable_as(s@, e) ==> r is Some,
{
    proof {
        reveal_strlit("{\"request_id\":\"");
        reveal_strlit("\",\"chunk_index\":");
        reveal_strlit(",\"total_chunks\":");
        reveal_strlit(",\"is_last\":");
        reveal_strlit("true");
        reveal_strlit("false");
        reveal_strlit(",\"data\":\"");
        reveal_strlit("\"}");
    }
    let n = s.unicode_len();
    let (rid_end, ci, p3, total, p5) = match decode_head(s) {
        Some(h) => h,
        None => {
            return None;
        },
    };
    let rid = s.substring_char(15, rid_end);
    let pl = match expect_lit(s, p5, ",\"is_last\":") {
        Some(p) => p,
        None => {
            proof {
                assert forall|e: ChunkEnvelope| !decodable_as(s@, e) by {
                    if decodable_as(s@, e) {
                        lemma_decodable_facts(s@, e);
                        assert(s@.subrange(p5 as int, p5 as int + 11) == (",\"is_last\":")@);
                        assert(p5 + 11 <= s@.len());
                    }
                }
            }
            return None;
        },
    };
    let (is_last, p6): (bool, usize) = match expect_lit(s, pl, "true") {
        Some(p) => {
            proof {
                assert forall|e: ChunkEnvelope| #[trigger] decodable_as(s@, e) implies e.is_last
                    && p == bool_end_pos(e) by {
                    lemma_decodable_facts(s@, e);
                    if !e.is_last {
                        assert(s@[pl as int] == 'f');
                        assert(s@.subrange(pl as int, pl as int + 4)[0] == 't');
                    }
                }
            }
            (true, p)
        },
        None => {
            match expect_lit(s, pl, "false") {
                Some(p) => {
                    proof {
                        assert forall|e: ChunkEnvelope| #[trigger] decodable_as(s@, e) implies !e
                            .is_last && p == bool_end_pos(e) by {
                            lemma_decodable_facts(s@, e);
                            if e.is_last {
                                assert(s@.subrange(pl as int, pl as int + 4) == ("true")@);
                                assert(pl + 4 <= s@.len());
                            }
                        }
                    }
                    (false, p)
                },
                None => {
                    proof {
                        assert forall|e: ChunkEnvelope| !decodable_as(s@, e) by {
                            if decodable_as(s@, e) {
                                lemma_decodable_facts(s@, e);
                                if e.is_last {
                                    assert(s@.subrange(pl as int, pl as int + 4) == ("true")@);
                                    assert(pl + 4 <= s@.len());
                                } else {
                                    assert(s@.subrange(pl as int, pl as int + 5) == ("false")@);
                                    assert(pl + 5 <= s@.len());
                                }
                            }
                        }
                    }
                    return None;
                },
            }
        },
    };
    let p7 = match expect_lit(s, p6, ",\"data\":\"") {
        Some(p) => p,
        None => {
            proof {
                assert forall|e: ChunkEnvelope| !decodable_as(s@, e) by {
                    if decodable_as(s@, e) {
                        lemma_decodable_facts(s@, e);
                        assert(s@.subrange(p6 as int, p6 as int + 9) == (",\"data\":\"")@);
                        assert(p6 + 9 <= s@.len());
                    }
                }
            }
            return None;
        },
    };
    let data_end = match scan_plain(s, p7) {
        Some(e) => e,
        None => {
            proof {
                assert forall|e: ChunkEnvelope| !decodable_as(s@, e) by {
                    if decodable_as(s@, e) {
                        lemma_decodable_facts(s@, e);
                        let end = data_end_pos(e);
                        assert(p7 == data_pos(e));
                        assert(p7 <= end < s@.len());
                        assert(s@[end] == '"');
                        assert(forall|k: int|
                            p7 <= k < end ==> json_plain_char(#[trigger] s@[k]) && s@[k] != '"');
                    }
                }
            }
            return None;
        },
    };
    proof {
        assert forall|e: ChunkEnvelope| #[trigger] decodable_as(s@, e) implies data_end
            == data_end_pos(e) by {
            lemma_decodable_facts(s@, e);
            let end = data_end_pos(e);
            if data_end < end {
                assert(s@[data_end as int] != '"');
            }
            if data_end > end {
                assert(s@[end] == '"');
                assert(s@[end] != '"');
            }
        }
    }
    let data = s.substring_char(p7, data_end);
    let p8 = match expect_lit(s, data_end, "\"}") {
        Some(p) => p,
        None => {
            proof {
                assert forall|e: ChunkEnvelope| !decodable_as(s@, e) by {
                    if decodable_as(s@, e) {
                        lemma_decodable_facts(s@, e);
                        assert(s@.subrange(data_end as int, data_end as int + 2) == ("\"}")@);
                        assert(data_end + 2 <= s@.len());
                    }
                }
            }
            return None;
        },
    };
    if p8 != n {
        proof {
            assert forall|e: ChunkEnvelope| !decodable_as(s@, e) by {
                if decodable_as(s@, e) {
                    lemma_decodable_facts(s@, e);
                    assert(s@.len() == data_end_pos(e) + 2);
                }
            }
        }
        return None;
    }
    let env = ChunkEnvelope {
        request_id: rid.to_owned(),
        chunk_index: ci,
        total_chunks: total,
        is_last,
        data: data.to_owned(),
    };
    proof {
        reveal_strlit("{\"request_id\":\"");
        reveal_strlit("\",\"chunk_index\":");
        reveal_strlit(",\"total_chunks\":");
        reveal_strlit(",\"is_last\":");
        reveal_strlit("true");
        reveal_strlit("false");
        reveal_strlit(",\"data\":\"");
        reveal_strlit("\"}");
        lemma_json_escape_plain(env.request_id@);
        lemma_json_escape_plain(env.data@);
        assert(env.request_id@ == s@.subrange(15, rid_end as int));
        assert(s@.subrange(0, 15) == ("{\"request_id\":\"")@);
        assert(s@.subrange(rid_end as int, rid_end as int + 16) == ("\",\"chunk_index\":")@);
        assert(s@.subrange(rid_end as int + 16, p3 as int) == dec_rep(env.chunk_index as nat));
        match env.total_chunks {
            Some(t) => {
                assert(s@.subrange(p3 as int, p3 as int + 16) == (",\"total_chunks\":")@);
                assert(s@.subrange(p3 as int + 16, p5 as int) == dec_rep(t as nat));
                assert(dec_rep(t as nat).len() == p5 - p3 - 16);
                assert(opt_nat(env.total_chunks) == Some(t as nat));
            },
            None => {
                assert(p5 == p3);
                assert(opt_nat(env.total_chunks) is None);
            },
        }
        assert(s@.subrange(p5 as int, pl as int) == (",\"is_last\":")@);
        if env.is_last {
            assert(s@.subrange(pl as int, p6 as int) == ("true")@);
        } else {
            assert(s@.subrange(pl as int, p6 as int) == ("false")@);
        }
        assert(s@.subrange(p6 as int, p7 as int) == (",\"data\":\"")@);
        assert(env.data@ == s@.subrange(p7 as int, data_end as int));
        assert(s@.subrange(data_end as int, n as int) == ("\"}")@);
        assert(n == data_end + 2);
        assert(json_escape(env.request_id@).len() == rid_end - 15);
        assert(dec_rep(env.chunk_index as nat).len() == p3 - rid_end - 16);
        assert(pl == p5 + 11);
        assert(p6 - pl == (if env.is_last {
            4int
        } else {
            5int
        }));
        assert(p7 == p6 + 9);
        assert(json_escape(env.data@).len() == data_end - p7);
        assert(envelope_json(env).len() == n);
        assert(envelope_json(env) =~= s@);
    }
    Some(env)
}

fn char_is(s: &str, i: usize, c: char) -> (r: bool)
    requires
        i < s@.len(),
    ensures
        r == (s@[i as int] == c),
{
    s.get_char(i) == c
}

/// The canonical envelope serialization is injective: two envelopes
/// whose strings need no escaping and whose JSON forms coincide are the
/// same envelope. Together with `decode_envelope`'s contract this makes
/// decoding invert encoding: whatever decoding an envelope's JSON
/// yields, it is that envelope.
#[verifier::rlimit(100)]
#[verifier::spinoff_prover]
pub proof fn lemma_envelope_json_injective(a: ChunkEnvelope, b: ChunkEnvelope)
    requires
        json_plain(a.request_id@),
        json_plain(a.data@),
        json_plain(b.request_id@),
        json_plain(b.data@),
        envelope_json(a) == envelope_json(b),
    ensures
        a.request_id@ == b.request_id@,
        a.chunk_index == b.chunk_index,
        opt_nat(a.total_chunks) == opt_nat(b.total_chunks),
        a.is_last == b.is_last,
        a.data@ == b.data@,
{
    reveal_strlit("{\"request_id\":\"");
    reveal_strlit("\",\"chunk_index\":");
    reveal_strlit(",\"total_chunks\":");
    reveal_strlit(",\"is_last\":");
    reveal_strlit("true");
    reveal_strlit("false");
    reveal_strlit(",\"data\":\"");
    reveal_strlit("\"}");
    lemma_json_escape_plain(a.request_id@);
    lemma_json_escape_plain(a.data@);
    lemma_json_escape_plain(b.request_id@);
    lemma_json_escape_plain(b.data@);
    lemma_dec_rep_digits(a.chunk_index as nat);
    lemma_dec_rep_digits(b.chunk_index as nat);
    let j = envelope_json(a);
    let ra = a.request_id@;
    let rb = b.request_id@;
    let pa = 15 + ra.len() as int;
    let pb = 15 + rb.len() as int;
    assert(j[pa] == '"');
    assert(j[pb] == '"');
    assert(forall|k: int| 15 <= k < pa ==> j[k] == ra[k - 15]);
    assert(forall|k: int| 15 <= k < pb ==> j[k] == rb[k - 15]);
    if pa < pb {
        assert(j[pa] == rb[pa - 15]);
        assert(json_plain_char(rb[pa - 15]));
        assert(false);
    }
    if pb < pa {
        assert(j[pb] == ra[pb - 15]);
        assert(json_plain_char(ra[pb - 15]));
        assert(false);
    }
    assert forall|k: int| 0 <= k < ra.len() implies ra[k] == rb[k] by {
        assert(j[15 + k] == ra[k]);
        assert(j[15 + k] == rb[k]);
    }
    assert(ra =~= rb);
    let da = dec_rep(a.chunk_index as nat);
    let dbn = dec_rep(b.chunk_index as nat);
    let q = pa + 16;
    let qa = q + da.len() as int;
    let qb = q + dbn.len() as int;
    assert(forall|k: int| q <= k < qa ==> j[k] == da[k - q]);
    assert(forall|k: int| q <= k < qb ==> j[k] == dbn[k - q]);
    assert(j[qa] == ',');
    assert(j[qb] == ',');
    if qa < qb {
        assert(j[qa] == dbn[qa - q]);
        assert(is_digit_char(dbn[qa - q]));
        assert(false);
    }
    if qb < qa {
        assert(j[qb] == da[qb - q]);
        assert(is_digit_char(da[qb - q]));
        assert(false);
    }
    assert forall|k: int| 0 <= k < da.len() implies da[k] == dbn[k] by {
        assert(j[q + k] == da[k]);
        assert(j[q + k] == dbn[k]);
    }
    assert(da =~= dbn);
    lemma_dec_val_rep(a.chunk_index as nat);
    lemma_dec_val_rep(b.chunk_index as nat);
    assert(a.chunk_index == b.chunk_index);
    match (a.total_chunks, b.total_chunks) {
        (Some(ta), None) => {
            assert(j[qa + 2] == 't');
            assert(j[qa + 2] == 'i');
            assert(false);
        },
        (None, Some(tb)) => {
            assert(j[qa + 2] == 'i');
            assert(j[qa + 2] == 't');
            assert(false);
        },
        (Some(ta), Some(tb)) => {
            lemma_dec_rep_digits(ta as nat);
            lemma_dec_rep_digits(tb as nat);
            let wa = dec_rep(ta as nat);
            let wb = dec_rep(tb as nat);
            let t = qa + 16;
            let ua = t + wa.len() as int;
            let ub = t + wb.len() as int;
            assert(forall|k: int| t <= k < ua ==> j[k] == wa[k - t]);
            assert(forall|k: int| t <= k < ub ==> j[k] == wb[k - t]);
            assert(j[ua] == ',');
            assert(j[ub] == ',');
            if ua < ub {
                assert(j[ua] == wb[ua - t]);
                assert(is_digit_char(wb[ua - t]));
                assert(false);
            }
            if ub < ua {
                assert(j[ub] == wa[ub - t]);
                assert(is_digit_char(wa[ub - t]));
                assert(false);
            }
            assert forall|k: int| 0 <= k < wa.len() implies wa[k] == wb[k] by {
                assert(j[t + k] == wa[k]);
                assert(j[t + k] == wb[k]);
            }
            assert(wa =~= wb);
            lemma_dec_val_rep(ta as nat);
            lemma_dec_val_rep(tb as nat);
            assert(ta == tb);
            let v = ua + 11;
            if a.is_last != b.is_last {
                assert(j[v] == 't' || j[v] == 'f');
                assert(a.is_last ==> j[v] == 't');
                assert(!a.is_last ==> j[v] == 'f');
                assert(b.is_last ==> j[v] == 't');
                assert(!b.is_last ==> j[v] == 'f');
                assert(false);
            }
            let w = v + (if a.is_last { 4int } else { 5int }) + 9;
            assert(j.len() == w + a.data@.len() + 2);
            assert(j.len() == w + b.data@.len() + 2);
            assert(forall|k: int| w <= k < w + a.data@.len() ==> j[k] == a.data@[k - w]);
            assert(forall|k: int| w <= k < w + b.data@.len() ==> j[k] == b.data@[k - w]);
            assert(a.data@.len() == b.data@.len());
            assert forall|k: int| 0 <= k < a.data@.len() implies a.data@[k] == b.data@[k] by {
                assert(j[w + k] == a.data@[k]);
                assert(j[w + k] == b.data@[k]);
            }
            assert(a.data@ =~= b.data@);
        },
        (None, None) => {
            let v = qa + 11;
            if a.is_last != b.is_last {
                assert(a.is_last ==> j[v] == 't');
                assert(!a.is_last ==> j[v] == 'f');
                assert(b.is_last ==> j[v] == 't');
                assert(!b.is_last ==> j[v] == 'f');
                assert(false);
            }
            let w = v + (if a.is_last { 4int } else { 5int }) + 9;
            assert(j.len() == w + a.data@.len() + 2);
            assert(j.len() == w + b.data@.len() + 2);
            assert(forall|k: int| w <= k < w + a.data@.len() ==> j[k] == a.data@[k - w]);
            assert(forall|k: int| w <= k < w + b.data@.len() ==> j[k] == b.data@[k - w]);
            assert(a.data@.len() == b.data@.len());
            assert forall|k: int| 0 <= k < a.data@.len() implies a.data@[k] == b.data@[k] by {
                assert(j[w + k] == a.data@[k]);
                assert(j[w + k] == b.data@[k]);
            }
            assert(a.data@ =~= b.data@);
        },
    }
}

/// `s` is the canonical serialization of `e`, and `e`'s strings need no
/// JSON escaping.
pub open spec fn decodable_as(s: Seq<char>, e: ChunkEnvelope) -> bool {
    json_plain(e.request_id@) && json_plain(e.data@) && s == envelope_json(e)
}

/// Where each field of a canonically serialized envelope sits: the
/// request id ends (its closing quote) here.
pub open spec fn rid_end_pos(e: ChunkEnvelope) -> int {
    15 + e.request_id@.len() as int
}

/// First digit of the chunk index.
pub open spec fn num_pos(e: ChunkEnvelope) -> int {
    rid_end_pos(e) + 16
}

/// Just past the chunk index.
pub open spec fn num_end_pos(e: ChunkEnvelope) -> int {
    num_pos(e) + dec_len(e.chunk_index as nat) as int
}

/// Where the `is_last` member begins (after the total, when present).
pub open spec fn islast_pos(e: ChunkEnvelope) -> int {
    match e.total_chunks {
        Some(t) => num_end_pos(e) + 16 + dec_len(t as nat) as int,
        None => num_end_pos(e),
    }
}

/// Just past the `is_last` boolean.
pub open spec fn bool_end_pos(e: ChunkEnvelope) -> int {
    islast_pos(e) + 11 + if e.is_last {
        4int
    } else {
        5int
    }
}

/// First character of the data string.
pub open spec fn data_pos(e: ChunkEnvelope) -> int {
    bool_end_pos(e) + 9
}

/// The data string's closing quote.
pub open spec fn data_end_pos(e: ChunkEnvelope) -> int {
    data_pos(e) + e.data@.len() as int
}

/// What stands at every position of a canonical serialization whose
/// strings need no escaping.
#[verifier::rlimit(100)]
#[verifier::spinoff_prover]
pub proof fn lemma_env_regions(e: ChunkEnvelope)
    requires
        json_plain(e.request_id@),
        json_plain(e.data@),
    ensures
        ({
            let j = envelope_json(e);
            &&& j.len() == data_end_pos(e) + 2
            &&& dec_len(e.chunk_index as nat) >= 1
            &&& (e.total_chunks matches Some(t) ==> dec_len(t as nat) >= 1)
            &&& j.subrange(0, 15) == ("{\"request_id\":\"")@
            &&& forall|k: int|
                15 <= k < rid_end_pos(e) ==> #[trigger] j[k] == e.request_id@[k - 15]
                    && json_plain_char(j[k]) && j[k] != '"'
            &&& j.subrange(15, rid_end_pos(e)) == e.request_id@
            &&& j[rid_end_pos(e)] == '"'
            &&& j.subrange(rid_end_pos(e), num_pos(e)) == ("\",\"chunk_index\":")@
            &&& forall|k: int| num_pos(e) <= k < num_end_pos(e) ==> is_digit_char(#[trigger] j[k])
            &&& j.subrange(num_pos(e), num_end_pos(e)) == dec_rep(e.chunk_index as nat)
            &&& j[num_end_pos(e)] == ','
            &&& j[num_end_pos(e) + 2] == (if e.total_chunks is Some {
                't'
            } else {
                'i'
            })
            &&& (e.total_chunks matches Some(t) ==> {
                &&& j.subrange(num_end_pos(e), num_end_pos(e) + 16) == (",\"total_chunks\":")@
                &&& forall|k: int|
                    num_end_pos(e) + 16 <= k < islast_pos(e) ==> is_digit_char(#[trigger] j[k])
                &&& j.subrange(num_end_pos(e) + 16, islast_pos(e)) == dec_rep(t as nat)
                &&& j[islast_pos(e)] == ','
            })
            &&& j.subrange(islast_pos(e), islast_pos(e) + 11) == (",\"is_last\":")@
            &&& j.subrange(islast_pos(e) + 11, bool_end_pos(e)) == (if e.is_last {
                ("true")@
            } else {
                ("false")@
            })
            &&& j[islast_pos(e) + 11] == (if e.is_last {
                't'
            } else {
                'f'
            })
            &&& j.subrange(bool_end_pos(e), data_pos(e)) == (",\"data\":\"")@
            &&& forall|k: int|
                data_pos(e) <= k < data_end_pos(e) ==> #[trigger] j[k] == e.data@[k - data_pos(e)]
                    && json_plain_char(j[k]) && j[k] != '"'
            &&& j.subrange(data_pos(e), data_end_pos(e)) == e.data@
            &&& j[data_end_pos(e)] == '"'
            &&& j.subrange(data_end_pos(e), j.len() as int) == ("\"}")@
        }),
{
    reveal_strlit("{\"request_id\":\"");
    reveal_strlit("\",\"chunk_index\":");
    reveal_strlit(",\"total_chunks\":");
    reveal_strlit(",\"is_last\":");
    reveal_strlit("true");
    reveal_strlit("false");
    reveal_strlit(",\"data\":\"");
    reveal_strlit("\"}");
    lemma_json_escape_plain(e.request_id@);
    lemma_json_escape_plain(e.data@);
    lemma_dec_rep_digits(e.chunk_index as nat);
    let j = envelope_json(e);
    assert(j.subrange(0, 15) =~= ("{\"request_id\":\"")@);
    assert(j.subrange(15, rid_end_pos(e)) =~= e.request_id@);
    assert(j.subrange(data_pos(e), data_end_pos(e)) =~= e.data@);
    assert(j.subrange(rid_end_pos(e), num_pos(e)) =~= ("\",\"chunk_index\":")@);
    assert(j.subrange(num_pos(e), num_end_pos(e)) =~= dec_rep(e.chunk_index as nat));
    match e.total_chunks {
        Some(t) => {
            lemma_dec_rep_digits(t as nat);
            assert(j.subrange(num_end_pos(e), num_end_pos(e) + 16) =~= (",\"total_chunks\":")@);
            assert(j.subrange(num_end_pos(e) + 16, islast_pos(e)) =~= dec_rep(t as nat));
        },
        None => {},
    }
    assert(j.subrange(islast_pos(e), islast_pos(e) + 11) =~= (",\"is_last\":")@);
    if e.is_last {
        assert(j.subrange(islast_pos(e) + 11, bool_end_pos(e)) =~= ("true")@);
    } else {
        assert(j.subrange(islast_pos(e) + 11, bool_end_pos(e)) =~= ("false")@);
    }
    assert(j.subrange(bool_end_pos(e), data_pos(e)) =~= (",\"data\":\"")@);
    assert(j.subrange(data_end_pos(e), j.len() as int) =~= ("\"}")@);
}

} // verus!
