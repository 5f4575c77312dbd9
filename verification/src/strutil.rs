//! Character-level string helpers: equality, ASCII-whitespace trimming,
//! and ASCII case-insensitive comparison.
use vstd::prelude::*;
use vstd::string::StrSliceExecFns;
use vstd::utf8::{decode_utf8, encode_utf8, encode_utf8_decode_utf8};

verus! {

/// Compare two strings by value.
pub fn str_eq(a: &str, b: &str) -> (r: bool)
    ensures
        r == (a@ == b@),
{
    broadcast use encode_utf8_decode_utf8;

    let ab = a.as_bytes();
    let bb = b.as_bytes();
    let n = ab.len();
    if n != bb.len() {
        proof {
            assert(encode_utf8(a@).len() != encode_utf8(b@).len());
        }
        return false;
    }
    let mut i: usize = 0;
    while i < n
        invariant
            n == ab@.len(),
            n == bb@.len(),
            ab@ == encode_utf8(a@),
            bb@ == encode_utf8(b@),
            i <= n,
            forall|j: int| 0 <= j < i ==> ab@[j] == bb@[j],
        decreases n - i,
    {
        if *vstd::slice::slice_index_get(ab, i) != *vstd::slice::slice_index_get(bb, i) {
            proof {
                assert(encode_utf8(a@)[i as int] != encode_utf8(b@)[i as int]);
            }
            return false;
        }
        i = i + 1;
    }
    proof {
        assert(encode_utf8(a@) =~= encode_utf8(b@));
        assert(a@ == decode_utf8(encode_utf8(a@)));
        assert(b@ == decode_utf8(encode_utf8(b@)));
    }
    true
}

/// ASCII whitespace.
pub open spec fn is_ascii_ws(c: char) -> bool {
    c == ' ' || c == '\t' || c == '\n' || c == '\u{b}' || c == '\u{c}' || c == '\r'
}

pub open spec fn trim_front(s: Seq<char>) -> Seq<char>
    decreases s.len(),
{
    if s.len() > 0 && is_ascii_ws(s[0]) {
        trim_front(s.skip(1))
    } else {
        s
    }
}

pub open spec fn trim_back(s: Seq<char>) -> Seq<char>
    decreases s.len(),
{
    if s.len() > 0 && is_ascii_ws(s.last()) {
        trim_back(s.drop_last())
    } else {
        s
    }
}

/// `s` without leading and trailing ASCII whitespace.
pub open spec fn trimmed(s: Seq<char>) -> Seq<char> {
    trim_back(trim_front(s))
}

proof fn lemma_trim_front_skip(s: Seq<char>, i: int)
    requires
        0 <= i <= s.len(),
        forall|j: int| 0 <= j < i ==> is_ascii_ws(#[trigger] s[j]),
        i < s.len() ==> !is_ascii_ws(s[i]),
    ensures
        trim_front(s) == s.skip(i),
    decreases i,
{
    if i == 0 {
        if s.len() > 0 {
            assert(!is_ascii_ws(s[0]));
        }
        assert(s.skip(0) =~= s);
    } else {
        assert(is_ascii_ws(s[0]));
        assert(s.skip(1).len() == s.len() - 1);
        lemma_trim_front_skip(s.skip(1), i - 1);
        assert(s.skip(1).skip(i - 1) =~= s.skip(i));
    }
}

proof fn lemma_trim_back_take(s: Seq<char>, j: int)
    requires
        0 <= j <= s.len(),
        forall|k: int| j <= k < s.len() ==> is_ascii_ws(#[trigger] s[k]),
        j > 0 ==> !is_ascii_ws(s[j - 1]),
    ensures
        trim_back(s) == s.take(j),
    decreases s.len() - j,
{
    if j == s.len() {
        if s.len() > 0 {
            assert(!is_ascii_ws(s.last()));
        }
        assert(s.take(j) =~= s);
    } else {
        assert(is_ascii_ws(s.last()));
        lemma_trim_back_take(s.drop_last(), j);
        assert(s.drop_last().take(j) =~= s.take(j));
    }
}

/// Strip leading and trailing ASCII whitespace.
pub fn trim_ascii<'a>(s: &'a str) -> (r: &'a str)
    ensures
        r@ == trimmed(s@),
{
    let n = s.unicode_len();
    let mut i: usize = 0;
    while i < n
        invariant_except_break
            n == s@.len(),
            i <= n,
            forall|j: int| 0 <= j < i ==> is_ascii_ws(#[trigger] s@[j]),
        ensures
            n == s@.len(),
            i <= n,
            forall|j: int| 0 <= j < i ==> is_ascii_ws(#[trigger] s@[j]),
            i < n ==> !is_ascii_ws(s@[i as int]),
        decreases n - i,
    {
        let c = s.get_char(i);
        if !(c == ' ' || c == '\t' || c == '\n' || c == '\u{b}' || c == '\u{c}' || c == '\r') {
            break ;
        }
        i = i + 1;
    }
    proof {
        lemma_trim_front_skip(s@, i as int);
    }
    if i == n {
        let r = s.substring_char(i, n);
        proof {
            assert(trim_front(s@) =~= Seq::<char>::empty());
            assert(trim_back(Seq::<char>::empty()) =~= Seq::<char>::empty());
            assert(r@ =~= trimmed(s@));
        }
        return r;
    }
    let mut j: usize = n;
    while j > i + 1
        invariant_except_break
            n == s@.len(),
            i < n,
            !is_ascii_ws(s@[i as int]),
            i + 1 <= j <= n,
            forall|k: int| j <= k < n ==> is_ascii_ws(#[trigger] s@[k]),
        ensures
            n == s@.len(),
            i < n,
            !is_ascii_ws(s@[i as int]),
            i + 1 <= j <= n,
            forall|k: int| j <= k < n ==> is_ascii_ws(#[trigger] s@[k]),
            !is_ascii_ws(s@[j - 1]),
        decreases j,
    {
        let c = s.get_char(j - 1);
        if !(c == ' ' || c == '\t' || c == '\n' || c == '\u{b}' || c == '\u{c}' || c == '\r') {
            break ;
        }
        j = j - 1;
    }
    let r = s.substring_char(i, j);
    proof {
        let t = s@.skip(i as int);
        assert(forall|k: int| j - i <= k < t.len() ==> is_ascii_ws(#[trigger] t[k]));
        assert(t[j - i - 1] == s@[j - 1]);
        lemma_trim_back_take(t, j - i);
        assert(t.take(j - i) =~= s@.subrange(i as int, j as int));
        assert(trim_front(s@) == t);
        assert(r@ == trimmed(s@));
    }
    r
}

/// ASCII case-insensitive character equality: equal outright, or the same
/// letter in the two cases.
pub open spec fn eq_ic_char(a: char, b: char) -> bool {
    a == b || ('A' <= a && a <= 'Z' && (a as u32) + 32 == (b as u32)) || ('A' <= b && b <= 'Z' && (
    b as u32) + 32 == (a as u32))
}

/// ASCII case-insensitive string equality.
pub open spec fn eq_ignore_ascii_case(a: Seq<char>, b: Seq<char>) -> bool {
    a.len() == b.len() && forall|i: int| 0 <= i < a.len() ==> eq_ic_char(a[i], #[trigger] b[i])
}

/// Compare two strings ignoring ASCII case.
pub fn str_eq_ignore_ascii_case(a: &str, b: &str) -> (r: bool)
    ensures
        r == eq_ignore_ascii_case(a@, b@),
{
    let na = a.unicode_len();
    let nb = b.unicode_len();
    if na != nb {
        return false;
    }
    let mut i: usize = 0;
    while i < na
        invariant
            na == a@.len(),
            na == b@.len(),
            i <= na,
            forall|j: int| 0 <= j < i ==> eq_ic_char(a@[j], #[trigger] b@[j]),
        decreases na - i,
    {
        let ca = a.get_char(i);
        let cb = b.get_char(i);
        let same = if ca == cb {
            true
        } else {
            let ua = ca as u32;
            let ub = cb as u32;
            (65 <= ua && ua <= 90 && ua + 32 == ub) || (65 <= ub && ub <= 90 && ub + 32 == ua)
        };
        if !same {
            proof {
                assert(!eq_ic_char(a@[i as int], b@[i as int]));
            }
            return false;
        }
        i = i + 1;
    }
    true
}

} // verus!
