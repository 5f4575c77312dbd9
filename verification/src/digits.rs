//! Decimal representation of unsigned integers, used to account for the
//! exact serialized width of numeric JSON fields.
use vstd::prelude::*;
use vstd::arithmetic::div_mod::lemma_div_is_ordered;

verus! {

/// The character for one decimal digit.
pub open spec fn digit_char(d: nat) -> char
    recommends
        d < 10,
{
    if d == 0 {
        '0'
    } else if d == 1 {
        '1'
    } else if d == 2 {
        '2'
    } else if d == 3 {
        '3'
    } else if d == 4 {
        '4'
    } else if d == 5 {
        '5'
    } else if d == 6 {
        '6'
    } else if d == 7 {
        '7'
    } else if d == 8 {
        '8'
    } else {
        '9'
    }
}

/// The decimal representation of `n`, most significant digit first,
/// without leading zeros (except for `n == 0` itself).
pub open spec fn dec_rep(n: nat) -> Seq<char>
    decreases n,
{
    if n < 10 {
        seq![digit_char(n)]
    } else {
        dec_rep(n / 10).push(digit_char(n % 10))
    }
}

/// Number of decimal digits of `n`.
pub open spec fn dec_len(n: nat) -> nat {
    dec_rep(n).len()
}

pub open spec fn is_digit_char(c: char) -> bool {
    c == '0' || c == '1' || c == '2' || c == '3' || c == '4' || c == '5' || c == '6' || c == '7'
        || c == '8' || c == '9'
}

pub proof fn lemma_dec_rep_digits(n: nat)
    ensures
        dec_len(n) >= 1,
        forall|i: int| 0 <= i < dec_rep(n).len() ==> is_digit_char(#[trigger] dec_rep(n)[i]),
    decreases n,
{
    if n >= 10 {
        lemma_dec_rep_digits(n / 10);
    }
}

/// More digits are never needed for a smaller number.
pub proof fn lemma_dec_len_mono(m: nat, n: nat)
    requires
        m <= n,
    ensures
        dec_len(m) <= dec_len(n),
    decreases n,
{
    if m >= 10 {
        lemma_div_is_ordered(m as int, n as int, 10);
        lemma_dec_len_mono(m / 10, n / 10);
    } else if n >= 10 {
        lemma_dec_rep_digits(n / 10);
    }
}

fn digit_str(d: usize) -> (s: &'static str)
    requires
        d < 10,
    ensures
        s@ == seq![digit_char(d as nat)],
{
    proof {
        reveal_strlit("0");
        reveal_strlit("1");
        reveal_strlit("2");
        reveal_strlit("3");
        reveal_strlit("4");
        reveal_strlit("5");
        reveal_strlit("6");
        reveal_strlit("7");
        reveal_strlit("8");
        reveal_strlit("9");
    }
    if d == 0 {
        "0"
    } else if d == 1 {
        "1"
    } else if d == 2 {
        "2"
    } else if d == 3 {
        "3"
    } else if d == 4 {
        "4"
    } else if d == 5 {
        "5"
    } else if d == 6 {
        "6"
    } else if d == 7 {
        "7"
    } else if d == 8 {
        "8"
    } else {
        "9"
    }
}

/// Render `n` in decimal.
pub fn usize_to_dec(n: usize) -> (s: String)
    ensures
        s@ == dec_rep(n as nat),
    decreases n,
{
    if n < 10 {
        digit_str(n).to_owned()
    } else {
        let mut s = usize_to_dec(n / 10);
        s.append(digit_str(n % 10));
        proof {
            assert(s@ == dec_rep((n / 10) as nat).push(digit_char((n % 10) as nat)));
        }
        s
    }
}

/// Decimal representations are ASCII.
pub proof fn lemma_dec_rep_ascii(n: nat)
    ensures
        vstd::utf8::is_ascii_chars(dec_rep(n)),
{
    lemma_dec_rep_digits(n);
    assert forall|i: int| 0 <= i < dec_rep(n).len() implies '\0' <= #[trigger] dec_rep(n)[i]
        <= '\u{7f}' by {
        assert(is_digit_char(dec_rep(n)[i]));
    }
}

/// One more than `n` needs at most one more digit.
pub proof fn lemma_dec_len_succ(n: nat)
    ensures
        dec_len((n + 1) as nat) <= dec_len(n) + 1,
{
    if n + 1 < 10 {
        lemma_dec_rep_digits(n);
    } else {
        vstd::arithmetic::div_mod::lemma_div_is_ordered(n as int + 1, 10 * (n as int), 10);
        vstd::arithmetic::div_mod::lemma_div_multiples_vanish(n as int, 10);
        lemma_dec_len_mono((((n + 1) as nat) / 10) as nat, n);
    }
}

/// A multi-digit decimal representation never starts with zero.
pub proof fn lemma_dec_rep_no_leading_zero(n: nat)
    ensures
        dec_rep(n).len() > 1 ==> dec_rep(n)[0] != '0',
    decreases n,
{
    if n >= 10 {
        lemma_dec_rep_no_leading_zero(n / 10);
        assert(dec_rep(n)[0] == dec_rep(n / 10)[0]);
        if dec_rep(n / 10).len() == 1 {
            if n / 10 >= 10 {
                lemma_dec_rep_digits((n / 10) / 10);
                assert(dec_rep(n / 10).len() >= 2);
            }
            assert(1 <= n / 10 < 10);
            assert(dec_rep(n / 10)[0] == digit_char(n / 10));
        }
    }
}

} // verus!
