//! Signed 64-bit integers written as decimal text.
//!
//! The wire format carries sequence numbers and counts as decimal text, and
//! so do the values of counters kept in the store. A number is an optional
//! sign (`+` or `-`) followed by at least one digit; leading zeros are
//! allowed when reading and never produced when writing.

use vstd::prelude::*;
use vstd::string::*;

verus! {

/// True for the ten decimal digits.
pub open spec fn is_digit(c: char) -> bool {
    '0' <= c && c <= '9'
}

/// The number a digit stands for.
pub open spec fn digit_value(c: char) -> int {
    c as u32 as int - 48
}

/// The digit that stands for `d`, for `d` below ten.
pub open spec fn digit_char(d: int) -> char {
    (d + 48) as u8 as char
}

/// True when every character of `s` is a digit.
pub open spec fn all_digits(s: Seq<char>) -> bool {
    forall|i: int| 0 <= i < s.len() ==> is_digit(#[trigger] s[i])
}

/// The number written by a run of digits, most significant first.
pub open spec fn digits_value(s: Seq<char>) -> nat
    decreases s.len(),
{
    if s.len() == 0 {
        0
    } else {
        (digits_value(s.drop_last()) * 10 + digit_value(s.last())) as nat
    }
}

/// True when `s` starts with a sign.
pub open spec fn has_sign(s: Seq<char>) -> bool {
    s.len() > 0 && (s[0] == '-' || s[0] == '+')
}

/// What follows the sign, or all of `s` when it has none.
pub open spec fn magnitude_text(s: Seq<char>) -> Seq<char> {
    if has_sign(s) {
        s.drop_first()
    } else {
        s
    }
}

/// True when `s` is an optional sign followed by one or more digits.
pub open spec fn is_decimal(s: Seq<char>) -> bool {
    magnitude_text(s).len() > 0 && all_digits(magnitude_text(s))
}

/// The integer that a decimal text stands for.
pub open spec fn signed_value(s: Seq<char>) -> int {
    if s.len() > 0 && s[0] == '-' {
        -(digits_value(magnitude_text(s)) as int)
    } else {
        digits_value(magnitude_text(s)) as int
    }
}

/// The 64-bit integer written by `s`: `None` when `s` is not a decimal
/// number or the number does not fit.
pub open spec fn parsed(s: Seq<char>) -> Option<i64> {
    if is_decimal(s) && i64::MIN <= signed_value(s) <= i64::MAX {
        Some(signed_value(s) as i64)
    } else {
        None
    }
}

/// The digits of `n`, most significant first, without leading zeros.
pub open spec fn nat_text(n: nat) -> Seq<char>
    decreases n,
{
    if n < 10 {
        seq![digit_char(n as int)]
    } else {
        nat_text(n / 10).push(digit_char((n % 10) as int))
    }
}

/// The decimal text of `x`: a minus sign for negative numbers, then the
/// digits of its magnitude.
pub open spec fn int_text(x: int) -> Seq<char> {
    if x < 0 {
        seq!['-'] + nat_text((-x) as nat)
    } else {
        nat_text(x as nat)
    }
}

/// The digits of a natural number are digits, and read back as that number.
pub proof fn lemma_nat_text(n: nat)
    ensures
        nat_text(n).len() > 0,
        all_digits(nat_text(n)),
        digits_value(nat_text(n)) == n,
    decreases n,
{
    if n < 10 {
        let s = nat_text(n);
        assert(s.drop_last() =~= Seq::<char>::empty());
        assert(digits_value(s.drop_last()) == 0);
    } else {
        lemma_nat_text(n / 10);
        let s = nat_text(n);
        assert(s.drop_last() =~= nat_text(n / 10));
    }
}

/// Reading what was written gives the number back.
pub proof fn lemma_parse_int_text(x: int)
    requires
        i64::MIN <= x <= i64::MAX,
    ensures
        parsed(int_text(x)) == Some(x as i64),
{
    let s = int_text(x);
    if x < 0 {
        lemma_nat_text((-x) as nat);
        assert(s.drop_first() =~= nat_text((-x) as nat));
    } else {
        lemma_nat_text(x as nat);
    }
}

/// The text of a number holds only digits and the minus sign.
pub proof fn lemma_int_text_chars(x: int)
    ensures
        forall|i: int|
            0 <= i < int_text(x).len() ==> is_digit(#[trigger] int_text(x)[i]) || int_text(x)[i]
                == '-',
{
    if x < 0 {
        lemma_nat_text((-x) as nat);
    } else {
        lemma_nat_text(x as nat);
    }
}

/// A prefix of a run of digits writes a number no larger than the whole run.
proof fn lemma_prefix_value(s: Seq<char>, k: int)
    requires
        0 <= k <= s.len(),
        all_digits(s),
    ensures
        digits_value(s.subrange(0, k)) <= digits_value(s),
    decreases s.len(),
{
    if k == s.len() {
        assert(s.subrange(0, k) =~= s);
    } else {
        let front = s.drop_last();
        assert(front.subrange(0, k) =~= s.subrange(0, k));
        assert(is_digit(s[s.len() - 1]));
        lemma_prefix_value(front, k);
    }
}

/// A text with a character outside ASCII is not a decimal number.
proof fn lemma_decimal_is_ascii(s: Seq<char>)
    requires
        is_decimal(s),
    ensures
        vstd::utf8::is_ascii_chars(s),
{
    let body = magnitude_text(s);
    assert forall|i: int| 0 <= i < s.len() implies '\0' <= #[trigger] s[i] <= '\u{7f}' by {
        if has_sign(s) {
            if i > 0 {
                assert(is_digit(body[i - 1]));
            }
        } else {
            assert(is_digit(body[i]));
        }
    }
}

/// Reads a decimal number: an optional sign, then one or more digits, with a
/// value that fits in 64 bits. Anything else gives `None`.
pub fn parse_i64(s: &str) -> (r: Option<i64>)
    ensures
        r == parsed(s@),
{
    if !s.is_ascii() {
        proof {
            if is_decimal(s@) {
                lemma_decimal_is_ascii(s@);
            }
        }
        return None;
    }
    let bytes = s.as_bytes();
    proof {
        is_ascii_spec_bytes(s);
    }
    let n = bytes.len();
    if n == 0 {
        return None;
    }
    let negative = bytes[0] == 45;
    let start: usize = if bytes[0] == 45 || bytes[0] == 43 {
        1
    } else {
        0
    };
    assert(has_sign(s@) <==> start == 1);
    assert(magnitude_text(s@) =~= s@.subrange(start as int, n as int));
    if start == n {
        return None;
    }
    let limit: u64 = if negative {
        9223372036854775808
    } else {
        9223372036854775807
    };
    let ghost body = magnitude_text(s@);
    let mut acc: u64 = 0;
    let mut i: usize = start;
    assert(body.subrange(0, 0) =~= Seq::<char>::empty());
    while i < n
        invariant
            start <= i <= n,
            n == s@.len(),
            n == bytes@.len(),
            forall|j: int| 0 <= j < n ==> bytes@[j] == s@[j] as u8,
            vstd::utf8::is_ascii_chars(s@),
            body == magnitude_text(s@),
            body == s@.subrange(start as int, n as int),
            all_digits(body.subrange(0, i - start)),
            acc == digits_value(body.subrange(0, i - start)),
            acc <= limit,
            negative <==> s@[0] == '-',
            limit == if negative {
                9223372036854775808u64
            } else {
                9223372036854775807u64
            },
        decreases n - i,
    {
        let b = bytes[i];
        assert(b == s@[i as int] as u8);
        assert(s@[i as int] == body[i - start]);
        if b < 48 || b > 57 {
            assert(!is_digit(body[i - start]));
            return None;
        }
        let d = (b - 48) as u64;
        let ghost next = body.subrange(0, i - start + 1);
        assert(next.drop_last() =~= body.subrange(0, i - start));
        assert(digits_value(next) == acc * 10 + d);
        if acc > (limit - d) / 10 {
            proof {
                if all_digits(body) {
                    lemma_prefix_value(body, i - start + 1);
                }
            }
            return None;
        }
        acc = acc * 10 + d;
        i += 1;
    }
    assert(body.subrange(0, n - start) =~= body);
    if negative {
        if acc == 9223372036854775808 {
            Some(i64::MIN)
        } else {
            Some(-(acc as i64))
        }
    } else {
        Some(acc as i64)
    }
}

/// The one-character text of a digit.
fn digit_text(d: u64) -> (t: &'static str)
    requires
        d < 10,
    ensures
        t@ == seq![digit_char(d as int)],
{
    proof {
        reveal_strlit("0");
        reveal_strlit("1");
        reveal_strlit("2");
        reveal_strlit("3");
        reveal_strlit("4");
        reveal_strlit("5");
        reveal_strlit("6");
        reveal_strlit("7");
        reveal_strlit("8");
        reveal_strlit("9");
    }
    let t = if d == 0 {
        "0"
    } else if d == 1 {
        "1"
    } else if d == 2 {
        "2"
    } else if d == 3 {
        "3"
    } else if d == 4 {
        "4"
    } else if d == 5 {
        "5"
    } else if d == 6 {
        "6"
    } else if d == 7 {
        "7"
    } else if d == 8 {
        "8"
    } else {
        "9"
    };
    assert(t@ =~= seq![digit_char(d as int)]);
    t
}

/// Appends the digits of `n` to `out`.
fn push_nat(out: &mut String, n: u64)
    ensures
        final(out)@ == old(out)@ + nat_text(n as nat),
    decreases n,
{
    if n >= 10 {
        push_nat(out, n / 10);
    }
    out.append(digit_text(n % 10));
    assert(final(out)@ =~= old(out)@ + nat_text(n as nat));
}

/// Writes `n` as decimal text.
pub fn format_u64(n: u64) -> (s: String)
    ensures
        s@ == int_text(n as int),
{
    let mut out = String::new();
    push_nat(&mut out, n);
    assert(out@ =~= int_text(n as int));
    out
}

/// Writes `x` as decimal text.
pub fn format_i64(x: i64) -> (s: String)
    ensures
        s@ == int_text(x as int),
{
    let mut out = String::new();
    if x < 0 {
        proof {
            reveal_strlit("-");
        }
        out.append("-");
        let magnitude: u64 = (-(x + 1)) as u64 + 1;
        push_nat(&mut out, magnitude);
        assert(out@ =~= int_text(x as int));
    } else {
        push_nat(&mut out, x as u64);
        assert(out@ =~= int_text(x as int));
    }
    out
}

} // verus!
