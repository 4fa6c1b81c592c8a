//! Decimal integers: reading them from text as `str::parse` does, and writing them.
use vstd::prelude::*;
use crate::text::{chars_of, push_char};

verus! {

pub open spec fn is_digit(c: char) -> bool {
    '0' <= c && c <= '9'
}

pub open spec fn digit_value(c: char) -> nat {
    (c as int - '0' as int) as nat
}

pub open spec fn all_digits(s: Seq<char>) -> bool {
    forall|i: int| 0 <= i < s.len() ==> #[trigger] is_digit(s[i])
}

/// The value of a string of decimal digits, most significant first.
pub open spec fn digits_value(s: Seq<char>) -> nat
    decreases s.len(),
{
    if s.len() == 0 {
        0
    } else {
        10 * digits_value(s.drop_last()) + digit_value(s.last())
    }
}

/// What `str::parse` gives for an unsigned integer type whose largest value is `max`:
/// an optional `+`, then one or more decimal digits whose value is at most `max`.
pub open spec fn parse_unsigned(s: Seq<char>, max: int) -> Option<int> {
    let body = if s.len() > 0 && s[0] == '+' {
        s.drop_first()
    } else {
        s
    };
    if body.len() > 0 && all_digits(body) && digits_value(body) <= max {
        Some(digits_value(body) as int)
    } else {
        None
    }
}

/// What `str::parse` gives for a signed integer type ranging over `min..=max`:
/// a `-` followed by digits, or the unsigned form.
pub open spec fn parse_signed(s: Seq<char>, min: int, max: int) -> Option<int> {
    if s.len() > 0 && s[0] == '-' {
        let body = s.drop_first();
        if body.len() > 0 && all_digits(body) && -digits_value(body) >= min {
            Some(-digits_value(body))
        } else {
            None
        }
    } else {
        parse_unsigned(s, max)
    }
}

pub open spec fn digit_char(d: nat) -> char {
    if d == 0 {
        '0'
    } else if d == 1 {
        '1'
    } else if d == 2 {
        '2'
    } else if d == 3 {
        '3'
    } else if d == 4 {
        '4'
    } else if d == 5 {
        '5'
    } else if d == 6 {
        '6'
    } else if d == 7 {
        '7'
    } else if d == 8 {
        '8'
    } else {
        '9'
    }
}

/// The decimal text of `n`, as `{}` formats an unsigned integer.
pub open spec fn decimal(n: nat) -> Seq<char>
    decreases n,
{
    if n < 10 {
        seq![digit_char(n)]
    } else {
        decimal(n / 10).push(digit_char(n % 10))
    }
}

/// The decimal text of `v`, as `{}` formats a signed integer.
pub open spec fn signed_decimal(v: int) -> Seq<char> {
    if v < 0 {
        seq!['-'] + decimal((-v) as nat)
    } else {
        decimal(v as nat)
    }
}

/// The value of a prefix of a digit string is at most the value of the whole.
proof fn lemma_digits_prefix_le(s: Seq<char>, k: int)
    requires
        all_digits(s),
        0 <= k <= s.len(),
    ensures
        digits_value(s.take(k)) <= digits_value(s),
    decreases s.len(),
{
    if k < s.len() {
        let p = s.drop_last();
        assert(all_digits(p)) by {
            assert forall|i: int| 0 <= i < p.len() implies #[trigger] is_digit(p[i]) by {
                assert(p[i] == s[i]);
            }
        }
        lemma_digits_prefix_le(p, k);
        assert(p.take(k) =~= s.take(k));
    } else {
        assert(s.take(k) =~= s);
    }
}

proof fn lemma_digit_char(d: nat)
    requires
        d < 10,
    ensures
        is_digit(digit_char(d)),
        digit_value(digit_char(d)) == d,
{
}

/// The decimal text of `n` is a non-empty string of digits whose value is `n`.
pub proof fn lemma_decimal(n: nat)
    ensures
        decimal(n).len() > 0,
        all_digits(decimal(n)),
        digits_value(decimal(n)) == n,
    decreases n,
{
    if n < 10 {
        lemma_digit_char(n);
        let s = decimal(n);
        assert(s.drop_last() =~= Seq::<char>::empty());
        assert(digits_value(s.drop_last()) == 0);
        assert(s.last() == digit_char(n));
        assert(digits_value(s) == n);
    } else {
        lemma_decimal(n / 10);
        lemma_digit_char(n % 10);
        let s = decimal(n);
        assert(s.drop_last() =~= decimal(n / 10));
        assert(s.last() == digit_char(n % 10));
        assert(n == 10 * (n / 10) + n % 10);
        assert(digits_value(s) == 10 * digits_value(decimal(n / 10)) + digit_value(digit_char(n % 10)));
        assert forall|i: int| 0 <= i < s.len() implies #[trigger] is_digit(s[i]) by {
            if i < s.len() - 1 {
                assert(s[i] == decimal(n / 10)[i]);
            }
        }
    }
}

/// The decimal text of a number holds only digits.
pub proof fn lemma_decimal_without(n: nat, c: char)
    requires
        !is_digit(c),
    ensures
        !decimal(n).contains(c),
{
    lemma_decimal(n);
    if decimal(n).contains(c) {
        let k = choose|k: int| 0 <= k < decimal(n).len() && decimal(n)[k] == c;
        assert(is_digit(decimal(n)[k]));
    }
}

/// The decimal text of a signed number holds only digits and a minus sign.
pub proof fn lemma_signed_decimal_without(v: int, c: char)
    requires
        !is_digit(c),
        c != '-',
    ensures
        !signed_decimal(v).contains(c),
{
    if v < 0 {
        lemma_decimal_without((-v) as nat, c);
        let s = signed_decimal(v);
        if s.contains(c) {
            let k = choose|k: int| 0 <= k < s.len() && s[k] == c;
            assert(k > 0);
            assert(s[k] == decimal((-v) as nat)[k - 1]);
        }
    } else {
        lemma_decimal_without(v as nat, c);
    }
}

proof fn lemma_digit_char_of_value(c: char)
    requires
        is_digit(c),
    ensures
        digit_value(c) < 10,
        digit_char(digit_value(c)) == c,
{
    let d = digit_value(c);
    if d == 0 {
        assert(c == '0');
    } else if d == 1 {
        assert(c == '1');
    } else if d == 2 {
        assert(c == '2');
    } else if d == 3 {
        assert(c == '3');
    } else if d == 4 {
        assert(c == '4');
    } else if d == 5 {
        assert(c == '5');
    } else if d == 6 {
        assert(c == '6');
    } else if d == 7 {
        assert(c == '7');
    } else if d == 8 {
        assert(c == '8');
    } else {
        assert(c == '9');
    }
}

/// The decimal text of `n` is written without leading zeros: it is "0" for zero, and
/// otherwise starts with a digit other than '0'.
pub proof fn law_decimal_no_leading_zero(n: nat)
    ensures
        n == 0 ==> decimal(n) == seq!['0'],
        n > 0 ==> decimal(n).len() > 0 && decimal(n)[0] != '0',
    decreases n,
{
    if n >= 10 {
        law_decimal_no_leading_zero(n / 10);
        assert(decimal(n)[0] == decimal(n / 10)[0]);
    }
}

/// The decimal text of `n` is the only string of digits without a leading zero whose
/// value is `n`: `{}` writes the shortest digit string of a number.
pub proof fn law_decimal_unique(s: Seq<char>)
    requires
        s.len() > 0,
        all_digits(s),
        s.len() == 1 || s[0] != '0',
    ensures
        decimal(digits_value(s)) == s,
    decreases s.len(),
{
    let n = digits_value(s);
    let c = s.last();
    assert(is_digit(s[s.len() - 1]));
    lemma_digit_char_of_value(c);
    if s.len() == 1 {
        assert(s.drop_last() =~= Seq::<char>::empty());
        assert(digits_value(s.drop_last()) == 0);
        assert(n == 10 * digits_value(s.drop_last()) + digit_value(c));
        assert(n == digit_value(c));
        assert(decimal(n) =~= s);
    } else {
        let p = s.drop_last();
        assert(all_digits(p)) by {
            assert forall|i: int| 0 <= i < p.len() implies #[trigger] is_digit(p[i]) by {
                assert(p[i] == s[i]);
            }
        }
        assert(p[0] == s[0]);
        law_decimal_unique(p);
        let q = digits_value(p);
        law_decimal_no_leading_zero(q);
        assert(q > 0) by {
            if q == 0 {
                assert(decimal(q) == p);
                assert(p[0] == '0');
            }
        }
        assert(n == 10 * q + digit_value(c));
        assert(n / 10 == q);
        assert(n % 10 == digit_value(c));
        assert(decimal(n) == decimal(q).push(digit_char(digit_value(c))));
        assert(decimal(n) =~= s);
    }
}

/// A number written in decimal reads back as the same number.
pub proof fn law_unsigned_roundtrip(n: nat, max: int)
    requires
        n <= max,
    ensures
        parse_unsigned(decimal(n), max) == Some(n as int),
{
    lemma_decimal(n);
    assert(is_digit(decimal(n)[0]));
}

/// A signed number written in decimal reads back as the same number.
pub proof fn law_signed_roundtrip(v: int, min: int, max: int)
    requires
        min <= v <= max,
    ensures
        parse_signed(signed_decimal(v), min, max) == Some(v),
{
    if v < 0 {
        lemma_decimal((-v) as nat);
        let s = signed_decimal(v);
        assert(s.drop_first() =~= decimal((-v) as nat));
    } else {
        lemma_decimal(v as nat);
        assert(is_digit(decimal(v as nat)[0]));
        law_unsigned_roundtrip(v as nat, max);
    }
}

/// The value of the digits `chars[from..]`, when they are all digits, there is at
/// least one of them and the value is at most `max`.
fn digits_value_at_most(chars: &Vec<char>, from: usize, max: u128) -> (r: Option<u128>)
    requires
        from <= chars.len(),
    ensures
        ({
            let body = chars@.skip(from as int);
            if body.len() > 0 && all_digits(body) && digits_value(body) <= max {
                r == Some(digits_value(body) as u128)
            } else {
                r is None
            }
        }),
{
    let ghost body = chars@.skip(from as int);
    if from == chars.len() {
        return None;
    }
    let mut acc: u128 = 0;
    let mut i: usize = from;
    while i < chars.len()
        invariant
            from <= i <= chars.len(),
            body == chars@.skip(from as int),
            all_digits(body.take(i - from)),
            acc as int == digits_value(body.take(i - from)),
            acc <= max,
        decreases chars.len() - i,
    {
        let c = chars[i];
        let ghost k = i - from;
        assert(body[k] == c);
        if !(c >= '0' && c <= '9') {
            assert(!is_digit(body[k]));
            return None;
        }
        let d = (c as u32 - '0' as u32) as u128;
        assert(d == digit_value(c));
        let ghost next = body.take(k + 1);
        assert(next.drop_last() =~= body.take(k));
        assert(next.last() == c);
        assert(all_digits(next)) by {
            assert forall|j: int| 0 <= j < next.len() implies #[trigger] is_digit(next[j]) by {
                if j < k {
                    assert(next[j] == body.take(k)[j]);
                }
            }
        }
        let grown = match acc.checked_mul(10) {
            Some(t) => t.checked_add(d),
            None => None,
        };
        match grown {
            Some(v) => {
                if v > max {
                    proof {
                        if all_digits(body) {
                            lemma_digits_prefix_le(body, k + 1);
                        }
                    }
                    return None;
                }
                acc = v;
            },
            None => {
                proof {
                    if all_digits(body) {
                        lemma_digits_prefix_le(body, k + 1);
                    }
                }
                return None;
            },
        }
        i = i + 1;
    }
    assert(body.take(chars.len() - from) =~= body);
    Some(acc)
}

/// Reads `s` as `str::parse` reads an unsigned integer type whose largest value is `max`.
pub fn parse_unsigned_text(s: &str, max: u128) -> (r: Option<u128>)
    ensures
        match parse_unsigned(s@, max as int) {
            Some(v) => r == Some(v as u128),
            None => r is None,
        },
{
    let chars = chars_of(s);
    let from: usize = if chars.len() > 0 && chars[0] == '+' {
        1
    } else {
        0
    };
    assert(chars@.skip(from as int) =~= (if s@.len() > 0 && s@[0] == '+' {
        s@.drop_first()
    } else {
        s@
    }));
    digits_value_at_most(&chars, from, max)
}

/// Reads `s` as `str::parse` reads a signed integer type ranging over `min..=max`.
pub fn parse_signed_text(s: &str, min: i128, max: i128) -> (r: Option<i128>)
    requires
        min < 0 <= max,
    ensures
        match parse_signed(s@, min as int, max as int) {
            Some(v) => r == Some(v as i128),
            None => r is None,
        },
{
    let chars = chars_of(s);
    if chars.len() > 0 && chars[0] == '-' {
        assert(chars@.skip(1) =~= s@.drop_first());
        let below: i128 = -(min + 1);
        let limit: u128 = below as u128 + 1;
        assert(limit as int == -(min as int));
        match digits_value_at_most(&chars, 1, limit) {
            Some(m) => {
                if m == limit {
                    Some(min)
                } else {
                    Some(-(m as i128))
                }
            },
            None => None,
        }
    } else {
        let from: usize = if chars.len() > 0 && chars[0] == '+' {
            1
        } else {
            0
        };
        assert(chars@.skip(from as int) =~= (if s@.len() > 0 && s@[0] == '+' {
            s@.drop_first()
        } else {
            s@
        }));
        match digits_value_at_most(&chars, from, max as u128) {
            Some(m) => Some(m as i128),
            None => None,
        }
    }
}

fn digit_char_exec(d: u8) -> (c: char)
    requires
        d < 10,
    ensures
        c == digit_char(d as nat),
{
    match d {
        0 => '0',
        1 => '1',
        2 => '2',
        3 => '3',
        4 => '4',
        5 => '5',
        6 => '6',
        7 => '7',
        8 => '8',
        _ => '9',
    }
}

/// Appends the decimal text of `n`.
pub fn push_decimal(out: &mut String, n: u128)
    ensures
        final(out)@ == old(out)@ + decimal(n as nat),
    decreases n,
{
    if n >= 10 {
        push_decimal(out, n / 10);
    }
    push_char(out, digit_char_exec((n % 10) as u8));
    assert(out@ =~= old(out)@ + decimal(n as nat));
}

/// Appends the decimal text of the signed number `v`.
pub fn push_signed_decimal(out: &mut String, v: i128)
    ensures
        final(out)@ == old(out)@ + signed_decimal(v as int),
{
    if v < 0 {
        push_char(out, '-');
        let m: u128 = (-(v + 1)) as u128 + 1;
        push_decimal(out, m);
        assert(out@ =~= old(out)@ + signed_decimal(v as int));
    } else {
        push_decimal(out, v as u128);
    }
}

/// The decimal text of `n`.
pub fn decimal_text(n: u128) -> (s: String)
    ensures
        s@ == decimal(n as nat),
{
    let mut s = String::new();
    push_decimal(&mut s, n);
    assert(s@ =~= decimal(n as nat));
    s
}

/// The decimal text of the signed number `v`.
pub fn signed_decimal_text(v: i128) -> (s: String)
    ensures
        s@ == signed_decimal(v as int),
{
    let mut s = String::new();
    push_signed_decimal(&mut s, v);
    assert(s@ =~= signed_decimal(v as int));
    s
}

} // verus!
