//! Numbers written in decimal.

use vstd::prelude::*;

verus! {

/// The bytes of a text that holds ASCII characters only.
pub open spec fn ascii(s: Seq<char>) -> Seq<u8> {
    Seq::new(s.len(), |i: int| s[i] as u8)
}

/// The bytes of a text that holds ASCII characters only.
pub fn ascii_bytes(s: &str) -> (r: &[u8])
    requires
        s.is_ascii(),
    ensures
        r@ == ascii(s@),
{
    let r = s.as_bytes();
    assert(r@ =~= ascii(s@));
    r
}

/// Whether `b` is one of the characters `0` to `9`.
pub open spec fn is_digit(b: u8) -> bool {
    48 <= b <= 57
}

/// The character for a number below ten.
pub open spec fn digit(d: nat) -> u8 {
    (48 + d) as u8
}

/// `n` in decimal, without leading zeros.
pub open spec fn decimal(n: nat) -> Seq<u8>
    decreases n,
{
    if n < 10 {
        seq![digit(n)]
    } else {
        decimal(n / 10).push(digit(n % 10))
    }
}

/// The number that a sequence of digits stands for.
pub open spec fn digits_value(s: Seq<u8>) -> nat
    decreases s.len(),
{
    if s.len() == 0 {
        0
    } else {
        digits_value(s.drop_last()) * 10 + (s.last() - 48) as nat
    }
}

/// Whether every byte of `s` is a digit.
pub open spec fn all_digits(s: Seq<u8>) -> bool {
    forall|i: int| 0 <= i < s.len() ==> is_digit(#[trigger] s[i])
}

/// Whether `s` is how some number is written in decimal.
pub open spec fn is_decimal(s: Seq<u8>) -> bool {
    &&& s.len() > 0
    &&& all_digits(s)
    &&& s.len() > 1 ==> s[0] != 48
}

/// The decimal text of a number is made of digits, does not start with a zero unless the
/// number is zero, and stands for the number.
pub proof fn lemma_decimal(n: nat)
    ensures
        is_decimal(decimal(n)),
        digits_value(decimal(n)) == n,
        n > 0 ==> decimal(n)[0] != 48,
    decreases n,
{
    if n < 10 {
        let s = decimal(n);
        assert(s.drop_last() =~= Seq::<u8>::empty());
        assert(digits_value(s.drop_last()) == 0);
        assert(s.last() == digit(n));
    } else {
        lemma_decimal(n / 10);
        let s = decimal(n);
        assert(s.drop_last() =~= decimal(n / 10));
        assert(s[0] == decimal(n / 10)[0]);
        assert forall|i: int| 0 <= i < s.len() implies is_digit(#[trigger] s[i]) by {
            if i < s.len() - 1 {
                assert(s[i] == decimal(n / 10)[i]);
            }
        }
    }
}

/// A sequence of digits without a leading zero is the decimal text of its value.
pub proof fn lemma_is_decimal(s: Seq<u8>)
    requires
        is_decimal(s),
    ensures
        s == decimal(digits_value(s)),
        s[0] != 48 ==> digits_value(s) > 0,
    decreases s.len(),
{
    let init = s.drop_last();
    assert(is_digit(s.last()));
    if s.len() == 1 {
        assert(digits_value(init) == 0);
        assert(s =~= seq![s[0]]);
        assert(s =~= decimal(digits_value(s)));
    } else {
        assert(all_digits(init)) by {
            assert forall|i: int| 0 <= i < init.len() implies is_digit(#[trigger] init[i]) by {
                assert(init[i] == s[i]);
            }
        }
        assert(init[0] == s[0]);
        lemma_is_decimal(init);
        let d = (s.last() - 48) as nat;
        let n = digits_value(s);
        assert(n == digits_value(init) * 10 + d && d < 10);
        assert(n / 10 == digits_value(init) && n % 10 == d);
        assert(s =~= init.push(s.last()));
        assert(decimal(n) == decimal(n / 10).push(digit(n % 10)));
    }
}

/// More digits never make a smaller number.
pub proof fn lemma_digits_value_grows(s: Seq<u8>, k: int)
    requires
        all_digits(s),
        0 <= k <= s.len(),
    ensures
        digits_value(s.take(k)) <= digits_value(s),
    decreases s.len() - k,
{
    if k == s.len() {
        assert(s.take(k) =~= s);
    } else {
        lemma_digits_value_grows(s, k + 1);
        assert(s.take(k + 1).drop_last() =~= s.take(k));
        assert(s.take(k + 1).last() == s[k]);
        assert(is_digit(s[k]));
    }
}

/// The number below 2^32 of which `s` is the decimal text.
pub open spec fn u32_of(s: Seq<u8>) -> Option<u32> {
    if is_decimal(s) && digits_value(s) <= u32::MAX {
        Some(digits_value(s) as u32)
    } else {
        None
    }
}

/// The 32-bit number of which `s` is the decimal text, with a `-` in front where the
/// number is negative. The text `-0` stands for zero.
pub open spec fn i32_of(s: Seq<u8>) -> Option<i32> {
    if s.len() > 0 && s[0] == '-' as u8 {
        match u32_of(s.drop_first()) {
            Some(v) if v <= 0x8000_0000u32 => Some((0 - v) as i32),
            _ => None,
        }
    } else {
        match u32_of(s) {
            Some(v) if v <= 0x7fff_ffffu32 => Some(v as i32),
            _ => None,
        }
    }
}

/// Reading a decimal number gives back the number that was written, and nothing but a
/// decimal number can be read.
pub proof fn law_u32_round_trip(x: u32, s: Seq<u8>)
    ensures
        u32_of(decimal(x as nat)) == Some(x),
        u32_of(s) == Some(x) <==> s == decimal(x as nat),
{
    lemma_decimal(x as nat);
    if u32_of(s) == Some(x) {
        lemma_is_decimal(s);
    }
}

/// `x` in decimal, with a `-` in front if it is negative.
pub open spec fn signed_decimal(x: int) -> Seq<u8> {
    if x < 0 {
        seq!['-' as u8] + decimal((-x) as nat)
    } else {
        decimal(x as nat)
    }
}

/// Reading a signed decimal number gives back the number that was written.
pub proof fn law_i32_round_trip(x: i32)
    ensures
        i32_of(signed_decimal(x as int)) == Some(x),
{
    if x < 0 {
        let v = (-(x as int)) as nat;
        let s = signed_decimal(x as int);
        assert(s.drop_first() =~= decimal(v));
        lemma_decimal(v);
    } else {
        lemma_decimal(x as nat);
        let s = signed_decimal(x as int);
        assert(is_digit(s[0]));
    }
}

/// The characters `0` to `9` stand for the numbers from zero to nine, and a number is ten times what
/// its digits but the last one stand for, plus the last one. A number that is too large has no value.
pub proof fn law_digits(s: Seq<u8>, v: u32, d: nat)
    requires
        d < 10,
    ensures
        u32_of(seq!["0123456789"@[d as int] as u8]) == Some(d as u32),
        u32_of(s) == Some(v) && v > 0 && v * 10 + d <= u32::MAX ==> u32_of(
            s.push("0123456789"@[d as int] as u8),
        ) == Some((v * 10 + d) as u32),
        u32_of(s) == Some(v) && v * 10 + d > u32::MAX ==> u32_of(
            s.push("0123456789"@[d as int] as u8),
        ) is None,
{
    reveal_strlit("0123456789");
    let c = "0123456789"@[d as int] as u8;
    assert(c == 48 + d);
    let one = seq![c];
    assert(one.drop_last() =~= Seq::<u8>::empty());
    assert(digits_value(one.drop_last()) == 0);
    let t = s.push(c);
    assert(t.drop_last() =~= s);
    if u32_of(s) == Some(v) {
        assert(digits_value(t) == v * 10 + d);
        if v > 0 {
            lemma_is_decimal(s);
            if s.len() == 1 {
                assert(s.drop_last() =~= Seq::<u8>::empty());
                assert(digits_value(s.drop_last()) == 0);
            }
            assert(t[0] == s[0]);
            assert forall|i: int| 0 <= i < t.len() implies is_digit(#[trigger] t[i]) by {
                if i < s.len() {
                    assert(t[i] == s[i]);
                }
            }
        }
    }
}

/// Nothing but digits makes up a number. There is at least one, and where there are more, the first
/// one is not `0`.
pub proof fn law_other_texts_are_no_numbers(s: Seq<u8>, i: int)
    ensures
        s.len() == 0 ==> u32_of(s) is None,
        s.len() > 1 && s[0] == '0' as u8 ==> u32_of(s) is None,
        0 <= i < s.len() && !ascii("0123456789"@).contains(s[i]) ==> u32_of(s) is None,
{
    reveal_strlit("0123456789");
    if 0 <= i < s.len() && !ascii("0123456789"@).contains(s[i]) {
        if is_digit(s[i]) {
            assert(ascii("0123456789"@)[s[i] - 48] == s[i]);
        }
        assert(!is_digit(s[i]));
    }
}

/// A number with a `-` in front is the negative of the number. The numbers are those of 32 bits.
pub proof fn law_signs(s: Seq<u8>, v: u32)
    requires
        u32_of(s) == Some(v),
    ensures
        v < 0x8000_0000 ==> i32_of(s) == Some(v as i32),
        v >= 0x8000_0000 ==> i32_of(s) is None,
        v <= 0x8000_0000 ==> i32_of(seq!['-' as u8] + s) is Some && i32_of(seq!['-' as u8] + s)->0
            == -v,
        v > 0x8000_0000 ==> i32_of(seq!['-' as u8] + s) is None,
{
    let t = seq!['-' as u8] + s;
    assert(t.drop_first() =~= s);
    assert(is_digit(s[0]));
}

/// The text of a number in decimal can be read again, and its characters are those from `0` to `9`.
pub proof fn law_texts_of_numbers(x: u32)
    ensures
        u32_of(ascii(decimal_text(x as nat))) == Some(x),
        decimal_text(x as nat) == Seq::new(
            decimal_text(x as nat).len(),
            |i: int| ascii(decimal_text(x as nat))[i] as char,
        ),
{
    lemma_decimal(x as nat);
    let d = decimal(x as nat);
    let text = decimal_text(x as nat);
    assert forall|i: int| 0 <= i < d.len() implies #[trigger] ascii(text)[i] == d[i] && text[i]
        == d[i] as char by {
        assert(is_digit(d[i]));
    }
    assert(ascii(text) =~= d);
    assert(text =~= Seq::new(text.len(), |i: int| ascii(text)[i] as char));
}

/// Reads an unsigned number, rejecting a leading `+` and leading zeros: in C a number with a
/// leading zero is octal.
pub fn parse_u32(data: &[u8]) -> (r: Option<u32>)
    ensures
        r == u32_of(data@),
{
    if data.len() == 0 {
        return None;
    }
    if data[0] == '0' as u8 && data.len() > 1 {
        return None;
    }
    let mut x: u32 = 0;
    let mut i: usize = 0;
    assert(data@.take(0) =~= Seq::<u8>::empty());
    while i < data.len()
        invariant
            i <= data@.len(),
            data@.len() > 0,
            data@.len() > 1 ==> data@[0] != 48,
            x == digits_value(data@.take(i as int)),
            forall|j: int| 0 <= j < i ==> is_digit(#[trigger] data@[j]),
        decreases data@.len() - i,
    {
        let c = data[i];
        if '0' as u8 <= c && c <= '9' as u8 {
            let ghost next = data@.take(i + 1);
            assert(next.drop_last() =~= data@.take(i as int));
            assert(next.last() == c);
            assert(digits_value(next) == x * 10 + (c - 48));
            proof {
                if all_digits(data@) {
                    lemma_digits_value_grows(data@, i + 1);
                }
            }
            let tens = match x.checked_mul(10) {
                Some(v) => v,
                None => {
                    return None;
                },
            };
            x = match tens.checked_add((c - '0' as u8) as u32) {
                Some(v) => v,
                None => {
                    return None;
                },
            };
        } else {
            assert(!is_digit(data@[i as int]));
            return None;
        }
        i += 1;
    }
    assert(data@.take(i as int) =~= data@);
    Some(x)
}

/// Reads a signed number, rejecting a leading `+` and leading zeros.
pub fn parse_i32(data: &[u8]) -> (r: Option<i32>)
    ensures
        r == i32_of(data@),
{
    if data.len() > 0 && data[0] == '-' as u8 {
        let digits = vstd::slice::slice_subrange(data, 1, data.len());
        assert(digits@ =~= data@.drop_first());
        match parse_u32(digits) {
            Some(v) => if v <= 0x8000_0000u32 {
                Some((-(v as i64)) as i32)
            } else {
                None
            },
            None => None,
        }
    } else {
        match parse_u32(data) {
            Some(v) => if v <= 0x7fff_ffffu32 {
                Some(v as i32)
            } else {
                None
            },
            None => None,
        }
    }
}

/// The characters of `n` in decimal.
pub open spec fn decimal_text(n: nat) -> Seq<char> {
    Seq::new(decimal(n).len(), |i: int| decimal(n)[i] as char)
}

/// The character for a number below ten, as text.
fn digit_text(d: u64) -> (r: &'static str)
    requires
        d < 10,
    ensures
        r@ == seq![digit(d as nat) as char],
{
    proof {
        reveal_strlit("0");
        reveal_strlit("1");
        reveal_strlit("2");
        reveal_strlit("3");
        reveal_strlit("4");
        reveal_strlit("5");
        reveal_strlit("6");
        reveal_strlit("7");
        reveal_strlit("8");
        reveal_strlit("9");
    }
    let r = if d == 0 {
        "0"
    } else if d == 1 {
        "1"
    } else if d == 2 {
        "2"
    } else if d == 3 {
        "3"
    } else if d == 4 {
        "4"
    } else if d == 5 {
        "5"
    } else if d == 6 {
        "6"
    } else if d == 7 {
        "7"
    } else if d == 8 {
        "8"
    } else {
        "9"
    };
    assert(r@ =~= seq![digit(d as nat) as char]);
    r
}

/// The text of `n` in decimal.
pub fn decimal_string(n: u64) -> (r: String)
    ensures
        r@ == decimal_text(n as nat),
    decreases n,
{
    if n < 10 {
        let r = digit_text(n).to_owned();
        assert(r@ =~= decimal_text(n as nat));
        r
    } else {
        let mut r = decimal_string(n / 10);
        r.append(digit_text(n % 10));
        assert(r@ =~= decimal_text(n as nat));
        r
    }
}

/// The text of a number below ten is its digit. That of a greater one is that of what a tenth of it is,
/// with the last digit behind it.
pub proof fn law_decimal_texts(n: nat)
    ensures
        n < 10 ==> decimal_text(n) == seq!["0123456789"@[n as int]],
        n >= 10 ==> decimal_text(n) == decimal_text(n / 10).push("0123456789"@[n as int % 10]),
{
    reveal_strlit("0123456789");
    if n < 10 {
        assert(decimal_text(n) =~= seq!["0123456789"@[n as int]]);
    } else {
        assert(decimal_text(n) =~= decimal_text(n / 10).push("0123456789"@[n as int % 10]));
    }
}

} // verus!
