//! Numbers as text, appended to a `String` piece by piece.

use vstd::prelude::*;
use vstd::string::*;

verus! {

/// The character of a decimal digit.
pub open spec fn digit(d: nat) -> char {
    if d == 0 {
        '0'
    } else if d == 1 {
        '1'
    } else if d == 2 {
        '2'
    } else if d == 3 {
        '3'
    } else if d == 4 {
        '4'
    } else if d == 5 {
        '5'
    } else if d == 6 {
        '6'
    } else if d == 7 {
        '7'
    } else if d == 8 {
        '8'
    } else {
        '9'
    }
}

/// `n` in decimal, without leading zeros.
pub open spec fn decimal(n: nat) -> Seq<char>
    decreases n,
{
    if n < 10 {
        seq![digit(n)]
    } else {
        decimal(n / 10).push(digit(n % 10))
    }
}

/// The last `width` decimal digits of `n`, zeros included.
pub open spec fn padded(n: nat, width: nat) -> Seq<char>
    decreases width,
{
    if width == 0 {
        seq![]
    } else {
        padded(n / 10, (width - 1) as nat).push(digit(n % 10))
    }
}

/// `n` in decimal, with a minus sign where it is negative.
pub open spec fn signed_decimal(n: int) -> Seq<char> {
    if n < 0 {
        seq!['-'] + decimal((-n) as nat)
    } else {
        decimal(n as nat)
    }
}

/// `10^places`.
pub open spec fn ten_to(places: nat) -> nat
    decreases places,
{
    if places == 0 {
        1
    } else {
        10 * ten_to((places - 1) as nat)
    }
}

/// `n / 10^places` in decimal, with exactly `places` digits behind the point.
pub open spec fn point_decimal(n: nat, places: nat) -> Seq<char> {
    decimal(n / ten_to(places)) + seq!['.'] + padded(n % ten_to(places), places)
}

/// Appends one decimal digit.
fn append_digit(out: &mut String, d: u8)
    requires
        d < 10,
    ensures
        final(out)@ == old(out)@.push(digit(d as nat)),
{
    proof {
        reveal_strlit("0");
        reveal_strlit("1");
        reveal_strlit("2");
        reveal_strlit("3");
        reveal_strlit("4");
        reveal_strlit("5");
        reveal_strlit("6");
        reveal_strlit("7");
        reveal_strlit("8");
        reveal_strlit("9");
    }
    let s: &str = match d {
        0 => "0",
        1 => "1",
        2 => "2",
        3 => "3",
        4 => "4",
        5 => "5",
        6 => "6",
        7 => "7",
        8 => "8",
        _ => "9",
    };
    out.append(s);
    assert(out@ =~= old(out)@.push(digit(d as nat)));
}

/// Appends `n` in decimal.
pub fn append_decimal(out: &mut String, n: u128)
    ensures
        final(out)@ == old(out)@ + decimal(n as nat),
    decreases n,
{
    if n >= 10 {
        append_decimal(out, n / 10);
    }
    append_digit(out, (n % 10) as u8);
    assert(out@ =~= old(out)@ + decimal(n as nat));
}

/// Appends the last `width` decimal digits of `n`.
fn append_padded(out: &mut String, n: u128, width: u32)
    ensures
        final(out)@ == old(out)@ + padded(n as nat, width as nat),
    decreases width,
{
    if width > 0 {
        append_padded(out, n / 10, width - 1);
        append_digit(out, (n % 10) as u8);
    }
    assert(out@ =~= old(out)@ + padded(n as nat, width as nat));
}

/// Appends `n` in decimal, with its sign.
pub fn append_signed(out: &mut String, n: i64)
    ensures
        final(out)@ == old(out)@ + signed_decimal(n as int),
{
    if n < 0 {
        proof {
            reveal_strlit("-");
        }
        out.append("-");
        append_decimal(out, (-(n as i128)) as u128);
    } else {
        append_decimal(out, n as u128);
    }
    assert(out@ =~= old(out)@ + signed_decimal(n as int));
}

/// Appends `n / 10^places` with its decimal point.
pub fn append_point(out: &mut String, n: u128, places: u32)
    requires
        places <= 6,
    ensures
        final(out)@ == old(out)@ + point_decimal(n as nat, places as nat),
{
    proof {
        reveal_with_fuel(ten_to, 7);
        reveal_strlit(".");
    }
    let scale: u128 = match places {
        0 => 1,
        1 => 10,
        2 => 100,
        3 => 1_000,
        4 => 10_000,
        5 => 100_000,
        _ => 1_000_000,
    };
    append_decimal(out, n / scale);
    out.append(".");
    append_padded(out, n % scale, places);
    assert(out@ =~= old(out)@ + point_decimal(n as nat, places as nat));
}

/// A decimal digit as a character.
pub open spec fn is_digit(c: char) -> bool {
    '0' <= c <= '9'
}

/// All characters are decimal digits.
pub open spec fn all_digits(text: Seq<char>) -> bool {
    forall|i: int| 0 <= i < text.len() ==> is_digit(#[trigger] text[i])
}

/// The number that a row of digits is read as.
pub open spec fn read_number(text: Seq<char>) -> int
    decreases text.len(),
{
    if text.len() == 0 {
        0
    } else {
        read_number(text.drop_last()) * 10 + (text.last() as int - '0' as int)
    }
}

/// `10^places`.
pub open spec fn power_of_ten(places: nat) -> int {
    vstd::arithmetic::power::pow(10, places)
}

/// The digit of a number below ten is read as that number.
pub proof fn law_digit_reads_back(d: nat)
    requires
        d < 10,
    ensures
        is_digit(digit(d)),
        digit(d) as int - '0' as int == d,
{
}

/// The decimal text of a number is a row of digits that is read as that number,
/// and starts with a zero for zero alone.
pub proof fn law_decimal_reads_back(n: nat)
    ensures
        decimal(n).len() > 0,
        all_digits(decimal(n)),
        read_number(decimal(n)) == n,
        decimal(n)[0] == '0' <==> n == 0,
        n < 10 ==> decimal(n).len() == 1,
    decreases n,
{
    law_digit_reads_back(n % 10);
    if n < 10 {
        assert(decimal(n).drop_last() =~= seq![]);
        assert(read_number(seq![]) == 0);
        law_digit_reads_back(n);
    } else {
        law_decimal_reads_back(n / 10);
        assert(decimal(n).drop_last() =~= decimal(n / 10));
    }
}

/// Different numbers have different decimal texts.
pub proof fn law_decimal_identifies(a: nat, b: nat)
    ensures
        decimal(a) == decimal(b) <==> a == b,
{
    law_decimal_reads_back(a);
    law_decimal_reads_back(b);
}

/// `ten_to` is the power of ten.
pub proof fn law_ten_to(places: nat)
    ensures
        ten_to(places) == power_of_ten(places),
        ten_to(places) > 0,
    decreases places,
{
    reveal(vstd::arithmetic::power::pow);
    if places > 0 {
        law_ten_to((places - 1) as nat);
    }
}

/// A padded text has exactly the digits asked for, and is read as the rest that
/// the number leaves by that power of ten.
pub proof fn law_padded_reads_back(n: nat, width: nat)
    ensures
        padded(n, width).len() == width,
        all_digits(padded(n, width)),
        read_number(padded(n, width)) == n as int % power_of_ten(width),
    decreases width,
{
    law_ten_to(width);
    if width == 0 {
        reveal(vstd::arithmetic::power::pow);
    } else {
        let rest = (width - 1) as nat;
        law_padded_reads_back(n / 10, rest);
        law_digit_reads_back(n % 10);
        law_ten_to(rest);
        let t = ten_to(rest) as int;
        assert(padded(n, width).drop_last() =~= padded(n / 10, rest));
        let q = (n / 10) as int / t;
        let r = (n / 10) as int % t;
        vstd::arithmetic::div_mod::lemma_fundamental_div_mod((n / 10) as int, t);
        vstd::arithmetic::div_mod::lemma_mod_bound((n / 10) as int, t);
        assert(n == q * (10 * t) + (r * 10 + n % 10)) by (nonlinear_arith)
            requires
                (n / 10) as int == t * q + r,
        ;
        vstd::arithmetic::div_mod::lemma_fundamental_div_mod_converse(
            n as int,
            10 * t,
            q,
            r * 10 + n % 10,
        );
    }
}

/// Two rows of digits in a row.
proof fn lemma_read_joined(a: Seq<char>, b: Seq<char>)
    ensures
        read_number(a + b) == read_number(a) * power_of_ten(b.len()) + read_number(b),
    decreases b.len(),
{
    law_ten_to(b.len());
    if b.len() == 0 {
        reveal(vstd::arithmetic::power::pow);
        assert(a + b =~= a);
    } else {
        let rest = b.drop_last();
        lemma_read_joined(a, rest);
        law_ten_to(rest.len());
        assert((a + b).drop_last() =~= a + rest);
        let t = ten_to(rest.len()) as int;
        let x = read_number(a);
        let y = read_number(rest);
        assert((x * t + y) * 10 == x * (10 * t) + y * 10) by (nonlinear_arith);
    }
}

/// `text` shows `n / 10^places` in decimal: digits, a point, exactly `places`
/// digits behind it; without the point the digits are read as `n`. In front of
/// the point stands no zero that is not needed.
pub open spec fn shows(text: Seq<char>, n: nat, places: nat) -> bool {
    let whole = text.take(text.len() - places - 1);
    let behind = text.skip(text.len() - places);
    &&& text.len() >= places + 2
    &&& text[text.len() - places - 1] == '.'
    &&& all_digits(whole)
    &&& all_digits(behind)
    &&& read_number(whole + behind) == n
    &&& whole[0] == '0' ==> whole.len() == 1
}

/// A decimal text with a point shows the number that it is made from.
pub proof fn law_point_reads_back(n: nat, places: nat)
    ensures
        shows(point_decimal(n, places), n, places),
{
    law_ten_to(places);
    let t = ten_to(places) as int;
    let whole = decimal(n / ten_to(places));
    let behind = padded(n % ten_to(places), places);
    let text = point_decimal(n, places);
    law_decimal_reads_back(n / ten_to(places));
    law_padded_reads_back(n % ten_to(places), places);
    assert(text.take(text.len() - places - 1) =~= whole);
    assert(text.skip(text.len() - places) =~= behind);
    lemma_read_joined(whole, behind);
    vstd::arithmetic::div_mod::lemma_fundamental_div_mod(n as int, t);
    vstd::arithmetic::div_mod::lemma_mod_bound(n as int, t);
    vstd::arithmetic::div_mod::lemma_small_mod(n % ten_to(places), ten_to(places));
    assert((n as int / t) * t == t * (n as int / t)) by (nonlinear_arith);
}

/// The decimal text of a number with a sign is that of its amount, behind a minus
/// sign where it is negative.
pub proof fn law_signed_reads_back(n: int)
    ensures
        ({
            let t = signed_decimal(n);
            let digits = if n < 0 {
                t.skip(1)
            } else {
                t
            };
            &&& t.len() > 0
            &&& n < 0 ==> t[0] == '-' && read_number(digits) == -n
            &&& n >= 0 ==> read_number(digits) == n
            &&& digits.len() > 0
            &&& all_digits(digits)
            &&& digits[0] == '0' <==> n == 0
        }),
{
    if n < 0 {
        law_decimal_reads_back((-n) as nat);
        assert(signed_decimal(n).skip(1) =~= decimal((-n) as nat));
    } else {
        law_decimal_reads_back(n as nat);
    }
}

} // verus!
