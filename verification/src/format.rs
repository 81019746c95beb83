//! Durations as people read them.

use vstd::prelude::*;
use vstd::string::*;

use crate::binary64::{fixed, nearest, quotient, Binary64, Dyadic};
use crate::text::{
    all_digits, append_point, append_signed, decimal, law_decimal_reads_back, law_point_reads_back,
    point_decimal, read_number, shows, signed_decimal,
};

verus! {

/// `a / unit` as binary64 division gives it.
pub open spec fn in_unit(a: nat, unit: nat) -> Dyadic {
    quotient(
        nearest(a, 1),
        nearest(unit, 1),
    )
}

/// The text of a duration: milliseconds with six places, microseconds with
/// three, or plain nanoseconds. A minus sign stands in front of a negative
/// duration; plain nanoseconds carry their own sign behind it.
pub open spec fn nanos_text(nanos: int) -> Seq<char> {
    let a = if nanos < 0 {
        (-nanos) as nat
    } else {
        nanos as nat
    };
    let sign = if nanos < 0 {
        seq!['-']
    } else {
        seq![]
    };
    if a >= 1_000_000 {
        sign + point_decimal(
            fixed(in_unit(a, 1_000_000), 1_000_000),
            6,
        ) + seq!['m', 's']
    } else if a >= 1_000 {
        sign + point_decimal(
            fixed(in_unit(a, 1_000), 1_000),
            3,
        ) + seq!['\u{b5}', 's']
    } else {
        sign + signed_decimal(nanos) + seq!['n', 's']
    }
}

/// A duration of nanoseconds as text.
pub fn format_nanos(nanos: i64) -> (r: String)
    requires
        nanos != i64::MIN,
    ensures
        r@ == nanos_text(nanos as int),
{
    let a: u64 = if nanos < 0 {
        (-nanos) as u64
    } else {
        nanos as u64
    };
    let mut out = String::new();
    proof {
        reveal_strlit("-");
        reveal_strlit("ms");
        reveal_strlit("\u{b5}s");
        reveal_strlit("ns");
    }
    if nanos < 0 {
        out.append("-");
    }
    if a >= 1_000_000 {
        let x = Binary64::from_u64(a).over(Binary64::from_u64(1_000_000));
        append_point(&mut out, x.to_fixed(1_000_000), 6);
        out.append("ms");
    } else if a >= 1_000 {
        let x = Binary64::from_u64(a).over(Binary64::from_u64(1_000));
        append_point(&mut out, x.to_fixed(1_000), 3);
        out.append("\u{b5}s");
    } else {
        append_signed(&mut out, nanos);
        out.append("ns");
    }
    assert(out@ =~= nanos_text(nanos as int));
    out
}

/// Below 2^33 milliseconds (about 99 days) the text of a duration shows each
/// of its digits: nothing is lost to rounding.
pub proof fn law_text_is_exact(nanos: int)
    requires
        -8_589_934_592_000_000 < nanos < 8_589_934_592_000_000,
    ensures
        ({
            let a = if nanos < 0 {
                (-nanos) as nat
            } else {
                nanos as nat
            };
            let sign = if nanos < 0 {
                seq!['-']
            } else {
                seq![]
            };
            &&& a >= 1_000_000 ==> nanos_text(nanos) == sign + point_decimal(a, 6) + seq!['m', 's']
            &&& 1_000 <= a < 1_000_000 ==> nanos_text(nanos) == sign + point_decimal(a, 3) + seq![
                '\u{b5}',
                's',
            ]
        }),
{
    let a = if nanos < 0 {
        (-nanos) as nat
    } else {
        nanos as nat
    };
    if a >= 1_000_000 {
        crate::rounding::lemma_quotient_of_integers(a, 1_000_000);
        crate::rounding::lemma_fixed_shows_all_digits(a, 1_000_000);
    } else if a >= 1_000 {
        crate::rounding::lemma_quotient_of_integers(a, 1_000);
        crate::rounding::lemma_fixed_shows_all_digits(a, 1_000);
    }
}

/// The amount of a duration.
pub open spec fn amount(nanos: int) -> nat {
    if nanos < 0 {
        (-nanos) as nat
    } else {
        nanos as nat
    }
}

/// The text of a duration ends in its unit: milliseconds from a million
/// nanoseconds on, else microseconds from a thousand on, else nanoseconds. In
/// front of the unit stands the amount in that unit, with six, three or no
/// places behind the point, and each digit of it can be read off the text. In
/// front of all stands a minus sign where the duration is negative; plain
/// nanoseconds have two of them.
pub proof fn law_duration_reads_back(nanos: int)
    requires
        -8_589_934_592_000_000 < nanos < 8_589_934_592_000_000,
    ensures
        ({
            let t = nanos_text(nanos);
            let a = amount(nanos);
            let signs = if nanos >= 0 {
                0int
            } else if a < 1_000 {
                2
            } else {
                1
            };
            let number = t.subrange(signs, t.len() - 2);
            &&& t.len() > signs + 2
            &&& forall|i: int| 0 <= i < signs ==> t[i] == '-'
            &&& t.last() == 's'
            &&& a >= 1_000_000 ==> t[t.len() - 2] == 'm' && shows(number, a, 6)
            &&& 1_000 <= a < 1_000_000 ==> t[t.len() - 2] == '\u{b5}' && shows(number, a, 3)
            &&& a < 1_000 ==> t[t.len() - 2] == 'n' && all_digits(number) && read_number(number)
                == a && (number[0] == '0' ==> a == 0)
        }),
{
    let t = nanos_text(nanos);
    let a = amount(nanos);
    law_text_is_exact(nanos);
    law_point_reads_back(a, 6);
    law_point_reads_back(a, 3);
    law_decimal_reads_back(a);
    if a >= 1_000_000 {
        let front = if nanos < 0 {
            1int
        } else {
            0
        };
        assert(t.subrange(front, t.len() - 2) =~= point_decimal(a, 6));
    } else if a >= 1_000 {
        let front = if nanos < 0 {
            1int
        } else {
            0
        };
        assert(t.subrange(front, t.len() - 2) =~= point_decimal(a, 3));
    } else {
        let front = if nanos < 0 {
            2int
        } else {
            0
        };
        assert(t.subrange(front, t.len() - 2) =~= decimal(a));
    }
}

/// However long a duration is, its text shows it in milliseconds to within three
/// microseconds.
pub proof fn law_long_duration_reads_back(nanos: int) -> (shown: nat)
    requires
        8_589_934_592_000_000 <= amount(nanos) <= i64::MAX,
    ensures
        ({
            let t = nanos_text(nanos);
            let signs = if nanos < 0 {
                1int
            } else {
                0
            };
            &&& t.len() > signs + 2
            &&& nanos < 0 ==> t[0] == '-'
            &&& t.last() == 's'
            &&& t[t.len() - 2] == 'm'
            &&& shows(t.subrange(signs, t.len() - 2), shown, 6)
            &&& -3_000 <= shown - amount(nanos) <= 3_000
        }),
{
    let t = nanos_text(nanos);
    let a = amount(nanos);
    let shown = fixed(in_unit(a, 1_000_000), 1_000_000);
    crate::rounding::lemma_fixed_of_long(a);
    law_point_reads_back(shown, 6);
    let signs = if nanos < 0 {
        1int
    } else {
        0
    };
    assert(t.subrange(signs, t.len() - 2) =~= point_decimal(shown, 6));
    shown
}

} // verus!
