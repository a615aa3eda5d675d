//! Numbers are read back as they were written.
use vstd::prelude::*;

use crate::numbers::{
    decimal, digit_char, digit_value, digits, digits_value, hexadecimal, i32_value, usize_value,
};

verus! {

/// A digit as the library writes it.
pub open spec fn is_written_digit(c: char) -> bool {
    '0' <= c <= '9' || 'a' <= c <= 'f'
}

/// The digits of a number are digits, at least one, and stand for the number.
pub proof fn lemma_digits(n: nat, radix: nat)
    requires
        2 <= radix <= 16,
    ensures
        digits(n, radix).len() > 0,
        digits_value(digits(n, radix), radix) == Some(n),
        forall|i: int|
            0 <= i < digits(n, radix).len() ==> is_written_digit(#[trigger] digits(n, radix)[i]),
    decreases n,
{
    reveal_with_fuel(digits_value, 2);
    let s = digits(n, radix);
    if n < radix {
        assert(s.drop_last() =~= seq![]);
        assert(0 * radix == 0) by (nonlinear_arith);
        assert(digit_value(s.last(), radix) == Some(n));
    } else {
        let d = n % radix;
        assert(n / radix < n && d < radix && (n / radix) * radix + d == n) by (nonlinear_arith)
            requires
                radix >= 2,
                n >= radix,
                d == n % radix,
        ;
        lemma_digits(n / radix, radix);
        assert(s.drop_last() =~= digits(n / radix, radix));
        assert(s.last() == digit_char(d as int));
        assert(digit_value(s.last(), radix) == Some(d));
        assert forall|i: int| 0 <= i < s.len() implies is_written_digit(#[trigger] s[i]) by {
            if i < s.len() - 1 {
                assert(s[i] == digits(n / radix, radix)[i]);
            }
        }
    }
}

/// A number that fits is read back from its decimal form.
pub proof fn law_decimal_is_read_back(n: i32)
    ensures
        i32_value(decimal(n as int)) == Some(n as int),
{
    let s = decimal(n as int);
    if n < 0 {
        lemma_digits((-n) as nat, 10);
        assert(s.skip(1) =~= digits((-n) as nat, 10));
    } else {
        lemma_digits(n as nat, 10);
        assert(is_written_digit(s[0]));
    }
}

/// A number that fits is read back from its hexadecimal form.
pub proof fn law_hexadecimal_is_read_back(n: usize)
    ensures
        usize_value(hexadecimal(n as nat), 16) == Some(n as nat),
{
    lemma_digits(n as nat, 16);
    assert(is_written_digit(hexadecimal(n as nat)[0]));
}

/// A number is written digit by digit, from the highest place to the lowest: a number below
/// the base is its digit, and another is what stands for all places but the lowest, followed
/// by the lowest digit. A negative number has a hyphen before it.
pub proof fn law_numbers_are_written_by_places(n: nat, d: nat)
    ensures
        d < 10 ==> decimal(d as int) == seq!["0123456789"@[d as int]],
        d < 10 && n > 0 ==> decimal((10 * n + d) as int) == decimal(n as int) + decimal(d as int),
        n > 0 ==> decimal(-n) == "-"@ + decimal(n as int),
        d < 16 ==> hexadecimal(d) == seq!["0123456789abcdef"@[d as int]],
        d < 16 && n > 0 ==> hexadecimal(16 * n + d) == hexadecimal(n) + hexadecimal(d),
{
    reveal_strlit("0123456789");
    reveal_strlit("0123456789abcdef");
    reveal_strlit("-");
    if d < 10 && n > 0 {
        assert((10 * n + d) / 10 == n && (10 * n + d) % 10 == d);
        assert(decimal((10 * n + d) as int) =~= decimal(n as int) + decimal(d as int));
    }
    if n > 0 {
        assert(decimal(-n) =~= "-"@ + decimal(n as int));
    }
    if d < 16 {
        assert("0123456789abcdef"@[d as int] == digit_char(d as int));
    }
    if d < 16 && n > 0 {
        assert((16 * n + d) / 16 == n && (16 * n + d) % 16 == d);
        assert(hexadecimal(16 * n + d) =~= hexadecimal(n) + hexadecimal(d));
    }
}

/// A hexadecimal numeral is read digit by digit, with letters of either case: one more digit
/// makes sixteen times the number and the digit, as long as that fits. A sign of plus may
/// stand before it. What holds any other character, or no digit, is no numeral.
pub proof fn law_hexadecimal_is_read_by_places(s: Seq<char>, c: char, d: int)
    requires
        0 <= d < 16,
        c == "0123456789abcdef"@[d] || c == "0123456789ABCDEF"@[d],
    ensures
        usize_value(Seq::<char>::empty(), 16) is None,
        usize_value(seq![c], 16) == Some(d as nat),
        match usize_value(s, 16) {
            Some(n) => usize_value(s.push(c), 16) == if 16 * n + d <= usize::MAX {
                Some((16 * n + d) as nat)
            } else {
                None
            },
            None => s.len() > 0 && s != seq!['+'] ==> usize_value(s.push(c), 16) is None,
        },
        s.len() > 0 && s[0] != '+' ==> usize_value(seq!['+'] + s, 16) == usize_value(s, 16),
{
    reveal_strlit("0123456789abcdef");
    reveal_strlit("0123456789ABCDEF");
    reveal_with_fuel(digits_value, 2);
    assert(digit_value(c, 16) == Some(d as nat));
    assert(seq![c].drop_last() =~= seq![]);
    assert(s.push(c).drop_last() =~= s);
    assert((seq!['+'] + s).skip(1) =~= s);
    assert(c != '+');
    let numeral = if s.len() > 0 && s[0] == '+' {
        s.skip(1)
    } else {
        s
    };
    if s.len() > 0 {
        assert(s.push(c)[0] == s[0]);
        if s[0] == '+' {
            assert(s.push(c).skip(1) =~= numeral.push(c));
            if numeral.len() == 0 {
                assert(s =~= seq!['+']);
            }
        }
        assert(numeral.push(c).drop_last() =~= numeral);
    }
}

/// What holds a character that is no digit, but for a sign at its start, is no numeral.
pub proof fn law_other_characters_make_no_numeral(s: Seq<char>, i: int)
    requires
        0 <= i < s.len(),
        !('0' <= s[i] <= '9'),
    ensures
        !('a' <= s[i] <= 'f') && !('A' <= s[i] <= 'F') && (i > 0 || s[i] != '+') ==> usize_value(
            s,
            16,
        ) is None,
        i > 0 || (s[i] != '+' && s[i] != '-') ==> i32_value(s) is None,
{
    if !('a' <= s[i] <= 'f') && !('A' <= s[i] <= 'F') && (i > 0 || s[i] != '+') {
        if s[0] == '+' {
            assert(s.skip(1)[i - 1] == s[i]);
            lemma_no_digit(s.skip(1), 16, i - 1);
        } else {
            lemma_no_digit(s, 16, i);
        }
    }
    if i > 0 || (s[i] != '+' && s[i] != '-') {
        if s[0] == '+' || s[0] == '-' {
            assert(s.skip(1)[i - 1] == s[i]);
            lemma_no_digit(s.skip(1), 10, i - 1);
        } else {
            lemma_no_digit(s, 10, i);
        }
    }
}

/// Digits with another character among them stand for no number.
proof fn lemma_no_digit(s: Seq<char>, radix: nat, i: int)
    requires
        0 <= i < s.len(),
        digit_value(s[i], radix) is None,
    ensures
        digits_value(s, radix) is None,
    decreases s.len(),
{
    if i < s.len() - 1 {
        lemma_no_digit(s.drop_last(), radix, i);
    }
}

/// Decimals are read by places: each further digit counts one and what was read counts ten, as
/// long as the number has room, and a number without room gets none. A sign may stand before.
pub proof fn law_decimals_are_read_by_places(s: Seq<char>, c: char)
    requires
        '0' <= c <= '9',
    ensures
        i32_value(seq![c]) == Some(c as int - 48),
        s.len() > 0 && '0' <= s[0] <= '9' ==> {
            &&& match i32_value(s) {
                Some(v) => i32_value(s.push(c)) == if 10 * v + (c as int - 48) <= i32::MAX {
                    Some(10 * v + (c as int - 48))
                } else {
                    None
                },
                None => i32_value(s.push(c)) is None,
            }
            &&& i32_value(seq!['+'] + s) == i32_value(s)
            &&& match i32_value(s) {
                Some(v) => i32_value(seq!['-'] + s) == Some(-v),
                None => i32_value(seq!['-'] + s) is None || i32_value(seq!['-'] + s) == Some(
                    i32::MIN as int,
                ),
            }
        },
{
    let one = seq![c];
    assert(one.drop_last() =~= seq![]);
    assert(digits_value(one.drop_last(), 10) == Some(0nat));
    assert(digit_value(c, 10) == Some((c as int - 48) as nat));
    if s.len() > 0 && '0' <= s[0] <= '9' {
        assert(s.push(c).drop_last() =~= s);
        assert(s.push(c)[0] == s[0]);
        assert((seq!['+'] + s).skip(1) =~= s);
        assert((seq!['-'] + s).skip(1) =~= s);
    }
}

} // verus!
