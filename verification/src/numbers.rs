//! Numbers written out as text, and text read as numbers.
use vstd::prelude::*;
use vstd::slice::slice_subrange;

use crate::text::string_of;

verus! {

/// The character for the digit `d` in a number system of up to sixteen digits.
pub open spec fn digit_char(d: int) -> char {
    if d < 10 {
        (48 + d) as char
    } else {
        (87 + d) as char
    }
}

/// The digits of `n` in the number system of base `radix`, without leading zeros.
pub open spec fn digits(n: nat, radix: nat) -> Seq<char>
    decreases n,
    when radix >= 2
{
    if n < radix {
        seq![digit_char(n as int)]
    } else {
        proof {
            assert(n / radix < n) by (nonlinear_arith)
                requires
                    radix >= 2,
                    n >= radix,
            ;
        }
        digits(n / radix, radix).push(digit_char((n % radix) as int))
    }
}

/// The decimal form of a number.
pub open spec fn decimal(n: int) -> Seq<char> {
    if n < 0 {
        seq!['-'] + digits((-n) as nat, 10)
    } else {
        digits(n as nat, 10)
    }
}

/// The hexadecimal form of a number, with lower-case letters.
pub open spec fn hexadecimal(n: nat) -> Seq<char> {
    digits(n, 16)
}

/// The value of a digit: `0` to `9`, and letters of either case from ten on.
pub open spec fn digit_value(c: char, radix: nat) -> Option<nat> {
    let v = if '0' <= c <= '9' {
        c as int - '0' as int
    } else if 'a' <= c <= 'z' {
        c as int - 'a' as int + 10
    } else if 'A' <= c <= 'Z' {
        c as int - 'A' as int + 10
    } else {
        radix as int
    };
    if v < radix {
        Some(v as nat)
    } else {
        None
    }
}

/// The number that a sequence of digits stands for; no digits stand for zero.
pub open spec fn digits_value(s: Seq<char>, radix: nat) -> Option<nat>
    decreases s.len(),
{
    if s.len() == 0 {
        Some(0)
    } else {
        match (digits_value(s.drop_last(), radix), digit_value(s.last(), radix)) {
            (Some(v), Some(d)) => Some(v * radix + d),
            _ => None,
        }
    }
}

/// The number that an unsigned numeral stands for: at least one digit, nothing else.
pub open spec fn unsigned_value(s: Seq<char>, radix: nat) -> Option<nat> {
    if s.len() == 0 {
        None
    } else {
        digits_value(s, radix)
    }
}

/// The number that `usize::from_str_radix` reads: an unsigned numeral, perhaps after a
/// plus sign, that fits in a `usize`.
pub open spec fn usize_value(s: Seq<char>, radix: nat) -> Option<nat> {
    let numeral = if s.len() > 0 && s[0] == '+' {
        s.skip(1)
    } else {
        s
    };
    match unsigned_value(numeral, radix) {
        Some(v) => if v <= usize::MAX {
            Some(v)
        } else {
            None
        },
        None => None,
    }
}

/// The number that `str::parse::<i32>` reads: a decimal numeral, perhaps after a sign, that
/// fits in an `i32`.
pub open spec fn i32_value(s: Seq<char>) -> Option<int> {
    let negative = s.len() > 0 && s[0] == '-';
    let numeral = if s.len() > 0 && (s[0] == '+' || s[0] == '-') {
        s.skip(1)
    } else {
        s
    };
    match unsigned_value(numeral, 10) {
        Some(v) => if negative && v <= 0x8000_0000 {
            Some(-(v as int))
        } else if !negative && v <= 0x7fff_ffff {
            Some(v as int)
        } else {
            None
        },
        None => None,
    }
}

/// Writes a number in base `radix`.
pub fn write_digits(n: u64, radix: u64) -> (r: Vec<char>)
    requires
        2 <= radix <= 16,
    ensures
        r@ == digits(n as nat, radix as nat),
    decreases n,
{
    let d: u64 = n % radix;
    let c: char = if d < 10 {
        (48 + d) as u8 as char
    } else {
        (87 + d) as u8 as char
    };
    if n < radix {
        assert(d == n) by (nonlinear_arith)
            requires
                d == n % radix,
                n < radix,
        ;
        let mut out: Vec<char> = Vec::new();
        out.push(c);
        assert(out@ =~= digits(n as nat, radix as nat));
        out
    } else {
        assert(n / radix < n) by (nonlinear_arith)
            requires
                radix >= 2,
                n >= radix,
        ;
        let mut out = write_digits(n / radix, radix);
        out.push(c);
        out
    }
}

/// Writes a number in decimal.
pub fn write_decimal(n: i64) -> (r: String)
    ensures
        r@ == decimal(n as int),
{
    if n < 0 {
        let m: u64 = if n == i64::MIN {
            0x8000_0000_0000_0000
        } else {
            (-n) as u64
        };
        let d = write_digits(m, 10);
        let mut out: Vec<char> = Vec::new();
        out.push('-');
        out.extend_from_slice(d.as_slice());
        assert(out@ =~= seq!['-'] + d@);
        string_of(out.as_slice())
    } else {
        string_of(write_digits(n as u64, 10).as_slice())
    }
}

/// Writes a length in decimal.
pub fn write_length(n: usize) -> (r: String)
    ensures
        r@ == decimal(n as int),
{
    string_of(write_digits(n as u64, 10).as_slice())
}

/// Writes a number in hexadecimal.
pub fn write_hexadecimal(n: u64) -> (r: String)
    ensures
        r@ == hexadecimal(n as nat),
{
    string_of(write_digits(n, 16).as_slice())
}

/// Reads one digit.
fn read_digit(c: char, radix: u32) -> (r: Option<u32>)
    requires
        2 <= radix <= 16,
    ensures
        match r {
            Some(d) => digit_value(c, radix as nat) == Some(d as nat) && d < radix,
            None => digit_value(c, radix as nat) is None,
        },
{
    let v: u32 = if '0' <= c && c <= '9' {
        c as u32 - '0' as u32
    } else if 'a' <= c && c <= 'z' {
        c as u32 - 'a' as u32 + 10
    } else if 'A' <= c && c <= 'Z' {
        c as u32 - 'A' as u32 + 10
    } else {
        radix
    };
    if v < radix {
        Some(v)
    } else {
        None
    }
}

/// More digits do not make a numeral smaller, nor readable where its start is not.
proof fn lemma_digits_value_grows(s: Seq<char>, k: int, radix: nat)
    requires
        0 <= k <= s.len(),
        radix >= 2,
    ensures
        digits_value(s, radix) is Some ==> digits_value(s.take(k), radix) is Some
            && digits_value(s.take(k), radix)->0 <= digits_value(s, radix)->0,
    decreases s.len(),
{
    if k == s.len() {
        assert(s.take(k) =~= s);
    } else {
        lemma_digits_value_grows(s.drop_last(), k, radix);
        assert(s.drop_last().take(k) =~= s.take(k));
        if digits_value(s, radix) is Some {
            let v = digits_value(s.drop_last(), radix)->0;
            assert(v * radix >= v) by (nonlinear_arith)
                requires
                    radix >= 2,
                    v >= 0,
            ;
        }
    }
}

/// Reads an unsigned numeral of at most `max`.
pub fn read_unsigned(s: &[char], radix: u32, max: u64) -> (r: Option<u64>)
    requires
        2 <= radix <= 16,
    ensures
        match r {
            Some(v) => unsigned_value(s@, radix as nat) == Some(v as nat) && v <= max,
            None => unsigned_value(s@, radix as nat) is None || unsigned_value(
                s@,
                radix as nat,
            )->0 > max,
        },
{
    if s.len() == 0 {
        return None;
    }
    let mut acc: u64 = 0;
    let mut k: usize = 0;
    assert(s@.take(0) =~= seq![]);
    while k < s.len()
        invariant
            k <= s.len(),
            s@.len() > 0,
            2 <= radix <= 16,
            acc <= max,
            digits_value(s@.take(k as int), radix as nat) == Some(acc as nat),
        decreases s.len() - k,
    {
        assert(s@.take(k + 1).drop_last() =~= s@.take(k as int));
        proof {
            lemma_digits_value_grows(s@, k + 1, radix as nat);
        }
        match read_digit(s[k], radix) {
            None => {
                return None;
            },
            Some(d) => {
                assert(acc * radix <= acc * 16 && 0 <= acc * radix) by (nonlinear_arith)
                    requires
                        2 <= radix <= 16,
                        0 <= acc,
                ;
                let next: u128 = acc as u128 * radix as u128 + d as u128;
                if next > max as u128 {
                    return None;
                }
                acc = next as u64;
            },
        }
        k += 1;
    }
    assert(s@.take(k as int) =~= s@);
    Some(acc)
}

/// Reads a `usize` as `usize::from_str_radix` does.
pub fn read_usize(s: &[char], radix: u32) -> (r: Option<usize>)
    requires
        2 <= radix <= 16,
    ensures
        match r {
            Some(v) => usize_value(s@, radix as nat) == Some(v as nat),
            None => usize_value(s@, radix as nat) is None,
        },
{
    let numeral = if s.len() > 0 && s[0] == '+' {
        assert(s@.skip(1) =~= s@.subrange(1, s@.len() as int));
        slice_subrange(s, 1, s.len())
    } else {
        s
    };
    match read_unsigned(numeral, radix, usize::MAX as u64) {
        Some(v) => Some(v as usize),
        None => None,
    }
}

/// Reads an `i32` as `str::parse` does.
pub fn read_i32(s: &[char]) -> (r: Option<i32>)
    ensures
        match r {
            Some(v) => i32_value(s@) == Some(v as int),
            None => i32_value(s@) is None,
        },
{
    let negative = s.len() > 0 && s[0] == '-';
    let numeral = if s.len() > 0 && (s[0] == '+' || s[0] == '-') {
        assert(s@.skip(1) =~= s@.subrange(1, s@.len() as int));
        slice_subrange(s, 1, s.len())
    } else {
        s
    };
    let max: u64 = if negative {
        0x8000_0000
    } else {
        0x7fff_ffff
    };
    match read_unsigned(numeral, 10, max) {
        Some(v) => if negative {
            Some((-(v as i64)) as i32)
        } else {
            Some(v as i32)
        },
        None => None,
    }
}

} // verus!
