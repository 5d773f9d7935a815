//! Integer text: reading a 32-bit integer out of decimal text the way the
//! config parser does (anything unreadable counts as zero), and writing one
//! back as decimal text.

use vstd::prelude::*;

use crate::order::{all_digits, body_of, digit_val, int_of_digits, is_digit, sign_of};

verus! {

/// The 32-bit integer a text denotes: an optional sign and a run of
/// digits, within the type's range; `None` otherwise.
pub open spec fn parse_i32_spec(s: Seq<char>) -> Option<int> {
    let b = body_of(s);
    if b.len() >= 1 && all_digits(b) {
        let v = if sign_of(s) {
            -int_of_digits(b)
        } else {
            int_of_digits(b)
        };
        if -0x8000_0000 <= v <= 0x7fff_ffff {
            Some(v)
        } else {
            None
        }
    } else {
        None
    }
}

/// The integer a text denotes, or zero when it denotes none.
pub open spec fn parse_i32_or_zero(s: Seq<char>) -> int {
    match parse_i32_spec(s) {
        Some(v) => v,
        None => 0,
    }
}

/// Read a 32-bit integer out of a character vector, zero when unreadable.
pub fn parse_i32_chars(v: &Vec<char>) -> (r: i32)
    ensures
        r as int == parse_i32_or_zero(v@),
{
    let n: usize = v.len();
    let mut neg: bool = false;
    let mut start: usize = 0;
    if n > 0 && (v[0] == '-' || v[0] == '+') {
        neg = v[0] == '-';
        start = 1;
    }
    proof {
        assert(body_of(v@) =~= v@.skip(start as int));
        assert(neg == sign_of(v@));
    }
    if start >= n {
        // No digits at all.
        return 0;
    }
    let ghost b = v@.skip(start as int);
    let mut acc: u64 = 0;
    let mut over: bool = false;
    let mut j: usize = start;
    while j < n
        invariant
            start <= j <= n,
            n == v@.len(),
            b == v@.skip(start as int),
            b == body_of(v@),
            neg == sign_of(v@),
            forall|k: int| 0 <= k < j - start ==> is_digit(#[trigger] b[k]),
            !over ==> acc as int == int_of_digits(b.take(j - start)) && acc <= 0x8000_0000u64,
            over ==> int_of_digits(b.take(j - start)) > 0x8000_0000,
        decreases n - j,
    {
        let c = v[j];
        let cu: u32 = c as u32;
        if cu < 48 || cu > 57 {
            proof {
                assert(b[j - start] == v@[j as int]);
                assert(!all_digits(b)) by {
                    if all_digits(b) {
                        assert(is_digit(b[j - start]));
                    }
                }
                assert(body_of(v@) == b);
                assert(parse_i32_spec(v@) is None);
            }
            return 0;
        }
        let dv: u64 = (cu - 48) as u64;
        proof {
            assert(b.take(j - start + 1).drop_last() =~= b.take(j - start));
            assert(b.take(j - start + 1).last() == b[j - start]);
            assert(dv as int == digit_val(b[j - start]));
        }
        if !over {
            if acc > 0x0ccc_cccc_u64 {
                // Another digit pushes the value past the 32-bit range.
                over = true;
                proof {
                    assert(int_of_digits(b.take(j - start + 1)) == acc * 10 + dv);
                }
            } else {
                acc = acc * 10 + dv;
                if acc > 0x8000_0000u64 {
                    over = true;
                }
            }
        } else {
            proof {
                let prev = int_of_digits(b.take(j - start));
                assert(int_of_digits(b.take(j - start + 1)) == prev * 10 + dv);
            }
        }
        j += 1;
    }
    proof {
        assert(b.take(n - start) =~= b);
        assert(b.len() >= 1);
        assert(all_digits(b));
    }
    if over {
        return 0;
    }
    if neg {
        if acc > 0x8000_0000u64 {
            return 0;
        }
        (-(acc as i64)) as i32
    } else {
        if acc > 0x7fff_ffffu64 {
            return 0;
        }
        acc as i32
    }
}

/// The decimal digits of a natural number, most significant first.
pub open spec fn dec_digits(n: nat) -> Seq<char>
    decreases n,
{
    if n < 10 {
        seq![digit_char(n as int)]
    } else {
        dec_digits(n / 10).push(digit_char((n % 10) as int))
    }
}

/// The signed decimal text of an integer.
pub open spec fn dec_text(v: int) -> Seq<char> {
    if v < 0 {
        seq!['-'] + dec_digits((-v) as nat)
    } else {
        dec_digits(v as nat)
    }
}

/// The character of one decimal digit.
pub open spec fn digit_char(d: int) -> char {
    if d == 0 {
        '0'
    } else if d == 1 {
        '1'
    } else if d == 2 {
        '2'
    } else if d == 3 {
        '3'
    } else if d == 4 {
        '4'
    } else if d == 5 {
        '5'
    } else if d == 6 {
        '6'
    } else if d == 7 {
        '7'
    } else if d == 8 {
        '8'
    } else {
        '9'
    }
}

/// The character of one decimal digit, executable.
fn digit_char_exec(d: u32) -> (r: char)
    requires
        d <= 9,
    ensures
        r == digit_char(d as int),
{
    if d == 0 {
        '0'
    } else if d == 1 {
        '1'
    } else if d == 2 {
        '2'
    } else if d == 3 {
        '3'
    } else if d == 4 {
        '4'
    } else if d == 5 {
        '5'
    } else if d == 6 {
        '6'
    } else if d == 7 {
        '7'
    } else if d == 8 {
        '8'
    } else {
        '9'
    }
}

/// Push the decimal digits of `n` onto a character vector.
fn push_dec_digits(out: &mut Vec<char>, n: u32)
    ensures
        final(out)@ == old(out)@ + dec_digits(n as nat),
    decreases n,
{
    if n < 10 {
        out.push(digit_char_exec(n));
        assert(out@ =~= old(out)@ + dec_digits(n as nat));
    } else {
        push_dec_digits(out, n / 10);
        out.push(digit_char_exec(n % 10));
        assert(out@ =~= old(out)@ + dec_digits(n as nat));
    }
}

/// The signed decimal text of a 32-bit integer.
pub fn i32_string(v: i32) -> (r: String)
    ensures
        r@ == dec_text(v as int),
{
    let mut out: Vec<char> = Vec::new();
    if v < 0 {
        out.push('-');
        let mag: u32 = (-(v as i64)) as u32;
        push_dec_digits(&mut out, mag);
        assert(out@ =~= dec_text(v as int));
    } else {
        push_dec_digits(&mut out, v as u32);
    }
    crate::text::string_from_chars(&out)
}

} // verus!
