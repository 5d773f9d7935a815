//! Orders on cell text: the lexicographic order on character sequences, and
//! the numeric value a cell's text denotes for numeric sorting.
//!
//! The numeric value is an exact fixed-point reading of decimal text: an
//! optional sign, integer digits and an optional fractional part, scaled so
//! that comparisons are plain integer comparisons. Text outside that grammar
//! — or beyond nineteen integer or fractional digits — counts as zero, as an
//! unparsable cell does.

use vstd::prelude::*;

use crate::text::{split_seq, str_chars, split_chars};

verus! {

/// Lexicographic order on character sequences by code point, the order in
/// which strings sort.
pub open spec fn lex_le(a: Seq<char>, b: Seq<char>) -> bool
    decreases a.len(),
{
    if a.len() == 0 {
        true
    } else if b.len() == 0 {
        false
    } else if (a[0] as u32) == (b[0] as u32) {
        lex_le(a.drop_first(), b.drop_first())
    } else {
        (a[0] as u32) < (b[0] as u32)
    }
}

/// The lexicographic order is total.
pub proof fn lemma_lex_le_total(a: Seq<char>, b: Seq<char>)
    ensures
        lex_le(a, b) || lex_le(b, a),
    decreases a.len(),
{
    if a.len() > 0 && b.len() > 0 && (a[0] as u32) == (b[0] as u32) {
        lemma_lex_le_total(a.drop_first(), b.drop_first());
    }
}

/// The lexicographic order is transitive.
pub proof fn lemma_lex_le_trans(a: Seq<char>, b: Seq<char>, c: Seq<char>)
    requires
        lex_le(a, b),
        lex_le(b, c),
    ensures
        lex_le(a, c),
    decreases a.len(),
{
    if a.len() > 0 && b.len() > 0 && c.len() > 0 {
        if (a[0] as u32) == (b[0] as u32) && (b[0] as u32) == (c[0] as u32) {
            lemma_lex_le_trans(a.drop_first(), b.drop_first(), c.drop_first());
        }
    }
}

/// Decide the lexicographic order on two string slices.
pub fn str_lex_le(a: &str, b: &str) -> (r: bool)
    ensures
        r == lex_le(a@, b@),
{
    let na: usize = a.unicode_len();
    let nb: usize = b.unicode_len();
    assert(a@.skip(0) =~= a@);
    assert(b@.skip(0) =~= b@);
    let mut i: usize = 0;
    loop
        invariant
            i <= na,
            i <= nb,
            na == a@.len(),
            nb == b@.len(),
            lex_le(a@, b@) == lex_le(a@.skip(i as int), b@.skip(i as int)),
        decreases na - i,
    {
        if i >= na {
            return true;
        }
        if i >= nb {
            return false;
        }
        let ca = a.get_char(i) as u32;
        let cb = b.get_char(i) as u32;
        if ca != cb {
            return ca < cb;
        }
        proof {
            assert(a@.skip(i as int).drop_first() =~= a@.skip(i as int + 1));
            assert(b@.skip(i as int).drop_first() =~= b@.skip(i as int + 1));
        }
        i += 1;
    }
}

/// Whether a character is a decimal digit.
pub open spec fn is_digit(c: char) -> bool {
    ('0' as u32) <= (c as u32) && (c as u32) <= ('9' as u32)
}

/// The value of a digit character.
pub open spec fn digit_val(c: char) -> int {
    (c as u32) as int - ('0' as u32) as int
}

/// Whether every character of a sequence is a decimal digit.
pub open spec fn all_digits(s: Seq<char>) -> bool {
    forall|i: int| 0 <= i < s.len() ==> is_digit(#[trigger] s[i])
}

/// The integer a digit sequence denotes.
pub open spec fn int_of_digits(s: Seq<char>) -> int
    decreases s.len(),
{
    if s.len() == 0 {
        0
    } else {
        int_of_digits(s.drop_last()) * 10 + digit_val(s.last())
    }
}

/// Ten to the `n`.
pub open spec fn pow10(n: nat) -> int
    decreases n,
{
    if n == 0 {
        1
    } else {
        10 * pow10((n - 1) as nat)
    }
}

pub proof fn lemma_pow10_pos(n: nat)
    ensures
        pow10(n) >= 1,
    decreases n,
{
    if n > 0 {
        lemma_pow10_pos((n - 1) as nat);
    }
}

/// A digit sequence's value is nonnegative and below ten to its length.
pub proof fn lemma_int_of_digits_bounds(s: Seq<char>)
    requires
        all_digits(s),
    ensures
        0 <= int_of_digits(s) < pow10(s.len()),
    decreases s.len(),
{
    if s.len() > 0 {
        assert(all_digits(s.drop_last())) by {
            assert(forall|i: int| 0 <= i < s.len() - 1 ==> s.drop_last()[i] == s[i]);
        }
        lemma_int_of_digits_bounds(s.drop_last());
        assert(0 <= digit_val(s.last()) <= 9);
    }
}

/// Whether the text carries a minus sign.
pub open spec fn sign_of(s: Seq<char>) -> bool {
    s.len() > 0 && s[0] == '-'
}

/// The text with any leading sign removed.
pub open spec fn body_of(s: Seq<char>) -> Seq<char> {
    if s.len() > 0 && (s[0] == '-' || s[0] == '+') {
        s.drop_first()
    } else {
        s
    }
}

/// The unsigned fixed-point reading of the unsigned part of a numeric text,
/// in units of ten to the minus nineteenth: `None` when the text is not an
/// optional run of digits, an optional dot and a further run of digits with
/// at least one digit in all, or when it has too many digits to represent.
pub open spec fn num_parse_body(body: Seq<char>) -> Option<int> {
    let pieces = split_seq(body, '.');
    if pieces.len() == 1 {
        let d = pieces[0];
        if d.len() >= 1 && all_digits(d) && int_of_digits(d) < pow10(19) {
            Some(int_of_digits(d) * pow10(19))
        } else {
            None
        }
    } else if pieces.len() == 2 {
        let d = pieces[0];
        let f = pieces[1];
        if d.len() + f.len() >= 1 && all_digits(d) && all_digits(f) && int_of_digits(d) < pow10(19)
            && f.len() <= 19 {
            Some(int_of_digits(d) * pow10(19) + int_of_digits(f) * pow10((19 - f.len()) as nat))
        } else {
            None
        }
    } else {
        None
    }
}

/// The signed fixed-point value a cell's text denotes for numeric sorting,
/// in units of ten to the minus nineteenth; text that does not parse counts
/// as zero.
pub open spec fn num_value(s: Seq<char>) -> int {
    match num_parse_body(body_of(s)) {
        None => 0,
        Some(u) => if sign_of(s) {
            -u
        } else {
            u
        },
    }
}

/// Every numeric value fits far inside a signed 128-bit integer.
pub proof fn lemma_num_value_bounds(s: Seq<char>)
    ensures
        -pow10(38) < num_value(s) < pow10(38),
        pow10(38) < 0x8000_0000_0000_0000_0000_0000_0000_0000,
{
    lemma_pow10_pos(19);
    lemma_pow10_38();
    match num_parse_body(body_of(s)) {
        None => {},
        Some(u) => {
            lemma_num_parse_body_bounds(body_of(s));
        },
    }
}

/// The unsigned reading is nonnegative and below ten to the 38th.
pub proof fn lemma_num_parse_body_bounds(body: Seq<char>)
    ensures
        match num_parse_body(body) {
            Some(u) => 0 <= u < pow10(38),
            None => true,
        },
{
    let pieces = split_seq(body, '.');
    lemma_pow10_add(19, 19);
    if pieces.len() == 1 {
        let d = pieces[0];
        if d.len() >= 1 && all_digits(d) && int_of_digits(d) < pow10(19) {
            lemma_int_of_digits_bounds(d);
            lemma_pow10_pos(19);
            vstd::arithmetic::mul::lemma_mul_inequality(int_of_digits(d), pow10(19) - 1, pow10(19));
            vstd::arithmetic::mul::lemma_mul_is_distributive_sub_other_way(
                pow10(19),
                pow10(19),
                1,
            );
            vstd::arithmetic::mul::lemma_mul_nonnegative(int_of_digits(d), pow10(19));
        }
    } else if pieces.len() == 2 {
        let d = pieces[0];
        let f = pieces[1];
        if d.len() + f.len() >= 1 && all_digits(d) && all_digits(f) && int_of_digits(d) < pow10(19)
            && f.len() <= 19 {
            lemma_int_of_digits_bounds(d);
            lemma_int_of_digits_bounds(f);
            lemma_pow10_pos(19);
            lemma_pow10_pos((19 - f.len()) as nat);
            lemma_pow10_add(f.len(), (19 - f.len()) as nat);
            vstd::arithmetic::mul::lemma_mul_inequality(int_of_digits(d), pow10(19) - 1, pow10(19));
            vstd::arithmetic::mul::lemma_mul_inequality(
                int_of_digits(f),
                pow10(f.len()) - 1,
                pow10((19 - f.len()) as nat),
            );
            vstd::arithmetic::mul::lemma_mul_is_distributive_sub_other_way(
                pow10((19 - f.len()) as nat),
                pow10(f.len()),
                1,
            );
            vstd::arithmetic::mul::lemma_mul_is_distributive_sub_other_way(
                pow10(19),
                pow10(19),
                1,
            );
            vstd::arithmetic::mul::lemma_mul_nonnegative(int_of_digits(d), pow10(19));
            vstd::arithmetic::mul::lemma_mul_nonnegative(
                int_of_digits(f),
                pow10((19 - f.len()) as nat),
            );
        }
    }
}

/// Ten to a sum is the product of the powers.
pub proof fn lemma_pow10_add(a: nat, b: nat)
    ensures
        pow10(a + b) == pow10(a) * pow10(b),
    decreases a,
{
    if a == 0 {
        assert(pow10(b) == 1 * pow10(b));
    } else {
        lemma_pow10_add((a - 1) as nat, b);
        assert(pow10(a + b) == 10 * pow10((a + b - 1) as nat));
        assert(10 * (pow10((a - 1) as nat) * pow10(b)) == (10 * pow10((a - 1) as nat)) * pow10(b))
            by (nonlinear_arith);
    }
}

/// Ten to the 38th, as a numeral.
pub proof fn lemma_pow10_38()
    ensures
        pow10(19) == 10_000_000_000_000_000_000,
        pow10(38) == 100_000_000_000_000_000_000_000_000_000_000_000_000,
{
    reveal_with_fuel(pow10, 40);
}

/// One run of decimal digits, read with its digit-validity and range
/// checks: `Some` exactly when the run is all digits and its value stays
/// below ten to the nineteenth.
fn digits_value(d: &Vec<char>) -> (r: Option<u64>)
    ensures
        match r {
            Some(u) => all_digits(d@) && int_of_digits(d@) < pow10(19) && u as int
                == int_of_digits(d@),
            None => !(all_digits(d@) && int_of_digits(d@) < pow10(19)),
        },
{
    proof {
        lemma_pow10_38();
    }
    let mut ip: u64 = 0;
    let mut over: bool = false;
    let mut j: usize = 0;
    let n: usize = d.len();
    while j < n
        invariant
            j <= n,
            n == d@.len(),
            forall|k: int| 0 <= k < j ==> is_digit(#[trigger] d@[k]),
            pow10(19) == 10_000_000_000_000_000_000,
            !over ==> ip as int == int_of_digits(d@.take(j as int)) && ip
                < 10_000_000_000_000_000_000u64,
            over ==> int_of_digits(d@.take(j as int)) >= pow10(19),
        decreases n - j,
    {
        let c = d[j];
        let cu: u32 = c as u32;
        if cu < 48 || cu > 57 {
            assert(!is_digit(d@[j as int]));
            return None;
        }
        let dv: u64 = (cu - 48) as u64;
        proof {
            assert(d@.take(j as int + 1).drop_last() =~= d@.take(j as int));
            assert(d@.take(j as int + 1).last() == d@[j as int]);
            assert(dv as int == digit_val(d@[j as int]));
        }
        if !over {
            if ip >= 1_000_000_000_000_000_000u64 {
                // One more digit reaches ten to the nineteenth.
                over = true;
                proof {
                    assert(int_of_digits(d@.take(j as int + 1)) >= pow10(19));
                }
            } else {
                ip = ip * 10 + dv;
            }
        } else {
            proof {
                let prev = int_of_digits(d@.take(j as int));
                assert(int_of_digits(d@.take(j as int + 1)) == prev * 10 + dv);
                assert(prev * 10 >= pow10(19) * 10 - prev * 0) by (nonlinear_arith)
                    requires
                        prev >= pow10(19),
                ;
            }
        }
        j += 1;
    }
    proof {
        assert(d@.take(n as int) =~= d@);
    }
    if over {
        return None;
    }
    Some(ip)
}

/// Ten to the `e`, executable, for small exponents.
fn pow10_u64(e: usize) -> (r: u64)
    requires
        e <= 19,
    ensures
        r as int == pow10(e as nat),
{
    proof {
        lemma_pow10_38();
    }
    let mut r: u64 = 1;
    let mut k: usize = 0;
    while k < e
        invariant
            k <= e <= 19,
            r as int == pow10(k as nat),
            pow10(19) == 10_000_000_000_000_000_000,
        decreases e - k,
    {
        proof {
            lemma_pow10_mono(k as nat + 1, 19);
        }
        r = r * 10;
        k += 1;
    }
    r
}

/// Powers of ten grow with the exponent.
pub proof fn lemma_pow10_mono(a: nat, b: nat)
    requires
        a <= b,
    ensures
        pow10(a) <= pow10(b),
    decreases b,
{
    if a < b {
        lemma_pow10_mono(a, (b - 1) as nat);
        lemma_pow10_pos((b - 1) as nat);
    }
}

/// The signed fixed-point value of a cell's text, for numeric sorting.
pub fn num_value_of(s: &str) -> (r: i128)
    ensures
        r as int == num_value(s@),
{
    proof {
        lemma_num_value_bounds(s@);
        lemma_pow10_38();
    }
    let chars = str_chars(s);
    let n: usize = chars.len();
    let mut neg: bool = false;
    let mut body: Vec<char> = Vec::new();
    let mut start: usize = 0;
    if n > 0 && (chars[0] == '-' || chars[0] == '+') {
        neg = chars[0] == '-';
        start = 1;
    }
    let mut i: usize = start;
    while i < n
        invariant
            start <= i <= n,
            n == chars@.len(),
            chars@ == s@,
            body@ == s@.subrange(start as int, i as int),
        decreases n - i,
    {
        body.push(chars[i]);
        i += 1;
        assert(body@ =~= s@.subrange(start as int, i as int));
    }
    proof {
        assert(body@ =~= body_of(s@));
        assert(neg == sign_of(s@));
    }
    let pieces = split_chars(&body, '.');
    let units: u128;
    if pieces.len() == 1 {
        if pieces[0].len() == 0 {
            return 0;
        }
        proof {
            assert(pieces.deep_view()[0] =~= pieces@[0]@);
        }
        match digits_value(&pieces[0]) {
            None => {
                return 0;
            },
            Some(ip) => {
                units = (ip as u128) * 10_000_000_000_000_000_000u128;
            },
        }
    } else if pieces.len() == 2 {
        proof {
            assert(pieces.deep_view()[0] =~= pieces@[0]@);
            assert(pieces.deep_view()[1] =~= pieces@[1]@);
        }
        if pieces[0].len() == 0 && pieces[1].len() == 0 {
            return 0;
        }
        if pieces[1].len() > 19 {
            return 0;
        }
        let ip = match digits_value(&pieces[0]) {
            None => {
                return 0;
            },
            Some(v) => v,
        };
        let fd = match digits_value(&pieces[1]) {
            None => {
                proof {
                    // A digit run of at most nineteen digits always stays in
                    // range, so the run must hold a non-digit.
                    let fv = pieces.deep_view()[1];
                    if all_digits(fv) {
                        lemma_int_of_digits_bounds(fv);
                        lemma_pow10_mono(fv.len(), 19);
                    }
                }
                return 0;
            },
            Some(v) => v,
        };
        let flen: usize = pieces[1].len();
        let scalef = pow10_u64(19 - flen);
        proof {
            let fv = pieces.deep_view()[1];
            lemma_int_of_digits_bounds(fv);
            lemma_pow10_add(fv.len(), (19 - fv.len()) as nat);
            lemma_pow10_pos((19 - fv.len()) as nat);
            vstd::arithmetic::mul::lemma_mul_inequality(
                int_of_digits(fv),
                pow10(fv.len()) - 1,
                pow10((19 - fv.len()) as nat),
            );
            vstd::arithmetic::mul::lemma_mul_is_distributive_sub_other_way(
                pow10((19 - fv.len()) as nat),
                pow10(fv.len()),
                1,
            );
        }
        let fp: u128 = (fd as u128) * (scalef as u128);
        units = (ip as u128) * 10_000_000_000_000_000_000u128 + fp;
    } else {
        return 0;
    }
    proof {
        lemma_num_parse_body_bounds(body@);
    }
    if neg {
        -(units as i128)
    } else {
        units as i128
    }
}

} // verus!
