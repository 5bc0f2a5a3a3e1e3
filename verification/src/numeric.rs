//! Fixed-point numbers for prices and quantities.
//!
//! The venue sends decimal strings.  The library stores them as integers
//! scaled by `SCALE` (eight fractional digits), which keeps ordering and
//! equality total.  `parse_fixed` accepts `digits [ '.' digits ]` with at
//! most eight fractional digits and rejects everything else, including
//! values that do not fit in a `u64`.

use vstd::prelude::*;

verus! {

/// Fixed-point scale: stored value = numeric value times `SCALE`.
pub const SCALE: u64 = 100_000_000;

/// Number of fractional digits `SCALE` provides.
pub const FRAC_DIGITS: usize = 8;

/// Ten to the `n`.
pub open spec fn pow10(n: nat) -> int
    decreases n,
{
    if n == 0 {
        1
    } else {
        10 * pow10((n - 1) as nat)
    }
}

/// `c` is an ASCII decimal digit.
pub open spec fn is_digit(c: char) -> bool {
    ('0' as u32) <= (c as u32) && (c as u32) <= ('9' as u32)
}

/// Numeric value of a digit character.
pub open spec fn digit_val(c: char) -> int {
    (c as u32) - ('0' as u32)
}

/// Every character of `s` is a decimal digit.
pub open spec fn all_digits(s: Seq<char>) -> bool {
    forall|i: int| 0 <= i < s.len() ==> is_digit(s[i])
}

/// The integer a digit string denotes, most significant digit first.
pub open spec fn digits_val(s: Seq<char>) -> int
    decreases s.len(),
{
    if s.len() == 0 {
        0
    } else {
        digits_val(s.drop_last()) * 10 + digit_val(s.last())
    }
}

/// Index of the first `'.'` in `s`, or `s.len()` if there is none.
pub open spec fn first_dot(s: Seq<char>) -> int
    decreases s.len(),
{
    if s.len() == 0 {
        0
    } else if s[0] == '.' {
        0
    } else {
        1 + first_dot(s.drop_first())
    }
}

/// The digits before the first dot.
pub open spec fn decimal_whole(s: Seq<char>) -> Seq<char> {
    s.take(first_dot(s))
}

/// The digits after the first dot; empty if there is no dot.
pub open spec fn decimal_frac(s: Seq<char>) -> Seq<char> {
    if first_dot(s) == s.len() {
        Seq::empty()
    } else {
        s.skip(first_dot(s) + 1)
    }
}

/// `s` is a decimal the library accepts: non-empty, digits around at most
/// one dot, at least one digit in all, at most `FRAC_DIGITS` fractional
/// digits.
pub open spec fn decimal_valid(s: Seq<char>) -> bool {
    &&& s.len() > 0
    &&& all_digits(decimal_whole(s))
    &&& all_digits(decimal_frac(s))
    &&& decimal_whole(s).len() + decimal_frac(s).len() > 0
    &&& decimal_frac(s).len() <= FRAC_DIGITS
}

/// The scaled integer value of a valid decimal string.
pub open spec fn decimal_value(s: Seq<char>) -> int {
    digits_val(decimal_whole(s)) * SCALE + digits_val(decimal_frac(s)) * pow10(
        (FRAC_DIGITS - decimal_frac(s).len()) as nat,
    )
}

/// What `parse_fixed` returns: the scaled value where the string is a
/// valid decimal whose scaled value fits in a `u64`, nothing otherwise.
pub open spec fn parse_fixed_spec(s: Seq<char>) -> Option<u64> {
    if decimal_valid(s) && decimal_value(s) <= u64::MAX {
        Option::Some(decimal_value(s) as u64)
    } else {
        Option::None
    }
}

/// The character of one decimal digit.
pub open spec fn digit_char(d: int) -> char {
    if d == 0 {
        '0'
    } else if d == 1 {
        '1'
    } else if d == 2 {
        '2'
    } else if d == 3 {
        '3'
    } else if d == 4 {
        '4'
    } else if d == 5 {
        '5'
    } else if d == 6 {
        '6'
    } else if d == 7 {
        '7'
    } else if d == 8 {
        '8'
    } else {
        '9'
    }
}

/// The decimal digit string of `n`, most significant digit first.
pub open spec fn dec_digits(n: nat) -> Seq<char>
    decreases n,
{
    if n < 10 {
        seq![digit_char(n as int)]
    } else {
        dec_digits(n / 10).push(digit_char((n % 10) as int))
    }
}

/// The one-character string of a decimal digit.
fn digit_str(d: u64) -> (r: &'static str)
    requires
        d < 10,
    ensures
        r@ == seq![digit_char(d as int)],
{
    match d {
        0 => {
            proof {
                reveal_strlit("0");
            }
            "0"
        },
        1 => {
            proof {
                reveal_strlit("1");
            }
            "1"
        },
        2 => {
            proof {
                reveal_strlit("2");
            }
            "2"
        },
        3 => {
            proof {
                reveal_strlit("3");
            }
            "3"
        },
        4 => {
            proof {
                reveal_strlit("4");
            }
            "4"
        },
        5 => {
            proof {
                reveal_strlit("5");
            }
            "5"
        },
        6 => {
            proof {
                reveal_strlit("6");
            }
            "6"
        },
        7 => {
            proof {
                reveal_strlit("7");
            }
            "7"
        },
        8 => {
            proof {
                reveal_strlit("8");
            }
            "8"
        },
        _ => {
            proof {
                reveal_strlit("9");
            }
            "9"
        },
    }
}

/// Renders an integer as decimal text.
pub fn u64_to_dec(n: u64) -> (r: String)
    ensures
        r@ == dec_digits(n as nat),
    decreases n,
{
    if n < 10 {
        let mut s = String::new();
        s.append(digit_str(n));
        s
    } else {
        let mut s = u64_to_dec(n / 10);
        s.append(digit_str(n % 10));
        s
    }
}

proof fn lemma_pow10_pos(n: nat)
    ensures
        pow10(n) >= 1,
    decreases n,
{
    if n > 0 {
        lemma_pow10_pos((n - 1) as nat);
    }
}

proof fn lemma_pow10_mono(a: nat, b: nat)
    requires
        a <= b,
    ensures
        pow10(a) <= pow10(b),
    decreases b,
{
    if a < b {
        lemma_pow10_mono(a, (b - 1) as nat);
        lemma_pow10_pos((b - 1) as nat);
    }
}

/// `pow10` turns addition of exponents into multiplication.
proof fn lemma_pow10_mul(a: nat, b: nat)
    ensures
        pow10(a) * pow10(b) == pow10(a + b),
    decreases a,
{
    if a == 0 {
    } else {
        lemma_pow10_mul((a - 1) as nat, b);
        assert(pow10(a) * pow10(b) == 10 * (pow10((a - 1) as nat) * pow10(b)))
            by (nonlinear_arith)
            requires
                pow10(a) == 10 * pow10((a - 1) as nat),
        ;
    }
}

proof fn lemma_pow10_8()
    ensures
        pow10(8) == 100_000_000,
{
    reveal_with_fuel(pow10, 9);
}

proof fn lemma_digits_val_nonneg(s: Seq<char>)
    requires
        all_digits(s),
    ensures
        digits_val(s) >= 0,
    decreases s.len(),
{
    if s.len() > 0 {
        assert(forall|i: int| 0 <= i < s.len() - 1 ==> s.drop_last()[i] == s[i]);
        lemma_digits_val_nonneg(s.drop_last());
    }
}

proof fn lemma_digits_val_bound(s: Seq<char>)
    requires
        all_digits(s),
    ensures
        0 <= digits_val(s) < pow10(s.len()),
    decreases s.len(),
{
    if s.len() > 0 {
        assert(forall|i: int| 0 <= i < s.len() - 1 ==> s.drop_last()[i] == s[i]);
        lemma_digits_val_bound(s.drop_last());
        assert(digit_val(s.last()) <= 9);
        assert(pow10(s.len()) == 10 * pow10((s.len() - 1) as nat));
    }
}

/// Extending a digit string by one digit multiplies its value by ten and
/// adds the digit.
proof fn lemma_digits_val_step(s: Seq<char>, i: int)
    requires
        0 <= i < s.len(),
    ensures
        digits_val(s.take(i + 1)) == digits_val(s.take(i)) * 10 + digit_val(s[i]),
{
    assert(s.take(i + 1).drop_last() =~= s.take(i));
    assert(s.take(i + 1).last() == s[i]);
}

/// A digit prefix never exceeds a longer digit prefix.
proof fn lemma_digits_prefix_mono(s: Seq<char>, a: int, b: int)
    requires
        0 <= a <= b <= s.len(),
        forall|i: int| 0 <= i < b ==> is_digit(s[i]),
    ensures
        digits_val(s.take(a)) <= digits_val(s.take(b)),
    decreases b - a,
{
    if a < b {
        lemma_digits_prefix_mono(s, a, b - 1);
        assert(forall|i: int| 0 <= i < b - 1 ==> s.take(b - 1)[i] == s[i]);
        lemma_digits_val_nonneg(s.take(b - 1));
        lemma_digits_val_step(s, b - 1);
    }
}

/// The first dot never lies beyond the end of the string.
proof fn lemma_first_dot_range(s: Seq<char>)
    ensures
        0 <= first_dot(s) <= s.len(),
    decreases s.len(),
{
    if s.len() > 0 && s[0] != '.' {
        lemma_first_dot_range(s.drop_first());
    }
}

/// If no dot stands before `k`, the first dot is at `k` or later.
proof fn lemma_first_dot_lb(s: Seq<char>, k: int)
    requires
        0 <= k <= s.len(),
        forall|j: int| 0 <= j < k ==> s[j] != '.',
    ensures
        first_dot(s) >= k,
    decreases k,
{
    lemma_first_dot_range(s);
    if k > 0 {
        assert(s[0] != '.');
        assert(forall|j: int| 0 <= j < k - 1 ==> s.drop_first()[j] == s[j + 1]);
        lemma_first_dot_lb(s.drop_first(), k - 1);
    }
}

/// The first dot is exactly where scanning finds it.
proof fn lemma_first_dot_at(s: Seq<char>, k: int)
    requires
        0 <= k <= s.len(),
        forall|j: int| 0 <= j < k ==> s[j] != '.',
        k == s.len() || s[k] == '.',
    ensures
        first_dot(s) == k,
    decreases k,
{
    if k == 0 {
        if s.len() > 0 {
            assert(s[0] == '.');
        }
    } else {
        assert(s[0] != '.');
        assert(forall|j: int| 0 <= j < k - 1 ==> s.drop_first()[j] == s[j + 1]);
        assert(k - 1 == s.drop_first().len() || s.drop_first()[k - 1] == '.');
        lemma_first_dot_at(s.drop_first(), k - 1);
    }
}

/// Ten to the `n`, executable, for the fractional re-scaling.
fn pow10_u64(n: usize) -> (r: u64)
    requires
        n <= 8,
    ensures
        r == pow10(n as nat),
{
    let mut r: u64 = 1;
    let mut i: usize = 0;
    while i < n
        invariant
            i <= n <= 8,
            r == pow10(i as nat),
        decreases n - i,
    {
        proof {
            lemma_pow10_pos(i as nat);
            lemma_pow10_mono(i as nat, 7);
            reveal_with_fuel(pow10, 9);
        }
        r = r * 10;
        i = i + 1;
    }
    r
}

/// Parses a decimal string into its `SCALE`-scaled value; yields nothing
/// on any malformed string or on overflow.
pub fn parse_fixed(s: &str) -> (r: Option<u64>)
    ensures
        r == parse_fixed_spec(s@),
{
    let n = s.unicode_len();
    if n == 0 {
        return None;
    }

    // First pass: find the dot and check that everything else is a digit.
    let mut dot: usize = n;
    let mut seen_dot: bool = false;
    let mut i: usize = 0;
    while i < n
        invariant
            n == s@.len(),
            0 <= i <= n,
            !seen_dot ==> dot == n && (forall|j: int| 0 <= j < i ==> s@[j] != '.'),
            !seen_dot ==> (forall|j: int| 0 <= j < i ==> is_digit(s@[j])),
            seen_dot ==> {
                &&& dot < i <= n
                &&& s@[dot as int] == '.'
                &&& (forall|j: int| 0 <= j < dot ==> s@[j] != '.' && is_digit(s@[j]))
                &&& (forall|j: int| dot < j < i ==> is_digit(s@[j]))
            },
        decreases n - i,
    {
        let c = s.get_char(i);
        let v = c as u32;
        if v == 46 {
            assert(c == '.');
            if seen_dot {
                // A second dot lands in the fractional part, which must be
                // all digits for the string to be valid.
                proof {
                    lemma_first_dot_at(s@, dot as int);
                    assert(decimal_frac(s@)[i - dot - 1] == s@[i as int]);
                    assert(!is_digit(s@[i as int]));
                }
                return None;
            }
            seen_dot = true;
            dot = i;
        } else if v < 48 || v > 57 {
            assert(c != '.');
            assert(!is_digit(c));
            proof {
                if seen_dot {
                    lemma_first_dot_at(s@, dot as int);
                    assert(decimal_frac(s@)[i - dot - 1] == s@[i as int]);
                } else {
                    lemma_first_dot_lb(s@, i + 1);
                    lemma_first_dot_range(s@);
                    assert(decimal_whole(s@)[i as int] == s@[i as int]);
                }
            }
            return None;
        } else {
            assert(is_digit(c));
        }
        i = i + 1;
    }

    proof {
        lemma_first_dot_at(s@, dot as int);
    }

    let frac_len: usize = if seen_dot {
        n - dot - 1
    } else {
        0
    };
    if frac_len > FRAC_DIGITS {
        return None;
    }
    if dot == 0 && frac_len == 0 {
        // Just a dot: no digit anywhere.
        return None;
    }

    assert(decimal_valid(s@)) by {
        assert(decimal_whole(s@) =~= s@.take(dot as int));
        if seen_dot {
            assert(decimal_frac(s@) =~= s@.skip(dot + 1));
        }
    }

    // Second pass: the whole part.
    let ghost w = decimal_whole(s@);
    let ghost f = decimal_frac(s@);
    proof {
        assert(w =~= s@.take(dot as int));
        if seen_dot {
            assert(f =~= s@.subrange(dot + 1, n as int));
        } else {
            assert(f =~= Seq::<char>::empty());
        }
    }

    let mut acc: u128 = 0;
    let mut k: usize = 0;
    while k < dot
        invariant
            n == s@.len(),
            dot <= n,
            decimal_valid(s@),
            first_dot(s@) == dot,
            w == decimal_whole(s@),
            f == decimal_frac(s@),
            0 <= k <= dot,
            forall|j: int| 0 <= j < dot ==> is_digit(s@[j]),
            acc == digits_val(s@.take(k as int)),
            acc <= u64::MAX,
        decreases dot - k,
    {
        let c = s.get_char(k);
        assert(is_digit(c));
        let d = (c as u32 - 48) as u128;
        proof {
            lemma_digits_val_step(s@, k as int);
            assert(digit_val(s@[k as int]) == d);
        }
        let nacc: u128 = acc * 10 + d;
        if nacc > u64::MAX as u128 {
            // The whole part alone exceeds u64, so the scaled value does.
            proof {
                lemma_digits_prefix_mono(s@, k + 1, dot as int);
                assert(w == s@.take(dot as int));
                lemma_digits_val_nonneg(w);
                lemma_digits_val_nonneg(f);
                lemma_pow10_pos((FRAC_DIGITS - f.len()) as nat);
                assert(digits_val(w) * SCALE >= digits_val(w) * 1) by (nonlinear_arith)
                    requires
                        digits_val(w) >= 0,
                ;
                assert(digits_val(f) * pow10((FRAC_DIGITS - f.len()) as nat) >= 0)
                    by (nonlinear_arith)
                    requires
                        digits_val(f) >= 0,
                        pow10((FRAC_DIGITS - f.len()) as nat) >= 1,
                ;
                assert(decimal_value(s@) > u64::MAX);
            }
            return None;
        }
        acc = nacc;
        k = k + 1;
    }
    proof {
        assert(s@.take(dot as int) == w);
        assert(acc == digits_val(w));
    }

    // Third pass: the fractional part.
    let mut fr: u64 = 0;
    if seen_dot {
        let mut j: usize = dot + 1;
        while j < n
            invariant
                n == s@.len(),
                seen_dot,
                dot < j <= n,
                first_dot(s@) == dot,
                n - dot - 1 <= FRAC_DIGITS,
                forall|p: int| dot < p < n ==> is_digit(s@[p]),
                fr == digits_val(s@.subrange(dot + 1, j as int)),
                0 <= fr < pow10((j - dot - 1) as nat),
            decreases n - j,
        {
            let c = s.get_char(j);
            assert(is_digit(c));
            let d = (c as u32 - 48) as u64;
            proof {
                let sub = s@.subrange(dot + 1, j + 1);
                assert(sub.drop_last() =~= s@.subrange(dot + 1, j as int));
                assert(sub.last() == s@[j as int]);
                assert(digit_val(s@[j as int]) == d);
                assert(pow10(((j + 1) - dot - 1) as nat) == 10 * pow10((j - dot - 1) as nat));
                lemma_pow10_mono((j - dot - 1) as nat, 8);
                lemma_pow10_8();
            }
            fr = fr * 10 + d;
            j = j + 1;
        }
        proof {
            assert(s@.subrange(dot + 1, n as int) == f);
        }
    }
    proof {
        assert(fr == digits_val(f));
    }

    // Combine: acc * SCALE + fr * 10^(FRAC_DIGITS - frac_len).
    proof {
        assert(f.len() == frac_len);
        lemma_digits_val_bound(f);
        lemma_pow10_pos((FRAC_DIGITS - f.len()) as nat);
        assert(digits_val(f) * pow10((FRAC_DIGITS - f.len()) as nat) < pow10(f.len())
            * pow10((FRAC_DIGITS - f.len()) as nat)) by (nonlinear_arith)
            requires
                0 <= digits_val(f) < pow10(f.len()),
                pow10((FRAC_DIGITS - f.len()) as nat) >= 1,
        ;
        lemma_pow10_mul(f.len(), (FRAC_DIGITS - f.len()) as nat);
        lemma_pow10_8();
        assert(acc * (SCALE as u128) <= (u64::MAX as u128) * (SCALE as u128))
            by (nonlinear_arith)
            requires
                0 <= acc <= u64::MAX as u128,
        ;
    }
    let scaled_frac: u64 = fr * pow10_u64(FRAC_DIGITS - frac_len);
    let total: u128 = acc * (SCALE as u128) + scaled_frac as u128;
    proof {
        assert(total == decimal_value(s@));
    }
    if total > u64::MAX as u128 {
        return None;
    }
    Some(total as u64)
}

} // verus!
