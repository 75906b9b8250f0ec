//! Decimal numerals: writing whole numbers and tenths, and reading tenths.
//!
//! Distances and speeds in the level book are kept in tenths of a unit, the
//! precision that the level file is written with.
use vstd::prelude::*;
use crate::text::push_range;

verus! {

/// The largest size (in tenths) of a numeral that is read: 2^63, so that
/// every `i64` of tenths, and its negation, can be written and read back.
pub open spec fn max_magnitude() -> int {
    9_223_372_036_854_775_808
}

pub open spec fn is_digit(c: char) -> bool {
    '0' <= c && c <= '9'
}

pub open spec fn digit_value(c: char) -> int {
    c as int - 48
}

pub open spec fn digit_char(d: int) -> char {
    (d + 48) as char
}

pub open spec fn all_digits(s: Seq<char>) -> bool {
    forall|i: int| 0 <= i < s.len() ==> is_digit(#[trigger] s[i])
}

/// The value of a run of decimal digits (0 for the empty run).
pub open spec fn digits_value(s: Seq<char>) -> int
    decreases s.len(),
{
    if s.len() == 0 {
        0
    } else {
        digits_value(s.drop_last()) * 10 + digit_value(s.last())
    }
}

/// The decimal numeral of a natural number, without leading zeros.
pub open spec fn nat_text(n: nat) -> Seq<char>
    decreases n,
{
    if n < 10 {
        seq![digit_char(n as int)]
    } else {
        nat_text(n / 10).push(digit_char((n % 10) as int))
    }
}

pub open spec fn abs(t: int) -> int {
    if t < 0 {
        -t
    } else {
        t
    }
}

/// How a quantity held in tenths is written: sign, whole part, and a single
/// decimal digit when the tenths are not zero ("8", "22.8", "-3.5"). Zero is
/// written "0": the book holds no negative zero, so a level without a
/// finish, or a piece at position 0, is written "0" where a float would
/// print "-0". Both read back as 0.
pub open spec fn tenths_text(t: int) -> Seq<char> {
    let a = abs(t);
    let sign: Seq<char> = if t < 0 {
        seq!['-']
    } else {
        seq![]
    };
    let frac: Seq<char> = if a % 10 == 0 {
        seq![]
    } else {
        seq!['.', digit_char(a % 10)]
    };
    sign + nat_text((a / 10) as nat) + frac
}

/// Index of the first `a` or `b` in `s`, or `s.len()` when there is none.
pub open spec fn first_of(s: Seq<char>, a: char, b: char) -> nat
    decreases s.len(),
{
    if s.len() == 0 || s[0] == a || s[0] == b {
        0
    } else {
        1 + first_of(s.drop_first(), a, b)
    }
}

/// Index of the first '.' in `s`, or `s.len()` when there is none.
pub open spec fn dot_index(s: Seq<char>) -> nat {
    first_of(s, '.', '.')
}

/// Index of the first 'e' or 'E' in `s`, or `s.len()` when there is none.
pub open spec fn exp_index(s: Seq<char>) -> nat {
    first_of(s, 'e', 'E')
}

pub open spec fn pow10(k: nat) -> int
    decreases k,
{
    if k == 0 {
        1
    } else {
        10 * pow10((k - 1) as nat)
    }
}

/// How many tenths, rounded half up, the number 0.`d` × 10^(`c` - 1) holds:
/// the digits `d` read with the point after the first `c` of them (zeros fill
/// in where `c` goes past the digits), the first digit after the point
/// deciding the rounding.
pub open spec fn rounded_tenths(d: Seq<char>, c: int) -> int {
    if c < 0 {
        0
    } else if c < d.len() {
        digits_value(d.take(c)) + if digit_value(d[c]) >= 5 {
            1int
        } else {
            0int
        }
    } else {
        digits_value(d) * pow10((c - d.len()) as nat)
    }
}

/// What a numeral reads as, in tenths, from its parts: the sign, the digits
/// before and after the point, and, when it has an exponent (`has_exp`), the
/// exponent's sign and digits.
pub open spec fn numeral_tenths(
    neg: bool,
    whole: Seq<char>,
    frac: Seq<char>,
    has_exp: bool,
    eneg: bool,
    edigits: Seq<char>,
) -> Option<int> {
    let valid = all_digits(whole) && all_digits(frac) && whole.len() + frac.len() > 0 && (
    has_exp ==> edigits.len() > 0 && all_digits(edigits));
    if valid {
        scaled_tenths(neg, whole + frac, whole.len() as int, eneg, edigits)
    } else {
        None
    }
}

/// The tenths of the number with digits `d`, the first `wl` of them before
/// the point, and the exponent of sign `eneg` and digits `edigits`; `None`
/// when there are more than `max_magnitude()`.
pub open spec fn scaled_tenths(neg: bool, d: Seq<char>, wl: int, eneg: bool, edigits: Seq<char>) -> Option<int> {
    let e = if eneg {
        -digits_value(edigits)
    } else {
        digits_value(edigits)
    };
    let mag = rounded_tenths(d, wl + e + 1);
    if mag <= max_magnitude() {
        Some(
            if neg {
                -mag
            } else {
                mag
            },
        )
    } else {
        None
    }
}

/// Reads a decimal numeral ("18", "-2.5", "+.5", "7.", "1e2", "2.5E-1") into
/// tenths.
///
/// A numeral is an optional sign, digits with at most one point and at least
/// one digit, and an optional exponent: 'e' or 'E', an optional sign and at
/// least one digit. The value is rounded to tenths as it is read, half up on
/// the first digit that tenths cannot hold ("9.25" is 93 tenths, "9.24" is
/// 92), since the level book holds tenths and nothing finer. "inf" and "NaN"
/// are no numbers here, as tenths cannot hold them, and give `None`, as does
/// a numeral of more than `max_magnitude()` tenths.
#[verifier::opaque]
pub open spec fn parse_tenths(w: Seq<char>) -> Option<int> {
    let neg = w.len() > 0 && w[0] == '-';
    let body = if w.len() > 0 && (w[0] == '-' || w[0] == '+') {
        w.drop_first()
    } else {
        w
    };
    let m = exp_index(body) as int;
    let mant = body.take(m);
    let p = dot_index(mant) as int;
    let frac = if p < mant.len() {
        mant.skip(p + 1)
    } else {
        seq![]
    };
    let ex = if m < body.len() {
        body.skip(m + 1)
    } else {
        seq![]
    };
    let eneg = ex.len() > 0 && ex[0] == '-';
    let edigits = if ex.len() > 0 && (ex[0] == '-' || ex[0] == '+') {
        ex.drop_first()
    } else {
        ex
    };
    numeral_tenths(neg, mant.take(p), frac, m < body.len(), eneg, edigits)
}

pub proof fn lemma_digit_char(d: int)
    requires
        0 <= d < 10,
    ensures
        is_digit(digit_char(d)),
        digit_value(digit_char(d)) == d,
        digit_char(d) != '.',
        digit_char(d) != '-',
        digit_char(d) != '+',
{
}

pub proof fn lemma_digits_value_nonneg(s: Seq<char>)
    requires
        all_digits(s),
    ensures
        digits_value(s) >= 0,
    decreases s.len(),
{
    if s.len() > 0 {
        lemma_digits_value_nonneg(s.drop_last());
    }
}

/// `nat_text` is a non-empty run of digits whose value is the number.
pub proof fn lemma_nat_text(n: nat)
    ensures
        nat_text(n).len() >= 1,
        all_digits(nat_text(n)),
        digits_value(nat_text(n)) == n,
    decreases n,
{
    if n < 10 {
        lemma_digit_char(n as int);
        let s = nat_text(n);
        assert(s.drop_last() =~= Seq::<char>::empty());
        assert(digits_value(s.drop_last()) == 0);
        assert(s.last() == digit_char(n as int));
    } else {
        lemma_nat_text(n / 10);
        lemma_digit_char((n % 10) as int);
        let s = nat_text(n);
        assert(s.drop_last() =~= nat_text(n / 10));
        assert(s.last() == digit_char((n % 10) as int));
        assert(n == (n / 10) * 10 + n % 10) by (nonlinear_arith);
        assert forall|i: int| 0 <= i < s.len() implies is_digit(#[trigger] s[i]) by {
            if i < s.len() - 1 {
                assert(s[i] == nat_text(n / 10)[i]);
            }
        }
    }
}

/// `first_of` is the index of the first `a` or `b`.
pub proof fn lemma_first_of_at(s: Seq<char>, a: char, b: char, k: int)
    requires
        0 <= k <= s.len(),
        forall|i: int| 0 <= i < k ==> #[trigger] s[i] != a && s[i] != b,
        k == s.len() || s[k] == a || s[k] == b,
    ensures
        first_of(s, a, b) == k,
    decreases k,
{
    if k > 0 {
        assert(s[0] != a && s[0] != b);
        assert forall|i: int| 0 <= i < k - 1 implies #[trigger] s.drop_first()[i] != a
            && s.drop_first()[i] != b by {
            assert(s.drop_first()[i] == s[i + 1]);
        }
        if k - 1 < s.drop_first().len() {
            assert(s.drop_first()[k - 1] == s[k]);
        }
        lemma_first_of_at(s.drop_first(), a, b, k - 1);
    }
}

pub proof fn lemma_pow10_pos(k: nat)
    ensures
        pow10(k) >= 1,
    decreases k,
{
    if k > 0 {
        lemma_pow10_pos((k - 1) as nat);
    }
}

pub proof fn lemma_pow10_mono(i: nat, j: nat)
    requires
        i <= j,
    ensures
        pow10(i) <= pow10(j),
    decreases j,
{
    if i < j {
        lemma_pow10_mono(i, (j - 1) as nat);
        lemma_pow10_pos((j - 1) as nat);
    }
}

/// A run of digits is worth at least as much as each of its prefixes.
pub proof fn lemma_prefix_value_mono(d: Seq<char>, i: int, j: int)
    requires
        all_digits(d),
        0 <= i <= j <= d.len(),
    ensures
        digits_value(d.take(i)) <= digits_value(d.take(j)),
    decreases j - i,
{
    if i < j {
        lemma_prefix_value_mono(d, i, j - 1);
        let t = d.take(j);
        let u = d.take(j - 1);
        assert(t.drop_last() =~= u);
        assert(t.last() == d[j - 1]);
        assert(all_digits(u)) by {
            assert forall|k: int| 0 <= k < u.len() implies is_digit(#[trigger] u[k]) by {
                assert(u[k] == d[k]);
            }
        }
        lemma_digits_value_nonneg(u);
    }
}

/// The value of a run of digits with one more digit taken.
pub proof fn lemma_take_one_more(d: Seq<char>, i: int)
    requires
        0 <= i < d.len(),
    ensures
        digits_value(d.take(i + 1)) == digits_value(d.take(i)) * 10 + digit_value(d[i]),
{
    assert(d.take(i + 1).drop_last() =~= d.take(i));
    assert(d.take(i + 1).last() == d[i]);
}

/// Writing tenths and reading them back gives the same tenths, for every
/// value of at most 2^63 tenths (every `i64` and its negation).
pub proof fn lemma_tenths_roundtrip(t: int)
    requires
        abs(t) <= max_magnitude(),
    ensures
        parse_tenths(tenths_text(t)) == Some(t),
        tenths_text(t).len() >= 1,
        tenths_text(t)[0] != '#',
        forall|i: int| 0 <= i < tenths_text(t).len() ==> !crate::text::is_space(#[trigger] tenths_text(t)[i]),
{
    reveal(parse_tenths);
    let a = abs(t);
    let n = (a / 10) as nat;
    lemma_nat_text(n);
    let digits = nat_text(n);
    let sign: Seq<char> = if t < 0 { seq!['-'] } else { seq![] };
    let frac: Seq<char> = if a % 10 == 0 { seq![] } else { seq!['.', digit_char(a % 10)] };
    let w = tenths_text(t);
    assert(w == sign + digits + frac);
    lemma_digit_char(a % 10);
    assert(a == (a / 10) * 10 + a % 10) by (nonlinear_arith)
        requires a >= 0;
    let body = digits + frac;
    if t < 0 {
        assert(w[0] == '-');
        assert(w.drop_first() =~= body);
    } else {
        assert(w =~= body);
        assert(w[0] == digits[0]);
    }
    assert forall|i: int| 0 <= i < body.len() implies #[trigger] body[i] != 'e' && body[i] != 'E' by {
        if i < digits.len() {
            assert(is_digit(digits[i]));
        }
    }
    lemma_first_of_at(body, 'e', 'E', body.len() as int);
    assert(body.take(body.len() as int) =~= body);
    assert forall|i: int| 0 <= i < digits.len() implies #[trigger] body[i] != '.' && body[i] != '.' by {
        assert(is_digit(digits[i]));
    }
    lemma_first_of_at(body, '.', '.', digits.len() as int);
    assert(body.take(digits.len() as int) =~= digits);
    let fdigits: Seq<char> = if a % 10 == 0 { seq![] } else { seq![digit_char(a % 10)] };
    if a % 10 == 0 {
        assert(body =~= digits);
    } else {
        assert(body.skip(digits.len() + 1 as int) =~= fdigits);
    }
    let d = digits + fdigits;
    assert(all_digits(fdigits));
    if a % 10 == 0 {
        assert(d =~= digits);
        assert(pow10(1) == 10) by {
            reveal_with_fuel(pow10, 2);
        }
    } else {
        assert(d.drop_last() =~= digits);
        assert(d.last() == digit_char(a % 10));
    }
    assert forall|i: int| 0 <= i < w.len() implies !crate::text::is_space(#[trigger] w[i]) by {
        if t < 0 {
            if i > 0 {
                assert(w[i] == body[i - 1]);
            }
        } else {
            assert(w[i] == body[i]);
        }
        if i < sign.len() + digits.len() && i >= sign.len() {
            assert(is_digit(digits[i - sign.len()]));
        }
    }
}

// ------------------------------------------------------------------
// Executable side
// ------------------------------------------------------------------

pub fn digit_to_char(d: u64) -> (c: char)
    requires
        d < 10,
    ensures
        c == digit_char(d as int),
{
    let b: u8 = d as u8;
    (b + 48) as char
}

/// Appends the decimal numeral of `n`.
pub fn push_nat(out: &mut Vec<char>, n: u64)
    ensures
        final(out)@ == old(out)@ + nat_text(n as nat),
    decreases n,
{
    if n >= 10 {
        push_nat(out, n / 10);
    }
    let c = digit_to_char(n % 10);
    out.push(c);
    proof {
        if n < 10 {
            assert(nat_text(n as nat) =~= seq![digit_char(n as int)]);
        }
        assert(out@ =~= old(out)@ + nat_text(n as nat));
    }
}

/// The decimal numeral of a whole number, with a minus sign when negative.
pub open spec fn int_text(v: int) -> Seq<char> {
    if v < 0 {
        seq!['-'] + nat_text((-v) as nat)
    } else {
        nat_text(v as nat)
    }
}

/// Appends the decimal numeral of `v` (`int_text`).
pub fn push_int(out: &mut Vec<char>, v: i64)
    ensures
        final(out)@ == old(out)@ + int_text(v as int),
{
    let ghost before = out@;
    if v < 0 {
        out.push('-');
        let mag: u64 = ((-(v + 1)) as u64) + 1;
        push_nat(out, mag);
        assert(out@ =~= before + int_text(v as int));
    } else {
        push_nat(out, v as u64);
    }
}

/// Appends how the tenths `-mag` (when `neg`) or `mag` are written.
fn push_sign_mag(out: &mut Vec<char>, neg: bool, mag: u64)
    requires
        neg ==> mag > 0,
    ensures
        final(out)@ == old(out)@ + tenths_text(if neg { -(mag as int) } else { mag as int }),
{
    let ghost t: int = if neg { -(mag as int) } else { mag as int };
    assert(abs(t) == mag);
    let ghost before = out@;
    if neg {
        out.push('-');
    }
    push_nat(out, mag / 10);
    if mag % 10 != 0 {
        out.push('.');
        let c = digit_to_char(mag % 10);
        out.push(c);
    }
    proof {
        let sign: Seq<char> = if neg { seq!['-'] } else { seq![] };
        let frac: Seq<char> = if mag % 10 == 0 { seq![] } else { seq!['.', digit_char((mag % 10) as int)] };
        assert(out@ =~= before + (sign + nat_text((mag / 10) as nat) + frac));
    }
}

/// Appends how `t` tenths are written (`tenths_text`).
pub fn push_tenths(out: &mut Vec<char>, t: i64)
    ensures
        final(out)@ == old(out)@ + tenths_text(t as int),
{
    if t < 0 {
        let mag: u64 = ((-(t + 1)) as u64) + 1;
        push_sign_mag(out, true, mag);
    } else {
        push_sign_mag(out, false, t as u64);
    }
}

/// Appends how `-t` tenths are written (`tenths_text(-t)`), for any `t`.
pub fn push_neg_tenths(out: &mut Vec<char>, t: i64)
    ensures
        final(out)@ == old(out)@ + tenths_text(-(t as int)),
{
    if t > 0 {
        push_sign_mag(out, true, t as u64);
    } else if t == 0 {
        push_sign_mag(out, false, 0);
    } else {
        let mag: u64 = ((-(t + 1)) as u64) + 1;
        push_sign_mag(out, false, mag);
    }
}

/// Whether `s[a..b]` is a run of digits.
fn digits_only(s: &Vec<char>, a: usize, b: usize) -> (r: bool)
    requires
        a <= b <= s@.len(),
    ensures
        r == all_digits(s@.subrange(a as int, b as int)),
{
    let mut i = a;
    while i < b
        invariant
            a <= i <= b <= s@.len(),
            all_digits(s@.subrange(a as int, i as int)),
        decreases b - i,
    {
        let c = s[i];
        if !('0' <= c && c <= '9') {
            proof {
                assert(s@.subrange(a as int, b as int)[i - a] == c);
            }
            return false;
        }
        proof {
            let pre = s@.subrange(a as int, i as int);
            let post = s@.subrange(a as int, i + 1);
            assert forall|k: int| 0 <= k < post.len() implies is_digit(#[trigger] post[k]) by {
                if k < pre.len() {
                    assert(post[k] == pre[k]);
                }
            }
        }
        i = i + 1;
    }
    true
}

/// Index of the first `x` or `y` in `s[a..b]`, or `b` when there is none.
fn find_first_of(s: &Vec<char>, a: usize, b: usize, x: char, y: char) -> (m: usize)
    requires
        a <= b <= s@.len(),
    ensures
        a <= m <= b,
        m - a == first_of(s@.subrange(a as int, b as int), x, y),
{
    let mut i = a;
    while i < b && s[i] != x && s[i] != y
        invariant
            a <= i <= b <= s@.len(),
            forall|k: int| a <= k < i ==> s@[k] != x && s@[k] != y,
        decreases b - i,
    {
        i = i + 1;
    }
    proof {
        let sub = s@.subrange(a as int, b as int);
        assert forall|k: int| 0 <= k < i - a implies #[trigger] sub[k] != x && sub[k] != y by {
            assert(sub[k] == s@[a + k]);
        }
        if i < b {
            assert(sub[i - a] == s@[i as int]);
        }
        lemma_first_of_at(sub, x, y, i - a);
    }
    i
}

/// The value of the digits `d[..n]`, when it is at most `cap`.
fn capped_value(d: &Vec<char>, n: usize, cap: u128) -> (r: Option<u128>)
    requires
        n <= d@.len(),
        all_digits(d@),
        cap <= 0x1_0000_0000_0000_0000_0000_0000,
    ensures
        match r {
            Some(v) => v == digits_value(d@.take(n as int)) && v <= cap,
            None => digits_value(d@.take(n as int)) > cap,
        },
{
    let mut acc: u128 = 0;
    let mut i: usize = 0;
    proof {
        assert(d@.take(0) =~= Seq::<char>::empty());
    }
    while i < n
        invariant
            i <= n <= d@.len(),
            all_digits(d@),
            cap <= 0x1_0000_0000_0000_0000_0000_0000,
            acc == digits_value(d@.take(i as int)),
            acc <= cap,
        decreases n - i,
    {
        proof {
            lemma_take_one_more(d@, i as int);
            assert(is_digit(d@[i as int]));
        }
        let dg = (d[i] as u32 - 48) as u128;
        let next = acc * 10 + dg;
        if next > cap {
            proof {
                lemma_prefix_value_mono(d@, i + 1, n as int);
            }
            return None;
        }
        acc = next;
        i = i + 1;
    }
    Some(acc)
}

/// `rounded_tenths(d, c)`, when it is at most `max_magnitude()`.
fn rounded_at(d: &Vec<char>, c: i128) -> (r: Option<u128>)
    requires
        all_digits(d@),
        -0x1_0000_0000_0000_0000_0000 <= c <= 0x1_0000_0000_0000_0000_0000,
    ensures
        match r {
            Some(v) => v == rounded_tenths(d@, c as int) && v <= max_magnitude(),
            None => rounded_tenths(d@, c as int) > max_magnitude(),
        },
{
    if c < 0 {
        return Some(0);
    }
    let len = d.len();
    if c < len as i128 {
        let n = c as usize;
        proof {
            assert(is_digit(d@[n as int]));
        }
        match capped_value(d, n, 9_223_372_036_854_775_808) {
            None => None,
            Some(v) => {
                let up: u128 = if d[n] >= '5' {
                    1
                } else {
                    0
                };
                if v + up > 9_223_372_036_854_775_808 {
                    None
                } else {
                    Some(v + up)
                }
            },
        }
    } else {
        let k: u128 = (c - len as i128) as u128;
        proof {
            assert(d@.take(len as int) =~= d@);
            lemma_pow10_pos(k as nat);
        }
        match capped_value(d, len, 9_223_372_036_854_775_808) {
            None => {
                proof {
                    let dv = digits_value(d@);
                    let p = pow10(k as nat);
                    assert(dv * p >= dv) by (nonlinear_arith)
                        requires dv > 0, p >= 1;
                }
                None
            },
            Some(v) => {
                if v == 0 {
                    return Some(0);
                }
                let mut acc: u128 = v;
                let mut j: u128 = 0;
                proof {
                    assert(pow10(0) == 1);
                }
                while j < k
                    invariant
                        j <= k,
                        v >= 1,
                        v == digits_value(d@),
                        k == c - d@.len(),
                        acc == v * pow10(j as nat),
                        1 <= acc <= 9_223_372_036_854_775_808,
                    decreases k - j,
                {
                    proof {
                        assert(pow10((j + 1) as nat) == 10 * pow10(j as nat));
                        assert(v * pow10((j + 1) as nat) == acc * 10) by (nonlinear_arith)
                            requires
                                pow10((j + 1) as nat) == 10 * pow10(j as nat),
                                acc == v * pow10(j as nat);
                    }
                    if acc > 922_337_203_685_477_580 {
                        proof {
                            lemma_pow10_mono((j + 1) as nat, k as nat);
                            let p1 = pow10((j + 1) as nat);
                            let pk = pow10(k as nat);
                            assert(v * pk >= v * p1) by (nonlinear_arith)
                                requires v >= 1, pk >= p1;
                        }
                        return None;
                    }
                    acc = acc * 10;
                    j = j + 1;
                }
                Some(acc)
            },
        }
    }
}

/// How `parse_tenths` takes the numeral `s[start..end]` apart: the sign
/// ends at `b`, the exponent starts at `m`, the point stands at `dot`, and
/// the exponent's digits start at `es`.
proof fn lemma_numeral_parts(
    s: Seq<char>,
    start: int,
    end: int,
    b: int,
    m: int,
    dot: int,
    es: int,
    neg: bool,
    eneg: bool,
)
    requires
        0 <= start <= b <= dot <= m <= es <= end <= s.len(),
        neg == (start < end && s[start] == '-'),
        b == if start < end && (s[start] == '-' || s[start] == '+') {
            start + 1
        } else {
            start
        },
        m - b == exp_index(s.subrange(b, end)),
        dot - b == dot_index(s.subrange(b, m)),
        m == end ==> es == end && !eneg,
        m < end ==> eneg == (m + 1 < end && s[m + 1] == '-'),
        m < end ==> es == if m + 1 < end && (s[m + 1] == '-' || s[m + 1] == '+') {
            m + 2
        } else {
            m + 1
        },
    ensures
        parse_tenths(s.subrange(start, end)) == numeral_tenths(
            neg,
            s.subrange(b, dot),
            s.subrange(if dot < m { dot + 1 } else { m }, m),
            m < end,
            eneg,
            s.subrange(es, end),
        ),
{
    reveal(parse_tenths);
    let w = s.subrange(start, end);
    let body = s.subrange(b, end);
    if start < end && (s[start] == '-' || s[start] == '+') {
        assert(body =~= w.drop_first());
    } else {
        assert(body =~= w);
    }
    let mant = body.take(m - b);
    let frac = s.subrange(if dot < m { dot + 1 } else { m }, m);
    let edigits = s.subrange(es, end);
    assert(mant =~= s.subrange(b, m));
    assert(mant.take(dot - b) =~= s.subrange(b, dot));
    if dot < m {
        assert(mant.skip(dot - b + 1) =~= frac);
    } else {
        assert(frac =~= Seq::<char>::empty());
    }
    if m < end {
        let ex = body.skip(m - b + 1);
        assert(ex =~= s.subrange(m + 1, end));
        if m + 1 < end {
            assert(ex[0] == s[m + 1]);
        }
        if m + 1 < end && (s[m + 1] == '-' || s[m + 1] == '+') {
            assert(ex.drop_first() =~= edigits);
        } else {
            assert(ex =~= edigits);
        }
    } else {
        assert(edigits =~= Seq::<char>::empty());
    }
}

/// Reads `s[start..end]` as a numeral in tenths (`parse_tenths`).
pub fn parse_tenths_at(s: &Vec<char>, start: usize, end: usize) -> (r: Option<i128>)
    requires
        start <= end <= s@.len(),
    ensures
        match parse_tenths(s@.subrange(start as int, end as int)) {
            Some(v) => r == Some(v as i128) && abs(v) <= max_magnitude(),
            None => r is None,
        },
{
    let mut b = start;
    let mut neg = false;
    if b < end && (s[b] == '-' || s[b] == '+') {
        neg = s[b] == '-';
        b = b + 1;
    }
    let m = find_first_of(s, b, end, 'e', 'E');
    let dot = find_first_of(s, b, m, '.', '.');
    let frac_start = if dot < m {
        dot + 1
    } else {
        m
    };
    let mut valid = digits_only(s, b, dot) && digits_only(s, frac_start, m) && (dot > b || m
        > frac_start);
    let mut eneg = false;
    let mut es = m;
    if m < end {
        es = m + 1;
        if es < end && (s[es] == '-' || s[es] == '+') {
            eneg = s[es] == '-';
            es = es + 1;
        }
        valid = valid && es < end && digits_only(s, es, end);
    }
    let ghost whole = s@.subrange(b as int, dot as int);
    let ghost frac = s@.subrange(frac_start as int, m as int);
    let ghost edigits = s@.subrange(es as int, end as int);
    proof {
        lemma_numeral_parts(s@, start as int, end as int, b as int, m as int, dot as int, es as int, neg, eneg);
    }
    if !valid {
        return None;
    }
    let mut digits: Vec<char> = Vec::new();
    push_range(&mut digits, s, b, dot);
    push_range(&mut digits, s, frac_start, m);
    let mut ev: Vec<char> = Vec::new();
    push_range(&mut ev, s, es, end);
    proof {
        assert(digits@ =~= whole + frac);
        assert(ev@ =~= edigits);
        assert(all_digits(digits@)) by {
            assert forall|k: int| 0 <= k < digits@.len() implies is_digit(#[trigger] digits@[k]) by {
                if k < whole.len() {
                    assert(digits@[k] == whole[k]);
                } else {
                    assert(digits@[k] == frac[k - whole.len()]);
                }
            }
        }
        if m >= end {
            assert(all_digits(edigits));
        }
    }
    scaled_tenths_of(neg, &digits, dot - b, eneg, &ev)
}

/// `scaled_tenths` of the digits `d` and the exponent digits `ev`.
fn scaled_tenths_of(neg: bool, d: &Vec<char>, wl: usize, eneg: bool, ev: &Vec<char>) -> (r: Option<i128>)
    requires
        all_digits(d@),
        all_digits(ev@),
        wl <= d@.len(),
    ensures
        match scaled_tenths(neg, d@, wl as int, eneg, ev@) {
            Some(v) => r == Some(v as i128) && abs(v) <= max_magnitude(),
            None => r is None,
        },
{
    let len = d.len();
    proof {
        assert(ev@.take(ev@.len() as int) =~= ev@);
        assert(d@.take(d@.len() as int) =~= d@);
    }
    let ghost ct: int = wl + (if eneg {
        -digits_value(ev@)
    } else {
        digits_value(ev@)
    }) + 1;
    let mag: Option<u128> = match capped_value(ev, ev.len(), 0x4_0000_0000_0000_0000) {
        Some(e) => {
            let c = if eneg {
                wl as i128 + 1 - e as i128
            } else {
                wl as i128 + 1 + e as i128
            };
            assert(c == ct);
            rounded_at(d, c)
        },
        None => {
            if eneg {
                assert(ct < 0);
                assert(rounded_tenths(d@, ct) == 0);
                Some(0)
            } else {
                let z = capped_value(d, len, 0);
                proof {
                    let e = digits_value(ev@);
                    let c = wl + e + 1;
                    let k = (c - d@.len()) as nat;
                    assert(k >= 19);
                    lemma_pow10_mono(19, k);
                    assert(pow10(19) == 10_000_000_000_000_000_000) by {
                        reveal_with_fuel(pow10, 20);
                    }
                    let dv = digits_value(d@);
                    let p = pow10(k);
                    lemma_digits_value_nonneg(d@);
                    if dv > 0 {
                        assert(dv * p >= p) by (nonlinear_arith)
                            requires dv >= 1, p >= 1;
                    }
                }
                match z {
                    Some(_) => {
                        assert(ct >= d@.len());
                        assert(digits_value(d@) == 0);
                        assert(rounded_tenths(d@, ct) == 0);
                        Some(0)
                    },
                    None => None,
                }
            }
        },
    };
    assert(match mag {
        Some(v) => v == rounded_tenths(d@, ct) && v <= max_magnitude(),
        None => rounded_tenths(d@, ct) > max_magnitude(),
    });
    match mag {
        None => None,
        Some(v) => {
            if neg {
                Some(-(v as i128))
            } else {
                Some(v as i128)
            }
        },
    }
}

} // verus!
