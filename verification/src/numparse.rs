//! Numeric values of record fields.
//!
//! Scores, field-of-view values, frame rates and sensitivities are plain
//! decimal numbers in the record files.  The library holds such a number
//! exactly as a [`Decimal`]: a sign, an integer mantissa and a power-of-ten
//! scale, so that `-12.5` is `-125 / 10^1`.  A field that does not match the
//! decimal grammar parses to zero; so does an integer field out of range.
//! Values of more than 18 digits are treated as unparseable.

use vstd::prelude::*;

use crate::strutil::find_char_from;
use crate::strutil::first_char_from;

verus! {

/// An exact decimal number: `mant / 10^scale`, negated when `neg`.
#[derive(Clone, Copy, Debug, PartialEq, Eq, Structural)]
pub struct Decimal {
    pub neg: bool,
    pub mant: u64,
    pub scale: u32,
}

/// The largest mantissa a parsed decimal can carry (18 digits).
pub open spec fn max_mant() -> int {
    1_000_000_000_000_000_000
}

/// Well-formed decimals have a bounded mantissa and scale, so that two of
/// them can be compared by cross-multiplication without overflow.
pub open spec fn dec_wf(d: Decimal) -> bool {
    d.mant <= max_mant() && d.scale <= 18
}

/// The zero a malformed or missing numeric field defaults to.
pub open spec fn dec_zero() -> Decimal {
    Decimal { neg: false, mant: 0, scale: 0 }
}

/// Exec constructor for the default zero value.
pub fn decimal_zero() -> (d: Decimal)
    ensures
        d == dec_zero(),
        dec_wf(d),
{
    Decimal { neg: false, mant: 0, scale: 0 }
}

pub open spec fn is_digit(c: char) -> bool {
    48 <= c as int <= 57
}

pub open spec fn digit_val(c: char) -> int {
    c as int - 48
}

pub open spec fn all_digits(s: Seq<char>) -> bool {
    forall|i: int| 0 <= i < s.len() ==> is_digit(#[trigger] s[i])
}

/// Value of a digit string read in base ten.
pub open spec fn digits_val(s: Seq<char>) -> int
    decreases s.len(),
{
    if s.len() == 0 {
        0
    } else {
        digits_val(s.drop_last()) * 10 + digit_val(s.last())
    }
}

pub open spec fn pow10(n: nat) -> int
    decreases n,
{
    if n == 0 {
        1
    } else {
        10 * pow10((n - 1) as nat)
    }
}

proof fn lemma_pow10_pos(n: nat)
    ensures
        pow10(n) >= 1,
    decreases n,
{
    if n > 0 {
        lemma_pow10_pos((n - 1) as nat);
    }
}

proof fn lemma_pow10_mono(m: nat, n: nat)
    requires
        m <= n,
    ensures
        pow10(m) <= pow10(n),
    decreases n,
{
    if m < n {
        lemma_pow10_mono(m, (n - 1) as nat);
        lemma_pow10_pos((n - 1) as nat);
    }
}

proof fn lemma_pow10_18()
    ensures
        pow10(18) == max_mant(),
{
    reveal_with_fuel(pow10, 19);
}

proof fn lemma_digits_val_bound(s: Seq<char>)
    requires
        all_digits(s),
    ensures
        0 <= digits_val(s) < pow10(s.len()),
    decreases s.len(),
{
    if s.len() == 0 {
    } else {
        assert(all_digits(s.drop_last()));
        lemma_digits_val_bound(s.drop_last());
        assert(is_digit(s.last()));
    }
}

/// The decimal a field parses to: an optional sign, digits with at most one
/// point and at least one digit, no more than 18 digits in all.  Anything
/// else is zero.  The grammar is deliberately that of a plain decimal:
/// exponent notation and non-finite forms (`1e5`, `inf`, `NaN`) lie outside
/// it and degrade to zero, as an exact mantissa-and-scale number cannot
/// carry them.
pub open spec fn dec_of(s: Seq<char>) -> Decimal {
    let start: int = if s.len() > 0 && (s[0] == '-' || s[0] == '+') {
        1
    } else {
        0
    };
    let neg = s.len() > 0 && s[0] == '-';
    match first_char_from(s, '.', start) {
        None => {
            let ip = s.subrange(start, s.len() as int);
            if 1 <= ip.len() <= 18 && all_digits(ip) {
                Decimal { neg, mant: digits_val(ip) as u64, scale: 0 }
            } else {
                dec_zero()
            }
        },
        Some(i) => {
            let ip = s.subrange(start, i);
            let fp = s.subrange(i + 1, s.len() as int);
            if 1 <= ip.len() + fp.len() <= 18 && all_digits(ip) && all_digits(fp) {
                Decimal {
                    neg,
                    mant: (digits_val(ip) * pow10(fp.len()) + digits_val(fp)) as u64,
                    scale: fp.len() as u32,
                }
            } else {
                dec_zero()
            }
        },
    }
}

proof fn lemma_dec_of_wf(s: Seq<char>)
    ensures
        dec_wf(dec_of(s)),
{
    let start: int = if s.len() > 0 && (s[0] == '-' || s[0] == '+') {
        1
    } else {
        0
    };
    match first_char_from(s, '.', start) {
        None => {
            let ip = s.subrange(start, s.len() as int);
            if 1 <= ip.len() <= 18 && all_digits(ip) {
                lemma_digits_val_bound(ip);
                lemma_pow10_mono(ip.len(), 18);
                lemma_pow10_18();
            }
        },
        Some(i) => {
            let ip = s.subrange(start, i);
            let fp = s.subrange(i + 1, s.len() as int);
            if 1 <= ip.len() + fp.len() <= 18 && all_digits(ip) && all_digits(fp) {
                lemma_digits_val_bound(ip);
                lemma_digits_val_bound(fp);
                lemma_pow10_mono(ip.len() + fp.len(), 18);
                lemma_pow10_18();
                lemma_combined_bound(ip, fp);
            }
        },
    }
}

/// The two digit runs around a point read as one mantissa stay within the
/// bound given by their joint length.
proof fn lemma_combined_bound(ip: Seq<char>, fp: Seq<char>)
    requires
        all_digits(ip),
        all_digits(fp),
    ensures
        0 <= digits_val(ip) * pow10(fp.len()) + digits_val(fp) < pow10(ip.len() + fp.len()),
{
    lemma_digits_val_bound(ip);
    lemma_digits_val_bound(fp);
    lemma_pow10_pos(fp.len());
    lemma_pow10_add(ip.len(), fp.len());
    let a = digits_val(ip);
    let b = digits_val(fp);
    let p = pow10(fp.len());
    let q = pow10(ip.len());
    assert(a * p + b < q * p) by (nonlinear_arith)
        requires
            0 <= a < q,
            0 <= b < p,
            p >= 1,
    ;
    assert(a * p >= 0) by (nonlinear_arith)
        requires
            a >= 0,
            p >= 1,
    ;
}

proof fn lemma_pow10_add(m: nat, n: nat)
    ensures
        pow10(m + n) == pow10(m) * pow10(n),
    decreases m,
{
    if m == 0 {
    } else {
        lemma_pow10_add((m - 1) as nat, n);
        assert(pow10(m + n) == 10 * pow10((m + n - 1) as nat));
        assert(10 * (pow10((m - 1) as nat) * pow10(n)) == (10 * pow10((m - 1) as nat)) * pow10(
            n,
        )) by (nonlinear_arith);
    }
}

/// Reads the digits of `s` at `[a, b)` on top of `init`, as when the runs
/// before and after a decimal point form one mantissa.
fn digits_to_u64(s: &str, a: usize, b: usize, init: u64, Ghost(k): Ghost<nat>) -> (m: u64)
    requires
        a <= b <= s@.len(),
        all_digits(s@.subrange(a as int, b as int)),
        init < pow10(k),
        k + (b - a) <= 18,
    ensures
        m == init * pow10((b - a) as nat) + digits_val(s@.subrange(a as int, b as int)),
        m < pow10((k + (b - a)) as nat),
{
    let mut i: usize = a;
    let mut m: u64 = init;
    proof {
        assert(s@.subrange(a as int, a as int) =~= Seq::<char>::empty());
        lemma_pow10_18();
    }
    while i < b
        invariant
            a <= i <= b <= s@.len(),
            all_digits(s@.subrange(a as int, b as int)),
            init < pow10(k),
            k + (b - a) <= 18,
            m == init * pow10((i - a) as nat) + digits_val(s@.subrange(a as int, i as int)),
            m < pow10((k + (i - a)) as nat),
        decreases b - i,
    {
        let c = s.get_char(i);
        proof {
            assert(s@.subrange(a as int, b as int)[i - a] == s@[i as int]);
            assert(is_digit(s@[i as int]));
            lemma_pow10_mono((k + (i - a) + 1) as nat, 18);
            lemma_pow10_18();
            assert(m * 10 + 9 < pow10((k + (i - a) + 1) as nat)) by {
                assert(pow10((k + (i - a) + 1) as nat) == 10 * pow10((k + (i - a)) as nat));
                assert(m * 10 + 10 <= pow10((k + (i - a)) as nat) * 10) by (nonlinear_arith)
                    requires
                        m < pow10((k + (i - a)) as nat),
                ;
            }
        }
        let d: u64 = (c as u32 - 48) as u64;
        let ghost pre = s@.subrange(a as int, i as int);
        let ghost cur = s@.subrange(a as int, i + 1);
        m = m * 10 + d;
        i = i + 1;
        proof {
            assert(cur.drop_last() =~= pre);
            assert(cur.last() == s@[i - 1]);
            assert(digits_val(cur) == digits_val(pre) * 10 + digit_val(s@[i - 1]));
            assert(pow10((i - a) as nat) == 10 * pow10((i - 1 - a) as nat));
            assert((init * pow10((i - 1 - a) as nat) + digits_val(pre)) * 10 == init * (pow10(
                (i - 1 - a) as nat,
            ) * 10) + digits_val(pre) * 10) by (nonlinear_arith);
        }
    }
    m
}

/// Checks that the characters of `s` at `[a, b)` are all decimal digits.
fn check_digits(s: &str, a: usize, b: usize) -> (r: bool)
    requires
        a <= b <= s@.len(),
    ensures
        r == all_digits(s@.subrange(a as int, b as int)),
{
    let mut i: usize = a;
    while i < b
        invariant
            a <= i <= b <= s@.len(),
            forall|j: int| a <= j < i ==> is_digit(#[trigger] s@[j]),
        decreases b - i,
    {
        let c = s.get_char(i);
        let v: u32 = c as u32;
        if v < 48 || v > 57 {
            proof {
                assert(s@.subrange(a as int, b as int)[i - a] == s@[i as int]);
            }
            return false;
        }
        i = i + 1;
    }
    proof {
        assert forall|j: int| 0 <= j < b - a implies is_digit(
            #[trigger] s@.subrange(a as int, b as int)[j],
        ) by {
            assert(s@.subrange(a as int, b as int)[j] == s@[a + j]);
        }
    }
    true
}

/// Parses `s` as a decimal number, per `dec_of`: malformed input gives zero.
pub fn parse_decimal(s: &str) -> (d: Decimal)
    ensures
        d == dec_of(s@),
        dec_wf(d),
{
    proof {
        lemma_dec_of_wf(s@);
    }
    let n: usize = s.unicode_len();
    let mut start: usize = 0;
    let mut neg: bool = false;
    if n > 0 {
        let c0 = s.get_char(0);
        if c0 == '-' {
            neg = true;
            start = 1;
        } else if c0 == '+' {
            start = 1;
        }
    }
    match find_char_from(s, '.', start) {
        None => {
            let len: usize = n - start;
            if 1 <= len && len <= 18 && check_digits(s, start, n) {
                proof {
                    lemma_digits_val_bound(s@.subrange(start as int, n as int));
                }
                let m = digits_to_u64(s, start, n, 0, Ghost(0));
                Decimal { neg, mant: m, scale: 0 }
            } else {
                decimal_zero()
            }
        },
        Some(i) => {
            let iplen: usize = i - start;
            let fplen: usize = n - (i + 1);
            if 1 <= iplen + fplen && iplen + fplen <= 18 && check_digits(s, start, i)
                && check_digits(s, i + 1, n) {
                let m1 = digits_to_u64(s, start, i, 0, Ghost(0));
                proof {
                    lemma_digits_val_bound(s@.subrange(start as int, i as int));
                }
                let m = digits_to_u64(s, i + 1, n, m1, Ghost(iplen as nat));
                proof {
                    lemma_pow10_18();
                    lemma_pow10_mono((iplen + fplen) as nat, 18);
                }
                Decimal { neg, mant: m, scale: fplen as u32 }
            } else {
                decimal_zero()
            }
        },
    }
}

/// The 32-bit integer a field parses to: an optional sign and digits, in
/// range; anything else is zero.
pub open spec fn int32_of(s: Seq<char>) -> i32 {
    let start: int = if s.len() > 0 && (s[0] == '-' || s[0] == '+') {
        1
    } else {
        0
    };
    let neg = s.len() > 0 && s[0] == '-';
    let b = s.subrange(start, s.len() as int);
    if b.len() >= 1 && all_digits(b) {
        let v = digits_val(b);
        if neg {
            if v <= 0x8000_0000 {
                (-v) as i32
            } else {
                0
            }
        } else {
            if v <= 0x7fff_ffff {
                v as i32
            } else {
                0
            }
        }
    } else {
        0
    }
}

/// Parses `s` as a 32-bit integer, per `int32_of`: malformed or out-of-range
/// input gives zero.
pub fn parse_i32(s: &str) -> (r: i32)
    ensures
        r == int32_of(s@),
{
    let n: usize = s.unicode_len();
    let mut start: usize = 0;
    let mut neg: bool = false;
    if n > 0 {
        let c0 = s.get_char(0);
        if c0 == '-' {
            neg = true;
            start = 1;
        } else if c0 == '+' {
            start = 1;
        }
    }
    if n - start < 1 || !check_digits(s, start, n) {
        return 0;
    }
    let ghost b = s@.subrange(start as int, n as int);
    let mut acc: u64 = 0;
    let mut i: usize = start;
    proof {
        assert(s@.subrange(start as int, start as int) =~= Seq::<char>::empty());
    }
    while i < n
        invariant
            start <= i <= n,
            n == s@.len(),
            b == s@.subrange(start as int, n as int),
            all_digits(b),
            ({
                let dv = digits_val(s@.subrange(start as int, i as int));
                &&& (dv < 0x1_0000_0000 ==> acc == dv)
                &&& (dv >= 0x1_0000_0000 ==> acc >= 0x1_0000_0000)
                &&& acc <= 42_949_672_959
            }),
        decreases n - i,
    {
        let c = s.get_char(i);
        proof {
            assert(b[i - start] == s@[i as int]);
            assert(is_digit(s@[i as int]));
        }
        let d: u64 = (c as u32 - 48) as u64;
        let ghost pre = s@.subrange(start as int, i as int);
        let ghost cur = s@.subrange(start as int, i + 1);
        proof {
            assert(cur.drop_last() =~= pre);
            assert(cur.last() == s@[i as int]);
            assert(digits_val(cur) == digits_val(pre) * 10 + digit_val(s@[i as int]));
            assert(forall|j: int| 0 <= j < pre.len() ==> pre[j] == b[j]);
            lemma_digits_val_bound(pre);
        }
        if acc < 0x1_0000_0000 {
            acc = acc * 10 + d;
        } else {
            proof {
                let dv = digits_val(pre);
                assert(dv >= 0x1_0000_0000);
                assert(dv * 10 + digit_val(s@[i as int]) >= dv) by (nonlinear_arith)
                    requires
                        dv >= 0,
                        digit_val(s@[i as int]) >= 0,
                ;
            }
        }
        i = i + 1;
    }
    proof {
        assert(s@.subrange(start as int, i as int) =~= b);
    }
    if neg {
        if acc <= 0x8000_0000 {
            (-(acc as i64)) as i32
        } else {
            0
        }
    } else {
        if acc <= 0x7fff_ffff {
            acc as i32
        } else {
            0
        }
    }
}

/// The signed integer a decimal's mantissa stands for.
pub open spec fn numer(d: Decimal) -> int {
    if d.neg {
        -(d.mant as int)
    } else {
        d.mant as int
    }
}

/// Strict order on decimals by their exact value, compared by
/// cross-multiplication with the other side's scale.
pub open spec fn dec_gt(a: Decimal, b: Decimal) -> bool {
    numer(a) * pow10(b.scale as nat) > numer(b) * pow10(a.scale as nat)
}

fn pow10_u64(n: u32) -> (r: u64)
    requires
        n <= 18,
    ensures
        r == pow10(n as nat),
{
    let mut i: u32 = 0;
    let mut r: u64 = 1;
    while i < n
        invariant
            i <= n <= 18,
            r == pow10(i as nat),
            r <= max_mant(),
        decreases n - i,
    {
        proof {
            lemma_pow10_mono((i + 1) as nat, 18);
            lemma_pow10_18();
        }
        r = r * 10;
        i = i + 1;
    }
    r
}

/// Exec comparison of two well-formed decimals, per `dec_gt`.
pub fn decimal_gt(a: &Decimal, b: &Decimal) -> (r: bool)
    requires
        dec_wf(*a),
        dec_wf(*b),
    ensures
        r == dec_gt(*a, *b),
{
    let pa = pow10_u64(b.scale);
    let pb = pow10_u64(a.scale);
    proof {
        lemma_pow10_pos(a.scale as nat);
        lemma_pow10_pos(b.scale as nat);
        lemma_pow10_mono(a.scale as nat, 18);
        lemma_pow10_mono(b.scale as nat, 18);
        lemma_pow10_18();
        assert(a.mant * pa <= max_mant() * max_mant()) by (nonlinear_arith)
            requires
                0 <= a.mant <= max_mant(),
                0 <= pa <= max_mant(),
        ;
        assert(b.mant * pb <= max_mant() * max_mant()) by (nonlinear_arith)
            requires
                0 <= b.mant <= max_mant(),
                0 <= pb <= max_mant(),
        ;
        assert(a.mant * pa >= 0) by (nonlinear_arith)
            requires
                a.mant >= 0,
                pa >= 1,
        ;
        assert(b.mant * pb >= 0) by (nonlinear_arith)
            requires
                b.mant >= 0,
                pb >= 1,
        ;
    }
    let la: i128 = (a.mant as i128) * (pa as i128);
    let lb: i128 = (b.mant as i128) * (pb as i128);
    let na: i128 = if a.neg {
        -la
    } else {
        la
    };
    let nb: i128 = if b.neg {
        -lb
    } else {
        lb
    };
    proof {
        assert(-(a.mant as int) * pa == -(a.mant * pa)) by (nonlinear_arith);
        assert(-(b.mant as int) * pb == -(b.mant * pb)) by (nonlinear_arith);
    }
    na > nb
}

/// The order on decimals is transitive in the two forms the aggregation
/// proof needs: a strict bound carries over an equal-or-smaller value, and
/// equal-or-smaller composes.
pub proof fn lemma_dec_order_trans(a: Decimal, b: Decimal, c: Decimal)
    ensures
        dec_gt(a, b) && !dec_gt(c, b) ==> dec_gt(a, c),
        !dec_gt(a, b) && !dec_gt(b, c) ==> !dec_gt(a, c),
{
    let na = numer(a);
    let nb = numer(b);
    let nc = numer(c);
    let pa = pow10(a.scale as nat);
    let pb = pow10(b.scale as nat);
    let pc = pow10(c.scale as nat);
    lemma_pow10_pos(a.scale as nat);
    lemma_pow10_pos(b.scale as nat);
    lemma_pow10_pos(c.scale as nat);
    if dec_gt(a, b) && !dec_gt(c, b) {
        assert(na * pc > nc * pa) by (nonlinear_arith)
            requires
                na * pb > nb * pa,
                nc * pb <= nb * pc,
                pa >= 1,
                pb >= 1,
                pc >= 1,
        ;
    }
    if !dec_gt(a, b) && !dec_gt(b, c) {
        assert(na * pc <= nc * pa) by (nonlinear_arith)
            requires
                na * pb <= nb * pa,
                nb * pc <= nc * pb,
                pa >= 1,
                pb >= 1,
                pc >= 1,
        ;
    }
}

} // verus!
