//! Decimal amounts, held as a whole number of millionths.
use vstd::prelude::*;
use vstd::string::*;

verus! {

/// Largest magnitude of an amount, in millionths (one trillion units).
pub const MAX_UNITS: u128 = 1_000_000_000_000_000_000;

/// Exponent magnitudes above this are all read as this plus one; any such
/// exponent moves every digit out of range.
pub const EXPONENT_CAP: u128 = 100_000_000_000_000_000_000;

pub open spec fn is_digit(c: char) -> bool {
    '0' <= c && c <= '9'
}

pub open spec fn digit_value(c: char) -> int {
    c as int - '0' as int
}

pub open spec fn all_digits(s: Seq<char>) -> bool {
    forall|i: int| 0 <= i < s.len() ==> is_digit(#[trigger] s[i])
}

/// The number that a run of decimal digits spells.
pub open spec fn digits_value(s: Seq<char>) -> int
    decreases s.len(),
{
    if s.len() == 0 {
        0
    } else {
        digits_value(s.drop_last()) * 10 + digit_value(s.last())
    }
}

pub open spec fn pow10(k: nat) -> int
    decreases k,
{
    if k == 0 {
        1
    } else {
        10 * pow10((k - 1) as nat)
    }
}

pub open spec fn has_sign(s: Seq<char>) -> bool {
    s.len() > 0 && (s[0] == '-' || s[0] == '+')
}

pub open spec fn unsigned_part(s: Seq<char>) -> Seq<char> {
    if has_sign(s) {
        s.drop_first()
    } else {
        s
    }
}

pub open spec fn is_negative(s: Seq<char>) -> bool {
    s.len() > 0 && s[0] == '-'
}

pub open spec fn is_exponent_mark(c: char) -> bool {
    c == 'e' || c == 'E'
}

/// `q` is the index of the first exponent mark of `u`, or its length.
pub open spec fn mark_at(u: Seq<char>, q: int) -> bool {
    &&& 0 <= q <= u.len()
    &&& q == u.len() || is_exponent_mark(u[q])
    &&& forall|j: int| 0 <= j < q ==> !is_exponent_mark(#[trigger] u[j])
}

pub open spec fn mark_index(u: Seq<char>) -> int {
    choose|q: int| mark_at(u, q)
}

/// `m` is digits, a point at `k`, digits, with at least one digit.
pub open spec fn point_at(m: Seq<char>, k: int) -> bool {
    &&& 0 <= k < m.len()
    &&& m[k] == '.'
    &&& all_digits(m.take(k))
    &&& all_digits(m.skip(k + 1))
    &&& m.len() >= 2
}

/// A mantissa: digits, optionally with one point, and at least one digit.
pub open spec fn mantissa_ok(m: Seq<char>) -> bool {
    (m.len() > 0 && all_digits(m)) || exists|k: int| point_at(m, k)
}

pub open spec fn point_index(m: Seq<char>) -> int {
    choose|k: int| point_at(m, k)
}

/// Digits of a mantissa after its point.
pub open spec fn fraction_len(m: Seq<char>) -> int {
    if all_digits(m) {
        0
    } else {
        m.len() - point_index(m) - 1
    }
}

/// The digits of a mantissa, its point left out.
pub open spec fn mantissa_digits(m: Seq<char>) -> Seq<char> {
    if all_digits(m) {
        m
    } else {
        m.take(point_index(m)) + m.skip(point_index(m) + 1)
    }
}

/// An exponent: an optional sign and at least one digit.
pub open spec fn exponent_ok(x: Seq<char>) -> bool {
    unsigned_part(x).len() > 0 && all_digits(unsigned_part(x))
}

pub open spec fn exponent_value(x: Seq<char>) -> int {
    if is_negative(x) {
        -digits_value(unsigned_part(x))
    } else {
        digits_value(unsigned_part(x))
    }
}

/// The number that the digits `d` spell, times ten to the `shift`, with
/// the digits that a negative shift moves past the point dropped.
pub open spec fn scaled_units(d: Seq<char>, shift: int) -> int {
    if shift >= 0 {
        digits_value(d) * pow10(shift as nat)
    } else if d.len() + shift > 0 {
        digits_value(d.take(d.len() + shift))
    } else {
        0
    }
}

/// Magnitude in millionths of an unsigned decimal: a mantissa, then
/// optionally `e` or `E` and an exponent; digits past the millionths are
/// dropped.
pub open spec fn unsigned_units(u: Seq<char>) -> Option<int> {
    let q = mark_index(u);
    let m = u.take(q);
    if !mantissa_ok(m) {
        None
    } else if q < u.len() && !exponent_ok(u.skip(q + 1)) {
        None
    } else {
        let e = if q < u.len() {
            exponent_value(u.skip(q + 1))
        } else {
            0
        };
        Some(scaled_units(mantissa_digits(m), e - fraction_len(m) + 6))
    }
}

/// The amount in millionths that a text spells: an optional sign and an
/// unsigned decimal, whose magnitude is at most `MAX_UNITS`.
pub open spec fn amount_units(s: Seq<char>) -> Option<int> {
    match unsigned_units(unsigned_part(s)) {
        Some(m) => if m <= MAX_UNITS {
            Some(
                if is_negative(s) {
                    -m
                } else {
                    m
                },
            )
        } else {
            None
        },
        None => None,
    }
}

proof fn lemma_digits_nonneg(s: Seq<char>)
    requires
        all_digits(s),
    ensures
        digits_value(s) >= 0,
    decreases s.len(),
{
    if s.len() > 0 {
        lemma_digits_nonneg(s.drop_last());
    }
}

proof fn lemma_digits_step(s: Seq<char>, i: int)
    requires
        0 <= i < s.len(),
    ensures
        digits_value(s.take(i + 1)) == digits_value(s.take(i)) * 10 + digit_value(s[i]),
{
    assert(s.take(i + 1).drop_last() =~= s.take(i));
}

proof fn lemma_prefix_monotone(s: Seq<char>, i: int, j: int)
    requires
        all_digits(s),
        0 <= i <= j <= s.len(),
    ensures
        digits_value(s.take(i)) <= digits_value(s.take(j)),
    decreases j - i,
{
    if i < j {
        lemma_prefix_monotone(s, i, j - 1);
        lemma_digits_step(s, j - 1);
        assert(all_digits(s.take(j - 1)));
        lemma_digits_nonneg(s.take(j - 1));
    }
}

proof fn lemma_pow10_pos(a: nat)
    ensures
        pow10(a) >= 1,
    decreases a,
{
    if a > 0 {
        lemma_pow10_pos((a - 1) as nat);
    }
}

proof fn lemma_pow10_grows(a: nat, b: nat)
    requires
        a <= b,
    ensures
        1 <= pow10(a) <= pow10(b),
    decreases b,
{
    lemma_pow10_pos(a);
    if a < b {
        lemma_pow10_grows(a, (b - 1) as nat);
    }
}

/// `v` times ten to the `shift`, or `None` where that exceeds `MAX_UNITS`.
fn scale_up(v: u128, shift: i128) -> (r: Option<u128>)
    requires
        1 <= v <= MAX_UNITS,
        shift >= 0,
    ensures
        r is Some <==> v * pow10(shift as nat) <= MAX_UNITS,
        r matches Some(w) ==> w == v * pow10(shift as nat),
{
    let mut w: u128 = v;
    let mut j: i128 = 0;
    assert(pow10(0) == 1);
    while j < shift
        invariant
            0 <= j <= shift,
            1 <= v,
            w == v * pow10(j as nat),
            w <= MAX_UNITS,
        decreases shift - j,
    {
        assert(pow10((j + 1) as nat) == 10 * pow10(j as nat));
        assert(v * pow10((j + 1) as nat) == 10 * (v * pow10(j as nat))) by (nonlinear_arith)
            requires
                pow10((j + 1) as nat) == 10 * pow10(j as nat),
        ;
        w = w * 10;
        if w > MAX_UNITS {
            proof {
                lemma_pow10_grows((j + 1) as nat, shift as nat);
                assert(v * pow10((j + 1) as nat) <= v * pow10(shift as nat)) by (nonlinear_arith)
                    requires
                        v >= 1,
                        pow10((j + 1) as nat) <= pow10(shift as nat),
                ;
            }
            return None;
        }
        j = j + 1;
    }
    Some(w)
}

/// The first exponent mark at or after `lo`, or `n`.
fn find_mark(s: &str, lo: usize, n: usize) -> (q: usize)
    requires
        lo <= n == s@.len(),
    ensures
        mark_at(s@.subrange(lo as int, n as int), q - lo),
        lo <= q <= n,
{
    let ghost u = s@.subrange(lo as int, n as int);
    let mut q: usize = lo;
    while q < n && !(s.get_char(q) == 'e' || s.get_char(q) == 'E')
        invariant
            lo <= q <= n == s@.len(),
            u == s@.subrange(lo as int, n as int),
            forall|j: int| 0 <= j < q - lo ==> !is_exponent_mark(#[trigger] u[j]),
        decreases n - q,
    {
        assert(u[q - lo] == s@[q as int]);
        q = q + 1;
    }
    if q < n {
        assert(u[q - lo] == s@[q as int]);
    }
    q
}

/// Reads the mantissa `s[lo..hi]`: its digits without the point, and how
/// many of them follow the point.
fn scan_mantissa(s: &str, lo: usize, hi: usize) -> (r: Option<(Vec<char>, usize)>)
    requires
        lo <= hi <= s@.len(),
    ensures
        r is Some <==> mantissa_ok(s@.subrange(lo as int, hi as int)),
        r matches Some((d, f)) ==> d@ == mantissa_digits(s@.subrange(lo as int, hi as int)) && f
            == fraction_len(s@.subrange(lo as int, hi as int)),
{
    let ghost m = s@.subrange(lo as int, hi as int);
    let mut digits: Vec<char> = Vec::new();
    let mut point: Option<usize> = None;
    let mut i: usize = lo;
    while i < hi
        invariant
            lo <= i <= hi <= s@.len(),
            m == s@.subrange(lo as int, hi as int),
            match point {
                Some(p) => lo <= p < i && m[p - lo] == '.',
                None => true,
            },
            forall|j: int|
                0 <= j < i - lo && (point is None || j != point->0 - lo) ==> is_digit(
                    #[trigger] m[j],
                ),
            digits@ == (match point {
                Some(p) => m.take(p - lo) + m.subrange(p - lo + 1, i - lo),
                None => m.take(i - lo),
            }),
        decreases hi - i,
    {
        let c = s.get_char(i);
        assert(m[i - lo] == c);
        if '0' <= c && c <= '9' {
            let ghost before = digits@;
            digits.push(c);
            proof {
                match point {
                    Some(p) => {
                        assert(digits@ =~= m.take(p - lo) + m.subrange(p - lo + 1, i + 1 - lo));
                    },
                    None => {
                        assert(digits@ =~= m.take(i + 1 - lo));
                    },
                }
            }
        } else if c == '.' && point.is_none() {
            point = Some(i);
            assert(m.subrange(i - lo + 1, i + 1 - lo) =~= Seq::<char>::empty());
            assert(digits@ =~= m.take(i - lo) + m.subrange(i - lo + 1, i + 1 - lo));
        } else {
            proof {
                let k0 = i - lo;
                assert(!all_digits(m));
                assert forall|k: int| !point_at(m, k) by {
                    if point_at(m, k) {
                        if k < k0 {
                            assert(m.skip(k + 1)[k0 - k - 1] == c);
                            if point is Some {
                                let p0 = point->0 - lo;
                                if k != p0 {
                                    assert(is_digit(m[k]));
                                }
                            }
                        } else if k > k0 {
                            assert(m.take(k)[k0] == c);
                        } else if point is Some {
                            let p0 = point->0 - lo;
                            assert(m.take(k)[p0] == '.');
                        }
                    }
                }
            }
            return None;
        }
        i = i + 1;
    }
    match point {
        None => {
            assert(m.take(i - lo) =~= m);
            if hi == lo {
                assert(!all_digits(m) || m.len() == 0);
                assert forall|k: int| !point_at(m, k) by {}
                return None;
            }
            assert(all_digits(m));
            Some((digits, 0))
        },
        Some(p) => {
            let ghost k = p - lo;
            assert(!all_digits(m)) by {
                assert(!is_digit(m[k]));
            }
            if hi - lo < 2 {
                return None;
            }
            assert(all_digits(m.take(k)));
            assert(all_digits(m.skip(k + 1))) by {
                assert(forall|j: int|
                    0 <= j < m.skip(k + 1).len() ==> #[trigger] m.skip(k + 1)[j] == m[j + k + 1]);
            }
            assert(point_at(m, k));
            assert forall|k2: int| point_at(m, k2) implies k2 == k by {
                if k2 != k {
                    assert(is_digit(m[k2]));
                }
            }
            assert(point_index(m) == k);
            assert(m.subrange(k + 1, hi - lo) =~= m.skip(k + 1));
            Some((digits, hi - p - 1))
        },
    }
}

/// Reads the exponent `s[lo..hi]`: whether it is negative, and its
/// magnitude, or `EXPONENT_CAP + 1` where the magnitude exceeds the cap.
fn scan_exponent(s: &str, lo: usize, hi: usize) -> (r: Option<(bool, u128)>)
    requires
        lo <= hi <= s@.len(),
    ensures
        r is Some <==> exponent_ok(s@.subrange(lo as int, hi as int)),
        r matches Some((neg, v)) ==> {
            let x = s@.subrange(lo as int, hi as int);
            &&& neg == is_negative(x)
            &&& digits_value(unsigned_part(x)) <= EXPONENT_CAP ==> v == digits_value(
                unsigned_part(x),
            )
            &&& digits_value(unsigned_part(x)) > EXPONENT_CAP ==> v == EXPONENT_CAP + 1
        },
{
    let ghost x = s@.subrange(lo as int, hi as int);
    let mut start = lo;
    let mut neg = false;
    if lo < hi {
        let c0 = s.get_char(lo);
        if c0 == '-' || c0 == '+' {
            start = lo + 1;
            neg = c0 == '-';
        }
    }
    assert(x.len() > 0 ==> x[0] == s@[lo as int]);
    let ghost d = unsigned_part(x);
    assert(d =~= s@.subrange(start as int, hi as int));
    if start == hi {
        return None;
    }
    let mut v: u128 = 0;
    let mut i: usize = start;
    while i < hi
        invariant
            lo <= start <= i <= hi <= s@.len(),
            x == s@.subrange(lo as int, hi as int),
            d == unsigned_part(x),
            neg == is_negative(x),
            d == s@.subrange(start as int, hi as int),
            all_digits(d.take(i - start)),
            digits_value(d.take(i - start)) <= EXPONENT_CAP ==> v == digits_value(
                d.take(i - start),
            ),
            digits_value(d.take(i - start)) > EXPONENT_CAP ==> v == EXPONENT_CAP + 1,
        decreases hi - i,
    {
        let c = s.get_char(i);
        assert(d[i - start] == c);
        if !('0' <= c && c <= '9') {
            assert(!all_digits(d));
            return None;
        }
        proof {
            lemma_digits_step(d, i - start);
            lemma_digits_nonneg(d.take(i - start));
            assert(all_digits(d.take(i + 1 - start))) by {
                assert(forall|j: int|
                    0 <= j < i + 1 - start ==> #[trigger] d.take(i + 1 - start)[j] == d[j]);
                assert(forall|j: int|
                    0 <= j < i - start ==> #[trigger] d.take(i - start)[j] == d[j]);
            }
        }
        let dv = (c as u32 - '0' as u32) as u128;
        if v > EXPONENT_CAP {
        } else if v * 10 + dv > EXPONENT_CAP {
            v = EXPONENT_CAP + 1;
        } else {
            v = v * 10 + dv;
        }
        i = i + 1;
    }
    assert(d.take(hi - start) =~= d);
    Some((neg, v))
}

/// The number that the first `t` digits spell, or `None` where it exceeds
/// `MAX_UNITS`.
fn prefix_value(d: &Vec<char>, t: usize) -> (r: Option<u128>)
    requires
        t <= d@.len(),
        all_digits(d@),
    ensures
        r is Some <==> digits_value(d@.take(t as int)) <= MAX_UNITS,
        r matches Some(v) ==> v == digits_value(d@.take(t as int)),
{
    let mut v: u128 = 0;
    let mut i: usize = 0;
    assert(d@.take(0) =~= Seq::<char>::empty());
    while i < t
        invariant
            i <= t <= d@.len(),
            all_digits(d@),
            v == digits_value(d@.take(i as int)),
            v <= MAX_UNITS,
        decreases t - i,
    {
        proof {
            lemma_digits_step(d@, i as int);
        }
        let dv = (d[i] as u32 - '0' as u32) as u128;
        v = v * 10 + dv;
        if v > MAX_UNITS {
            proof {
                lemma_prefix_monotone(d@, i + 1, t as int);
            }
            return None;
        }
        i = i + 1;
    }
    Some(v)
}

/// Reads a decimal amount; `None` where the text is no decimal or its
/// magnitude exceeds `MAX_UNITS`.
#[verifier::rlimit(60)]
pub fn parse_amount(s: &str) -> (r: Option<i64>)
    ensures
        match r {
            Some(v) => amount_units(s@) == Some(v as int),
            None => amount_units(s@) is None,
        },
{
    let n = s.unicode_len();
    let ghost t = s@;
    let mut start: usize = 0;
    let mut negative = false;
    if n > 0 {
        let c0 = s.get_char(0);
        if c0 == '-' || c0 == '+' {
            start = 1;
            negative = c0 == '-';
        }
    }
    let ghost u = unsigned_part(t);
    assert(u =~= t.subrange(start as int, n as int));
    let q = find_mark(s, start, n);
    let ghost qi = q - start;
    assert forall|q2: int| mark_at(u, q2) implies q2 == qi by {
        if q2 < qi {
            assert(!is_exponent_mark(u[q2]));
        } else if q2 > qi {
            assert(!is_exponent_mark(u[qi]));
        }
    }
    assert(mark_index(u) == qi);
    let ghost m = u.take(qi);
    assert(m =~= t.subrange(start as int, q as int));
    let (digits, flen) = match scan_mantissa(s, start, q) {
        Some(r) => r,
        None => return None,
    };
    let ghost e: int = 0;
    let mut exp_neg = false;
    let mut exp_mag: u128 = 0;
    if q < n {
        assert(u.skip(qi + 1) =~= t.subrange(q + 1, n as int));
        match scan_exponent(s, q + 1, n) {
            Some((neg, v)) => {
                exp_neg = neg;
                exp_mag = v;
            },
            None => return None,
        }
        proof {
            e = exponent_value(u.skip(qi + 1));
        }
    }
    let ghost dd = mantissa_digits(m);
    let ghost shift = e - fraction_len(m) + 6;
    assert(unsigned_units(u) == Some(scaled_units(dd, shift)));
    assert(all_digits(dd)) by {
        if !all_digits(m) {
            let k = point_index(m);
            assert(point_at(m, k));
            assert(forall|j: int| 0 <= j < dd.len() ==> #[trigger] dd[j] == if j < k {
                m.take(k)[j]
            } else {
                m.skip(k + 1)[j - k]
            });
        }
    }
    assert(digits@ == dd);
    let len = digits.len();
    let units: u128;
    if exp_mag > EXPONENT_CAP {
        if exp_neg {
            assert(dd.len() + shift <= 0);
            units = 0;
        } else {
            match prefix_value(&digits, len) {
                None => {
                    assert(digits@.take(len as int) =~= digits@);
                    proof {
                        lemma_pow10_grows(0, shift as nat);
                        assert(digits_value(dd) * pow10(shift as nat) >= digits_value(dd))
                            by (nonlinear_arith)
                            requires
                                digits_value(dd) >= 0,
                                pow10(shift as nat) >= 1,
                        ;
                    }
                    return None;
                },
                Some(v) => {
                    assert(digits@.take(len as int) =~= digits@);
                    if v != 0 {
                        proof {
                            lemma_pow10_grows(19, shift as nat);
                            reveal_with_fuel(pow10, 20);
                            assert(pow10(19) == 10_000_000_000_000_000_000);
                            assert(digits_value(dd) * pow10(shift as nat) >= pow10(shift as nat))
                                by (nonlinear_arith)
                                requires
                                    digits_value(dd) >= 1,
                                    pow10(shift as nat) >= 1,
                            ;
                        }
                        return None;
                    }
                    units = 0;
                },
            }
        }
    } else {
        let shift_x: i128 = if exp_neg {
            -(exp_mag as i128)
        } else {
            exp_mag as i128
        } - flen as i128 + 6;
        assert(shift_x == shift);
        if shift_x >= 0 {
            assert(digits@.take(len as int) =~= digits@);
            let v = match prefix_value(&digits, len) {
                None => {
                    proof {
                        lemma_pow10_grows(0, shift as nat);
                        assert(digits_value(dd) * pow10(shift as nat) >= digits_value(dd))
                            by (nonlinear_arith)
                            requires
                                digits_value(dd) >= 0,
                                pow10(shift as nat) >= 1,
                        ;
                    }
                    return None;
                },
                Some(v) => v,
            };
            if v == 0 {
                units = 0;
            } else {
                match scale_up(v, shift_x) {
                    Some(w) => {
                        units = w;
                    },
                    None => return None,
                }
            }
        } else {
            if -shift_x >= len as i128 {
                units = 0;
            } else {
                let k = (-shift_x) as usize;
                assert(digits@.len() + shift == len - k);
                match prefix_value(&digits, len - k) {
                    None => return None,
                    Some(v) => {
                        units = v;
                    },
                }
            }
        }
    }
    assert(units as int == scaled_units(dd, shift));
    if units > MAX_UNITS {
        return None;
    }
    if negative {
        Some(-(units as i64))
    } else {
        Some(units as i64)
    }
}

} // verus!
