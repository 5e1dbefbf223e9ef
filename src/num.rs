use vstd::prelude::*;

verus! {

/// Number of fixed-point units in one whole number: values keep six decimals.
pub const SCALE: i64 = 1_000_000;

/// Clamps a mathematical integer into the range of `i64`.
pub open spec fn clamp(v: int) -> int {
    if v > i64::MAX as int {
        i64::MAX as int
    } else if v < i64::MIN as int {
        i64::MIN as int
    } else {
        v
    }
}

pub open spec fn abs(v: int) -> int {
    if v < 0 {
        -v
    } else {
        v
    }
}

/// Division that rounds toward zero.
pub open spec fn tdiv(a: int, b: int) -> int
    recommends
        b != 0,
{
    let q = abs(a) / abs(b);
    if (a < 0) != (b < 0) {
        -q
    } else {
        q
    }
}

pub open spec fn fixed_add(a: int, b: int) -> int {
    clamp(a + b)
}

pub open spec fn fixed_sub(a: int, b: int) -> int {
    clamp(a - b)
}

pub open spec fn fixed_mul(a: int, b: int) -> int {
    clamp(tdiv(a * b, SCALE as int))
}

/// Division by zero saturates toward the sign of the dividend (zero stays zero).
pub open spec fn fixed_div(a: int, b: int) -> int {
    if b == 0 {
        if a > 0 {
            i64::MAX as int
        } else if a < 0 {
            i64::MIN as int
        } else {
            0
        }
    } else {
        clamp(tdiv(a * SCALE as int, b))
    }
}

fn clamp_wide(v: i128) -> (r: i64)
    ensures
        r as int == clamp(v as int),
{
    if v > i64::MAX as i128 {
        i64::MAX
    } else if v < i64::MIN as i128 {
        i64::MIN
    } else {
        v as i64
    }
}

fn tdiv_wide(a: i128, b: i128) -> (r: i128)
    requires
        b != 0,
        a > i128::MIN,
        b > i128::MIN,
    ensures
        r as int == tdiv(a as int, b as int),
{
    let ua: u128 = if a < 0 { (-a) as u128 } else { a as u128 };
    let ub: u128 = if b < 0 { (-b) as u128 } else { b as u128 };
    let q: u128 = ua / ub;
    proof {
        vstd::arithmetic::div_mod::lemma_div_nonincreasing(ua as int, ub as int);
    }
    if (a < 0) != (b < 0) {
        -(q as i128)
    } else {
        q as i128
    }
}

pub fn add(a: i64, b: i64) -> (r: i64)
    ensures
        r as int == fixed_add(a as int, b as int),
{
    clamp_wide(a as i128 + b as i128)
}

pub fn sub(a: i64, b: i64) -> (r: i64)
    ensures
        r as int == fixed_sub(a as int, b as int),
{
    clamp_wide(a as i128 - b as i128)
}

pub fn mul(a: i64, b: i64) -> (r: i64)
    ensures
        r as int == fixed_mul(a as int, b as int),
{
    proof {
        assert(abs(a as int) <= 0x8000_0000_0000_0000);
        assert(abs(b as int) <= 0x8000_0000_0000_0000);
        vstd::arithmetic::mul::lemma_mul_upper_bound(abs(a as int), 0x8000_0000_0000_0000, abs(b as int), 0x8000_0000_0000_0000);
        assert(abs(a as int * b as int) == abs(a as int) * abs(b as int)) by (nonlinear_arith);
    }
    let p: i128 = a as i128 * b as i128;
    clamp_wide(tdiv_wide(p, SCALE as i128))
}

pub fn div(a: i64, b: i64) -> (r: i64)
    ensures
        r as int == fixed_div(a as int, b as int),
{
    if b == 0 {
        if a > 0 {
            i64::MAX
        } else if a < 0 {
            i64::MIN
        } else {
            0
        }
    } else {
        assert(-0x8000_0000_0000_0000 * 1_000_000 <= a as int * 1_000_000 <= 0x8000_0000_0000_0000 * 1_000_000) by (nonlinear_arith)
            requires
                -0x8000_0000_0000_0000 <= a as int <= 0x8000_0000_0000_0000,
        ;
        let p: i128 = a as i128 * SCALE as i128;
        clamp_wide(tdiv_wide(p, b as i128))
    }
}


pub open spec fn is_digit(c: char) -> bool {
    '0' <= c && c <= '9'
}

pub open spec fn digit_value(c: char) -> int {
    c as int - '0' as int
}

pub open spec fn digit_char(d: int) -> char {
    if d == 0 { '0' } else if d == 1 { '1' } else if d == 2 { '2' } else if d == 3 { '3' }
    else if d == 4 { '4' } else if d == 5 { '5' } else if d == 6 { '6' } else if d == 7 { '7' }
    else if d == 8 { '8' } else { '9' }
}

/// Decimal digits of a natural number, most significant first, without leading zeros.
pub open spec fn nat_text(n: nat) -> Seq<char>
    decreases n,
{
    if n < 10 {
        seq![digit_char(n as int)]
    } else {
        nat_text(n / 10).push(digit_char((n % 10) as int))
    }
}

/// The `w` lowest decimal digits of `n`, zero-padded on the left.
pub open spec fn padded_text(n: nat, w: nat) -> Seq<char>
    decreases w,
{
    if w == 0 {
        Seq::empty()
    } else {
        padded_text(n / 10, (w - 1) as nat).push(digit_char((n % 10) as int))
    }
}

/// The `w`-digit fraction `f` without its trailing zeros.
pub open spec fn frac_text(f: nat, w: nat) -> Seq<char>
    decreases w,
{
    if w > 0 && f % 10 == 0 {
        frac_text(f / 10, (w - 1) as nat)
    } else {
        padded_text(f, w)
    }
}

/// Text of a fixed-point value: an optional minus sign, the whole part, and,
/// when the fraction is not zero, a dot and the fraction without trailing zeros.
pub open spec fn num_text(v: int) -> Seq<char> {
    let m = abs(v);
    let whole = m / SCALE as int;
    let frac = m % SCALE as int;
    let sign: Seq<char> = if v < 0 { seq!['-'] } else { Seq::empty() };
    let tail: Seq<char> = if frac == 0 { Seq::empty() } else { seq!['.'] + frac_text(frac as nat, 6) };
    sign + nat_text(whole as nat) + tail
}

fn digit_to_char(d: u64) -> (c: char)
    requires
        d < 10,
    ensures
        c == digit_char(d as int),
{
    if d == 0 { '0' } else if d == 1 { '1' } else if d == 2 { '2' } else if d == 3 { '3' }
    else if d == 4 { '4' } else if d == 5 { '5' } else if d == 6 { '6' } else if d == 7 { '7' }
    else if d == 8 { '8' } else { '9' }
}

fn push_nat(out: &mut Vec<char>, n: u64)
    ensures
        final(out)@ == old(out)@ + nat_text(n as nat),
    decreases n,
{
    if n < 10 {
        out.push(digit_to_char(n));
    } else {
        push_nat(out, n / 10);
        out.push(digit_to_char(n % 10));
    }
}

fn push_padded(out: &mut Vec<char>, n: u64, w: u64)
    ensures
        final(out)@ == old(out)@ + padded_text(n as nat, w as nat),
    decreases w,
{
    if w > 0 {
        push_padded(out, n / 10, w - 1);
        out.push(digit_to_char(n % 10));
    }
}

fn push_frac(out: &mut Vec<char>, f: u64, w: u64)
    ensures
        final(out)@ == old(out)@ + frac_text(f as nat, w as nat),
    decreases w,
{
    if w > 0 && f % 10 == 0 {
        push_frac(out, f / 10, w - 1);
    } else {
        push_padded(out, f, w);
    }
}

/// Appends the text of a fixed-point value.
pub fn push_num(out: &mut Vec<char>, v: i64)
    ensures
        final(out)@ == old(out)@ + num_text(v as int),
{
    let m: u64 = if v < 0 { (-(v as i128)) as u64 } else { v as u64 };
    let whole: u64 = m / SCALE as u64;
    let frac: u64 = m % SCALE as u64;
    let ghost start = out@;
    if v < 0 {
        out.push('-');
    }
    push_nat(out, whole);
    if frac != 0 {
        out.push('.');
        push_frac(out, frac, 6);
    }
    proof {
        let sign: Seq<char> = if v < 0 { seq!['-'] } else { Seq::empty() };
        let tail: Seq<char> = if frac == 0 { Seq::empty() } else { seq!['.'] + frac_text(frac as nat, 6) };
        assert(out@ =~= start + (sign + nat_text(whole as nat) + tail));
    }
}

/// Value of a run of decimal digits.
pub open spec fn digits_value(s: Seq<char>) -> int
    decreases s.len(),
{
    if s.len() == 0 {
        0
    } else {
        digits_value(s.drop_last()) * 10 + digit_value(s.last())
    }
}

proof fn lemma_digits_nonneg(s: Seq<char>)
    requires
        forall|i: int| 0 <= i < s.len() ==> is_digit(s[i]),
    ensures
        digits_value(s) >= 0,
    decreases s.len(),
{
    if s.len() > 0 {
        lemma_digits_nonneg(s.drop_last());
    }
}

/// The value of a run of digits is at least that of any prefix.
pub proof fn lemma_digits_mono(s: Seq<char>, k: int)
    requires
        0 <= k <= s.len(),
        forall|i: int| 0 <= i < s.len() ==> is_digit(s[i]),
    ensures
        0 <= digits_value(s.take(k)) <= digits_value(s),
    decreases s.len(),
{
    if k == s.len() {
        assert(s.take(k) =~= s);
        lemma_digits_nonneg(s);
    } else {
        lemma_digits_mono(s.drop_last(), k);
        assert(s.drop_last().take(k) =~= s.take(k));
        lemma_digits_nonneg(s.drop_last());
    }
}

/// Reading state of a decimal literal after a prefix of it: the whole part,
/// the fraction digits read so far (at most six), their count, and whether
/// the dot was seen.
pub struct DecimalState {
    pub whole: int,
    pub frac: int,
    pub nfrac: nat,
    pub dot: bool,
}

pub open spec fn read_decimal(s: Seq<char>) -> DecimalState
    decreases s.len(),
{
    if s.len() == 0 {
        DecimalState { whole: 0, frac: 0, nfrac: 0, dot: false }
    } else {
        let st = read_decimal(s.drop_last());
        let c = s.last();
        if c == '.' {
            DecimalState { dot: true, ..st }
        } else if !st.dot {
            DecimalState { whole: st.whole * 10 + digit_value(c), ..st }
        } else if st.nfrac < 6 {
            DecimalState { frac: st.frac * 10 + digit_value(c), nfrac: st.nfrac + 1, ..st }
        } else {
            st
        }
    }
}

pub open spec fn pow10(n: nat) -> int
    decreases n,
{
    if n == 0 {
        1
    } else {
        10 * pow10((n - 1) as nat)
    }
}

/// The unsigned part of a decimal literal: digits, and at most one dot.
pub open spec fn is_unsigned_decimal(s: Seq<char>) -> bool {
    &&& exists|i: int| 0 <= i < s.len() && is_digit(s[i])
    &&& forall|i: int| 0 <= i < s.len() ==> is_digit(s[i]) || s[i] == '.'
    &&& forall|i: int, j: int| 0 <= i < j < s.len() && s[i] == '.' ==> s[j] != '.'
}

/// Fixed-point magnitude of an unsigned literal; digits past the sixth decimal are dropped.
pub open spec fn unsigned_magnitude(s: Seq<char>) -> int {
    let st = read_decimal(s);
    st.whole * SCALE as int + st.frac * pow10((6 - st.nfrac) as nat)
}

pub open spec fn is_negative_text(s: Seq<char>) -> bool {
    s.len() > 0 && s[0] == '-'
}

pub open spec fn unsigned_part(s: Seq<char>) -> Seq<char> {
    if is_negative_text(s) { s.skip(1) } else { s }
}

/// A decimal literal: an optional minus sign, then digits with at most one dot.
pub open spec fn is_decimal(s: Seq<char>) -> bool {
    is_unsigned_decimal(unsigned_part(s))
}

/// Fixed-point value of a decimal literal.
pub open spec fn decimal_value(s: Seq<char>) -> int {
    let m = unsigned_magnitude(unsigned_part(s));
    if is_negative_text(s) { -m } else { m }
}

pub open spec fn fits_i64(v: int) -> bool {
    i64::MIN <= v <= i64::MAX
}

proof fn lemma_read_decimal_bounds(s: Seq<char>, k: int)
    requires
        0 <= k <= s.len(),
        forall|i: int| 0 <= i < s.len() ==> is_digit(s[i]) || s[i] == '.',
    ensures
        0 <= read_decimal(s.take(k)).whole <= read_decimal(s).whole,
        0 <= read_decimal(s).frac < pow10(read_decimal(s).nfrac),
        read_decimal(s).nfrac <= 6,
    decreases s.len(),
{
    if s.len() > 0 {
        if k == s.len() {
            assert(s.take(k) =~= s);
            lemma_read_decimal_bounds(s.drop_last(), k - 1);
        } else {
            lemma_read_decimal_bounds(s.drop_last(), k);
            assert(s.drop_last().take(k) =~= s.take(k));
        }
        let st = read_decimal(s.drop_last());
        assert(st.frac * 10 + digit_value(s.last()) < pow10(st.nfrac + 1)) by (nonlinear_arith)
            requires st.frac < pow10(st.nfrac), 0 <= digit_value(s.last()) < 10 || s.last() == '.',
                pow10(st.nfrac + 1) == 10 * pow10(st.nfrac), s.last() != '.' ==> 0 <= digit_value(s.last()) < 10;
    }
}

fn char_digit(c: char) -> (d: u64)
    requires
        is_digit(c),
    ensures
        d as int == digit_value(c),
        d < 10,
{
    (c as u32 - '0' as u32) as u64
}

fn pow10_exec(n: u64) -> (r: u64)
    requires
        n <= 6,
    ensures
        r as int == pow10(n as nat),
        r <= 1_000_000,
{
    reveal_with_fuel(pow10, 7);
    if n == 0 { 1 } else if n == 1 { 10 } else if n == 2 { 100 } else if n == 3 { 1000 }
    else if n == 4 { 10_000 } else if n == 5 { 100_000 } else { 1_000_000 }
}

/// Reads a decimal literal (optional minus sign, digits, at most one dot) as
/// a fixed-point value. Fails on any other text, and on a value out of range.
pub fn parse_decimal(s: &Vec<char>) -> (r: Option<i64>)
    ensures
        r == (if is_decimal(s@) && fits_i64(decimal_value(s@)) {
            Some(decimal_value(s@) as i64)
        } else {
            None::<i64>
        }),
{
    let n = s.len();
    let neg = n > 0 && s[0] == '-';
    let start: usize = if neg { 1 } else { 0 };
    let ghost body = s@.skip(start as int);
    assert(unsigned_part(s@) =~= body);
    if start >= n {
        return None;
    }
    let mut whole: u64 = 0;
    let mut frac: u64 = 0;
    let mut nfrac: u64 = 0;
    let mut dot = false;
    let mut seen_digit = false;
    let mut i: usize = start;
    let ghost mut digit_at: int = 0;
    let ghost mut dot_at: int = 0;
    while i < n
        invariant
            start <= i <= n,
            n == s@.len(),
            body == s@.skip(start as int),
            body.len() == n - start,
            unsigned_part(s@) == body,
            is_negative_text(s@) == neg,
            forall|k: int| 0 <= k < i - start ==> is_digit(body[k]) || body[k] == '.',
            dot ==> 0 <= dot_at < i - start && body[dot_at] == '.',
            forall|k: int| 0 <= k < i - start && body[k] == '.' ==> dot && k == dot_at,
            seen_digit ==> 0 <= digit_at < i - start && is_digit(body[digit_at]),
            !seen_digit ==> forall|k: int| 0 <= k < i - start ==> !is_digit(body[k]),
            read_decimal(body.take(i - start)) == (DecimalState {
                whole: whole as int, frac: frac as int, nfrac: nfrac as nat, dot }),
            whole <= 10_000_000_000_000,
            nfrac <= 6,
            frac < 1_000_000,
        decreases n - i,
    {
        let c = s[i];
        let ghost k = i - start;
        assert(body[k] == c);
        assert(body.take(k + 1).drop_last() =~= body.take(k));
        if c == '.' {
            if dot {
                assert(!is_unsigned_decimal(body));
                assert(!is_decimal(s@));
                return None;
            }
            dot = true;
            proof {
                dot_at = k;
            }
        } else if '0' <= c && c <= '9' {
            seen_digit = true;
            proof {
                digit_at = k;
            }
            let dv = char_digit(c);
            if !dot {
                whole = whole * 10 + dv;
                if whole > 10_000_000_000_000 {
                    proof {
                        if is_unsigned_decimal(body) {
                            lemma_read_decimal_bounds(body, k + 1);
                            let st = read_decimal(body);
                            lemma_pow10_pos((6 - st.nfrac) as nat);
                            assert(st.frac * pow10((6 - st.nfrac) as nat) >= 0) by (nonlinear_arith)
                                requires st.frac >= 0, pow10((6 - st.nfrac) as nat) >= 0;
                            assert(st.whole * SCALE > 0x8000_0000_0000_0000) by (nonlinear_arith)
                                requires st.whole > 10_000_000_000_000;
                            assert(unsigned_magnitude(body) > 0x8000_0000_0000_0000);
                            assert(!fits_i64(decimal_value(s@)));
                        }
                    }
                    return None;
                }
            } else if nfrac < 6 {
                let ghost old_frac = frac;
                proof {
                    lemma_read_decimal_bounds(body.take(k), k);
                    assert(body.take(k).take(k) =~= body.take(k));
                    lemma_pow10_le6(nfrac as nat);
                }
                frac = frac * 10 + dv;
                nfrac = nfrac + 1;
                proof {
                    lemma_read_decimal_bounds(body.take(k + 1), k + 1);
                    assert(body.take(k + 1).take(k + 1) =~= body.take(k + 1));
                    lemma_pow10_le6(nfrac as nat);
                }
            }
        } else {
            assert(!is_unsigned_decimal(body));
            assert(!is_decimal(s@));
            return None;
        }
        i += 1;
    }
    assert(body.take(n - start) =~= body);
    if !seen_digit {
        assert(!is_decimal(s@));
        return None;
    }
    assert(is_unsigned_decimal(body));
    let p = pow10_exec(6 - nfrac);
    assert(frac * p < 1_000_000_000_000) by (nonlinear_arith)
        requires frac < 1_000_000, p <= 1_000_000;
    assert(whole * 1_000_000 <= 10_000_000_000_000_000_000) by (nonlinear_arith)
        requires whole <= 10_000_000_000_000;
    let m: u128 = whole as u128 * SCALE as u128 + frac as u128 * p as u128;
    assert(unsigned_magnitude(body) == m as int);
    assert(is_negative_text(s@) == neg);
    assert(decimal_value(s@) == if neg { -(m as int) } else { m as int });
    if neg {
        if m > 0x8000_0000_0000_0000 {
            None
        } else {
            Some((-(m as i128)) as i64)
        }
    } else {
        if m > i64::MAX as u128 {
            None
        } else {
            Some(m as i64)
        }
    }
}

proof fn lemma_pow10_pos(n: nat)
    ensures
        pow10(n) >= 1,
    decreases n,
{
    if n > 0 {
        lemma_pow10_pos((n - 1) as nat);
    }
}

proof fn lemma_pow10_le6(n: nat)
    requires
        n <= 6,
    ensures
        pow10(n) <= 1_000_000,
{
    reveal_with_fuel(pow10, 7);
}


/// One reading step of a decimal literal.
pub open spec fn read_step(st: DecimalState, c: char) -> DecimalState {
    if c == '.' {
        DecimalState { dot: true, ..st }
    } else if !st.dot {
        DecimalState { whole: st.whole * 10 + digit_value(c), ..st }
    } else if st.nfrac < 6 {
        DecimalState { frac: st.frac * 10 + digit_value(c), nfrac: st.nfrac + 1, ..st }
    } else {
        st
    }
}

proof fn lemma_read_step(s: Seq<char>)
    requires
        s.len() > 0,
    ensures
        read_decimal(s) == read_step(read_decimal(s.drop_last()), s.last()),
{
}

proof fn lemma_digit_char(d: int)
    requires
        0 <= d < 10,
    ensures
        is_digit(digit_char(d)),
        digit_value(digit_char(d)) == d,
        digit_char(d) != '.',
{
}

/// Reading the digits of `n` before any dot gives `n` as whole part.
proof fn lemma_read_nat_text(a: Seq<char>, n: nat)
    requires
        !read_decimal(a).dot,
    ensures
        read_decimal(a + nat_text(n)) == (DecimalState { whole: read_decimal(a).whole * pow10(nat_text(n).len()) + n, ..read_decimal(a) }),
        nat_text(n).len() > 0,
        forall|k: int| 0 <= k < nat_text(n).len() ==> is_digit(#[trigger] nat_text(n)[k]),
    decreases n,
{
    let t = nat_text(n);
    lemma_digit_char((n % 10) as int);
    if n < 10 {
        assert((a + t).drop_last() =~= a);
        lemma_read_step(a + t);
        reveal_with_fuel(pow10, 2);
    } else {
        lemma_read_nat_text(a, n / 10);
        let t0 = nat_text(n / 10);
        assert((a + t).drop_last() =~= a + t0);
        lemma_read_step(a + t);
        assert(pow10(t.len()) == 10 * pow10(t0.len()));
        let w = read_decimal(a).whole;
        assert((w * pow10(t0.len()) + n / 10) * 10 + n % 10 == w * pow10(t.len()) + n) by (nonlinear_arith)
            requires pow10(t.len()) == 10 * pow10(t0.len()), n == (n / 10) * 10 + n % 10;
        assert forall|k: int| 0 <= k < t.len() implies is_digit(#[trigger] t[k]) by {
            if k < t0.len() {
                assert(t[k] == t0[k]);
            }
        }
    }
}

/// Reading `w` padded digits after the dot adds them to the fraction.
proof fn lemma_read_padded(a: Seq<char>, n: nat, w: nat)
    requires
        read_decimal(a).dot,
        read_decimal(a).nfrac + w <= 6,
    ensures
        read_decimal(a + padded_text(n, w)) == (DecimalState {
            frac: read_decimal(a).frac * pow10(w) + (n as int) % pow10(w),
            nfrac: read_decimal(a).nfrac + w,
            ..read_decimal(a)
        }),
        padded_text(n, w).len() == w,
        forall|k: int| 0 <= k < w ==> is_digit(#[trigger] padded_text(n, w)[k]),
    decreases w,
{
    if w == 0 {
        assert(a + padded_text(n, w) =~= a);
        assert(n % 1 == 0);
    } else {
        let t = padded_text(n, w);
        let t0 = padded_text(n / 10, (w - 1) as nat);
        lemma_read_padded(a, n / 10, (w - 1) as nat);
        lemma_digit_char((n % 10) as int);
        assert((a + t).drop_last() =~= a + t0);
        lemma_read_step(a + t);
        let f = read_decimal(a).frac;
        let p = pow10((w - 1) as nat);
        lemma_pow10_pos((w - 1) as nat);
        assert(pow10(w) == 10 * p);
        assert((f * p + ((n / 10) as int) % p) * 10 + n % 10 == f * (10 * p) + (n as int) % (10 * p)) by (nonlinear_arith)
            requires p >= 1, n >= 0
        {
            vstd::arithmetic::div_mod::lemma_breakdown(n as int, 10, p);
        }
        assert forall|k: int| 0 <= k < w implies is_digit(#[trigger] t[k]) by {
            if k < w - 1 {
                assert(t[k] == t0[k]);
            }
        }
    }
}

/// The fraction text without trailing zeros reads back, scaled, as the fraction.
proof fn lemma_read_frac(a: Seq<char>, f: nat, w: nat)
    requires
        read_decimal(a).dot,
        read_decimal(a).nfrac == 0,
        read_decimal(a).frac == 0,
        w <= 6,
        0 < f < pow10(w),
    ensures
        ({
            let st = read_decimal(a + frac_text(f, w));
            &&& st.whole == read_decimal(a).whole
            &&& st.dot
            &&& st.nfrac <= 6
            &&& st.frac * pow10((6 - st.nfrac) as nat) == f * pow10((6 - w) as nat)
        }),
        frac_text(f, w).len() > 0,
        forall|k: int| 0 <= k < frac_text(f, w).len() ==> is_digit(#[trigger] frac_text(f, w)[k]),
    decreases w,
{
    if w > 0 && f % 10 == 0 {
        assert(f / 10 < pow10((w - 1) as nat)) by {
            assert(pow10(w) == 10 * pow10((w - 1) as nat));
            vstd::arithmetic::div_mod::lemma_div_is_ordered(f as int, pow10(w) - 1, 10);
            assert((10 * pow10((w - 1) as nat) - 1) / 10 < pow10((w - 1) as nat)) by (nonlinear_arith)
                requires pow10((w - 1) as nat) >= 1;
        }
        assert(f / 10 > 0);
        lemma_read_frac(a, f / 10, (w - 1) as nat);
        let e = (6 - w) as nat;
        assert(pow10((6 - (w - 1)) as nat) == 10 * pow10(e));
        assert((f / 10) * (10 * pow10(e)) == f * pow10(e)) by (nonlinear_arith)
            requires f % 10 == 0, f == (f / 10) * 10 + f % 10;
    } else {
        if w == 0 {
            assert(pow10(0) == 1);
        }
        lemma_read_padded(a, f, w);
        vstd::arithmetic::div_mod::lemma_small_mod(f, pow10(w) as nat);
        assert(read_decimal(a).frac * pow10(w) == 0);
    }
}

/// The text of a non-negative value reads back as that value.
pub proof fn lemma_num_text_reads_back(v: int)
    requires
        0 <= v <= i64::MAX,
    ensures
        is_decimal(num_text(v)),
        decimal_value(num_text(v)) == v,
        num_text(v).len() > 0,
        is_digit(num_text(v)[0]),
        forall|k: int| 0 <= k < num_text(v).len() ==> is_digit(#[trigger] num_text(v)[k]) || num_text(v)[k] == '.',
        forall|i: int, j: int| 0 <= i < j < num_text(v).len() && num_text(v)[i] == '.' ==> num_text(v)[j] != '.',
{
    let whole = v / SCALE as int;
    let frac = v % SCALE as int;
    vstd::arithmetic::div_mod::lemma_mod_pos_bound(v, SCALE as int);
    vstd::arithmetic::div_mod::lemma_fundamental_div_mod(v, SCALE as int);
    vstd::arithmetic::div_mod::lemma_div_pos_is_pos(v, SCALE as int);
    let e: Seq<char> = Seq::empty();
    lemma_read_nat_text(e, whole as nat);
    assert(e + nat_text(whole as nat) =~= nat_text(whole as nat));
    let wt = nat_text(whole as nat);
    let t = num_text(v);
    assert(abs(v) == v);
    reveal_with_fuel(pow10, 7);
    assert(pow10(6) == 1_000_000);
    if frac == 0 {
        assert(t =~= wt);
        assert(read_decimal(t).whole == whole);
        assert(v == whole * SCALE);
        assert(is_digit(t[0]));
    } else {
        let a = wt.push('.');
        assert(a.drop_last() =~= wt);
        lemma_read_step(a);
        lemma_read_frac(a, frac as nat, 6);
        let ft = frac_text(frac as nat, 6);
        assert(t =~= a + ft);
        assert(pow10(0) == 1);
        let st = read_decimal(t);
        assert(st.frac * pow10((6 - st.nfrac) as nat) == (frac as nat) * pow10((6 - 6) as nat));
        assert((6 - 6) as nat == 0);
        assert(frac >= 0);
        assert(pow10(0) == 1);
        assert((frac as nat) * pow10(0) == frac) by (nonlinear_arith)
            requires pow10(0) == 1, frac >= 0;
        assert(st.frac * pow10((6 - st.nfrac) as nat) == frac);
        assert(unsigned_magnitude(t) == whole * SCALE + frac);
        assert(is_digit(t[0])) by {
            assert(t[0] == wt[0]);
        }
        assert forall|k: int| 0 <= k < t.len() implies is_digit(#[trigger] t[k]) || t[k] == '.' by {
            if k < wt.len() {
                assert(t[k] == wt[k]);
            } else if k > wt.len() {
                assert(t[k] == ft[k - wt.len() - 1]);
            }
        }
        assert forall|i: int, j: int| 0 <= i < j < t.len() && t[i] == '.' implies t[j] != '.' by {
            if i < wt.len() {
                assert(t[i] == wt[i]);
            }
            assert(i == wt.len());
            assert(t[j] == ft[j - wt.len() - 1]);
        }
    }
    assert(unsigned_part(t) =~= t);
    assert(is_digit(t[0]));
}

} // verus!
