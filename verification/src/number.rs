//! Numbers as they are written, and whether a binary64 floating-point number
//! can hold them.

use vstd::prelude::*;

verus! {

/// The whole number that a sequence of decimal digits, given as bytes of
/// ASCII, stands for.
pub open spec fn digits_value(digits: Seq<u8>) -> nat
    decreases digits.len(),
{
    if digits.len() == 0 {
        0
    } else {
        digits_value(digits.drop_last()) * 10 + (digits.last() - 0x30) as nat
    }
}

/// Ten to the power of `n`.
pub open spec fn pow10(n: nat) -> nat
    decreases n,
{
    if n == 0 {
        1
    } else {
        10 * pow10((n - 1) as nat)
    }
}

/// The least magnitude that has no finite binary64 floating-point number
/// next to it: 2^1024 - 2^970, half a step above the greatest finite one.
/// Rounded to the nearest such number, ties to even, a magnitude below it
/// is finite and one from it on is infinite.
pub open spec fn binary64_limit() -> nat {
    0xffff_ffff_ffff_fc00_0000_0000_0000_0000_0000_0000_0000_0000_0000_0000_0000_0000_0000_0000_0000_0000_0000_0000_0000_0000_0000_0000_0000_0000_0000_0000_0000_0000_0000_0000_0000_0000_0000_0000_0000_0000_0000_0000_0000_0000_0000_0000_0000_0000_0000_0000_0000_0000_0000_0000_0000_0000_0000_0000_0000_0000_0000_0000_0000_0000nat
}

/// Whether `mantissa` times ten to the power of `scale` is too large for a
/// finite binary64 floating-point number.
pub open spec fn rounds_to_infinity(mantissa: nat, scale: int) -> bool {
    if scale >= 0 {
        mantissa * pow10(scale as nat) >= binary64_limit()
    } else {
        mantissa >= binary64_limit() * pow10((-scale) as nat)
    }
}

/// The value of the exponent that is written with the given digits and
/// sign.
pub open spec fn signed_value(digits: Seq<u8>, negative: bool) -> int {
    if negative {
        -(digits_value(digits) as int)
    } else {
        digits_value(digits) as int
    }
}

/// Whether every byte of `source` from `from` to `to` is a decimal digit.
pub open spec fn all_digits(source: Seq<u8>, from: int, to: int) -> bool {
    &&& 0 <= from <= to <= source.len()
    &&& forall|i: int| from <= i < to ==> 0x30 <= #[trigger] source[i] <= 0x39
}

/// Whether every byte of `digits` is a decimal digit.
pub open spec fn is_digits(digits: Seq<u8>) -> bool {
    forall|i: int| 0 <= i < digits.len() ==> 0x30 <= #[trigger] digits[i] <= 0x39
}

/// `n` digits `0`.
pub open spec fn zeros(n: nat) -> Seq<u8> {
    Seq::new(n, |i: int| 0x30u8)
}

/// How many digits decide whether a magnitude is below the limit: as many
/// as the limit has.
pub open spec fn limit_digits() -> nat {
    309
}

/// The first digits of `digits`, as many as the limit has; where there are
/// fewer, zeros follow them.
pub open spec fn leading(digits: Seq<u8>) -> Seq<u8> {
    if digits.len() >= limit_digits() {
        digits.take(limit_digits() as int)
    } else {
        digits + zeros((limit_digits() - digits.len()) as nat)
    }
}

/// By how much one group of digits moves the groups before it: the first
/// group has three digits, each of the others eighteen.
pub open spec fn group_scale(group: int) -> nat {
    if group == 0 {
        1_000
    } else {
        1_000_000_000_000_000_000
    }
}

/// Where the given group of digits begins.
pub open spec fn group_start(group: int) -> int {
    if group <= 0 {
        0
    } else {
        18 * group - 15
    }
}

/// The digits of the limit, in eighteen groups.
pub open spec fn limit_group(group: int) -> nat {
    if group == 0 {
        179
    } else if group == 1 {
        769313486231580793
    } else if group == 2 {
        728971405303415079
    } else if group == 3 {
        934132710037826936
    } else if group == 4 {
        173778980444968292
    } else if group == 5 {
        764750946649017977
    } else if group == 6 {
        587207096330286416
    } else if group == 7 {
        692887910946555547
    } else if group == 8 {
        851940402630657488
    } else if group == 9 {
        671505820681908902
    } else if group == 10 {
        708383676273854
    } else if group == 11 {
        845817711531764475
    } else if group == 12 {
        730270069855571366
    } else if group == 13 {
        959622842914819860
    } else if group == 14 {
        834936475292719074
    } else if group == 15 {
        168444365510704342
    } else if group == 16 {
        711559699508093042
    } else {
        880177904174497792
    }
}

/// The number that the first `groups` groups of the digits of the limit
/// stand for.
pub open spec fn limit_prefix(groups: int) -> nat
    decreases groups,
{
    if groups <= 0 {
        0
    } else {
        limit_prefix(groups - 1) * group_scale(groups - 1) + limit_group(groups - 1)
    }
}

pub proof fn lemma_pow10_positive(n: nat)
    ensures
        pow10(n) > 0,
    decreases n,
{
    if n > 0 {
        lemma_pow10_positive((n - 1) as nat);
    }
}

pub proof fn lemma_pow10_add(a: nat, b: nat)
    ensures
        pow10(a + b) == pow10(a) * pow10(b),
    decreases a,
{
    if a == 0 {
        assert(pow10(0) * pow10(b) == pow10(b)) by (nonlinear_arith)
            requires
                pow10(0) == 1,
        ;
    } else {
        lemma_pow10_add((a - 1) as nat, b);
        assert(pow10(a + b) == 10 * pow10((a - 1 + b) as nat));
        assert(10 * (pow10((a - 1) as nat) * pow10(b)) == (10 * pow10((a - 1) as nat)) * pow10(
            b,
        )) by (nonlinear_arith);
    }
}

pub proof fn lemma_pow10_monotonic(a: nat, b: nat)
    requires
        a <= b,
    ensures
        pow10(a) <= pow10(b),
    decreases b,
{
    if a < b {
        lemma_pow10_monotonic(a, (b - 1) as nat);
        lemma_pow10_positive((b - 1) as nat);
    }
}

/// The value of digits behind digits: the first, moved by the number of
/// the second, and the second.
pub proof fn lemma_value_concat(a: Seq<u8>, b: Seq<u8>)
    ensures
        digits_value(a + b) == digits_value(a) * pow10(b.len()) + digits_value(b),
    decreases b.len(),
{
    if b.len() == 0 {
        assert(a + b =~= a);
        assert(digits_value(a) * pow10(0) == digits_value(a)) by (nonlinear_arith)
            requires
                pow10(0) == 1,
        ;
    } else {
        lemma_value_concat(a, b.drop_last());
        assert((a + b).drop_last() =~= a + b.drop_last());
        assert((a + b).last() == b.last());
        let x = digits_value(a);
        let p = pow10(b.drop_last().len());
        let y = digits_value(b.drop_last());
        assert(pow10(b.len()) == 10 * p);
        assert((x * p + y) * 10 == x * (10 * p) + y * 10) by (nonlinear_arith);
    }
}

/// Digits stand for a number below the power of ten of their count.
pub proof fn lemma_value_bound(digits: Seq<u8>)
    requires
        is_digits(digits),
    ensures
        digits_value(digits) < pow10(digits.len()),
    decreases digits.len(),
{
    if digits.len() > 0 {
        lemma_value_bound(digits.drop_last());
        assert(0x30 <= digits[digits.len() - 1] <= 0x39);
    }
}

pub proof fn lemma_value_zeros(n: nat)
    ensures
        digits_value(zeros(n)) == 0,
    decreases n,
{
    if n > 0 {
        lemma_value_zeros((n - 1) as nat);
        assert(zeros(n).drop_last() =~= zeros((n - 1) as nat));
    }
}

/// Digits that begin with another digit than `0` stand for a number that
/// is at least the power of ten of their count less one.
pub proof fn lemma_value_least(digits: Seq<u8>)
    requires
        is_digits(digits),
        digits.len() > 0,
        digits[0] != 0x30,
    ensures
        digits_value(digits) >= pow10((digits.len() - 1) as nat),
    decreases digits.len(),
{
    assert(0x30 <= digits[0] <= 0x39);
    if digits.len() == 1 {
        assert(digits.drop_last().len() == 0);
        assert(digits_value(digits.drop_last()) == 0);
    } else {
        assert(0x30 <= digits[digits.len() - 1] <= 0x39);
        lemma_value_least(digits.drop_last());
    }
}

/// The limit lies between two powers of ten.
pub proof fn lemma_limit_bounds()
    ensures
        limit_prefix(18) == binary64_limit(),
        pow10(308) < binary64_limit() < pow10(309),
{
    lemma_limit_prefix();
    lemma_pow10_18();
    let p18 = pow10(18);
    lemma_pow10_add(18, 18);
    lemma_pow10_add(36, 36);
    lemma_pow10_add(72, 72);
    lemma_pow10_add(144, 144);
    lemma_pow10_add(288, 18);
    lemma_pow10_add(306, 2);
    lemma_pow10_add(306, 3);
    assert(pow10(2) == 100 && pow10(3) == 1000) by {
        reveal_with_fuel(pow10, 4);
    }
    let p36 = p18 * p18;
    let p72 = p36 * p36;
    let p144 = p72 * p72;
    let p288 = p144 * p144;
    let p306 = p288 * p18;
    assert(pow10(306) == p306);
    assert(pow10(308) == p306 * 100);
    assert(pow10(309) == p306 * 1000);
    assert(p306 * 100 < binary64_limit() < p306 * 1000) by (nonlinear_arith)
        requires
            p18 == 1_000_000_000_000_000_000,
            p36 == p18 * p18,
            p72 == p36 * p36,
            p144 == p72 * p72,
            p288 == p144 * p144,
            p306 == p288 * p18,
    ;
}

/// The groups of digits are those of the limit.
proof fn lemma_limit_prefix()
    ensures
        limit_prefix(18) == binary64_limit(),
{
    assert(limit_prefix(0) == 0);
    assert(limit_prefix(1) == 179);
    assert(limit_prefix(2) == limit_prefix(1) * 1_000_000_000_000_000_000 + limit_group(1));
    assert(limit_prefix(3) == limit_prefix(2) * 1_000_000_000_000_000_000 + limit_group(2));
    assert(limit_prefix(4) == limit_prefix(3) * 1_000_000_000_000_000_000 + limit_group(3));
    assert(limit_prefix(5) == limit_prefix(4) * 1_000_000_000_000_000_000 + limit_group(4));
    assert(limit_prefix(6) == limit_prefix(5) * 1_000_000_000_000_000_000 + limit_group(5));
    assert(limit_prefix(7) == limit_prefix(6) * 1_000_000_000_000_000_000 + limit_group(6));
    assert(limit_prefix(8) == limit_prefix(7) * 1_000_000_000_000_000_000 + limit_group(7));
    assert(limit_prefix(9) == limit_prefix(8) * 1_000_000_000_000_000_000 + limit_group(8));
    assert(limit_prefix(10) == limit_prefix(9) * 1_000_000_000_000_000_000 + limit_group(9));
    assert(limit_prefix(11) == limit_prefix(10) * 1_000_000_000_000_000_000 + limit_group(10));
    assert(limit_prefix(12) == limit_prefix(11) * 1_000_000_000_000_000_000 + limit_group(11));
    assert(limit_prefix(13) == limit_prefix(12) * 1_000_000_000_000_000_000 + limit_group(12));
    assert(limit_prefix(14) == limit_prefix(13) * 1_000_000_000_000_000_000 + limit_group(13));
    assert(limit_prefix(15) == limit_prefix(14) * 1_000_000_000_000_000_000 + limit_group(14));
    assert(limit_prefix(16) == limit_prefix(15) * 1_000_000_000_000_000_000 + limit_group(15));
    assert(limit_prefix(17) == limit_prefix(16) * 1_000_000_000_000_000_000 + limit_group(16));
    assert(limit_prefix(18) == limit_prefix(17) * 1_000_000_000_000_000_000 + limit_group(17));
}

pub proof fn lemma_pow10_18()
    ensures
        pow10(18) == 1_000_000_000_000_000_000,
        pow10(3) == 1_000,
{
    reveal_with_fuel(pow10, 10);
    assert(pow10(9) == 1_000_000_000);
    lemma_pow10_add(9, 9);
}

/// Whether a magnitude of as many digits as the limit has reaches the
/// limit is decided by its leading digits; one of fewer digits stays below
/// it and one of more digits is beyond it.
pub proof fn lemma_magnitude(digits: Seq<u8>, scale: int)
    requires
        is_digits(digits),
        digits.len() > 0,
        digits[0] != 0x30,
    ensures
        digits.len() + scale < limit_digits() ==> !rounds_to_infinity(
            digits_value(digits),
            scale,
        ),
        digits.len() + scale > limit_digits() ==> rounds_to_infinity(digits_value(digits), scale),
        digits.len() + scale == limit_digits() ==> (rounds_to_infinity(
            digits_value(digits),
            scale,
        ) <==> digits_value(leading(digits)) >= binary64_limit()),
{
    let n = digits.len();
    let value = digits_value(digits);
    let limit = binary64_limit();
    lemma_value_bound(digits);
    lemma_value_least(digits);
    lemma_limit_bounds();
    let least = pow10((n - 1) as nat);
    let most = pow10(n);
    if scale >= 0 {
        let by = pow10(scale as nat);
        lemma_pow10_positive(scale as nat);
        lemma_pow10_add(n, scale as nat);
        lemma_pow10_add((n - 1) as nat, scale as nat);
        assert(least * by <= value * by < most * by) by (nonlinear_arith)
            requires
                least <= value < most,
                by > 0,
        ;
        if n + scale < limit_digits() {
            lemma_pow10_monotonic((n + scale) as nat, 308);
        } else if n + scale > limit_digits() {
            lemma_pow10_monotonic(309, (n - 1 + scale) as nat);
        } else if scale == 0 {
            assert(leading(digits) =~= digits);
            assert(value * by == value) by (nonlinear_arith)
                requires
                    by == 1,
            ;
        } else {
            assert(leading(digits) == digits + zeros(scale as nat));
            lemma_value_concat(digits, zeros(scale as nat));
            lemma_value_zeros(scale as nat);
            assert(zeros(scale as nat).len() == scale);
        }
    } else {
        let by = pow10((-scale) as nat);
        lemma_pow10_positive((-scale) as nat);
        if n + scale < limit_digits() {
            if n + scale <= 0 {
                lemma_pow10_monotonic(n, (-scale) as nat);
                assert(by <= limit * by) by (nonlinear_arith)
                    requires
                        limit >= 1,
                        by > 0,
                ;
            } else {
                lemma_pow10_add((n + scale) as nat, (-scale) as nat);
                lemma_pow10_monotonic((n + scale) as nat, 308);
                let head = pow10((n + scale) as nat);
                assert(head * by < limit * by) by (nonlinear_arith)
                    requires
                        head < limit,
                        by > 0,
                ;
            }
        } else if n + scale > limit_digits() {
            lemma_pow10_add((n - 1 + scale) as nat, (-scale) as nat);
            lemma_pow10_monotonic(309, (n - 1 + scale) as nat);
            let head = pow10((n - 1 + scale) as nat);
            assert(head * by > limit * by) by (nonlinear_arith)
                requires
                    head > limit,
                    by > 0,
            ;
        } else {
            let first = digits.take(limit_digits() as int);
            let rest = digits.skip(limit_digits() as int);
            assert(digits =~= first + rest);
            assert(leading(digits) == first);
            assert(rest.len() == -scale);
            lemma_value_concat(first, rest);
            lemma_value_bound(rest);
            let high = digits_value(first);
            let low = digits_value(rest);
            assert(value == high * by + low);
            assert((high * by + low >= limit * by) <==> high >= limit) by (nonlinear_arith)
                requires
                    0 <= low < by,
            ;
        }
    }
}

/// One group of digits more keeps the order of two numbers that differ,
/// and orders two equal numbers by the groups.
pub proof fn lemma_group_order(x: nat, y: nat, scale: nat, v: nat, c: nat)
    by (nonlinear_arith)
    requires
        v < scale,
        c < scale,
    ensures
        x < y ==> x * scale + v < y * scale + c,
        x > y ==> x * scale + v > y * scale + c,
        x == y ==> x * scale + v - v == y * scale + c - c,
{
}

/// The digits of a mantissa: those before the point, then those behind it.
pub open spec fn mantissa_digits(
    source: Seq<u8>,
    integral: (usize, usize),
    fraction: (usize, usize),
) -> Seq<u8> {
    source.subrange(integral.0 as int, integral.1 as int) + source.subrange(
        fraction.0 as int,
        fraction.1 as int,
    )
}

/// The digit of the mantissa at the position `at`.
fn mantissa_digit(source: &[u8], integral: (usize, usize), fraction: (usize, usize), at: usize) -> (digit:
    u8)
    requires
        all_digits(source@, integral.0 as int, integral.1 as int),
        all_digits(source@, fraction.0 as int, fraction.1 as int),
        integral.1 <= fraction.0,
        at < mantissa_digits(source@, integral, fraction).len(),
    ensures
        digit == mantissa_digits(source@, integral, fraction)[at as int],
        0x30 <= digit <= 0x39,
{
    if at < integral.1 - integral.0 {
        source[integral.0 + at]
    } else {
        source[fraction.0 + (at - (integral.1 - integral.0))]
    }
}

/// The digit at the position `at` of the leading digits of the mantissa
/// behind its first `skipped` digits.
fn leading_digit(
    source: &[u8],
    integral: (usize, usize),
    fraction: (usize, usize),
    skipped: usize,
    at: usize,
) -> (digit: u8)
    requires
        all_digits(source@, integral.0 as int, integral.1 as int),
        all_digits(source@, fraction.0 as int, fraction.1 as int),
        integral.1 <= fraction.0,
        skipped <= mantissa_digits(source@, integral, fraction).len(),
        at < limit_digits(),
    ensures
        digit == leading(mantissa_digits(source@, integral, fraction).skip(skipped as int))[at as int],
        0x30 <= digit <= 0x39,
{
    let total = (integral.1 - integral.0) + (fraction.1 - fraction.0);
    if at < total - skipped {
        mantissa_digit(source, integral, fraction, skipped + at)
    } else {
        0x30
    }
}

/// The number that the given group of the leading digits stands for.
fn group_value(
    source: &[u8],
    integral: (usize, usize),
    fraction: (usize, usize),
    skipped: usize,
    group: usize,
) -> (value: u64)
    requires
        all_digits(source@, integral.0 as int, integral.1 as int),
        all_digits(source@, fraction.0 as int, fraction.1 as int),
        integral.1 <= fraction.0,
        skipped <= mantissa_digits(source@, integral, fraction).len(),
        group < 18,
    ensures
        value == digits_value(
            leading(mantissa_digits(source@, integral, fraction).skip(skipped as int)).subrange(
                group_start(group as int),
                group_start(group + 1),
            ),
        ),
        value < group_scale(group as int),
{
    let ghost digits = leading(mantissa_digits(source@, integral, fraction).skip(skipped as int));
    let start: usize = if group == 0 {
        0
    } else {
        18 * group - 15
    };
    let end: usize = 18 * group + 3;
    let mut value: u64 = 0;
    let mut at: usize = start;
    proof {
        lemma_pow10_18();
        assert(digits.subrange(start as int, start as int) =~= Seq::<u8>::empty());
    }
    while at < end
        invariant
            start <= at <= end <= limit_digits(),
            end - start <= 18,
            digits == leading(mantissa_digits(source@, integral, fraction).skip(skipped as int)),
            digits.len() == limit_digits(),
            all_digits(source@, integral.0 as int, integral.1 as int),
            all_digits(source@, fraction.0 as int, fraction.1 as int),
            integral.1 <= fraction.0,
            skipped <= mantissa_digits(source@, integral, fraction).len(),
            value == digits_value(digits.subrange(start as int, at as int)),
            value < pow10((at - start) as nat),
            pow10(18) == 1_000_000_000_000_000_000,
        decreases end - at,
    {
        let digit = leading_digit(source, integral, fraction, skipped, at);
        proof {
            let next = digits.subrange(start as int, at + 1);
            assert(next.drop_last() =~= digits.subrange(start as int, at as int));
            assert(next.last() == digit);
            lemma_pow10_monotonic((at + 1 - start) as nat, 18);
        }
        value = value * 10 + (digit - 0x30) as u64;
        at += 1;
    }
    proof {
        if group == 0 {
            assert(pow10(3) == 1_000);
        } else {
            assert(end - start == 18);
        }
    }
    value
}

/// The digits of the limit, in eighteen groups.
fn limit_group_of(group: usize) -> (value: u64)
    requires
        group < 18,
    ensures
        value == limit_group(group as int),
        value < group_scale(group as int),
{
    if group == 0 {
        179
    } else if group == 1 {
        769313486231580793
    } else if group == 2 {
        728971405303415079
    } else if group == 3 {
        934132710037826936
    } else if group == 4 {
        173778980444968292
    } else if group == 5 {
        764750946649017977
    } else if group == 6 {
        587207096330286416
    } else if group == 7 {
        692887910946555547
    } else if group == 8 {
        851940402630657488
    } else if group == 9 {
        671505820681908902
    } else if group == 10 {
        708383676273854
    } else if group == 11 {
        845817711531764475
    } else if group == 12 {
        730270069855571366
    } else if group == 13 {
        959622842914819860
    } else if group == 14 {
        834936475292719074
    } else if group == 15 {
        168444365510704342
    } else if group == 16 {
        711559699508093042
    } else {
        880177904174497792
    }
}

/// Whether the leading digits of the mantissa behind its first `skipped`
/// digits stand for a number that is at least the limit.
fn reaches_limit(
    source: &[u8],
    integral: (usize, usize),
    fraction: (usize, usize),
    skipped: usize,
) -> (reaches: bool)
    requires
        all_digits(source@, integral.0 as int, integral.1 as int),
        all_digits(source@, fraction.0 as int, fraction.1 as int),
        integral.1 <= fraction.0,
        skipped <= mantissa_digits(source@, integral, fraction).len(),
    ensures
        reaches == (digits_value(
            leading(mantissa_digits(source@, integral, fraction).skip(skipped as int)),
        ) >= binary64_limit()),
{
    let ghost digits = leading(mantissa_digits(source@, integral, fraction).skip(skipped as int));
    // 0: below the limit so far, 1: equal to it, 2: above it
    let mut order: u8 = 1;
    let mut group: usize = 0;
    proof {
        assert(digits.take(0) =~= Seq::<u8>::empty());
    }
    while group < 18
        invariant
            group <= 18,
            order <= 2,
            digits == leading(mantissa_digits(source@, integral, fraction).skip(skipped as int)),
            digits.len() == limit_digits(),
            all_digits(source@, integral.0 as int, integral.1 as int),
            all_digits(source@, fraction.0 as int, fraction.1 as int),
            integral.1 <= fraction.0,
            skipped <= mantissa_digits(source@, integral, fraction).len(),
            order == 0 <==> digits_value(digits.take(group_start(group as int))) < limit_prefix(
                group as int,
            ),
            order == 2 <==> digits_value(digits.take(group_start(group as int))) > limit_prefix(
                group as int,
            ),
        decreases 18 - group,
    {
        let value = group_value(source, integral, fraction, skipped, group);
        let limit = limit_group_of(group);
        proof {
            let start = group_start(group as int);
            let end = group_start(group + 1);
            assert(digits.take(end) =~= digits.take(start) + digits.subrange(start, end));
            lemma_value_concat(digits.take(start), digits.subrange(start, end));
            lemma_pow10_18();
            assert(pow10((end - start) as nat) == group_scale(group as int));
            lemma_group_order(
                digits_value(digits.take(start)),
                limit_prefix(group as int),
                group_scale(group as int),
                value as nat,
                limit as nat,
            );
        }
        if order == 1 {
            if value < limit {
                order = 0;
            } else if value > limit {
                order = 2;
            }
        }
        group += 1;
    }
    proof {
        lemma_limit_bounds();
        assert(digits.take(309) =~= digits);
    }
    order >= 1
}

/// The number that the digits of an exponent stand for, if it is below
/// ten to the power of 25; an exponent beyond that is out of all
/// proportion to the length of any mantissa.
fn exponent_size(source: &[u8], exponent: (usize, usize)) -> (size: Option<u128>)
    requires
        all_digits(source@, exponent.0 as int, exponent.1 as int),
    ensures
        match size {
            Some(value) => value == digits_value(
                source@.subrange(exponent.0 as int, exponent.1 as int),
            ) && value < 10_000_000_000_000_000_000_000_000,
            None => digits_value(source@.subrange(exponent.0 as int, exponent.1 as int))
                >= 10_000_000_000_000_000_000_000_000,
        },
{
    let ghost digits = source@.subrange(exponent.0 as int, exponent.1 as int);
    let mut from = exponent.0;
    proof {
        assert(source@.subrange(exponent.0 as int, from as int) =~= zeros(0));
        assert(pow10(25) == 10_000_000_000_000_000_000_000_000) by {
            lemma_pow10_18();
            lemma_pow10_add(18, 7);
            reveal_with_fuel(pow10, 8);
        }
    }
    while from < exponent.1 && source[from] == 0x30
        invariant
            exponent.0 <= from <= exponent.1 <= source@.len(),
            source@.subrange(exponent.0 as int, from as int) =~= zeros((from - exponent.0) as nat),
        decreases exponent.1 - from,
    {
        from += 1;
    }
    let ghost rest = source@.subrange(from as int, exponent.1 as int);
    proof {
        assert(digits =~= zeros((from - exponent.0) as nat) + rest);
        lemma_value_concat(zeros((from - exponent.0) as nat), rest);
        lemma_value_zeros((from - exponent.0) as nat);
        assert(digits_value(zeros((from - exponent.0) as nat)) * pow10(rest.len()) == 0)
            by (nonlinear_arith)
            requires
                digits_value(zeros((from - exponent.0) as nat)) == 0,
        ;
        assert(is_digits(rest));
    }
    if exponent.1 - from > 25 {
        proof {
            lemma_value_least(rest);
            lemma_pow10_monotonic(25, (rest.len() - 1) as nat);
        }
        return None;
    }
    let mut value: u128 = 0;
    let mut at = from;
    proof {
        assert(rest.take(0) =~= Seq::<u8>::empty());
    }
    while at < exponent.1
        invariant
            from <= at <= exponent.1 <= source@.len(),
            exponent.1 - from <= 25,
            rest == source@.subrange(from as int, exponent.1 as int),
            is_digits(rest),
            value == digits_value(rest.take(at - from)),
            pow10(25) == 10_000_000_000_000_000_000_000_000,
        decreases exponent.1 - at,
    {
        proof {
            let next = rest.take(at + 1 - from);
            assert(next.drop_last() =~= rest.take(at - from));
            assert(next.last() == source@[at as int]);
            assert(is_digits(next));
            lemma_value_bound(next);
            lemma_pow10_monotonic(next.len(), 25);
            assert(0x30 <= rest[at - from] <= 0x39);
        }
        value = value * 10 + (source[at] - 0x30) as u128;
        at += 1;
    }
    proof {
        assert(rest.take(at - from) =~= rest);
        lemma_value_bound(rest);
        lemma_pow10_monotonic(rest.len(), 25);
    }
    Some(value)
}

/// How many digits `0` the mantissa begins with.
fn leading_zeros(source: &[u8], integral: (usize, usize), fraction: (usize, usize)) -> (skipped:
    usize)
    requires
        all_digits(source@, integral.0 as int, integral.1 as int),
        all_digits(source@, fraction.0 as int, fraction.1 as int),
        integral.1 <= fraction.0,
    ensures
        skipped <= mantissa_digits(source@, integral, fraction).len(),
        mantissa_digits(source@, integral, fraction).take(skipped as int) == zeros(skipped as nat),
        skipped < mantissa_digits(source@, integral, fraction).len() ==> mantissa_digits(
            source@,
            integral,
            fraction,
        )[skipped as int] != 0x30,
{
    let ghost mantissa = mantissa_digits(source@, integral, fraction);
    let total = (integral.1 - integral.0) + (fraction.1 - fraction.0);
    let mut skipped: usize = 0;
    proof {
        assert(mantissa.take(0) =~= zeros(0));
    }
    while skipped < total && mantissa_digit(source, integral, fraction, skipped) == 0x30
        invariant
            skipped <= total,
            total == mantissa.len(),
            mantissa == mantissa_digits(source@, integral, fraction),
            all_digits(source@, integral.0 as int, integral.1 as int),
            all_digits(source@, fraction.0 as int, fraction.1 as int),
            integral.1 <= fraction.0,
            mantissa.take(skipped as int) == zeros(skipped as nat),
        decreases total - skipped,
    {
        proof {
            let more = mantissa.take(skipped + 1);
            assert forall|i: int| 0 <= i < more.len() implies #[trigger] more[i] == 0x30 by {
                if i < skipped {
                    assert(mantissa.take(skipped as int)[i] == 0x30);
                }
            }
            assert(more =~= zeros((skipped + 1) as nat));
        }
        skipped += 1;
    }
    skipped
}

/// Zeros at the beginning of digits do not change their value, and what
/// follows them in a mantissa is digits.
proof fn lemma_stripped(
    source: Seq<u8>,
    integral: (usize, usize),
    fraction: (usize, usize),
    skipped: int,
)
    requires
        all_digits(source, integral.0 as int, integral.1 as int),
        all_digits(source, fraction.0 as int, fraction.1 as int),
        0 <= skipped <= mantissa_digits(source, integral, fraction).len(),
        mantissa_digits(source, integral, fraction).take(skipped) == zeros(skipped as nat),
    ensures
        is_digits(mantissa_digits(source, integral, fraction).skip(skipped)),
        digits_value(mantissa_digits(source, integral, fraction)) == digits_value(
            mantissa_digits(source, integral, fraction).skip(skipped),
        ),
{
    let mantissa = mantissa_digits(source, integral, fraction);
    let digits = mantissa.skip(skipped);
    assert(mantissa =~= zeros(skipped as nat) + digits);
    lemma_value_concat(zeros(skipped as nat), digits);
    lemma_value_zeros(skipped as nat);
    assert(digits_value(zeros(skipped as nat)) * pow10(digits.len()) == 0) by (nonlinear_arith)
        requires
            digits_value(zeros(skipped as nat)) == 0,
    ;
    assert forall|i: int| 0 <= i < digits.len() implies 0x30 <= #[trigger] digits[i] <= 0x39 by {
        assert(digits[i] == mantissa[skipped + i]);
        if skipped + i < integral.1 - integral.0 {
            assert(mantissa[skipped + i] == source[integral.0 + skipped + i]);
        } else {
            assert(mantissa[skipped + i] == source[fraction.0 + (skipped + i - (integral.1
                - integral.0))]);
        }
    }
}

/// Nothing times a power of ten stays below the limit.
proof fn lemma_nothing(scale: int)
    ensures
        !rounds_to_infinity(0, scale),
{
    lemma_limit_bounds();
    lemma_pow10_positive(308);
    if scale >= 0 {
        assert(0 * pow10(scale as nat) == 0) by (nonlinear_arith);
    } else {
        lemma_pow10_positive((-scale) as nat);
        assert(binary64_limit() * pow10((-scale) as nat) > 0) by (nonlinear_arith)
            requires
                binary64_limit() > 0,
                pow10((-scale) as nat) > 0,
        ;
    }
}

/// Decides whether a number is too large for a finite binary64
/// floating-point number. The number is given by the places of its digits
/// in `source`: the integral digits, behind them the digits of the
/// fraction and behind those the digits of the exponent, with the sign of
/// the exponent.
pub fn exceeds_binary64(
    source: &[u8],
    integral: (usize, usize),
    fraction: (usize, usize),
    exponent: (usize, usize),
    negative: bool,
) -> (exceeds: bool)
    requires
        all_digits(source@, integral.0 as int, integral.1 as int),
        all_digits(source@, fraction.0 as int, fraction.1 as int),
        all_digits(source@, exponent.0 as int, exponent.1 as int),
        integral.1 <= fraction.0,
    ensures
        exceeds == rounds_to_infinity(
            digits_value(mantissa_digits(source@, integral, fraction)),
            signed_value(source@.subrange(exponent.0 as int, exponent.1 as int), negative) - (
            fraction.1 - fraction.0),
        ),
{
    let ghost mantissa = mantissa_digits(source@, integral, fraction);
    let ghost scale = signed_value(
        source@.subrange(exponent.0 as int, exponent.1 as int),
        negative,
    ) - (fraction.1 - fraction.0);
    let total = (integral.1 - integral.0) + (fraction.1 - fraction.0);
    let skipped = leading_zeros(source, integral, fraction);
    let ghost digits = mantissa.skip(skipped as int);
    proof {
        lemma_stripped(source@, integral, fraction, skipped as int);
    }
    if skipped == total {
        proof {
            lemma_nothing(scale);
        }
        return false;
    }
    proof {
        assert(digits[0] == mantissa[skipped as int]);
        lemma_magnitude(digits, scale);
    }
    match exponent_size(source, exponent) {
        None => !negative,
        Some(size) => {
            let length = (total - skipped) as i128 - (fraction.1 - fraction.0) as i128;
            let magnitude: i128 = if negative {
                length - size as i128
            } else {
                length + size as i128
            };
            assert(magnitude == digits.len() + scale);
            if magnitude < 309 {
                false
            } else if magnitude > 309 {
                true
            } else {
                reaches_limit(source, integral, fraction, skipped)
            }
        },
    }
}

} // verus!
